//! A weighted undirected graph, stored as an adjacency table.
//!
//! Each node is identified by a string label and carries an ordered list of
//! `(neighbour, weight)` entries. An undirected edge is materialised as two
//! directed adjacency entries, one in each direction, with the same weight.
//! Duplicate parallel edges and self-loops are permitted and kept as-is.

use vstd::prelude::*;

verus! {

/// Reserved error kind: accessing a node that is not in the graph.
///
/// No operation of [`UndirectedGraph`] raises it — every mutating operation
/// creates missing nodes on demand — but it is kept for strict lookup
/// operations that a caller may build on top of the graph.
#[derive(Clone, Copy, Debug, PartialEq, Eq, Structural)]
pub struct NodeNotInGraph;

impl NodeNotInGraph {
    /// A human-readable description of the error.
    pub fn message(&self) -> (r: String)
        ensures
            r@ == "accessing a node that is not in the graph"@,
    {
        "accessing a node that is not in the graph".to_owned()
    }
}

/// The view of one adjacency row: each `(neighbour, weight)` entry by value.
pub open spec fn row_view(ns: Seq<(String, i32)>) -> Seq<(Seq<char>, i32)> {
    ns.map_values(|p: (String, i32)| (p.0@, p.1))
}

/// The view of a whole adjacency table: label to adjacency row.
/// Later rows win, so on a table with distinct keys each row is its key's image.
pub open spec fn table_view(t: Seq<(String, Vec<(String, i32)>)>) -> Map<
    Seq<char>,
    Seq<(Seq<char>, i32)>,
>
    decreases t.len(),
{
    if t.len() == 0 {
        Map::empty()
    } else {
        table_view(t.drop_last()).insert(t.last().0@, row_view(t.last().1@))
    }
}

/// Every key of an adjacency table appears in at most one row.
pub open spec fn distinct_keys(t: Seq<(String, Vec<(String, i32)>)>) -> bool {
    forall|i: int, j: int| 0 <= i < j < t.len() ==> t[i].0@ != t[j].0@
}

/// How many times the entry `(to, w)` occurs in one adjacency row.
pub open spec fn pair_count(ns: Seq<(Seq<char>, i32)>, to: Seq<char>, w: i32) -> nat
    decreases ns.len(),
{
    if ns.len() == 0 {
        0
    } else {
        pair_count(ns.drop_last(), to, w) + (if ns.last() == (to, w) {
            1nat
        } else {
            0nat
        })
    }
}

/// How many adjacency entries `(to, w)` the graph model holds under `from`.
/// A label that is not a node has no entries.
pub open spec fn edge_count(
    m: Map<Seq<char>, Seq<(Seq<char>, i32)>>,
    from: Seq<char>,
    to: Seq<char>,
    w: i32,
) -> nat {
    if m.dom().contains(from) {
        pair_count(m[from], to, w)
    } else {
        0
    }
}

/// How many times the directed triple `(from, to, w)` occurs in an edge listing.
pub open spec fn triple_count(
    es: Seq<(Seq<char>, Seq<char>, i32)>,
    from: Seq<char>,
    to: Seq<char>,
    w: i32,
) -> nat
    decreases es.len(),
{
    if es.len() == 0 {
        0
    } else {
        triple_count(es.drop_last(), from, to, w) + (if es.last() == (from, to, w) {
            1nat
        } else {
            0nat
        })
    }
}

/// The view of an edge listing, each triple by value.
pub open spec fn triples_view(es: Seq<(String, String, i32)>) -> Seq<(Seq<char>, Seq<char>, i32)> {
    es.map_values(|e: (String, String, i32)| (e.0@, e.1@, e.2))
}

/// What adding a node does to the graph model: a fresh label gets an empty
/// adjacency row, a present label leaves the model unchanged.
pub open spec fn spec_add_node(m: Map<Seq<char>, Seq<(Seq<char>, i32)>>, l: Seq<char>) -> Map<
    Seq<char>,
    Seq<(Seq<char>, i32)>,
> {
    if m.dom().contains(l) {
        m
    } else {
        m.insert(l, Seq::empty())
    }
}

/// What adding an undirected edge does to the graph model: both endpoints are
/// created if absent, then `(to, w)` is appended to `from`'s row and `(from, w)`
/// to `to`'s row. For a self-loop both entries land in the same row.
pub open spec fn spec_add_edge(
    m: Map<Seq<char>, Seq<(Seq<char>, i32)>>,
    from: Seq<char>,
    to: Seq<char>,
    w: i32,
) -> Map<Seq<char>, Seq<(Seq<char>, i32)>> {
    let with_nodes = spec_add_node(spec_add_node(m, from), to);
    let half = with_nodes.insert(from, with_nodes[from].push((to, w)));
    half.insert(to, half[to].push((from, w)))
}

/// A weighted undirected graph: an adjacency table from node label to the
/// ordered list of `(neighbour, weight)` entries incident to it.
pub struct UndirectedGraph {
    adjacency_table: Vec<(String, Vec<(String, i32)>)>,
}

impl View for UndirectedGraph {
    type V = Map<Seq<char>, Seq<(Seq<char>, i32)>>;

    closed spec fn view(&self) -> Map<Seq<char>, Seq<(Seq<char>, i32)>> {
        table_view(self.adjacency_table@)
    }
}

impl UndirectedGraph {
    /// Well-formed: one row per label, and the adjacency entries are
    /// symmetric — `(to, w)` under `from` exactly as often as `(from, w)`
    /// under `to`.
    pub closed spec fn wf(&self) -> bool {
        &&& distinct_keys(self.adjacency_table@)
        &&& forall|x: Seq<char>, y: Seq<char>, w: i32|
            #[trigger] edge_count(self@, x, y, w) == edge_count(self@, y, x, w)
    }

    /// Returns the empty graph: no nodes, no edges.
    pub fn new() -> (g: UndirectedGraph)
        ensures
            g.wf(),
            g@ == Map::<Seq<char>, Seq<(Seq<char>, i32)>>::empty(),
    {
        let g = UndirectedGraph { adjacency_table: Vec::new() };
        proof {
            assert(g.adjacency_table@.len() == 0);
            assert(forall|x: Seq<char>, y: Seq<char>, w: i32|
                #[trigger] edge_count(g@, x, y, w) == 0);
        }
        g
    }

    /// True exactly when `node` is a node of the graph.
    pub fn contains(&self, node: &str) -> (r: bool)
        requires
            self.wf(),
        ensures
            r == self@.dom().contains(node@),
    {
        let node_string = node.to_owned();
        let mut i: usize = 0;
        while i < self.adjacency_table.len()
            invariant
                i <= self.adjacency_table@.len(),
                node_string@ == node@,
                forall|k: int| 0 <= k < i ==> self.adjacency_table@[k].0@ != node@,
            decreases self.adjacency_table@.len() - i,
        {
            if self.adjacency_table[i].0 == node_string {
                proof {
                    lemma_table_view_dom_has(self.adjacency_table@, i as int);
                }
                return true;
            }
            i += 1;
        }
        proof {
            lemma_table_view_dom_absent(self.adjacency_table@, node@);
        }
        false
    }

    /// Inserts `node` with an empty adjacency row if it is absent.
    ///
    /// Returns `true` exactly when the node was newly inserted; when the node
    /// already exists the graph is left unchanged and `false` is returned.
    pub fn add_node(&mut self, node: &str) -> (r: bool)
        requires
            old(self).wf(),
        ensures
            final(self).wf(),
            r == !old(self)@.dom().contains(node@),
            final(self)@ == spec_add_node(old(self)@, node@),
    {
        if self.contains(node) {
            return false;
        }
        let ghost t = self.adjacency_table@;
        let ghost m = self@;
        let empty_row: Vec<(String, i32)> = Vec::new();
        self.adjacency_table.push((node.to_owned(), empty_row));
        proof {
            let t2 = self.adjacency_table@;
            assert(t2.drop_last() =~= t);
            assert(row_view(t2.last().1@) =~= Seq::<(Seq<char>, i32)>::empty());
            assert(self@ == m.insert(node@, Seq::<(Seq<char>, i32)>::empty()));
            assert forall|k: int| 0 <= k < t.len() implies t[k].0@ != node@ by {
                if t[k].0@ == node@ {
                    lemma_table_view_dom_has(t, k);
                }
            }
            assert(distinct_keys(t2));
            assert forall|x: Seq<char>, y: Seq<char>, w: i32|
                #[trigger] edge_count(self@, x, y, w) == edge_count(self@, y, x, w) by {
                lemma_edge_count_insert(m, node@, Seq::empty(), x, y, w);
                lemma_edge_count_insert(m, node@, Seq::empty(), y, x, w);
                assert(pair_count(Seq::empty(), y, w) == 0);
                assert(pair_count(Seq::empty(), x, w) == 0);
                assert(edge_count(m, x, y, w) == edge_count(m, y, x, w));
            }
        }
        true
    }

    /// Appends `(to, w)` to the adjacency row of the present node `key`.
    ///
    /// This is one directed half of an undirected edge; the caller restores
    /// symmetry by appending the mirrored entry under `to`.
    fn push_entry(&mut self, key: &str, to: &str, w: i32)
        requires
            distinct_keys(old(self).adjacency_table@),
            old(self)@.dom().contains(key@),
        ensures
            distinct_keys(final(self).adjacency_table@),
            final(self)@ == old(self)@.insert(key@, old(self)@[key@].push((to@, w))),
    {
        let key_string = key.to_owned();
        let mut i: usize = 0;
        while i < self.adjacency_table.len()
            invariant
                i <= self.adjacency_table@.len(),
                key_string@ == key@,
                *self == *old(self),
                distinct_keys(self.adjacency_table@),
                forall|k: int| 0 <= k < i ==> self.adjacency_table@[k].0@ != key@,
            decreases self.adjacency_table@.len() - i,
        {
            if self.adjacency_table[i].0 == key_string {
                let ghost t = self.adjacency_table@;
                proof {
                    lemma_table_view_index(t, i as int);
                }
                let entry = (to.to_owned(), w);
                let row = &mut self.adjacency_table[i];
                row.1.push(entry);
                proof {
                    let t2 = self.adjacency_table@;
                    assert(t2 == t.update(i as int, t2[i as int]));
                    assert(t2[i as int].0@ == key@);
                    assert(t2[i as int].1@ == t[i as int].1@.push(entry));
                    assert(row_view(t2[i as int].1@) =~= row_view(t[i as int].1@).push((to@, w)));
                    lemma_table_view_update(t, i as int, t2[i as int]);
                    assert(forall|k: int| 0 <= k < t2.len() ==> t2[k].0@ == t[k].0@);
                }
                return;
            }
            i += 1;
        }
        proof {
            lemma_table_view_dom_absent(self.adjacency_table@, key@);
        }
    }

    /// Adds the undirected edge `(from, to, weight)`, creating either endpoint
    /// if it is absent, then appending the entry `(to, weight)` to `from`'s
    /// adjacency row and `(from, weight)` to `to`'s.
    ///
    /// Repeated calls with the same arguments add duplicate parallel edges;
    /// a self-loop (`from == to`) puts both entries in the same row.
    pub fn add_edge(&mut self, edge: (&str, &str, i32))
        requires
            old(self).wf(),
        ensures
            final(self).wf(),
            final(self)@ == spec_add_edge(old(self)@, edge.0@, edge.1@, edge.2),
    {
        let (from, to, weight) = edge;
        let ghost m0 = self@;
        self.add_node(from);
        self.add_node(to);
        let ghost g2 = *self;
        let ghost m2 = self@;
        proof {
            assert(m2 == spec_add_node(spec_add_node(m0, from@), to@));
            assert(spec_add_node(m0, from@).dom().contains(from@));
            assert(m2.dom().contains(from@));
            assert(m2.dom().contains(to@));
            assert(distinct_keys(self.adjacency_table@));
        }
        self.push_entry(from, to, weight);
        let ghost m3 = self@;
        proof {
            assert(m3 == m2.insert(from@, m2[from@].push((to@, weight))));
            assert(m3.dom().contains(to@));
        }
        self.push_entry(to, from, weight);
        proof {
            let m4 = self@;
            assert(m4 == m3.insert(to@, m3[to@].push((from@, weight))));
            assert(m4 == spec_add_edge(m0, from@, to@, weight));
            assert(g2.wf());
            assert forall|x: Seq<char>, y: Seq<char>, w2: i32|
                #[trigger] edge_count(m4, x, y, w2) == edge_count(m4, y, x, w2) by {
                lemma_edge_count_append(m2, from@, to@, weight, x, y, w2);
                lemma_edge_count_append(m2, from@, to@, weight, y, x, w2);
                lemma_edge_count_append(m3, to@, from@, weight, x, y, w2);
                lemma_edge_count_append(m3, to@, from@, weight, y, x, w2);
                assert(edge_count(m2, x, y, w2) == edge_count(m2, y, x, w2));
            }
        }
    }

    /// Returns every node label exactly once, in no guaranteed order.
    pub fn nodes(&self) -> (r: Vec<String>)
        requires
            self.wf(),
        ensures
            forall|i: int| 0 <= i < r@.len() ==> self@.dom().contains(#[trigger] r@[i]@),
            forall|l: Seq<char>|
                #[trigger] self@.dom().contains(l) ==> exists|i: int|
                    0 <= i < r@.len() && r@[i]@ == l,
            forall|i: int, j: int| 0 <= i < j < r@.len() ==> r@[i]@ != r@[j]@,
            r@.len() == self@.dom().len(),
    {
        let mut r: Vec<String> = Vec::new();
        let mut i: usize = 0;
        while i < self.adjacency_table.len()
            invariant
                i <= self.adjacency_table@.len(),
                r@.len() == i,
                forall|k: int| 0 <= k < i ==> r@[k]@ == self.adjacency_table@[k].0@,
            decreases self.adjacency_table@.len() - i,
        {
            r.push(self.adjacency_table[i].0.clone());
            i += 1;
        }
        proof {
            let t = self.adjacency_table@;
            lemma_table_view_dom_len(t);
            assert forall|k: int| 0 <= k < r@.len() implies self@.dom().contains(
                #[trigger] r@[k]@,
            ) by {
                lemma_table_view_dom_has(t, k);
            }
            assert forall|l: Seq<char>| #[trigger] self@.dom().contains(l) implies exists|k: int|
                0 <= k < r@.len() && r@[k]@ == l by {
                if forall|k: int| 0 <= k < t.len() ==> t[k].0@ != l {
                    lemma_table_view_dom_absent(t, l);
                } else {
                    let k = choose|k: int| 0 <= k < t.len() && t[k].0@ == l;
                    assert(r@[k]@ == l);
                }
            }
        }
        r
    }

    /// Flattens the adjacency table into directed `(from, to, weight)` triples.
    ///
    /// Each undirected edge appears once in each direction; a triple occurs in
    /// the listing exactly as often as the graph holds that adjacency entry.
    /// The order of the listing is not part of the contract.
    pub fn edges(&self) -> (r: Vec<(String, String, i32)>)
        requires
            self.wf(),
        ensures
            forall|x: Seq<char>, y: Seq<char>, w: i32|
                #[trigger] triple_count(triples_view(r@), x, y, w) == edge_count(self@, x, y, w),
    {
        let ghost t = self.adjacency_table@;
        let mut r: Vec<(String, String, i32)> = Vec::new();
        let mut i: usize = 0;
        proof {
            assert(t.take(0) =~= Seq::<(String, Vec<(String, i32)>)>::empty());
            assert(triples_view(r@) =~= Seq::<(Seq<char>, Seq<char>, i32)>::empty());
        }
        while i < self.adjacency_table.len()
            invariant
                i <= t.len(),
                t == self.adjacency_table@,
                distinct_keys(t),
                forall|x: Seq<char>, y: Seq<char>, w: i32|
                    #[trigger] triple_count(triples_view(r@), x, y, w) == edge_count(
                        table_view(t.take(i as int)),
                        x,
                        y,
                        w,
                    ),
            decreases t.len() - i,
        {
            let ghost mprev = table_view(t.take(i as int));
            let ghost k = t[i as int].0@;
            let ghost ns = t[i as int].1@;
            proof {
                assert(ns.take(0) =~= Seq::<(String, i32)>::empty());
                assert(row_view(ns.take(0)) =~= Seq::<(Seq<char>, i32)>::empty());
            }
            let mut j: usize = 0;
            while j < self.adjacency_table[i].1.len()
                invariant
                    i < t.len(),
                    t == self.adjacency_table@,
                    j <= ns.len(),
                    k == t[i as int].0@,
                    ns == t[i as int].1@,
                    mprev == table_view(t.take(i as int)),
                    forall|x: Seq<char>, y: Seq<char>, w: i32|
                        #[trigger] triple_count(triples_view(r@), x, y, w) == edge_count(
                            mprev,
                            x,
                            y,
                            w,
                        ) + (if x == k {
                            pair_count(row_view(ns.take(j as int)), y, w)
                        } else {
                            0nat
                        }),
                decreases ns.len() - j,
            {
                let ghost r0 = r@;
                let row = &self.adjacency_table[i];
                let e = (row.0.clone(), row.1[j].0.clone(), row.1[j].1);
                r.push(e);
                proof {
                    let p = (ns[j as int].0@, ns[j as int].1);
                    assert(triples_view(r@) =~= triples_view(r0).push((k, p.0, p.1)));
                    assert(row_view(ns.take(j as int + 1)) =~= row_view(ns.take(j as int)).push(
                        p,
                    ));
                    assert forall|x: Seq<char>, y: Seq<char>, w: i32|
                        #[trigger] triple_count(triples_view(r@), x, y, w) == edge_count(
                            mprev,
                            x,
                            y,
                            w,
                        ) + (if x == k {
                            pair_count(row_view(ns.take(j as int + 1)), y, w)
                        } else {
                            0nat
                        }) by {
                        lemma_triple_count_push(triples_view(r0), (k, p.0, p.1), x, y, w);
                        lemma_pair_count_push(row_view(ns.take(j as int)), p, y, w);
                    }
                }
                j += 1;
            }
            proof {
                assert(ns.take(ns.len() as int) =~= ns);
                assert(t.take(i as int + 1).drop_last() =~= t.take(i as int));
                assert(t.take(i as int + 1).last() == t[i as int]);
                assert(forall|kk: int| 0 <= kk < i ==> t.take(i as int)[kk] == t[kk]);
                lemma_table_view_dom_absent(t.take(i as int), k);
                assert forall|x: Seq<char>, y: Seq<char>, w: i32|
                    #[trigger] triple_count(triples_view(r@), x, y, w) == edge_count(
                        table_view(t.take(i as int + 1)),
                        x,
                        y,
                        w,
                    ) by {
                    lemma_edge_count_insert(mprev, k, row_view(ns), x, y, w);
                }
            }
            i += 1;
        }
        proof {
            assert(t.take(t.len() as int) =~= t);
        }
        r
    }

    /// Read-only access to the adjacency table itself.
    pub fn adjacency_table(&self) -> (r: &Vec<(String, Vec<(String, i32)>)>)
        requires
            self.wf(),
        ensures
            table_view(r@) == self@,
            distinct_keys(r@),
    {
        &self.adjacency_table
    }
}

/// Adding a node never disturbs the adjacency entries of any label.
proof fn lemma_edge_count_add_node(
    m: Map<Seq<char>, Seq<(Seq<char>, i32)>>,
    l: Seq<char>,
    x: Seq<char>,
    y: Seq<char>,
    w: i32,
)
    ensures
        edge_count(spec_add_node(m, l), x, y, w) == edge_count(m, x, y, w),
{
    if !m.dom().contains(l) {
        lemma_edge_count_insert(m, l, Seq::empty(), x, y, w);
        assert(pair_count(Seq::empty(), y, w) == 0);
    }
}

/// A label just added is a node, and adding the same label again leaves the
/// graph model unchanged.
pub proof fn lemma_add_node_idempotent(m: Map<Seq<char>, Seq<(Seq<char>, i32)>>, l: Seq<char>)
    ensures
        spec_add_node(m, l).dom().contains(l),
        spec_add_node(spec_add_node(m, l), l) == spec_add_node(m, l),
{
}

/// Adding an undirected edge between two distinct labels makes both labels
/// nodes of the graph and raises the count of each of the two directed
/// triples `(from, to, w)` and `(to, from, w)` by exactly one, so both occur
/// in the edge listing afterwards.
pub proof fn lemma_add_edge_effect(
    m: Map<Seq<char>, Seq<(Seq<char>, i32)>>,
    from: Seq<char>,
    to: Seq<char>,
    w: i32,
)
    requires
        from != to,
    ensures
        spec_add_edge(m, from, to, w).dom() =~= m.dom().insert(from).insert(to),
        edge_count(spec_add_edge(m, from, to, w), from, to, w) == edge_count(m, from, to, w) + 1,
        edge_count(spec_add_edge(m, from, to, w), to, from, w) == edge_count(m, to, from, w) + 1,
{
    let m2 = spec_add_node(spec_add_node(m, from), to);
    let m3 = m2.insert(from, m2[from].push((to, w)));
    assert(m2.dom().contains(from));
    assert(m2.dom().contains(to));
    lemma_edge_count_add_node(m, from, from, to, w);
    lemma_edge_count_add_node(spec_add_node(m, from), to, from, to, w);
    lemma_edge_count_add_node(m, from, to, from, w);
    lemma_edge_count_add_node(spec_add_node(m, from), to, to, from, w);
    lemma_edge_count_append(m2, from, to, w, from, to, w);
    lemma_edge_count_append(m2, from, to, w, to, from, w);
    assert(m3.dom().contains(to));
    lemma_edge_count_append(m3, to, from, w, from, to, w);
    lemma_edge_count_append(m3, to, from, w, to, from, w);
}

/// Symmetry of the edge listing: any listing whose triple counts agree with a
/// well-formed graph holds each directed triple `(x, y, w)` exactly as often
/// as its mirror `(y, x, w)`.
pub proof fn lemma_edges_symmetric(
    g: &UndirectedGraph,
    es: Seq<(Seq<char>, Seq<char>, i32)>,
    x: Seq<char>,
    y: Seq<char>,
    w: i32,
)
    requires
        g.wf(),
        forall|a: Seq<char>, b: Seq<char>, c: i32|
            #[trigger] triple_count(es, a, b, c) == edge_count(g@, a, b, c),
    ensures
        triple_count(es, x, y, w) == triple_count(es, y, x, w),
{
    assert(edge_count(g@, x, y, w) == edge_count(g@, y, x, w));
}

/// The triple at any index of a listing is counted at least once.
pub proof fn lemma_triple_count_at_index(es: Seq<(Seq<char>, Seq<char>, i32)>, i: int)
    requires
        0 <= i < es.len(),
    ensures
        triple_count(es, es[i].0, es[i].1, es[i].2) > 0,
    decreases es.len(),
{
    if i < es.len() - 1 {
        assert(es.drop_last()[i] == es[i]);
        lemma_triple_count_at_index(es.drop_last(), i);
    } else {
        assert(es.last() == es[i]);
    }
}

/// A triple counted at least once stands at some index of the listing.
pub proof fn lemma_triple_count_index_exists(
    es: Seq<(Seq<char>, Seq<char>, i32)>,
    x: Seq<char>,
    y: Seq<char>,
    w: i32,
)
    requires
        triple_count(es, x, y, w) > 0,
    ensures
        exists|i: int| 0 <= i < es.len() && es[i] == (x, y, w),
    decreases es.len(),
{
    if es.last() == (x, y, w) {
        assert(es[es.len() - 1] == (x, y, w));
    } else {
        lemma_triple_count_index_exists(es.drop_last(), x, y, w);
        let i = choose|i: int| 0 <= i < es.drop_last().len() && es.drop_last()[i] == (x, y, w);
        assert(es[i] == (x, y, w));
    }
}

/// Symmetry of the edge listing, element by element: whichever triple stands
/// in the listing of a well-formed graph, its mirror with the endpoints
/// swapped and the same weight stands in the listing as well.
pub proof fn lemma_edges_mirror_in_listing(
    g: &UndirectedGraph,
    es: Seq<(Seq<char>, Seq<char>, i32)>,
    i: int,
)
    requires
        g.wf(),
        forall|a: Seq<char>, b: Seq<char>, c: i32|
            #[trigger] triple_count(es, a, b, c) == edge_count(g@, a, b, c),
        0 <= i < es.len(),
    ensures
        exists|j: int| 0 <= j < es.len() && es[j] == (es[i].1, es[i].0, es[i].2),
{
    lemma_triple_count_at_index(es, i);
    lemma_edges_symmetric(g, es, es[i].0, es[i].1, es[i].2);
    lemma_triple_count_index_exists(es, es[i].1, es[i].0, es[i].2);
}

/// Appending an entry to a row raises the count of exactly that entry by one.
proof fn lemma_pair_count_push(
    ns: Seq<(Seq<char>, i32)>,
    p: (Seq<char>, i32),
    to: Seq<char>,
    w: i32,
)
    ensures
        pair_count(ns.push(p), to, w) == pair_count(ns, to, w) + (if p == (to, w) {
            1nat
        } else {
            0nat
        }),
{
    assert(ns.push(p).drop_last() =~= ns);
    assert(ns.push(p).last() == p);
}

/// Appending a triple to a listing raises the count of exactly that triple by one.
proof fn lemma_triple_count_push(
    es: Seq<(Seq<char>, Seq<char>, i32)>,
    e: (Seq<char>, Seq<char>, i32),
    from: Seq<char>,
    to: Seq<char>,
    w: i32,
)
    ensures
        triple_count(es.push(e), from, to, w) == triple_count(es, from, to, w) + (if e == (
            from,
            to,
            w,
        ) {
            1nat
        } else {
            0nat
        }),
{
    assert(es.push(e).drop_last() =~= es);
    assert(es.push(e).last() == e);
}

/// How `edge_count` reads a model after one row is inserted or replaced.
proof fn lemma_edge_count_insert(
    m: Map<Seq<char>, Seq<(Seq<char>, i32)>>,
    k: Seq<char>,
    row: Seq<(Seq<char>, i32)>,
    x: Seq<char>,
    y: Seq<char>,
    w: i32,
)
    ensures
        edge_count(m.insert(k, row), x, y, w) == if x == k {
            pair_count(row, y, w)
        } else {
            edge_count(m, x, y, w)
        },
{
}

/// Appending one adjacency entry under a present key raises the count of
/// exactly that directed edge by one and leaves every other count unchanged.
proof fn lemma_edge_count_append(
    m: Map<Seq<char>, Seq<(Seq<char>, i32)>>,
    f: Seq<char>,
    t: Seq<char>,
    w: i32,
    x: Seq<char>,
    y: Seq<char>,
    w2: i32,
)
    requires
        m.dom().contains(f),
    ensures
        edge_count(m.insert(f, m[f].push((t, w))), x, y, w2) == edge_count(m, x, y, w2) + (if x
            == f && y == t && w2 == w {
            1nat
        } else {
            0nat
        }),
{
    lemma_edge_count_insert(m, f, m[f].push((t, w)), x, y, w2);
    lemma_pair_count_push(m[f], (t, w), y, w2);
}

/// The key of any row of `t` is in the domain of `table_view(t)`.
proof fn lemma_table_view_dom_has(t: Seq<(String, Vec<(String, i32)>)>, i: int)
    requires
        0 <= i < t.len(),
    ensures
        table_view(t).dom().contains(t[i].0@),
    decreases t.len(),
{
    if i < t.len() - 1 {
        lemma_table_view_dom_has(t.drop_last(), i);
        assert(t.drop_last()[i] == t[i]);
    }
}

/// On a table with distinct keys, `table_view` maps each row's key to exactly
/// that row's entries.
proof fn lemma_table_view_index(t: Seq<(String, Vec<(String, i32)>)>, i: int)
    requires
        distinct_keys(t),
        0 <= i < t.len(),
    ensures
        table_view(t).dom().contains(t[i].0@),
        table_view(t)[t[i].0@] == row_view(t[i].1@),
    decreases t.len(),
{
    if i < t.len() - 1 {
        assert(forall|k: int| 0 <= k < t.drop_last().len() ==> t.drop_last()[k] == t[k]);
        lemma_table_view_index(t.drop_last(), i);
        assert(t[i].0@ != t.last().0@);
    }
}

/// Replacing one row of a distinct-keyed table by a row with the same key
/// replaces exactly that key's image in the view.
proof fn lemma_table_view_update(
    t: Seq<(String, Vec<(String, i32)>)>,
    i: int,
    row: (String, Vec<(String, i32)>),
)
    requires
        distinct_keys(t),
        0 <= i < t.len(),
        row.0@ == t[i].0@,
    ensures
        table_view(t.update(i, row)) == table_view(t).insert(row.0@, row_view(row.1@)),
    decreases t.len(),
{
    let t2 = t.update(i, row);
    if i == t.len() - 1 {
        assert(t2.drop_last() =~= t.drop_last());
        assert(t2.last() == row);
        assert(table_view(t.drop_last()).insert(t.last().0@, row_view(t.last().1@)).insert(
            row.0@,
            row_view(row.1@),
        ) =~= table_view(t.drop_last()).insert(row.0@, row_view(row.1@)));
    } else {
        assert(forall|k: int| 0 <= k < t.drop_last().len() ==> t.drop_last()[k] == t[k]);
        assert(t2.drop_last() =~= t.drop_last().update(i, row));
        assert(t2.last() == t.last());
        lemma_table_view_update(t.drop_last(), i, row);
        assert(row.0@ != t.last().0@);
        assert(table_view(t.drop_last()).insert(row.0@, row_view(row.1@)).insert(
            t.last().0@,
            row_view(t.last().1@),
        ) =~= table_view(t.drop_last()).insert(t.last().0@, row_view(t.last().1@)).insert(
            row.0@,
            row_view(row.1@),
        ));
    }
}

/// On a table with distinct keys the view has exactly one node per row.
proof fn lemma_table_view_dom_len(t: Seq<(String, Vec<(String, i32)>)>)
    requires
        distinct_keys(t),
    ensures
        table_view(t).dom().finite(),
        table_view(t).dom().len() == t.len(),
    decreases t.len(),
{
    if t.len() == 0 {
        broadcast use vstd::set::axiom_set_empty_len;

        assert(table_view(t).dom() =~= Set::<Seq<char>>::empty());
    } else {
        assert(forall|k: int| 0 <= k < t.drop_last().len() ==> t.drop_last()[k] == t[k]);
        lemma_table_view_dom_len(t.drop_last());
        lemma_table_view_dom_absent(t.drop_last(), t.last().0@);
        vstd::set::axiom_set_insert_len(table_view(t.drop_last()).dom(), t.last().0@);
        assert(table_view(t).dom() =~= table_view(t.drop_last()).dom().insert(t.last().0@));
    }
}

/// A label carried by no row of `t` is outside the domain of `table_view(t)`.
proof fn lemma_table_view_dom_absent(t: Seq<(String, Vec<(String, i32)>)>, l: Seq<char>)
    requires
        forall|k: int| 0 <= k < t.len() ==> t[k].0@ != l,
    ensures
        !table_view(t).dom().contains(l),
    decreases t.len(),
{
    if t.len() > 0 {
        assert(forall|k: int| 0 <= k < t.drop_last().len() ==> t.drop_last()[k] == t[k]);
        lemma_table_view_dom_absent(t.drop_last(), l);
    }
}

} // verus!

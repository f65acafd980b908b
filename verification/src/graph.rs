//! The dependency-graph interface and the mathematical model of the
//! partitioning: paths, reachability, and the single-owner closure relation.

use vstd::prelude::*;
use crate::{EdgeData, Item};

verus! {

/// Read-only view of a module dependency graph.
///
/// An implementation answers four pure queries against an immutable snapshot
/// of the graph; it must stay consistent for the lifetime of one partitioning
/// call. The spec functions give the graph's mathematical content: the set of
/// nodes, the outgoing and incoming edge lists of each node, and each edge's
/// laziness.
pub trait DepGraph: Sized {
    /// All module identifiers that are nodes of the graph.
    spec fn node_set(&self) -> Set<Item>;

    /// Targets of the direct outgoing edges of `module`, in query order.
    spec fn dep_seq(&self, module: Item) -> Seq<Item>;

    /// Sources of the direct incoming edges of `module`, in query order.
    spec fn dependant_seq(&self, module: Item) -> Seq<Item>;

    /// Whether the edge from `from` to `to` is lazy (loaded on demand).
    spec fn edge_is_lazy(&self, from: Item, to: Item) -> bool;

    /// Direct dependencies: the targets of `module`'s outgoing edges.
    fn deps(&self, module: Item) -> (r: Vec<Item>)
        requires
            self.node_set().contains(module),
        ensures
            r@ == self.dep_seq(module),
    ;

    /// Direct dependants: the sources of `module`'s incoming edges.
    fn depandants(&self, module: Item) -> (r: Vec<Item>)
        requires
            self.node_set().contains(module),
        ensures
            r@ == self.dependant_seq(module),
    ;

    /// Attributes of the existing edge from `from` to `to`. Callers never
    /// query a pair that is not an edge of the graph.
    fn get_edge(&self, from: Item, to: Item) -> (r: EdgeData)
        requires
            self.node_set().contains(from),
            self.dep_seq(from).contains(to),
        ensures
            r.is_lazy == self.edge_is_lazy(from, to),
    ;

    /// Reachability test: whether some directed path leads from `from` to
    /// `to`. Not used by the partitioning itself, but part of the interface
    /// for callers that need cross-scope validation. The postcondition is
    /// `reachable(self, from, to)` spelled out with the trait's own spec
    /// functions; `lemma_has_path_form` restates it as `reachable`.
    fn has_path_connecting(&self, from: Item, to: Item) -> (r: bool)
        requires
            self.node_set().contains(from),
        ensures
            r == exists|p: Seq<Item>|
                p.len() >= 1 && p.first() == from && p.last() == to && (forall|i: int|
                    0 <= i < p.len() - 1 ==> self.dep_seq(#[trigger] p[i]).contains(p[i + 1])),
    ;
}

/// The path formulation used by `DepGraph::has_path_connecting` is exactly
/// `reachable`.
pub proof fn lemma_has_path_form<G: DepGraph>(g: &G, from: Item, to: Item)
    ensures
        (exists|p: Seq<Item>|
            p.len() >= 1 && p.first() == from && p.last() == to && (forall|i: int|
                0 <= i < p.len() - 1 ==> g.dep_seq(#[trigger] p[i]).contains(p[i + 1])))
            <==> reachable(g, from, to),
{
    if exists|p: Seq<Item>|
        p.len() >= 1 && p.first() == from && p.last() == to && (forall|i: int|
            0 <= i < p.len() - 1 ==> g.dep_seq(#[trigger] p[i]).contains(p[i + 1])) {
        let p = choose|p: Seq<Item>|
            p.len() >= 1 && p.first() == from && p.last() == to && (forall|i: int|
                0 <= i < p.len() - 1 ==> g.dep_seq(#[trigger] p[i]).contains(p[i + 1]));
        assert(is_path(g, p));
        reveal(reachable);
        assert(reachable(g, from, to));
    }
    if reachable(g, from, to) {
        reveal(reachable);
        let p = choose|p: Seq<Item>| is_path(g, p) && p.first() == from && p.last() == to;
        assert(forall|i: int|
            0 <= i < p.len() - 1 ==> g.dep_seq(#[trigger] p[i]).contains(p[i + 1]));
    }
}

/// Well-formedness of a graph snapshot: the node set is finite, every edge
/// stays inside the node set, the incoming and outgoing edge lists agree with
/// each other, and neither lists an edge twice.
pub open spec fn graph_wf<G: DepGraph>(g: &G) -> bool {
    &&& g.node_set().finite()
    &&& forall|a: Item, b: Item|
        g.node_set().contains(a) && #[trigger] g.dep_seq(a).contains(b)
            ==> g.node_set().contains(b)
    &&& forall|a: Item, b: Item|
        g.node_set().contains(a) && #[trigger] g.dependant_seq(a).contains(b)
            ==> g.node_set().contains(b)
    &&& forall|a: Item, b: Item|
        #![trigger g.dep_seq(a).contains(b)]
        #![trigger g.dependant_seq(b).contains(a)]
        g.node_set().contains(a) && g.node_set().contains(b)
            ==> (g.dep_seq(a).contains(b) <==> g.dependant_seq(b).contains(a))
    &&& forall|m: Item|
        g.node_set().contains(m) ==> (#[trigger] g.dep_seq(m)).no_duplicates()
    &&& forall|m: Item|
        g.node_set().contains(m) ==> (#[trigger] g.dependant_seq(m)).no_duplicates()
}

/// There is a direct edge from `a` to `b`.
pub open spec fn edge_to<G: DepGraph>(g: &G, a: Item, b: Item) -> bool {
    g.dep_seq(a).contains(b)
}

/// `m` has two or more direct dependants.
pub open spec fn shared<G: DepGraph>(g: &G, m: Item) -> bool {
    g.dependant_seq(m).len() >= 2
}

/// Some incoming edge of `m` is lazy.
pub open spec fn has_lazy_in_edge<G: DepGraph>(g: &G, m: Item) -> bool {
    exists|i: int|
        0 <= i < g.dependant_seq(m).len() && g.edge_is_lazy(#[trigger] g.dependant_seq(m)[i], m)
}

/// `m` must head a scope of its own in the partition rooted at `root`: it
/// is the root itself, it is shared by two or more dependants, or some
/// dependant loads it lazily. No scope may absorb such a module.
pub open spec fn forced_entry<G: DepGraph>(g: &G, root: Item, m: Item) -> bool {
    m == root || shared(g, m) || has_lazy_in_edge(g, m)
}

/// A nonempty walk along directed edges of `g`.
pub open spec fn is_path<G: DepGraph>(g: &G, p: Seq<Item>) -> bool {
    &&& p.len() >= 1
    &&& forall|i: int|
        0 <= i < p.len() - 1 ==> edge_to(g, #[trigger] p[i], p[i + 1])
}

/// A nonempty walk in which every step enters a module that no scope
/// boundary protects: not the root, not shared, and not the target of any
/// lazy edge. The single-owner closure of an entry follows such walks.
pub open spec fn is_owner_path<G: DepGraph>(g: &G, root: Item, p: Seq<Item>) -> bool {
    &&& p.len() >= 1
    &&& forall|i: int|
        0 <= i < p.len() - 1
            ==> edge_to(g, #[trigger] p[i], p[i + 1]) && !forced_entry(g, root, p[i + 1])
}

/// Some directed path leads from `from` to `to`.
#[verifier::opaque]
pub open spec fn reachable<G: DepGraph>(g: &G, from: Item, to: Item) -> bool {
    exists|p: Seq<Item>| is_path(g, p) && p.first() == from && p.last() == to
}

/// `m` belongs to the single-owner closure of `entry` in the partition
/// rooted at `root`: a walk from `entry` reaches `m` entering only modules
/// that are not themselves forced to head a scope.
#[verifier::opaque]
pub open spec fn in_closure<G: DepGraph>(g: &G, root: Item, entry: Item, m: Item) -> bool {
    exists|p: Seq<Item>|
        is_owner_path(g, root, p) && p.first() == entry && p.last() == m
}

/// Every module reaches itself.
pub proof fn lemma_reachable_refl<G: DepGraph>(g: &G, m: Item)
    ensures
        reachable(g, m, m),
{
    reveal(reachable);
    let p = seq![m];
    assert(is_path(g, p) && p.first() == m && p.last() == m);
}

/// Reachability extends over one more edge.
pub proof fn lemma_reachable_step<G: DepGraph>(g: &G, a: Item, x: Item, d: Item)
    requires
        reachable(g, a, x),
        edge_to(g, x, d),
    ensures
        reachable(g, a, d),
{
    reveal(reachable);
    let p = choose|p: Seq<Item>| is_path(g, p) && p.first() == a && p.last() == x;
    let q = p.push(d);
    assert forall|i: int| 0 <= i < q.len() - 1 implies edge_to(g, #[trigger] q[i], q[i + 1]) by {
        if i < p.len() - 1 {
            assert(q[i] == p[i] && q[i + 1] == p[i + 1]);
        } else {
            assert(q[i] == p.last() && q[i + 1] == d);
        }
    }
    assert(is_path(g, q) && q.first() == a && q.last() == d);
}

/// Every module is in its own closure.
pub proof fn lemma_closure_refl<G: DepGraph>(g: &G, root: Item, e: Item)
    ensures
        in_closure(g, root, e, e),
{
    reveal(in_closure);
    let p = seq![e];
    assert(is_owner_path(g, root, p) && p.first() == e && p.last() == e);
}

/// A closure extends over an edge into a module that is not forced to head
/// a scope of its own.
pub proof fn lemma_closure_step<G: DepGraph>(g: &G, root: Item, e: Item, x: Item, d: Item)
    requires
        in_closure(g, root, e, x),
        edge_to(g, x, d),
        !forced_entry(g, root, d),
    ensures
        in_closure(g, root, e, d),
{
    reveal(in_closure);
    let p = choose|p: Seq<Item>| is_owner_path(g, root, p) && p.first() == e && p.last() == x;
    let q = p.push(d);
    assert forall|i: int|
        0 <= i < q.len() - 1 implies edge_to(g, #[trigger] q[i], q[i + 1]) && !forced_entry(
        g,
        root,
        q[i + 1],
    ) by {
        if i < p.len() - 1 {
            assert(q[i] == p[i] && q[i + 1] == p[i + 1]);
        } else {
            assert(q[i] == p.last() && q[i + 1] == d);
        }
    }
    assert(is_owner_path(g, root, q) && q.first() == e && q.last() == d);
}

/// In a well-formed graph a path starting at a node stays inside the node set.
pub proof fn lemma_path_in_nodes<G: DepGraph>(g: &G, p: Seq<Item>)
    requires
        graph_wf(g),
        is_path(g, p),
        g.node_set().contains(p.first()),
    ensures
        forall|i: int| 0 <= i < p.len() ==> g.node_set().contains(#[trigger] p[i]),
    decreases p.len(),
{
    if p.len() > 1 {
        let q = p.drop_last();
        assert(is_path(g, q));
        assert(q.first() == p.first());
        lemma_path_in_nodes(g, q);
        assert forall|i: int| 0 <= i < p.len() implies g.node_set().contains(#[trigger] p[i]) by {
            if i < p.len() - 1 {
                assert(p[i] == q[i]);
            } else {
                assert(p[i - 1] == q[i - 1]);
                assert(g.node_set().contains(q[i - 1]));
                assert(edge_to(g, p[i - 1], p[i]));
            }
        }
    }
}

/// In a well-formed graph, whatever is reachable from a node is a node.
pub proof fn lemma_reachable_in_nodes<G: DepGraph>(g: &G, from: Item, to: Item)
    requires
        graph_wf(g),
        g.node_set().contains(from),
        reachable(g, from, to),
    ensures
        g.node_set().contains(to),
{
    reveal(reachable);
    let p = choose|p: Seq<Item>| is_path(g, p) && p.first() == from && p.last() == to;
    lemma_path_in_nodes(g, p);
    assert(g.node_set().contains(p[p.len() - 1]));
}

/// Two single-owner walks that start at distinct forced entries cannot end
/// in the same module: every module a walk enters is unforced, so it has at
/// most one dependant, and walking backwards from a shared end the two
/// walks coincide step by step until one walk's forced entry would itself
/// have to be an unforced module entered by the other walk.
pub proof fn lemma_owner_paths_no_merge<G: DepGraph>(
    g: &G,
    root: Item,
    p1: Seq<Item>,
    p2: Seq<Item>,
)
    requires
        graph_wf(g),
        is_owner_path(g, root, p1),
        is_owner_path(g, root, p2),
        g.node_set().contains(p1.first()),
        g.node_set().contains(p2.first()),
        forced_entry(g, root, p1.first()),
        forced_entry(g, root, p2.first()),
        p1.first() != p2.first(),
    ensures
        p1.last() != p2.last(),
    decreases p1.len() + p2.len(),
{
    if p1.last() == p2.last() {
        let m = p1.last();
        assert(is_path(g, p1));
        assert(is_path(g, p2));
        lemma_path_in_nodes(g, p1);
        lemma_path_in_nodes(g, p2);
        if p1.len() == 1 && p2.len() == 1 {
            assert(p1.first() == p2.first());
        } else if p1.len() == 1 {
            // m is p1's forced entry, yet p2 enters it as an unforced module.
            let q = p2[p2.len() - 2];
            assert(edge_to(g, q, p2[p2.len() - 1]) && !forced_entry(g, root, p2[p2.len() - 1]));
            assert(p2[p2.len() - 1] == m);
        } else if p2.len() == 1 {
            let q = p1[p1.len() - 2];
            assert(edge_to(g, q, p1[p1.len() - 1]) && !forced_entry(g, root, p1[p1.len() - 1]));
            assert(p1[p1.len() - 1] == m);
        } else {
            // Both walks enter m; m is unforced, so not shared, so they
            // enter it from the same module, and the shortened walks merge.
            let q1 = p1[p1.len() - 2];
            let q2 = p2[p2.len() - 2];
            assert(edge_to(g, q1, p1[p1.len() - 1]) && !forced_entry(g, root, p1[p1.len() - 1]));
            assert(edge_to(g, q2, p2[p2.len() - 1]));
            assert(p1[p1.len() - 1] == m && p2[p2.len() - 1] == m);
            assert(!shared(g, m));
            assert(g.node_set().contains(q1) && g.node_set().contains(q2));
            assert(g.node_set().contains(m));
            assert(g.dependant_seq(m).contains(q1));
            assert(g.dependant_seq(m).contains(q2));
            if q1 != q2 {
                let k1 = choose|k: int|
                    0 <= k < g.dependant_seq(m).len() && g.dependant_seq(m)[k] == q1;
                let k2 = choose|k: int|
                    0 <= k < g.dependant_seq(m).len() && g.dependant_seq(m)[k] == q2;
                assert(k1 != k2);
                assert(g.dependant_seq(m).len() >= 2);
            }
            let r1 = p1.drop_last();
            let r2 = p2.drop_last();
            assert forall|i: int|
                0 <= i < r1.len() - 1 implies edge_to(g, #[trigger] r1[i], r1[i + 1])
                && !forced_entry(g, root, r1[i + 1]) by {
                assert(r1[i] == p1[i] && r1[i + 1] == p1[i + 1]);
            }
            assert forall|i: int|
                0 <= i < r2.len() - 1 implies edge_to(g, #[trigger] r2[i], r2[i + 1])
                && !forced_entry(g, root, r2[i + 1]) by {
                assert(r2[i] == p2[i] && r2[i + 1] == p2[i + 1]);
            }
            assert(is_owner_path(g, root, r1));
            assert(is_owner_path(g, root, r2));
            assert(r1.first() == p1.first() && r2.first() == p2.first());
            assert(r1.last() == q1 && r2.last() == q2);
            lemma_owner_paths_no_merge(g, root, r1, r2);
        }
    }
}

/// Closures of two distinct forced entries share no module.
pub proof fn lemma_distinct_entries_disjoint<G: DepGraph>(
    g: &G,
    root: Item,
    e1: Item,
    e2: Item,
    m: Item,
)
    requires
        graph_wf(g),
        g.node_set().contains(e1),
        g.node_set().contains(e2),
        forced_entry(g, root, e1),
        forced_entry(g, root, e2),
        e1 != e2,
    ensures
        !(in_closure(g, root, e1, m) && in_closure(g, root, e2, m)),
{
    if in_closure(g, root, e1, m) && in_closure(g, root, e2, m) {
        reveal(in_closure);
        let p1 = choose|p: Seq<Item>|
            is_owner_path(g, root, p) && p.first() == e1 && p.last() == m;
        let p2 = choose|p: Seq<Item>|
            is_owner_path(g, root, p) && p.first() == e2 && p.last() == m;
        lemma_owner_paths_no_merge(g, root, p1, p2);
    }
}

/// A set that contains a walk's start and is closed under following edges
/// into unforced modules contains the walk's end.
pub proof fn lemma_closed_covers_owner_path<G: DepGraph>(
    g: &G,
    root: Item,
    s: Set<Item>,
    p: Seq<Item>,
)
    requires
        is_owner_path(g, root, p),
        s.contains(p.first()),
        forall|x: Item, d: Item|
            #[trigger] s.contains(x) && #[trigger] edge_to(g, x, d) && !forced_entry(g, root, d)
                ==> s.contains(d),
    ensures
        s.contains(p.last()),
    decreases p.len(),
{
    if p.len() > 1 {
        let q = p.drop_last();
        assert(is_owner_path(g, root, q));
        assert(q.first() == p.first());
        lemma_closed_covers_owner_path(g, root, s, q);
        assert(edge_to(g, p[p.len() - 2], p.last()) && !forced_entry(g, root, p.last()));
        assert(q.last() == p[p.len() - 2]);
    }
}

/// A set that contains a walk's start and is closed under following edges
/// contains the walk's end.
pub proof fn lemma_closed_covers_path<G: DepGraph>(g: &G, s: Set<Item>, p: Seq<Item>)
    requires
        is_path(g, p),
        s.contains(p.first()),
        forall|x: Item, d: Item|
            #[trigger] s.contains(x) && #[trigger] edge_to(g, x, d) ==> s.contains(d),
    ensures
        s.contains(p.last()),
    decreases p.len(),
{
    if p.len() > 1 {
        let q = p.drop_last();
        assert(is_path(g, q));
        assert(q.first() == p.first());
        lemma_closed_covers_path(g, s, q);
        assert(edge_to(g, p[p.len() - 2], p.last()));
        assert(q.last() == p[p.len() - 2]);
    }
}

} // verus!

//! Properties of the partitioning, proved against the contracts of
//! `split_scopes` and the closure model.
//!
//! Each law takes the entry sequence `es` whose existence the postcondition
//! of `split_scopes` guarantees (`group_matches`) and concludes a fact
//! about the returned scope group.

use vstd::prelude::*;
use crate::graph::{
    edge_to, forced_entry, graph_wf, has_lazy_in_edge, in_closure, is_path,
    lemma_closure_refl, lemma_closure_step, lemma_distinct_entries_disjoint,
    lemma_reachable_in_nodes, lemma_reachable_step, reachable, shared, DepGraph,
};
use crate::group::{group_matches, scope_matches, ModuleScopeGroup};
use crate::Item;

verus! {

/// Every module on a path from the root lies in the closure of some entry,
/// provided the entries are exactly the reachable forced entries.
proof fn lemma_path_covered<G: DepGraph>(g: &G, root: Item, es: Seq<Item>, p: Seq<Item>)
    requires
        graph_wf(g),
        is_path(g, p),
        p.first() == root,
        forall|e: Item| #[trigger]
            es.contains(e) <==> reachable(g, root, e) && forced_entry(g, root, e),
    ensures
        exists|k: int| 0 <= k < es.len() && in_closure(g, root, #[trigger] es[k], p.last()),
    decreases p.len(),
{
    reveal(crate::graph::reachable);
    if p.len() == 1 {
        crate::graph::lemma_reachable_refl(g, root);
        assert(es.contains(root));
        let k = choose|k: int| 0 <= k < es.len() && es[k] == root;
        lemma_closure_refl(g, root, root);
        assert(in_closure(g, root, es[k], p.last()));
    } else {
        let q = p.drop_last();
        assert(is_path(g, q));
        assert(q.first() == root);
        lemma_path_covered(g, root, es, q);
        let prev = p[p.len() - 2];
        assert(edge_to(g, prev, p[p.len() - 1]));
        assert(q.last() == prev);
        let m = p.last();
        if forced_entry(g, root, m) {
            assert(is_path(g, p) && p.first() == root && p.last() == m);
            assert(reachable(g, root, m));
            assert(es.contains(m));
            let k = choose|k: int| 0 <= k < es.len() && es[k] == m;
            lemma_closure_refl(g, root, m);
            assert(in_closure(g, root, es[k], m));
        } else {
            let k = choose|k: int|
                0 <= k < es.len() && in_closure(g, root, #[trigger] es[k], prev);
            lemma_closure_step(g, root, es[k], prev, m);
            assert(in_closure(g, root, es[k], m));
        }
    }
}

/// Totality: every module reachable from the root is a member of at least
/// one scope of the result.
pub proof fn lemma_scope_totality<G: DepGraph>(
    g: &G,
    root: Item,
    es: Seq<Item>,
    r: ModuleScopeGroup,
    m: Item,
)
    requires
        graph_wf(g),
        group_matches(g, root, es, r),
        reachable(g, root, m),
    ensures
        exists|k: int|
            0 <= k < r.scopes@.len() && (#[trigger] r.scopes@[k]).modules@.contains(m),
{
    reveal(crate::graph::reachable);
    let p = choose|p: Seq<Item>| is_path(g, p) && p.first() == root && p.last() == m;
    lemma_path_covered(g, root, es, p);
    let k = choose|k: int| 0 <= k < es.len() && in_closure(g, root, #[trigger] es[k], m);
    assert(scope_matches(g, root, es[k], r.scopes@[k]));
    assert(r.scopes@[k].modules@.contains(m));
}

/// Disjointness: no module is a member of two distinct scopes of a result.
pub proof fn lemma_scope_disjointness<G: DepGraph>(
    g: &G,
    root: Item,
    es: Seq<Item>,
    r: ModuleScopeGroup,
    i: int,
    j: int,
    m: Item,
)
    requires
        graph_wf(g),
        g.node_set().contains(root),
        group_matches(g, root, es, r),
        0 <= i < r.scopes@.len(),
        0 <= j < r.scopes@.len(),
        i != j,
    ensures
        !((#[trigger] r.scopes@[i]).modules@.contains(m)
            && (#[trigger] r.scopes@[j]).modules@.contains(m)),
{
    let ei = es[i];
    let ej = es[j];
    assert(es.contains(ei) && es.contains(ej));
    assert(reachable(g, root, ei) && forced_entry(g, root, ei));
    assert(reachable(g, root, ej) && forced_entry(g, root, ej));
    lemma_reachable_in_nodes(g, root, ei);
    lemma_reachable_in_nodes(g, root, ej);
    assert(ei != ej);
    lemma_distinct_entries_disjoint(g, root, ei, ej, m);
    assert(scope_matches(g, root, ei, r.scopes@[i]));
    assert(scope_matches(g, root, ej, r.scopes@[j]));
    if r.scopes@[i].modules@.contains(m) && r.scopes@[j].modules@.contains(m) {
        assert(in_closure(g, root, ei, m) && in_closure(g, root, ej, m));
    }
}

/// Entry inclusion: the root is a member of some scope of every result, and
/// that scope is the root's own — its entry is the root.
pub proof fn lemma_entry_inclusion<G: DepGraph>(
    g: &G,
    root: Item,
    es: Seq<Item>,
    r: ModuleScopeGroup,
)
    requires
        group_matches(g, root, es, r),
    ensures
        exists|k: int|
            0 <= k < r.scopes@.len() && es[k] == root
                && (#[trigger] r.scopes@[k]).modules@.contains(root),
{
    let k = choose|k: int| 0 <= k < es.len() && es[k] == root;
    assert(scope_matches(g, root, root, r.scopes@[k]));
    assert(r.scopes@[k].modules@.contains(root));
}

/// A forced entry appears only in its own scope: every other scope of a
/// result excludes it.
proof fn lemma_forced_entry_own_scope<G: DepGraph>(
    g: &G,
    root: Item,
    es: Seq<Item>,
    r: ModuleScopeGroup,
    b: Item,
)
    requires
        graph_wf(g),
        group_matches(g, root, es, r),
        reachable(g, root, b),
        forced_entry(g, root, b),
    ensures
        exists|k: int|
            0 <= k < r.scopes@.len() && es[k] == b
                && (#[trigger] r.scopes@[k]).modules@.contains(b),
        forall|k: int|
            0 <= k < r.scopes@.len() && es[k] != b ==> !(#[trigger] r.scopes@[k]).modules@.contains(
                b,
            ),
{
    assert(es.contains(b));
    let k0 = choose|k: int| 0 <= k < es.len() && es[k] == b;
    assert(scope_matches(g, root, b, r.scopes@[k0]));
    assert(r.scopes@[k0].modules@.contains(b));
    assert forall|k: int|
        0 <= k < r.scopes@.len() && es[k] != b implies !(#[trigger] r.scopes@[k]).modules@.contains(
        b,
    ) by {
        assert(scope_matches(g, root, es[k], r.scopes@[k]));
        if r.scopes@[k].modules@.contains(b) {
            assert(in_closure(g, root, es[k], b));
            reveal(crate::graph::in_closure);
            let p = choose|p: Seq<Item>|
                crate::graph::is_owner_path(g, root, p) && p.first() == es[k] && p.last() == b;
            if p.len() == 1 {
                assert(es[k] == b);
            } else {
                let prev = p[p.len() - 2];
                assert(edge_to(g, prev, p[p.len() - 1]) && !forced_entry(
                    g,
                    root,
                    p[p.len() - 1],
                ));
                assert(p[p.len() - 1] == b);
            }
        }
    }
}

/// Lazy isolation: the target of a lazy edge from a reachable module heads
/// a scope of its own and is a member of no other scope, whatever its
/// dependant count.
pub proof fn lemma_lazy_target_isolated<G: DepGraph>(
    g: &G,
    root: Item,
    es: Seq<Item>,
    r: ModuleScopeGroup,
    a: Item,
    b: Item,
)
    requires
        graph_wf(g),
        g.node_set().contains(root),
        group_matches(g, root, es, r),
        reachable(g, root, a),
        edge_to(g, a, b),
        g.edge_is_lazy(a, b),
    ensures
        exists|k: int|
            0 <= k < r.scopes@.len() && es[k] == b
                && (#[trigger] r.scopes@[k]).modules@.contains(b),
        forall|k: int|
            0 <= k < r.scopes@.len() && es[k] != b ==> !(#[trigger] r.scopes@[k]).modules@.contains(
                b,
            ),
{
    lemma_reachable_step(g, root, a, b);
    lemma_reachable_in_nodes(g, root, a);
    lemma_reachable_in_nodes(g, root, b);
    assert(g.dependant_seq(b).contains(a));
    let i = choose|i: int| 0 <= i < g.dependant_seq(b).len() && g.dependant_seq(b)[i] == a;
    assert(g.edge_is_lazy(g.dependant_seq(b)[i], b));
    assert(has_lazy_in_edge(g, b));
    lemma_forced_entry_own_scope(g, root, es, r, b);
}

/// Shared-module isolation: a reachable module with two or more dependants
/// heads a scope of its own and is a member of no other scope.
pub proof fn lemma_shared_module_isolated<G: DepGraph>(
    g: &G,
    root: Item,
    es: Seq<Item>,
    r: ModuleScopeGroup,
    b: Item,
)
    requires
        graph_wf(g),
        group_matches(g, root, es, r),
        reachable(g, root, b),
        shared(g, b),
    ensures
        exists|k: int|
            0 <= k < r.scopes@.len() && es[k] == b
                && (#[trigger] r.scopes@[k]).modules@.contains(b),
        forall|k: int|
            0 <= k < r.scopes@.len() && es[k] != b ==> !(#[trigger] r.scopes@[k]).modules@.contains(
                b,
            ),
{
    lemma_forced_entry_own_scope(g, root, es, r, b);
}

/// Single-owner absorption: a module other than the root whose only
/// dependant `a` reaches it over a non-lazy edge belongs to every scope
/// that holds `a` — it is absorbed rather than made an entry.
pub proof fn lemma_single_dependant_absorbed<G: DepGraph>(
    g: &G,
    root: Item,
    es: Seq<Item>,
    r: ModuleScopeGroup,
    k: int,
    a: Item,
    b: Item,
)
    requires
        group_matches(g, root, es, r),
        0 <= k < r.scopes@.len(),
        r.scopes@[k].modules@.contains(a),
        edge_to(g, a, b),
        !g.edge_is_lazy(a, b),
        g.dependant_seq(b).len() == 1,
        g.dependant_seq(b)[0] == a,
        b != root,
    ensures
        r.scopes@[k].modules@.contains(b),
{
    assert(scope_matches(g, root, es[k], r.scopes@[k]));
    assert(in_closure(g, root, es[k], a));
    assert(!shared(g, b));
    assert forall|i: int|
        0 <= i < g.dependant_seq(b).len() implies !g.edge_is_lazy(
        #[trigger] g.dependant_seq(b)[i],
        b,
    ) by {
        assert(i == 0);
    }
    assert(!has_lazy_in_edge(g, b));
    assert(!forced_entry(g, root, b));
    lemma_closure_step(g, root, es[k], a, b);
    assert(r.scopes@[k].modules@.contains(b));
}

/// Idempotence: two results for the same graph and root carry the same
/// scopes as sets. Every scope of the first result has a scope of the
/// second with exactly the same members; applying the law with the results
/// swapped gives the other direction, so the two families of module sets
/// are equal.
pub proof fn lemma_scopes_determined<G: DepGraph>(
    g: &G,
    root: Item,
    es1: Seq<Item>,
    r1: ModuleScopeGroup,
    es2: Seq<Item>,
    r2: ModuleScopeGroup,
)
    requires
        group_matches(g, root, es1, r1),
        group_matches(g, root, es2, r2),
    ensures
        forall|k1: int|
            0 <= k1 < r1.scopes@.len() ==> (exists|k2: int|
                0 <= k2 < r2.scopes@.len() && (forall|m: Item|
                    (#[trigger] r1.scopes@[k1]).modules@.contains(m)
                        <==> (#[trigger] r2.scopes@[k2]).modules@.contains(m))),
{
    assert forall|k1: int|
        0 <= k1 < r1.scopes@.len() implies (exists|k2: int|
        0 <= k2 < r2.scopes@.len() && (forall|m: Item|
            (#[trigger] r1.scopes@[k1]).modules@.contains(m)
                <==> (#[trigger] r2.scopes@[k2]).modules@.contains(m))) by {
        let e = es1[k1];
        assert(es1.contains(e));
        assert(reachable(g, root, e) && forced_entry(g, root, e));
        assert(es2.contains(e));
        let k2 = choose|k: int| 0 <= k < es2.len() && es2[k] == e;
        assert(scope_matches(g, root, e, r1.scopes@[k1]));
        assert(scope_matches(g, root, e, r2.scopes@[k2]));
        assert(forall|m: Item|
            (#[trigger] r1.scopes@[k1]).modules@.contains(m) <==> in_closure(g, root, e, m));
        assert(forall|m: Item|
            (#[trigger] r2.scopes@[k2]).modules@.contains(m) <==> in_closure(g, root, e, m));
    }
}

} // verus!

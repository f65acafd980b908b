//! The two traversals of the partitioning and the assembly of their result:
//! single-owner closure computation, entry discovery, and `split_scopes`.

use vstd::prelude::*;
use crate::graph::{
    edge_to, forced_entry, graph_wf, has_lazy_in_edge, in_closure, lemma_closed_covers_owner_path,
    lemma_closed_covers_path, lemma_closure_refl, lemma_closure_step, lemma_reachable_in_nodes,
    lemma_reachable_refl, lemma_reachable_step, reachable, shared, DepGraph,
};
use crate::item_set::{item_set_contents, ItemSet};
use crate::Item;

verus! {

broadcast use vstd::set::group_set_axioms;

/// Decides whether `m` must head a scope of its own in the partition rooted
/// at `root`: it is the root, it has two or more dependants, or one of its
/// incoming edges is lazy.
#[verifier::loop_isolation(false)]
fn is_forced_entry<G: DepGraph>(dep_graph: &G, root: Item, m: Item) -> (r: bool)
    requires
        graph_wf(dep_graph),
        dep_graph.node_set().contains(m),
    ensures
        r == forced_entry(dep_graph, root, m),
{
    if m == root {
        return true;
    }
    let dependants = dep_graph.depandants(m);
    if dependants.len() >= 2 {
        return true;
    }
    let mut i: usize = 0;
    while i < dependants.len()
        invariant
            i <= dependants.len(),
            forall|j: int|
                0 <= j < i ==> !dep_graph.edge_is_lazy(#[trigger] dependants@[j], m),
        decreases dependants.len() - i,
    {
        let a = dependants[i];
        proof {
            assert(dependants@[i as int] == a);
            assert(dep_graph.dependant_seq(m).contains(a));
            assert(dep_graph.node_set().contains(a));
            assert(dep_graph.dep_seq(a).contains(m));
        }
        let ed = dep_graph.get_edge(a, m);
        if ed.is_lazy {
            proof {
                assert(dep_graph.edge_is_lazy(dep_graph.dependant_seq(m)[i as int], m));
                assert(has_lazy_in_edge(dep_graph, m));
            }
            return true;
        }
        i = i + 1;
    }
    proof {
        assert(!shared(dep_graph, m));
        assert(!has_lazy_in_edge(dep_graph, m));
    }
    false
}

/// Computes the single-owner closure of `entry` for the partition rooted at
/// `root`: the modules reached from `entry` by repeatedly following edges
/// into modules that are not forced to head a scope of their own. The
/// result lists each member once, in unspecified order.
#[verifier::loop_isolation(false)]
#[verifier::rlimit(50)]
pub fn follow_single_edge<G: DepGraph>(dep_graph: &G, root: Item, entry: Item) -> (r: Vec<Item>)
    requires
        graph_wf(dep_graph),
        dep_graph.node_set().contains(entry),
    ensures
        r@.no_duplicates(),
        forall|m: Item| #[trigger] r@.contains(m) <==> in_closure(dep_graph, root, entry, m),
{
    let mut done = ItemSet::new();
    let mut queue: Vec<Item> = Vec::new();
    queue.push(entry);
    let mut head: usize = 0;
    proof {
        lemma_closure_refl(dep_graph, root, entry);
        assert(queue@[0] == entry);
    }
    while head < queue.len()
        invariant
            head <= queue.len(),
            item_set_contents(done).finite(),
            forall|m: Item| #[trigger]
                item_set_contents(done).contains(m) ==> dep_graph.node_set().contains(m),
            forall|i: int|
                0 <= i < queue@.len() ==> dep_graph.node_set().contains(#[trigger] queue@[i]),
            forall|m: Item| #[trigger]
                item_set_contents(done).contains(m) ==> in_closure(dep_graph, root, entry, m),
            forall|i: int|
                0 <= i < queue@.len() ==> in_closure(dep_graph, root, entry, #[trigger] queue@[i]),
            item_set_contents(done).contains(entry) || (exists|i: int|
                head <= i < queue@.len() && queue@[i] == entry),
            forall|x: Item, d: Item|
                #[trigger] item_set_contents(done).contains(x) && #[trigger] edge_to(
                    dep_graph,
                    x,
                    d,
                ) && !forced_entry(dep_graph, root, d) ==> item_set_contents(done).contains(d) || (
                exists|i: int| head <= i < queue@.len() && queue@[i] == d),
        decreases
            dep_graph.node_set().len() - item_set_contents(done).len(),
            queue.len() - head,
    {
        let ghost h0 = head as int;
        let ghost d0 = item_set_contents(done);
        let cur = queue[head];
        proof {
            assert(queue@[h0] == cur);
        }
        head = head + 1;
        if !done.contains(cur) {
            proof {
                vstd::set_lib::lemma_len_subset(item_set_contents(done), dep_graph.node_set());
            }
            done.insert(cur);
            proof {
                if !item_set_contents(done).contains(entry) {
                    let k = choose|k: int| h0 <= k < queue@.len() && queue@[k] == entry;
                    assert(k != h0);
                    assert(head <= k < queue@.len() && queue@[k] == entry);
                }
                assert forall|x: Item, d: Item|
                    #[trigger] item_set_contents(done).contains(x) && x != cur && #[trigger]
                    edge_to(dep_graph, x, d) && !forced_entry(dep_graph, root, d)
                        && !item_set_contents(done).contains(d) implies exists|k: int|
                    head <= k < queue@.len() && queue@[k] == d by {
                    let k = choose|k: int| h0 <= k < queue@.len() && queue@[k] == d;
                    assert(k != h0);
                    assert(queue@[k] == d);
                }
            }
            let deps = dep_graph.deps(cur);
            let mut i: usize = 0;
            while i < deps.len()
                invariant
                    i <= deps.len(),
                    head <= queue.len(),
                    forall|k: int|
                        0 <= k < queue@.len() ==> dep_graph.node_set().contains(
                            #[trigger] queue@[k],
                        ),
                    forall|k: int|
                        0 <= k < queue@.len() ==> in_closure(
                            dep_graph,
                            root,
                            entry,
                            #[trigger] queue@[k],
                        ),
                    item_set_contents(done).contains(entry) || (exists|k: int|
                        head <= k < queue@.len() && queue@[k] == entry),
                    forall|x: Item, d: Item|
                        #[trigger] item_set_contents(done).contains(x) && x != cur && #[trigger]
                        edge_to(dep_graph, x, d) && !forced_entry(dep_graph, root, d)
                            ==> item_set_contents(done).contains(d) || (exists|k: int|
                            head <= k < queue@.len() && queue@[k] == d),
                    forall|j: int|
                        0 <= j < i && !forced_entry(
                            dep_graph,
                            root,
                            #[trigger] dep_graph.dep_seq(cur)[j],
                        ) ==> item_set_contents(done).contains(dep_graph.dep_seq(cur)[j]) || (
                        exists|k: int|
                            head <= k < queue@.len() && queue@[k] == dep_graph.dep_seq(cur)[j]),
                decreases deps.len() - i,
            {
                let ghost q0 = queue@;
                let dep = deps[i];
                proof {
                    assert(dep_graph.dep_seq(cur)[i as int] == dep);
                    assert(dep_graph.dep_seq(cur).contains(dep));
                }
                if !is_forced_entry(dep_graph, root, dep) {
                    proof {
                        lemma_closure_step(dep_graph, root, entry, cur, dep);
                    }
                    queue.push(dep);
                    proof {
                        assert(queue@ == q0.push(dep));
                        assert(queue@[queue@.len() - 1] == dep);
                        if !item_set_contents(done).contains(entry) {
                            let k = choose|k: int| head <= k < q0.len() && q0[k] == entry;
                            assert(queue@[k] == entry);
                        }
                        assert forall|x: Item, d: Item|
                            #[trigger] item_set_contents(done).contains(x) && x != cur
                                && #[trigger] edge_to(dep_graph, x, d) && !forced_entry(
                                dep_graph,
                                root,
                                d,
                            ) && !item_set_contents(done).contains(d) implies exists|k: int|
                            head <= k < queue@.len() && queue@[k] == d by {
                            let k = choose|k: int| head <= k < q0.len() && q0[k] == d;
                            assert(queue@[k] == d);
                        }
                        assert forall|j: int|
                            0 <= j < i + 1 && !forced_entry(
                                dep_graph,
                                root,
                                #[trigger] dep_graph.dep_seq(cur)[j],
                            ) && !item_set_contents(done).contains(
                                dep_graph.dep_seq(cur)[j],
                            ) implies exists|k: int|
                            head <= k < queue@.len() && queue@[k] == dep_graph.dep_seq(cur)[j] by {
                            if j < i {
                                let k = choose|k: int|
                                    head <= k < q0.len() && q0[k] == dep_graph.dep_seq(cur)[j];
                                assert(queue@[k] == dep_graph.dep_seq(cur)[j]);
                            } else {
                                assert(queue@[queue@.len() - 1] == dep);
                            }
                        }
                    }
                }
                i = i + 1;
            }
            proof {
                assert forall|x: Item, d: Item|
                    #[trigger] item_set_contents(done).contains(x) && #[trigger] edge_to(
                        dep_graph,
                        x,
                        d,
                    ) && !forced_entry(dep_graph, root, d) implies item_set_contents(
                    done,
                ).contains(d) || (exists|k: int| head <= k < queue@.len() && queue@[k] == d) by {
                    if x == cur {
                        let j = choose|j: int|
                            0 <= j < dep_graph.dep_seq(cur).len() && dep_graph.dep_seq(cur)[j]
                                == d;
                        assert(!forced_entry(dep_graph, root, dep_graph.dep_seq(cur)[j]));
                    }
                }
            }
            proof {
                assert(item_set_contents(done) == d0.insert(cur));
                assert(item_set_contents(done).len() == d0.insert(cur).len());
                assert(item_set_contents(done).len() == d0.len() + 1);
                vstd::set_lib::lemma_len_subset(item_set_contents(done), dep_graph.node_set());
            }
        } else {
            proof {
                if !item_set_contents(done).contains(entry) {
                    let k = choose|k: int| h0 <= k < queue@.len() && queue@[k] == entry;
                    assert(k != h0);
                    assert(head <= k < queue@.len() && queue@[k] == entry);
                }
                assert forall|x: Item, d: Item|
                    #[trigger] item_set_contents(done).contains(x) && #[trigger] edge_to(
                        dep_graph,
                        x,
                        d,
                    ) && !forced_entry(dep_graph, root, d) && !item_set_contents(done).contains(
                    d,
                ) implies exists|k: int| head <= k < queue@.len() && queue@[k] == d by {
                    let k = choose|k: int| h0 <= k < queue@.len() && queue@[k] == d;
                    assert(k != h0);
                    assert(queue@[k] == d);
                }
            }
        }
    }
    let r = done.to_vec();
    proof {
        assert forall|m: Item| #[trigger] r@.contains(m) <==> in_closure(
            dep_graph,
            root,
            entry,
            m,
        ) by {
            if in_closure(dep_graph, root, entry, m) {
                reveal(crate::graph::in_closure);
                let p = choose|p: Seq<Item>|
                    crate::graph::is_owner_path(dep_graph, root, p) && p.first() == entry
                        && p.last() == m;
                lemma_closed_covers_owner_path(dep_graph, root, item_set_contents(done), p);
            }
        }
    }
    r
}

/// Discovers the scope entries for the graph reachable from `entry`:
/// exactly the reachable modules that `forced_entry` marks — the root
/// itself, every module shared by two or more dependants, and every target
/// of a lazy edge. The result lists each entry once, in unspecified order.
#[verifier::loop_isolation(false)]
#[verifier::rlimit(50)]
pub fn determine_entries<G: DepGraph>(dep_graph: &G, entry: Item) -> (r: Vec<Item>)
    requires
        graph_wf(dep_graph),
        dep_graph.node_set().contains(entry),
    ensures
        r@.no_duplicates(),
        r@.contains(entry),
        forall|e: Item| #[trigger]
            r@.contains(e) <==> reachable(dep_graph, entry, e) && forced_entry(
                dep_graph,
                entry,
                e,
            ),
{
    let mut visited = ItemSet::new();
    let mut entries = ItemSet::new();
    let mut queue: Vec<Item> = Vec::new();
    queue.push(entry);
    let mut head: usize = 0;
    proof {
        lemma_reachable_refl(dep_graph, entry);
        assert(queue@[0] == entry);
    }
    while head < queue.len()
        invariant
            head <= queue.len(),
            item_set_contents(visited).finite(),
            forall|m: Item| #[trigger]
                item_set_contents(visited).contains(m) ==> dep_graph.node_set().contains(m),
            forall|i: int|
                0 <= i < queue@.len() ==> dep_graph.node_set().contains(#[trigger] queue@[i]),
            forall|m: Item| #[trigger]
                item_set_contents(visited).contains(m) ==> reachable(dep_graph, entry, m),
            forall|i: int|
                0 <= i < queue@.len() ==> reachable(dep_graph, entry, #[trigger] queue@[i]),
            item_set_contents(visited).contains(entry) || (exists|i: int|
                head <= i < queue@.len() && queue@[i] == entry),
            forall|x: Item, d: Item|
                #[trigger] item_set_contents(visited).contains(x) && #[trigger] edge_to(
                    dep_graph,
                    x,
                    d,
                ) ==> item_set_contents(visited).contains(d) || (exists|i: int|
                    head <= i < queue@.len() && queue@[i] == d),
            forall|m: Item| #[trigger]
                item_set_contents(entries).contains(m) <==> item_set_contents(visited).contains(m)
                    && forced_entry(dep_graph, entry, m),
        decreases
            dep_graph.node_set().len() - item_set_contents(visited).len(),
            queue.len() - head,
    {
        let ghost h0 = head as int;
        let ghost v0 = item_set_contents(visited);
        let cur = queue[head];
        proof {
            assert(queue@[h0] == cur);
        }
        head = head + 1;
        if !visited.contains(cur) {
            proof {
                vstd::set_lib::lemma_len_subset(item_set_contents(visited), dep_graph.node_set());
            }
            visited.insert(cur);
            if is_forced_entry(dep_graph, entry, cur) {
                entries.insert(cur);
            }
            proof {
                if !item_set_contents(visited).contains(entry) {
                    let k = choose|k: int| h0 <= k < queue@.len() && queue@[k] == entry;
                    assert(k != h0);
                    assert(head <= k < queue@.len() && queue@[k] == entry);
                }
                assert forall|x: Item, d: Item|
                    #[trigger] item_set_contents(visited).contains(x) && x != cur && #[trigger]
                    edge_to(dep_graph, x, d) && !item_set_contents(visited).contains(
                    d,
                ) implies exists|k: int| head <= k < queue@.len() && queue@[k] == d by {
                    let k = choose|k: int| h0 <= k < queue@.len() && queue@[k] == d;
                    assert(k != h0);
                    assert(queue@[k] == d);
                }
            }
            let deps = dep_graph.deps(cur);
            let mut i: usize = 0;
            while i < deps.len()
                invariant
                    i <= deps.len(),
                    head <= queue.len(),
                    forall|k: int|
                        0 <= k < queue@.len() ==> dep_graph.node_set().contains(
                            #[trigger] queue@[k],
                        ),
                    forall|k: int|
                        0 <= k < queue@.len() ==> reachable(dep_graph, entry, #[trigger] queue@[k]),
                    item_set_contents(visited).contains(entry) || (exists|k: int|
                        head <= k < queue@.len() && queue@[k] == entry),
                    forall|x: Item, d: Item|
                        #[trigger] item_set_contents(visited).contains(x) && x != cur && #[trigger]
                        edge_to(dep_graph, x, d) ==> item_set_contents(visited).contains(d) || (
                        exists|k: int| head <= k < queue@.len() && queue@[k] == d),
                    forall|j: int|
                        0 <= j < i ==> item_set_contents(visited).contains(
                            #[trigger] dep_graph.dep_seq(cur)[j],
                        ) || (exists|k: int|
                            head <= k < queue@.len() && queue@[k] == dep_graph.dep_seq(cur)[j]),
                decreases deps.len() - i,
            {
                let ghost q0 = queue@;
                let dep = deps[i];
                proof {
                    assert(dep_graph.dep_seq(cur)[i as int] == dep);
                    assert(dep_graph.dep_seq(cur).contains(dep));
                    lemma_reachable_step(dep_graph, entry, cur, dep);
                }
                queue.push(dep);
                proof {
                    assert(queue@ == q0.push(dep));
                    assert(queue@[queue@.len() - 1] == dep);
                    if !item_set_contents(visited).contains(entry) {
                        let k = choose|k: int| head <= k < q0.len() && q0[k] == entry;
                        assert(queue@[k] == entry);
                    }
                    assert forall|x: Item, d: Item|
                        #[trigger] item_set_contents(visited).contains(x) && x != cur && #[trigger]
                        edge_to(dep_graph, x, d) && !item_set_contents(visited).contains(
                        d,
                    ) implies exists|k: int| head <= k < queue@.len() && queue@[k] == d by {
                        let k = choose|k: int| head <= k < q0.len() && q0[k] == d;
                        assert(queue@[k] == d);
                    }
                    assert forall|j: int|
                        0 <= j < i + 1 && !item_set_contents(visited).contains(
                            #[trigger] dep_graph.dep_seq(cur)[j],
                        ) implies exists|k: int|
                        head <= k < queue@.len() && queue@[k] == dep_graph.dep_seq(cur)[j] by {
                        if j < i {
                            let k = choose|k: int|
                                head <= k < q0.len() && q0[k] == dep_graph.dep_seq(cur)[j];
                            assert(queue@[k] == dep_graph.dep_seq(cur)[j]);
                        } else {
                            assert(queue@[queue@.len() - 1] == dep);
                        }
                    }
                }
                i = i + 1;
            }
            proof {
                assert forall|x: Item, d: Item|
                    #[trigger] item_set_contents(visited).contains(x) && #[trigger] edge_to(
                        dep_graph,
                        x,
                        d,
                    ) implies item_set_contents(visited).contains(d) || (exists|k: int|
                    head <= k < queue@.len() && queue@[k] == d) by {
                    if x == cur {
                        let j = choose|j: int|
                            0 <= j < dep_graph.dep_seq(cur).len() && dep_graph.dep_seq(cur)[j]
                                == d;
                        assert(item_set_contents(visited).contains(dep_graph.dep_seq(cur)[j]) || (
                        exists|k: int|
                            head <= k < queue@.len() && queue@[k] == dep_graph.dep_seq(cur)[j]));
                    }
                }
                vstd::set_lib::lemma_len_subset(item_set_contents(visited), dep_graph.node_set());
                assert(item_set_contents(visited) == v0.insert(cur));
                assert(item_set_contents(visited).len() == v0.insert(cur).len());
                assert(item_set_contents(visited).len() == v0.len() + 1);
            }
        } else {
            proof {
                if !item_set_contents(visited).contains(entry) {
                    let k = choose|k: int| h0 <= k < queue@.len() && queue@[k] == entry;
                    assert(k != h0);
                    assert(head <= k < queue@.len() && queue@[k] == entry);
                }
                assert forall|x: Item, d: Item|
                    #[trigger] item_set_contents(visited).contains(x) && #[trigger] edge_to(
                        dep_graph,
                        x,
                        d,
                    ) && !item_set_contents(visited).contains(d) implies exists|k: int|
                    head <= k < queue@.len() && queue@[k] == d by {
                    let k = choose|k: int| h0 <= k < queue@.len() && queue@[k] == d;
                    assert(k != h0);
                    assert(queue@[k] == d);
                }
            }
        }
    }
    let r = entries.to_vec();
    proof {
        assert forall|e: Item| #[trigger] r@.contains(e) <==> reachable(
            dep_graph,
            entry,
            e,
        ) && forced_entry(dep_graph, entry, e) by {
            if reachable(dep_graph, entry, e) {
                reveal(crate::graph::reachable);
                let p = choose|p: Seq<Item>|
                    crate::graph::is_path(dep_graph, p) && p.first() == entry && p.last() == e;
                lemma_closed_covers_path(dep_graph, item_set_contents(visited), p);
                assert(item_set_contents(visited).contains(e));
            }
        }
        assert(reachable(dep_graph, entry, entry) && forced_entry(dep_graph, entry, entry));
    }
    r
}

/// Counterpart of a chunk in scope hoisting: the complete collection of
/// scopes that one partitioning produced.
pub struct ModuleScopeGroup {
    pub scopes: Vec<ModuleScope>,
}

/// One scope: the modules whose top-level code may be merged into one shared
/// execution scope.
pub struct ModuleScope {
    /// The modules in this scope.
    pub modules: Vec<Item>,
}

/// `s` is the scope of entry `e` in the partition rooted at `root`: it
/// lists, once each, exactly the members of `e`'s single-owner closure, `e`
/// among them.
pub open spec fn scope_matches<G: DepGraph>(g: &G, root: Item, e: Item, s: ModuleScope) -> bool {
    &&& s.modules@.no_duplicates()
    &&& s.modules@.contains(e)
    &&& forall|m: Item| #[trigger] s.modules@.contains(m) <==> in_closure(g, root, e, m)
}

/// The scope group `r` is the partitioning result for `root`, with `es` as
/// its sequence of scope entries: the entries are, once each, exactly the
/// reachable forced entries, and each scope is the closure of its entry.
pub open spec fn group_matches<G: DepGraph>(
    g: &G,
    root: Item,
    es: Seq<Item>,
    r: ModuleScopeGroup,
) -> bool {
    &&& es.no_duplicates()
    &&& es.len() == r.scopes@.len()
    &&& es.contains(root)
    &&& forall|e: Item| #[trigger]
        es.contains(e) <==> reachable(g, root, e) && forced_entry(g, root, e)
    &&& forall|k: int| 0 <= k < es.len() ==> scope_matches(g, root, #[trigger] es[k], r.scopes@[k])
}

/// Splits the modules reachable from `entry` into scope-hoisting groups:
/// discovers the scope entries and materializes each entry's single-owner
/// closure as one scope. Every scope holds at least its own entry; a module
/// loaded through a lazy edge or shared between several consumers founds a
/// scope of its own and belongs to no other.
#[verifier::loop_isolation(false)]
pub fn split_scopes<G: DepGraph>(dep_graph: &G, entry: Item) -> (r: ModuleScopeGroup)
    requires
        graph_wf(dep_graph),
        dep_graph.node_set().contains(entry),
    ensures
        r.scopes@.len() >= 1,
        exists|es: Seq<Item>| #[trigger] group_matches(dep_graph, entry, es, r),
{
    let entries = determine_entries(dep_graph, entry);
    let mut scopes: Vec<ModuleScope> = Vec::new();
    let mut idx: usize = 0;
    while idx < entries.len()
        invariant
            idx <= entries.len(),
            scopes@.len() == idx,
            forall|k: int|
                0 <= k < idx ==> scope_matches(dep_graph, entry, entries@[k], #[trigger] scopes@[k]),
        decreases entries.len() - idx,
    {
        let e = entries[idx];
        proof {
            assert(entries@[idx as int] == e);
            assert(entries@.contains(e));
            lemma_reachable_in_nodes(dep_graph, entry, e);
        }
        let modules = follow_single_edge(dep_graph, entry, e);
        proof {
            lemma_closure_refl(dep_graph, entry, e);
        }
        scopes.push(ModuleScope { modules });
        idx = idx + 1;
    }
    let r = ModuleScopeGroup { scopes };
    proof {
        assert(entries@.contains(entry));
        assert(entries@.len() >= 1);
        assert(group_matches(dep_graph, entry, entries@, r));
    }
    r
}

} // verus!

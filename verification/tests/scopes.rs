use scope_hoisting::{
    determine_entries, follow_single_edge, split_scopes, DepGraph, Item, ModuleScopeGroup,
    VecGraph,
};

/// Normalizes a scope group to a sorted list of sorted module-index lists.
fn norm(group: &ModuleScopeGroup) -> Vec<Vec<usize>> {
    let mut out: Vec<Vec<usize>> = group
        .scopes
        .iter()
        .map(|s| {
            let mut v: Vec<usize> = s.modules.iter().map(|m| m.0).collect();
            v.sort();
            v
        })
        .collect();
    out.sort();
    out
}

fn sorted(items: Vec<Item>) -> Vec<usize> {
    let mut v: Vec<usize> = items.into_iter().map(|m| m.0).collect();
    v.sort();
    v
}

#[test]
fn single_module() {
    let g = VecGraph::new(1);
    let group = split_scopes(&g, Item(0));
    assert_eq!(norm(&group), vec![vec![0]]);
}

#[test]
fn chain_is_absorbed_into_root_scope() {
    // R -> A -> B, all non-lazy, each target with a single dependant.
    let mut g = VecGraph::new(3);
    g.add_edge(Item(0), Item(1), false);
    g.add_edge(Item(1), Item(2), false);
    let group = split_scopes(&g, Item(0));
    assert_eq!(norm(&group), vec![vec![0, 1, 2]]);
}

#[test]
fn diamond_shared_module_founds_its_own_scope() {
    // R -> A, R -> C, A -> B, C -> B. A and C each have the root as their
    // only dependant and are absorbed into the root's scope; B is shared by
    // two dependants and is isolated in a scope of its own.
    let mut g = VecGraph::new(4);
    g.add_edge(Item(0), Item(1), false);
    g.add_edge(Item(0), Item(3), false);
    g.add_edge(Item(1), Item(2), false);
    g.add_edge(Item(3), Item(2), false);
    let group = split_scopes(&g, Item(0));
    assert_eq!(norm(&group), vec![vec![0, 1, 3], vec![2]]);
}

#[test]
fn shared_module_with_outside_dependants_is_promoted() {
    // R -> C, and two modules that are not reachable from R also depend on
    // C: C is shared by several dependants, so it becomes its own entry
    // rather than part of the root's scope.
    let mut g = VecGraph::new(4);
    g.add_edge(Item(0), Item(1), false);
    g.add_edge(Item(2), Item(1), false);
    g.add_edge(Item(3), Item(1), false);
    let group = split_scopes(&g, Item(0));
    assert_eq!(norm(&group), vec![vec![0], vec![1]]);
}

#[test]
fn lazy_target_with_shared_dependants_is_isolated() {
    // R -(lazy)-> B, R -> A -> B. B has two dependants, so no scope absorbs
    // it, and the lazy edge makes it an entry of its own.
    let mut g = VecGraph::new(3);
    g.add_edge(Item(0), Item(2), true);
    g.add_edge(Item(0), Item(1), false);
    g.add_edge(Item(1), Item(2), false);
    let group = split_scopes(&g, Item(0));
    assert_eq!(norm(&group), vec![vec![0, 1], vec![2]]);
}

#[test]
fn lazy_single_dependant_target_founds_its_own_scope() {
    // R -(lazy)-> D -> E. The lazy edge makes D an independent entry even
    // though it has a single dependant: the root's scope stops at D, and E
    // is absorbed into D's scope.
    let mut g = VecGraph::new(3);
    g.add_edge(Item(0), Item(1), true);
    g.add_edge(Item(1), Item(2), false);
    let group = split_scopes(&g, Item(0));
    assert_eq!(norm(&group), vec![vec![0], vec![1, 2]]);
}

#[test]
fn lazy_target_with_second_dependant_founds_its_own_scope() {
    // R -(lazy)-> D -> E and R -> F -> D. D has two dependants, so only the
    // lazy entry's scope holds D and E, and the root's scope holds R and F.
    let mut g = VecGraph::new(4);
    g.add_edge(Item(0), Item(1), true);
    g.add_edge(Item(1), Item(2), false);
    g.add_edge(Item(0), Item(3), false);
    g.add_edge(Item(3), Item(1), false);
    let group = split_scopes(&g, Item(0));
    assert_eq!(norm(&group), vec![vec![0, 3], vec![1, 2]]);
}

#[test]
fn cycle_back_to_root_stays_in_one_scope() {
    // R -> A -> R. The cycle terminates, and A is absorbed while the walk
    // back into the root stops at the root's own scope boundary.
    let mut g = VecGraph::new(2);
    g.add_edge(Item(0), Item(1), false);
    g.add_edge(Item(1), Item(0), false);
    let group = split_scopes(&g, Item(0));
    assert_eq!(norm(&group), vec![vec![0, 1]]);
}

#[test]
fn split_scopes_is_idempotent() {
    let mut g = VecGraph::new(4);
    g.add_edge(Item(0), Item(1), true);
    g.add_edge(Item(1), Item(2), false);
    g.add_edge(Item(0), Item(3), false);
    g.add_edge(Item(3), Item(1), false);
    let first = norm(&split_scopes(&g, Item(0)));
    let second = norm(&split_scopes(&g, Item(0)));
    assert_eq!(first, second);
}

#[test]
fn determine_entries_reports_root_and_lazy_target() {
    let mut g = VecGraph::new(4);
    g.add_edge(Item(0), Item(1), true);
    g.add_edge(Item(1), Item(2), false);
    g.add_edge(Item(0), Item(3), false);
    g.add_edge(Item(3), Item(1), false);
    let entries = determine_entries(&g, Item(0));
    assert_eq!(sorted(entries), vec![0, 1]);
}

#[test]
fn determine_entries_always_contains_root() {
    let g = VecGraph::new(2);
    let entries = determine_entries(&g, Item(1));
    assert_eq!(sorted(entries), vec![1]);
}

#[test]
fn follow_single_edge_collects_single_owner_chain() {
    let mut g = VecGraph::new(3);
    g.add_edge(Item(0), Item(1), false);
    g.add_edge(Item(1), Item(2), false);
    assert_eq!(sorted(follow_single_edge(&g, Item(0), Item(0))), vec![0, 1, 2]);
    assert_eq!(sorted(follow_single_edge(&g, Item(0), Item(1))), vec![1, 2]);
}

#[test]
fn follow_single_edge_stops_at_shared_module() {
    let mut g = VecGraph::new(3);
    g.add_edge(Item(0), Item(1), false);
    g.add_edge(Item(2), Item(1), false);
    assert_eq!(sorted(follow_single_edge(&g, Item(0), Item(0))), vec![0]);
}

#[test]
fn get_edge_reports_lazy_flags() {
    let mut g = VecGraph::new(3);
    g.add_edge(Item(0), Item(1), true);
    g.add_edge(Item(0), Item(2), false);
    assert!(g.get_edge(Item(0), Item(1)).is_lazy);
    assert!(!g.get_edge(Item(0), Item(2)).is_lazy);
}

#[test]
fn has_path_connecting_follows_edges() {
    let mut g = VecGraph::new(4);
    g.add_edge(Item(0), Item(1), false);
    g.add_edge(Item(1), Item(2), true);
    assert!(g.has_path_connecting(Item(0), Item(0)));
    assert!(g.has_path_connecting(Item(0), Item(2)));
    assert!(g.has_path_connecting(Item(1), Item(2)));
    assert!(!g.has_path_connecting(Item(2), Item(0)));
    assert!(!g.has_path_connecting(Item(0), Item(3)));
}

#[test]
fn deps_and_dependants_agree() {
    let mut g = VecGraph::new(3);
    g.add_edge(Item(0), Item(1), false);
    g.add_edge(Item(0), Item(2), false);
    g.add_edge(Item(1), Item(2), false);
    assert_eq!(sorted(g.deps(Item(0))), vec![1, 2]);
    assert_eq!(sorted(g.deps(Item(2))), Vec::<usize>::new());
    assert_eq!(sorted(g.depandants(Item(2))), vec![0, 1]);
    assert_eq!(sorted(g.depandants(Item(0))), Vec::<usize>::new());
}

//! Partitioning of a module dependency graph into scope-hoisting groups.
//!
//! Given a read-only dependency graph and a root module, the library splits
//! the modules reachable from the root into disjoint "scopes": groups of
//! modules that are always loaded and executed together under one controlling
//! entry, so that their top-level code may later be merged into one shared
//! lexical scope.

use vstd::prelude::*;

mod graph;
mod group;
mod item_set;
mod laws;
mod vec_graph;

pub use graph::{
    edge_to, forced_entry, graph_wf, has_lazy_in_edge, in_closure, is_owner_path, is_path,
    lemma_closed_covers_owner_path, lemma_closed_covers_path, lemma_closure_refl,
    lemma_closure_step, lemma_distinct_entries_disjoint, lemma_has_path_form,
    lemma_owner_paths_no_merge, lemma_path_in_nodes, lemma_reachable_in_nodes,
    lemma_reachable_refl, lemma_reachable_step, reachable, shared, DepGraph,
};
pub use vec_graph::{item_range, lemma_item_range, VecGraph};
pub use laws::{
    lemma_entry_inclusion, lemma_lazy_target_isolated, lemma_scope_disjointness,
    lemma_scope_totality, lemma_scopes_determined, lemma_shared_module_isolated,
    lemma_single_dependant_absorbed,
};
pub use group::{
    determine_entries, follow_single_edge, group_matches, scope_matches, split_scopes, ModuleScope,
    ModuleScopeGroup,
};
pub use item_set::{item_set_contents, ItemSet};

verus! {

/// Opaque handle identifying one module node in the dependency graph.
#[derive(Debug, Clone, Copy, PartialEq, Eq, PartialOrd, Ord, Hash, Structural)]
pub struct Item(pub usize);

/// Attributes of one directed edge of the dependency graph.
#[derive(Debug, Clone, Copy, PartialEq, Eq, Structural)]
pub struct EdgeData {
    /// True if the dependency is loaded on demand rather than synchronously
    /// with its dependant.
    pub is_lazy: bool,
}

} // verus!

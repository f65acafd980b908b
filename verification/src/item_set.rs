//! A set of module identifiers, backed by `rustc_hash::FxHashSet`.
//!
//! Verus cannot look inside the hash set, so the struct is opaque and
//! `item_set_contents` names what it holds; each operation's contract states
//! its effect on that set of items.

use vstd::prelude::*;
use crate::Item;

verus! {

/// A transient set of module identifiers used by the traversals.
#[verifier::external_body]
pub struct ItemSet {
    inner: rustc_hash::FxHashSet<Item>,
}

/// The items that an `ItemSet` currently holds.
pub uninterp spec fn item_set_contents(s: ItemSet) -> Set<Item>;

impl ItemSet {
    /// Relies on `FxHashSet::default`: a fresh set holds nothing.
    #[verifier::external_body]
    pub(crate) fn new() -> (r: ItemSet)
        ensures
            item_set_contents(r) == Set::<Item>::empty(),
    {
        ItemSet { inner: rustc_hash::FxHashSet::default() }
    }

    /// Relies on `HashSet::contains`: membership in the held items.
    #[verifier::external_body]
    pub(crate) fn contains(&self, v: Item) -> (r: bool)
        ensures
            r == item_set_contents(*self).contains(v),
    {
        self.inner.contains(&v)
    }

    /// Relies on `HashSet::insert`: afterwards the set holds `v` and
    /// everything it held before.
    #[verifier::external_body]
    pub(crate) fn insert(&mut self, v: Item)
        ensures
            item_set_contents(*final(self)) == item_set_contents(*old(self)).insert(v),
    {
        self.inner.insert(v);
    }

    /// Relies on `HashSet::iter`: every held item is yielded exactly once,
    /// in an unspecified order.
    #[verifier::external_body]
    pub(crate) fn to_vec(&self) -> (r: Vec<Item>)
        ensures
            r@.no_duplicates(),
            forall|m: Item| #[trigger] r@.contains(m) <==> item_set_contents(*self).contains(m),
    {
        self.inner.iter().copied().collect()
    }
}

} // verus!

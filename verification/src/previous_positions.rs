//! Where each particle stood when it was last listed in the grid.

use vstd::prelude::*;

verus! {

/// For each particle that the grid lists, by the number of its handle, the
/// position under which it is listed, in a hash map of the engine.
#[verifier::external_body]
pub struct EntityPreviousPositionMap {
    inner: bevy::utils::HashMap<u64, (i64, i64)>,
}

/// The positions that a map holds, by key.
pub uninterp spec fn previous_positions(map: EntityPreviousPositionMap) -> Map<u64, (i64, i64)>;

impl EntityPreviousPositionMap {
    /// `HashMap::default` of `bevy::utils`: a map that holds nothing.
    #[verifier::external_body]
    pub(crate) fn new() -> (created: EntityPreviousPositionMap)
        ensures
            previous_positions(created).dom() == Set::<u64>::empty(),
    {
        EntityPreviousPositionMap { inner: bevy::utils::HashMap::default() }
    }

    /// `HashMap::get`: the position kept under `key`, if there is one.
    #[verifier::external_body]
    pub(crate) fn get(&self, key: u64) -> (position: Option<(i64, i64)>)
        ensures
            position == if previous_positions(*self).dom().contains(key) {
                Some(previous_positions(*self)[key])
            } else {
                None
            },
    {
        self.inner.get(&key).copied()
    }

    /// `HashMap::insert`: afterwards the map holds `position` under `key`,
    /// and under every other key what it held.
    #[verifier::external_body]
    pub(crate) fn insert(&mut self, key: u64, position: (i64, i64))
        ensures
            previous_positions(*final(self)) == previous_positions(*old(self)).insert(
                key,
                position,
            ),
    {
        self.inner.insert(key, position);
    }

    /// `HashMap::remove`: afterwards the map holds nothing under `key`, and
    /// under every other key what it held.
    #[verifier::external_body]
    pub(crate) fn remove(&mut self, key: u64)
        ensures
            previous_positions(*final(self)) == previous_positions(*old(self)).remove(key),
    {
        self.inner.remove(&key);
    }
}

} // verus!

//! Pending updates, kept in a concurrent map per dimension.
//!
//! The maps are `dashmap::DashMap`s. They are only reached through exclusive
//! references here, so each call acts on the whole map at once.

use vstd::prelude::*;

verus! {

/// The concurrent map of the `dashmap` crate.
#[verifier::external_type_specification]
#[verifier::external_body]
#[verifier::reject_recursive_types(K)]
#[verifier::reject_recursive_types(V)]
#[verifier::reject_recursive_types(S)]
pub struct ExDashMap<K, V, S>(dashmap::DashMap<K, V, S>);

/// The updates of one dimension: for each offset the bits of the value that was
/// set, or `None` when the offset was deleted.
pub type Updates = dashmap::DashMap<u32, Option<u32>>;

/// The updates of every dimension that has any.
pub type Delta = dashmap::DashMap<u32, dashmap::DashMap<u32, Option<u32>>>;

/// What the updates of a dimension hold.
pub uninterp spec fn updates_of(updates: dashmap::DashMap<u32, Option<u32>>) -> Map<
    u32,
    Option<u32>,
>;

/// What the updates of all dimensions hold.
pub uninterp spec fn delta_of(
    delta: dashmap::DashMap<u32, dashmap::DashMap<u32, Option<u32>>>,
) -> Map<u32, Map<u32, Option<u32>>>;

/// No updates at all.
pub open spec fn no_updates() -> Map<u32, Map<u32, Option<u32>>> {
    Map::empty()
}

/// The updates with one more, which replaces an earlier one of the same
/// dimension and offset.
pub open spec fn with_update(
    delta: Map<u32, Map<u32, Option<u32>>>,
    dimension_id: u32,
    offset: u32,
    update: Option<u32>,
) -> Map<u32, Map<u32, Option<u32>>> {
    let updates = if delta.contains_key(dimension_id) {
        delta[dimension_id]
    } else {
        Map::empty()
    };
    delta.insert(dimension_id, updates.insert(offset, update))
}

/// `listed` names every update once.
pub open spec fn lists_updates(
    listed: Seq<(u32, Option<u32>)>,
    updates: Map<u32, Option<u32>>,
) -> bool {
    &&& forall|i: int|
        0 <= i < listed.len() ==> updates.contains_key((#[trigger] listed[i]).0)
            && updates[listed[i].0] == listed[i].1
    &&& forall|k: u32| #[trigger]
        updates.contains_key(k) ==> exists|i: int|
            0 <= i < listed.len() && (#[trigger] listed[i]).0 == k
    &&& forall|i: int, j: int|
        #![trigger listed[i], listed[j]]
        0 <= i < j < listed.len() ==> listed[i].0 != listed[j].0
}

/// `DashMap::new` makes an empty map.
#[verifier::external_body]
pub(crate) fn new_delta() -> (delta: Delta)
    ensures
        delta_of(delta) == no_updates(),
{
    dashmap::DashMap::new()
}

/// `DashMap::entry` with `Entry::or_default` finds the map of the dimension, or
/// puts an empty one there, and `DashMap::insert` sets the update of the offset
/// in it, in place of an earlier one. Nothing else changes.
#[verifier::external_body]
pub(crate) fn record_update(
    delta: &mut Delta,
    dimension_id: u32,
    offset: u32,
    update: Option<u32>,
)
    ensures
        delta_of(*final(delta)) == with_update(
            delta_of(*old(delta)),
            dimension_id,
            offset,
            update,
        ),
{
    delta.entry(dimension_id).or_default().insert(offset, update);
}

/// `DashMap::iter` visits every entry once, in an order that differs from map
/// to map; the keys of the entries are collected.
#[verifier::external_body]
pub(crate) fn updated_dimensions(delta: &Delta) -> (ids: Vec<u32>)
    ensures
        ids@.no_duplicates(),
        forall|id: u32| ids@.contains(id) <==> delta_of(*delta).contains_key(id),
{
    delta.iter().map(|entry| *entry.key()).collect()
}

/// `DashMap::remove` takes the entry of the dimension out of the map and hands
/// its value back; it changes nothing when there is none.
#[verifier::external_body]
pub(crate) fn take_updates(delta: &mut Delta, dimension_id: u32) -> (updates: Option<Updates>)
    ensures
        delta_of(*final(delta)) == delta_of(*old(delta)).remove(dimension_id),
        updates is Some <==> delta_of(*old(delta)).contains_key(dimension_id),
        updates matches Some(u) ==> updates_of(u) == delta_of(*old(delta))[dimension_id],
{
    delta.remove(&dimension_id).map(|entry| entry.1)
}

/// The iterator of an owned `DashMap` hands out every entry once, in an order
/// that differs from map to map.
#[verifier::external_body]
pub(crate) fn list_updates(updates: Updates) -> (listed: Vec<(u32, Option<u32>)>)
    ensures
        lists_updates(listed@, updates_of(updates)),
{
    updates.into_iter().collect()
}

/// Recording an update sets it for its dimension and offset, and leaves every
/// other as it was.
pub proof fn law_one_update_is_recorded(
    delta: Map<u32, Map<u32, Option<u32>>>,
    dimension_id: u32,
    offset: u32,
    update: Option<u32>,
    other_dimension: u32,
    other_offset: u32,
)
    ensures
        ({
            let after = with_update(delta, dimension_id, offset, update);
            &&& after.contains_key(dimension_id)
            &&& after[dimension_id].contains_key(offset)
            &&& after[dimension_id][offset] == update
            &&& other_offset != offset ==> (after[dimension_id].contains_key(other_offset) <==> (
            delta.contains_key(dimension_id) && delta[dimension_id].contains_key(other_offset)))
            &&& other_offset != offset && delta.contains_key(dimension_id)
                && delta[dimension_id].contains_key(other_offset)
                ==> after[dimension_id][other_offset] == delta[dimension_id][other_offset]
            &&& other_dimension != dimension_id ==> after.contains_key(other_dimension)
                == delta.contains_key(other_dimension) && (delta.contains_key(other_dimension)
                ==> after[other_dimension] == delta[other_dimension])
        }),
{
}

} // verus!

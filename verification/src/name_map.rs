//! The bijection between variable names and variable indices, held in a `bimap::BiHashMap`.

use vstd::prelude::*;
use bimap::BiHashMap;

verus! {

/// The outside bimap type (opaque to Verus).
#[verifier::external_type_specification]
#[verifier::external_body]
#[verifier::reject_recursive_types(L)]
#[verifier::reject_recursive_types(R)]
#[verifier::reject_recursive_types(LS)]
#[verifier::reject_recursive_types(RS)]
pub struct ExBiHashMap<L, R, LS, RS>(BiHashMap<L, R, LS, RS>);

/// The pairs a name bimap holds, as a map from each name (left value) to its index (right value).
pub uninterp spec fn name_pairs(m: BiHashMap<String, u32>) -> Map<Seq<char>, u32>;

/// The pairs that survive when `(left, right)` is inserted: every pair that shares neither value.
pub open spec fn pairs_after_insert(old_pairs: Map<Seq<char>, u32>, left: Seq<char>, right: u32) -> Map<Seq<char>, u32> {
    Map::new(
        |l: Seq<char>| old_pairs.contains_key(l) && l != left && old_pairs[l] != right,
        |l: Seq<char>| old_pairs[l],
    ).insert(left, right)
}

/// Calls `BiHashMap::new`; the bimap it returns holds no pair.
#[verifier::external_body]
pub(crate) fn name_map_new() -> (r: BiHashMap<String, u32>)
    ensures
        name_pairs(r).dom().is_empty(),
{
    BiHashMap::new()
}

/// Calls `BiHashMap::get_by_left`: the index paired with `left`, if any.
#[verifier::external_body]
pub(crate) fn name_map_get_by_left(m: &BiHashMap<String, u32>, left: &str) -> (r: Option<u32>)
    ensures
        r == (if name_pairs(*m).contains_key(left@) {
            Some(name_pairs(*m)[left@])
        } else {
            None
        }),
{
    m.get_by_left(left).copied()
}

/// Calls `BiHashMap::get_by_right`: the name paired with `right`, if any.
#[verifier::external_body]
pub(crate) fn name_map_get_by_right(m: &BiHashMap<String, u32>, right: u32) -> (r: Option<&String>)
    ensures
        match r {
            Some(s) => name_pairs(*m).contains_key(s@) && name_pairs(*m)[s@] == right,
            None => forall|l: Seq<char>| #[trigger] name_pairs(*m).contains_key(l) ==> name_pairs(*m)[l] != right,
        },
{
    m.get_by_right(&right)
}

/// Calls `BiHashMap::insert`: every pair sharing the name or the index is dropped, then the pair
/// `(left, right)` is added.
#[verifier::external_body]
pub(crate) fn name_map_insert(m: &mut BiHashMap<String, u32>, left: String, right: u32)
    ensures
        name_pairs(*final(m)) == pairs_after_insert(name_pairs(*old(m)), left@, right),
{
    m.insert(left, right);
}

/// Calls `BiHashMap::clone`: the copy holds the same pairs.
#[verifier::external_body]
pub(crate) fn name_map_clone(m: &BiHashMap<String, u32>) -> (r: BiHashMap<String, u32>)
    ensures
        name_pairs(r) == name_pairs(*m),
{
    m.clone()
}

} // verus!

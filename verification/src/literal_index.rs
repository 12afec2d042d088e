//! Places by text: the hash map of `rustc_hash` that finds, for a literal,
//! the place of its edge or slot in a list. The map is used through the
//! functions of this file, whose contracts are taken on trust.

use rustc_hash::FxBuildHasher;
use rustc_hash::FxHashMap;
use vstd::prelude::*;

verus! {

/// The hasher factory of `rustc_hash`, carried as an opaque value.
#[verifier::external_type_specification]
#[verifier::external_body]
pub struct ExFxBuildHasher(FxBuildHasher);

/// What a literal index holds: the position stored under each text.
pub uninterp spec fn index_entries(index: FxHashMap<String, usize>) -> Map<Seq<char>, usize>;

/// `FxHashMap::default`: a fresh map holds no entry.
#[verifier::external_body]
pub(crate) fn index_new() -> (index: FxHashMap<String, usize>)
    ensures
        (index_entries(index) == Map::<Seq<char>, usize>::empty()),
{
    FxHashMap::default()
}

/// `HashMap::get`: the position stored under `key`, if the map holds one.
#[verifier::external_body]
pub(crate) fn index_get(index: &FxHashMap<String, usize>, key: &str) -> (found: Option<usize>)
    ensures
        found == (if index_entries(*index).contains_key(key@) {
            Some(index_entries(*index)[key@])
        } else {
            None
        }),
{
    index.get(key).copied()
}

/// `HashMap::insert`: afterwards `key` maps to `position`, and every other
/// key maps to what it mapped to before.
#[verifier::external_body]
pub(crate) fn index_insert(index: &mut FxHashMap<String, usize>, key: String, position: usize)
    ensures
        index_entries(*final(index)) == index_entries(*old(index)).insert(key@, position),
{
    index.insert(key, position);
}

/// `HashMap::clear`: afterwards the map holds no entry.
#[verifier::external_body]
pub(crate) fn index_clear(index: &mut FxHashMap<String, usize>)
    ensures
        (index_entries(*final(index)) == Map::<Seq<char>, usize>::empty()),
{
    index.clear();
}

} // verus!

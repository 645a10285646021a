//! The hash maps of the `rustc_hash` crate.

use rustc_hash::FxBuildHasher;
use rustc_hash::FxHashMap;
use vstd::prelude::*;
use vstd::std_specs::hash::builds_valid_hashers;
use vstd::std_specs::hash::spec_keys_iter;
use vstd::std_specs::iter::IteratorSpec;

verus! {

/// `rustc_hash::FxBuildHasher`, the hash builder of every map below.
#[verifier::external_type_specification]
#[verifier::external_body]
pub struct ExFxBuildHasher(FxBuildHasher);

/// Whether the table hashes equal keys equally: the condition under which
/// `HashMap` behaves as a finite map.
pub open spec fn hashes_consistently<K, V>(m: FxHashMap<K, V>) -> bool {
    builds_valid_hashers::<FxBuildHasher>()
}

/// `FxHashMap::default`: an empty map. Its hashers all start from the same
/// fixed state and mix in nothing but what is written to them, so equal
/// writes give equal digests.
#[verifier::external_body]
pub(crate) fn fx_map<K, V>() -> (m: FxHashMap<K, V>)
    ensures
        (m@ == Map::<K, V>::empty()),
        hashes_consistently(m),
{
    FxHashMap::default()
}

/// A hash map holds finitely many keys.
pub proof fn fx_map_is_finite<K, V>(m: FxHashMap<K, V>)
    ensures
        m@.dom().finite(),
{
    broadcast use vstd::seq_lib::seq_to_set_is_finite;
    broadcast use vstd::std_specs::hash::group_hash_axioms;

    let keys = spec_keys_iter(&m).remaining();
    assert(keys.unref().to_set() == m@.dom());
}

/// What an index from names to slots holds.
pub uninterp spec fn name_index(m: FxHashMap<String, u32>) -> Map<Seq<char>, u32>;

/// `FxHashMap::default`: an index without names.
#[verifier::external_body]
pub(crate) fn names_new() -> (m: FxHashMap<String, u32>)
    ensures
        (name_index(m) == Map::<Seq<char>, u32>::empty()),
{
    FxHashMap::default()
}

/// `HashMap::get`: the slot under `name`, if there is one.
#[verifier::external_body]
pub(crate) fn names_get(m: &FxHashMap<String, u32>, name: &str) -> (r: Option<u32>)
    ensures
        r == (if name_index(*m).contains_key(name@) {
            Some(name_index(*m)[name@])
        } else {
            None::<u32>
        }),
{
    m.get(name).copied()
}

/// `HashMap::insert`: `name` now leads to `slot`, whatever it led to before.
#[verifier::external_body]
pub(crate) fn names_insert(m: &mut FxHashMap<String, u32>, name: String, slot: u32)
    ensures
        name_index(*final(m)) == name_index(*old(m)).insert(name@, slot),
{
    m.insert(name, slot);
}

/// `HashMap::remove`: `name` leads nowhere any more.
#[verifier::external_body]
pub(crate) fn names_remove(m: &mut FxHashMap<String, u32>, name: &str)
    ensures
        name_index(*final(m)) == name_index(*old(m)).remove(name@),
{
    m.remove(name);
}

/// `HashMap::len`: how many names the index holds.
#[verifier::external_body]
pub(crate) fn names_len(m: &FxHashMap<String, u32>) -> (r: usize)
    ensures
        r == name_index(*m).len(),
{
    m.len()
}

} // verus!

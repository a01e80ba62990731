//! Hash tables of registers, by number.
use crate::bytecode::NumTy;
use hashbrown::{HashMap, HashSet};
use vstd::prelude::*;

verus! {

/// The hash map of `hashbrown`.
#[verifier::external_type_specification]
#[verifier::external_body]
#[verifier::reject_recursive_types(K)]
#[verifier::reject_recursive_types(V)]
#[verifier::reject_recursive_types(S)]
pub struct ExHashMap<K, V, S>(hashbrown::HashMap<K, V, S>);

/// The hash set of `hashbrown`.
#[verifier::external_type_specification]
#[verifier::external_body]
#[verifier::reject_recursive_types(T)]
#[verifier::reject_recursive_types(S)]
pub struct ExHashSet<T, S>(hashbrown::HashSet<T, S>);

/// The hasher that the tables of `hashbrown` have unless told otherwise.
#[verifier::external_type_specification]
#[verifier::external_body]
pub struct ExDefaultHashBuilder(hashbrown::hash_map::DefaultHashBuilder);

/// The entries of a map from registers to registers.
pub uninterp spec fn map_entries(map: HashMap<NumTy, NumTy>) -> Map<NumTy, NumTy>;

/// The elements of a set of registers.
pub uninterp spec fn set_elements(set: HashSet<NumTy>) -> Set<NumTy>;

/// `hashbrown::HashMap::default` makes a map without entries.
#[verifier::external_body]
pub(crate) fn map_default() -> (r: HashMap<NumTy, NumTy>)
    ensures
        map_entries(r) == (Map::<NumTy, NumTy>::empty()),
{
    HashMap::default()
}

/// `hashbrown::HashMap::insert` gives `key` the value `val`, keeps all other entries, and
/// returns the value that `key` had before, if any.
#[verifier::external_body]
pub(crate) fn map_insert(map: &mut HashMap<NumTy, NumTy>, key: NumTy, val: NumTy) -> (r: Option<
    NumTy,
>)
    ensures
        map_entries(*final(map)) == map_entries(*old(map)).insert(key, val),
        r == (if map_entries(*old(map)).contains_key(key) {
            Some(map_entries(*old(map))[key])
        } else {
            None::<NumTy>
        }),
{
    map.insert(key, val)
}

/// `hashbrown::HashMap::get` returns the value of `key`, if it has one.
#[verifier::external_body]
pub(crate) fn map_get(map: &HashMap<NumTy, NumTy>, key: NumTy) -> (r: Option<NumTy>)
    ensures
        r == (if map_entries(*map).contains_key(key) {
            Some(map_entries(*map)[key])
        } else {
            None::<NumTy>
        }),
{
    map.get(&key).copied()
}

/// `hashbrown::HashMap::clear` removes all entries.
#[verifier::external_body]
pub(crate) fn map_clear(map: &mut HashMap<NumTy, NumTy>)
    ensures
        map_entries(*final(map)) == (Map::<NumTy, NumTy>::empty()),
{
    map.clear()
}

/// `hashbrown::HashSet::default` makes a set without elements.
#[verifier::external_body]
pub(crate) fn set_default() -> (r: HashSet<NumTy>)
    ensures
        set_elements(r) == Set::<NumTy>::empty(),
{
    HashSet::default()
}

/// `hashbrown::HashSet::insert` adds an element, and tells whether it is new.
#[verifier::external_body]
pub(crate) fn set_insert(set: &mut HashSet<NumTy>, val: NumTy) -> (r: bool)
    ensures
        set_elements(*final(set)) == set_elements(*old(set)).insert(val),
        r == !set_elements(*old(set)).contains(val),
{
    set.insert(val)
}

/// `hashbrown::HashSet::contains` tells whether `val` is an element.
#[verifier::external_body]
pub(crate) fn set_contains(set: &HashSet<NumTy>, val: NumTy) -> (r: bool)
    ensures
        r == set_elements(*set).contains(val),
{
    set.contains(&val)
}

/// `hashbrown::HashSet::clear` removes all elements.
#[verifier::external_body]
pub(crate) fn set_clear(set: &mut HashSet<NumTy>)
    ensures
        set_elements(*final(set)) == Set::<NumTy>::empty(),
{
    set.clear()
}

} // verus!

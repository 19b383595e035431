//! The persistent collections of `im_rc`, as far as anchors work with them.
//!
//! Items are integers, so that the order in which a collection keeps them is the order of the
//! integers. What a collection holds is given by one name for each kind.

use im_rc::ordmap::{DiffItem as MapDiffItem, OrdMapPool};
use im_rc::ordset::{DiffItem as SetDiffItem, OrdSetPool};
use im_rc::vector::RRBPool;
use im_rc::{OrdMap, OrdSet, Vector};
use vstd::prelude::*;

verus! {

#[verifier::external_type_specification]
#[verifier::external_body]
#[verifier::reject_recursive_types(K)]
#[verifier::reject_recursive_types(V)]
pub struct ExOrdMap<K, V>(OrdMap<K, V>);

#[verifier::external_type_specification]
#[verifier::external_body]
#[verifier::reject_recursive_types(A)]
pub struct ExOrdSet<A>(OrdSet<A>);

#[verifier::external_type_specification]
#[verifier::external_body]
#[verifier::reject_recursive_types(A)]
pub struct ExVector<A>(Vector<A>);

/// A dictionary from keys to values, or to the tokens of anchors.
pub type Dict = OrdMap<usize, usize>;

/// A dictionary whose entries are values, marked `false`, or tokens of anchors, marked `true`.
pub type VoaDict = OrdMap<usize, (bool, usize)>;

/// The most blocks of memory that a pool is asked to keep.
pub const POOL_LIMIT: usize = 0x0fff_ffff;

/// What a dictionary holds.
pub uninterp spec fn dict_view(dict: Dict) -> Map<usize, usize>;

/// What a dictionary of values and tokens holds.
pub uninterp spec fn voa_dict_view(dict: VoaDict) -> Map<usize, (bool, usize)>;

/// What a set holds.
pub uninterp spec fn set_view(set: OrdSet<usize>) -> Set<usize>;

/// What a vector holds.
pub uninterp spec fn vector_view(vector: Vector<usize>) -> Seq<usize>;

/// A difference between two dictionaries.
#[derive(Clone, Copy, Debug, PartialEq, Eq, Structural)]
pub enum DictChange {
    Add { key: usize, value: usize },
    Update { key: usize, old: usize, new: usize },
    Remove { key: usize, value: usize },
}

impl DictChange {
    pub open spec fn at(self) -> usize {
        match self {
            DictChange::Add { key, .. } => key,
            DictChange::Update { key, .. } => key,
            DictChange::Remove { key, .. } => key,
        }
    }

    /// It is a difference between `a` and `b`.
    pub open spec fn between(self, a: Map<usize, usize>, b: Map<usize, usize>) -> bool {
        match self {
            DictChange::Add { key, value } => !a.contains_key(key) && b.contains_key(key) && b[key] == value,
            DictChange::Update { key, old, new } => {
                &&& a.contains_key(key) && a[key] == old
                &&& b.contains_key(key) && b[key] == new
                &&& old != new
            },
            DictChange::Remove { key, value } => a.contains_key(key) && a[key] == value && !b.contains_key(key),
        }
    }
}

/// `changes` are the differences between `a` and `b`, by ascending keys.
pub open spec fn dict_changes(a: Map<usize, usize>, b: Map<usize, usize>, changes: Seq<DictChange>) -> bool {
    &&& forall|i: int| 0 <= i < changes.len() ==> (#[trigger] changes[i]).between(a, b)
    &&& forall|i: int, j: int| 0 <= i < j < changes.len() ==> (#[trigger] changes[i]).at() < (#[trigger] changes[j]).at()
    &&& forall|key: usize|
        #[trigger] a.contains_key(key) != b.contains_key(key) || (a.contains_key(key) && a[key] != b[key]) ==> exists|i: int|
            0 <= i < changes.len() && (#[trigger] changes[i]).at() == key
}

/// A difference between two sets.
#[derive(Clone, Copy, Debug, PartialEq, Eq, Structural)]
pub enum SetChange {
    Add { key: usize },
    Update { old: usize, new: usize },
    Remove { key: usize },
}

impl SetChange {
    pub open spec fn at(self) -> usize {
        match self {
            SetChange::Add { key } => key,
            SetChange::Update { old, .. } => old,
            SetChange::Remove { key } => key,
        }
    }

    /// It is a difference between `a` and `b`. Integers that are ordered alike are equal, so that
    /// none replaces another.
    pub open spec fn between(self, a: Set<usize>, b: Set<usize>) -> bool {
        match self {
            SetChange::Add { key } => !a.contains(key) && b.contains(key),
            SetChange::Update { .. } => false,
            SetChange::Remove { key } => a.contains(key) && !b.contains(key),
        }
    }
}

/// `changes` are the differences between `a` and `b`, in ascending order.
pub open spec fn set_changes(a: Set<usize>, b: Set<usize>, changes: Seq<SetChange>) -> bool {
    &&& forall|i: int| 0 <= i < changes.len() ==> (#[trigger] changes[i]).between(a, b)
    &&& forall|i: int, j: int| 0 <= i < j < changes.len() ==> (#[trigger] changes[i]).at() < (#[trigger] changes[j]).at()
    &&& forall|key: usize|
        #[trigger] a.contains(key) != b.contains(key) ==> exists|i: int|
            0 <= i < changes.len() && (#[trigger] changes[i]).at() == key
}

/// `entries` are the entries of `dict`, by ascending keys.
pub open spec fn dict_entries<V>(dict: Map<usize, V>, entries: Seq<(usize, V)>) -> bool {
    &&& forall|i: int| 0 <= i < entries.len() ==> dict.contains_key((#[trigger] entries[i]).0) && dict[entries[i].0] == entries[i].1
    &&& forall|i: int, j: int| 0 <= i < j < entries.len() ==> (#[trigger] entries[i]).0 < (#[trigger] entries[j]).0
    &&& forall|key: usize| #[trigger] dict.contains_key(key) ==> exists|i: int| 0 <= i < entries.len() && (#[trigger] entries[i]).0 == key
}

/// `items` are the items of `set`, in ascending order.
pub open spec fn set_items(set: Set<usize>, items: Seq<usize>) -> bool {
    &&& forall|i: int| 0 <= i < items.len() ==> set.contains(#[trigger] items[i])
    &&& forall|i: int, j: int| 0 <= i < j < items.len() ==> (#[trigger] items[i]) < (#[trigger] items[j])
    &&& forall|key: usize| #[trigger] set.contains(key) ==> items.contains(key)
}

/// `set` is finite, and has `len` items.
pub open spec fn counts(set: Set<usize>, len: usize) -> bool {
    set.finite() && set.len() == len
}

/// `im_rc::OrdMap::with_pool`, on a new pool that keeps at most `pool_size` blocks: an empty map.
/// A pool sets aside room for that many blocks at once, which a very large number would not fit in.
#[verifier::external_body]
pub(crate) fn dict_with_pool(pool_size: usize) -> (dict: Dict)
    requires
        pool_size <= POOL_LIMIT,
    ensures
        dict_view(dict).dom() == Set::<usize>::empty(),
{
    OrdMap::with_pool(&OrdMapPool::new(pool_size))
}

/// `im_rc::OrdMap::len`: how many entries a map has, which are finitely many.
#[verifier::external_body]
pub(crate) fn dict_len(dict: &Dict) -> (len: usize)
    ensures
        counts(dict_view(*dict).dom(), len),
{
    dict.len()
}

/// `im_rc::OrdMap::insert`: sets the value at a key, and gives back the value that was there.
#[verifier::external_body]
pub(crate) fn dict_insert(dict: &mut Dict, key: usize, value: usize) -> (was: Option<usize>)
    ensures
        dict_view(*final(dict)) == dict_view(*old(dict)).insert(key, value),
        was == (if dict_view(*old(dict)).contains_key(key) {
            Some(dict_view(*old(dict))[key])
        } else {
            None
        }),
{
    dict.insert(key, value)
}

/// `im_rc::OrdMap::remove`: removes a key, and gives back the value that was there.
#[verifier::external_body]
pub(crate) fn dict_remove(dict: &mut Dict, key: usize) -> (was: Option<usize>)
    ensures
        dict_view(*final(dict)) == dict_view(*old(dict)).remove(key),
        was == (if dict_view(*old(dict)).contains_key(key) {
            Some(dict_view(*old(dict))[key])
        } else {
            None
        }),
{
    dict.remove(&key)
}

/// `im_rc::OrdMap::clear`: removes every entry.
#[verifier::external_body]
pub(crate) fn dict_clear(dict: &mut Dict)
    ensures
        dict_view(*final(dict)).dom() == Set::<usize>::empty(),
{
    dict.clear()
}

/// `im_rc::OrdMap::clone`: a map with the same entries.
#[verifier::external_body]
pub(crate) fn dict_clone(dict: &Dict) -> (copy: Dict)
    ensures
        dict_view(copy) == dict_view(*dict),
{
    dict.clone()
}

/// `im_rc::OrdMap::iter`: the entries of a map, by ascending keys.
#[verifier::external_body]
pub(crate) fn dict_list(dict: &Dict) -> (entries: Vec<(usize, usize)>)
    ensures
        dict_entries(dict_view(*dict), entries@),
{
    dict.iter().map(|(k, v)| (*k, *v)).collect()
}

/// `im_rc::OrdMap::iter`, on a map of values and tokens.
#[verifier::external_body]
pub(crate) fn voa_dict_list(dict: &VoaDict) -> (entries: Vec<(usize, (bool, usize))>)
    ensures
        dict_entries(voa_dict_view(*dict), entries@),
{
    dict.iter().map(|(k, v)| (*k, *v)).collect()
}

/// `im_rc::OrdMap::diff`: what to add to a map, update in it or remove from it to make it equal to
/// another, by ascending keys.
#[verifier::external_body]
pub(crate) fn dict_diff(old: &Dict, new: &Dict) -> (changes: Vec<DictChange>)
    ensures
        dict_changes(dict_view(*old), dict_view(*new), changes@),
{
    old.diff(new).map(|item| match item {
        MapDiffItem::Add(k, v) => DictChange::Add { key: *k, value: *v },
        MapDiffItem::Update { old, new } => DictChange::Update { key: *new.0, old: *old.1, new: *new.1 },
        MapDiffItem::Remove(k, v) => DictChange::Remove { key: *k, value: *v },
    }).collect()
}

/// `im_rc::OrdSet::with_pool`, on a new pool that keeps no blocks: an empty set.
#[verifier::external_body]
pub(crate) fn set_new() -> (set: OrdSet<usize>)
    ensures
        set_view(set) == Set::<usize>::empty(),
{
    OrdSet::with_pool(&OrdSetPool::new(0))
}

/// `im_rc::OrdSet::len`: how many items a set has, which are finitely many.
#[verifier::external_body]
pub(crate) fn set_len(set: &OrdSet<usize>) -> (len: usize)
    ensures
        counts(set_view(*set), len),
{
    set.len()
}

/// `im_rc::OrdSet::insert`: adds an item, and gives back the equal one that was there.
#[verifier::external_body]
pub(crate) fn set_insert(set: &mut OrdSet<usize>, item: usize) -> (was: Option<usize>)
    ensures
        set_view(*final(set)) == set_view(*old(set)).insert(item),
        was == (if set_view(*old(set)).contains(item) {
            Some(item)
        } else {
            None
        }),
{
    set.insert(item)
}

/// `im_rc::OrdSet::remove`: removes an item, and gives it back if it was there.
#[verifier::external_body]
pub(crate) fn set_remove(set: &mut OrdSet<usize>, item: usize) -> (was: Option<usize>)
    ensures
        set_view(*final(set)) == set_view(*old(set)).remove(item),
        was == (if set_view(*old(set)).contains(item) {
            Some(item)
        } else {
            None
        }),
{
    set.remove(&item)
}

/// `im_rc::OrdSet::clear`: removes every item.
#[verifier::external_body]
pub(crate) fn set_clear(set: &mut OrdSet<usize>)
    ensures
        set_view(*final(set)) == Set::<usize>::empty(),
{
    set.clear()
}

/// `im_rc::OrdSet::clone`: a set with the same items.
#[verifier::external_body]
pub(crate) fn set_clone(set: &OrdSet<usize>) -> (copy: OrdSet<usize>)
    ensures
        set_view(copy) == set_view(*set),
{
    set.clone()
}

/// `im_rc::OrdSet`'s `==`: whether two sets hold the same items.
#[verifier::external_body]
pub(crate) fn set_equal(a: &OrdSet<usize>, b: &OrdSet<usize>) -> (same: bool)
    ensures
        same == (set_view(*a) == set_view(*b)),
{
    *a == *b
}

/// `im_rc::OrdSet::iter`: the items of a set, in ascending order.
#[verifier::external_body]
pub(crate) fn set_list(set: &OrdSet<usize>) -> (items: Vec<usize>)
    ensures
        set_items(set_view(*set), items@),
{
    set.iter().copied().collect()
}

/// `im_rc::OrdSet::diff`: what to add to a set or remove from it to make it equal to another, in
/// ascending order.
#[verifier::external_body]
pub(crate) fn set_diff(old: &OrdSet<usize>, new: &OrdSet<usize>) -> (changes: Vec<SetChange>)
    ensures
        set_changes(set_view(*old), set_view(*new), changes@),
{
    old.diff(new).map(|item| match item {
        SetDiffItem::Add(k) => SetChange::Add { key: *k },
        SetDiffItem::Update { old, new } => SetChange::Update { old: *old, new: *new },
        SetDiffItem::Remove(k) => SetChange::Remove { key: *k },
    }).collect()
}

/// `im_rc::Vector::with_pool`, on a new pool that keeps at most `pool_size` blocks of each sort: an
/// empty vector. A pool sets aside room for that many blocks at once.
#[verifier::external_body]
pub(crate) fn vector_with_pool(pool_size: usize) -> (vector: Vector<usize>)
    requires
        pool_size <= POOL_LIMIT,
    ensures
        vector_view(vector) == Seq::<usize>::empty(),
{
    Vector::with_pool(&RRBPool::new(pool_size))
}

/// `im_rc::Vector::push_back`: puts an item at the end.
#[verifier::external_body]
pub(crate) fn vector_push(vector: &mut Vector<usize>, item: usize)
    ensures
        vector_view(*final(vector)) == vector_view(*old(vector)).push(item),
{
    vector.push_back(item)
}

/// `im_rc::Vector::set`: replaces the item at an index that is in bounds.
#[verifier::external_body]
pub(crate) fn vector_set(vector: &mut Vector<usize>, k: usize, item: usize)
    requires
        k < vector_view(*old(vector)).len(),
    ensures
        vector_view(*final(vector)) == vector_view(*old(vector)).update(k as int, item),
{
    vector.set(k, item);
}

/// `im_rc::Vector::iter`: the items, from the first to the last.
#[verifier::external_body]
pub(crate) fn vector_list(vector: &Vector<usize>) -> (items: Vec<usize>)
    ensures
        items@ == vector_view(*vector),
{
    vector.iter().copied().collect()
}

} // verus!

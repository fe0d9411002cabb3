//! The `VecMap`s of `vec_map` that the level and world builders fill, seen through trusted
//! wrappers.  A `VecMap` maps small `usize` keys to values and walks them in ascending key
//! order; the wrappers speak of its contents as a `Map`.
use crate::level::Indices;
use crate::world::Triangle;
use vec_map::VecMap;
use vstd::prelude::*;

verus! {

#[verifier::external_type_specification]
#[verifier::external_body]
#[verifier::reject_recursive_types(V)]
pub struct ExVecMap<V>(VecMap<V>);

/// What a `VecMap<Vec<Triangle>>` holds: the triangle list stored under each key.
pub uninterp spec fn triangle_lists(map: VecMap<Vec<Triangle>>) -> Map<usize, Seq<Triangle>>;

/// A fresh triangle list, with room for a polygon's worth of triangles.
pub fn empty_triangle_list() -> (list: Vec<Triangle>)
    ensures
        list@.len() == 0,
{
    Vec::with_capacity(256)
}

/// `VecMap::new`: a map that holds nothing.
#[verifier::external_body]
pub(crate) fn triangle_lists_new() -> (map: VecMap<Vec<Triangle>>)
    ensures
        triangle_lists(map).dom().is_empty(),
{
    VecMap::new()
}

/// `VecMap::insert`: stores `list` under `key`, handing back what was stored there before.
/// The map grows its slot vector to `key + 1` slots, which overflows for the largest key.
#[verifier::external_body]
pub(crate) fn triangle_lists_insert(
    map: &mut VecMap<Vec<Triangle>>,
    key: usize,
    list: Vec<Triangle>,
) -> (previous: Option<Vec<Triangle>>)
    requires
        key < usize::MAX,
    ensures
        triangle_lists(*final(map)) == triangle_lists(*old(map)).insert(key, list@),
        previous is Some == triangle_lists(*old(map)).contains_key(key),
        previous matches Some(p) ==> p@ == triangle_lists(*old(map))[key],
{
    map.insert(key, list)
}

/// `Index::index` of `VecMap`: the list stored under `key`; indexing panics on a missing key.
#[verifier::external_body]
pub(crate) fn triangle_list_at(map: &VecMap<Vec<Triangle>>, key: usize) -> (list: &Vec<Triangle>)
    requires
        triangle_lists(*map).contains_key(key),
    ensures
        list@ == triangle_lists(*map)[key],
{
    &map[key]
}

/// `VecMap::entry` with `Entry::or_insert_with`: the list stored under `key`, after storing a
/// fresh empty list there if there was none.  Changes made through the returned reference
/// land in the map.
#[verifier::external_body]
pub(crate) fn triangle_list_entry(map: &mut VecMap<Vec<Triangle>>, key: usize) -> (list: &mut Vec<
    Triangle,
>)
    requires
        key < usize::MAX,
    ensures
        list@ == (if triangle_lists(*old(map)).contains_key(key) {
            triangle_lists(*old(map))[key]
        } else {
            Seq::<Triangle>::empty()
        }),
        triangle_lists(*final(map)) == triangle_lists(*old(map)).insert(key, final(list)@),
{
    map.entry(key).or_insert_with(|| empty_triangle_list())
}

/// `IntoIterator::into_iter` of `VecMap`, collected: every stored key with its list, in
/// ascending key order.
#[verifier::external_body]
pub(crate) fn triangle_list_entries(map: VecMap<Vec<Triangle>>) -> (entries: Vec<
    (usize, Vec<Triangle>),
>)
    ensures
        forall|i: int, j: int|
            0 <= i < j < entries@.len() ==> #[trigger] entries@[i].0 < #[trigger] entries@[j].0,
        forall|i: int|
            0 <= i < entries@.len() ==> triangle_lists(map).contains_key(#[trigger] entries@[i].0)
                && entries@[i].1@ == triangle_lists(map)[entries@[i].0],
        forall|k: usize|
            #[trigger] triangle_lists(map).contains_key(k) ==> exists|i: int|
                0 <= i < entries@.len() && #[trigger] entries@[i].0 == k,
{
    map.into_iter().collect()
}

/// What a `VecMap<Indices>` holds: the index lists stored under each key.
pub uninterp spec fn index_lists(map: VecMap<Indices>) -> Map<
    usize,
    (Seq<u32>, Seq<u32>, Seq<u32>, Seq<u32>),
>;

/// `VecMap::new`: a map that holds nothing.
#[verifier::external_body]
pub(crate) fn index_lists_new() -> (map: VecMap<Indices>)
    ensures
        index_lists(map).dom().is_empty(),
{
    VecMap::new()
}

/// `VecMap::entry` with `Entry::or_insert_with`: the lists stored under `key`, after storing
/// `Indices::for_id(key)` there if there were none.  Changes made through the returned
/// reference land in the map.
#[verifier::external_body]
pub(crate) fn index_lists_entry(map: &mut VecMap<Indices>, key: usize) -> (indices: &mut Indices)
    requires
        key < usize::MAX,
    ensures
        indices@ == (if index_lists(*old(map)).contains_key(key) {
            index_lists(*old(map))[key]
        } else {
            (Seq::<u32>::empty(), Seq::<u32>::empty(), Seq::<u32>::empty(), Seq::<u32>::empty())
        }),
        index_lists(*final(map)) == index_lists(*old(map)).insert(key, final(indices)@),
{
    map.entry(key).or_insert_with(|| Indices::for_id(key))
}

/// `VecMap::iter`, collected: every stored key with its lists, in ascending key order.
#[verifier::external_body]
pub(crate) fn index_list_entries(map: &VecMap<Indices>) -> (entries: Vec<(usize, &Indices)>)
    ensures
        forall|i: int, j: int|
            0 <= i < j < entries@.len() ==> #[trigger] entries@[i].0 < #[trigger] entries@[j].0,
        forall|i: int|
            0 <= i < entries@.len() ==> index_lists(*map).contains_key(#[trigger] entries@[i].0)
                && entries@[i].1@ == index_lists(*map)[entries@[i].0],
        forall|k: usize|
            #[trigger] index_lists(*map).contains_key(k) ==> exists|i: int|
                0 <= i < entries@.len() && #[trigger] entries@[i].0 == k,
{
    map.iter().collect()
}

} // verus!

//! The slab of `idcontain` that stores the entities, seen through trusted wrappers.
//!
//! An `IdSlab` hands out ids made of a slot index and a tag; a slot's tag changes when its
//! value is removed, so an id names at most one stored value at a time.  The wrappers below
//! speak of the slab's contents as a map from such ids to the stored entities.
use crate::entities::{Entity, EntityId};
use idcontain::{Id, IdSlab};
use std::marker::PhantomData;
use vstd::prelude::*;

verus! {

#[verifier::external_type_specification]
#[verifier::external_body]
#[verifier::reject_recursive_types(T)]
pub struct ExIdSlab<T>(IdSlab<T>);

/// The largest number of values an `IdSlab` may hold (`idcontain::MAXIMUM_CAPACITY`).
pub const SLAB_CAPACITY: usize = 4294967294;

/// What an `IdSlab<Entity>` holds: each stored entity under the id that `insert` returned
/// for it.
pub uninterp spec fn slab_contents(slab: IdSlab<Entity>) -> Map<EntityId, Entity>;

/// `IdSlab::with_capacity`: a new slab that holds nothing.  The slab's seed tag is random,
/// so nothing is said of the ids it will hand out beyond what `slab_insert` states.
#[verifier::external_body]
pub(crate) fn slab_with_capacity(capacity: usize) -> (created: IdSlab<Entity>)
    requires
        capacity <= SLAB_CAPACITY,
    ensures
        slab_contents(created).dom().is_empty(),
{
    IdSlab::with_capacity(capacity)
}

/// `IdSlab::len`: the number of values held (the slab keeps a count of its occupied slots).
#[verifier::external_body]
pub(crate) fn slab_len(slab: &IdSlab<Entity>) -> (len: usize)
    ensures
        len == slab_contents(*slab).dom().len(),
{
    slab.len()
}

/// `IdSlab::contains`: whether `id` names a held value.
#[verifier::external_body]
pub(crate) fn slab_contains(slab: &IdSlab<Entity>, id: EntityId) -> (found: bool)
    ensures
        found == slab_contents(*slab).contains_key(id),
{
    slab.contains(Id { index: id.index, tag: id.tag, _data: PhantomData })
}

/// `IdSlab::get`: the value that `id` names, if any.
#[verifier::external_body]
pub(crate) fn slab_get(slab: &IdSlab<Entity>, id: EntityId) -> (entity: Option<&Entity>)
    ensures
        entity is Some == slab_contents(*slab).contains_key(id),
        entity matches Some(e) ==> *e == slab_contents(*slab)[id],
{
    slab.get(Id { index: id.index, tag: id.tag, _data: PhantomData })
}

/// `IdSlab::insert`: stores `value` under an id that named nothing before.  Which id that is
/// depends on the slab's random seed tag and on its free list, so only its freshness is stated.
/// `insert` panics when the slab is full, hence the bound on its length.
#[verifier::external_body]
pub(crate) fn slab_insert(slab: &mut IdSlab<Entity>, value: Entity) -> (id: EntityId)
    requires
        slab_contents(*old(slab)).dom().len() < SLAB_CAPACITY,
    ensures
        !slab_contents(*old(slab)).contains_key(id),
        slab_contents(*final(slab)) == slab_contents(*old(slab)).insert(id, value),
{
    let id = slab.insert(value);
    EntityId { index: id.index, tag: id.tag }
}

/// `IdSlab::remove`: takes out the value that `id` names, if any; the slab is otherwise left
/// as it was.
#[verifier::external_body]
pub(crate) fn slab_remove(slab: &mut IdSlab<Entity>, id: EntityId) -> (removed: Option<Entity>)
    ensures
        removed is Some == slab_contents(*old(slab)).contains_key(id),
        removed matches Some(e) ==> e == slab_contents(*old(slab))[id],
        slab_contents(*final(slab)) == slab_contents(*old(slab)).remove(id),
{
    slab.remove(Id { index: id.index, tag: id.tag, _data: PhantomData })
}

/// `IndexMut::index_mut` of `IdSlab`: a mutable reference to the value that `id` names;
/// indexing panics when `id` names nothing, hence the precondition.
#[verifier::external_body]
pub(crate) fn slab_index_mut(slab: &mut IdSlab<Entity>, id: EntityId) -> (entity: &mut Entity)
    requires
        slab_contents(*old(slab)).contains_key(id),
    ensures
        *entity == slab_contents(*old(slab))[id],
        slab_contents(*final(slab)) == slab_contents(*old(slab)).insert(id, *final(entity)),
{
    &mut slab[Id { index: id.index, tag: id.tag, _data: PhantomData }]
}

} // verus!

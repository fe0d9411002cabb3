//! Finding, for an entity, the nearest ancestor that has a transform: its absolute transform
//! is the parent's absolute transform followed by the entity's own.
use crate::entities::{lemma_parent_held, Entities, EntityId};
use vstd::prelude::*;

verus! {

/// Where an entity's transform hangs.
#[derive(Eq, PartialEq, Structural, Copy, Clone, Debug)]
pub enum ParentLookup {
    /// The entity (or an ancestor on the way up) is no longer in the tree.
    Removed,
    /// No ancestor has a transform: the entity's transform is absolute.
    IsRoot,
    /// The nearest ancestor with a transform, and where its transform is stored.
    Found { parent_id: EntityId, parent_index: usize },
}

/// The ancestor of `id` that many levels up, when there is one.
pub open spec fn ancestor(s: Entities, id: EntityId, levels: nat) -> Option<EntityId>
    decreases levels,
{
    if levels == 0 {
        Some(id)
    } else {
        match ancestor(s, id, (levels - 1) as nat) {
            Some(a) => if s.ids().contains(a) {
                s.parent_of(a)
            } else {
                None
            },
            None => None,
        }
    }
}

/// `index_of` reported no transform for any of the ancestors of `id` from one level up to
/// `levels` levels up.
pub open spec fn none_up_to<F: Fn(EntityId) -> Option<usize>>(
    s: Entities,
    id: EntityId,
    index_of: F,
    levels: nat,
) -> bool {
    forall|j: nat|
        1 <= j <= levels ==> (#[trigger] ancestor(s, id, j) matches Some(a) && call_ensures(
            index_of,
            (a,),
            None::<usize>,
        ))
}

/// Walks up from `id` to the nearest ancestor for which `index_of` reports where its
/// transform is stored.
pub fn lookup_parent<F: Fn(EntityId) -> Option<usize>>(
    entities: &Entities,
    id: EntityId,
    index_of: F,
) -> (lookup: ParentLookup)
    requires
        entities.wf(),
        forall|e: EntityId| call_requires(index_of, (e,)),
    ensures
        (lookup == ParentLookup::Removed) == !entities.ids().contains(id),
        lookup == ParentLookup::IsRoot ==> exists|levels: nat|
            #![trigger ancestor(*entities, id, levels)]
            ancestor(*entities, id, levels) matches Some(top) && entities.ids().contains(top)
                && entities.parent_of(top) is None && none_up_to(*entities, id, index_of, levels),
        lookup matches ParentLookup::Found { parent_id, parent_index } ==> exists|levels: nat|
            #![trigger ancestor(*entities, id, levels)]
            1 <= levels && ancestor(*entities, id, levels) == Some(parent_id) && call_ensures(
                index_of,
                (parent_id,),
                Some(parent_index),
            ) && none_up_to(*entities, id, index_of, (levels - 1) as nat),
{
    let mut current = id;
    let ghost mut levels: nat = 0;
    loop
        invariant
            entities.wf(),
            forall|e: EntityId| call_requires(index_of, (e,)),
            ancestor(*entities, id, levels) == Some(current),
            levels > 0 ==> entities.ids().contains(current),
            levels > 0 ==> entities.ids().contains(id),
            none_up_to(*entities, id, index_of, levels),
        decreases (if entities.ids().contains(current) { entities.depth_of(current) + 1 } else { 0 }),
    {
        let parent_id = match entities.get(current) {
            None => {
                proof {
                    if levels > 0 {
                        assert(false);
                    }
                }
                return ParentLookup::Removed;
            },
            Some(entity) => match entity.parent() {
                None => {
                    proof {
                        assert(ancestor(*entities, id, levels) matches Some(top) && entities.ids().contains(top)
                            && entities.parent_of(top) is None);
                    }
                    return ParentLookup::IsRoot;
                },
                Some(parent_id) => parent_id,
            },
        };
        proof {
            lemma_parent_held(*entities, current);
            assert(ancestor(*entities, id, levels + 1) == Some(parent_id));
        }
        match index_of(parent_id) {
            Some(parent_index) => {
                return ParentLookup::Found { parent_id, parent_index };
            },
            None => {
                proof {
                    assert forall|j: nat| 1 <= j <= levels + 1 implies (#[trigger] ancestor(*entities, id, j) matches Some(a)
                        && call_ensures(index_of, (a,), None::<usize>)) by {
                        if j <= levels {
                            assert(none_up_to(*entities, id, index_of, levels));
                        }
                    }
                    levels = levels + 1;
                }
                current = parent_id;
            },
        }
    }
}

} // verus!

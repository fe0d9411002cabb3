//! The level's bookkeeping: the index lists that turn the level's vertices into triangles for
//! each object, the entities the level is made of, its triggers, and what an update of the
//! level has to do.
//!
//! Geometry (vertex positions, trigger lines, movement effects) stays with the caller; this
//! module receives what the geometry decided, such as which trigger lines the player crossed,
//! and keeps the rest consistent.
use crate::entities::{lemma_ids_finite, lemma_parent_held, Entities, EntityId};
use crate::slab::SLAB_CAPACITY;
use crate::errors::ErrorKind;
use crate::maps::{index_list_entries, index_lists, index_lists_entry, index_lists_new};
use crate::wad_system::WadSystem;
use vec_map::VecMap;
use vstd::multiset::Multiset;
use vstd::prelude::*;

verus! {

/// The index lists of one object: walls, flats, sky and decor.
pub struct Indices {
    pub wall: Vec<u32>,
    pub flat: Vec<u32>,
    pub sky: Vec<u32>,
    pub decor: Vec<u32>,
}

impl View for Indices {
    type V = (Seq<u32>, Seq<u32>, Seq<u32>, Seq<u32>);

    open spec fn view(&self) -> (Seq<u32>, Seq<u32>, Seq<u32>, Seq<u32>) {
        (self.wall@, self.flat@, self.sky@, self.decor@)
    }
}

/// The id of the static object: the level geometry that never moves.
pub const STATIC_OBJECT: usize = 0;

impl Indices {
    /// Empty lists, each with room for `capacity` indices.
    pub fn with_capacity(capacity: usize) -> (indices: Self)
        ensures
            indices@ == (
                Seq::<u32>::empty(),
                Seq::<u32>::empty(),
                Seq::<u32>::empty(),
                Seq::<u32>::empty(),
            ),
    {
        Indices {
            wall: Vec::with_capacity(capacity),
            flat: Vec::with_capacity(capacity),
            sky: Vec::with_capacity(capacity),
            decor: Vec::with_capacity(capacity),
        }
    }

    /// Empty lists for object `object_id`: the static object gets more room than the others.
    pub fn for_id(object_id: usize) -> (indices: Self)
        ensures
            indices@ == (
                Seq::<u32>::empty(),
                Seq::<u32>::empty(),
                Seq::<u32>::empty(),
                Seq::<u32>::empty(),
            ),
    {
        if object_id == STATIC_OBJECT {
            Self::with_capacity(65_536)
        } else {
            Self::with_capacity(512)
        }
    }

    /// The lists of object `object_id` in `map`, after giving the object empty lists if it
    /// had none.
    pub fn in_map(map: &mut VecMap<Indices>, object_id: usize) -> (indices: &mut Self)
        requires
            object_id < usize::MAX,
        ensures
            indices@ == (if index_lists(*old(map)).contains_key(object_id) {
                index_lists(*old(map))[object_id]
            } else {
                (Seq::<u32>::empty(), Seq::<u32>::empty(), Seq::<u32>::empty(), Seq::<u32>::empty())
            }),
            index_lists(*final(map)) == index_lists(*old(map)).insert(object_id, final(indices)@),
    {
        index_lists_entry(map, object_id)
    }
}

/// The two triangles (v0, v1, v3) and (v1, v2, v3) of the quad made of the four vertices
/// v0..v3 that end at `new_length`.
pub open spec fn quad_indices(new_length: u32) -> Seq<u32> {
    let v0 = (new_length - 4) as u32;
    seq![v0, (v0 + 1) as u32, (v0 + 3) as u32, (v0 + 1) as u32, (v0 + 2) as u32, (v0 + 3) as u32]
}

/// The fan of the polygon made of the `poly_length` vertices that end at `new_length`: the
/// triangles (v0, v, v + 1) for every v from the first vertex v0 up to the next-to-last.
pub open spec fn poly_indices(new_length: u32, poly_length: u32) -> Seq<u32> {
    let v0 = new_length - poly_length;
    let count = if poly_length >= 1 { poly_length - 1 } else { 0 };
    Seq::new(
        (3 * count) as nat,
        |i: int|
            if i % 3 == 0 {
                v0 as u32
            } else if i % 3 == 1 {
                (v0 + i / 3) as u32
            } else {
                (v0 + i / 3 + 1) as u32
            },
    )
}

/// Appends the two triangles of the quad whose four vertices end at `new_length` (a vertex
/// count, taken as a `u32`).
pub fn any_quad(new_length: usize, indices: &mut Vec<u32>)
    requires
        new_length as u32 >= 4,
    ensures
        final(indices)@ == old(indices)@ + quad_indices(new_length as u32),
{
    let new_length = new_length as u32;
    let v0 = new_length - 4;
    let v1 = v0 + 1;
    let v2 = v1 + 1;
    let v3 = v2 + 1;

    indices.push(v0);
    indices.push(v1);
    indices.push(v3);

    indices.push(v1);
    indices.push(v2);
    indices.push(v3);
    proof {
        assert(indices@ =~= old(indices)@ + quad_indices(new_length));
    }
}

/// Appends the triangle fan of the polygon whose `poly_length` vertices end at `new_length`
/// (both taken as `u32`).
pub fn any_poly(new_length: usize, poly_length: usize, indices: &mut Vec<u32>)
    requires
        poly_length as u32 <= new_length as u32,
        (new_length as u32 - poly_length as u32) < u32::MAX,
    ensures
        final(indices)@ == old(indices)@ + poly_indices(new_length as u32, poly_length as u32),
{
    let new_length = new_length as u32;
    let poly_length = poly_length as u32;
    let v0 = new_length - poly_length;
    let mut v1 = v0;
    let mut v2 = v0 + 1;
    let ghost start = indices@;
    while v2 < new_length
        invariant
            v0 == new_length - poly_length,
            v0 < u32::MAX,
            v2 == v1 + 1,
            v0 <= v1,
            v2 <= new_length || v1 == v0,
            indices@ == start + poly_indices(new_length, poly_length).take(3 * (v1 - v0)),
        decreases new_length - v2,
    {
        indices.push(v0);
        indices.push(v1);
        indices.push(v2);
        proof {
            let all = poly_indices(new_length, poly_length);
            let k = (v1 - v0) as int;
            assert(all.take(3 * k + 3) =~= all.take(3 * k).push(v0).push(v1).push(v2)) by {
                assert((3 * k) % 3 == 0) by (nonlinear_arith);
                assert((3 * k + 1) % 3 == 1) by (nonlinear_arith);
                assert((3 * k + 2) % 3 == 2) by (nonlinear_arith);
                assert((3 * k + 1) / 3 == k) by (nonlinear_arith);
                assert((3 * k + 2) / 3 == k) by (nonlinear_arith);
            }
        }
        v1 = v2;
        v2 = v2 + 1;
    }
    proof {
        let all = poly_indices(new_length, poly_length);
        assert(all.take(3 * (v1 - v0)) =~= all);
    }
}

/// One of the four index lists of an object.
#[derive(Eq, PartialEq, Structural, Copy, Clone, Debug)]
pub enum IndexList {
    Wall,
    Flat,
    Sky,
    Decor,
}

/// The lists `lists` with `extra` appended to the list `which`.
pub open spec fn appended(
    lists: (Seq<u32>, Seq<u32>, Seq<u32>, Seq<u32>),
    which: IndexList,
    extra: Seq<u32>,
) -> (Seq<u32>, Seq<u32>, Seq<u32>, Seq<u32>) {
    match which {
        IndexList::Wall => (lists.0 + extra, lists.1, lists.2, lists.3),
        IndexList::Flat => (lists.0, lists.1 + extra, lists.2, lists.3),
        IndexList::Sky => (lists.0, lists.1, lists.2 + extra, lists.3),
        IndexList::Decor => (lists.0, lists.1, lists.2, lists.3 + extra),
    }
}

/// The index lists of every object of a level under construction.
pub struct ObjectIndices {
    pub map: VecMap<Indices>,
}

impl ObjectIndices {
    pub open spec fn lists(self) -> Map<usize, (Seq<u32>, Seq<u32>, Seq<u32>, Seq<u32>)> {
        index_lists(self.map)
    }

    /// No object has lists yet.
    pub fn new() -> (indices: Self)
        ensures
            indices.lists().dom().is_empty(),
    {
        ObjectIndices { map: index_lists_new() }
    }

    /// The lists of `object_id`, or empty lists.
    pub open spec fn lists_of(self, object_id: usize) -> (Seq<u32>, Seq<u32>, Seq<u32>, Seq<u32>) {
        if self.lists().contains_key(object_id) {
            self.lists()[object_id]
        } else {
            (Seq::empty(), Seq::empty(), Seq::empty(), Seq::empty())
        }
    }

    /// Adds the fan of a flat polygon of `poly_length` static vertices ending at `new_length`
    /// to the object's flat list.
    pub fn flat_poly(&mut self, new_length: usize, object_id: usize, poly_length: usize)
        requires
            object_id < usize::MAX,
            poly_length as u32 <= new_length as u32,
            (new_length as u32 - poly_length as u32) < u32::MAX,
        ensures
            final(self).lists() == old(self).lists().insert(
                object_id,
                appended(old(self).lists_of(object_id), IndexList::Flat, poly_indices(new_length as u32, poly_length as u32)),
            ),
    {
        let indices = Indices::in_map(&mut self.map, object_id);
        any_poly(new_length, poly_length, &mut indices.flat);
    }

    /// Adds the two triangles of a wall quad whose static vertices end at `new_length` to the
    /// object's wall list.
    pub fn wall_quad(&mut self, new_length: usize, object_id: usize)
        requires
            object_id < usize::MAX,
            new_length as u32 >= 4,
        ensures
            final(self).lists() == old(self).lists().insert(
                object_id,
                appended(old(self).lists_of(object_id), IndexList::Wall, quad_indices(new_length as u32)),
            ),
    {
        let indices = Indices::in_map(&mut self.map, object_id);
        any_quad(new_length, &mut indices.wall);
    }

    /// Adds the fan of a sky polygon of `poly_length` sky vertices ending at `new_length` to
    /// the object's sky list.
    pub fn sky_poly(&mut self, new_length: usize, object_id: usize, poly_length: usize)
        requires
            object_id < usize::MAX,
            poly_length as u32 <= new_length as u32,
            (new_length as u32 - poly_length as u32) < u32::MAX,
        ensures
            final(self).lists() == old(self).lists().insert(
                object_id,
                appended(old(self).lists_of(object_id), IndexList::Sky, poly_indices(new_length as u32, poly_length as u32)),
            ),
    {
        let indices = Indices::in_map(&mut self.map, object_id);
        any_poly(new_length, poly_length, &mut indices.sky);
    }

    /// Adds the two triangles of a sky quad whose sky vertices end at `new_length` to the
    /// object's sky list.
    pub fn sky_quad(&mut self, new_length: usize, object_id: usize)
        requires
            object_id < usize::MAX,
            new_length as u32 >= 4,
        ensures
            final(self).lists() == old(self).lists().insert(
                object_id,
                appended(old(self).lists_of(object_id), IndexList::Sky, quad_indices(new_length as u32)),
            ),
    {
        let indices = Indices::in_map(&mut self.map, object_id);
        any_quad(new_length, &mut indices.sky);
    }

    /// Adds the two triangles of a decor quad whose decor vertices end at `new_length` to the
    /// object's decor list.
    pub fn decor_quad(&mut self, new_length: usize, object_id: usize)
        requires
            object_id < usize::MAX,
            new_length as u32 >= 4,
        ensures
            final(self).lists() == old(self).lists().insert(
                object_id,
                appended(old(self).lists_of(object_id), IndexList::Decor, quad_indices(new_length as u32)),
            ),
    {
        let indices = Indices::in_map(&mut self.map, object_id);
        any_quad(new_length, &mut indices.decor);
    }
}

/// What the player does this step, besides moving.
#[derive(Eq, PartialEq, Structural, Copy, Clone, Debug)]
pub enum PlayerAction {
    Push,
    Shoot,
}

/// How a trigger is set off.
#[derive(Eq, PartialEq, Structural, Copy, Clone, Debug)]
pub enum TriggerType {
    /// Walking over its line.
    WalkOver,
    /// Pushing its line.
    Push,
    /// Pushing its line (a switch).
    Switch,
    /// Shooting its line.
    Gun,
    /// Walking over or pushing its line.
    Any,
}

/// A trigger of the level: how it is set off, whether it goes away once set off, whether it
/// ends the level, and which of the level's triggers (as the WAD lists them) it is, so that
/// the caller can find its line and its effects.
#[derive(Eq, PartialEq, Structural, Copy, Clone, Debug)]
pub struct TriggerRecord {
    pub trigger_type: TriggerType,
    pub only_once: bool,
    pub exits: bool,
    pub source: usize,
}

/// What the geometry found for one trigger this step: whether the player's movement crossed
/// its line, and whether the line of the player's action (if any) reaches it.
#[derive(Eq, PartialEq, Structural, Copy, Clone, Debug)]
pub struct TriggerHit {
    pub walked: bool,
    pub action_line: bool,
}

/// Whether a trigger of type `trigger_type` goes off given what the geometry found.
pub open spec fn fires(trigger_type: TriggerType, hit: TriggerHit, action: Option<PlayerAction>) -> bool {
    match trigger_type {
        TriggerType::WalkOver => hit.walked,
        TriggerType::Push | TriggerType::Switch => action == Some(PlayerAction::Push)
            && hit.action_line,
        TriggerType::Gun => action == Some(PlayerAction::Shoot) && hit.action_line,
        TriggerType::Any => hit.walked || (action == Some(PlayerAction::Push) && hit.action_line),
    }
}

/// Whether a trigger of type `trigger_type` goes off given what the geometry found.
pub fn trigger_fires(trigger_type: TriggerType, hit: TriggerHit, action: Option<PlayerAction>) -> (fired: bool)
    ensures
        fired == fires(trigger_type, hit, action),
{
    match trigger_type {
        TriggerType::WalkOver => hit.walked,
        TriggerType::Push | TriggerType::Switch => match action {
            Some(PlayerAction::Push) => hit.action_line,
            _ => false,
        },
        TriggerType::Gun => match action {
            Some(PlayerAction::Shoot) => hit.action_line,
            _ => false,
        },
        TriggerType::Any => {
            if hit.walked {
                true
            } else {
                match action {
                    Some(PlayerAction::Push) => hit.action_line,
                    _ => false,
                }
            }
        },
    }
}

/// Push and switch lines go off exactly when the player pushes and the action line reaches
/// them, gun lines exactly when the player shoots and the action line reaches them: shooting
/// a switch, pushing a gun line, walking over either or doing nothing sets none of them off.
pub proof fn lemma_action_triggers(hit: TriggerHit, action: Option<PlayerAction>)
    ensures
        fires(TriggerType::Switch, hit, action) == fires(TriggerType::Push, hit, action),
        fires(TriggerType::Push, hit, action) == (action == Some(PlayerAction::Push) && hit.action_line),
        fires(TriggerType::Gun, hit, action) == (action == Some(PlayerAction::Shoot) && hit.action_line),
        !fires(TriggerType::Switch, hit, Some(PlayerAction::Shoot)),
        !fires(TriggerType::Push, hit, Some(PlayerAction::Shoot)),
        !fires(TriggerType::Gun, hit, Some(PlayerAction::Push)),
        !fires(TriggerType::Push, hit, None),
        !fires(TriggerType::Switch, hit, None),
        !fires(TriggerType::Gun, hit, None),
        fires(TriggerType::Push, hit, action) == fires(
            TriggerType::Push,
            TriggerHit { walked: !hit.walked, action_line: hit.action_line },
            action,
        ),
        fires(TriggerType::Switch, hit, action) == fires(
            TriggerType::Switch,
            TriggerHit { walked: !hit.walked, action_line: hit.action_line },
            action,
        ),
        fires(TriggerType::Gun, hit, action) == fires(
            TriggerType::Gun,
            TriggerHit { walked: !hit.walked, action_line: hit.action_line },
            action,
        ),
{
}

/// Walk-over lines go off exactly when the player's movement crosses them, whatever the
/// player does; lines of any kind go off when crossed or when pushed.
pub proof fn lemma_walk_triggers(hit: TriggerHit, action: Option<PlayerAction>)
    ensures
        fires(TriggerType::WalkOver, hit, action) == hit.walked,
        fires(TriggerType::WalkOver, hit, action) == fires(TriggerType::WalkOver, hit, None),
        fires(TriggerType::Any, hit, action) == (fires(TriggerType::WalkOver, hit, action) || fires(
            TriggerType::Push,
            hit,
            action,
        )),
{
}

/// The sources of the triggers among the first `n` that go off, in order.
pub open spec fn fired_sources(
    triggers: Seq<TriggerRecord>,
    hits: Seq<TriggerHit>,
    action: Option<PlayerAction>,
    n: nat,
) -> Seq<usize>
    decreases n,
{
    if n == 0 {
        Seq::empty()
    } else {
        let earlier = fired_sources(triggers, hits, action, (n - 1) as nat);
        let t = triggers[n - 1];
        if fires(t.trigger_type, hits[n - 1], action) {
            earlier.push(t.source)
        } else {
            earlier
        }
    }
}

/// The positions, among the first `n`, of the triggers that go off and go away once set off,
/// in ascending order.
pub open spec fn spent_positions(
    triggers: Seq<TriggerRecord>,
    hits: Seq<TriggerHit>,
    action: Option<PlayerAction>,
    n: nat,
) -> Seq<usize>
    decreases n,
{
    if n == 0 {
        Seq::empty()
    } else {
        let earlier = spent_positions(triggers, hits, action, (n - 1) as nat);
        let t = triggers[n - 1];
        if fires(t.trigger_type, hits[n - 1], action) && t.only_once {
            earlier.push((n - 1) as usize)
        } else {
            earlier
        }
    }
}

/// Whether a trigger among the first `n` that ends the level goes off.
pub open spec fn exit_fired(
    triggers: Seq<TriggerRecord>,
    hits: Seq<TriggerHit>,
    action: Option<PlayerAction>,
    n: nat,
) -> bool {
    exists|i: int|
        0 <= i < n && #[trigger] triggers[i].exits && fires(triggers[i].trigger_type, hits[i], action)
}

/// `t` with its going-away flag set to `only_once`.
pub open spec fn with_only_once(t: TriggerRecord, only_once: bool) -> TriggerRecord {
    TriggerRecord { only_once, ..t }
}

/// Setting off a trigger that ends the level ends it, whether or not the trigger goes away
/// once set off: the exit does not depend on which triggers go away.
pub proof fn lemma_exit_trigger_ends_level(
    triggers: Seq<TriggerRecord>,
    hits: Seq<TriggerHit>,
    action: Option<PlayerAction>,
    n: nat,
    i: int,
    only_once: Seq<bool>,
)
    requires
        0 <= i < n <= triggers.len(),
        triggers[i].exits,
        fires(triggers[i].trigger_type, hits[i], action),
        only_once.len() == triggers.len(),
    ensures
        exit_fired(triggers, hits, action, n),
        exit_fired(
            Seq::new(triggers.len(), |k: int| with_only_once(triggers[k], only_once[k])),
            hits,
            action,
            n,
        ),
{
    let flipped = Seq::new(triggers.len(), |k: int| with_only_once(triggers[k], only_once[k]));
    assert(flipped[i].exits && fires(flipped[i].trigger_type, hits[i], action));
}

/// `s` with the element at `i` taken out and the last element moved into its place.
pub open spec fn swap_removed<T>(s: Seq<T>, i: int) -> Seq<T> {
    s.update(i, s.last()).drop_last()
}

/// `s` after taking out, one after the other, the elements at the positions `order` lists.
pub open spec fn swap_removed_each<T>(s: Seq<T>, order: Seq<usize>) -> Seq<T>
    decreases order.len(),
{
    if order.len() == 0 {
        s
    } else {
        swap_removed(swap_removed_each(s, order.drop_last()), order.last() as int)
    }
}

/// The plain part of a level: its root entity, the entities of its objects (the static one
/// first), its triggers, and the flags that the next update acts on.
pub struct Level {
    root: EntityId,
    objects: Vec<EntityId>,
    triggers: Vec<TriggerRecord>,
    exit_triggered: bool,
    level_changed: bool,
}

/// The name of the entity of the level's object `i`.
pub open spec fn object_name(i: int) -> &'static str {
    if i == 0 {
        "static_object"
    } else {
        "dynamic_object"
    }
}

/// The entities that a level is made of: a new root named `level_root`, a `world` entity
/// under it, and under the world one entity per object, the static object first.  Returns
/// the root, the world and the objects.
pub fn add_level_entities(entities: &mut Entities, num_objects: usize) -> (created: (
    EntityId,
    EntityId,
    Vec<EntityId>,
))
    requires
        old(entities).wf(),
        old(entities).ids().len() + num_objects + 2 <= SLAB_CAPACITY,
    ensures
        final(entities).wf(),
        level_entities_added(*old(entities), *final(entities), created.0, created.1, created.2@),
        created.2@.len() == num_objects,
{
    proof {
        lemma_ids_finite(*old(entities));
    }
    let root = entities.add_root("level_root");
    let ghost after_root = *entities;
    proof {
        assert(entities.ids().len() == old(entities).ids().len() + 1);
    }
    let world = match entities.add(root, "world") {
        Ok(world) => world,
        Err(_) => {
            proof {
                assert(false);
            }
            root
        },
    };
    let ghost after_world = *entities;
    let mut objects: Vec<EntityId> = Vec::new();
    proof {
        assert(after_world.ids() + objects@.to_set() =~= after_world.ids());
        assert(after_world.ids().len() == old(entities).ids().len() + 2);
        assert forall|e: EntityId| #![trigger old(entities).ids().contains(e)]
            old(entities).ids().contains(e) implies {
                &&& entities.name_of(e) == old(entities).name_of(e)
                &&& entities.parent_of(e) == old(entities).parent_of(e)
                &&& entities.children(e) == old(entities).children(e)
            } by {
            assert(after_root.ids().contains(e));
            assert(e != root);
        }
    }
    let mut i: usize = 0;
    while i < num_objects
        invariant
            i <= num_objects,
            entities.wf(),
            old(entities).ids().finite(),
            entities.ids().len() == old(entities).ids().len() + 2 + i,
            old(entities).ids().len() + num_objects + 2 <= SLAB_CAPACITY,
            objects@.len() == i,
            !old(entities).ids().contains(root),
            !old(entities).ids().contains(world),
            root != world,
            after_world.ids() == old(entities).ids().insert(root).insert(world),
            entities.ids() == after_world.ids() + objects@.to_set(),
            entities.name_of(root) == "level_root",
            entities.parent_of(root) is None,
            entities.roots() == seq![root] + old(entities).roots(),
            entities.name_of(world) == "world",
            entities.parent_of(world) == Some(root),
            entities.children(root) == seq![world],
            entities.children(world) == objects@.reverse(),
            objects@.no_duplicates(),
            forall|a: int|
                0 <= a < i ==> {
                    &&& !after_world.ids().contains(#[trigger] objects@[a])
                    &&& entities.name_of(objects@[a]) == object_name(a)
                    &&& entities.parent_of(objects@[a]) == Some(world)
                    &&& entities.children(objects@[a]) == Seq::<EntityId>::empty()
                },
            forall|e: EntityId|
                #![trigger old(entities).ids().contains(e)]
                old(entities).ids().contains(e) ==> {
                    &&& entities.name_of(e) == old(entities).name_of(e)
                    &&& entities.parent_of(e) == old(entities).parent_of(e)
                    &&& entities.children(e) == old(entities).children(e)
                },
            entities.pending() == old(entities).pending(),
            entities.collected() == old(entities).collected(),
        decreases num_objects - i,
    {
        let name = if i == 0 { "static_object" } else { "dynamic_object" };
        let ghost before = *entities;
        proof {
            assert(entities.ids().contains(world));
        }
        let object = match entities.add(world, name) {
            Ok(object) => object,
            Err(_) => {
                proof {
                    assert(false);
                }
                world
            },
        };
        proof {
            lemma_ids_finite(before);
            assert(!objects@.contains(object)) by {
                if objects@.contains(object) {
                    let a = objects@.index_of(object);
                    assert(objects@.to_set().contains(object));
                }
            }
            assert(!after_world.ids().contains(object));
        }
        let ghost prior = objects@;
        objects.push(object);
        proof {
            assert(before.ids().contains(root));
            prior.lemma_push_to_set_commute(object);
            assert(objects@.to_set() =~= prior.to_set().insert(object));
            assert(entities.ids().len() == before.ids().len() + 1);
            assert(entities.ids() =~= after_world.ids() + objects@.to_set());
            assert(entities.children(world) =~= objects@.reverse());
            assert forall|a: int, b: int| 0 <= a < objects@.len() && 0 <= b < objects@.len() && a != b
                implies objects@[a] != objects@[b] by {
                if a < prior.len() && b < prior.len() {
                } else if a == prior.len() {
                    assert(prior.to_set().contains(objects@[b]));
                } else {
                    assert(prior.to_set().contains(objects@[a]));
                }
            }
            assert forall|a: int| 0 <= a < i + 1 implies {
                &&& !after_world.ids().contains(#[trigger] objects@[a])
                &&& entities.name_of(objects@[a]) == object_name(a)
                &&& entities.parent_of(objects@[a]) == Some(world)
                &&& entities.children(objects@[a]) == Seq::<EntityId>::empty()
            } by {
                if a < i {
                    assert(prior.to_set().contains(prior[a]));
                    assert(before.ids().contains(prior[a]));
                }
            }
            assert forall|e: EntityId| #![trigger old(entities).ids().contains(e)]
                old(entities).ids().contains(e) implies {
                    &&& entities.name_of(e) == old(entities).name_of(e)
                    &&& entities.parent_of(e) == old(entities).parent_of(e)
                    &&& entities.children(e) == old(entities).children(e)
                } by {
                assert(before.ids().contains(e));
                assert(e != world);
            }
        }
        i = i + 1;
    }
    proof {
        assert forall|a: int| 0 <= a < objects@.len() implies #[trigger] objects@[a] != root && objects@[a] != world by {
            assert(after_world.ids().contains(root));
            assert(after_world.ids().contains(world));
        }
    }
    (root, world, objects)
}

/// `after` is `before` with the entities of a level added: `root` a new root named
/// `level_root`, `world` a new entity named `world` under it, and under the world one new
/// entity per object (the last added first among the world's children), named after whether
/// it is the static object; nothing else changed.
pub open spec fn level_entities_added(
    before: Entities,
    after: Entities,
    root: EntityId,
    world: EntityId,
    objects: Seq<EntityId>,
) -> bool {
    &&& !before.ids().contains(root)
    &&& !before.ids().contains(world)
    &&& root != world
    &&& after.ids() == before.ids().insert(root).insert(world) + objects.to_set()
    &&& after.name_of(root) == "level_root"
    &&& after.parent_of(root) is None
    &&& after.roots() == seq![root] + before.roots()
    &&& after.name_of(world) == "world"
    &&& after.parent_of(world) == Some(root)
    &&& after.children(root) == seq![world]
    &&& after.children(world) == objects.reverse()
    &&& objects.no_duplicates()
    &&& forall|a: int|
        0 <= a < objects.len() ==> {
            &&& !before.ids().contains(#[trigger] objects[a])
            &&& objects[a] != root
            &&& objects[a] != world
            &&& after.name_of(objects[a]) == object_name(a)
            &&& after.parent_of(objects[a]) == Some(world)
            &&& after.children(objects[a]) == Seq::<EntityId>::empty()
        }
    &&& forall|e: EntityId|
        #![trigger before.ids().contains(e)]
        before.ids().contains(e) ==> {
            &&& after.name_of(e) == before.name_of(e)
            &&& after.parent_of(e) == before.parent_of(e)
            &&& after.children(e) == before.children(e)
        }
    &&& after.pending() == before.pending()
    &&& after.collected() == before.collected()
}

/// The name of the entity of a mesh made from an object's `list`.
pub open spec fn mesh_name(list: IndexList) -> &'static str {
    match list {
        IndexList::Flat => "flats",
        IndexList::Wall => "walls",
        IndexList::Decor => "decor",
        IndexList::Sky => "sky",
    }
}

/// The meshes of object `key` with lists `lists`: one per non-empty list, flats first, then
/// walls, decor and sky.
pub open spec fn object_meshes(key: usize, lists: (Seq<u32>, Seq<u32>, Seq<u32>, Seq<u32>)) -> Seq<
    (usize, IndexList),
> {
    (if lists.1.len() > 0 { seq![(key, IndexList::Flat)] } else { Seq::empty() }) + (if lists.0.len()
        > 0 {
        seq![(key, IndexList::Wall)]
    } else {
        Seq::empty()
    }) + (if lists.3.len() > 0 { seq![(key, IndexList::Decor)] } else { Seq::empty() }) + (
    if lists.2.len() > 0 {
        seq![(key, IndexList::Sky)]
    } else {
        Seq::empty()
    })
}

/// The meshes of all objects below `bound`, in ascending object order.
pub open spec fn mesh_plan(
    lists: Map<usize, (Seq<u32>, Seq<u32>, Seq<u32>, Seq<u32>)>,
    bound: nat,
) -> Seq<(usize, IndexList)>
    decreases bound,
{
    if bound == 0 {
        Seq::empty()
    } else {
        let key = (bound - 1) as usize;
        mesh_plan(lists, (bound - 1) as nat) + if lists.contains_key(key) {
            object_meshes(key, lists[key])
        } else {
            Seq::empty()
        }
    }
}

/// The entity made for one mesh of an object: which list it draws, and of which object.
#[derive(Eq, PartialEq, Structural, Copy, Clone, Debug)]
pub struct MeshEntity {
    pub entity: EntityId,
    pub list: IndexList,
    pub object: usize,
}

/// The mesh entities in `added` whose parent is `parent`, the last added first.
pub open spec fn children_added(added: Seq<MeshEntity>, objects: Seq<EntityId>, parent: EntityId) -> Seq<
    EntityId,
>
    decreases added.len(),
{
    if added.len() == 0 {
        Seq::empty()
    } else {
        let earlier = children_added(added.drop_last(), objects, parent);
        if objects[added.last().object as int] == parent {
            seq![added.last().entity] + earlier
        } else {
            earlier
        }
    }
}

/// `after` is `before` with the mesh entities `added` added, each a new entity named after
/// its list, under the entity of its object; nothing else changed but the children of those
/// parents.
pub open spec fn meshes_added(
    before: Entities,
    after: Entities,
    objects: Seq<EntityId>,
    added: Seq<MeshEntity>,
) -> bool {
    &&& after.ids() == before.ids() + added.map_values(|m: MeshEntity| m.entity).to_set()
    &&& forall|j: int|
        0 <= j < added.len() ==> {
            &&& !before.ids().contains(#[trigger] added[j].entity)
            &&& after.name_of(added[j].entity) == mesh_name(added[j].list)
            &&& after.parent_of(added[j].entity) == Some(objects[added[j].object as int])
        }
    &&& forall|a: int, b: int|
        0 <= a < b < added.len() ==> #[trigger] added[a].entity != #[trigger] added[b].entity
    &&& forall|e: EntityId|
        #![trigger after.ids().contains(e)]
        after.ids().contains(e) ==> after.children(e) == children_added(added, objects, e) + (
        if before.ids().contains(e) {
            before.children(e)
        } else {
            Seq::<EntityId>::empty()
        })
    &&& forall|e: EntityId|
        #![trigger before.ids().contains(e)]
        before.ids().contains(e) ==> {
            &&& after.name_of(e) == before.name_of(e)
            &&& after.parent_of(e) == before.parent_of(e)
        }
    &&& after.roots() == before.roots()
    &&& after.pending() == before.pending()
    &&& after.collected() == before.collected()
}

/// Adds the entity of the `list` mesh of object `object` under that object's entity.
fn add_mesh_entity(
    entities: &mut Entities,
    objects: &[EntityId],
    object: usize,
    list: IndexList,
    added: &mut Vec<MeshEntity>,
    Ghost(before): Ghost<Entities>,
) -> (result: Result<(), ErrorKind>)
    requires
        old(entities).wf(),
        old(entities).ids().len() < SLAB_CAPACITY,
        object < objects@.len(),
        meshes_added(before, *old(entities), objects@, old(added)@),
        forall|j: int| 0 <= j < old(added)@.len() ==> #[trigger] old(added)@[j].object < objects@.len(),
    ensures
        final(entities).wf(),
        result is Ok ==> {
            &&& final(added)@ == old(added)@.push(
                MeshEntity { entity: final(added)@.last().entity, list, object },
            )
            &&& meshes_added(before, *final(entities), objects@, final(added)@)
            &&& final(entities).ids().len() == old(entities).ids().len() + 1
            &&& final(entities).ids() == old(entities).ids().insert(final(added)@.last().entity)
        },
        result is Err == !old(entities).ids().contains(objects@[object as int]),
        result matches Err(e) ==> {
            &&& e == (ErrorKind::NoSuchEntity {
                context: "add",
                needed_by: Some(mesh_name(list)),
                id: objects@[object as int],
            })
            &&& final(added)@ == old(added)@
            &&& final(entities).ids() == old(entities).ids()
            &&& meshes_added(before, *final(entities), objects@, final(added)@)
        },
{
    let name = match list {
        IndexList::Flat => "flats",
        IndexList::Wall => "walls",
        IndexList::Decor => "decor",
        IndexList::Sky => "sky",
    };
    let ghost mid = *entities;
    let ghost prior = added@;
    proof {
        lemma_ids_finite(mid);
    }
    match entities.add(objects[object], name) {
        Ok(entity) => {
            added.push(MeshEntity { entity, list, object });
            proof {
                let parent = objects@[object as int];
                let ids_of = |m: MeshEntity| m.entity;
                assert(added@.map_values(ids_of) =~= prior.map_values(ids_of).push(entity));
                prior.map_values(ids_of).lemma_push_to_set_commute(entity);
                assert(entities.ids() =~= before.ids() + added@.map_values(ids_of).to_set());
                assert(added@.drop_last() =~= prior);
                assert forall|j: int| 0 <= j < prior.len() implies #[trigger] prior[j].entity != entity by {
                    assert(prior.map_values(ids_of)[j] == prior[j].entity);
                    assert(prior.map_values(ids_of).to_set().contains(prior[j].entity));
                    assert(mid.ids().contains(prior[j].entity));
                }
                assert forall|j: int| 0 <= j < added@.len() implies {
                    &&& !before.ids().contains(#[trigger] added@[j].entity)
                    &&& entities.name_of(added@[j].entity) == mesh_name(added@[j].list)
                    &&& entities.parent_of(added@[j].entity) == Some(objects@[added@[j].object as int])
                } by {
                    if j < prior.len() {
                        assert(added@[j] == prior[j]);
                        assert(prior.map_values(ids_of)[j] == prior[j].entity);
                        assert(mid.ids().contains(prior[j].entity));
                    } else {
                        assert(!mid.ids().contains(entity));
                    }
                }
                assert forall|e: EntityId| #![trigger entities.ids().contains(e)]
                    entities.ids().contains(e) implies entities.children(e) == children_added(added@, objects@, e) + (
                    if before.ids().contains(e) {
                        before.children(e)
                    } else {
                        Seq::<EntityId>::empty()
                    }) by {
                    if e == entity {
                        assert(!before.ids().contains(entity));
                        assert forall|j: int| 0 <= j < prior.len() implies mid.ids().contains(
                            #[trigger] objects@[prior[j].object as int],
                        ) by {
                            assert(prior.map_values(ids_of)[j] == prior[j].entity);
                            assert(mid.ids().contains(prior[j].entity));
                            lemma_parent_held(mid, prior[j].entity);
                        }
                        lemma_children_added_absent(prior, objects@, entity, mid);
                    } else {
                        assert(mid.ids().contains(e));
                    }
                }
                assert forall|e: EntityId| #![trigger before.ids().contains(e)]
                    before.ids().contains(e) implies {
                        &&& entities.name_of(e) == before.name_of(e)
                        &&& entities.parent_of(e) == before.parent_of(e)
                    } by {
                    assert(mid.ids().contains(e));
                }
            }
            Ok(())
        },
        Err(e) => {
            proof {
                assert forall|e: EntityId| #![trigger entities.ids().contains(e)]
                    entities.ids().contains(e) implies entities.children(e) == children_added(added@, objects@, e) + (
                    if before.ids().contains(e) {
                        before.children(e)
                    } else {
                        Seq::<EntityId>::empty()
                    }) by {
                    assert(mid.ids().contains(e));
                }
                assert forall|e: EntityId| #![trigger before.ids().contains(e)]
                    before.ids().contains(e) implies {
                        &&& entities.name_of(e) == before.name_of(e)
                        &&& entities.parent_of(e) == before.parent_of(e)
                    } by {
                    assert(mid.ids().contains(e));
                }
                assert forall|j: int| 0 <= j < added@.len() implies {
                    &&& !before.ids().contains(#[trigger] added@[j].entity)
                    &&& entities.name_of(added@[j].entity) == mesh_name(added@[j].list)
                    &&& entities.parent_of(added@[j].entity) == Some(objects@[added@[j].object as int])
                } by {
                    let ids_of = |m: MeshEntity| m.entity;
                    assert(added@.map_values(ids_of)[j] == added@[j].entity);
                    assert(mid.ids().contains(added@[j].entity));
                }
            }
            Err(e)
        },
    }
}

/// The object and list of each mesh entity.
pub open spec fn mesh_pairs(added: Seq<MeshEntity>) -> Seq<(usize, IndexList)> {
    added.map_values(|m: MeshEntity| (m.object, m.list))
}

/// Adds the mesh entities of object `object`, whose lists are `indices`: one per non-empty
/// list, flats first, then walls, decor and sky.  Stops at the first that cannot be added.
fn add_object_meshes(
    entities: &mut Entities,
    objects: &[EntityId],
    object: usize,
    indices: &Indices,
    added: &mut Vec<MeshEntity>,
    Ghost(before): Ghost<Entities>,
) -> (result: Result<(), ErrorKind>)
    requires
        old(entities).wf(),
        old(entities).ids().len() + 4 <= SLAB_CAPACITY,
        object < objects@.len(),
        meshes_added(before, *old(entities), objects@, old(added)@),
        forall|j: int| 0 <= j < old(added)@.len() ==> #[trigger] old(added)@[j].object < objects@.len(),
    ensures
        final(entities).wf(),
        meshes_added(before, *final(entities), objects@, final(added)@),
        forall|j: int| 0 <= j < final(added)@.len() ==> #[trigger] final(added)@[j].object < objects@.len(),
        final(entities).ids().len() == old(entities).ids().len() + (final(added)@.len() - old(added)@.len()),
        result is Ok ==> mesh_pairs(final(added)@) == mesh_pairs(old(added)@) + object_meshes(object, indices@),
        result matches Err(e) ==> {
            let done = (final(added)@.len() - old(added)@.len()) as int;
            &&& 0 <= done < object_meshes(object, indices@).len()
            &&& mesh_pairs(final(added)@) == mesh_pairs(old(added)@) + object_meshes(object, indices@).take(done)
            &&& e == (ErrorKind::NoSuchEntity {
                context: "add",
                needed_by: Some(mesh_name(object_meshes(object, indices@)[done].1)),
                id: objects@[object as int],
            })
            &&& !old(entities).ids().contains(objects@[object as int])
        },
{
    let ghost start = added@;
    let ghost planned = object_meshes(object, indices@);
    let lists = [
        (indices.flat.len() > 0, IndexList::Flat),
        (indices.wall.len() > 0, IndexList::Wall),
        (indices.decor.len() > 0, IndexList::Decor),
        (indices.sky.len() > 0, IndexList::Sky),
    ];
    let ghost wanted = seq![
        (indices@.1.len() > 0, IndexList::Flat),
        (indices@.0.len() > 0, IndexList::Wall),
        (indices@.3.len() > 0, IndexList::Decor),
        (indices@.2.len() > 0, IndexList::Sky),
    ];
    assert(lists@ =~= wanted);
    assert(mesh_pairs(start) + object_meshes_upto(object, wanted, 0) =~= mesh_pairs(start));
    proof {
        lemma_object_meshes_whole(object, indices@);
    }
    let mut i: usize = 0;
    while i < 4
        invariant
            0 <= i <= 4,
            lists@ == wanted,
            entities.wf(),
            old(entities).ids().len() + 4 <= SLAB_CAPACITY,
            entities.ids().len() == old(entities).ids().len() + (added@.len() - start.len()),
            added@.len() - start.len() <= i,
            object < objects@.len(),
            meshes_added(before, *entities, objects@, added@),
            forall|j: int| 0 <= j < added@.len() ==> #[trigger] added@[j].object < objects@.len(),
            mesh_pairs(added@) == mesh_pairs(start) + object_meshes_upto(object, wanted, i as int),
            entities.ids().contains(objects@[object as int]) == old(entities).ids().contains(objects@[object as int]),
            planned == object_meshes_upto(object, wanted, 4),
            planned == object_meshes(object, indices@),
            start == old(added)@,
        decreases 4 - i,
    {
        let (wanted_here, list) = lists[i];
        if wanted_here {
            let ghost mid = *entities;
            let ghost prev_added = added@;
            let result = add_mesh_entity(entities, objects, object, list, added, Ghost(before));
            match result {
                Ok(()) => {},
                Err(e) => {
                    proof {
                        assert(lists@[i as int] == wanted[i as int]);
                        lemma_object_meshes_upto_prefix(object, wanted, i as int);
                        lemma_object_meshes_whole(object, indices@);
                        assert(added@ == prev_added);
                        assert(entities.ids() == mid.ids());
                        assert(mesh_pairs(added@).len() == added@.len());
                        assert(mesh_pairs(start).len() == start.len());
                        let done = (added@.len() - start.len()) as int;
                        assert(done == object_meshes_upto(object, wanted, i as int).len());
                        assert(mesh_pairs(added@) =~= mesh_pairs(start) + planned.take(done));
                        assert(entities.ids().len() == old(entities).ids().len() + (added@.len() - start.len()));
                        assert(wanted[i as int].0);
                        assert(object_meshes_upto(object, wanted, i as int).len() < object_meshes_upto(object, wanted, 4).len());
                        assert(planned == object_meshes_upto(object, wanted, 4));
                        assert(planned == object_meshes(object, indices@));
                        assert(done < planned.len());
                        assert(0 <= done < object_meshes(object, indices@).len());
                    }
                    return Err(e);
                },
            }
            proof {
                assert(lists@[i as int] == wanted[i as int]);
                assert(mesh_pairs(added@) =~= mesh_pairs(prev_added).push((object, list)));
                assert(mesh_pairs(added@) =~= mesh_pairs(start) + object_meshes_upto(object, wanted, i + 1));
                assert(entities.ids().contains(objects@[object as int]));
                assert(mid.ids().contains(objects@[object as int]));
            }
        } else {
            proof {
                assert(object_meshes_upto(object, wanted, i + 1) =~= object_meshes_upto(object, wanted, i as int));
            }
        }
        i = i + 1;
    }
    proof {
        lemma_object_meshes_whole(object, indices@);
    }
    Ok(())
}

/// The meshes that the first `n` of the four `(wanted, list)` entries call for.
pub open spec fn object_meshes_upto(object: usize, wanted: Seq<(bool, IndexList)>, n: int) -> Seq<
    (usize, IndexList),
>
    decreases n,
{
    if n <= 0 {
        Seq::empty()
    } else {
        object_meshes_upto(object, wanted, n - 1) + if wanted[n - 1].0 {
            seq![(object, wanted[n - 1].1)]
        } else {
            Seq::empty()
        }
    }
}

/// All four entries call for exactly the object's meshes.
proof fn lemma_object_meshes_whole(object: usize, lists: (Seq<u32>, Seq<u32>, Seq<u32>, Seq<u32>))
    ensures
        object_meshes_upto(
            object,
            seq![
                (lists.1.len() > 0, IndexList::Flat),
                (lists.0.len() > 0, IndexList::Wall),
                (lists.3.len() > 0, IndexList::Decor),
                (lists.2.len() > 0, IndexList::Sky),
            ],
            4,
        ) == object_meshes(object, lists),
{
    let wanted = seq![
        (lists.1.len() > 0, IndexList::Flat),
        (lists.0.len() > 0, IndexList::Wall),
        (lists.3.len() > 0, IndexList::Decor),
        (lists.2.len() > 0, IndexList::Sky),
    ];
    reveal_with_fuel(object_meshes_upto, 5);
    assert(object_meshes_upto(object, wanted, 4) =~= object_meshes(object, lists));
}

/// When the entry at `i` is wanted, the meshes called for so far are a prefix of all of them,
/// followed by that entry's mesh.
proof fn lemma_object_meshes_upto_prefix(object: usize, wanted: Seq<(bool, IndexList)>, i: int)
    requires
        0 <= i < 4,
        wanted.len() == 4,
        wanted[i].0,
    ensures
        object_meshes_upto(object, wanted, i).len() < object_meshes_upto(object, wanted, 4).len(),
        object_meshes_upto(object, wanted, 4).take(object_meshes_upto(object, wanted, i).len() as int)
            == object_meshes_upto(object, wanted, i),
        object_meshes_upto(object, wanted, 4)[object_meshes_upto(object, wanted, i).len() as int]
            == (object, wanted[i].1),
{
    lemma_object_meshes_upto_extend(object, wanted, i + 1, 4);
    let a = object_meshes_upto(object, wanted, i);
    let b = object_meshes_upto(object, wanted, i + 1);
    let c = object_meshes_upto(object, wanted, 4);
    assert(b == a + seq![(object, wanted[i].1)]);
    assert(c.take(b.len() as int) == b);
    assert(c.take(a.len() as int) =~= a) by {
        assert(c.take(a.len() as int) =~= b.take(a.len() as int));
    }
    assert(c[a.len() as int] == b[a.len() as int]);
}

/// Adds, for every object with index lists, in ascending object order, one entity per
/// non-empty list under the object's entity: flats, walls, decor and sky, named after their
/// list.  Stops with the error of the first that cannot be added, which happens only when
/// the object's entity is not in the tree.
pub fn add_mesh_entities(entities: &mut Entities, objects: &[EntityId], indices: &ObjectIndices) -> (result: Result<
    Vec<MeshEntity>,
    ErrorKind,
>)
    requires
        old(entities).wf(),
        forall|k: usize| #[trigger] indices.lists().contains_key(k) ==> k < objects@.len(),
        old(entities).ids().len() + 4 * objects@.len() <= SLAB_CAPACITY,
    ensures
        final(entities).wf(),
        (forall|j: int|
            0 <= j < mesh_plan(indices.lists(), objects@.len()).len() ==> old(entities).ids().contains(
                #[trigger] objects@[mesh_plan(indices.lists(), objects@.len())[j].0 as int],
            )) ==> result is Ok,
        result matches Ok(added) ==> {
            &&& mesh_pairs(added@) == mesh_plan(indices.lists(), objects@.len())
            &&& meshes_added(*old(entities), *final(entities), objects@, added@)
        },
        result matches Err(e) ==> exists|n: int|
            0 <= n < mesh_plan(indices.lists(), objects@.len()).len() && {
                let (object, list) = #[trigger] mesh_plan(indices.lists(), objects@.len())[n];
                &&& e == (ErrorKind::NoSuchEntity {
                    context: "add",
                    needed_by: Some(mesh_name(list)),
                    id: objects@[object as int],
                })
                &&& !old(entities).ids().contains(objects@[object as int])
            },
{
    let ghost lists = indices.lists();
    let ghost bound = objects@.len();
    let ghost before = *entities;
    let entries = index_list_entries(&indices.map);
    let mut added: Vec<MeshEntity> = Vec::new();
    proof {
        lemma_ids_finite(before);
        assert(before.ids() + added@.map_values(|m: MeshEntity| m.entity).to_set() =~= before.ids());
        assert(mesh_pairs(added@) =~= Seq::<(usize, IndexList)>::empty());
        lemma_mesh_bound_start(lists, bound, entries@);
    }
    let mut i: usize = 0;
    while i < entries.len()
        invariant
            0 <= i <= entries.len(),
            bound == objects@.len(),
            lists == indices.lists(),
            before == *old(entities),
            entities.wf(),
            before.ids().len() + 4 * objects@.len() <= SLAB_CAPACITY,
            forall|a: int, b: int|
                0 <= a < b < entries@.len() ==> #[trigger] entries@[a].0 < #[trigger] entries@[b].0,
            forall|a: int|
                0 <= a < entries@.len() ==> lists.contains_key(#[trigger] entries@[a].0)
                    && entries@[a].1@ == lists[entries@[a].0],
            forall|k: usize|
                #[trigger] lists.contains_key(k) ==> exists|a: int|
                    0 <= a < entries@.len() && #[trigger] entries@[a].0 == k,
            forall|k: usize| #[trigger] lists.contains_key(k) ==> k < bound,
            meshes_added(before, *entities, objects@, added@),
            forall|j: int| 0 <= j < added@.len() ==> #[trigger] added@[j].object < objects@.len(),
            entities.ids().len() == before.ids().len() + added@.len(),
            added@.len() <= 4 * mesh_key_bound(entries@, i as int, bound),
            mesh_pairs(added@) == mesh_plan(lists, mesh_key_bound(entries@, i as int, bound)),
        decreases entries.len() - i,
    {
        let object = entries[i].0;
        let object_lists = entries[i].1;
        proof {
            lemma_plan_len(lists, mesh_key_bound(entries@, i as int, bound));
            assert(mesh_key_bound(entries@, i as int, bound) <= object);
            assert(object < bound);
        }
        let ghost prior = added@;
        match add_object_meshes(entities, objects, object, object_lists, &mut added, Ghost(before)) {
            Ok(()) => {},
            Err(e) => {
                proof {
                    let done = (added@.len() - prior.len()) as int;
                    let key = mesh_key_bound(entries@, i as int, bound);
                    lemma_mesh_bound_step(lists, bound, entries@, i as int);
                    assert(mesh_pairs(prior).len() == prior.len());
                    let n = prior.len() + done;
                    let plan = mesh_plan(lists, bound);
                    lemma_plan_prefix(lists, (object + 1) as nat, bound);
                    assert(mesh_plan(lists, (object + 1) as nat) == mesh_plan(lists, key) + object_meshes(object, object_lists@));
                    assert(plan[n] == mesh_plan(lists, (object + 1) as nat)[n]);
                    assert(plan[n] == object_meshes(object, object_lists@)[done]);
                    lemma_object_meshes_keys(object, object_lists@);
                    assert(plan[n].0 == object);
                    assert(!before.ids().contains(objects@[object as int])) by {
                        if before.ids().contains(objects@[object as int]) {
                            assert((before.ids() + prior.map_values(|m: MeshEntity| m.entity).to_set()).contains(objects@[object as int]));
                        }
                    }
                }
                return Err(e);
            },
        }
        proof {
            lemma_mesh_bound_step(lists, bound, entries@, i as int);
            lemma_object_meshes_len(object, object_lists@);
        }
        i = i + 1;
    }
    Ok(added)
}

/// The object index bound reached after `i` entries: the next entry's object, or `limit`.
pub open spec fn mesh_key_bound(
    entries: Seq<(usize, &Indices)>,
    i: int,
    limit: nat,
) -> nat {
    if i < entries.len() {
        entries[i].0 as nat
    } else {
        limit
    }
}

/// Every mesh of an object is the object's.
proof fn lemma_object_meshes_keys(object: usize, lists: (Seq<u32>, Seq<u32>, Seq<u32>, Seq<u32>))
    ensures
        forall|j: int| 0 <= j < object_meshes(object, lists).len() ==> #[trigger] object_meshes(object, lists)[j].0 == object,
{
}

/// An object has at most four meshes.
proof fn lemma_object_meshes_len(object: usize, lists: (Seq<u32>, Seq<u32>, Seq<u32>, Seq<u32>))
    ensures
        object_meshes(object, lists).len() <= 4,
{
}

/// The meshes of the objects below `bound` number at most four per object.
proof fn lemma_plan_len(lists: Map<usize, (Seq<u32>, Seq<u32>, Seq<u32>, Seq<u32>)>, bound: nat)
    ensures
        mesh_plan(lists, bound).len() <= 4 * bound,
    decreases bound,
{
    if bound > 0 {
        lemma_plan_len(lists, (bound - 1) as nat);
        if lists.contains_key((bound - 1) as usize) {
            lemma_object_meshes_len((bound - 1) as usize, lists[(bound - 1) as usize]);
        }
    }
}

/// The plan for a smaller bound is a prefix of the plan for a larger one.
proof fn lemma_plan_prefix(lists: Map<usize, (Seq<u32>, Seq<u32>, Seq<u32>, Seq<u32>)>, a: nat, b: nat)
    requires
        a <= b,
    ensures
        mesh_plan(lists, a).len() <= mesh_plan(lists, b).len(),
        mesh_plan(lists, b).take(mesh_plan(lists, a).len() as int) == mesh_plan(lists, a),
    decreases b - a,
{
    if a < b {
        lemma_plan_prefix(lists, a, (b - 1) as nat);
        let pa = mesh_plan(lists, a);
        let pb1 = mesh_plan(lists, (b - 1) as nat);
        let pb = mesh_plan(lists, b);
        assert(pb.take(pa.len() as int) =~= pb1.take(pa.len() as int));
    } else {
        let pa = mesh_plan(lists, a);
        assert(pa.take(pa.len() as int) =~= pa);
    }
}

/// With no lists for any object from `a` up to `b`, the plan does not grow.
proof fn lemma_plan_gap(lists: Map<usize, (Seq<u32>, Seq<u32>, Seq<u32>, Seq<u32>)>, a: nat, b: nat)
    requires
        a <= b,
        b <= usize::MAX,
        forall|k: usize| a <= k < b ==> !#[trigger] lists.contains_key(k),
    ensures
        mesh_plan(lists, b) == mesh_plan(lists, a),
    decreases b - a,
{
    if a < b {
        lemma_plan_gap(lists, a, (b - 1) as nat);
        assert(!lists.contains_key((b - 1) as usize));
        assert(mesh_plan(lists, b) =~= mesh_plan(lists, (b - 1) as nat));
    }
}

/// No object below the first entry's has lists.
proof fn lemma_mesh_bound_start(
    lists: Map<usize, (Seq<u32>, Seq<u32>, Seq<u32>, Seq<u32>)>,
    bound: nat,
    entries: Seq<(usize, &Indices)>,
)
    requires
        forall|a: int, b: int|
            0 <= a < b < entries.len() ==> #[trigger] entries[a].0 < #[trigger] entries[b].0,
        forall|k: usize|
            #[trigger] lists.contains_key(k) ==> exists|a: int|
                0 <= a < entries.len() && #[trigger] entries[a].0 == k,
        forall|k: usize| #[trigger] lists.contains_key(k) ==> k < bound,
        bound <= usize::MAX,
    ensures
        mesh_plan(lists, mesh_key_bound(entries, 0, bound)) == Seq::<(usize, IndexList)>::empty(),
{
    let first = mesh_key_bound(entries, 0, bound);
    assert forall|k: usize| 0 <= k < first implies !#[trigger] lists.contains_key(k) by {
        if lists.contains_key(k) {
            let a = choose|a: int| 0 <= a < entries.len() && #[trigger] entries[a].0 == k;
            if a > 0 {
                assert(entries[0].0 < entries[a].0);
            }
        }
    }
    lemma_plan_gap(lists, 0, first);
}

/// After the entry at `i`, the plan reaches the next entry's object.
proof fn lemma_mesh_bound_step(
    lists: Map<usize, (Seq<u32>, Seq<u32>, Seq<u32>, Seq<u32>)>,
    bound: nat,
    entries: Seq<(usize, &Indices)>,
    i: int,
)
    requires
        0 <= i < entries.len(),
        forall|a: int, b: int|
            0 <= a < b < entries.len() ==> #[trigger] entries[a].0 < #[trigger] entries[b].0,
        forall|a: int|
            0 <= a < entries.len() ==> lists.contains_key(#[trigger] entries[a].0)
                && entries[a].1@ == lists[entries[a].0],
        forall|k: usize|
            #[trigger] lists.contains_key(k) ==> exists|a: int|
                0 <= a < entries.len() && #[trigger] entries[a].0 == k,
        forall|k: usize| #[trigger] lists.contains_key(k) ==> k < bound,
        bound <= usize::MAX,
    ensures
        mesh_key_bound(entries, i, bound) == entries[i].0,
        entries[i].0 < bound,
        entries[i].0 + 1 <= mesh_key_bound(entries, i + 1, bound),
        mesh_plan(lists, mesh_key_bound(entries, i + 1, bound)) == mesh_plan(lists, (entries[i].0 + 1) as nat),
        mesh_plan(lists, (entries[i].0 + 1) as nat) == mesh_plan(lists, entries[i].0 as nat)
            + object_meshes(entries[i].0, entries[i].1@),
{
    let key = entries[i].0;
    let next = mesh_key_bound(entries, i + 1, bound);
    assert(lists.contains_key(key));
    if i + 1 < entries.len() {
        assert(entries[i].0 < entries[i + 1].0);
    }
    assert forall|k: usize| key + 1 <= k < next implies !#[trigger] lists.contains_key(k) by {
        if lists.contains_key(k) {
            let a = choose|a: int| 0 <= a < entries.len() && #[trigger] entries[a].0 == k;
            if a <= i {
                if a < i {
                    assert(entries[a].0 < entries[i].0);
                }
            } else if a > i + 1 {
                assert(entries[i + 1].0 < entries[a].0);
            }
        }
    }
    lemma_plan_gap(lists, (key + 1) as nat, next);
}

/// The meshes called for by the first `m` entries extend those of the first `n`, for n <= m.
proof fn lemma_object_meshes_upto_extend(object: usize, wanted: Seq<(bool, IndexList)>, n: int, m: int)
    requires
        0 <= n <= m,
    ensures
        object_meshes_upto(object, wanted, n).len() <= object_meshes_upto(object, wanted, m).len(),
        object_meshes_upto(object, wanted, m).take(object_meshes_upto(object, wanted, n).len() as int)
            == object_meshes_upto(object, wanted, n),
    decreases m - n,
{
    if n < m {
        lemma_object_meshes_upto_extend(object, wanted, n, m - 1);
        let a = object_meshes_upto(object, wanted, n);
        let b = object_meshes_upto(object, wanted, m - 1);
        let c = object_meshes_upto(object, wanted, m);
        assert(c.take(a.len() as int) =~= b.take(a.len() as int));
    } else {
        let a = object_meshes_upto(object, wanted, n);
        assert(a.take(a.len() as int) =~= a);
    }
}

/// Mesh entities are only ever added under held entities, so an id that is not held has none.
proof fn lemma_children_added_absent(
    added: Seq<MeshEntity>,
    objects: Seq<EntityId>,
    missing: EntityId,
    held: Entities,
)
    requires
        !held.ids().contains(missing),
        forall|j: int| 0 <= j < added.len() ==> held.ids().contains(#[trigger] objects[added[j].object as int]),
    ensures
        children_added(added, objects, missing) == Seq::<EntityId>::empty(),
    decreases added.len(),
{
    if added.len() > 0 {
        let rest = added.drop_last();
        assert forall|j: int| 0 <= j < rest.len() implies held.ids().contains(#[trigger] objects[rest[j].object as int]) by {
            assert(rest[j] == added[j]);
        }
        lemma_children_added_absent(rest, objects, missing, held);
        assert(held.ids().contains(objects[added[added.len() - 1].object as int]));
    }
}

/// What the start of a level update asks of the caller.
#[derive(Eq, PartialEq, Structural, Copy, Clone, Debug)]
pub enum UpdateStart {
    /// The WAD level changed: the old level's entities are queued for removal, and a new
    /// level has to be built in place of this one.
    Rebuild,
    /// The level was built at the last update: a dump of the entity tree may be logged.
    Built,
    /// Nothing to report.
    Steady,
}

impl Level {
    pub closed spec fn root_spec(self) -> EntityId {
        self.root
    }

    pub closed spec fn object_ids(self) -> Seq<EntityId> {
        self.objects@
    }

    pub closed spec fn trigger_list(self) -> Seq<TriggerRecord> {
        self.triggers@
    }

    pub closed spec fn exiting(self) -> bool {
        self.exit_triggered
    }

    pub closed spec fn changed(self) -> bool {
        self.level_changed
    }

    /// A freshly built level: no exit triggered, and marked as changed.
    pub fn new(root: EntityId, objects: Vec<EntityId>, triggers: Vec<TriggerRecord>) -> (level: Self)
        ensures
            level.root_spec() == root,
            level.object_ids() == objects@,
            level.trigger_list() == triggers@,
            !level.exiting(),
            level.changed(),
    {
        Level { root, objects, triggers, exit_triggered: false, level_changed: true }
    }

    pub fn level_changed(&self) -> (changed: bool)
        ensures
            changed == self.changed(),
    {
        self.level_changed
    }

    pub fn root(&self) -> (root: EntityId)
        ensures
            root == self.root_spec(),
    {
        self.root
    }

    pub fn objects(&self) -> (objects: &[EntityId])
        ensures
            objects@ == self.object_ids(),
    {
        self.objects.as_slice()
    }

    pub fn triggers(&self) -> (triggers: &[TriggerRecord])
        ensures
            triggers@ == self.trigger_list(),
    {
        self.triggers.as_slice()
    }

    /// Sets off the triggers that `hits` (one per trigger, in order) and `action` call for:
    /// returns the sources of those that went off, in order; the ones that go away once set
    /// off are taken out of the list, each by moving the last trigger into its place, the
    /// last position first; and the level exits if one of them ends it.
    pub fn poll_triggers(&mut self, hits: &[TriggerHit], action: Option<PlayerAction>) -> (fired: Vec<usize>)
        requires
            hits@.len() == old(self).trigger_list().len(),
        ensures
            fired@ == fired_sources(old(self).trigger_list(), hits@, action, hits@.len() as nat),
            final(self).trigger_list() == swap_removed_each(
                old(self).trigger_list(),
                spent_positions(old(self).trigger_list(), hits@, action, hits@.len() as nat).reverse(),
            ),
            final(self).exiting() == (old(self).exiting() || exit_fired(
                old(self).trigger_list(),
                hits@,
                action,
                hits@.len() as nat,
            )),
            final(self).root_spec() == old(self).root_spec(),
            final(self).object_ids() == old(self).object_ids(),
            final(self).changed() == old(self).changed(),
    {
        let ghost triggers0 = self.triggers@;
        let ghost exit0 = self.exit_triggered;
        let ghost before = *self;
        let mut fired: Vec<usize> = Vec::new();
        let mut removed: Vec<usize> = Vec::new();
        let mut i: usize = 0;
        while i < self.triggers.len()
            invariant
                self.triggers@ == triggers0,
                hits@.len() == triggers0.len(),
                0 <= i <= triggers0.len(),
                fired@ == fired_sources(triggers0, hits@, action, i as nat),
                removed@ == spent_positions(triggers0, hits@, action, i as nat),
                forall|a: int| 0 <= a < removed@.len() ==> #[trigger] removed@[a] < i,
                forall|a: int, b: int|
                    0 <= a < b < removed@.len() ==> #[trigger] removed@[a] < #[trigger] removed@[b],
                self.exit_triggered == (exit0 || exit_fired(triggers0, hits@, action, i as nat)),
                self.root == before.root,
                self.objects@ == before.objects@,
                self.level_changed == before.level_changed,
            decreases triggers0.len() - i,
        {
            let trigger = self.triggers[i];
            if trigger_fires(trigger.trigger_type, hits[i], action) {
                fired.push(trigger.source);
                if trigger.only_once {
                    removed.push(i);
                }
                if trigger.exits {
                    self.exit_triggered = true;
                }
            }
            proof {
                if exit_fired(triggers0, hits@, action, (i + 1) as nat) && !exit_fired(triggers0, hits@, action, i as nat) {
                    let w = choose|w: int| 0 <= w < i + 1 && #[trigger] triggers0[w].exits && fires(triggers0[w].trigger_type, hits@[w], action);
                    assert(w == i);
                }
                if exit_fired(triggers0, hits@, action, i as nat) {
                    let w = choose|w: int| 0 <= w < i && #[trigger] triggers0[w].exits && fires(triggers0[w].trigger_type, hits@[w], action);
                    assert(0 <= w < i + 1 && triggers0[w].exits && fires(triggers0[w].trigger_type, hits@[w], action));
                }
                if trigger.exits && fires(trigger.trigger_type, hits@[i as int], action) {
                    assert(triggers0[i as int].exits && fires(triggers0[i as int].trigger_type, hits@[i as int], action));
                }
            }
            i = i + 1;
        }
        let ghost order = removed@.reverse();
        let mut k: usize = removed.len();
        while k > 0
            invariant
                k <= removed@.len(),
                order == removed@.reverse(),
                forall|a: int| 0 <= a < removed@.len() ==> #[trigger] removed@[a] < triggers0.len(),
                forall|a: int, b: int|
                    0 <= a < b < removed@.len() ==> #[trigger] removed@[a] < #[trigger] removed@[b],
                self.triggers@ == swap_removed_each(triggers0, order.take(removed@.len() - k)),
                self.triggers@.len() == triggers0.len() - (removed@.len() - k),
                self.exit_triggered == (exit0 || exit_fired(triggers0, hits@, action, hits@.len() as nat)),
                self.root == before.root,
                self.objects@ == before.objects@,
                self.level_changed == before.level_changed,
            decreases k,
        {
            k = k - 1;
            let index = removed[k];
            proof {
                lemma_ascending_room(removed@, triggers0.len(), k as int);
                assert(order.take(removed@.len() - k).drop_last() =~= order.take(removed@.len() - k - 1));
                assert(order.take(removed@.len() - k).last() == index);
            }
            let _ = self.triggers.swap_remove(index);
        }
        proof {
            assert(order.take(removed@.len() as int) =~= order);
        }
        fired
    }

    /// Starts an update of the level.  When the WAD level changed, the level's entities are
    /// queued for removal and a rebuild is asked for.  Otherwise a level built at the last
    /// update stops being marked as changed; then, if a trigger ended the level, its entities
    /// are queued for removal and the next WAD level is asked for.
    pub fn begin_update(&mut self, entities: &mut Entities, wad: &mut WadSystem) -> (start: UpdateStart)
        requires
            old(wad).wf(),
        ensures
            old(wad).changed() ==> {
                &&& start == UpdateStart::Rebuild
                &&& final(entities).same_tree(*old(entities))
                &&& final(entities).pending() == old(entities).pending().push(old(self).root_spec())
                &&& final(wad).next() == old(wad).next()
            },
            !old(wad).changed() ==> {
                &&& start == (if old(self).changed() { UpdateStart::Built } else { UpdateStart::Steady })
                &&& !final(self).changed()
                &&& !final(self).exiting()
                &&& final(entities).same_tree(*old(entities))
                &&& final(entities).pending() == if old(self).exiting() {
                    old(entities).pending().push(old(self).root_spec())
                } else {
                    old(entities).pending()
                }
                &&& final(wad).next() == if old(self).exiting() {
                    (old(wad).current() + 1) as usize
                } else {
                    old(wad).next()
                }
            },
            final(wad).current() == old(wad).current(),
            final(wad).levels() == old(wad).levels(),
            final(wad).changed() == old(wad).changed(),
            final(entities).collected() == old(entities).collected(),
            old(entities).wf() ==> final(entities).wf(),
            final(self).root_spec() == old(self).root_spec(),
            final(self).object_ids() == old(self).object_ids(),
            final(self).trigger_list() == old(self).trigger_list(),
    {
        if wad.level_changed() {
            entities.remove(self.root);
            return UpdateStart::Rebuild;
        }
        let start = if self.level_changed {
            self.level_changed = false;
            UpdateStart::Built
        } else {
            UpdateStart::Steady
        };
        if self.exit_triggered {
            self.exit_triggered = false;
            entities.remove(self.root);
            let current_index = wad.level_index();
            wad.change_level(current_index + 1);
        }
        start
    }

    /// Queues the level's entities for removal.
    pub fn teardown(&self, entities: &mut Entities)
        ensures
            final(entities).same_tree(*old(entities)),
            final(entities).pending() == old(entities).pending().push(self.root_spec()),
            final(entities).collected() == old(entities).collected(),
            old(entities).wf() ==> final(entities).wf(),
    {
        entities.remove(self.root);
    }
}

/// The triggers at the positions in `positions`.
pub open spec fn triggers_at(triggers: Seq<TriggerRecord>, positions: Seq<usize>) -> Seq<TriggerRecord> {
    positions.map_values(|p: usize| triggers[p as int])
}

/// Polling takes out exactly the triggers that went off and go away once set off: the
/// triggers left are the ones there were, less those.
pub proof fn lemma_spent_triggers_leave(
    triggers: Seq<TriggerRecord>,
    hits: Seq<TriggerHit>,
    action: Option<PlayerAction>,
)
    requires
        hits.len() == triggers.len(),
        triggers.len() <= usize::MAX,
    ensures
        ({
            let spent = spent_positions(triggers, hits, action, triggers.len());
            swap_removed_each(triggers, spent.reverse()).to_multiset()
                == triggers.to_multiset().sub(triggers_at(triggers, spent).to_multiset())
        }),
{
    let spent = spent_positions(triggers, hits, action, triggers.len());
    lemma_spent_ascending(triggers, hits, action, triggers.len());
    let order = spent.reverse();
    assert forall|a: int, b: int| 0 <= a < b < order.len() implies #[trigger] order[a] > #[trigger] order[b] by {
        assert(spent[spent.len() - 1 - b] < spent[spent.len() - 1 - a]);
    }
    lemma_swap_removed_each(triggers, order);
    assert(triggers_at(triggers, order).to_multiset() =~= triggers_at(triggers, spent).to_multiset()) by {
        assert(triggers_at(triggers, order) =~= triggers_at(triggers, spent).reverse());
        triggers_at(triggers, spent).lemma_reverse_to_multiset();
    }
}

/// The spent positions among the first `n` triggers ascend strictly and lie below `n`.
proof fn lemma_spent_ascending(
    triggers: Seq<TriggerRecord>,
    hits: Seq<TriggerHit>,
    action: Option<PlayerAction>,
    n: nat,
)
    requires
        n <= usize::MAX,
    ensures
        ({
            let spent = spent_positions(triggers, hits, action, n);
            &&& forall|a: int| 0 <= a < spent.len() ==> #[trigger] spent[a] < n
            &&& forall|a: int, b: int| 0 <= a < b < spent.len() ==> #[trigger] spent[a] < #[trigger] spent[b]
        }),
    decreases n,
{
    if n > 0 {
        lemma_spent_ascending(triggers, hits, action, (n - 1) as nat);
        let earlier = spent_positions(triggers, hits, action, (n - 1) as nat);
        let spent = spent_positions(triggers, hits, action, n);
        assert forall|a: int, b: int| 0 <= a < b < spent.len() implies #[trigger] spent[a] < #[trigger] spent[b] by {
            if b == earlier.len() {
                assert(spent == earlier.push((n - 1) as usize));
                assert(spent[a] == earlier[a]);
                assert(earlier[a] < n - 1);
            } else {
                assert(spent[a] == earlier[a] && spent[b] == earlier[b]);
            }
        }
        assert forall|a: int| 0 <= a < spent.len() implies #[trigger] spent[a] < n by {
            if a < earlier.len() {
                assert(spent[a] == earlier[a]);
                assert(earlier[a] < n - 1);
            }
        }
    }
}

/// Taking out the element at `i` as `swap_remove` does leaves the other elements.
proof fn lemma_swap_removed_multiset<T>(s: Seq<T>, i: int)
    requires
        0 <= i < s.len(),
    ensures
        swap_removed(s, i).to_multiset() == s.to_multiset().remove(s[i]),
{
    broadcast use vstd::multiset::group_multiset_axioms;
    let updated = s.update(i, s.last());
    vstd::seq_lib::to_multiset_update(s, i, s.last());
    assert(updated.drop_last() =~= updated.remove(updated.len() - 1));
    vstd::seq_lib::to_multiset_remove(updated, updated.len() - 1);
    assert(updated[updated.len() - 1] == s.last());
    assert(swap_removed(s, i).to_multiset() =~= s.to_multiset().remove(s[i]));
}

/// Taking out the elements at strictly descending positions, one after the other, leaves the
/// elements that were not at those positions, and leaves the positions below all of them as
/// they were.
proof fn lemma_swap_removed_each<T>(s: Seq<T>, order: Seq<usize>)
    requires
        forall|a: int| 0 <= a < order.len() ==> #[trigger] order[a] < s.len(),
        forall|a: int, b: int| 0 <= a < b < order.len() ==> #[trigger] order[a] > #[trigger] order[b],
    ensures
        swap_removed_each(s, order).len() == s.len() - order.len(),
        forall|j: int|
            0 <= j < s.len() && (forall|a: int| 0 <= a < order.len() ==> j < #[trigger] order[a])
                ==> #[trigger] swap_removed_each(s, order)[j] == s[j],
        swap_removed_each(s, order).to_multiset() == s.to_multiset().sub(
            order.map_values(|p: usize| s[p as int]).to_multiset(),
        ),
    decreases order.len(),
{
    broadcast use vstd::multiset::group_multiset_axioms;
    if order.len() == 0 {
        let picked = order.map_values(|p: usize| s[p as int]);
        assert forall|v: T| picked.to_multiset().count(v) == 0 by {
            vstd::seq_lib::to_multiset_contains(picked, v);
        }
        assert(picked.to_multiset() =~= Multiset::<T>::empty());
        assert(s.to_multiset().sub(Multiset::<T>::empty()) =~= s.to_multiset());
    } else {
        let rest = order.drop_last();
        let x = order.last();
        lemma_swap_removed_each(s, rest);
        let before = swap_removed_each(s, rest);
        lemma_descending_room(order, s.len());
        assert(x < before.len());
        assert(before[x as int] == s[x as int]) by {
            assert forall|a: int| 0 <= a < rest.len() implies x < #[trigger] rest[a] by {
                assert(order[a] > order[order.len() - 1]);
            }
        }
        lemma_swap_removed_multiset(before, x as int);
        let picked = order.map_values(|p: usize| s[p as int]);
        assert(picked =~= rest.map_values(|p: usize| s[p as int]).push(s[x as int]));
        vstd::seq_lib::to_multiset_build(rest.map_values(|p: usize| s[p as int]), s[x as int]);
        assert(swap_removed_each(s, order).to_multiset() =~= s.to_multiset().sub(picked.to_multiset()));
        assert forall|j: int|
            0 <= j < s.len() && (forall|a: int| 0 <= a < order.len() ==> j < #[trigger] order[a])
            implies #[trigger] swap_removed_each(s, order)[j] == s[j] by {
            assert(j < order[order.len() - 1]);
            assert forall|a: int| 0 <= a < rest.len() implies j < #[trigger] rest[a] by {
                assert(j < order[a]);
            }
        }
    }
}

/// In a strictly descending list of positions below `len`, the last entry leaves room for
/// the entries before it.
proof fn lemma_descending_room(order: Seq<usize>, len: nat)
    requires
        order.len() > 0,
        forall|a: int| 0 <= a < order.len() ==> #[trigger] order[a] < len,
        forall|a: int, b: int| 0 <= a < b < order.len() ==> #[trigger] order[a] > #[trigger] order[b],
    ensures
        order.last() < len - (order.len() - 1),
    decreases order.len(),
{
    if order.len() > 1 {
        let rest = order.drop_last();
        lemma_descending_room(rest, len);
        assert(order[order.len() - 2] > order[order.len() - 1]);
    }
}

/// In a strictly ascending list of positions below `len`, the entry at `k` leaves room for
/// the entries after it: it lies below `len` minus their count.
proof fn lemma_ascending_room(removed: Seq<usize>, len: nat, k: int)
    requires
        0 <= k < removed.len(),
        forall|a: int| 0 <= a < removed.len() ==> #[trigger] removed[a] < len,
        forall|a: int, b: int| 0 <= a < b < removed.len() ==> #[trigger] removed[a] < #[trigger] removed[b],
    ensures
        removed[k] < len - (removed.len() - 1 - k),
    decreases removed.len() - k,
{
    if k + 1 < removed.len() {
        lemma_ascending_room(removed, len, k + 1);
        assert(removed[k] < removed[k + 1]);
    }
}

} // verus!

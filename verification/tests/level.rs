use rust_doom::entities::{Entities, EntityId};
use rust_doom::errors::ErrorKind;
use rust_doom::level::{
    add_level_entities, add_mesh_entities, any_poly, any_quad, trigger_fires, IndexList, Indices,
    Level, ObjectIndices, PlayerAction, TriggerHit, TriggerRecord, TriggerType, UpdateStart,
};
use rust_doom::wad_system::WadSystem;

fn hit(walked: bool, action_line: bool) -> TriggerHit {
    TriggerHit { walked, action_line }
}

fn trigger(trigger_type: TriggerType, only_once: bool, exits: bool, source: usize) -> TriggerRecord {
    TriggerRecord { trigger_type, only_once, exits, source }
}

#[test]
fn indices_start_empty() {
    let indices = Indices::with_capacity(16);
    assert!(indices.wall.is_empty() && indices.flat.is_empty());
    assert!(indices.sky.is_empty() && indices.decor.is_empty());
    let indices = Indices::for_id(0);
    assert!(indices.wall.is_empty());
}

#[test]
fn quad_is_two_triangles_sharing_a_diagonal() {
    let mut indices = vec![99];
    any_quad(10, &mut indices);
    assert_eq!(indices, vec![99, 6, 7, 9, 7, 8, 9]);
}

#[test]
fn poly_is_a_fan_from_its_first_vertex() {
    let mut indices = Vec::new();
    any_poly(7, 5, &mut indices);
    assert_eq!(indices, vec![2, 2, 3, 2, 3, 4, 2, 4, 5, 2, 5, 6]);
    let mut small = Vec::new();
    any_poly(7, 2, &mut small);
    assert_eq!(small, vec![5, 5, 6]);
    let mut none = Vec::new();
    any_poly(7, 1, &mut none);
    any_poly(7, 0, &mut none);
    assert!(none.is_empty());
}

#[test]
fn object_indices_go_to_their_lists() {
    let mut indices = ObjectIndices::new();
    indices.wall_quad(4, 3);
    indices.flat_poly(7, 3, 3);
    indices.sky_quad(8, 0);
    indices.decor_quad(4, 3);
    indices.sky_poly(3, 3, 3);
    let object3 = indices.map.get(3).unwrap();
    assert_eq!(object3.wall, vec![0, 1, 3, 1, 2, 3]);
    assert_eq!(object3.flat, vec![4, 4, 5, 4, 5, 6]);
    assert_eq!(object3.decor, vec![0, 1, 3, 1, 2, 3]);
    assert_eq!(object3.sky, vec![0, 0, 1, 0, 1, 2]);
    let object0 = indices.map.get(0).unwrap();
    assert_eq!(object0.sky, vec![4, 5, 7, 5, 6, 7]);
    assert!(object0.wall.is_empty());
    assert_eq!(indices.map.len(), 2);
}

#[test]
fn triggers_fire_by_type() {
    let push = Some(PlayerAction::Push);
    let shoot = Some(PlayerAction::Shoot);
    assert!(trigger_fires(TriggerType::WalkOver, hit(true, false), None));
    assert!(!trigger_fires(TriggerType::WalkOver, hit(false, true), push));
    assert!(trigger_fires(TriggerType::Push, hit(false, true), push));
    assert!(!trigger_fires(TriggerType::Push, hit(false, true), shoot));
    assert!(!trigger_fires(TriggerType::Switch, hit(true, false), push));
    assert!(trigger_fires(TriggerType::Switch, hit(false, true), push));
    assert!(trigger_fires(TriggerType::Gun, hit(false, true), shoot));
    assert!(!trigger_fires(TriggerType::Gun, hit(false, true), push));
    assert!(trigger_fires(TriggerType::Any, hit(true, false), None));
    assert!(trigger_fires(TriggerType::Any, hit(false, true), push));
    assert!(!trigger_fires(TriggerType::Any, hit(false, true), shoot));
    assert!(!trigger_fires(TriggerType::Any, hit(false, false), push));
}

#[test]
fn spent_triggers_are_swap_removed_from_the_back() {
    let root = EntityId { index: 0, tag: 1 };
    let triggers = vec![
        trigger(TriggerType::WalkOver, true, false, 10),
        trigger(TriggerType::WalkOver, false, false, 11),
        trigger(TriggerType::Gun, true, false, 12),
        trigger(TriggerType::WalkOver, true, false, 13),
        trigger(TriggerType::Push, false, false, 14),
    ];
    let mut level = Level::new(root, vec![root], triggers.clone());
    let hits = [hit(true, false), hit(true, false), hit(false, false), hit(true, false), hit(false, false)];
    let fired = level.poll_triggers(&hits, None);
    assert_eq!(fired, vec![10, 11, 13]);
    // Position 3 goes first (the last trigger moves there), then position 0.
    assert_eq!(level.triggers(), &[triggers[4], triggers[1], triggers[2]]);
    assert!(level.level_changed());
}

#[test]
fn exit_trigger_asks_for_next_level() {
    let mut entities = Entities::create(());
    let root = entities.add_root("level_root");
    let triggers = vec![trigger(TriggerType::Any, false, true, 0)];
    let mut level = Level::new(root, vec![], triggers);
    let mut wad = WadSystem::create(1, 3).unwrap();
    assert_eq!(level.begin_update(&mut entities, &mut wad), UpdateStart::Built);
    assert_eq!(level.begin_update(&mut entities, &mut wad), UpdateStart::Steady);
    assert_eq!(wad.begin_update(), None);
    let fired = level.poll_triggers(&[hit(false, true)], Some(PlayerAction::Push));
    assert_eq!(fired, vec![0]);
    assert_eq!(level.triggers().len(), 1);
    assert_eq!(level.begin_update(&mut entities, &mut wad), UpdateStart::Steady);
    assert_eq!(entities.removed(), &[root]);
    assert_eq!(wad.level_index(), 1);
    assert_eq!(wad.begin_update(), Some(2));
    wad.level_loaded();
    assert_eq!(level.begin_update(&mut entities, &mut wad), UpdateStart::Rebuild);
    assert_eq!(entities.removed(), &[root, root]);
}

#[test]
fn level_entities_form_root_world_and_objects() {
    let mut entities = Entities::create(());
    let (root, world, objects) = add_level_entities(&mut entities, 3);
    assert_eq!(entities.len(), 5);
    assert_eq!(entities.debug_name_of(root), Some("level_root"));
    assert_eq!(entities.debug_name_of(world), Some("world"));
    assert_eq!(entities.get(world).unwrap().parent(), Some(root));
    assert_eq!(objects.len(), 3);
    assert_eq!(entities.debug_name_of(objects[0]), Some("static_object"));
    assert_eq!(entities.debug_name_of(objects[1]), Some("dynamic_object"));
    assert_eq!(entities.debug_name_of(objects[2]), Some("dynamic_object"));
    for object in &objects {
        assert_eq!(entities.get(*object).unwrap().parent(), Some(world));
    }
    entities.remove(root);
    entities.update(());
    assert!(entities.is_empty());
}

#[test]
fn mesh_entities_follow_the_lists_in_object_order() {
    let mut entities = Entities::create(());
    let (_root, _world, objects) = add_level_entities(&mut entities, 3);
    let mut indices = ObjectIndices::new();
    indices.sky_quad(4, 2);
    indices.wall_quad(4, 2);
    indices.flat_poly(3, 0, 3);
    indices.decor_quad(4, 0);
    indices.flat_poly(3, 2, 3);
    let meshes = add_mesh_entities(&mut entities, &objects, &indices).unwrap();
    let plan: Vec<(usize, IndexList)> = meshes.iter().map(|m| (m.object, m.list)).collect();
    assert_eq!(
        plan,
        vec![
            (0, IndexList::Flat),
            (0, IndexList::Decor),
            (2, IndexList::Flat),
            (2, IndexList::Wall),
            (2, IndexList::Sky),
        ]
    );
    let names: Vec<&str> = meshes.iter().map(|m| entities.debug_name_of(m.entity).unwrap()).collect();
    assert_eq!(names, vec!["flats", "decor", "flats", "walls", "sky"]);
    for mesh in &meshes {
        assert_eq!(entities.get(mesh.entity).unwrap().parent(), Some(objects[mesh.object]));
    }
    assert_eq!(entities.len(), 5 + 5);
}

#[test]
fn mesh_entity_under_missing_object_fails() {
    let mut entities = Entities::create(());
    let (_root, _world, objects) = add_level_entities(&mut entities, 2);
    let stale = EntityId { index: 4000, tag: 3 };
    let objects = vec![objects[0], stale];
    let mut indices = ObjectIndices::new();
    indices.flat_poly(3, 0, 3);
    indices.wall_quad(4, 1);
    let result = add_mesh_entities(&mut entities, &objects, &indices);
    assert_eq!(
        result,
        Err(ErrorKind::NoSuchEntity { context: "add", needed_by: Some("walls"), id: stale })
    );
    assert_eq!(entities.len(), 4 + 1);
}

use rust_doom::entities::{Entities, EntityId};
use std::collections::HashSet;

struct Tree1 {
    root_a: EntityId,
    root_b: EntityId,
    root_c: EntityId,

    a1: EntityId,

    a2: EntityId,
    a2x: EntityId,
    a2xa: EntityId,
    a2xb: EntityId,

    c1: EntityId,

    a2y: EntityId,
}

impl Tree1 {
    fn new(entities: &mut Entities) -> Self {
        let root_a = entities.add_root("root_a");
        let root_b = entities.add_root("root_b");
        let root_c = entities.add_root("root_c");

        let a1 = entities.add(root_a, "a1").unwrap();

        let a2 = entities.add(root_a, "a2").unwrap();
        let a2x = entities.add(a2, "a2x").unwrap();
        let a2xa = entities.add(a2x, "a2xa").unwrap();
        let a2xb = entities.add(a2x, "a2xb").unwrap();

        let c1 = entities.add(root_c, "c1").unwrap();

        let a2y = entities.add(a2, "a2y").unwrap();
        Self {
            root_a,
            root_b,
            root_c,
            a1,
            a2,
            a2x,
            a2xa,
            a2xb,
            c1,
            a2y,
        }
    }
}

fn check_removed(entities: &Entities, expected: &[EntityId]) {
    let actual: HashSet<EntityId> = entities.last_removed().iter().cloned().collect();
    assert!(
        expected.len() == actual.len() && expected.iter().all(|id| actual.contains(id)),
        "actual: {:?}\nexpected: {:?}",
        entities.last_removed(),
        expected
    );
}

#[test]
fn add_contains() {
    let mut entities = Entities::create(());
    let tree1 = Tree1::new(&mut entities);

    assert!(entities.contains(tree1.root_a));
    assert!(entities.contains(tree1.root_b));
    assert!(entities.contains(tree1.root_c));
    assert!(entities.contains(tree1.a1));
    assert!(entities.contains(tree1.a2));
    assert!(entities.contains(tree1.a2x));
    assert!(entities.contains(tree1.a2xa));
    assert!(entities.contains(tree1.a2xb));
    assert!(entities.contains(tree1.c1));
    assert!(entities.contains(tree1.a2y));

    assert_eq!(entities.len(), 10);
    assert_eq!(entities.removed().len(), 0);
}

#[test]
fn add_remove_single() {
    let mut entities = Entities::create(());
    let tree1 = Tree1::new(&mut entities);

    entities.remove(tree1.root_b);
    assert_eq!(entities.removed(), &[tree1.root_b]);
    entities.update(());
    assert_eq!(entities.last_removed(), &[tree1.root_b]);

    assert_eq!(entities.removed().len(), 0);
    assert!(!entities.contains(tree1.root_b));
}

#[test]
fn add_remove_one_child() {
    let mut entities = Entities::create(());
    let tree1 = Tree1::new(&mut entities);

    entities.remove(tree1.root_c);
    entities.update(());
    check_removed(&entities, &[tree1.c1, tree1.root_c]);

    assert_eq!(entities.removed().len(), 0);
    assert!(!entities.contains(tree1.c1));
    assert!(!entities.contains(tree1.root_c));
}

#[test]
fn add_remove_one_subtree() {
    let mut entities = Entities::create(());
    let tree1 = Tree1::new(&mut entities);

    entities.remove(tree1.a2x);
    entities.update(());
    check_removed(&entities, &[tree1.a2xa, tree1.a2xb, tree1.a2x]);

    assert_eq!(entities.removed().len(), 0);
    assert!(!entities.contains(tree1.a2xa));
    assert!(!entities.contains(tree1.a2xb));
    assert!(!entities.contains(tree1.a2x));

    assert!(entities.contains(tree1.a2y));
    assert!(entities.contains(tree1.a2));
    assert!(entities.contains(tree1.root_a));
}

#[test]
fn add_remove_all() {
    let mut entities = Entities::create(());
    let tree1 = Tree1::new(&mut entities);

    entities.remove(tree1.a2y);
    entities.update(());
    assert_eq!(entities.last_removed(), &[tree1.a2y]);
    assert_eq!(entities.removed().len(), 0);

    entities.remove(tree1.a2);
    entities.remove(tree1.root_a);
    entities.remove(tree1.root_c);

    let c2 = entities.add(tree1.root_c, "c2").unwrap();
    entities.update(());
    check_removed(
        &entities,
        &[
            tree1.a2xa,
            tree1.a2xb,
            tree1.a2x,
            tree1.a2,
            tree1.a1,
            tree1.root_a,
            tree1.c1,
            tree1.root_c,
            c2,
        ],
    );

    entities.remove(tree1.root_b);
    entities.update(());

    assert_eq!(entities.len(), 0);
}

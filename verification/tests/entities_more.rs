use rust_doom::entities::{Entities, Liveness};
use rust_doom::errors::ErrorKind;

#[test]
fn add_under_missing_parent_fails() {
    let mut entities = Entities::create(());
    let root = entities.add_root("root");
    entities.remove(root);
    entities.update(());
    assert_eq!(
        entities.add(root, "child"),
        Err(ErrorKind::NoSuchEntity { context: "add", needed_by: Some("child"), id: root })
    );
    assert_eq!(entities.len(), 0);
}

#[test]
fn update_with_nothing_pending_keeps_everything() {
    let mut entities = Entities::create(());
    let root = entities.add_root("root");
    let child = entities.add(root, "child").unwrap();
    entities.remove(child);
    entities.update(());
    assert_eq!(entities.last_removed(), &[child]);
    entities.update(());
    assert_eq!(entities.last_removed(), &[child]);
    assert!(entities.contains(root));
    assert_eq!(entities.len(), 1);
}

#[test]
fn removing_twice_collects_once() {
    let mut entities = Entities::create(());
    let root = entities.add_root("root");
    let child = entities.add(root, "child").unwrap();
    entities.remove(child);
    entities.remove(root);
    entities.remove(child);
    entities.update(());
    let mut collected = entities.last_removed().to_vec();
    collected.sort();
    let mut expected = vec![root, child];
    expected.sort();
    assert_eq!(collected, expected);
    assert!(entities.is_empty());
}

#[test]
fn liveness_alive_only() {
    assert!(Liveness::Alive.is_alive());
    assert!(!Liveness::Killed.is_alive());
    assert!(!Liveness::DeadDueToParent.is_alive());
}

#[test]
fn tree_dump_lists_entities_depth_first() {
    let mut entities = Entities::create(());
    let a = entities.add_root("a");
    let b = entities.add_root("b");
    let a1 = entities.add(a, "a1").unwrap();
    let dump = entities.debug_tree_dump(2);
    let lines: Vec<&str> = dump.lines().collect();
    assert_eq!(lines.len(), 4);
    assert_eq!(lines[0], "Entity tree dump:");
    let line = |indent: usize, name: &str, id: rust_doom::entities::EntityId| {
        let length = indent + 3 + name.len() + 4;
        format!(
            "{}|- {}  {}  ({}.{:x})",
            " ".repeat(indent),
            name,
            ".".repeat(60 - length),
            id.index,
            id.tag
        )
    };
    assert_eq!(lines[1], line(2, "b", b));
    assert_eq!(lines[2], line(2, "a", a));
    assert_eq!(lines[3], line(6, "a1", a1));
    assert!(dump.ends_with(")\n"));
}

#[test]
fn tree_dump_of_empty_tree_is_header() {
    let entities = Entities::create(());
    assert_eq!(entities.debug_tree_dump(4), "Entity tree dump:\n");
}

#[test]
fn long_names_get_no_dots() {
    let mut entities = Entities::create(());
    let name = "a_name_that_is_long_enough_to_reach_past_the_sixtieth_column";
    let id = entities.add_root(name);
    let dump = entities.debug_tree_dump(0);
    assert_eq!(dump, format!("Entity tree dump:\n|- {}    ({}.{:x})\n", name, id.index, id.tag));
}

#[test]
fn destroy_reports_leaks() {
    let mut entities = Entities::create(());
    let root = entities.add_root("root");
    entities.remove(root);
    assert_eq!(entities.destroy(()), None);

    let mut entities = Entities::create(());
    let root = entities.add_root("kept");
    let report = entities.destroy(()).unwrap();
    assert!(report.starts_with("Entity tree dump:\n    |- kept  "));
    assert!(report.ends_with(&format!("({}.{:x})\n", root.index, root.tag)));
}

#[test]
fn teardown_collects_pending() {
    let mut entities = Entities::create(());
    let root = entities.add_root("root");
    entities.remove(root);
    entities.teardown(());
    assert!(entities.is_empty());
    assert_eq!(entities.last_removed(), &[root]);
}

use rust_doom::entities::{Entities, EntityId};
use rust_doom::transforms::{lookup_parent, ParentLookup};

#[test]
fn nearest_transformed_ancestor_is_found() {
    let mut entities = Entities::create(());
    let root = entities.add_root("root");
    let a = entities.add(root, "a").unwrap();
    let b = entities.add(a, "b").unwrap();
    let index_of = |id: EntityId| if id == root { Some(7) } else { None };
    assert_eq!(lookup_parent(&entities, b, index_of), ParentLookup::Found { parent_id: root, parent_index: 7 });
    assert_eq!(lookup_parent(&entities, a, index_of), ParentLookup::Found { parent_id: root, parent_index: 7 });
    assert_eq!(lookup_parent(&entities, root, index_of), ParentLookup::IsRoot);

    let index_of_a = |id: EntityId| if id == a { Some(1) } else { None };
    assert_eq!(lookup_parent(&entities, b, index_of_a), ParentLookup::Found { parent_id: a, parent_index: 1 });
    assert_eq!(lookup_parent(&entities, a, index_of_a), ParentLookup::IsRoot);
}

#[test]
fn removed_entities_have_no_parent() {
    let mut entities = Entities::create(());
    let root = entities.add_root("root");
    let a = entities.add(root, "a").unwrap();
    entities.remove(root);
    entities.update(());
    assert_eq!(lookup_parent(&entities, a, |_: EntityId| Some(0)), ParentLookup::Removed);
}

use rust_doom::wad_system::{LevelOutOfRange, WadSystem};

#[test]
fn initial_level_must_exist() {
    assert_eq!(
        WadSystem::create(3, 3).err(),
        Some(LevelOutOfRange { level_index: 3, num_levels: 3 })
    );
    let select = WadSystem::create(2, 3).unwrap();
    assert_eq!(select.level_index(), 2);
    assert_eq!(select.num_levels(), 3);
    assert!(!select.level_changed());
}

#[test]
fn requested_level_is_loaded_at_next_update() {
    let mut select = WadSystem::create(0, 3).unwrap();
    assert_eq!(select.begin_update(), None);
    select.change_level(2);
    assert_eq!(select.level_index(), 0);
    assert_eq!(select.begin_update(), Some(2));
    assert_eq!(select.level_index(), 2);
    assert!(!select.level_changed());
    select.level_loaded();
    assert!(select.level_changed());
    assert_eq!(select.begin_update(), None);
    assert!(!select.level_changed());
}

#[test]
fn out_of_range_request_is_dropped() {
    let mut select = WadSystem::create(1, 2).unwrap();
    select.change_level(2);
    assert_eq!(select.begin_update(), None);
    assert_eq!(select.level_index(), 1);
    assert_eq!(select.begin_update(), None);
}

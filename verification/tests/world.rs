use rust_doom::entities::EntityId;
use rust_doom::world::{Branch, Child, Chunk, Node, Triangle, WorldBuilder};

fn ids(count: u32) -> Vec<EntityId> {
    (0..count).map(|i| EntityId { index: i, tag: 7 }).collect()
}

#[test]
fn pack_leaf_and_node() {
    assert_eq!(Child::Leaf(5).pack(), -5);
    assert_eq!(Child::Node(5).pack(), 5);
    assert_eq!(Child::Leaf(0).pack(), 0);
}

#[test]
fn unpack_positive_is_node_and_rest_leaf() {
    assert_eq!(Child::unpack(3), Child::Node(3));
    assert_eq!(Child::unpack(-3), Child::Leaf(3));
    assert_eq!(Child::unpack(0), Child::Leaf(0));
}

#[test]
fn unpack_undoes_pack_except_node_zero() {
    for child in [Child::Leaf(0), Child::Leaf(17), Child::Node(1), Child::Node(1000)] {
        assert_eq!(Child::unpack(child.pack()), child);
    }
    assert_eq!(Child::unpack(Child::Node(0).pack()), Child::Leaf(0));
}

#[test]
fn bsp_links_children_under_open_nodes() {
    let mut builder = WorldBuilder::new(ids(1));
    builder.visit_bsp_root();
    builder.visit_bsp_node(Branch::Positive);
    builder.visit_bsp_leaf(Branch::Positive);
    builder.visit_bsp_leaf_end();
    builder.visit_bsp_leaf(Branch::Negative);
    builder.visit_bsp_leaf_end();
    builder.visit_bsp_node_end();
    builder.visit_bsp_leaf(Branch::Negative);
    builder.visit_bsp_leaf_end();
    builder.visit_bsp_node_end();
    let world = builder.build();
    assert_eq!(
        world.nodes,
        vec![
            Node { positive: 1, negative: -2 },
            Node { positive: 0, negative: -1 },
        ]
    );
    assert_eq!(world.chunks.len(), 3);
}

#[test]
fn polygon_becomes_fan_and_leaf_takes_its_range() {
    let mut builder = WorldBuilder::new(ids(1));
    builder.visit_bsp_root();
    builder.visit_bsp_leaf(Branch::Positive);
    builder.add_polygon(0, 5);
    builder.visit_bsp_leaf_end();
    builder.visit_bsp_leaf(Branch::Negative);
    builder.add_polygon(0, 3);
    builder.visit_bsp_leaf_end();
    builder.visit_bsp_node_end();
    let world = builder.build();
    assert_eq!(
        world.triangles,
        vec![
            Triangle { v1: 0, v2: 1, v3: 2, normal: 5 },
            Triangle { v1: 0, v2: 2, v3: 3, normal: 5 },
            Triangle { v1: 0, v2: 3, v3: 4, normal: 5 },
            Triangle { v1: 6, v2: 7, v3: 8, normal: 9 },
        ]
    );
    assert_eq!(
        world.chunks,
        vec![
            Chunk { tri_start: 0, tri_end: 3 },
            Chunk { tri_start: 3, tri_end: 4 },
        ]
    );
    assert!(world.dynamic_chunks.is_empty());
}

#[test]
fn dynamic_objects_follow_the_static_triangles() {
    let objects = ids(3);
    let mut builder = WorldBuilder::new(objects.clone());
    builder.add_polygon(2, 4);
    builder.add_polygon(0, 3);
    builder.visit_wall_quad(1, false);
    builder.visit_wall_quad(2, true);
    let world = builder.build();
    assert_eq!(
        world.triangles,
        vec![
            Triangle { v1: 5, v2: 6, v3: 7, normal: 8 },
            Triangle { v1: 0, v2: 1, v3: 2, normal: 4 },
            Triangle { v1: 0, v2: 2, v3: 3, normal: 4 },
            Triangle { v1: 9, v2: 10, v3: 11, normal: 13 },
            Triangle { v1: 9, v2: 11, v3: 12, normal: 13 },
        ]
    );
    assert_eq!(world.dynamic_chunks, vec![(objects[2], Chunk { tri_start: 1, tri_end: 5 })]);
}

#[test]
fn degenerate_polygons_add_no_triangles() {
    let mut builder = WorldBuilder::new(ids(2));
    builder.add_polygon(1, 2);
    builder.add_polygon(1, 0);
    builder.visit_sky_quad(0);
    let world = builder.build();
    assert_eq!(
        world.triangles,
        vec![
            Triangle { v1: 4, v2: 5, v3: 6, normal: 8 },
            Triangle { v1: 4, v2: 6, v3: 7, normal: 8 },
        ]
    );
    assert_eq!(world.dynamic_chunks.len(), 1);
    assert_eq!(world.dynamic_chunks[0].1, Chunk { tri_start: 2, tri_end: 2 });
}

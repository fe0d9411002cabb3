//! The collision world's topology: a BSP tree whose nodes link to child nodes or to leaf
//! chunks, and the triangles of every level object, gathered while the level is walked.
//!
//! A node stores each of its two children packed into one `i32`: a node index as itself, a
//! leaf index negated.  The builder keeps a stack of open nodes; the walk links each new node
//! or leaf under the node on top of the stack.  Polygons become triangle fans over a running
//! vertex count; the caller stores the vertices (and the partition lines of the nodes) in the
//! same order.
use crate::entities::EntityId;
use crate::maps::{
    triangle_list_at, triangle_list_entries, triangle_list_entry, triangle_lists,
    triangle_lists_insert, triangle_lists_new,
};
use vec_map::VecMap;
use vstd::prelude::*;

verus! {

/// A child of a BSP node: another node or a leaf chunk, by index.
#[derive(Eq, PartialEq, Structural, Copy, Clone, Debug)]
pub enum Child {
    Leaf(usize),
    Node(usize),
}

/// The packed form of a child: a node's index, or a leaf's index negated.
pub open spec fn packed(child: Child) -> int {
    match child {
        Child::Leaf(index) => -index,
        Child::Node(index) => index as int,
    }
}

/// The child that a packed value stands for: positive values are nodes, the others leaves.
pub open spec fn unpacked(packed: int) -> Child {
    if packed > 0 {
        Child::Node(packed as usize)
    } else {
        Child::Leaf((-packed) as usize)
    }
}

impl Child {
    pub open spec fn index(self) -> usize {
        match self {
            Child::Leaf(index) => index,
            Child::Node(index) => index,
        }
    }

    /// Packs the child into one `i32`; the index must be below `i32::MAX`.
    pub fn pack(self) -> (packed_child: i32)
        requires
            self.index() < i32::MAX,
        ensures
            packed_child == packed(self),
    {
        match self {
            Child::Leaf(index) => -(index as i32),
            Child::Node(index) => index as i32,
        }
    }

    /// The child that `packed_child` stands for.  Negating `i32::MIN` overflows, so that
    /// value is left out.
    pub fn unpack(packed_child: i32) -> (child: Self)
        requires
            packed_child > i32::MIN,
        ensures
            child == unpacked(packed_child as int),
    {
        if packed_child > 0 {
            Child::Node(packed_child as usize)
        } else {
            Child::Leaf((-packed_child) as usize)
        }
    }
}

/// Unpacking undoes packing, for every child but `Node(0)`: node 0 packs to 0, which reads
/// back as leaf 0 (the root node is never anyone's child).
pub proof fn lemma_unpack_pack(child: Child)
    requires
        child.index() < i32::MAX,
        child != Child::Node(0),
    ensures
        unpacked(packed(child)) == child,
{
}

/// Packing undoes unpacking, for every value that unpacks.
pub proof fn lemma_pack_unpack(packed_child: i32)
    requires
        packed_child > i32::MIN,
    ensures
        packed(unpacked(packed_child as int)) == packed_child,
{
}

/// Which side of a node's partition line a child lies on.
#[derive(Eq, PartialEq, Structural, Copy, Clone, Debug)]
pub enum Branch {
    Positive,
    Negative,
}

/// The links of a BSP node: its children on the positive and negative sides, packed; 0 until
/// linked.
#[derive(Eq, PartialEq, Structural, Copy, Clone, Debug)]
pub struct Node {
    pub positive: i32,
    pub negative: i32,
}

/// The triangles of a leaf: a range of the world's triangle list.
#[derive(Eq, PartialEq, Structural, Copy, Clone, Debug)]
pub struct Chunk {
    pub tri_start: u32,
    pub tri_end: u32,
}

/// A triangle: three vertex indices and the index of its normal.
#[derive(Eq, PartialEq, Structural, Copy, Clone, Debug)]
pub struct Triangle {
    pub v1: u32,
    pub v2: u32,
    pub v3: u32,
    pub normal: u32,
}

/// The node with the `branch` child set to `child`.
pub open spec fn linked_node(node: Node, branch: Branch, child: int) -> Node {
    match branch {
        Branch::Positive => Node { positive: child as i32, ..node },
        Branch::Negative => Node { negative: child as i32, ..node },
    }
}

/// The `branch` child of `node`, packed.
pub open spec fn branch_slot(node: Node, branch: Branch) -> i32 {
    match branch {
        Branch::Positive => node.positive,
        Branch::Negative => node.negative,
    }
}

/// The fan of a polygon whose `count` vertices start at index `start`, with its normal stored
/// right after them: triangles (start, start + i + 1, start + i + 2) for i below count - 2.
pub open spec fn fan(start: int, count: int) -> Seq<Triangle> {
    Seq::new(
        if count >= 2 { (count - 2) as nat } else { 0 },
        |i: int|
            Triangle {
                v1: start as u32,
                v2: (start + i + 1) as u32,
                v3: (start + i + 2) as u32,
                normal: (start + count) as u32,
            },
    )
}

/// The list stored under `key`, or nothing.
pub open spec fn list_of(lists: Map<usize, Seq<Triangle>>, key: usize) -> Seq<Triangle> {
    if lists.contains_key(key) {
        lists[key]
    } else {
        Seq::empty()
    }
}

/// The lists of all keys below `bound`, concatenated in ascending key order.
pub open spec fn lists_below(lists: Map<usize, Seq<Triangle>>, bound: nat) -> Seq<Triangle>
    decreases bound,
{
    if bound == 0 {
        Seq::empty()
    } else {
        lists_below(lists, (bound - 1) as nat) + list_of(lists, (bound - 1) as usize)
    }
}

/// For every key from 1 up to `bound` that holds a list, in ascending order: the object with
/// that index and the range its triangles take in the concatenation.
pub open spec fn dynamic_below(
    lists: Map<usize, Seq<Triangle>>,
    objects: Seq<EntityId>,
    bound: nat,
) -> Seq<(EntityId, Chunk)>
    decreases bound,
{
    if bound == 0 {
        Seq::empty()
    } else {
        let key = (bound - 1) as usize;
        let earlier = dynamic_below(lists, objects, (bound - 1) as nat);
        if key > 0 && lists.contains_key(key) {
            earlier.push(
                (
                    objects[key as int],
                    Chunk {
                        tri_start: lists_below(lists, key as nat).len() as u32,
                        tri_end: lists_below(lists, bound).len() as u32,
                    },
                ),
            )
        } else {
            earlier
        }
    }
}

/// `after` is `before` with a polygon of `vertex_count` vertices of object `object_id`
/// added: the vertices and then the normal take the next vertex indices, and the polygon's
/// triangle fan goes to the end of the object's list.
pub open spec fn polygon_added(
    before: WorldBuilder,
    after: WorldBuilder,
    object_id: usize,
    vertex_count: usize,
) -> bool {
    &&& after.wf()
    &&& after.vertex_count() == before.vertex_count() + vertex_count + 1
    &&& after.lists() == before.lists().insert(
        object_id,
        list_of(before.lists(), object_id) + fan(before.vertex_count() as int, vertex_count as int),
    )
    &&& after.nodes() == before.nodes()
    &&& after.chunks() == before.chunks()
    &&& after.stack() == before.stack()
    &&& after.objects() == before.objects()
}

/// With no list under any key from `a` up to `b`, the keys below `b` contribute what the keys
/// below `a` do.
proof fn lemma_gap(lists: Map<usize, Seq<Triangle>>, objects: Seq<EntityId>, a: nat, b: nat)
    requires
        a <= b,
        b <= usize::MAX,
        forall|k: usize| a <= k < b ==> !#[trigger] lists.contains_key(k),
    ensures
        lists_below(lists, b) == lists_below(lists, a),
        dynamic_below(lists, objects, b) == dynamic_below(lists, objects, a),
    decreases b - a,
{
    if a < b {
        lemma_gap(lists, objects, a, (b - 1) as nat);
        assert(!lists.contains_key((b - 1) as usize));
        assert(list_of(lists, (b - 1) as usize) =~= Seq::<Triangle>::empty());
        assert(lists_below(lists, b) =~= lists_below(lists, (b - 1) as nat));
    }
}

/// No list lies below the first entry's key (or anywhere, without entries).
proof fn lemma_bound_start(
    lists: Map<usize, Seq<Triangle>>,
    objects: Seq<EntityId>,
    entries: Seq<(usize, Vec<Triangle>)>,
)
    requires
        forall|a: int, b: int|
            0 <= a < b < entries.len() ==> #[trigger] entries[a].0 < #[trigger] entries[b].0,
        forall|k: usize|
            #[trigger] lists.contains_key(k) ==> exists|a: int|
                0 <= a < entries.len() && #[trigger] entries[a].0 == k,
        forall|k: usize| #[trigger] lists.contains_key(k) ==> k < objects.len(),
        objects.len() <= usize::MAX,
    ensures
        lists_below(lists, WorldBuilder::bound_at(entries, 0, objects.len())) == Seq::<Triangle>::empty(),
        dynamic_below(lists, objects, WorldBuilder::bound_at(entries, 0, objects.len())) == Seq::<
            (EntityId, Chunk),
        >::empty(),
{
    let bound = WorldBuilder::bound_at(entries, 0, objects.len());
    assert forall|k: usize| 0 <= k < bound implies !#[trigger] lists.contains_key(k) by {
        if lists.contains_key(k) {
            let a = choose|a: int| 0 <= a < entries.len() && #[trigger] entries[a].0 == k;
            if a > 0 {
                assert(entries[0].0 < entries[a].0);
            }
        }
    }
    lemma_gap(lists, objects, 0, bound);
}

/// After the entry at `i`, the concatenation and the dynamic chunks reach the next entry's key.
proof fn lemma_bound_step(
    lists: Map<usize, Seq<Triangle>>,
    objects: Seq<EntityId>,
    entries: Seq<(usize, Vec<Triangle>)>,
    i: int,
)
    requires
        0 <= i < entries.len(),
        forall|a: int, b: int|
            0 <= a < b < entries.len() ==> #[trigger] entries[a].0 < #[trigger] entries[b].0,
        forall|a: int|
            0 <= a < entries.len() ==> lists.contains_key(#[trigger] entries[a].0)
                && entries[a].1@ == lists[entries[a].0],
        forall|k: usize|
            #[trigger] lists.contains_key(k) ==> exists|a: int|
                0 <= a < entries.len() && #[trigger] entries[a].0 == k,
        forall|k: usize| #[trigger] lists.contains_key(k) ==> k < objects.len(),
        objects.len() <= usize::MAX,
    ensures
        ({
            let key = entries[i].0;
            let next = WorldBuilder::bound_at(entries, i + 1, objects.len());
            &&& lists_below(lists, next) == lists_below(lists, key as nat) + entries[i].1@
            &&& dynamic_below(lists, objects, next) == if key > 0 {
                dynamic_below(lists, objects, key as nat).push(
                    (
                        objects[key as int],
                        Chunk {
                            tri_start: lists_below(lists, key as nat).len() as u32,
                            tri_end: (lists_below(lists, key as nat).len() + entries[i].1@.len()) as u32,
                        },
                    ),
                )
            } else {
                dynamic_below(lists, objects, key as nat)
            }
        }),
{
    let key = entries[i].0;
    let next = WorldBuilder::bound_at(entries, i + 1, objects.len());
    assert(lists.contains_key(key));
    assert(key < objects.len());
    if i + 1 < entries.len() {
        assert(entries[i].0 < entries[i + 1].0);
    }
    assert(key + 1 <= next);
    assert forall|k: usize| key + 1 <= k < next implies !#[trigger] lists.contains_key(k) by {
        if lists.contains_key(k) {
            let a = choose|a: int| 0 <= a < entries.len() && #[trigger] entries[a].0 == k;
            if a <= i {
                if a < i {
                    assert(entries[a].0 < entries[i].0);
                }
            } else if a > i + 1 {
                assert(entries[i + 1].0 < entries[a].0);
            }
        }
    }
    lemma_gap(lists, objects, (key + 1) as nat, next);
    assert(list_of(lists, key) == entries[i].1@);
    assert(lists_below(lists, (key + 1) as nat) == lists_below(lists, key as nat) + list_of(lists, key));
}

/// What the builder hands over: the node links, the leaf chunks, every triangle (the static
/// object's first, then each dynamic object's), and the chunk of each dynamic object.
pub struct BuiltWorld {
    pub nodes: Vec<Node>,
    pub chunks: Vec<Chunk>,
    pub triangles: Vec<Triangle>,
    pub dynamic_chunks: Vec<(EntityId, Chunk)>,
}

/// Gathers the BSP tree and the triangles of a level while the level is walked.
pub struct WorldBuilder {
    nodes: Vec<Node>,
    chunks: Vec<Chunk>,
    num_verts: usize,
    node_stack: Vec<usize>,
    triangles: VecMap<Vec<Triangle>>,
    objects: Vec<EntityId>,
}

impl WorldBuilder {
    pub closed spec fn nodes(self) -> Seq<Node> {
        self.nodes@
    }

    pub closed spec fn chunks(self) -> Seq<Chunk> {
        self.chunks@
    }

    /// How many vertices (normals included) the polygons so far have used.
    pub closed spec fn vertex_count(self) -> nat {
        self.num_verts as nat
    }

    /// The open nodes, innermost last.
    pub closed spec fn stack(self) -> Seq<usize> {
        self.node_stack@
    }

    /// The triangles of each object that has any, by object index.
    pub closed spec fn lists(self) -> Map<usize, Seq<Triangle>> {
        triangle_lists(self.triangles)
    }

    /// The entities of the level's objects, the static one first.
    pub closed spec fn objects(self) -> Seq<EntityId> {
        self.objects@
    }

    /// There is an object, the static object has a list, every list belongs to an object,
    /// the open nodes exist, and vertex indices fit in a `u32`.
    pub open spec fn wf(self) -> bool {
        &&& 1 <= self.objects().len() < usize::MAX
        &&& self.lists().contains_key(0)
        &&& forall|k: usize| #[trigger] self.lists().contains_key(k) ==> k < self.objects().len()
        &&& forall|i: int|
            0 <= i < self.stack().len() ==> #[trigger] self.stack()[i] < self.nodes().len()
        &&& self.vertex_count() <= u32::MAX
    }

    /// The triangles of the static object, which leaves take their ranges from.
    pub open spec fn static_triangles(self) -> Seq<Triangle> {
        self.lists()[0]
    }

    /// A builder for a level with the given objects, the static object first: no nodes, no
    /// chunks, no vertices, and an empty triangle list for the static object.
    pub fn new(objects: Vec<EntityId>) -> (builder: Self)
        requires
            1 <= objects.len() < usize::MAX,
        ensures
            builder.wf(),
            builder.nodes().len() == 0,
            builder.chunks().len() == 0,
            builder.vertex_count() == 0,
            builder.stack().len() == 0,
            builder.lists() == map![0usize => Seq::<Triangle>::empty()],
            builder.objects() == objects@,
    {
        let mut triangles = triangle_lists_new();
        let static_list = Vec::with_capacity(16_384);
        let _ = triangle_lists_insert(&mut triangles, 0, static_list);
        proof {
            assert(triangle_lists(triangles) =~= map![0usize => Seq::<Triangle>::empty()]);
        }
        WorldBuilder {
            nodes: Vec::with_capacity(128),
            chunks: Vec::with_capacity(128),
            num_verts: 0,
            node_stack: Vec::with_capacity(32),
            triangles,
            objects,
        }
    }

    /// Sets the `branch` child of the innermost open node.  Each child is set once: the slot
    /// must still be empty.
    fn link_child(&mut self, child: Child, branch: Branch)
        requires
            old(self).wf(),
            old(self).stack().len() > 0,
            branch_slot(old(self).nodes()[old(self).stack().last() as int], branch) == 0,
            child.index() < i32::MAX,
        ensures
            final(self).wf(),
            final(self).nodes() == old(self).nodes().update(
                old(self).stack().last() as int,
                linked_node(old(self).nodes()[old(self).stack().last() as int], branch, packed(child)),
            ),
            final(self).chunks() == old(self).chunks(),
            final(self).vertex_count() == old(self).vertex_count(),
            final(self).stack() == old(self).stack(),
            final(self).lists() == old(self).lists(),
            final(self).objects() == old(self).objects(),
    {
        let parent_index = self.node_stack[self.node_stack.len() - 1];
        let packed_child = child.pack();
        let mut parent = self.nodes[parent_index];
        match branch {
            Branch::Positive => {
                parent.positive = packed_child;
            },
            Branch::Negative => {
                parent.negative = packed_child;
            },
        }
        self.nodes.set(parent_index, parent);
    }

    /// Starts the tree with its root node, which becomes the innermost open node.
    pub fn visit_bsp_root(&mut self)
        requires
            old(self).wf(),
            old(self).nodes().len() == 0,
        ensures
            final(self).wf(),
            final(self).nodes() == seq![Node { positive: 0, negative: 0 }],
            final(self).stack() == old(self).stack().push(0),
            final(self).chunks() == old(self).chunks(),
            final(self).vertex_count() == old(self).vertex_count(),
            final(self).lists() == old(self).lists(),
            final(self).objects() == old(self).objects(),
    {
        proof {
            if self.stack().len() > 0 {
                assert(self.stack()[0] < self.nodes().len());
            }
        }
        self.nodes.push(Node { positive: 0, negative: 0 });
        self.node_stack.push(0);
    }

    /// Adds a node as the `branch` child of the innermost open node; the new node becomes
    /// the innermost open node.
    pub fn visit_bsp_node(&mut self, branch: Branch)
        requires
            old(self).wf(),
            old(self).stack().len() > 0,
            branch_slot(old(self).nodes()[old(self).stack().last() as int], branch) == 0,
            old(self).nodes().len() < i32::MAX,
        ensures
            final(self).wf(),
            final(self).nodes() == old(self).nodes().update(
                old(self).stack().last() as int,
                linked_node(
                    old(self).nodes()[old(self).stack().last() as int],
                    branch,
                    old(self).nodes().len() as int,
                ),
            ).push(Node { positive: 0, negative: 0 }),
            final(self).stack() == old(self).stack().push(old(self).nodes().len() as usize),
            final(self).chunks() == old(self).chunks(),
            final(self).vertex_count() == old(self).vertex_count(),
            final(self).lists() == old(self).lists(),
            final(self).objects() == old(self).objects(),
    {
        let index = self.nodes.len();
        self.nodes.push(Node { positive: 0, negative: 0 });
        self.link_child(Child::Node(index), branch);
        self.node_stack.push(index);
    }

    /// Adds a leaf as the `branch` child of the innermost open node.  Its chunk starts (and,
    /// until `visit_bsp_leaf_end`, ends) where the static object's triangles end now.
    pub fn visit_bsp_leaf(&mut self, branch: Branch)
        requires
            old(self).wf(),
            old(self).stack().len() > 0,
            branch_slot(old(self).nodes()[old(self).stack().last() as int], branch) == 0,
            old(self).chunks().len() < i32::MAX,
        ensures
            final(self).wf(),
            final(self).nodes() == old(self).nodes().update(
                old(self).stack().last() as int,
                linked_node(
                    old(self).nodes()[old(self).stack().last() as int],
                    branch,
                    -(old(self).chunks().len() as int),
                ),
            ),
            final(self).chunks() == old(self).chunks().push(
                Chunk {
                    tri_start: old(self).static_triangles().len() as u32,
                    tri_end: old(self).static_triangles().len() as u32,
                },
            ),
            final(self).stack() == old(self).stack(),
            final(self).vertex_count() == old(self).vertex_count(),
            final(self).lists() == old(self).lists(),
            final(self).objects() == old(self).objects(),
    {
        let index = self.chunks.len();
        let start = triangle_list_at(&self.triangles, 0).len() as u32;
        self.chunks.push(Chunk { tri_start: start, tri_end: start });
        self.link_child(Child::Leaf(index), branch);
    }

    /// Closes the last leaf: its chunk ends where the static object's triangles end now.
    pub fn visit_bsp_leaf_end(&mut self)
        requires
            old(self).wf(),
            old(self).chunks().len() > 0,
        ensures
            final(self).wf(),
            final(self).chunks() == old(self).chunks().update(
                old(self).chunks().len() - 1,
                Chunk {
                    tri_end: old(self).static_triangles().len() as u32,
                    ..old(self).chunks().last()
                },
            ),
            final(self).nodes() == old(self).nodes(),
            final(self).stack() == old(self).stack(),
            final(self).vertex_count() == old(self).vertex_count(),
            final(self).lists() == old(self).lists(),
            final(self).objects() == old(self).objects(),
    {
        let end = triangle_list_at(&self.triangles, 0).len() as u32;
        let last = self.chunks.len() - 1;
        let mut chunk = self.chunks[last];
        chunk.tri_end = end;
        self.chunks.set(last, chunk);
        proof {
            assert(self.stack() =~= old(self).stack());
            assert(self.lists() =~= old(self).lists());
        }
    }

    /// Closes the innermost open node.
    pub fn visit_bsp_node_end(&mut self)
        requires
            old(self).wf(),
            old(self).stack().len() > 0,
        ensures
            final(self).wf(),
            final(self).stack() == old(self).stack().drop_last(),
            final(self).nodes() == old(self).nodes(),
            final(self).chunks() == old(self).chunks(),
            final(self).vertex_count() == old(self).vertex_count(),
            final(self).lists() == old(self).lists(),
            final(self).objects() == old(self).objects(),
    {
        let _ = self.node_stack.pop();
    }

    /// Adds a polygon of `vertex_count` vertices of object `object_id`: the vertices and then
    /// the normal take the next vertex indices, and the polygon's triangle fan goes to the end
    /// of the object's list.
    pub fn add_polygon(&mut self, object_id: usize, vertex_count: usize)
        requires
            old(self).wf(),
            object_id < old(self).objects().len(),
            old(self).vertex_count() + vertex_count + 1 <= u32::MAX,
            old(self).vertex_count() + 2 <= u32::MAX,
        ensures
            polygon_added(*old(self), *final(self), object_id, vertex_count),
    {
        let ghost start_list = list_of(self.lists(), object_id);
        let vert_start = self.num_verts as u32;
        let vert_end = vert_start + vertex_count as u32;
        let list = triangle_list_entry(&mut self.triangles, object_id);
        let mut i: u32 = vert_start + 2;
        while i < vert_end
            invariant
                vert_start + 2 <= i,
                i <= vert_end || i == vert_start + 2,
                vert_end == vert_start + vertex_count,
                vert_end <= u32::MAX,
                list@ == start_list + fan(vert_start as int, vertex_count as int).take(
                    (i - vert_start - 2) as int,
                ),
            decreases vert_end - i,
        {
            list.push(Triangle { v1: vert_start, v2: i - 1, v3: i, normal: vert_end });
            proof {
                assert(fan(vert_start as int, vertex_count as int).take((i + 1 - vert_start - 2) as int)
                    =~= fan(vert_start as int, vertex_count as int).take((i - vert_start - 2) as int).push(
                    Triangle { v1: vert_start, v2: (i - 1) as u32, v3: i, normal: vert_end },
                ));
            }
            i = i + 1;
        }
        proof {
            let whole = fan(vert_start as int, vertex_count as int);
            if vert_end >= vert_start + 2 {
                assert(whole.take((i - vert_start - 2) as int) =~= whole);
            } else {
                assert(whole.take((i - vert_start - 2) as int) =~= whole);
            }
        }
        self.num_verts = self.num_verts + vertex_count + 1;
        proof {
            assert(self.lists() == old(self).lists().insert(object_id, start_list + fan(vert_start as int, vertex_count as int)));
            assert(self.vertex_count() == old(self).vertex_count() + vertex_count + 1);
            assert(self.lists().contains_key(0));
            assert(self.stack() =~= old(self).stack());
            assert forall|k: usize| #[trigger] self.lists().contains_key(k) implies k < self.objects().len() by {
                if k != object_id {
                    assert(old(self).lists().contains_key(k));
                }
            }
        }
    }

    /// A wall quad adds a collision polygon of its four corners only when it blocks movement.
    pub fn visit_wall_quad(&mut self, object_id: usize, blocker: bool)
        requires
            old(self).wf(),
            object_id < old(self).objects().len(),
            old(self).vertex_count() + 5 <= u32::MAX,
        ensures
            blocker ==> polygon_added(*old(self), *final(self), object_id, 4),
            !blocker ==> *final(self) == *old(self),
    {
        if blocker {
            self.visit_sky_quad(object_id);
        }
    }

    /// A sky quad adds a collision polygon of its four corners.
    pub fn visit_sky_quad(&mut self, object_id: usize)
        requires
            old(self).wf(),
            object_id < old(self).objects().len(),
            old(self).vertex_count() + 5 <= u32::MAX,
        ensures
            polygon_added(*old(self), *final(self), object_id, 4),
    {
        self.add_polygon(object_id, 4);
    }

    /// Hands over the tree and the triangles: the lists of all objects concatenated in
    /// ascending object order, and for each dynamic object (every object but the first) that
    /// has triangles, the range they take.  Positions in the concatenation are stored as
    /// `u32`, truncated as `as` truncates.
    pub fn build(self) -> (world: BuiltWorld)
        requires
            self.wf(),
        ensures
            world.nodes@ == self.nodes(),
            world.chunks@ == self.chunks(),
            world.triangles@ == lists_below(self.lists(), self.objects().len()),
            world.dynamic_chunks@ == dynamic_below(self.lists(), self.objects(), self.objects().len()),
    {
        let ghost lists = self.lists();
        let ghost objects = self.objects@;
        let WorldBuilder { nodes, chunks, num_verts: _, node_stack: _, triangles, objects: object_ids } = self;
        let entries = triangle_list_entries(triangles);
        let mut all: Vec<Triangle> = Vec::new();
        let mut dynamic_chunks: Vec<(EntityId, Chunk)> = Vec::new();
        proof {
            lemma_bound_start(lists, objects, entries@);
        }
        let mut i: usize = 0;
        while i < entries.len()
            invariant
                0 <= i <= entries.len(),
                objects == object_ids@,
                objects.len() < usize::MAX,
                forall|a: int, b: int|
                    0 <= a < b < entries@.len() ==> #[trigger] entries@[a].0 < #[trigger] entries@[b].0,
                forall|a: int|
                    0 <= a < entries@.len() ==> lists.contains_key(#[trigger] entries@[a].0)
                        && entries@[a].1@ == lists[entries@[a].0],
                forall|k: usize|
                    #[trigger] lists.contains_key(k) ==> exists|a: int|
                        0 <= a < entries@.len() && #[trigger] entries@[a].0 == k,
                forall|k: usize| #[trigger] lists.contains_key(k) ==> k < objects.len(),
                all@ == lists_below(lists, Self::bound_at(entries@, i as int, objects.len())),
                dynamic_chunks@ == dynamic_below(
                    lists,
                    objects,
                    Self::bound_at(entries@, i as int, objects.len()),
                ),
            decreases entries.len() - i,
        {
            let key = entries[i].0;
            let start = all.len() as u32;
            let mut j: usize = 0;
            let ghost before = all@;
            while j < entries[i].1.len()
                invariant
                    i < entries@.len(),
                    0 <= j <= entries@[i as int].1@.len(),
                    all@ == before + entries@[i as int].1@.take(j as int),
                decreases entries@[i as int].1@.len() - j,
            {
                all.push(entries[i].1[j]);
                proof {
                    assert(entries@[i as int].1@.take(j + 1) =~= entries@[i as int].1@.take(j as int).push(
                        entries@[i as int].1@[j as int],
                    ));
                }
                j = j + 1;
            }
            if key > 0 {
                let end = all.len() as u32;
                dynamic_chunks.push((object_ids[key], Chunk { tri_start: start, tri_end: end }));
            }
            proof {
                assert(entries@[i as int].1@.take(j as int) =~= entries@[i as int].1@);
                lemma_bound_step(lists, objects, entries@, i as int);
            }
            i = i + 1;
        }
        proof {
        }
        BuiltWorld { nodes, chunks, triangles: all, dynamic_chunks }
    }

    /// The key bound reached after `i` entries: the next entry's key, or `limit` past the
    /// last entry.
    pub open spec fn bound_at(entries: Seq<(usize, Vec<Triangle>)>, i: int, limit: nat) -> nat {
        if i < entries.len() {
            entries[i].0 as nat
        } else {
            limit
        }
    }
}

} // verus!

//! The entity tree: every entity has an optional parent, and removing an entity removes its
//! whole subtree.  Removal is lazy: `remove` queues an id, and `update` collects the queued
//! entities together with all their descendants.
//!
//! Each entity stores its parent, its first child and its previous and next siblings, so the
//! children of an entity (and the roots) form a doubly linked list.  Ghost state keeps, for
//! every entity, the sequence of its children, the sequence of roots, and the depth of every
//! entity; `wf` ties the links to these sequences.
use crate::chars::{in_base, push_in_base, push_repeated, push_str, repeated, string_from_chars};
use crate::errors::ErrorKind;
use crate::seqs::{
    lemma_without_contains, lemma_without_congruent, lemma_without_no_duplicates,
    lemma_without_nothing, lemma_without_remove_one, without,
};
use crate::slab::{
    slab_contains, slab_contents, slab_get, slab_index_mut, slab_insert, slab_len, slab_remove,
    slab_with_capacity, SLAB_CAPACITY,
};
use idcontain::IdSlab;
use vstd::prelude::*;

verus! {

/// The id of an entity: the index and tag of the slab slot that holds it.
#[derive(Clone, Copy, PartialEq, Eq, Structural, Debug, Hash, PartialOrd, Ord)]
pub struct EntityId {
    pub index: u32,
    pub tag: u32,
}

/// Whether an entity is alive, explicitly removed, or removed because its parent was.
#[derive(Clone, Copy, PartialEq, Eq, Debug)]
pub enum Liveness {
    Alive,
    Killed,
    DeadDueToParent,
}

impl Liveness {
    pub fn is_alive(&self) -> (alive: bool)
        ensures
            alive == (*self == Liveness::Alive),
    {
        match self {
            Liveness::Alive => true,
            _ => false,
        }
    }
}

/// One node of the entity tree.
#[derive(Clone, Copy, Debug)]
pub struct Entity {
    name: &'static str,
    parent: Option<EntityId>,
    child: Option<EntityId>,
    next: Option<EntityId>,
    previous: Option<EntityId>,
    liveness: Liveness,
}

impl Entity {
    /// The entity's debug name.
    pub closed spec fn name_spec(self) -> &'static str {
        self.name
    }

    /// The entity's parent, `None` for a root.
    pub closed spec fn parent_spec(self) -> Option<EntityId> {
        self.parent
    }

    pub fn parent(&self) -> (parent: Option<EntityId>)
        ensures
            parent == self.parent_spec(),
    {
        self.parent
    }

    pub fn name(&self) -> (name: &'static str)
        ensures
            name == self.name_spec(),
    {
        self.name
    }
}

/// The first element of `s`, if any.
pub open spec fn first_of(s: Seq<EntityId>) -> Option<EntityId> {
    if s.len() > 0 {
        Some(s[0])
    } else {
        None
    }
}

/// The entities of `list` are held in `m` and linked in order through `next` and `previous`.
pub closed spec fn linked(m: Map<EntityId, Entity>, list: Seq<EntityId>) -> bool {
    forall|i: int|
        0 <= i < list.len() ==> {
            &&& m.contains_key(#[trigger] list[i])
            &&& m[list[i]].next == (if i + 1 < list.len() {
                Some(list[i + 1])
            } else {
                None
            })
            &&& m[list[i]].previous == (if i > 0 {
                Some(list[i - 1])
            } else {
                None
            })
        }
}

/// Whether `e` or one of its ancestors is in `marked`, following parents `n` steps at most.
pub closed spec fn marked_upwards(
    m: Map<EntityId, Entity>,
    marked: Set<EntityId>,
    e: EntityId,
    n: nat,
) -> bool
    decreases n,
{
    marked.contains(e) || (n > 0 && match m[e].parent {
        Some(p) => marked_upwards(m, marked, p, (n - 1) as nat),
        None => false,
    })
}

/// Every held entity is alive.
pub closed spec fn alive_ok(m: Map<EntityId, Entity>) -> bool {
    forall|e: EntityId| #[trigger] m.contains_key(e) ==> m[e].liveness == Liveness::Alive
}

/// The roots and the children of every entity are linked lists without duplicates, whose
/// members have the matching parent, and `child` points at the first child.
pub closed spec fn lists_ok(
    m: Map<EntityId, Entity>,
    kids: Map<EntityId, Seq<EntityId>>,
    roots: Seq<EntityId>,
) -> bool {
    &&& roots.no_duplicates()
    &&& linked(m, roots)
    &&& forall|i: int| 0 <= i < roots.len() ==> (#[trigger] m[roots[i]]).parent is None
    &&& forall|e: EntityId|
        #[trigger] m.contains_key(e) ==> {
            &&& m[e].child == first_of(kids[e])
            &&& kids[e].no_duplicates()
            &&& linked(m, kids[e])
        }
    &&& forall|e: EntityId, i: int|
        m.contains_key(e) && 0 <= i < kids[e].len() ==> m[#[trigger] kids[e][i]].parent == Some(e)
}

/// Every entity is in the list its parent names, and is one deeper than its parent.
pub closed spec fn parents_ok(
    m: Map<EntityId, Entity>,
    kids: Map<EntityId, Seq<EntityId>>,
    roots: Seq<EntityId>,
    depth: Map<EntityId, nat>,
) -> bool {
    forall|e: EntityId|
        #[trigger] m.contains_key(e) ==> match m[e].parent {
            None => roots.contains(e),
            Some(p) => m.contains_key(p) && kids[p].contains(e) && depth[e] == depth[p] + 1,
        }
}

/// The whole invariant of the tree.
pub closed spec fn tree_ok(
    m: Map<EntityId, Entity>,
    kids: Map<EntityId, Seq<EntityId>>,
    roots: Seq<EntityId>,
    depth: Map<EntityId, nat>,
    first_root: Option<EntityId>,
) -> bool {
    &&& m.dom().finite()
    &&& kids.dom() == m.dom()
    &&& depth.dom() == m.dom()
    &&& first_root == first_of(roots)
    &&& alive_ok(m)
    &&& lists_ok(m, kids, roots)
    &&& parents_ok(m, kids, roots, depth)
}

/// The held entities that `pending` names.
spec fn killed_of(m: Map<EntityId, Entity>, pending: Seq<EntityId>) -> Set<EntityId> {
    Set::new(|e: EntityId| m.contains_key(e) && pending.contains(e))
}

/// `m` with the entities of `killed` marked as killed.
spec fn marked(m: Map<EntityId, Entity>, killed: Set<EntityId>) -> Map<EntityId, Entity> {
    Map::new(
        |e: EntityId| m.contains_key(e),
        |e: EntityId|
            if killed.contains(e) {
                Entity { liveness: Liveness::Killed, ..m[e] }
            } else {
                m[e]
            },
    )
}

/// The queue holds the pending ids, then the first child of each owner in turn.
spec fn chains_ok(
    queue: Seq<EntityId>,
    pending: Seq<EntityId>,
    owners: Seq<EntityId>,
    kids: Map<EntityId, Seq<EntityId>>,
) -> bool {
    &&& queue.len() == pending.len() + owners.len()
    &&& queue.subrange(0, pending.len() as int) == pending
    &&& forall|j: int|
        0 <= j < owners.len() ==> queue[pending.len() + j] == kids[#[trigger] owners[j]][0]
}

/// The owners are distinct launched entities with children, and every launched entity of
/// `dom` with children is an owner.
spec fn owners_ok(
    owners: Seq<EntityId>,
    kids: Map<EntityId, Seq<EntityId>>,
    launched: Set<EntityId>,
    dom: Set<EntityId>,
) -> bool {
    &&& owners.no_duplicates()
    &&& forall|j: int|
        0 <= j < owners.len() ==> launched.contains(#[trigger] owners[j]) && dom.contains(owners[j])
            && kids[owners[j]].len() > 0
    &&& forall|e: EntityId|
        dom.contains(e) && #[trigger] launched.contains(e) && kids[e].len() > 0 ==> owners.contains(e)
}

/// `e` is held in `m` and its parent is one of `s`.
spec fn parent_in(m: Map<EntityId, Entity>, e: EntityId, s: Seq<EntityId>) -> bool {
    m.contains_key(e) && match m[e].parent {
        Some(p) => s.contains(p),
        None => false,
    }
}

/// `m` without the keys in `gone`.
spec fn minus(m: Map<EntityId, Entity>, gone: Set<EntityId>) -> Map<EntityId, Entity> {
    Map::new(|e: EntityId| m.contains_key(e) && !gone.contains(e), |e: EntityId| m[e])
}

/// While the explicitly removed entities are unlinked one by one: `gone` are those done so
/// far.  The slab holds the entities that are neither orphans nor gone, with their names,
/// parents and liveness, and the roots and the children of every entity that stays are
/// linked lists of what is left of them.
#[verifier::opaque]
spec fn unlink_ok(
    m0: Map<EntityId, Entity>,
    kids0: Map<EntityId, Seq<EntityId>>,
    roots0: Seq<EntityId>,
    killed: Set<EntityId>,
    orphans: Set<EntityId>,
    doomed: Set<EntityId>,
    gone: Set<EntityId>,
    m: Map<EntityId, Entity>,
    first_root: Option<EntityId>,
) -> bool {
    &&& forall|e: EntityId|
        #[trigger] m.contains_key(e) == (m0.contains_key(e) && !orphans.contains(e) && !gone.contains(e))
    &&& forall|e: EntityId|
        #[trigger] m.contains_key(e) ==> m[e].name == m0[e].name && m[e].parent == m0[e].parent
            && m[e].liveness == (if killed.contains(e) {
            Liveness::Killed
        } else {
            Liveness::Alive
        })
    &&& first_root == first_of(without(roots0, gone))
    &&& linked(m, without(roots0, gone))
    &&& forall|p: EntityId|
        #![trigger kids0[p]]
        m0.contains_key(p) && !doomed.contains(p) ==> m[p].child == first_of(without(kids0[p], gone))
            && linked(m, without(kids0[p], gone))
    &&& forall|e: EntityId| #[trigger] gone.contains(e) ==> killed.contains(e)
}

/// What the killed entities and the orphans are, relative to the tree before collection.
spec fn doom_ok(
    m0: Map<EntityId, Entity>,
    killed: Set<EntityId>,
    orphans: Set<EntityId>,
    doomed: Set<EntityId>,
) -> bool {
    &&& forall|e: EntityId| #[trigger] doomed.contains(e) == (killed.contains(e) || orphans.contains(e))
    &&& forall|e: EntityId| #[trigger] killed.contains(e) ==> m0.contains_key(e)
    &&& forall|e: EntityId|
        #[trigger] orphans.contains(e) == (m0.contains_key(e) && match m0[e].parent {
            Some(p) => doomed.contains(p),
            None => false,
        })
}

/// How an id is written: its slot index in decimal, a dot, and its tag in hexadecimal.
pub open spec fn id_text(id: EntityId) -> Seq<char> {
    in_base(id.index as nat, 10) + seq!['.'] + in_base(id.tag as nat, 16)
}

/// The dump line of entity `id` named `name`, `depth` levels below the roots, indented by
/// `indent`: spaces, the name after `|- `, dots up to column 60, and the id in brackets.
pub open spec fn dump_line(indent: nat, depth: nat, name: &'static str, id: EntityId) -> Seq<char> {
    let lead = indent + 4 * depth;
    let length = lead + 3 + name.len() + 4;
    repeated(' ', lead) + "|- "@ + name@ + "  "@ + repeated(
        '.',
        if length > 60 {
            0
        } else {
            (60 - length) as nat
        },
    ) + "  ("@ + id_text(id) + ")\n"@
}

/// The dump of the entities of `list` and, up to `fuel` levels further down, of their
/// descendants: each entity's line, then the dump of its children one level deeper.
pub open spec fn dump_list(
    s: Entities,
    list: Seq<EntityId>,
    depth: nat,
    indent: nat,
    fuel: nat,
) -> Seq<char>
    decreases fuel, list.len(),
{
    if list.len() == 0 {
        Seq::empty()
    } else {
        let id = list[0];
        dump_line(indent, depth, s.name_of(id), id) + (if fuel > 0 {
            dump_list(s, s.children(id), depth + 1, indent, (fuel - 1) as nat)
        } else {
            Seq::empty()
        }) + dump_list(s, list.drop_first(), depth, indent, fuel)
    }
}

/// The dump is depth-first: the dump of a list is the dump of its first entity with all its
/// descendants, in one block, followed by the dump of the rest of the list; and the dump of
/// one entity is its line followed by the dump of its children one level deeper.
pub proof fn lemma_dump_depth_first(s: Entities, list: Seq<EntityId>, depth: nat, indent: nat, fuel: nat)
    requires
        list.len() > 0,
    ensures
        dump_list(s, list, depth, indent, fuel) == dump_list(s, list.take(1), depth, indent, fuel)
            + dump_list(s, list.drop_first(), depth, indent, fuel),
        fuel > 0 ==> dump_list(s, list.take(1), depth, indent, fuel) == dump_line(
            indent,
            depth,
            s.name_of(list[0]),
            list[0],
        ) + dump_list(s, s.children(list[0]), depth + 1, indent, (fuel - 1) as nat),
        fuel == 0 ==> dump_list(s, list.take(1), depth, indent, fuel) == dump_line(
            indent,
            depth,
            s.name_of(list[0]),
            list[0],
        ),
{
    let one = list.take(1);
    assert(one.len() == 1 && one[0] == list[0]);
    assert(one.drop_first() =~= Seq::<EntityId>::empty());
    assert(dump_list(s, one.drop_first(), depth, indent, fuel) =~= Seq::<char>::empty());
    assert(dump_list(s, one, depth, indent, fuel) =~= dump_line(indent, depth, s.name_of(list[0]), list[0])
        + (if fuel > 0 {
        dump_list(s, s.children(list[0]), depth + 1, indent, (fuel - 1) as nat)
    } else {
        Seq::empty()
    }));
}

/// The entities of `list` are held in `m` and chained in order through `next`.
spec fn chained(m: Map<EntityId, Entity>, list: Seq<EntityId>) -> bool {
    forall|i: int|
        0 <= i < list.len() ==> {
            &&& m.contains_key(#[trigger] list[i])
            &&& m[list[i]].next == (if i + 1 < list.len() {
                Some(list[i + 1])
            } else {
                None
            })
        }
}

/// Manages the entity tree.
pub struct Entities {
    slab: IdSlab<Entity>,
    first_root: Option<EntityId>,
    removed: Vec<EntityId>,
    last_removed: Vec<EntityId>,
    kids: Ghost<Map<EntityId, Seq<EntityId>>>,
    root_list: Ghost<Seq<EntityId>>,
    depth: Ghost<Map<EntityId, nat>>,
}

impl Entities {
    /// The ids of the entities held.
    pub closed spec fn ids(self) -> Set<EntityId> {
        slab_contents(self.slab).dom()
    }

    /// The entity that `id` names.
    pub closed spec fn entity(self, id: EntityId) -> Entity {
        slab_contents(self.slab)[id]
    }

    pub open spec fn name_of(self, id: EntityId) -> &'static str {
        self.entity(id).name_spec()
    }

    pub open spec fn parent_of(self, id: EntityId) -> Option<EntityId> {
        self.entity(id).parent_spec()
    }

    /// The children of `id`, most recently added first.
    pub closed spec fn children(self, id: EntityId) -> Seq<EntityId> {
        self.kids@[id]
    }

    /// The roots, most recently added first.
    pub closed spec fn roots(self) -> Seq<EntityId> {
        self.root_list@
    }

    /// The ids queued by `remove` since the last collection.
    pub closed spec fn pending(self) -> Seq<EntityId> {
        self.removed@
    }

    /// The ids collected by the last `update` that had something to collect.
    pub closed spec fn collected(self) -> Seq<EntityId> {
        self.last_removed@
    }

    /// `id` or one of its first `n` ancestors is pending.
    pub open spec fn pending_within(self, id: EntityId, n: nat) -> bool
        decreases n,
    {
        self.pending().contains(id) || (n > 0 && match self.parent_of(id) {
            Some(p) => self.pending_within(p, (n - 1) as nat),
            None => false,
        })
    }

    /// `id` is held and will go at the next `update`: it or one of its ancestors is pending.
    pub open spec fn doomed(self, id: EntityId) -> bool {
        &&& self.ids().contains(id)
        &&& exists|n: nat| #[trigger] self.pending_within(id, n)
    }

    /// `doomed`, following parents exactly as deep as the tree says `id` hangs.
    spec fn doomed_at_depth(self, id: EntityId) -> bool {
        &&& self.ids().contains(id)
        &&& marked_upwards(
            slab_contents(self.slab),
            self.pending().to_set(),
            id,
            self.depth@[id],
        )
    }

    /// How many levels below the roots `id` hangs, as the tree keeps it: one more than its
    /// parent.
    pub closed spec fn depth_of(self, id: EntityId) -> nat {
        self.depth@[id]
    }

    /// The held entities that the next `update` removes.
    pub open spec fn doomed_set(self) -> Set<EntityId> {
        Set::new(|id: EntityId| self.doomed(id))
    }

    /// The links of the slab agree with the ghost children and roots, parents agree with
    /// both, depths grow by one from parent to child, and every held entity is alive.
    pub closed spec fn wf(self) -> bool {
        tree_ok(
            slab_contents(self.slab),
            self.kids@,
            self.root_list@,
            self.depth@,
            self.first_root,
        )
    }

    /// The entities with their names, parents and children; the roots; the pending and the
    /// collected ids: everything the public functions speak of.
    pub open spec fn same_tree(self, other: Self) -> bool {
        &&& self.ids() == other.ids()
        &&& forall|id: EntityId|
            #![trigger self.ids().contains(id)]
            self.ids().contains(id) ==> {
                &&& self.name_of(id) == other.name_of(id)
                &&& self.parent_of(id) == other.parent_of(id)
                &&& self.children(id) == other.children(id)
            }
        &&& self.roots() == other.roots()
    }

    /// Creates an empty tree.
    pub fn create(_deps: ()) -> (entities: Self)
        ensures
            entities.wf(),
            entities.ids().is_empty(),
            entities.roots().len() == 0,
            entities.pending().len() == 0,
            entities.collected().len() == 0,
    {
        let slab = slab_with_capacity(1024);
        proof {
            assert(slab_contents(slab).dom() =~= Set::<EntityId>::empty());
        }
        Entities {
            slab,
            first_root: None,
            removed: Vec::new(),
            last_removed: Vec::new(),
            kids: Ghost(Map::empty()),
            root_list: Ghost(Seq::empty()),
            depth: Ghost(Map::empty()),
        }
    }

    #[inline]
    pub fn len(&self) -> (len: usize)
        ensures
            self.wf() ==> len == self.ids().len(),
    {
        slab_len(&self.slab)
    }

    #[inline]
    pub fn is_empty(&self) -> (empty: bool)
        ensures
            self.wf() ==> (empty == self.ids().is_empty()),
    {
        let empty = slab_len(&self.slab) == 0;
        proof {
            if !empty {
                let m = slab_contents(self.slab);
                if m.dom().is_empty() {
                    assert(m.dom() =~= Set::<EntityId>::empty());
                }
            }
        }
        empty
    }

    #[inline]
    pub fn contains(&self, id: EntityId) -> (found: bool)
        ensures
            found == self.ids().contains(id),
    {
        slab_contains(&self.slab, id)
    }

    #[inline]
    pub fn get(&self, id: EntityId) -> (entity: Option<&Entity>)
        ensures
            entity is Some == self.ids().contains(id),
            entity matches Some(e) ==> *e == self.entity(id),
    {
        slab_get(&self.slab, id)
    }

    #[inline]
    pub fn debug_name_of(&self, id: EntityId) -> (name: Option<&'static str>)
        ensures
            name is Some == self.ids().contains(id),
            name matches Some(n) ==> n == self.name_of(id),
    {
        match slab_get(&self.slab, id) {
            Some(entity) => Some(entity.name),
            None => None,
        }
    }

    /// Adds a root entity named `name`; it becomes the first root.
    pub fn add_root(&mut self, name: &'static str) -> (id: EntityId)
        requires
            old(self).wf(),
            old(self).ids().len() < SLAB_CAPACITY,
        ensures
            final(self).wf(),
            !old(self).ids().contains(id),
            final(self).ids() == old(self).ids().insert(id),
            final(self).name_of(id) == name,
            final(self).parent_of(id) is None,
            final(self).children(id) == Seq::<EntityId>::empty(),
            final(self).roots() == seq![id] + old(self).roots(),
            forall|e: EntityId|
                #![trigger old(self).ids().contains(e)]
                old(self).ids().contains(e) ==> {
                    &&& final(self).name_of(e) == old(self).name_of(e)
                    &&& final(self).parent_of(e) == old(self).parent_of(e)
                    &&& final(self).children(e) == old(self).children(e)
                },
            final(self).pending() == old(self).pending(),
            final(self).collected() == old(self).collected(),
    {
        let ghost m = slab_contents(self.slab);
        let first_root = self.first_root;
        let new_id = slab_insert(
            &mut self.slab,
            Entity {
                name,
                parent: None,
                child: None,
                next: first_root,
                previous: None,
                liveness: Liveness::Alive,
            },
        );
        self.first_root = Some(new_id);
        if let Some(old_first_root) = first_root {
            let old_entity = slab_index_mut(&mut self.slab, old_first_root);
            old_entity.previous = Some(new_id);
        }
        let ghost m2 = slab_contents(self.slab);
        let ghost roots = self.root_list@;
        let ghost kids = self.kids@;
        proof {
            lemma_wf_parts(*old(self));
            lemma_linked_prepend(m, m2, roots, new_id);
            assert forall|e: EntityId| #[trigger] m.contains_key(e) implies linked(m2, kids[e]) by {
                assert forall|i: int| 0 <= i < kids[e].len() implies #[trigger] kids[e][i] != new_id
                    && (roots.len() > 0 ==> kids[e][i] != roots[0]) by {
                    if roots.len() > 0 && kids[e][i] == roots[0] {
                        assert(m[roots[0]].parent is None);
                    }
                }
                lemma_linked_frame(m, m2, kids[e]);
            }
            assert(m2.dom() == m.dom().insert(new_id));
        }
        self.root_list = Ghost(seq![new_id] + roots);
        self.kids = Ghost(kids.insert(new_id, Seq::empty()));
        self.depth = Ghost(self.depth@.insert(new_id, 0));
        proof {
            let r2 = self.root_list@;
            assert(r2.no_duplicates()) by {
                assert forall|i: int, j: int| 0 <= i < r2.len() && 0 <= j < r2.len() && i != j implies r2[i]
                    != r2[j] by {
                    if i > 0 && j > 0 {
                        assert(r2[i] == roots[i - 1] && r2[j] == roots[j - 1]);
                    } else if i == 0 {
                        assert(r2[j] == roots[j - 1]);
                        assert(m.contains_key(roots[j - 1]));
                    } else {
                        assert(r2[i] == roots[i - 1]);
                        assert(m.contains_key(roots[i - 1]));
                    }
                }
            }
            assert forall|i: int| 0 <= i < r2.len() implies (#[trigger] m2[r2[i]]).parent is None by {
                if i > 0 {
                    assert(r2[i] == roots[i - 1]);
                }
            }
            let k2 = self.kids@;
            assert forall|e: EntityId| #[trigger] m2.contains_key(e) implies {
                &&& m2[e].liveness == Liveness::Alive
                &&& m2[e].child == first_of(k2[e])
                &&& k2[e].no_duplicates()
                &&& linked(m2, k2[e])
                &&& match m2[e].parent {
                    None => r2.contains(e),
                    Some(p) => m2.contains_key(p) && k2[p].contains(e) && self.depth@[e]
                        == self.depth@[p] + 1,
                }
            } by {
                if e == new_id {
                    assert(r2[0] == new_id);
                    assert(linked(m2, k2[e]));
                } else {
                    assert(m.contains_key(e));
                    if m[e].parent is None {
                        let i = choose|i: int| 0 <= i < roots.len() && roots[i] == e;
                        assert(r2[i + 1] == e);
                    } else {
                        let p = m[e].parent->0;
                        assert(p != new_id);
                    }
                }
            }
            assert forall|e: EntityId, i: int|
                m2.contains_key(e) && 0 <= i < k2[e].len() implies m2[#[trigger] k2[e][i]].parent
                == Some(e) by {
                if e != new_id {
                    assert(m.contains_key(e));
                    assert(m[kids[e][i]].parent == Some(e));
                }
            }
        }
        new_id
    }

    /// Adds an entity named `name` as the first child of `parent`.
    pub fn add(&mut self, parent: EntityId, name: &'static str) -> (added: Result<EntityId, ErrorKind>)
        requires
            old(self).wf(),
            old(self).ids().len() < SLAB_CAPACITY,
        ensures
            final(self).wf(),
            added is Err == !old(self).ids().contains(parent),
            added matches Err(err) ==> err == (ErrorKind::NoSuchEntity {
                context: "add",
                needed_by: Some(name),
                id: parent,
            }),
            added is Err ==> final(self).same_tree(*old(self)),
            added matches Ok(id) ==> {
                &&& !old(self).ids().contains(id)
                &&& final(self).ids() == old(self).ids().insert(id)
                &&& final(self).name_of(id) == name
                &&& final(self).parent_of(id) == Some(parent)
                &&& final(self).children(id) == Seq::<EntityId>::empty()
                &&& final(self).children(parent) == seq![id] + old(self).children(parent)
                &&& final(self).roots() == old(self).roots()
                &&& forall|e: EntityId|
                    #![trigger old(self).ids().contains(e)]
                    old(self).ids().contains(e) ==> {
                        &&& final(self).name_of(e) == old(self).name_of(e)
                        &&& final(self).parent_of(e) == old(self).parent_of(e)
                        &&& (e != parent ==> final(self).children(e) == old(self).children(e))
                    }
            },
            final(self).pending() == old(self).pending(),
            final(self).collected() == old(self).collected(),
    {
        if !slab_contains(&self.slab, parent) {
            return Err(ErrorKind::NoSuchEntity { context: "add", needed_by: Some(name), id: parent });
        }
        let ghost m = slab_contents(self.slab);
        let ghost kids = self.kids@;
        let ghost roots = self.root_list@;
        let new_id = slab_insert(
            &mut self.slab,
            Entity {
                name,
                parent: Some(parent),
                child: None,
                next: None,
                previous: None,
                liveness: Liveness::Alive,
            },
        );
        let parent_entity = slab_index_mut(&mut self.slab, parent);
        let parent_dead = !parent_entity.liveness.is_alive();
        let old_child = parent_entity.child;
        parent_entity.child = Some(new_id);

        if let Some(old_child) = old_child {
            let new = slab_index_mut(&mut self.slab, new_id);
            new.next = Some(old_child);
            if parent_dead {
                new.liveness = Liveness::DeadDueToParent;
                self.removed.push(new_id);
            }
            let old_child_entity = slab_index_mut(&mut self.slab, old_child);
            old_child_entity.previous = Some(new_id);
        } else if parent_dead {
            let new = slab_index_mut(&mut self.slab, new_id);
            new.liveness = Liveness::DeadDueToParent;
        }
        let ghost m2 = slab_contents(self.slab);
        proof {
            assert(!parent_dead);
            assert(m2.dom() =~= m.dom().insert(new_id));
            lemma_add_child(m, kids, roots, self.depth@, self.first_root, m2, parent, new_id);
        }
        self.kids = Ghost(kids.insert(parent, seq![new_id] + kids[parent]).insert(new_id, Seq::empty()));
        self.depth = Ghost(self.depth@.insert(new_id, self.depth@[parent] + 1));
        Ok(new_id)
    }

    /// `after` is what `update` makes of `before`: with nothing pending nothing changes;
    /// otherwise the doomed entities leave the tree (and every list of children), the others
    /// keep their names and parents, nothing is pending any more, and the collected ids are
    /// the doomed ones, each once.
    pub open spec fn collected_from(before: Self, after: Self) -> bool {
        &&& before.pending().len() == 0 ==> {
            &&& after.same_tree(before)
            &&& after.pending() == before.pending()
            &&& after.collected() == before.collected()
        }
        &&& before.pending().len() > 0 ==> {
            &&& forall|e: EntityId|
                #[trigger] after.ids().contains(e) == (before.ids().contains(e) && !before.doomed(e))
            &&& forall|e: EntityId|
                #![trigger after.ids().contains(e)]
                after.ids().contains(e) ==> {
                    &&& after.name_of(e) == before.name_of(e)
                    &&& after.parent_of(e) == before.parent_of(e)
                    &&& after.children(e) == without(before.children(e), before.doomed_set())
                }
            &&& after.roots() == without(before.roots(), before.doomed_set())
            &&& after.pending().len() == 0
            &&& after.collected().no_duplicates()
            &&& forall|e: EntityId| #[trigger] after.collected().contains(e) == before.doomed(e)
            &&& after.collected().to_set() == before.doomed_set()
            &&& after.collected().len() == before.doomed_set().len()
        }
    }

    /// Collects the pending entities and all their descendants: they leave the tree, and
    /// `last_removed` then lists each of them once.  With nothing pending, nothing changes.
    pub fn update(&mut self, _deps: ())
        requires
            old(self).wf(),
        ensures
            final(self).wf(),
            Self::collected_from(*old(self), *final(self)),
            forall|e: EntityId|
                #[trigger] old(self).doomed(e) == (old(self).ids().contains(e) && (old(self).pending().contains(e)
                    || match old(self).parent_of(e) {
                    Some(p) => old(self).doomed(p),
                    None => false,
                })),
    {
        proof {
            assert forall|e: EntityId|
                #[trigger] old(self).doomed(e) == (old(self).ids().contains(e) && (old(self).pending().contains(e)
                    || match old(self).parent_of(e) {
                    Some(p) => old(self).doomed(p),
                    None => false,
                })) by {
                if old(self).ids().contains(e) {
                    lemma_doomed_subtree(*old(self), e);
                }
            }
        }
        if self.removed.len() == 0 {
            return;
        }
        let ghost m0 = slab_contents(self.slab);
        let ghost kids0 = self.kids@;
        let ghost roots0 = self.root_list@;
        let ghost depth0 = self.depth@;
        let ghost fr0 = self.first_root;
        let ghost pending = self.removed@;
        self.last_removed.clear();
        let num_pending = self.removed.len();
        let (Ghost(killed), Ghost(owners)) = self.kill_pending();
        let num_killed = self.last_removed.len();
        let ghost klist = self.last_removed@;
        let (Ghost(orphans), Ghost(owners2)) = self.collect_orphans(
            num_pending,
            Ghost(m0),
            Ghost(killed),
            Ghost(pending),
            Ghost(owners),
        );
        let ghost doomed = killed.union(orphans);
        proof {
            lemma_tree_parts(m0, kids0, roots0, depth0, fr0);
            assert forall|e: EntityId| #[trigger] orphans.contains(e) == (m0.contains_key(e) && match m0[e].parent {
                Some(p) => doomed.contains(p),
                None => false,
            }) by {
                if m0.contains_key(e) {
                    lemma_launched_doomed(m0, kids0, roots0, depth0, fr0, pending, killed, orphans, owners2, e);
                    if let Some(p) = m0[e].parent {
                        lemma_launched_doomed(m0, kids0, roots0, depth0, fr0, pending, killed, orphans, owners2, p);
                    }
                } else {
                    assert(!parent_in(m0, e, owners2));
                }
            }
            assert(doom_ok(m0, killed, orphans, doomed));
            assert(klist.subrange(0, num_killed as int) =~= klist);
            lemma_unlink_start(m0, kids0, roots0, depth0, fr0, killed, orphans, doomed, slab_contents(self.slab));
            assert forall|e: EntityId| #[trigger] klist.contains(e) == killed.contains(e) by {}
        }
        self.unlink_killed(num_killed, Ghost(m0), Ghost(killed), Ghost(orphans), Ghost(doomed), Ghost(klist));
        self.removed.clear();
        let ghost m = slab_contents(self.slab);
        self.kids = Ghost(Map::new(|e: EntityId| m.contains_key(e), |e: EntityId| without(kids0[e], doomed)));
        self.root_list = Ghost(without(roots0, doomed));
        self.depth = Ghost(Map::new(|e: EntityId| m.contains_key(e), |e: EntityId| depth0[e]));
        proof {
            lemma_collected_tree(m0, kids0, roots0, depth0, fr0, killed, orphans, doomed, m, self.first_root);
            assert forall|e: EntityId| m0.contains_key(e) implies #[trigger] doomed.contains(e) == old(self).doomed(e) by {
                lemma_launched_doomed(m0, kids0, roots0, depth0, fr0, pending, killed, orphans, owners2, e);
                lemma_doomed_at_depth(*old(self), e);
            }
            assert(doomed =~= old(self).doomed_set());
            assert forall|e: EntityId| #[trigger] self.ids().contains(e) == (old(self).ids().contains(e)
                && !old(self).doomed(e)) by {
                reveal(unlink_ok);
            }
            assert forall|e: EntityId| #[trigger] self.collected().contains(e) == old(self).doomed(e) by {
                assert(old(self).doomed_set().contains(e) == old(self).doomed(e));
                assert(doomed.contains(e) == old(self).doomed(e));
                if !m0.contains_key(e) {
                    assert(!killed.contains(e));
                    assert(!orphans.contains(e));
                }
            }
            assert(self.collected().to_set() =~= old(self).doomed_set());
            self.collected().unique_seq_to_set();
            assert forall|e: EntityId|
                #![trigger self.ids().contains(e)]
                self.ids().contains(e) implies {
                    &&& self.name_of(e) == old(self).name_of(e)
                    &&& self.parent_of(e) == old(self).parent_of(e)
                } by {
                reveal(unlink_ok);
            }
        }
    }

    /// Marks the held pending entities as killed, lists them once each in `last_removed`,
    /// and queues the first child of each of them.
    fn kill_pending(&mut self) -> (r: (Ghost<Set<EntityId>>, Ghost<Seq<EntityId>>))
        requires
            old(self).wf(),
            old(self).last_removed@.len() == 0,
        ensures
            r.0@ == killed_of(slab_contents(old(self).slab), old(self).removed@),
            slab_contents(final(self).slab) == marked(slab_contents(old(self).slab), r.0@),
            chains_ok(final(self).removed@, old(self).removed@, r.1@, old(self).kids@),
            owners_ok(r.1@, old(self).kids@, r.0@, slab_contents(old(self).slab).dom()),
            final(self).last_removed@.no_duplicates(),
            forall|e: EntityId| #[trigger]
                final(self).last_removed@.contains(e) == r.0@.contains(e),
            final(self).kids == old(self).kids,
            final(self).root_list == old(self).root_list,
            final(self).depth == old(self).depth,
            final(self).first_root == old(self).first_root,
    {
        let ghost m0 = slab_contents(self.slab);
        let ghost pending = self.removed@;
        let ghost kids0 = self.kids@;
        let ghost mut killed: Set<EntityId> = Set::empty();
        let ghost mut owners: Seq<EntityId> = Seq::empty();
        proof {
            assert(tree_ok(m0, kids0, self.root_list@, self.depth@, self.first_root));
            assert(slab_contents(self.slab) =~= marked(m0, killed));
            assert(self.removed@.subrange(0, pending.len() as int) =~= pending);
        }
        let num_pending = self.removed.len();
        let mut i: usize = 0;
        while i < num_pending
            invariant
                num_pending == pending.len(),
                0 <= i <= num_pending,
                tree_ok(m0, kids0, old(self).root_list@, old(self).depth@, old(self).first_root),
                self.kids == old(self).kids,
                self.root_list == old(self).root_list,
                self.depth == old(self).depth,
                self.first_root == old(self).first_root,
                kids0 == old(self).kids@,
                killed == killed_of(m0, pending.subrange(0, i as int)),
                slab_contents(self.slab) == marked(m0, killed),
                chains_ok(self.removed@, pending, owners, kids0),
                owners_ok(owners, kids0, killed, m0.dom()),
                self.last_removed@.no_duplicates(),
                forall|e: EntityId| #[trigger] self.last_removed@.contains(e) == killed.contains(e),
            decreases num_pending - i,
        {
            let removed_id = self.removed[i];
            proof {
                assert(self.removed@.subrange(0, pending.len() as int)[i as int] == removed_id);
                assert(pending.subrange(0, i + 1) =~= pending.subrange(0, i as int).push(removed_id));
            }
            let ghost prev_killed = killed;
            let ghost prev_owners = owners;
            let ghost prev_removed = self.removed@;
            let ghost prev_last = self.last_removed@;
            if slab_contains(&self.slab, removed_id) {
                let entity = slab_index_mut(&mut self.slab, removed_id);
                let child = entity.child;
                if entity.liveness.is_alive() {
                    entity.liveness = Liveness::Killed;
                    self.last_removed.push(removed_id);
                    if let Some(child) = child {
                        self.removed.push(child);
                        proof {
                            owners = owners.push(removed_id);
                        }
                    }
                    proof {
                        killed = killed.insert(removed_id);
                    }
                }
            }
            proof {
                let m = slab_contents(self.slab);
                assert forall|e: EntityId| #[trigger] killed.contains(e) == (m0.contains_key(e)
                    && pending.subrange(0, i + 1).contains(e)) by {
                    lemma_push_contains(pending.subrange(0, i as int), removed_id, e);
                    if e == removed_id && m0.contains_key(e) {
                        assert(m0[e].liveness == Liveness::Alive);
                    }
                }
                assert(killed =~= killed_of(m0, pending.subrange(0, i + 1)));
                assert(m =~= marked(m0, killed));
                assert(self.removed@.subrange(0, pending.len() as int) =~= pending) by {
                    assert(prev_removed.subrange(0, pending.len() as int) == pending);
                }
                assert forall|j: int| 0 <= j < owners.len() implies self.removed@[pending.len() + j]
                    == kids0[#[trigger] owners[j]][0] by {
                    if j + 1 < owners.len() || owners.len() == prev_removed.len() - pending.len() {
                        assert(prev_removed[pending.len() + j] == kids0[owners[j]][0]);
                    }
                }
                assert forall|e: EntityId| #[trigger] self.last_removed@.contains(e) == killed.contains(e) by {
                    if self.last_removed@.len() > prev_last.len() {
                        assert(self.last_removed@ == prev_last.push(removed_id));
                        if e != removed_id && self.last_removed@.contains(e) {
                            let k = choose|k: int| 0 <= k < self.last_removed@.len() && self.last_removed@[k] == e;
                            assert(prev_last[k] == e);
                        }
                        if e != removed_id && prev_last.contains(e) {
                            let k = choose|k: int| 0 <= k < prev_last.len() && prev_last[k] == e;
                            assert(self.last_removed@[k] == e);
                        }
                        assert(self.last_removed@[prev_last.len() as int] == removed_id);
                    }
                }
                assert(self.last_removed@.no_duplicates()) by {
                    if self.last_removed@.len() > prev_last.len() {
                        assert(!prev_last.contains(removed_id));
                        assert forall|a: int, b: int| 0 <= a < self.last_removed@.len() && 0 <= b < self.last_removed@.len() && a != b implies self.last_removed@[a] != self.last_removed@[b] by {
                            if a == prev_last.len() {
                                assert(self.last_removed@[b] == prev_last[b]);
                            } else if b == prev_last.len() {
                                assert(self.last_removed@[a] == prev_last[a]);
                            }
                        }
                    }
                }
                assert(owners_ok(owners, kids0, killed, m0.dom())) by {
                    if killed != prev_killed {
                        assert(m0[removed_id].child == first_of(kids0[removed_id]));
                        assert forall|e: EntityId| m0.dom().contains(e) && #[trigger] killed.contains(e) && kids0[e].len() > 0 implies owners.contains(e) by {
                            if e == removed_id {
                                assert(owners[owners.len() - 1] == e);
                            } else {
                                assert(prev_killed.contains(e));
                                let k = choose|k: int| 0 <= k < prev_owners.len() && prev_owners[k] == e;
                                assert(owners[k] == e);
                            }
                        }
                        assert(owners.no_duplicates()) by {
                            if owners.len() > 0 && owners[owners.len() - 1] == removed_id {
                                assert forall|a: int, b: int| 0 <= a < owners.len() && 0 <= b < owners.len() && a != b implies owners[a] != owners[b] by {
                                    if a == owners.len() - 1 {
                                        assert(prev_killed.contains(owners[b]));
                                    } else if b == owners.len() - 1 {
                                        assert(prev_killed.contains(owners[a]));
                                    }
                                }
                            }
                        }
                    }
                }
            }
            i = i + 1;
        }
        proof {
            assert(pending.subrange(0, num_pending as int) =~= pending);
        }
        (Ghost(killed), Ghost(owners))
    }

    /// Removes, chain by chain, the queued lists of children and, for each removed entity
    /// that was alive, queues its own children; the removed entities that were alive are
    /// added to `last_removed`.
    fn collect_orphans(
        &mut self,
        num_pending: usize,
        Ghost(m0): Ghost<Map<EntityId, Entity>>,
        Ghost(killed): Ghost<Set<EntityId>>,
        Ghost(pending): Ghost<Seq<EntityId>>,
        Ghost(owners0): Ghost<Seq<EntityId>>,
    ) -> (r: (Ghost<Set<EntityId>>, Ghost<Seq<EntityId>>))
        requires
            num_pending == pending.len(),
            tree_ok(m0, old(self).kids@, old(self).root_list@, old(self).depth@, old(self).first_root),
            killed == killed_of(m0, pending),
            slab_contents(old(self).slab) == marked(m0, killed),
            chains_ok(old(self).removed@, pending, owners0, old(self).kids@),
            owners_ok(owners0, old(self).kids@, killed, m0.dom()),
            old(self).last_removed@.no_duplicates(),
            forall|e: EntityId| #[trigger] old(self).last_removed@.contains(e) == killed.contains(e),
        ensures
            forall|e: EntityId| #[trigger] r.0@.contains(e) == parent_in(m0, e, r.1@),
            slab_contents(final(self).slab) == minus(marked(m0, killed), r.0@),
            owners_ok(r.1@, old(self).kids@, killed.union(r.0@), m0.dom()),
            final(self).last_removed@.no_duplicates(),
            forall|e: EntityId| #[trigger] final(self).last_removed@.contains(e) == (killed.contains(e) || r.0@.contains(e)),
            final(self).last_removed@.len() >= old(self).last_removed@.len(),
            final(self).last_removed@.subrange(0, old(self).last_removed@.len() as int) == old(self).last_removed@,
            final(self).kids == old(self).kids,
            final(self).root_list == old(self).root_list,
            final(self).depth == old(self).depth,
            final(self).first_root == old(self).first_root,
    {
        let ghost kids0 = self.kids@;
        let ghost m1 = marked(m0, killed);
        let ghost last0 = self.last_removed@;
        let ghost mut owners = owners0;
        let ghost mut done: Set<EntityId> = Set::empty();
        let ghost plen = pending.len() as int;
        proof {
            assert forall|e: EntityId| #[trigger] done.contains(e) == parent_in(m0, e, owners.subrange(0, 0)) by {}
            assert(slab_contents(self.slab) =~= minus(m1, done));
            assert(killed.union(done) =~= killed);
            assert(self.last_removed@.subrange(0, last0.len() as int) =~= last0);
            assert(slab_contents(self.slab).dom() =~= m0.dom());
        }
        let mut i: usize = num_pending;
        while i < self.removed.len()
            invariant
                tree_ok(m0, kids0, old(self).root_list@, old(self).depth@, old(self).first_root),
                kids0 == old(self).kids@,
                self.kids == old(self).kids,
                self.root_list == old(self).root_list,
                self.depth == old(self).depth,
                self.first_root == old(self).first_root,
                m1 == marked(m0, killed),
                killed == killed_of(m0, pending),
                plen == pending.len(),
                plen <= i <= self.removed@.len(),
                chains_ok(self.removed@, pending, owners, kids0),
                forall|e: EntityId| #[trigger] done.contains(e) == parent_in(m0, e, owners.subrange(0, i - plen)),
                slab_contents(self.slab) == minus(m1, done),
                slab_contents(self.slab).dom().finite(),
                owners_ok(owners, kids0, killed.union(done), m0.dom()),
                self.last_removed@.no_duplicates(),
                forall|e: EntityId| #[trigger] self.last_removed@.contains(e) == (killed.contains(e) || done.contains(e)),
                self.last_removed@.len() >= last0.len(),
                self.last_removed@.subrange(0, last0.len() as int) == last0,
            decreases 2 * slab_contents(self.slab).dom().len() + self.removed@.len() - i,
        {
            let ghost o = owners[i - plen];
            let ghost mut k: int = 0;
            let ghost start = 2 * slab_contents(self.slab).dom().len() + self.removed@.len();
            let ghost prefix = owners.subrange(0, i - plen);
            let mut removed_id = self.removed[i];
            proof {
                assert(self.removed@[plen + (i - plen)] == kids0[owners[i - plen]][0]);
                assert(m0.contains_key(o));
                assert(!prefix.contains(o)) by {
                    if prefix.contains(o) {
                        let j = choose|j: int| 0 <= j < prefix.len() && prefix[j] == o;
                        assert(owners[j] == owners[i - plen]);
                    }
                }
                assert forall|e: EntityId| #[trigger] done.contains(e) == (parent_in(m0, e, prefix)
                    || kids0[o].subrange(0, k).contains(e)) by {}
            }
            loop
                invariant_except_break
                    0 <= k < kids0[o].len(),
                    removed_id == kids0[o][k],
                    forall|e: EntityId| #[trigger] done.contains(e) == (parent_in(m0, e, prefix)
                        || kids0[o].subrange(0, k).contains(e)),
                    2 * slab_contents(self.slab).dom().len() + self.removed@.len() + k <= start,
                invariant
                    tree_ok(m0, kids0, old(self).root_list@, old(self).depth@, old(self).first_root),
                    kids0 == old(self).kids@,
                    self.kids == old(self).kids,
                    self.root_list == old(self).root_list,
                    self.depth == old(self).depth,
                    self.first_root == old(self).first_root,
                    m1 == marked(m0, killed),
                    killed == killed_of(m0, pending),
                    plen == pending.len(),
                    plen <= i < self.removed@.len(),
                    m0.contains_key(o),
                    !prefix.contains(o),
                    o == owners[i - plen],
                    prefix == owners.subrange(0, i - plen),
                    chains_ok(self.removed@, pending, owners, kids0),
                    slab_contents(self.slab) == minus(m1, done),
                    slab_contents(self.slab).dom().finite(),
                    owners_ok(owners, kids0, killed.union(done), m0.dom()),
                    self.last_removed@.no_duplicates(),
                    forall|e: EntityId| #[trigger] self.last_removed@.contains(e) == (killed.contains(e) || done.contains(e)),
                    self.last_removed@.len() >= last0.len(),
                    self.last_removed@.subrange(0, last0.len() as int) == last0,
                ensures
                    forall|e: EntityId| #[trigger] done.contains(e) == (parent_in(m0, e, prefix)
                        || kids0[o].contains(e)),
                    2 * slab_contents(self.slab).dom().len() + self.removed@.len() < start,
                decreases kids0[o].len() - k,
            {
                let ghost prev_done = done;
                let ghost prev_owners = owners;
                let ghost prev_last = self.last_removed@;
                let ghost prev_removed = self.removed@;
                let ghost prev_slab = slab_contents(self.slab);
                proof {
                    lemma_tree_parts(m0, kids0, old(self).root_list@, old(self).depth@, old(self).first_root);
                    assert(m0.contains_key(removed_id));
                    assert(!kids0[o].subrange(0, k).contains(removed_id)) by {
                        if kids0[o].subrange(0, k).contains(removed_id) {
                            let j = choose|j: int| 0 <= j < k && kids0[o].subrange(0, k)[j] == removed_id;
                            assert(kids0[o][j] == kids0[o][k]);
                        }
                    }
                    assert(m0[removed_id].parent == Some(o));
                    assert(!done.contains(removed_id));
                }
                let entity = slab_remove(&mut self.slab, removed_id).expect("missing removed child");
                proof {
                    done = done.insert(removed_id);
                    assert(entity == m1[removed_id]);
                }
                if entity.liveness.is_alive() {
                    self.last_removed.push(removed_id);
                    if let Some(child) = entity.child {
                        self.removed.push(child);
                        proof {
                            owners = owners.push(removed_id);
                        }
                    }
                }
                proof {
                    assert(kids0[o].subrange(0, k + 1) =~= kids0[o].subrange(0, k).push(removed_id));
                    assert forall|e: EntityId| #[trigger] done.contains(e) == (parent_in(m0, e, prefix)
                        || kids0[o].subrange(0, k + 1).contains(e)) by {
                        lemma_push_contains(kids0[o].subrange(0, k), removed_id, e);
                    }
                    assert(slab_contents(self.slab) =~= minus(m1, done));
                    assert(slab_contents(self.slab).dom() =~= prev_slab.dom().remove(removed_id));
                    let alive = !killed.contains(removed_id);
                    assert(alive == (entity.liveness == Liveness::Alive));
                    assert(entity.child == first_of(kids0[removed_id]));
                    assert forall|j: int| 0 <= j < owners.len() implies self.removed@[plen + j]
                        == kids0[#[trigger] owners[j]][0] by {
                        if j < prev_owners.len() {
                            assert(prev_removed[plen + j] == kids0[prev_owners[j]][0]);
                        }
                    }
                    assert(self.removed@.subrange(0, plen) =~= prev_removed.subrange(0, plen));
                    assert(prefix == owners.subrange(0, i - plen));
                    assert(owners[i - plen] == o);
                    // owners stay distinct, launched, and complete
                    assert(alive ==> !prev_owners.contains(removed_id)) by {
                        if alive && prev_owners.contains(removed_id) {
                            let j = choose|j: int| 0 <= j < prev_owners.len() && prev_owners[j] == removed_id;
                            assert(killed.union(prev_done).contains(prev_owners[j]));
                        }
                    }
                    assert(owners.no_duplicates()) by {
                        if owners.len() > prev_owners.len() {
                            assert forall|a: int, b: int| 0 <= a < owners.len() && 0 <= b < owners.len() && a != b implies owners[a] != owners[b] by {
                                if a == prev_owners.len() {
                                    assert(owners[b] == prev_owners[b]);
                                } else if b == prev_owners.len() {
                                    assert(owners[a] == prev_owners[a]);
                                } else {
                                    assert(owners[a] == prev_owners[a] && owners[b] == prev_owners[b]);
                                }
                            }
                        }
                    }
                    assert forall|j: int| 0 <= j < owners.len() implies killed.union(done).contains(#[trigger] owners[j])
                        && m0.dom().contains(owners[j]) && kids0[owners[j]].len() > 0 by {
                        if j < prev_owners.len() {
                            assert(owners[j] == prev_owners[j]);
                        }
                    }
                    assert forall|e: EntityId| m0.dom().contains(e) && #[trigger] killed.union(done).contains(e)
                        && kids0[e].len() > 0 implies owners.contains(e) by {
                        if e == removed_id && alive {
                            assert(owners[owners.len() - 1] == e);
                        } else {
                            assert(killed.union(prev_done).contains(e));
                            let j = choose|j: int| 0 <= j < prev_owners.len() && prev_owners[j] == e;
                            assert(owners[j] == e);
                        }
                    }
                    // the list of collected ids
                    assert forall|e: EntityId| #[trigger] self.last_removed@.contains(e) == (killed.contains(e) || done.contains(e)) by {
                        if alive {
                            lemma_push_contains(prev_last, removed_id, e);
                        }
                    }
                    assert(self.last_removed@.no_duplicates()) by {
                        if alive {
                            assert(!prev_last.contains(removed_id));
                            assert forall|a: int, b: int| 0 <= a < self.last_removed@.len() && 0 <= b < self.last_removed@.len() && a != b implies self.last_removed@[a] != self.last_removed@[b] by {
                                if a == prev_last.len() {
                                    assert(self.last_removed@[b] == prev_last[b]);
                                } else if b == prev_last.len() {
                                    assert(self.last_removed@[a] == prev_last[a]);
                                } else {
                                    assert(self.last_removed@[a] == prev_last[a] && self.last_removed@[b] == prev_last[b]);
                                }
                            }
                        }
                    }
                    assert(self.last_removed@.subrange(0, last0.len() as int) =~= last0) by {
                        assert(prev_last.subrange(0, last0.len() as int) == last0);
                    }
                    assert(linked(m0, kids0[o]));
                    assert(entity.next == m0[kids0[o][k]].next);
                }
                match entity.next {
                    Some(sibling) => {
                        removed_id = sibling;
                        proof {
                            k = k + 1;
                        }
                    },
                    None => {
                        proof {
                            assert(kids0[o].subrange(0, k + 1) =~= kids0[o]);
                        }
                        break;
                    },
                }
            }
            proof {
                let new_prefix = owners.subrange(0, i + 1 - plen);
                assert(new_prefix =~= prefix.push(o));
                assert forall|e: EntityId| #[trigger] done.contains(e) == parent_in(m0, e, new_prefix) by {
                    lemma_tree_parts(m0, kids0, old(self).root_list@, old(self).depth@, old(self).first_root);
                    if m0.contains_key(e) {
                        if let Some(p) = m0[e].parent {
                            lemma_push_contains(prefix, o, p);
                            if p == o {
                                assert(kids0[o].contains(e));
                            }
                        }
                    }
                    if kids0[o].contains(e) {
                        let j = choose|j: int| 0 <= j < kids0[o].len() && kids0[o][j] == e;
                        assert(m0[kids0[o][j]].parent == Some(o));
                        lemma_push_contains(prefix, o, o);
                    }
                }
            }
            i = i + 1;
        }
        proof {
            assert(owners.subrange(0, i - plen) =~= owners);
        }
        (Ghost(done), Ghost(owners))
    }

    /// Takes the explicitly removed entities that are still held out of the slab, one by
    /// one, linking their neighbours to each other.
    fn unlink_killed(
        &mut self,
        num_killed: usize,
        Ghost(m0): Ghost<Map<EntityId, Entity>>,
        Ghost(killed): Ghost<Set<EntityId>>,
        Ghost(orphans): Ghost<Set<EntityId>>,
        Ghost(doomed): Ghost<Set<EntityId>>,
        Ghost(klist): Ghost<Seq<EntityId>>,
    )
        requires
            tree_ok(m0, old(self).kids@, old(self).root_list@, old(self).depth@, old(self).first_root),
            doom_ok(m0, killed, orphans, doomed),
            unlink_ok(
                m0,
                old(self).kids@,
                old(self).root_list@,
                killed,
                orphans,
                doomed,
                Set::empty(),
                slab_contents(old(self).slab),
                old(self).first_root,
            ),
            num_killed == klist.len(),
            old(self).last_removed@.len() >= num_killed,
            old(self).last_removed@.subrange(0, num_killed as int) == klist,
            klist.no_duplicates(),
            forall|e: EntityId| #[trigger] klist.contains(e) == killed.contains(e),
        ensures
            unlink_ok(
                m0,
                old(self).kids@,
                old(self).root_list@,
                killed,
                orphans,
                doomed,
                killed,
                slab_contents(final(self).slab),
                final(self).first_root,
            ),
            final(self).kids == old(self).kids,
            final(self).root_list == old(self).root_list,
            final(self).depth == old(self).depth,
            final(self).removed == old(self).removed,
            final(self).last_removed == old(self).last_removed,
    {
        let ghost kids0 = self.kids@;
        let ghost roots0 = self.root_list@;
        let ghost depth0 = self.depth@;
        let ghost fr0 = old(self).first_root;
        let ghost mut gone: Set<EntityId> = Set::empty();
        let mut idx: usize = 0;
        while idx < num_killed
            invariant
                tree_ok(m0, kids0, roots0, depth0, fr0),
                doom_ok(m0, killed, orphans, doomed),
                kids0 == old(self).kids@,
                roots0 == old(self).root_list@,
                depth0 == old(self).depth@,
                self.kids == old(self).kids,
                self.root_list == old(self).root_list,
                self.depth == old(self).depth,
                self.removed == old(self).removed,
                self.last_removed == old(self).last_removed,
                num_killed == klist.len(),
                0 <= idx <= num_killed,
                self.last_removed@.len() >= num_killed,
                self.last_removed@.subrange(0, num_killed as int) == klist,
                klist.no_duplicates(),
                forall|e: EntityId| #[trigger] klist.contains(e) == killed.contains(e),
                forall|e: EntityId| #[trigger] gone.contains(e) == klist.subrange(0, idx as int).contains(e),
                unlink_ok(m0, kids0, roots0, killed, orphans, doomed, gone, slab_contents(self.slab), self.first_root),
            decreases num_killed - idx,
        {
            let removed_id = self.last_removed[idx];
            let ghost m = slab_contents(self.slab);
            let ghost fr = self.first_root;
            proof {
                assert(klist[idx as int] == removed_id);
                assert(klist.contains(removed_id));
                assert(!gone.contains(removed_id)) by {
                    if klist.subrange(0, idx as int).contains(removed_id) {
                        let j = choose|j: int| 0 <= j < idx && klist.subrange(0, idx as int)[j] == removed_id;
                        assert(klist[j] == klist[idx as int]);
                    }
                }
                assert(klist.subrange(0, idx + 1) =~= klist.subrange(0, idx as int).push(removed_id));
            }
            self.unlink_at(removed_id, Ghost(m0), Ghost(killed), Ghost(orphans), Ghost(doomed), Ghost(gone), Ghost(fr0));
            proof {
                assert forall|e: EntityId| #[trigger] gone.insert(removed_id).contains(e) == klist.subrange(0, idx + 1).contains(e) by {
                    lemma_push_contains(klist.subrange(0, idx as int), removed_id, e);
                }
                gone = gone.insert(removed_id);
            }
            idx = idx + 1;
        }
        proof {
            assert(klist.subrange(0, num_killed as int) =~= klist);
            assert(gone =~= killed);
        }
    }

    /// Takes `removed_id` out of the slab if it is still there, and unlinks it.
    fn unlink_at(
        &mut self,
        removed_id: EntityId,
        Ghost(m0): Ghost<Map<EntityId, Entity>>,
        Ghost(killed): Ghost<Set<EntityId>>,
        Ghost(orphans): Ghost<Set<EntityId>>,
        Ghost(doomed): Ghost<Set<EntityId>>,
        Ghost(gone): Ghost<Set<EntityId>>,
        Ghost(fr0): Ghost<Option<EntityId>>,
    )
        requires
            tree_ok(m0, old(self).kids@, old(self).root_list@, old(self).depth@, fr0),
            doom_ok(m0, killed, orphans, doomed),
            unlink_ok(m0, old(self).kids@, old(self).root_list@, killed, orphans, doomed, gone, slab_contents(old(self).slab), old(self).first_root),
            killed.contains(removed_id),
            !gone.contains(removed_id),
        ensures
            unlink_ok(
                m0,
                old(self).kids@,
                old(self).root_list@,
                killed,
                orphans,
                doomed,
                gone.insert(removed_id),
                slab_contents(final(self).slab),
                final(self).first_root,
            ),
            final(self).kids == old(self).kids,
            final(self).root_list == old(self).root_list,
            final(self).depth == old(self).depth,
            final(self).removed == old(self).removed,
            final(self).last_removed == old(self).last_removed,
    {
        let ghost kids0 = self.kids@;
        let ghost roots0 = self.root_list@;
        let ghost depth0 = self.depth@;
        let ghost m = slab_contents(self.slab);
        let ghost fr = self.first_root;
        match slab_remove(&mut self.slab, removed_id) {
            None => {
                proof {
                    assert(orphans.contains(removed_id)) by {
                        reveal(unlink_ok);
                    }
                    lemma_skip_orphan(m0, kids0, roots0, depth0, fr0, killed, orphans, doomed, gone, m, fr, removed_id);
                    assert(slab_contents(self.slab) =~= m);
                }
            },
            Some(entity) => {
                self.unlink_entity(removed_id, entity, Ghost(m0), Ghost(killed), Ghost(orphans), Ghost(doomed), Ghost(gone), Ghost(m), Ghost(fr0));
            },
        }
    }

    /// Links the neighbours of the just removed `removed_id` to each other, and moves the
    /// head of its list past it when it was first.
    fn unlink_entity(
        &mut self,
        removed_id: EntityId,
        entity: Entity,
        Ghost(m0): Ghost<Map<EntityId, Entity>>,
        Ghost(killed): Ghost<Set<EntityId>>,
        Ghost(orphans): Ghost<Set<EntityId>>,
        Ghost(doomed): Ghost<Set<EntityId>>,
        Ghost(gone): Ghost<Set<EntityId>>,
        Ghost(m): Ghost<Map<EntityId, Entity>>,
        Ghost(fr0): Ghost<Option<EntityId>>,
    )
        requires
            tree_ok(m0, old(self).kids@, old(self).root_list@, old(self).depth@, fr0),
            doom_ok(m0, killed, orphans, doomed),
            unlink_ok(m0, old(self).kids@, old(self).root_list@, killed, orphans, doomed, gone, m, old(self).first_root),
            killed.contains(removed_id),
            !gone.contains(removed_id),
            m.contains_key(removed_id),
            entity == m[removed_id],
            slab_contents(old(self).slab) == m.remove(removed_id),
        ensures
            unlink_ok(
                m0,
                old(self).kids@,
                old(self).root_list@,
                killed,
                orphans,
                doomed,
                gone.insert(removed_id),
                slab_contents(final(self).slab),
                final(self).first_root,
            ),
            final(self).kids == old(self).kids,
            final(self).root_list == old(self).root_list,
            final(self).depth == old(self).depth,
            final(self).removed == old(self).removed,
            final(self).last_removed == old(self).last_removed,
    {
        let ghost kids0 = self.kids@;
        let ghost roots0 = self.root_list@;
        let ghost depth0 = self.depth@;
        let ghost fr = self.first_root;
        proof {
            lemma_unlink_pre(m0, kids0, roots0, depth0, fr0, killed, orphans, doomed, gone, m, fr, removed_id);
            assert(!orphans.contains(removed_id)) by {
                reveal(unlink_ok);
            }
        }
        let ghost m1 = slab_contents(self.slab);
        let next = entity.next;
        let previous = entity.previous;
        if let Some(next_id) = next {
            let next_entity = slab_index_mut(&mut self.slab, next_id);
            next_entity.previous = previous;
        }
        let ghost m2 = slab_contents(self.slab);
        if let Some(previous_id) = previous {
            let previous_entity = slab_index_mut(&mut self.slab, previous_id);
            previous_entity.next = next;
        }
        let ghost m3 = slab_contents(self.slab);
        if let Some(parent_id) = entity.parent {
            let parent = slab_index_mut(&mut self.slab, parent_id);
            if parent.child.expect("parent has no children") == removed_id {
                parent.child = next;
            }
        } else if self.first_root.expect("no root") == removed_id {
            self.first_root = next;
        }
        proof {
            let m4 = slab_contents(self.slab);
            assert(m4.dom() =~= m.dom().remove(removed_id));
            lemma_unlink_one(m0, kids0, roots0, depth0, fr0, killed, orphans, doomed, gone, m, fr, m4, self.first_root, removed_id);
        }
    }

    /// Collects the pending entities, as `update` does, when the engine shuts down.
    pub fn teardown(&mut self, _deps: ())
        requires
            old(self).wf(),
        ensures
            final(self).wf(),
            Self::collected_from(*old(self), *final(self)),
    {
        self.update(());
    }

    /// Collects the pending entities, as `update` does, and hands back a dump of the tree
    /// (indented by 4) when entities are left over: they leaked.
    pub fn destroy(self, _deps: ()) -> (leaked: Option<String>)
        requires
            self.wf(),
            4 + 4 * self.ids().len() <= usize::MAX,
        ensures
            exists|after: Self|
                {
                    &&& after.wf()
                    &&& #[trigger] Self::collected_from(self, after)
                    &&& leaked is None == after.ids().is_empty()
                    &&& leaked matches Some(dump) ==> dump@ == "Entity tree dump:\n"@ + dump_list(
                        after,
                        after.roots(),
                        0,
                        4,
                        after.ids().len(),
                    )
                },
    {
        let mut entities = self;
        entities.update(());
        proof {
            lemma_wf_parts(self);
            assert(entities.ids().subset_of(self.ids()));
            vstd::set_lib::lemma_len_subset(entities.ids(), self.ids());
        }
        if entities.is_empty() {
            None
        } else {
            Some(entities.debug_tree_dump(4))
        }
    }

    /// A dump of the tree for debugging: a header line, then each root followed by its
    /// descendants, children one level deeper than their parent.  No branch is cut short: the
    /// dump is the same for any allowance of levels from the number of entities up.
    pub fn debug_tree_dump(&self, indent: usize) -> (dump: String)
        requires
            self.wf(),
            indent + 4 * self.ids().len() <= usize::MAX,
        ensures
            dump@ == "Entity tree dump:\n"@ + dump_list(
                *self,
                self.roots(),
                0,
                indent as nat,
                self.ids().len(),
            ),
            forall|levels: nat|
                levels >= self.ids().len() ==> #[trigger] dump_list(
                    *self,
                    self.roots(),
                    0,
                    indent as nat,
                    levels,
                ) == dump_list(*self, self.roots(), 0, indent as nat, self.ids().len()),
    {
        proof {
            assert forall|levels: nat| levels >= self.ids().len() implies #[trigger] dump_list(
                *self,
                self.roots(),
                0,
                indent as nat,
                levels,
            ) == dump_list(*self, self.roots(), 0, indent as nat, self.ids().len()) by {
                lemma_dump_complete(*self, indent as nat, (levels - self.ids().len()) as nat);
            }
        }
        let mut out: Vec<char> = Vec::new();
        push_str(&mut out, "Entity tree dump:\n");
        proof {
            lemma_wf_parts(*self);
            lemma_linked_chained(slab_contents(self.slab), self.root_list@);
        }
        let fuel = slab_len(&self.slab);
        self.dump_siblings(self.first_root, 0, indent, fuel, &mut out, Ghost(self.root_list@));
        string_from_chars(out.as_slice())
    }

    /// Appends the dump of the sibling list `list`, which starts at `first`.
    fn dump_siblings(
        &self,
        first: Option<EntityId>,
        depth: usize,
        indent: usize,
        fuel: usize,
        out: &mut Vec<char>,
        Ghost(list): Ghost<Seq<EntityId>>,
    )
        requires
            self.wf(),
            chained(slab_contents(self.slab), list),
            first == first_of(list),
            depth + fuel <= self.ids().len(),
            indent + 4 * self.ids().len() <= usize::MAX,
        ensures
            final(out)@ == old(out)@ + dump_list(*self, list, depth as nat, indent as nat, fuel as nat),
        decreases fuel, list.len(),
    {
        let ghost m = slab_contents(self.slab);
        match first {
            None => {
                proof {
                    assert(old(out)@ + dump_list(*self, list, depth as nat, indent as nat, fuel as nat) =~= old(out)@);
                }
            },
            Some(id) => {
                proof {
                    lemma_wf_parts(*self);
                    assert(m.contains_key(list[0]));
                }
                let entity = match slab_get(&self.slab, id) {
                    Some(entity) => entity,
                    None => {
                        proof {
                            assert(false);
                        }
                        return;
                    },
                };
                let ghost before = out@;
                self.dump_line(id, entity.name, depth, indent, out);
                let ghost after_line = out@;
                if fuel > 0 {
                    proof {
                        lemma_linked_chained(m, self.kids@[id]);
                    }
                    self.dump_siblings(entity.child, depth + 1, indent, fuel - 1, out, Ghost(self.kids@[id]));
                }
                let ghost after_children = out@;
                proof {
                    assert forall|i: int| 0 <= i < list.drop_first().len() implies {
                        &&& m.contains_key(#[trigger] list.drop_first()[i])
                        &&& m[list.drop_first()[i]].next == (if i + 1 < list.drop_first().len() {
                            Some(list.drop_first()[i + 1])
                        } else {
                            None
                        })
                    } by {
                        assert(list.drop_first()[i] == list[i + 1]);
                    }
                }
                self.dump_siblings(entity.next, depth, indent, fuel, out, Ghost(list.drop_first()));
                proof {
                    assert(out@ =~= before + dump_list(*self, list, depth as nat, indent as nat, fuel as nat));
                }
            },
        }
    }

    /// Appends the dump line of entity `id` named `name` at `depth`.
    fn dump_line(&self, id: EntityId, name: &'static str, depth: usize, indent: usize, out: &mut Vec<char>)
        requires
            indent + 4 * depth <= usize::MAX,
        ensures
            final(out)@ == old(out)@ + dump_line(indent as nat, depth as nat, name, id),
    {
        let lead = indent + 4 * depth;
        push_repeated(out, ' ', lead);
        push_str(out, "|- ");
        push_str(out, name);
        push_str(out, "  ");
        let name_length = name.len();
        let padding = if lead > 53 || name_length > 53 - lead {
            0
        } else {
            53 - lead - name_length
        };
        push_repeated(out, '.', padding);
        push_str(out, "  (");
        push_in_base(out, id.index, 10);
        out.push('.');
        push_in_base(out, id.tag, 16);
        push_str(out, ")\n");
        proof {
            assert(out@ =~= old(out)@ + dump_line(indent as nat, depth as nat, name, id));
        }
    }

    /// Queues `id` for removal; the entity and its descendants go at the next `update`.
    pub fn remove(&mut self, id: EntityId)
        ensures
            final(self).same_tree(*old(self)),
            final(self).pending() == old(self).pending().push(id),
            final(self).collected() == old(self).collected(),
            old(self).wf() ==> final(self).wf(),
    {
        self.removed.push(id);
    }

    /// The ids collected by the last `update` that had ids to collect.
    #[inline]
    pub fn last_removed(&self) -> (ids: &[EntityId])
        ensures
            ids@ == self.collected(),
    {
        self.last_removed.as_slice()
    }

    /// The ids queued for removal since the last `update`.
    #[inline]
    pub fn removed(&self) -> (ids: &[EntityId])
        ensures
            ids@ == self.pending(),
    {
        self.removed.as_slice()
    }
}

/// A well-formed tree holds finitely many entities.
pub proof fn lemma_ids_finite(s: Entities)
    requires
        s.wf(),
    ensures
        s.ids().finite(),
{
    lemma_wf_parts(s);
}

/// Following `n` parents up from `id` meets a pending id just as `marked_upwards` says.
proof fn lemma_within_marked(s: Entities, id: EntityId, n: nat)
    ensures
        s.pending_within(id, n) == marked_upwards(slab_contents(s.slab), s.pending().to_set(), id, n),
    decreases n,
{
    assert(s.pending().to_set().contains(id) == s.pending().contains(id));
    if n > 0 {
        if let Some(p) = s.parent_of(id) {
            lemma_within_marked(s, p, (n - 1) as nat);
        }
    }
}

/// In a well-formed tree, a pending id met within any number of steps up from a held entity
/// is met within its depth.
proof fn lemma_marked_within_depth(s: Entities, id: EntityId, n: nat)
    requires
        s.wf(),
        s.ids().contains(id),
        marked_upwards(slab_contents(s.slab), s.pending().to_set(), id, n),
    ensures
        marked_upwards(slab_contents(s.slab), s.pending().to_set(), id, s.depth@[id]),
    decreases n,
{
    lemma_wf_parts(s);
    let m = slab_contents(s.slab);
    if !s.pending().to_set().contains(id) {
        assert(m.contains_key(id));
        match m[id].parent {
            Some(p) => {
                assert(m.contains_key(p) && s.depth@[id] == s.depth@[p] + 1);
                lemma_marked_within_depth(s, p, (n - 1) as nat);
            },
            None => {},
        }
    }
}

/// In a well-formed tree, `doomed` follows parents exactly as deep as the tree says.
proof fn lemma_doomed_at_depth(s: Entities, id: EntityId)
    requires
        s.wf(),
    ensures
        s.doomed(id) == s.doomed_at_depth(id),
{
    if s.ids().contains(id) {
        let m = slab_contents(s.slab);
        let pend = s.pending().to_set();
        lemma_within_marked(s, id, s.depth@[id]);
        if s.doomed(id) {
            let n = choose|n: nat| #[trigger] s.pending_within(id, n);
            lemma_within_marked(s, id, n);
            lemma_marked_within_depth(s, id, n);
        }
        if s.doomed_at_depth(id) {
            assert(s.pending_within(id, s.depth@[id]));
        }
    }
}

/// The entities that `update` removes are the held entities that are pending and, with them,
/// every held entity whose parent is removed: removing an entity removes its whole subtree.
pub proof fn lemma_doomed_subtree(s: Entities, e: EntityId)
    requires
        s.wf(),
        s.ids().contains(e),
    ensures
        s.doomed(e) == (s.pending().contains(e) || match s.parent_of(e) {
            Some(p) => s.doomed(p),
            None => false,
        }),
{
    lemma_wf_parts(s);
    lemma_doomed_at_depth(s, e);
    let m = slab_contents(s.slab);
    assert(m.contains_key(e));
    assert(s.pending().to_set().contains(e) == s.pending().contains(e));
    match m[e].parent {
        Some(p) => {
            lemma_doomed_at_depth(s, p);
            assert(m.contains_key(p));
            assert(s.depth@[e] == s.depth@[p] + 1);
        },
        None => {},
    }
}

/// An update removes every pending entity and leaves no orphan: when an entity's parent goes,
/// the entity goes too.
pub proof fn lemma_update_leaves_no_orphan(before: Entities, after: Entities, e: EntityId)
    requires
        before.wf(),
        Entities::collected_from(before, after),
        before.ids().contains(e),
    ensures
        before.pending().contains(e) ==> !after.ids().contains(e),
        before.parent_of(e) matches Some(p) && !after.ids().contains(p) ==> !after.ids().contains(e),
{
    lemma_doomed_subtree(before, e);
    lemma_parent_held(before, e);
    if let Some(p) = before.parent_of(e) {
        assert(before.ids().contains(p));
        if before.pending().len() == 0 {
            assert(after.ids() == before.ids());
        }
    }
}

/// In a well-formed tree every held entity hangs where its parent says: under a held parent,
/// among that parent's children, or among the roots when it has no parent.
pub proof fn lemma_parent_held(s: Entities, e: EntityId)
    requires
        s.wf(),
        s.ids().contains(e),
    ensures
        match s.parent_of(e) {
            Some(p) => s.ids().contains(p) && s.children(p).contains(e) && s.depth_of(e) == s.depth_of(p) + 1,
            None => s.roots().contains(e),
        },
{
    assert(slab_contents(s.slab).contains_key(e));
}

/// `id` and its ancestors, following parents as long as the depths go down.
spec fn lineage(s: Entities, id: EntityId) -> Set<EntityId>
    decreases s.depth_of(id),
{
    match s.parent_of(id) {
        Some(p) => if s.ids().contains(id) && s.depth_of(p) < s.depth_of(id) {
            lineage(s, p).insert(id)
        } else {
            set![id]
        },
        None => set![id],
    }
}

/// The lineage of a held entity is a finite set of held entities, none deeper than it; a
/// child's lineage is its parent's and the child.
proof fn lemma_lineage(s: Entities, id: EntityId)
    requires
        s.wf(),
        s.ids().contains(id),
    ensures
        lineage(s, id).finite(),
        lineage(s, id).subset_of(s.ids()),
        forall|y: EntityId| #[trigger] lineage(s, id).contains(y) ==> s.depth_of(y) <= s.depth_of(id),
        s.parent_of(id) is None ==> lineage(s, id).len() == 1,
        s.parent_of(id) matches Some(p) ==> lineage(s, id).len() == lineage(s, p).len() + 1,
    decreases s.depth_of(id),
{
    lemma_wf_parts(s);
    lemma_parent_held(s, id);
    match s.parent_of(id) {
        Some(p) => {
            lemma_lineage(s, p);
            assert(!lineage(s, p).contains(id));
        },
        None => {
            assert(set![id].len() == 1) by {
                assert(set![id] =~= Set::<EntityId>::empty().insert(id));
            }
        },
    }
}

/// The children of a held entity are held entities whose parent it is.
proof fn lemma_children_held(s: Entities, x: EntityId, i: int)
    requires
        s.wf(),
        s.ids().contains(x),
        0 <= i < s.children(x).len(),
    ensures
        s.ids().contains(s.children(x)[i]),
        s.parent_of(s.children(x)[i]) == Some(x),
{
    lemma_wf_parts(s);
    let m = slab_contents(s.slab);
    assert(linked(m, s.kids@[x]));
    assert(m.contains_key(s.kids@[x][i]));
}

/// With at least as many levels left as the entities not above the list, one more level
/// changes nothing: every branch ends before the allowance does.
proof fn lemma_dump_fuel(s: Entities, list: Seq<EntityId>, level: nat, indent: nat, fuel: nat)
    requires
        s.wf(),
        forall|i: int|
            0 <= i < list.len() ==> s.ids().contains(#[trigger] list[i]) && lineage(s, list[i]).len()
                == level + 1,
        fuel + level + 1 >= s.ids().len(),
    ensures
        dump_list(s, list, level, indent, fuel) == dump_list(s, list, level, indent, fuel + 1),
    decreases fuel, list.len(),
{
    if list.len() > 0 {
        let x = list[0];
        let kids = s.children(x);
        assert forall|i: int| 0 <= i < kids.len() implies s.ids().contains(#[trigger] kids[i])
            && lineage(s, kids[i]).len() == level + 2 by {
            lemma_children_held(s, x, i);
            lemma_lineage(s, kids[i]);
        }
        if fuel > 0 {
            lemma_dump_fuel(s, kids, level + 1, indent, (fuel - 1) as nat);
        } else if kids.len() > 0 {
            let c = kids[0];
            lemma_children_held(s, x, 0);
            lemma_lineage(s, x);
            lemma_lineage(s, c);
            lemma_parent_held(s, c);
            assert(!lineage(s, x).contains(c));
            lemma_ids_finite(s);
            vstd::set_lib::lemma_len_subset(lineage(s, x).insert(c), s.ids());
            assert(false);
        }
        let rest = list.drop_first();
        assert forall|i: int| 0 <= i < rest.len() implies s.ids().contains(#[trigger] rest[i])
            && lineage(s, rest[i]).len() == level + 1 by {
            assert(rest[i] == list[i + 1]);
        }
        lemma_dump_fuel(s, rest, level, indent, fuel);
        if fuel == 0 {
            assert(kids.len() == 0);
            assert(dump_list(s, kids, level + 1, indent, 0) =~= Seq::<char>::empty());
        }
    }
}

/// The dump of the roots is the same for every allowance of levels from the number of
/// entities up.
proof fn lemma_dump_complete(s: Entities, indent: nat, extra: nat)
    requires
        s.wf(),
    ensures
        dump_list(s, s.roots(), 0, indent, s.ids().len() + extra) == dump_list(
            s,
            s.roots(),
            0,
            indent,
            s.ids().len(),
        ),
    decreases extra,
{
    if extra > 0 {
        lemma_dump_complete(s, indent, (extra - 1) as nat);
        lemma_wf_parts(s);
        let m = slab_contents(s.slab);
        assert forall|i: int| 0 <= i < s.roots().len() implies s.ids().contains(#[trigger] s.roots()[i])
            && lineage(s, s.roots()[i]).len() == 1 by {
            assert(m.contains_key(s.root_list@[i]));
            lemma_lineage(s, s.roots()[i]);
        }
        lemma_dump_fuel(s, s.roots(), 0, indent, (s.ids().len() + extra - 1) as nat);
    }
}

/// A linked list is in particular chained through `next`.
proof fn lemma_linked_chained(m: Map<EntityId, Entity>, list: Seq<EntityId>)
    requires
        linked(m, list),
    ensures
        chained(m, list),
{
}

/// The parts of `wf` that the proofs use most, stated one by one.
proof fn lemma_wf_parts(s: Entities)
    requires
        s.wf(),
    ensures
        slab_contents(s.slab).dom().finite(),
        s.kids@.dom() == slab_contents(s.slab).dom(),
        s.first_root == first_of(s.root_list@),
        linked(slab_contents(s.slab), s.root_list@),
        forall|e: EntityId| #[trigger]
            slab_contents(s.slab).contains_key(e) ==> linked(slab_contents(s.slab), s.kids@[e])
                && slab_contents(s.slab)[e].liveness == Liveness::Alive && slab_contents(
                s.slab,
            )[e].child == first_of(s.kids@[e]),
{
}

/// Links of entities that a change leaves alone stay valid.
proof fn lemma_linked_frame(m: Map<EntityId, Entity>, m2: Map<EntityId, Entity>, list: Seq<EntityId>)
    requires
        linked(m, list),
        forall|i: int|
            0 <= i < list.len() ==> m2.contains_key(#[trigger] list[i]) && m2[list[i]].next
                == m[list[i]].next && m2[list[i]].previous == m[list[i]].previous,
    ensures
        linked(m2, list),
{
    assert forall|i: int| 0 <= i < list.len() implies {
        &&& m2.contains_key(#[trigger] list[i])
        &&& m2[list[i]].next == (if i + 1 < list.len() {
            Some(list[i + 1])
        } else {
            None
        })
        &&& m2[list[i]].previous == (if i > 0 {
            Some(list[i - 1])
        } else {
            None
        })
    } by {
        assert(m.contains_key(list[i]));
    }
}

/// Putting `x` in front of a linked list: `x` points at the old head, which points back.
proof fn lemma_linked_prepend(
    m: Map<EntityId, Entity>,
    m2: Map<EntityId, Entity>,
    list: Seq<EntityId>,
    x: EntityId,
)
    requires
        linked(m, list),
        !m.contains_key(x),
        m2.contains_key(x),
        m2[x].next == first_of(list),
        m2[x].previous is None,
        list.len() > 0 ==> m2.contains_key(list[0]) && m2[list[0]].previous == Some(x)
            && m2[list[0]].next == m[list[0]].next,
        forall|i: int|
            1 <= i < list.len() ==> m2.contains_key(#[trigger] list[i]) && m2[list[i]].next
                == m[list[i]].next && m2[list[i]].previous == m[list[i]].previous,
    ensures
        linked(m2, seq![x] + list),
{
    let l2 = seq![x] + list;
    assert forall|i: int| 0 <= i < l2.len() implies {
        &&& m2.contains_key(#[trigger] l2[i])
        &&& m2[l2[i]].next == (if i + 1 < l2.len() {
            Some(l2[i + 1])
        } else {
            None
        })
        &&& m2[l2[i]].previous == (if i > 0 {
            Some(l2[i - 1])
        } else {
            None
        })
    } by {
        if i > 0 {
            assert(l2[i] == list[i - 1]);
            assert(m.contains_key(list[i - 1]));
            if i + 1 < l2.len() {
                assert(l2[i + 1] == list[i]);
            }
            if i > 1 {
                assert(l2[i - 1] == list[i - 2]);
            }
        } else if list.len() > 0 {
            assert(l2[1] == list[0]);
        }
    }
}

/// Adding `x` as the first child of `p` keeps the tree well formed.
proof fn lemma_add_child(
    m: Map<EntityId, Entity>,
    kids: Map<EntityId, Seq<EntityId>>,
    roots: Seq<EntityId>,
    depth: Map<EntityId, nat>,
    first_root: Option<EntityId>,
    m2: Map<EntityId, Entity>,
    p: EntityId,
    x: EntityId,
)
    requires
        tree_ok(m, kids, roots, depth, first_root),
        m.contains_key(p),
        !m.contains_key(x),
        m2.dom() == m.dom().insert(x),
        m2[x].parent == Some(p),
        m2[x].child is None,
        m2[x].next == first_of(kids[p]),
        m2[x].previous is None,
        m2[x].liveness == Liveness::Alive,
        m2[p] == (Entity { child: Some(x), ..m[p] }),
        kids[p].len() > 0 ==> m2[kids[p][0]] == (Entity { previous: Some(x), ..m[kids[p][0]] }),
        forall|e: EntityId|
            #![trigger m2[e]]
            m.contains_key(e) && e != p && (kids[p].len() > 0 ==> e != kids[p][0]) ==> m2[e]
                == m[e],
    ensures
        tree_ok(
            m2,
            kids.insert(p, seq![x] + kids[p]).insert(x, Seq::empty()),
            roots,
            depth.insert(x, depth[p] + 1),
            first_root,
        ),
{
    let k2 = kids.insert(p, seq![x] + kids[p]).insert(x, Seq::empty());
    let d2 = depth.insert(x, depth[p] + 1);
    let kp = k2[p];
    assert(m2.dom().finite());
    assert(k2.dom() =~= m2.dom());
    assert(d2.dom() =~= m2.dom());
    assert(m[p].parent == m2[p].parent);
    // next and previous change only for x and the old first child of p.
    assert forall|e: EntityId| #[trigger] m.contains_key(e) implies m2.contains_key(e)
        && m2[e].parent == m[e].parent && m2[e].name == m[e].name && m2[e].liveness == m[e].liveness
        && (e != x && (kids[p].len() > 0 ==> e != kids[p][0]) ==> m2[e].next == m[e].next
        && m2[e].previous == m[e].previous) by {
        if e != p && (kids[p].len() > 0 ==> e != kids[p][0]) {
            assert(m2[e] == m[e]);
        }
    }
    lemma_linked_prepend(m, m2, kids[p], x);
    assert forall|e: EntityId| #[trigger] m.contains_key(e) && e != p implies linked(m2, kids[e]) by {
        assert forall|i: int| 0 <= i < kids[e].len() implies #[trigger] kids[e][i] != x && (
        kids[p].len() > 0 ==> kids[e][i] != kids[p][0]) && m.contains_key(kids[e][i]) by {
            assert(m[kids[e][i]].parent == Some(e));
            if kids[p].len() > 0 {
                assert(m[kids[p][0]].parent == Some(p));
            }
        }
        lemma_linked_frame(m, m2, kids[e]);
    }
    assert forall|i: int| 0 <= i < roots.len() implies #[trigger] roots[i] != x && (kids[p].len()
        > 0 ==> roots[i] != kids[p][0]) && m.contains_key(roots[i]) by {
        assert(m[roots[i]].parent is None);
        if kids[p].len() > 0 {
            assert(m[kids[p][0]].parent == Some(p));
        }
    }
    lemma_linked_frame(m, m2, roots);
    assert(kp.no_duplicates()) by {
        assert forall|i: int, j: int| 0 <= i < kp.len() && 0 <= j < kp.len() && i != j implies kp[i]
            != kp[j] by {
            if i > 0 && j > 0 {
                assert(kp[i] == kids[p][i - 1] && kp[j] == kids[p][j - 1]);
            } else if i == 0 {
                assert(kp[j] == kids[p][j - 1]);
                assert(m.contains_key(kids[p][j - 1]));
            } else {
                assert(kp[i] == kids[p][i - 1]);
                assert(m.contains_key(kids[p][i - 1]));
            }
        }
    }
    assert(alive_ok(m2));
    assert forall|i: int| 0 <= i < roots.len() implies (#[trigger] m2[roots[i]]).parent is None by {
        assert(m[roots[i]].parent is None);
    }
    assert forall|e: EntityId| #[trigger] m2.contains_key(e) implies {
        &&& m2[e].child == first_of(k2[e])
        &&& k2[e].no_duplicates()
        &&& linked(m2, k2[e])
    } by {
        if e == x {
            assert(linked(m2, k2[e]));
        } else if e != p {
            assert(m.contains_key(e));
            if kids[p].len() > 0 && e == kids[p][0] {
                assert(m2[e].child == m[e].child);
            }
        }
    }
    assert forall|e: EntityId, i: int|
        m2.contains_key(e) && 0 <= i < k2[e].len() implies m2[#[trigger] k2[e][i]].parent == Some(
        e,
    ) by {
        if e == p {
            if i > 0 {
                assert(kp[i] == kids[p][i - 1]);
                assert(m[kids[p][i - 1]].parent == Some(p));
            }
        } else if e != x {
            assert(m[kids[e][i]].parent == Some(e));
        }
    }
    assert(lists_ok(m2, k2, roots));
    assert forall|e: EntityId| #[trigger] m2.contains_key(e) implies match m2[e].parent {
        None => roots.contains(e),
        Some(q) => m2.contains_key(q) && k2[q].contains(e) && d2[e] == d2[q] + 1,
    } by {
        if e == x {
            assert(kp[0] == x);
        } else {
            assert(m.contains_key(e));
            if let Some(q) = m[e].parent {
                assert(q != x);
                if q == p {
                    let i = choose|i: int| 0 <= i < kids[p].len() && kids[p][i] == e;
                    assert(kp[i + 1] == e);
                }
            }
        }
    }
}

/// Pushing `x` adds exactly `x` to what a sequence contains.
proof fn lemma_push_contains(s: Seq<EntityId>, x: EntityId, e: EntityId)
    ensures
        s.push(x).contains(e) == (s.contains(e) || e == x),
{
    if s.contains(e) {
        let k = choose|k: int| 0 <= k < s.len() && s[k] == e;
        assert(s.push(x)[k] == e);
    }
    if e == x {
        assert(s.push(x)[s.len() as int] == e);
    }
    if s.push(x).contains(e) && e != x {
        let k = choose|k: int| 0 <= k < s.push(x).len() && s.push(x)[k] == e;
        assert(s[k] == e);
    }
}

/// The parts of `tree_ok` that the proofs use most, stated one by one.
proof fn lemma_tree_parts(
    m: Map<EntityId, Entity>,
    kids: Map<EntityId, Seq<EntityId>>,
    roots: Seq<EntityId>,
    depth: Map<EntityId, nat>,
    first_root: Option<EntityId>,
)
    requires
        tree_ok(m, kids, roots, depth, first_root),
    ensures
        m.dom().finite(),
        kids.dom() == m.dom(),
        depth.dom() == m.dom(),
        first_root == first_of(roots),
        roots.no_duplicates(),
        linked(m, roots),
        forall|i: int| 0 <= i < roots.len() ==> (#[trigger] m[roots[i]]).parent is None,
        forall|e: EntityId| #[trigger] m.contains_key(e) ==> m[e].liveness == Liveness::Alive,
        forall|e: EntityId|
            #[trigger] m.contains_key(e) ==> {
                &&& m[e].child == first_of(kids[e])
                &&& kids[e].no_duplicates()
                &&& linked(m, kids[e])
            },
        forall|e: EntityId, i: int|
            m.contains_key(e) && 0 <= i < kids[e].len() ==> m[#[trigger] kids[e][i]].parent == Some(e),
        forall|e: EntityId|
            #[trigger] m.contains_key(e) ==> match m[e].parent {
                None => roots.contains(e),
                Some(p) => m.contains_key(p) && kids[p].contains(e) && depth[e] == depth[p] + 1,
            },
        forall|e: EntityId, i: int|
            m.contains_key(e) && 0 <= i < kids[e].len() ==> #[trigger] m.contains_key(kids[e][i]),
        forall|i: int| 0 <= i < roots.len() ==> #[trigger] m.contains_key(roots[i]),
{
    assert forall|e: EntityId, i: int|
        m.contains_key(e) && 0 <= i < kids[e].len() implies #[trigger] m.contains_key(kids[e][i]) by {
        assert(linked(m, kids[e]));
    }
}

/// A held killed entity or orphan is exactly one whose chain of ancestors meets `pending`;
/// an orphan is exactly one whose parent is such.
proof fn lemma_launched_doomed(
    m0: Map<EntityId, Entity>,
    kids0: Map<EntityId, Seq<EntityId>>,
    roots0: Seq<EntityId>,
    depth0: Map<EntityId, nat>,
    fr0: Option<EntityId>,
    pending: Seq<EntityId>,
    killed: Set<EntityId>,
    orphans: Set<EntityId>,
    owners: Seq<EntityId>,
    e: EntityId,
)
    requires
        tree_ok(m0, kids0, roots0, depth0, fr0),
        killed == killed_of(m0, pending),
        forall|x: EntityId| #[trigger] orphans.contains(x) == parent_in(m0, x, owners),
        owners_ok(owners, kids0, killed.union(orphans), m0.dom()),
        m0.contains_key(e),
    ensures
        (killed.contains(e) || orphans.contains(e)) == marked_upwards(
            m0,
            pending.to_set(),
            e,
            depth0[e],
        ),
        orphans.contains(e) == (match m0[e].parent {
            Some(p) => marked_upwards(m0, pending.to_set(), p, depth0[p]),
            None => false,
        }),
    decreases depth0[e],
{
    lemma_tree_parts(m0, kids0, roots0, depth0, fr0);
    let rs = pending.to_set();
    assert(killed.contains(e) == rs.contains(e));
    match m0[e].parent {
        None => {
            assert(!orphans.contains(e));
        },
        Some(p) => {
            lemma_launched_doomed(m0, kids0, roots0, depth0, fr0, pending, killed, orphans, owners, p);
            assert(depth0[e] == depth0[p] + 1);
            assert(kids0[p].contains(e));
            if killed.union(orphans).contains(p) {
                assert(kids0[p].len() > 0);
                assert(owners.contains(p));
            }
            if owners.contains(p) {
                let j = choose|j: int| 0 <= j < owners.len() && owners[j] == p;
                assert(killed.union(orphans).contains(owners[j]));
            }
            assert(orphans.contains(e) == owners.contains(p));
        },
    }
}

/// Unlinking from a doubly linked list: the neighbours of `list[j]` now point at each other.
proof fn lemma_linked_remove(
    m: Map<EntityId, Entity>,
    m2: Map<EntityId, Entity>,
    list: Seq<EntityId>,
    j: int,
)
    requires
        linked(m, list),
        list.no_duplicates(),
        0 <= j < list.len(),
        forall|i: int| 0 <= i < list.len() && i != j ==> m2.contains_key(#[trigger] list[i]),
        forall|i: int|
            0 <= i < list.len() && i != j && i != j - 1 ==> m2[#[trigger] list[i]].next
                == m[list[i]].next,
        forall|i: int|
            0 <= i < list.len() && i != j && i != j + 1 ==> m2[#[trigger] list[i]].previous
                == m[list[i]].previous,
        j > 0 ==> m2[list[j - 1]].next == m[list[j]].next,
        j + 1 < list.len() ==> m2[list[j + 1]].previous == m[list[j]].previous,
    ensures
        linked(m2, list.remove(j)),
{
    let l2 = list.remove(j);
    assert forall|i: int| 0 <= i < l2.len() implies {
        &&& m2.contains_key(#[trigger] l2[i])
        &&& m2[l2[i]].next == (if i + 1 < l2.len() {
            Some(l2[i + 1])
        } else {
            None
        })
        &&& m2[l2[i]].previous == (if i > 0 {
            Some(l2[i - 1])
        } else {
            None
        })
    } by {
        assert(m.contains_key(list[j]));
        if i < j {
            assert(l2[i] == list[i]);
            assert(m.contains_key(list[i]));
            if i + 1 < j {
                assert(l2[i + 1] == list[i + 1]);
            } else if i + 1 < l2.len() {
                assert(l2[i + 1] == list[i + 2]);
            }
            if i > 0 {
                assert(l2[i - 1] == list[i - 1]);
            }
        } else {
            assert(l2[i] == list[i + 1]);
            assert(m.contains_key(list[i + 1]));
            if i + 1 < l2.len() {
                assert(l2[i + 1] == list[i + 2]);
            }
            if i > j {
                assert(l2[i - 1] == list[i]);
            } else if i > 0 {
                assert(l2[i - 1] == list[i - 1]);
            }
        }
    }
}

/// An orphan was already taken out of the slab; counting it as gone changes no list.
proof fn lemma_skip_orphan(
    m0: Map<EntityId, Entity>,
    kids0: Map<EntityId, Seq<EntityId>>,
    roots0: Seq<EntityId>,
    depth0: Map<EntityId, nat>,
    fr0: Option<EntityId>,
    killed: Set<EntityId>,
    orphans: Set<EntityId>,
    doomed: Set<EntityId>,
    gone: Set<EntityId>,
    m: Map<EntityId, Entity>,
    first_root: Option<EntityId>,
    x: EntityId,
)
    requires
        tree_ok(m0, kids0, roots0, depth0, fr0),
        doom_ok(m0, killed, orphans, doomed),
        unlink_ok(m0, kids0, roots0, killed, orphans, doomed, gone, m, first_root),
        killed.contains(x),
        orphans.contains(x),
    ensures
        unlink_ok(m0, kids0, roots0, killed, orphans, doomed, gone.insert(x), m, first_root),
{
    reveal(unlink_ok);
    lemma_tree_parts(m0, kids0, roots0, depth0, fr0);
    let g2 = gone.insert(x);
    let p = m0[x].parent->0;
    assert forall|i: int| 0 <= i < roots0.len() implies gone.contains(#[trigger] roots0[i])
        == g2.contains(roots0[i]) by {
        assert(m0[roots0[i]].parent is None);
    }
    lemma_without_congruent(roots0, gone, g2);
    assert forall|q: EntityId|
        #![trigger kids0[q]]
        m0.contains_key(q) && !doomed.contains(q) implies m[q].child == first_of(
        without(kids0[q], g2),
    ) && linked(m, without(kids0[q], g2)) by {
        assert forall|i: int| 0 <= i < kids0[q].len() implies gone.contains(#[trigger] kids0[q][i])
            == g2.contains(kids0[q][i]) by {
            assert(m0[kids0[q][i]].parent == Some(q));
        }
        lemma_without_congruent(kids0[q], gone, g2);
    }
}

/// Taking `x` out of the slab and linking its neighbours to each other removes it from the
/// list it was in and leaves the other lists alone.
proof fn lemma_unlink_one(
    m0: Map<EntityId, Entity>,
    kids0: Map<EntityId, Seq<EntityId>>,
    roots0: Seq<EntityId>,
    depth0: Map<EntityId, nat>,
    fr0: Option<EntityId>,
    killed: Set<EntityId>,
    orphans: Set<EntityId>,
    doomed: Set<EntityId>,
    gone: Set<EntityId>,
    m: Map<EntityId, Entity>,
    first_root: Option<EntityId>,
    m2: Map<EntityId, Entity>,
    first_root2: Option<EntityId>,
    x: EntityId,
)
    requires
        tree_ok(m0, kids0, roots0, depth0, fr0),
        doom_ok(m0, killed, orphans, doomed),
        unlink_ok(m0, kids0, roots0, killed, orphans, doomed, gone, m, first_root),
        killed.contains(x),
        !orphans.contains(x),
        !gone.contains(x),
        m2.dom() == m.dom().remove(x),
        forall|e: EntityId|
            #[trigger] m2.contains_key(e) ==> m2[e].name == m[e].name && m2[e].parent == m[e].parent
                && m2[e].liveness == m[e].liveness,
        forall|e: EntityId|
            #[trigger] m2.contains_key(e) && Some(e) != m[x].next ==> m2[e].previous == m[e].previous,
        forall|e: EntityId|
            #[trigger] m2.contains_key(e) && Some(e) != m[x].previous ==> m2[e].next == m[e].next,
        m[x].next matches Some(n) ==> m2[n].previous == m[x].previous,
        m[x].previous matches Some(v) ==> m2[v].next == m[x].next,
        forall|e: EntityId|
            #[trigger] m2.contains_key(e) && Some(e) != m[x].parent ==> m2[e].child == m[e].child,
        m[x].parent matches Some(p) ==> m2[p].child == (if m[p].child == Some(x) {
            m[x].next
        } else {
            m[p].child
        }),
        m[x].parent is Some ==> first_root2 == first_root,
        m[x].parent is None ==> first_root2 == (if first_root == Some(x) {
            m[x].next
        } else {
            first_root
        }),
    ensures
        unlink_ok(m0, kids0, roots0, killed, orphans, doomed, gone.insert(x), m2, first_root2),
{
    reveal(unlink_ok);
    lemma_tree_parts(m0, kids0, roots0, depth0, fr0);
    let g2 = gone.insert(x);
    assert(m.contains_key(x));
    // The list that holds x, and where.
    let base = match m0[x].parent {
        Some(p) => kids0[p],
        None => roots0,
    };
    assert(base.no_duplicates());
    assert(base.contains(x));
    if let Some(p) = m0[x].parent {
        assert(!doomed.contains(p));
        assert(m.contains_key(p));
    }
    let list = without(base, gone);
    lemma_without_contains(base, gone, x);
    lemma_without_no_duplicates(base, gone);
    let j = choose|j: int| 0 <= j < list.len() && list[j] == x;
    assert(linked(m, list));
    lemma_without_remove_one(base, gone, x, j);
    assert(without(base, g2) == list.remove(j));
    // every member of base has the same parent as x
    assert forall|e: EntityId| #[trigger] list.contains(e) implies m0.contains_key(e) && m0[e].parent
        == m0[x].parent by {
        lemma_without_contains(base, gone, e);
        let i = choose|i: int| 0 <= i < base.len() && base[i] == e;
        if let Some(p) = m0[x].parent {
            assert(m0[kids0[p][i]].parent == Some(p));
        } else {
            assert(m0[roots0[i]].parent is None);
        }
    }
    assert forall|i: int| 0 <= i < list.len() && i != j implies m2.contains_key(#[trigger] list[i]) by {
        assert(m.contains_key(list[i]));
    }
    if j > 0 {
        assert(m[x].previous == Some(list[j - 1]));
    }
    if j + 1 < list.len() {
        assert(m[x].next == Some(list[j + 1]));
    }
    assert forall|i: int|
        0 <= i < list.len() && i != j && i != j - 1 implies m2[#[trigger] list[i]].next
        == m[list[i]].next by {
        if m[x].previous == Some(list[i]) {
            assert(list[j - 1] == list[i]);
        }
    }
    assert forall|i: int|
        0 <= i < list.len() && i != j && i != j + 1 implies m2[#[trigger] list[i]].previous
        == m[list[i]].previous by {
        if m[x].next == Some(list[i]) {
            assert(list[j + 1] == list[i]);
        }
    }
    lemma_linked_remove(m, m2, list, j);
    // Entities of other lists are neither x nor its neighbours.
    assert forall|e: EntityId|
        m.contains_key(e) && m0[e].parent != m0[x].parent implies m2.contains_key(e) && m2[e].next
        == m[e].next && m2[e].previous == m[e].previous by {
        if m[x].next == Some(e) {
            assert(list.contains(list[j + 1]));
        }
        if m[x].previous == Some(e) {
            assert(list.contains(list[j - 1]));
        }
    }
    assert forall|q: EntityId|
        #![trigger kids0[q]]
        m0.contains_key(q) && !doomed.contains(q) implies m2[q].child == first_of(
        without(kids0[q], g2),
    ) && linked(m2, without(kids0[q], g2)) by {
        if m0[x].parent == Some(q) {
            assert(base == kids0[q]);
            if j == 0 {
                assert(m[q].child == Some(x));
                if list.len() > 1 {
                    assert(list.remove(0)[0] == list[1]);
                }
            } else {
                assert(m[q].child == Some(list[0]));
                assert(list[0] != x);
                assert(list.remove(j)[0] == list[0]);
            }
        } else {
            assert forall|i: int| 0 <= i < kids0[q].len() implies gone.contains(
                #[trigger] kids0[q][i],
            ) == g2.contains(kids0[q][i]) by {
                assert(m0[kids0[q][i]].parent == Some(q));
            }
            lemma_without_congruent(kids0[q], gone, g2);
            let lq = without(kids0[q], gone);
            assert forall|i: int| 0 <= i < lq.len() implies m.contains_key(#[trigger] lq[i])
                && m0[lq[i]].parent != m0[x].parent by {
                lemma_without_contains(kids0[q], gone, lq[i]);
                assert(lq.contains(lq[i]));
                let k = choose|k: int| 0 <= k < kids0[q].len() && kids0[q][k] == lq[i];
                assert(m0[kids0[q][k]].parent == Some(q));
            }
            lemma_linked_frame(m, m2, lq);
            assert(Some(q) != m[x].parent);
            assert(m2.contains_key(q));
        }
    }
    if m0[x].parent is None {
        assert(base == roots0);
        if j == 0 {
            assert(first_root == Some(x));
            if list.len() > 1 {
                assert(list.remove(0)[0] == list[1]);
            }
        } else {
            assert(first_root == Some(list[0]));
            assert(list.remove(j)[0] == list[0]);
        }
    } else {
        assert forall|i: int| 0 <= i < roots0.len() implies gone.contains(#[trigger] roots0[i])
            == g2.contains(roots0[i]) by {
            assert(m0[roots0[i]].parent is None);
        }
        lemma_without_congruent(roots0, gone, g2);
        let lr = without(roots0, gone);
        assert forall|i: int| 0 <= i < lr.len() implies m.contains_key(#[trigger] lr[i])
            && m0[lr[i]].parent != m0[x].parent by {
            lemma_without_contains(roots0, gone, lr[i]);
            assert(lr.contains(lr[i]));
            let k = choose|k: int| 0 <= k < roots0.len() && roots0[k] == lr[i];
            assert(m0[roots0[k]].parent is None);
        }
        lemma_linked_frame(m, m2, lr);
    }
}

/// Before unlinking `x`: its neighbours and its parent are held and distinct from it, and
/// the list it is in starts somewhere.
proof fn lemma_unlink_pre(
    m0: Map<EntityId, Entity>,
    kids0: Map<EntityId, Seq<EntityId>>,
    roots0: Seq<EntityId>,
    depth0: Map<EntityId, nat>,
    fr0: Option<EntityId>,
    killed: Set<EntityId>,
    orphans: Set<EntityId>,
    doomed: Set<EntityId>,
    gone: Set<EntityId>,
    m: Map<EntityId, Entity>,
    first_root: Option<EntityId>,
    x: EntityId,
)
    requires
        tree_ok(m0, kids0, roots0, depth0, fr0),
        doom_ok(m0, killed, orphans, doomed),
        unlink_ok(m0, kids0, roots0, killed, orphans, doomed, gone, m, first_root),
        killed.contains(x),
        !gone.contains(x),
        m.contains_key(x),
    ensures
        m[x].next matches Some(n) ==> n != x && m.contains_key(n),
        m[x].previous matches Some(v) ==> v != x && m.contains_key(v),
        (m[x].next is Some && m[x].previous is Some) ==> m[x].next != m[x].previous,
        m[x].parent matches Some(p) ==> p != x && m.contains_key(p) && m[p].child is Some,
        m[x].parent is None ==> first_root is Some,
{
    reveal(unlink_ok);
    lemma_tree_parts(m0, kids0, roots0, depth0, fr0);
    let base = match m0[x].parent {
        Some(p) => kids0[p],
        None => roots0,
    };
    assert(base.contains(x));
    if let Some(p) = m0[x].parent {
        assert(!doomed.contains(p));
        assert(m.contains_key(p));
        assert(depth0[x] == depth0[p] + 1);
    }
    let list = without(base, gone);
    lemma_without_contains(base, gone, x);
    lemma_without_no_duplicates(base, gone);
    let j = choose|j: int| 0 <= j < list.len() && list[j] == x;
    assert(linked(m, list));
    assert(list.len() > 0);
    if j > 0 {
        assert(m[x].previous == Some(list[j - 1]));
    }
    if j + 1 < list.len() {
        assert(m[x].next == Some(list[j + 1]));
    }
}

/// Before any unlinking, the slab without the orphans fits `unlink_ok`.
proof fn lemma_unlink_start(
    m0: Map<EntityId, Entity>,
    kids0: Map<EntityId, Seq<EntityId>>,
    roots0: Seq<EntityId>,
    depth0: Map<EntityId, nat>,
    fr0: Option<EntityId>,
    killed: Set<EntityId>,
    orphans: Set<EntityId>,
    doomed: Set<EntityId>,
    m: Map<EntityId, Entity>,
)
    requires
        tree_ok(m0, kids0, roots0, depth0, fr0),
        doom_ok(m0, killed, orphans, doomed),
        m == minus(marked(m0, killed), orphans),
    ensures
        unlink_ok(m0, kids0, roots0, killed, orphans, doomed, Set::empty(), m, fr0),
{
    reveal(unlink_ok);
    lemma_tree_parts(m0, kids0, roots0, depth0, fr0);
    let none = Set::<EntityId>::empty();
    lemma_without_nothing(roots0, none);
    assert forall|i: int| 0 <= i < roots0.len() implies m.contains_key(#[trigger] roots0[i])
        && m[roots0[i]].next == m0[roots0[i]].next && m[roots0[i]].previous == m0[roots0[i]].previous by {
        assert(m0[roots0[i]].parent is None);
    }
    lemma_linked_frame(m0, m, roots0);
    assert forall|p: EntityId|
        #![trigger kids0[p]]
        m0.contains_key(p) && !doomed.contains(p) implies m[p].child == first_of(without(kids0[p], none))
        && linked(m, without(kids0[p], none)) by {
        lemma_without_nothing(kids0[p], none);
        assert forall|i: int| 0 <= i < kids0[p].len() implies m.contains_key(#[trigger] kids0[p][i])
            && m[kids0[p][i]].next == m0[kids0[p][i]].next && m[kids0[p][i]].previous
            == m0[kids0[p][i]].previous by {
            assert(m0[kids0[p][i]].parent == Some(p));
        }
        lemma_linked_frame(m0, m, kids0[p]);
    }
}

/// Once every explicitly removed entity is unlinked, what is left is a well formed tree
/// whose lists are the old ones without the collected entities.
proof fn lemma_collected_tree(
    m0: Map<EntityId, Entity>,
    kids0: Map<EntityId, Seq<EntityId>>,
    roots0: Seq<EntityId>,
    depth0: Map<EntityId, nat>,
    fr0: Option<EntityId>,
    killed: Set<EntityId>,
    orphans: Set<EntityId>,
    doomed: Set<EntityId>,
    m: Map<EntityId, Entity>,
    first_root: Option<EntityId>,
)
    requires
        tree_ok(m0, kids0, roots0, depth0, fr0),
        doom_ok(m0, killed, orphans, doomed),
        unlink_ok(m0, kids0, roots0, killed, orphans, doomed, killed, m, first_root),
    ensures
        tree_ok(
            m,
            Map::new(|e: EntityId| m.contains_key(e), |e: EntityId| without(kids0[e], doomed)),
            without(roots0, doomed),
            Map::new(|e: EntityId| m.contains_key(e), |e: EntityId| depth0[e]),
            first_root,
        ),
{
    reveal(unlink_ok);
    lemma_tree_parts(m0, kids0, roots0, depth0, fr0);
    let k2 = Map::new(|e: EntityId| m.contains_key(e), |e: EntityId| without(kids0[e], doomed));
    let r2 = without(roots0, doomed);
    let d2 = Map::new(|e: EntityId| m.contains_key(e), |e: EntityId| depth0[e]);
    assert forall|e: EntityId| #[trigger] m.contains_key(e) == (m0.contains_key(e) && !doomed.contains(e)) by {}
    assert(m.dom().finite()) by {
        assert(m.dom().subset_of(m0.dom()));
        vstd::set_lib::lemma_len_subset(m.dom(), m0.dom());
    }
    assert(k2.dom() =~= m.dom());
    assert(d2.dom() =~= m.dom());
    assert forall|i: int| 0 <= i < roots0.len() implies killed.contains(#[trigger] roots0[i])
        == doomed.contains(roots0[i]) by {
        assert(m0[roots0[i]].parent is None);
    }
    lemma_without_congruent(roots0, killed, doomed);
    lemma_without_no_duplicates(roots0, doomed);
    assert forall|p: EntityId| #[trigger] m.contains_key(p) implies without(kids0[p], killed) == k2[p] by {
        assert forall|i: int| 0 <= i < kids0[p].len() implies killed.contains(#[trigger] kids0[p][i])
            == doomed.contains(kids0[p][i]) by {
            assert(m0[kids0[p][i]].parent == Some(p));
        }
        lemma_without_congruent(kids0[p], killed, doomed);
    }
    assert(alive_ok(m));
    assert forall|i: int| 0 <= i < r2.len() implies (#[trigger] m[r2[i]]).parent is None by {
        lemma_without_contains(roots0, doomed, r2[i]);
        assert(r2.contains(r2[i]));
        let k = choose|k: int| 0 <= k < roots0.len() && roots0[k] == r2[i];
        assert(m0[roots0[k]].parent is None);
    }
    assert forall|e: EntityId| #[trigger] m.contains_key(e) implies {
        &&& m[e].child == first_of(k2[e])
        &&& k2[e].no_duplicates()
        &&& linked(m, k2[e])
    } by {
        assert(kids0[e] == kids0[e]);
        lemma_without_no_duplicates(kids0[e], doomed);
    }
    assert forall|e: EntityId, i: int|
        m.contains_key(e) && 0 <= i < k2[e].len() implies m[#[trigger] k2[e][i]].parent == Some(e) by {
        let c = k2[e][i];
        lemma_without_contains(kids0[e], doomed, c);
        assert(k2[e].contains(c));
        let k = choose|k: int| 0 <= k < kids0[e].len() && kids0[e][k] == c;
        assert(m0[kids0[e][k]].parent == Some(e));
        assert(m0.contains_key(c));
    }
    assert(lists_ok(m, k2, r2));
    assert forall|e: EntityId| #[trigger] m.contains_key(e) implies match m[e].parent {
        None => r2.contains(e),
        Some(p) => m.contains_key(p) && k2[p].contains(e) && d2[e] == d2[p] + 1,
    } by {
        match m0[e].parent {
            None => {
                lemma_without_contains(roots0, doomed, e);
            },
            Some(p) => {
                assert(!doomed.contains(p));
                lemma_without_contains(kids0[p], doomed, e);
            },
        }
    }
}

} // verus!

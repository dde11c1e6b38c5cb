//! The tree: an arena of chunks, the free list that runs through the unused
//! ones, and point lookup.

use crate::child::Child;
use crate::chunk::{Chunk, Compression, Info};
use crate::coords::{cell, chunk_index, lemma_cell_ends, lemma_cell_step, join, slot_of, Pos};
use crate::leaf::Leaf;
use vstd::prelude::*;

verus! {

/// Why a tree could not be made.
#[derive(Copy, Clone, PartialEq, Eq, Structural, Debug)]
pub enum ConfigError {
    /// The depth is not in `2..=8`.
    Depth,
    /// The number of nodes is not in `depth..=32767`.
    MaxNodes,
}

/// The address of a child slot in the arena: the index of its chunk and
/// its index within the chunk.
#[derive(Copy, Clone, PartialEq, Eq, Structural, Debug)]
pub struct SlotRef {
    pub chunk: u16,
    pub index: u16,
}

/// Where a chunk lies: its level (0 at the bottom) and, along each axis, the
/// coordinate of the cell one level up that the chunk fills.
pub struct Place {
    pub level: int,
    pub x: int,
    pub y: int,
    pub z: int,
}

/// The place of the chunk that slot `s` of a chunk at `p` refers to.
pub open spec fn child_place(p: Place, s: int) -> Place {
    Place { level: p.level - 1, x: 16 * p.x + s % 16, y: 16 * p.y + (s / 16) % 16, z: 16 * p.z + s / 256 }
}

/// Where a lookup ends: the slot that holds the leaf, and the leaf.
pub struct Found {
    pub chunk: int,
    pub level: int,
    pub child: Child,
}

/// An octree-like structure with 16^3 = 4096 children per node, which stores
/// box types at its leaves. A tree of depth `d` spans `16^d` boxes along each
/// axis and wraps around at that width.
pub struct Tree<C: Compression> {
    pub(crate) chunks_: Vec<Chunk<Child>>,
    pub(crate) infos_: Vec<Info>,
    pub(crate) depth_: u8,
    pub(crate) first_free_node_: u16,
    pub(crate) num_free_nodes_: u16,
    pub(crate) compression_: C,
    pub(crate) places_: Ghost<Seq<Place>>,
}

impl<C: Compression> Tree<C> {
    /// The number of levels.
    pub open(crate) spec fn spec_depth(&self) -> int {
        self.depth_ as int
    }

    /// The number of nodes that the arena holds, used or free.
    pub open(crate) spec fn capacity(&self) -> int {
        self.chunks_@.len() as int
    }

    /// The number of nodes on the free list.
    pub open(crate) spec fn spec_num_free_nodes(&self) -> int {
        self.num_free_nodes_ as int
    }

    /// The head of the free list, 0 where the list is empty.
    pub open(crate) spec fn spec_first_free_node(&self) -> int {
        self.first_free_node_ as int
    }

    /// The chunks of the arena, by index.
    pub open(crate) spec fn chunks_view(&self) -> Seq<Chunk<Child>> {
        self.chunks_@
    }

    /// The bookkeeping records of the arena, by index.
    pub open(crate) spec fn infos_view(&self) -> Seq<Info> {
        self.infos_@
    }

    /// The compression strategy that the tree carries.
    pub open(crate) spec fn compression(&self) -> C {
        self.compression_
    }

    /// The number of nodes in use, the root among them.
    pub(crate) open spec fn used(&self) -> int {
        self.chunks_@.len() - self.num_free_nodes_
    }

    /// Slot `s` of chunk `c`.
    pub open spec fn slot(&self, c: int, s: int) -> Child {
        self.chunks_view()[c].children@[s]
    }

    /// The lookup of `(x, y, z)` from chunk `c` at level `l` on: down through
    /// node references until a leaf turns up.
    pub open spec fn probe_from(&self, c: int, l: int, x: int, y: int, z: int) -> Found
        decreases l,
    {
        let child = self.slot(c, slot_of(x, y, z, l));
        if child.is_node() && l > 0 {
            self.probe_from(child.node_index() as int, l - 1, x, y, z)
        } else {
            Found { chunk: c, level: l, child: child }
        }
    }

    /// The lookup of `(x, y, z)` from the root.
    pub open spec fn probe(&self, x: int, y: int, z: int) -> Found {
        self.probe_from(0, self.spec_depth() - 1, x, y, z)
    }

    /// The chunk of level `l` on the way from chunk `c` of level `lc` down to
    /// `(x, y, z)`; the chunk in which the way ends, where it ends above `l`.
    pub open spec fn way_from(&self, c: int, lc: int, x: int, y: int, z: int, l: int) -> int
        decreases lc,
    {
        let child = self.slot(c, slot_of(x, y, z, lc));
        if lc > l && lc > 0 && child.is_node() {
            self.way_from(child.node_index() as int, lc - 1, x, y, z, l)
        } else {
            c
        }
    }

    /// The index of the chunk of level `l` on the way from the root down to
    /// `(x, y, z)`, for a level from that of the position's leaf upward.
    pub open spec fn way(&self, x: int, y: int, z: int, l: int) -> int {
        self.way_from(0, self.spec_depth() - 1, x, y, z, l)
    }

    /// The leaf that holds the box at `(x, y, z)`. The coordinates are read
    /// modulo the width of the world.
    pub open spec fn at(&self, x: int, y: int, z: int) -> Child {
        self.probe(x, y, z).child
    }

    /// The level of the slot that holds the leaf for `(x, y, z)`: 0 where the
    /// path to the box is built out to the bottom, and the number of chunks that
    /// it still lacks elsewhere.
    pub open spec fn leaf_level(&self, x: int, y: int, z: int) -> int {
        self.probe(x, y, z).level
    }

    /// A chunk on the free list: slot 0 holds the index of the next one (0
    /// at the end), the rest is void, the record is fresh.
    pub open(crate) spec fn free_chunk_ok(&self, c: int) -> bool {
        &&& self.slot(c, 0).value == (if c + 1 < self.chunks_@.len() {
            c + 1
        } else {
            0
        })
        &&& forall|s: int| 1 <= s < 4096 ==> (#[trigger] self.slot(c, s)).value == 0
        &&& self.infos_@[c] == Info::spec_fresh()
    }

    /// The arena: sizes, and the free list, which runs in ascending order
    /// through all chunks above those in use.
    pub open(crate) spec fn arena_ok(&self) -> bool {
        &&& 2 <= self.depth_ <= 8
        &&& self.depth_ <= self.chunks_@.len() <= 32767
        &&& self.infos_@.len() == self.chunks_@.len()
        &&& self.places_@.len() == self.chunks_@.len()
        &&& self.num_free_nodes_ < self.chunks_@.len()
        &&& self.first_free_node_ == (if self.num_free_nodes_ == 0 {
            0
        } else {
            self.used()
        })
        &&& forall|c: int| self.used() <= c < self.chunks_@.len() ==> #[trigger] self.free_chunk_ok(c)
    }

    /// A chunk in use lies within the world.
    pub open(crate) spec fn place_ok(&self, c: int) -> bool {
        let p = self.places_@[c];
        let n = crate::coords::pow16(self.depth_ - 1 - p.level);
        &&& 0 <= p.level < self.depth_
        &&& 0 <= p.x < n
        &&& 0 <= p.y < n
        &&& 0 <= p.z < n
    }

    /// A chunk in use other than the root hangs in the slot of its parent
    /// that its place gives.
    pub open(crate) spec fn linked(&self, c: int) -> bool {
        let p = self.places_@[c];
        let up = self.infos_@[c].parent_index as int;
        &&& 0 <= up < c
        &&& self.places_@[up] == (Place { level: p.level + 1, x: p.x / 16, y: p.y / 16, z: p.z / 16 })
        &&& self.slot(up, join(p.x % 16, p.y % 16, p.z % 16)).value == 0x8000 + c
    }

    /// A slot of a chunk in use: a node reference leads to a chunk in use
    /// that lies where the slot does; a leaf above the bottom is void; a leaf
    /// is void or solid.
    pub open(crate) spec fn slot_ok(&self, c: int, s: int) -> bool {
        let child = self.slot(c, s);
        if child.is_node() {
            let t = child.node_index() as int;
            &&& 0 < t < self.used()
            &&& self.places_@[t] == child_place(self.places_@[c], s)
        } else {
            &&& self.places_@[c].level > 0 ==> child.value == 0
            &&& child.value == 0 || child.is_solid()
        }
    }

    /// The shape: the chunks in use form a tree under the root.
    pub open(crate) spec fn shape_ok(&self) -> bool {
        &&& self.places_@[0] == (Place { level: self.depth_ - 1, x: 0, y: 0, z: 0 })
        &&& self.infos_@[0].parent_index == 0
        &&& forall|c: int| 0 <= c < self.used() ==> #[trigger] self.place_ok(c)
        &&& forall|c: int| 1 <= c < self.used() ==> #[trigger] self.linked(c)
        &&& forall|c: int, s: int|
            0 <= c < self.used() && 0 <= s < 4096 ==> #[trigger] self.slot_ok(c, s)
        &&& forall|c: int, e: int|
            0 <= c < self.used() && 0 <= e < self.used() && #[trigger] self.places_@[c]
                == #[trigger] self.places_@[e] ==> c == e
    }

    /// The record of a chunk in use counts the boxes of the chunk.
    pub open(crate) spec fn counted(&self, c: int) -> bool {
        &&& self.infos_@[c].num_void_children == 4096 + crate::chunk::boxes(
            self.chunks_@[c].children@,
            4096,
        )
        &&& self.infos_@[c].num_solid_children == 0
        &&& self.infos_@[c].num_surface_children == 0
    }

    /// The records of the chunks in use count the boxes of their chunks.
    pub open(crate) spec fn counters_ok(&self) -> bool {
        forall|c: int| 0 <= c < self.used() ==> #[trigger] self.counted(c)
    }

    /// Well-formedness: what every tree that this module hands out satisfies.
    pub open(crate) spec fn wf(&self) -> bool {
        &&& self.arena_ok()
        &&& self.shape_ok()
        &&& self.surface_ok()
        &&& self.counters_ok()
    }

    /// Whether the position `(x, y, z)` lies in the part of the world that
    /// chunk `c` fills.
    pub open(crate) spec fn holds(&self, c: int, x: int, y: int, z: int) -> bool {
        let p = self.places_@[c];
        &&& cell(x, p.level + 1, self.depth_ as int) == p.x
        &&& cell(y, p.level + 1, self.depth_ as int) == p.y
        &&& cell(z, p.level + 1, self.depth_ as int) == p.z
    }

    /// The lookup of a position passes through every chunk in use that holds it.
    pub(crate) proof fn lemma_probe_reaches(&self, c: int, x: int, y: int, z: int)
        requires
            self.arena_ok(),
            self.shape_ok(),
            0 <= c < self.used(),
            self.holds(c, x, y, z),
        ensures
            self.probe_from(c, self.places_@[c].level, x, y, z) == self.probe(x, y, z),
        decreases c,
    {
        if c > 0 {
            let p = self.places_@[c];
            let up = self.infos_@[c].parent_index as int;
            let d = self.depth_ as int;
            assert(self.linked(c));
            assert(self.place_ok(c));
            assert(self.place_ok(up));
            lemma_cell_step(x, p.level + 1, d);
            lemma_cell_step(y, p.level + 1, d);
            lemma_cell_step(z, p.level + 1, d);
            self.lemma_probe_reaches(up, x, y, z);
            assert(self.slot(up, slot_of(x, y, z, p.level + 1)).node_index() == c);
        }
    }

    /// One step of a lookup: the slot that it reads in a chunk that holds the
    /// position, and where a node reference in that slot leads.
    pub(crate) proof fn lemma_step_down(&self, c: int, x: int, y: int, z: int)
        requires
            self.arena_ok(),
            self.shape_ok(),
            0 <= c < self.used(),
            self.holds(c, x, y, z),
        ensures
            0 <= slot_of(x, y, z, self.places_@[c].level) < 4096,
            0 <= self.places_@[c].level < self.depth_,
            self.slot(c, slot_of(x, y, z, self.places_@[c].level)).is_node() ==> {
                let t = self.slot(c, slot_of(x, y, z, self.places_@[c].level)).node_index() as int;
                &&& self.places_@[c].level > 0
                &&& 0 < t < self.used()
                &&& self.places_@[t].level == self.places_@[c].level - 1
                &&& self.holds(t, x, y, z)
            },
            !self.slot(c, slot_of(x, y, z, self.places_@[c].level)).is_node() ==> {
                let child = self.slot(c, slot_of(x, y, z, self.places_@[c].level));
                &&& self.places_@[c].level > 0 ==> child.value == 0
                &&& child.value == 0 || child.is_solid()
            },
    {
        let d = self.depth_ as int;
        let p = self.places_@[c];
        let l = p.level;
        let s = slot_of(x, y, z, l);
        assert(self.place_ok(c));
        crate::coords::lemma_nib_bound(x, l);
        crate::coords::lemma_nib_bound(y, l);
        crate::coords::lemma_nib_bound(z, l);
        crate::coords::lemma_join_parts(
            crate::coords::nib(x, l),
            crate::coords::nib(y, l),
            crate::coords::nib(z, l),
        );
        assert(self.slot_ok(c, s));
        if self.slot(c, s).is_node() {
            let t = self.slot(c, s).node_index() as int;
            assert(self.place_ok(t));
            assert(cell(x, l, d) == 16 * p.x + s % 16) by {
                lemma_cell_step(x, l, d);
            }
            assert(cell(y, l, d) == 16 * p.y + (s / 16) % 16) by {
                lemma_cell_step(y, l, d);
            }
            assert(cell(z, l, d) == 16 * p.z + s / 256) by {
                lemma_cell_step(z, l, d);
            }
        }
    }

    /// Positions that a chunk at the bottom holds in the same slot name the
    /// same box.
    pub(crate) proof fn lemma_same_slot(&self, c: int, a: int, b: int, e: int, x: int, y: int, z: int)
        requires
            self.arena_ok(),
            0 <= c < self.used(),
            self.places_@[c].level == 0,
            self.holds(c, a, b, e),
            self.holds(c, x, y, z),
            slot_of(a, b, e, 0) == slot_of(x, y, z, 0),
        ensures
            crate::coords::same_place(a, x, self.depth_ as int),
            crate::coords::same_place(b, y, self.depth_ as int),
            crate::coords::same_place(e, z, self.depth_ as int),
    {
        let d = self.depth_ as int;
        crate::coords::lemma_same_cell_down(a, b, e, x, y, z, 0, d);
        lemma_cell_ends(a, d);
        lemma_cell_ends(b, d);
        lemma_cell_ends(e, d);
        lemma_cell_ends(x, d);
        lemma_cell_ends(y, d);
        lemma_cell_ends(z, d);
    }

    /// Positions that name the same box are held by the same chunks and read
    /// in the same slots.
    pub(crate) proof fn lemma_same_box_holds(
        &self,
        c: int,
        a: int,
        b: int,
        e: int,
        x: int,
        y: int,
        z: int,
    )
        requires
            self.arena_ok(),
            self.shape_ok(),
            0 <= c < self.used(),
            crate::coords::same_place(a, x, self.depth_ as int),
            crate::coords::same_place(b, y, self.depth_ as int),
            crate::coords::same_place(e, z, self.depth_ as int),
        ensures
            self.holds(c, a, b, e) == self.holds(c, x, y, z),
            slot_of(a, b, e, self.places_@[c].level) == slot_of(x, y, z, self.places_@[c].level),
    {
        let d = self.depth_ as int;
        let l = self.places_@[c].level;
        assert(self.place_ok(c));
        crate::coords::lemma_same_place_cell(a, x, l + 1, d);
        crate::coords::lemma_same_place_cell(b, y, l + 1, d);
        crate::coords::lemma_same_place_cell(e, z, l + 1, d);
        crate::coords::lemma_same_place_nib(a, x, l, d);
        crate::coords::lemma_same_place_nib(b, y, l, d);
        crate::coords::lemma_same_place_nib(e, z, l, d);
    }

    /// The root holds every position.
    pub(crate) proof fn lemma_root_holds(&self, x: int, y: int, z: int)
        requires
            self.arena_ok(),
            self.shape_ok(),
        ensures
            self.holds(0, x, y, z),
            0 < self.used(),
    {
        let d = self.depth_ as int;
        lemma_cell_ends(x, d);
        lemma_cell_ends(y, d);
        lemma_cell_ends(z, d);
    }

    /// Where a lookup ends: in a slot of a chunk in use, at the level of
    /// the chunk, and the slot holds a leaf.
    pub(crate) proof fn lemma_probe_lands_from(&self, c: int, x: int, y: int, z: int)
        requires
            self.arena_ok(),
            self.shape_ok(),
            0 <= c < self.used(),
            self.holds(c, x, y, z),
        ensures
            ({
                let found = self.probe_from(c, self.places_@[c].level, x, y, z);
                &&& 0 <= found.chunk < self.used()
                &&& found.level == self.places_@[found.chunk].level
                &&& 0 <= found.level <= self.places_@[c].level
                &&& self.holds(found.chunk, x, y, z)
                &&& found.child == self.slot(found.chunk, slot_of(x, y, z, found.level))
                &&& !found.child.is_node()
                &&& found.level > 0 ==> found.child.value == 0
                &&& found.child.value == 0 || found.child.is_solid()
            }),
        decreases self.places_@[c].level,
    {
        let l = self.places_@[c].level;
        let child = self.slot(c, slot_of(x, y, z, l));
        self.lemma_step_down(c, x, y, z);
        if child.is_node() && l > 0 {
            self.lemma_probe_lands_from(child.node_index() as int, x, y, z);
        }
    }

    /// Where the lookup of a position ends: in a slot of a chunk in use, at
    /// the level of the chunk, and the slot holds a leaf.
    pub(crate) proof fn lemma_probe_lands(&self, x: int, y: int, z: int)
        requires
            self.arena_ok(),
            self.shape_ok(),
        ensures
            ({
                let found = self.probe(x, y, z);
                &&& 0 <= found.chunk < self.used()
                &&& found.level == self.places_@[found.chunk].level
                &&& 0 <= found.level < self.depth_
                &&& self.holds(found.chunk, x, y, z)
                &&& found.child == self.slot(found.chunk, slot_of(x, y, z, found.level))
                &&& !found.child.is_node()
                &&& found.level > 0 ==> found.child.value == 0
                &&& found.child.value == 0 || found.child.is_solid()
            }),
    {
        self.lemma_root_holds(x, y, z);
        self.lemma_probe_lands_from(0, x, y, z);
    }

    /// Lookups of positions that name the same box go the same way.
    pub(crate) proof fn lemma_probe_wrap_from(
        &self,
        c: int,
        l: int,
        a: int,
        b: int,
        e: int,
        x: int,
        y: int,
        z: int,
    )
        requires
            0 <= l < self.depth_,
            crate::coords::same_place(a, x, self.depth_ as int),
            crate::coords::same_place(b, y, self.depth_ as int),
            crate::coords::same_place(e, z, self.depth_ as int),
        ensures
            self.probe_from(c, l, a, b, e) == self.probe_from(c, l, x, y, z),
        decreases l,
    {
        let d = self.depth_ as int;
        crate::coords::lemma_same_place_nib(a, x, l, d);
        crate::coords::lemma_same_place_nib(b, y, l, d);
        crate::coords::lemma_same_place_nib(e, z, l, d);
        let child = self.slot(c, slot_of(a, b, e, l));
        if child.is_node() && l > 0 {
            self.lemma_probe_wrap_from(child.node_index() as int, l - 1, a, b, e, x, y, z);
        }
    }

    /// Positions that name the same box hold the same leaf, found at the
    /// same level.
    pub(crate) proof fn lemma_probe_wrap(&self, a: int, b: int, e: int, x: int, y: int, z: int)
        requires
            self.depth_ >= 1,
            crate::coords::same_place(a, x, self.depth_ as int),
            crate::coords::same_place(b, y, self.depth_ as int),
            crate::coords::same_place(e, z, self.depth_ as int),
        ensures
            self.probe(a, b, e) == self.probe(x, y, z),
            self.at(a, b, e) == self.at(x, y, z),
            self.leaf_level(a, b, e) == self.leaf_level(x, y, z),
    {
        self.lemma_probe_wrap_from(0, self.depth_ - 1, a, b, e, x, y, z);
    }

    /// The leaves of two positions, from a chunk on that holds both: the
    /// one is found no higher than the other, or than where the ways part.
    pub(crate) proof fn lemma_pair_from(
        &self,
        c: int,
        a: int,
        b: int,
        e: int,
        x: int,
        y: int,
        z: int,
    )
        requires
            self.arena_ok(),
            self.shape_ok(),
            0 <= c < self.used(),
            self.holds(c, a, b, e),
            self.holds(c, x, y, z),
        ensures
            self.probe_from(c, self.places_@[c].level, a, b, e).level <= vstd::math::max(
                crate::coords::fork_below(
                    a,
                    b,
                    e,
                    x,
                    y,
                    z,
                    self.places_@[c].level,
                    self.depth_ as int,
                ),
                self.probe_from(c, self.places_@[c].level, x, y, z).level,
            ),
        decreases self.places_@[c].level,
    {
        let d = self.depth_ as int;
        let l = self.places_@[c].level;
        self.lemma_step_down(c, a, b, e);
        self.lemma_step_down(c, x, y, z);
        self.lemma_probe_lands_from(c, a, b, e);
        if l > 0 && crate::coords::same_cell(a, b, e, x, y, z, l, d) {
            crate::coords::lemma_same_cell_up(a, b, e, x, y, z, l, d);
            let child = self.slot(c, slot_of(a, b, e, l));
            if child.is_node() {
                self.lemma_pair_from(child.node_index() as int, a, b, e, x, y, z);
            }
        }
    }

    /// The leaf of a position is found no higher than the leaf of another,
    /// or than where the ways to the two part.
    pub(crate) proof fn lemma_fork_bound(&self, a: int, b: int, e: int, x: int, y: int, z: int)
        requires
            self.arena_ok(),
            self.shape_ok(),
        ensures
            self.leaf_level(a, b, e) <= vstd::math::max(
                crate::coords::fork(a, b, e, x, y, z, self.depth_ as int),
                self.leaf_level(x, y, z),
            ),
    {
        self.lemma_root_holds(a, b, e);
        self.lemma_root_holds(x, y, z);
        self.lemma_pair_from(0, a, b, e, x, y, z);
    }

    /// The lookups that end in a leaf above the bottom are those of the
    /// positions whose ways part from the way to the leaf's cell below the leaf.
    pub(crate) proof fn lemma_ends_in_fork(
        &self,
        c: int,
        s: int,
        a: int,
        b: int,
        e: int,
        x: int,
        y: int,
        z: int,
    )
        requires
            self.arena_ok(),
            self.shape_ok(),
            0 <= c < self.used(),
            self.places_@[c].level >= 1,
            self.holds(c, x, y, z),
            slot_of(x, y, z, self.places_@[c].level) == s,
            !self.slot(c, s).is_node(),
        ensures
            (self.probe(a, b, e).chunk == c && slot_of(a, b, e, self.places_@[c].level) == s) == (
            crate::coords::fork(a, b, e, x, y, z, self.depth_ as int) < self.places_@[c].level),
            crate::coords::fork(a, b, e, x, y, z, self.depth_ as int) < self.places_@[c].level
                ==> self.leaf_level(a, b, e) == self.places_@[c].level,
    {
        let d = self.depth_ as int;
        let l = self.places_@[c].level;
        assert(self.place_ok(c));
        crate::coords::lemma_fork(a, b, e, x, y, z, d, l);
        self.lemma_probe_lands(a, b, e);
        if self.probe(a, b, e).chunk == c && slot_of(a, b, e, l) == s {
            crate::coords::lemma_same_cell_down(a, b, e, x, y, z, l, d);
        }
        if crate::coords::fork(a, b, e, x, y, z, d) < l {
            crate::coords::lemma_same_cell_up(a, b, e, x, y, z, l, d);
            self.lemma_probe_reaches(c, a, b, e);
        }
    }

    /// The way down from a chunk that holds a position: at each level down to
    /// the position's leaf a chunk in use that holds the position, hung into
    /// the slot of the chunk above that the position reads.
    pub(crate) proof fn lemma_way_from(&self, c: int, x: int, y: int, z: int, l: int)
        requires
            self.arena_ok(),
            self.shape_ok(),
            0 <= c < self.used(),
            self.holds(c, x, y, z),
            self.probe_from(c, self.places_@[c].level, x, y, z).level <= l <= self.places_@[c].level,
        ensures
            ({
                let w = self.way_from(c, self.places_@[c].level, x, y, z, l);
                &&& 0 <= w < self.used()
                &&& self.places_@[w].level == l
                &&& self.holds(w, x, y, z)
                &&& self.probe_from(w, l, x, y, z) == self.probe_from(
                    c,
                    self.places_@[c].level,
                    x,
                    y,
                    z,
                )
                &&& l < self.places_@[c].level ==> {
                    let up = self.way_from(c, self.places_@[c].level, x, y, z, l + 1);
                    &&& self.slot(up, slot_of(x, y, z, l + 1)).value == 0x8000 + w
                    &&& self.infos_@[w].parent_index == up
                    &&& 0 <= up < w
                }
            }),
        decreases self.places_@[c].level,
    {
        let lc = self.places_@[c].level;
        let child = self.slot(c, slot_of(x, y, z, lc));
        self.lemma_step_down(c, x, y, z);
        if lc > l {
            let t = child.node_index() as int;
            self.lemma_way_from(t, x, y, z, l);
            if l + 1 == lc {
                assert(self.way_from(c, lc, x, y, z, l + 1) == c);
                assert(self.way_from(c, lc, x, y, z, l) == t);
                assert(self.linked(t));
                assert(self.place_ok(c));
                assert(self.place_ok(t));
                assert(self.slot_ok(c, slot_of(x, y, z, lc)));
                let up = self.infos_@[t].parent_index as int;
                let s = slot_of(x, y, z, lc);
                let p = self.places_@[c];
                assert((16 * p.x + s % 16) / 16 == p.x);
                assert((16 * p.y + (s / 16) % 16) / 16 == p.y);
                assert((16 * p.z + s / 256) / 16 == p.z);
                assert(self.places_@[up] == self.places_@[c]);
            } else {
                assert(self.way_from(c, lc, x, y, z, l + 1) == self.way_from(
                    t,
                    lc - 1,
                    x,
                    y,
                    z,
                    l + 1,
                ));
            }
        }
    }

    /// The way ends where the lookup ends.
    pub(crate) proof fn lemma_way_ends(&self, c: int, x: int, y: int, z: int, l: int)
        requires
            self.arena_ok(),
            self.shape_ok(),
            0 <= c < self.used(),
            self.holds(c, x, y, z),
            l <= self.probe_from(c, self.places_@[c].level, x, y, z).level,
        ensures
            self.way_from(c, self.places_@[c].level, x, y, z, l) == self.probe_from(
                c,
                self.places_@[c].level,
                x,
                y,
                z,
            ).chunk,
        decreases self.places_@[c].level,
    {
        let lc = self.places_@[c].level;
        let child = self.slot(c, slot_of(x, y, z, lc));
        self.lemma_step_down(c, x, y, z);
        self.lemma_probe_lands_from(c, x, y, z);
        if child.is_node() && lc > 0 {
            self.lemma_way_ends(child.node_index() as int, x, y, z, l);
        }
    }

    /// A chunk in use lies on the way to every position that it holds.
    pub(crate) proof fn lemma_way_reaches(&self, c: int, x: int, y: int, z: int)
        requires
            self.arena_ok(),
            self.shape_ok(),
            0 <= c < self.used(),
            self.holds(c, x, y, z),
        ensures
            self.leaf_level(x, y, z) <= self.places_@[c].level < self.depth_,
            self.way(x, y, z, self.places_@[c].level) == c,
    {
        let l = self.places_@[c].level;
        self.lemma_probe_reaches(c, x, y, z);
        self.lemma_probe_lands_from(c, x, y, z);
        self.lemma_root_holds(x, y, z);
        assert(self.place_ok(c));
        self.lemma_way_from(0, x, y, z, l);
    }

    /// Creates an empty tree of the given depth with room for `max_nodes` nodes.
    pub fn new(depth: u8, max_nodes: u16, compression: C) -> (r: Result<Self, ConfigError>)
        ensures
            r is Ok <==> 2 <= depth <= 8 && depth <= max_nodes <= 32767,
            r == Err::<Self, ConfigError>(ConfigError::Depth) <==> !(2 <= depth <= 8),
            r matches Ok(t) ==> {
                &&& t.wf()
                &&& t.spec_depth() == depth
                &&& t.capacity() == max_nodes
                &&& t.spec_num_free_nodes() == max_nodes - 1
                &&& t.spec_first_free_node() == 1
                &&& t.compression() == compression
                &&& forall|x: int, y: int, z: int| (#[trigger] t.at(x, y, z)).value == 0
                &&& forall|x: int, y: int, z: int| #[trigger] t.leaf_level(x, y, z) == depth - 1
                &&& forall|c: int, s: int|
                    0 <= c < max_nodes && 0 <= s < 4096 ==> (
                    #[trigger] t.chunks_view()[c].children@[s]).value == (if s == 0 && 1 <= c
                        && c + 1 < max_nodes {
                        c + 1
                    } else {
                        0
                    })
                &&& forall|c: int|
                    0 <= c < max_nodes ==> #[trigger] t.infos_view()[c] == Info::spec_fresh()
            },
    {
        if depth < 2 || depth > 8 {
            return Err(ConfigError::Depth);
        }
        if max_nodes < (depth as u16) || max_nodes > 32767 {
            return Err(ConfigError::MaxNodes);
        }
        let mut chunks: Vec<Chunk<Child>> = Vec::new();
        let mut infos: Vec<Info> = Vec::new();
        let ghost mut places: Seq<Place> = Seq::empty();
        let ghost root = Place { level: depth - 1, x: 0, y: 0, z: 0 };
        let mut i: u16 = 0;
        while i < max_nodes
            invariant
                i <= max_nodes <= 32767,
                chunks@.len() == i,
                infos@.len() == i,
                places.len() == i,
                forall|c: int| 0 <= c < i ==> #[trigger] infos@[c] == Info::spec_fresh(),
                forall|c: int| 0 <= c < i ==> #[trigger] places[c] == root,
                forall|c: int, s: int|
                    0 <= c < i && 0 <= s < 4096 ==> (#[trigger] chunks@[c].children@[s]).value == (
                    if s == 0 && c >= 1 && c + 1 < max_nodes {
                        c + 1
                    } else {
                        0
                    }),
            decreases max_nodes - i,
        {
            let mut chunk = Chunk::void();
            if i >= 1 && i + 1 < max_nodes {
                chunk.children[0] = Child::new(i + 1);
            }
            assert(forall|s: int|
                0 <= s < 4096 ==> (#[trigger] chunk.children@[s]).value == (if s == 0 && i >= 1 && i
                    + 1 < max_nodes {
                    i + 1
                } else {
                    0
                }));
            let ghost before = chunks@;
            chunks.push(chunk);
            assert forall|c: int, s: int| 0 <= c < i + 1 && 0 <= s < 4096 implies (
            #[trigger] chunks@[c].children@[s]).value == (if s == 0 && c >= 1 && c + 1 < max_nodes {
                c + 1
            } else {
                0
            }) by {
                if c < i {
                    assert(chunks@[c] == before[c]);
                    assert(before[c].children@[s].value == chunks@[c].children@[s].value);
                } else {
                    assert(chunks@[c] == chunk);
                }
            }
            infos.push(Info::fresh());
            proof {
                places = places.push(root);
            }
            i = i + 1;
        }
        let tree = Tree {
            chunks_: chunks,
            infos_: infos,
            depth_: depth,
            first_free_node_: 1,
            num_free_nodes_: max_nodes - 1,
            compression_: compression,
            places_: Ghost(places),
        };
        proof {
            assert(tree.used() == 1);
            assert forall|c: int| tree.used() <= c < tree.chunks_@.len() implies #[trigger] tree.free_chunk_ok(c) by {
                assert(tree.slot(c, 0) == tree.chunks_@[c].children@[0]);
            }
            assert(crate::coords::pow16(0) == 1) by {
                crate::coords::lemma_pow16_values();
            }
            assert(tree.place_ok(0));
            assert forall|s: int| 0 <= s < 4096 implies #[trigger] tree.slot_ok(0, s) by {
                assert(tree.slot(0, s) == tree.chunks_@[0].children@[s]);
            }
            assert forall|x: int, y: int, z: int|
                #![trigger tree.at(x, y, z)]
                #![trigger tree.leaf_level(x, y, z)]
                tree.at(x, y, z).value == 0 && tree.leaf_level(x, y, z) == depth - 1 by {
                let s = slot_of(x, y, z, depth - 1);
                crate::coords::lemma_nib_bound(x, depth - 1);
                crate::coords::lemma_nib_bound(y, depth - 1);
                crate::coords::lemma_nib_bound(z, depth - 1);
                assert(0 <= s < 4096);
                assert(tree.slot(0, s) == tree.chunks_@[0].children@[s]);
            }
            assert forall|x: int, y: int, z: int| #[trigger] tree.surface_rule(x, y, z) by {
                assert(tree.at(x, y, z).value == 0);
            }
            crate::chunk::lemma_boxes_none(tree.chunks_@[0].children@, 4096);
            assert(tree.counted(0));
        }
        Ok(tree)
    }

    /// The chunks of the arena. Those in use come first; the free list runs
    /// through slot 0 of the others.
    pub fn chunks(&self) -> (r: &[Chunk<Child>])
        ensures
            r@ == self.chunks_view(),
    {
        self.chunks_.as_slice()
    }

    /// The bookkeeping records, with the indices of the chunks.
    pub fn infos(&self) -> (r: &[Info])
        ensures
            r@ == self.infos_view(),
    {
        self.infos_.as_slice()
    }

    /// The number of levels.
    pub fn depth(&self) -> (r: &u8)
        ensures
            *r == self.spec_depth(),
    {
        &self.depth_
    }

    /// The head of the free list, 0 where the list is empty.
    pub fn first_free_node(&self) -> (r: &u16)
        ensures
            *r == self.spec_first_free_node(),
    {
        &self.first_free_node_
    }

    /// The number of nodes on the free list.
    pub fn num_free_nodes(&self) -> (r: &u16)
        ensures
            *r == self.spec_num_free_nodes(),
    {
        &self.num_free_nodes_
    }

    /// Looks the box at a position up: the leaf that holds it, and the level
    /// of the slot in which the leaf was found.
    pub(crate) fn find(&self, pos: Pos) -> (r: (Leaf, u8))
        requires
            self.wf(),
        ensures
            r.0@ == self.at(pos.x as int, pos.y as int, pos.z as int),
            r.1 == self.leaf_level(pos.x as int, pos.y as int, pos.z as int),
            r.1 < self.depth_,
    {
        let mut chunk: u16 = 0;
        let mut level: u8 = self.depth_ - 1;
        loop
            invariant
                self.wf(),
                0 <= chunk < self.used(),
                level < self.depth_,
                self.places_@[chunk as int].level == level,
                self.probe_from(chunk as int, level as int, pos.x as int, pos.y as int, pos.z as int)
                    == self.probe(pos.x as int, pos.y as int, pos.z as int),
            decreases level,
        {
            let index = chunk_index(pos, level);
            let child = self.chunks_[chunk as usize].children[index as usize];
            proof {
                assert(child == self.slot(chunk as int, index as int));
                assert(self.slot_ok(chunk as int, index as int));
            }
            if !child.is_node() {
                return (Leaf::new(child), level);
            }
            proof {
                assert(self.place_ok(child.node_index() as int));
            }
            chunk = child.node_index();
            level = level - 1;
        }
    }

    /// Get the type of the box at a position.
    pub fn get_at_pos(&self, pos: Pos) -> (r: Leaf)
        requires
            self.wf(),
        ensures
            r@ == self.at(pos.x as int, pos.y as int, pos.z as int),
    {
        self.find(pos).0
    }

    /// Finds the slot that holds the leaf of the box at `pos + dir`, where the
    /// sum wraps around at the width of the world along each axis.
    pub(crate) fn locate(&self, pos: Pos, dir: Pos) -> (r: SlotRef)
        requires
            self.arena_ok(),
            self.shape_ok(),
        ensures
            r.chunk < self.used(),
            r.index < 4096,
            self.probe(pos.x + dir.x, pos.y + dir.y, pos.z + dir.z) == (Found {
                chunk: r.chunk as int,
                level: self.places_@[r.chunk as int].level,
                child: self.slot(r.chunk as int, r.index as int),
            }),
            slot_of(
                pos.x + dir.x,
                pos.y + dir.y,
                pos.z + dir.z,
                self.places_@[r.chunk as int].level,
            ) == r.index,
            self.holds(r.chunk as int, pos.x + dir.x, pos.y + dir.y, pos.z + dir.z),
            r.chunk == self.way(
                pos.x + dir.x,
                pos.y + dir.y,
                pos.z + dir.z,
                self.leaf_level(pos.x + dir.x, pos.y + dir.y, pos.z + dir.z),
            ),
    {
        let to = crate::coords::displace(pos, dir, self.depth_);
        let ghost (x, y, z) = (pos.x + dir.x, pos.y + dir.y, pos.z + dir.z);
        let ghost d = self.depth_ as int;
        proof {
            crate::coords::lemma_pow16_pos(d);
            assert(crate::coords::same_place(to.x as int, x, d)) by {
                vstd::arithmetic::div_mod::lemma_mod_twice(x, crate::coords::pow16(d));
            }
            assert(crate::coords::same_place(to.y as int, y, d)) by {
                vstd::arithmetic::div_mod::lemma_mod_twice(y, crate::coords::pow16(d));
            }
            assert(crate::coords::same_place(to.z as int, z, d)) by {
                vstd::arithmetic::div_mod::lemma_mod_twice(z, crate::coords::pow16(d));
            }
            self.lemma_probe_wrap(to.x as int, to.y as int, to.z as int, x, y, z);
            self.lemma_root_holds(to.x as int, to.y as int, to.z as int);
            self.lemma_root_holds(x, y, z);
            self.lemma_way_ends(0, x, y, z, self.leaf_level(x, y, z));
        }
        let mut chunk: u16 = 0;
        let mut level: u8 = self.depth_ - 1;
        loop
            invariant
                self.arena_ok(),
                self.shape_ok(),
                0 <= chunk < self.used(),
                level < self.depth_,
                self.places_@[chunk as int].level == level,
                self.holds(chunk as int, to.x as int, to.y as int, to.z as int),
                self.probe_from(chunk as int, level as int, to.x as int, to.y as int, to.z as int)
                    == self.probe(x, y, z),
                crate::coords::same_place(to.x as int, x, d),
                crate::coords::same_place(to.y as int, y, d),
                crate::coords::same_place(to.z as int, z, d),
                d == self.depth_,
                x == pos.x + dir.x,
                y == pos.y + dir.y,
                z == pos.z + dir.z,
                self.way(x, y, z, self.leaf_level(x, y, z)) == self.probe(x, y, z).chunk,
            decreases level,
        {
            proof {
                self.lemma_step_down(chunk as int, to.x as int, to.y as int, to.z as int);
            }
            let at = chunk_index(to, level);
            let child = self.chunks_[chunk as usize].children[at as usize];
            proof {
                assert(child == self.slot(chunk as int, at as int));
            }
            if !child.is_node() {
                proof {
                    self.lemma_same_box_holds(
                        chunk as int,
                        to.x as int,
                        to.y as int,
                        to.z as int,
                        x,
                        y,
                        z,
                    );
                }
                return SlotRef { chunk: chunk, index: at };
            }
            chunk = child.node_index();
            level = level - 1;
        }
    }

    /// Finds the slot that holds the leaf of the box at `pos + dir`, where the
    /// sum wraps around at the width of the world along each axis. `index` is
    /// the index of the slot of the box at `pos` in its chunk; the way to the
    /// neighbour starts at the root and does not consult it.
    pub fn neighbor_mut(&self, index: u16, pos: Pos, dir: Pos) -> (r: SlotRef)
        requires
            self.wf(),
        ensures
            r.chunk < self.capacity(),
            r.index < 4096,
            self.chunks_view()[r.chunk as int].children@[r.index as int] == self.at(
                pos.x + dir.x,
                pos.y + dir.y,
                pos.z + dir.z,
            ),
            r.chunk == self.way(
                pos.x + dir.x,
                pos.y + dir.y,
                pos.z + dir.z,
                self.leaf_level(pos.x + dir.x, pos.y + dir.y, pos.z + dir.z),
            ),
            r.index == slot_of(
                pos.x + dir.x,
                pos.y + dir.y,
                pos.z + dir.z,
                self.leaf_level(pos.x + dir.x, pos.y + dir.y, pos.z + dir.z),
            ),
    {
        self.locate(pos, dir)
    }
}

} // verus!

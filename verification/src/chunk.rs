//! Nodes: a chunk of 4096 child slots and a record of bookkeeping beside it.

use crate::child::Child;
use crate::coords::Pos;
use crate::leaf::{HiddenLeaf, Leaf};
use std::ops::{Deref, DerefMut};
use vstd::prelude::*;

verus! {

/// The children of one node: a cube of 16 x 16 x 16 slots. The slot of the
/// child with the nibbles `(x, y, z)` has the index `x + 16 * y + 256 * z`.
///
/// Where the space of a node holds nothing but one kind of box (empty space
/// included) no chunk is kept for it: the slot in its parent is a leaf.
#[derive(Copy)]
pub struct Chunk<C: Copy> {
    pub children: [C; 4096],
}

impl<C: Copy> Clone for Chunk<C> {
    fn clone(&self) -> (r: Self)
        ensures
            r == *self,
    {
        *self
    }
}

impl<C: Copy> Deref for Chunk<C> {
    type Target = [C; 4096];

    fn deref(&self) -> (r: &[C; 4096])
        ensures
            *r == self.children,
    {
        &self.children
    }
}

impl<C: Copy> DerefMut for Chunk<C> {
    fn deref_mut(&mut self) -> (r: &mut [C; 4096])
        ensures
            *r == old(self).children,
            final(self).children == *final(r),
    {
        &mut self.children
    }
}

impl Chunk<Child> {
    /// A chunk of empty space.
    pub fn void() -> (r: Self)
        ensures
            forall|s: int| 0 <= s < 4096 ==> (#[trigger] r.children@[s]).value == 0,
    {
        let void = Child::void();
        Chunk { children: [void;4096] }
    }

    /// The slots as leaves; none of them holds a node reference.
    pub fn as_leaf(&self) -> (r: Chunk<Leaf>)
        requires
            forall|s: int| 0 <= s < 4096 ==> !(#[trigger] self.children@[s]).is_node(),
        ensures
            forall|s: int| 0 <= s < 4096 ==> (#[trigger] r.children@[s])@ == self.children@[s],
    {
        let mut r = Chunk { children: [Leaf::void();4096] };
        let mut i: usize = 0;
        while i < 4096
            invariant
                i <= 4096,
                forall|s: int| 0 <= s < 4096 ==> !(#[trigger] self.children@[s]).is_node(),
                forall|s: int| 0 <= s < i ==> (#[trigger] r.children@[s])@ == self.children@[s],
            decreases 4096 - i,
        {
            r.children[i] = Leaf::new(self.children[i]);
            i = i + 1;
        }
        r
    }

    /// The slots as leaves whose surface flags have not been computed; none
    /// of them holds a node reference.
    pub fn as_hidden_leaf(&self) -> (r: Chunk<HiddenLeaf>)
        requires
            forall|s: int| 0 <= s < 4096 ==> !(#[trigger] self.children@[s]).is_node(),
        ensures
            forall|s: int| 0 <= s < 4096 ==> (#[trigger] r.children@[s])@ == self.children@[s],
    {
        let mut r = Chunk { children: [HiddenLeaf::from_box_spec(0);4096] };
        let mut i: usize = 0;
        while i < 4096
            invariant
                i <= 4096,
                forall|s: int| 0 <= s < 4096 ==> !(#[trigger] self.children@[s]).is_node(),
                forall|s: int| 0 <= s < i ==> (#[trigger] r.children@[s])@ == self.children@[s],
            decreases 4096 - i,
        {
            r.children[i] = HiddenLeaf::new(self.children[i]);
            i = i + 1;
        }
        r
    }
}

impl Chunk<Leaf> {
    /// The slots of the leaves.
    pub fn as_child(&self) -> (r: Chunk<Child>)
        ensures
            forall|s: int| 0 <= s < 4096 ==> #[trigger] r.children@[s] == self.children@[s]@,
            forall|s: int| 0 <= s < 4096 ==> !(#[trigger] r.children@[s]).is_node(),
    {
        let mut r = Chunk::void();
        let mut i: usize = 0;
        while i < 4096
            invariant
                i <= 4096,
                forall|s: int| 0 <= s < i ==> #[trigger] r.children@[s] == self.children@[s]@,
                forall|s: int| 0 <= s < i ==> !(#[trigger] r.children@[s]).is_node(),
                forall|s: int| i <= s < 4096 ==> !(#[trigger] r.children@[s]).is_node(),
            decreases 4096 - i,
        {
            r.children[i] = *self.children[i].as_child();
            i = i + 1;
        }
        r
    }
}

impl Chunk<HiddenLeaf> {
    /// The leaves with their surface flags as they stand.
    pub fn as_child(&self) -> (r: Chunk<Leaf>)
        ensures
            forall|s: int| 0 <= s < 4096 ==> (#[trigger] r.children@[s])@ == self.children@[s]@,
    {
        let mut r = Chunk { children: [Leaf::void();4096] };
        let mut i: usize = 0;
        while i < 4096
            invariant
                i <= 4096,
                forall|s: int| 0 <= s < i ==> (#[trigger] r.children@[s])@ == self.children@[s]@,
            decreases 4096 - i,
        {
            r.children[i] = Leaf::new(*self.children[i].as_child());
            i = i + 1;
        }
        r
    }
}

/// Whether a slot holds a box: a leaf that is not void.
pub open spec fn holds_box(c: Child) -> bool {
    !c.is_node() && c.value != 0
}

/// The number of boxes in the first `n` of the slots.
pub open spec fn boxes(slots: Seq<Child>, n: int) -> int
    decreases n,
{
    if n <= 0 {
        0
    } else {
        boxes(slots, n - 1) + (if holds_box(slots[n - 1]) {
            1int
        } else {
            0
        })
    }
}

/// Slots that differ in one place differ in their number of boxes by what
/// the place holds.
pub proof fn lemma_boxes_put(a: Seq<Child>, b: Seq<Child>, s: int, n: int)
    requires
        0 <= n,
        forall|i: int| 0 <= i < n && i != s ==> holds_box(#[trigger] a[i]) == holds_box(b[i]),
    ensures
        0 <= boxes(a, n) <= n,
        boxes(b, n) == boxes(a, n) + (if 0 <= s < n && holds_box(b[s]) {
            1int
        } else {
            0
        }) - (if 0 <= s < n && holds_box(a[s]) {
            1int
        } else {
            0
        }),
        0 <= s < n && !holds_box(a[s]) ==> boxes(a, n) < n,
    decreases n,
{
    if n > 0 {
        lemma_boxes_put(a, b, s, n - 1);
        assert(s != n - 1 ==> holds_box(a[n - 1]) == holds_box(b[n - 1]));
    }
}

/// Slots that hold boxes in the same places hold the same number of boxes.
pub proof fn lemma_boxes_same(a: Seq<Child>, b: Seq<Child>, n: int)
    requires
        0 <= n,
        forall|i: int| 0 <= i < n ==> holds_box(#[trigger] a[i]) == holds_box(b[i]),
    ensures
        boxes(b, n) == boxes(a, n),
        0 <= boxes(a, n) <= n,
{
    lemma_boxes_put(a, b, -1, n);
}

/// Slots that are all void hold no box.
pub proof fn lemma_boxes_none(a: Seq<Child>, n: int)
    requires
        0 <= n,
        forall|i: int| 0 <= i < n ==> (#[trigger] a[i]).value == 0,
    ensures
        boxes(a, n) == 0,
    decreases n,
{
    if n > 0 {
        lemma_boxes_none(a, n - 1);
    }
}

/// What a tree keeps beside the chunk of a node.
#[derive(Copy, Clone, PartialEq, Eq, Structural, Debug)]
pub struct Info {
    /// Index of the parent node, 0 for the root.
    pub parent_index: u16,
    /// Counter of void children: 4096 plus the number of boxes placed in the chunk.
    pub num_void_children: u16,
    /// Counter of solid children; nothing maintains it yet.
    pub num_solid_children: u16,
    /// Counter of children on the surface; nothing maintains it yet.
    pub num_surface_children: u16,
}

impl Info {
    /// The record of a node that nothing has been placed in.
    pub fn fresh() -> (r: Self)
        ensures
            r == Info::spec_fresh(),
    {
        Info {
            parent_index: 0,
            num_void_children: 4096,
            num_solid_children: 0,
            num_surface_children: 0,
        }
    }

    /// The record of a node that nothing has been placed in.
    pub open spec fn spec_fresh() -> Info {
        Info {
            parent_index: 0,
            num_void_children: 4096,
            num_solid_children: 0,
            num_surface_children: 0,
        }
    }
}

/// A strategy that stores a chunk of hidden leaves as one leaf and restores
/// it. A tree carries one, and calls it nowhere yet.
pub trait Compression {
    /// Compress a chunk to a leaf.
    fn compress(&mut self, pos: Pos, depth: u8, chunk: &Chunk<HiddenLeaf>) -> Option<HiddenLeaf>;

    /// Decompress a leaf into a chunk.
    fn decompress(&mut self, pos: Pos, depth: u8, leaf: HiddenLeaf, chunk: &mut Chunk<HiddenLeaf>);
}

} // verus!

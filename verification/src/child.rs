//! The 16-bit child slot: either a reference to another node or a leaf that
//! holds a box.
//!
//! ```text
//! bit 15      14        13      12 ........ 0
//!     node    surface   solid   box specifier      (leaf, node bit clear)
//!     node    index of the referenced chunk        (node, node bit set)
//! ```

use crate::leaf::{HiddenLeaf, Leaf};
use std::ops::{Deref, DerefMut};
use vstd::prelude::*;

verus! {

/// Maximal depth of the tree. The largest world is (16^8)^3 = (2^32)^3 boxes.
pub const MAX_DEPTH: u8 = 8;

/// Binary logarithm of the side length of a chunk.
pub const CHUNK_SIDE_LEN_LOG2: u8 = 4;

/// Side length of a chunk.
pub const CHUNK_SIDE_LEN: u8 = 16;

/// Mask for one axis of a chunk index.
pub const CHUNK_SIDE_MASK: u32 = 15;

/// Number of children of a node: 16^3.
pub const CHUNK_LEN: u16 = 4096;

/// Index of the bit that tells a node reference from a leaf.
pub const NODE_BIT: u8 = 15;

/// Mask of the bit that tells a node reference from a leaf.
pub const NODE_BIT_MASK: u16 = 0x8000;

/// Number of bits that hold the index of the referenced node.
pub const NODE_INDEX_BITS: u8 = 15;

/// Mask of the bits that hold the index of the referenced node.
pub const NODE_INDEX_BIT_MASK: u16 = 0x7fff;

/// Index of the bit that marks a leaf as part of the surface.
pub const SURFACE_BIT: u8 = 14;

/// Mask of the bit that marks a leaf as part of the surface.
pub const SURFACE_BIT_MASK: u16 = 0x4000;

/// Index of the bit that marks a leaf as solid (intransparent).
pub const SOLID_BIT: u8 = 13;

/// Mask of the bit that marks a leaf as solid (intransparent).
pub const SOLID_BIT_MASK: u16 = 0x2000;

/// Number of bits of the box specifier.
pub const BOX_SPEC_BITS: u8 = 13;

/// Mask of the bits of the box specifier.
pub const BOX_SPEC_BIT_MASK: u16 = 0x1fff;

/// The value of a slot with the given fields: the sum of the weights of the
/// flags that are set and of the 13-bit box specifier.
pub open spec fn pack(node: bool, surface: bool, solid: bool, box_spec: int) -> int {
    (if node { 0x8000int } else { 0 }) + (if surface { 0x4000int } else { 0 }) + (if solid {
        0x2000int
    } else {
        0
    }) + box_spec
}

/// How the masks of the fields read in arithmetic.
pub proof fn lemma_field_masks(v: u16)
    by (bit_vector)
    ensures
        (v & 0x8000 != 0) <==> v >= 0x8000,
        (v & 0x4000 != 0) <==> (v / 0x4000) % 2 == 1,
        (v & 0x2000 != 0) <==> (v / 0x2000) % 2 == 1,
        v & 0x1fff == v % 0x2000,
        v & 0x3fff == v % 0x4000,
        v & 0x7fff == v % 0x8000,
        0x1fffu16 | 0x2000u16 == 0x3fffu16,
{
}

/// How setting and clearing one flag reads in arithmetic.
pub proof fn lemma_flag_updates(v: u16)
    by (bit_vector)
    ensures
        v | 0x8000 == 0x8000 + v % 0x8000,
        v & !0x8000u16 == v % 0x8000,
        v | 0x4000 == v + (if (v / 0x4000) % 2 == 1 { 0u16 } else { 0x4000u16 }),
        v & !0x4000u16 == v - (if (v / 0x4000) % 2 == 1 { 0x4000u16 } else { 0u16 }),
        v | 0x2000 == v + (if (v / 0x2000) % 2 == 1 { 0u16 } else { 0x2000u16 }),
        v & !0x2000u16 == v - (if (v / 0x2000) % 2 == 1 { 0x2000u16 } else { 0u16 }),
{
}

/// How replacing a whole field reads in arithmetic, for a value `f` that has
/// been masked to the field's width.
pub proof fn lemma_field_updates(v: u16, f: u16)
    by (bit_vector)
    ensures
        (v & !0x1fffu16) | (f & 0x1fff) == v - v % 0x2000 + f % 0x2000,
        (v & !0x3fffu16) | (f & 0x3fff) == v - v % 0x4000 + f % 0x4000,
        (v & !0x7fffu16) | (f & 0x7fff) == v - v % 0x8000 + f % 0x8000,
        0x8000u16 | (f & 0x7fff) == 0x8000 + f % 0x8000,
{
}

/// How a leaf is put together from its fields.
pub proof fn lemma_leaf_parts(surface: u16, solid: u16, f: u16)
    by (bit_vector)
    requires
        surface == 0 || surface == 0x4000,
        solid == 0 || solid == 0x2000,
    ensures
        surface | solid | (f & 0x1fff) == surface + solid + f % 0x2000,
        surface | (f & 0x3fff) == surface + f % 0x4000,
{
}

/// A slot splits into its four fields and is put together from them again.
pub proof fn lemma_pack_fields(v: u16)
    ensures
        v == pack(v >= 0x8000, (v / 0x4000) % 2 == 1, (v / 0x2000) % 2 == 1, (v % 0x2000) as int),
        v % 0x4000 == (if (v / 0x2000) % 2 == 1 { 0x2000int } else { 0 }) + v % 0x2000,
        v % 0x8000 == (if (v / 0x4000) % 2 == 1 { 0x4000int } else { 0 }) + v % 0x4000,
{
}

/// What a child slot holds, read out of its bits.
pub enum Slot {
    /// A reference to the node with the given index.
    Node(u16),
    /// A leaf: a box with its flags and its box specifier, 0 for no box.
    Leaf { surface: bool, solid: bool, box_spec: u16 },
}

/// Child of a node.
#[derive(Copy, Clone, PartialEq, Eq, Structural, Debug)]
pub struct Child {
    pub value: u16,
}

impl View for Child {
    type V = Slot;

    /// What the slot holds: by the node bit a node reference with its index,
    /// or a leaf with its fields.
    open spec fn view(&self) -> Slot {
        if self.value >= 0x8000 {
            Slot::Node((self.value % 0x8000) as u16)
        } else {
            Slot::Leaf {
                surface: (self.value / 0x4000) % 2 == 1,
                solid: (self.value / 0x2000) % 2 == 1,
                box_spec: (self.value % 0x2000) as u16,
            }
        }
    }
}

/// Slots that hold the same hold the same bits.
pub proof fn lemma_view_injective(a: Child, b: Child)
    requires
        a@ == b@,
    ensures
        a == b,
{
    lemma_pack_fields(a.value);
    lemma_pack_fields(b.value);
}

impl Child {
    /// Whether the node bit is set.
    pub open spec fn spec_is_node(&self) -> bool {
        self.value >= 0x8000
    }

    /// Whether the surface bit is set.
    pub open spec fn spec_is_surface(&self) -> bool {
        (self.value / 0x4000) % 2 == 1
    }

    /// Whether the solid bit is set.
    pub open spec fn spec_is_solid(&self) -> bool {
        (self.value / 0x2000) % 2 == 1
    }

    /// Whether this is the void leaf, the slot with no bit set.
    pub open spec fn spec_is_void(&self) -> bool {
        self.value == 0
    }

    /// The low 13 bits.
    pub open spec fn spec_box_spec(&self) -> u16 {
        self.value % 0x2000
    }

    /// The low 14 bits: the solid flag above the box specifier.
    pub open spec fn spec_ext_spec(&self) -> u16 {
        self.value % 0x4000
    }

    /// The low 15 bits.
    pub open spec fn spec_node_index(&self) -> u16 {
        self.value % 0x8000
    }

    /// The slot with the given bits.
    pub fn new(value: u16) -> (r: Self)
        ensures
            r.value == value,
    {
        Child { value: value }
    }

    /// A reference to the node with the given index, of which the low 15 bits count.
    pub fn node_from_index(index: u16) -> (r: Self)
        ensures
            r.value == 0x8000 + index % 0x8000,
            r@ == Slot::Node((index % 0x8000) as u16),
            r.is_node(),
            r.node_index() == index % 0x8000,
    {
        proof {
            lemma_field_updates(0, index);
        }
        Child::new(NODE_BIT_MASK | (index & NODE_INDEX_BIT_MASK))
    }

    /// A leaf with the given flags and box specifier, of which the low 13 bits count.
    pub fn leaf_from_surface_solid_box_spec(surface: bool, solid: bool, spec: u16) -> (r: Self)
        ensures
            r.value == pack(false, surface, solid, (spec % 0x2000) as int),
            r@ == (Slot::Leaf { surface: surface, solid: solid, box_spec: (spec % 0x2000) as u16 }),
            !r.is_node(),
            r.is_surface() == surface,
            r.is_solid() == solid,
            r.box_spec() == spec % 0x2000,
    {
        let a: u16 = if surface { SURFACE_BIT_MASK } else { 0 };
        let b: u16 = if solid { SOLID_BIT_MASK } else { 0 };
        proof {
            lemma_leaf_parts(a, b, spec);
        }
        Child::new(a | b | (spec & BOX_SPEC_BIT_MASK))
    }

    /// A leaf with the given surface flag and extended specifier (the solid
    /// flag above the box specifier), of which the low 14 bits count.
    pub fn leaf_from_surface_ext_spec(surface: bool, spec: u16) -> (r: Self)
        ensures
            r.value == (if surface { 0x4000int } else { 0 }) + spec % 0x4000,
            r@ == (Slot::Leaf {
                surface: surface,
                solid: (spec / 0x2000) % 2 == 1,
                box_spec: (spec % 0x2000) as u16,
            }),
            !r.is_node(),
            r.is_surface() == surface,
            r.ext_spec() == spec % 0x4000,
    {
        let a: u16 = if surface { SURFACE_BIT_MASK } else { 0 };
        proof {
            lemma_leaf_parts(a, 0, spec);
            lemma_field_masks(spec);
        }
        Child::new(a | (spec & (BOX_SPEC_BIT_MASK | SOLID_BIT_MASK)))
    }

    /// The void leaf: empty space.
    pub fn void() -> (r: Self)
        ensures
            r.value == 0,
            r@ == (Slot::Leaf { surface: false, solid: false, box_spec: 0 }),
    {
        Child::leaf_from_surface_ext_spec(false, 0)
    }

    /// Whether this is the void leaf: no bit is set.
    #[verifier::when_used_as_spec(spec_is_void)]
    pub fn is_void(&self) -> (r: bool)
        ensures
            r == (self.value == 0),
    {
        self.value == 0
    }

    /// Whether the slot refers to a node.
    #[verifier::when_used_as_spec(spec_is_node)]
    pub fn is_node(&self) -> (r: bool)
        ensures
            r == (self.value >= 0x8000),
    {
        proof {
            lemma_field_masks(self.value);
        }
        (self.value & NODE_BIT_MASK) != 0
    }

    /// Sets or clears the node bit; the low 15 bits stay.
    pub fn set_node(&mut self, node: bool)
        ensures
            final(self).value == (if node { 0x8000int } else { 0 }) + old(self).value % 0x8000,
    {
        proof {
            lemma_flag_updates(self.value);
        }
        if node {
            self.value = self.value | NODE_BIT_MASK;
        } else {
            self.value = self.value & !NODE_BIT_MASK;
        }
    }

    /// Whether the surface flag is set.
    #[verifier::when_used_as_spec(spec_is_surface)]
    pub fn is_surface(&self) -> (r: bool)
        ensures
            r == ((self.value / 0x4000) % 2 == 1),
    {
        proof {
            lemma_field_masks(self.value);
        }
        (self.value & SURFACE_BIT_MASK) != 0
    }

    /// Sets or clears the surface bit; every other bit stays.
    pub fn set_surface(&mut self, surface: bool)
        ensures
            final(self).value == pack(
                old(self).is_node(),
                surface,
                old(self).is_solid(),
                old(self).box_spec() as int,
            ),
    {
        proof {
            lemma_flag_updates(self.value);
            lemma_pack_fields(self.value);
        }
        if surface {
            self.value = self.value | SURFACE_BIT_MASK;
        } else {
            self.value = self.value & !SURFACE_BIT_MASK;
        }
    }

    /// Whether the solid flag is set.
    #[verifier::when_used_as_spec(spec_is_solid)]
    pub fn is_solid(&self) -> (r: bool)
        ensures
            r == ((self.value / 0x2000) % 2 == 1),
    {
        proof {
            lemma_field_masks(self.value);
        }
        (self.value & SOLID_BIT_MASK) != 0
    }

    /// Sets or clears the solid bit; every other bit stays.
    pub fn set_solid(&mut self, solid: bool)
        ensures
            final(self).value == pack(
                old(self).is_node(),
                old(self).is_surface(),
                solid,
                old(self).box_spec() as int,
            ),
    {
        proof {
            lemma_flag_updates(self.value);
            lemma_pack_fields(self.value);
        }
        if solid {
            self.value = self.value | SOLID_BIT_MASK;
        } else {
            self.value = self.value & !SOLID_BIT_MASK;
        }
    }

    /// The box specifier: the low 13 bits.
    #[verifier::when_used_as_spec(spec_box_spec)]
    pub fn box_spec(&self) -> (r: u16)
        ensures
            r == self.value % 0x2000,
    {
        proof {
            lemma_field_masks(self.value);
        }
        self.value & BOX_SPEC_BIT_MASK
    }

    /// Replaces the box specifier by a value that the caller has not masked:
    /// bits of `box_spec` above the field's 13 are or-ed into the flags.
    pub fn set_box_spec_unmasked(&mut self, box_spec: u16)
        ensures
            final(self).value == (old(self).value & !0x1fffu16) | box_spec,
            box_spec < 0x2000 ==> final(self).value == old(self).value - old(self).value % 0x2000
                + box_spec,
    {
        proof {
            lemma_field_updates(self.value, box_spec);
            lemma_field_masks(box_spec);
        }
        self.value = (self.value & !BOX_SPEC_BIT_MASK) | box_spec;
    }

    /// Replaces the box specifier by the low 13 bits of `box_spec`.
    pub fn set_box_spec(&mut self, box_spec: u16)
        ensures
            final(self).value == old(self).value - old(self).value % 0x2000 + box_spec % 0x2000,
    {
        proof {
            lemma_field_masks(box_spec);
        }
        self.set_box_spec_unmasked(box_spec & BOX_SPEC_BIT_MASK);
    }

    /// The extended specifier: the solid flag above the box specifier.
    #[verifier::when_used_as_spec(spec_ext_spec)]
    pub fn ext_spec(&self) -> (r: u16)
        ensures
            r == self.value % 0x4000,
    {
        proof {
            lemma_field_masks(self.value);
        }
        self.value & (BOX_SPEC_BIT_MASK | SOLID_BIT_MASK)
    }

    /// Replaces the extended specifier by a value that the caller has not
    /// masked: bits of `ext_spec` above the field's 14 are or-ed into the flags.
    pub fn set_ext_spec_unmasked(&mut self, ext_spec: u16)
        ensures
            final(self).value == (old(self).value & !0x3fffu16) | ext_spec,
            ext_spec < 0x4000 ==> final(self).value == old(self).value - old(self).value % 0x4000
                + ext_spec,
    {
        proof {
            lemma_field_updates(self.value, ext_spec);
            lemma_field_masks(ext_spec);
        }
        self.value = (self.value & !(BOX_SPEC_BIT_MASK | SOLID_BIT_MASK)) | ext_spec;
    }

    /// Replaces the extended specifier by the low 14 bits of `ext_spec`.
    pub fn set_ext_spec(&mut self, ext_spec: u16)
        ensures
            final(self).value == old(self).value - old(self).value % 0x4000 + ext_spec % 0x4000,
    {
        proof {
            lemma_field_masks(ext_spec);
        }
        self.set_ext_spec_unmasked(ext_spec & (BOX_SPEC_BIT_MASK | SOLID_BIT_MASK));
    }

    /// The index of the node that the slot refers to: the low 15 bits.
    #[verifier::when_used_as_spec(spec_node_index)]
    pub fn node_index(&self) -> (r: u16)
        ensures
            r == self.value % 0x8000,
    {
        proof {
            lemma_field_masks(self.value);
        }
        self.value & NODE_INDEX_BIT_MASK
    }

    /// Replaces the node index by a value that the caller has not masked: bit
    /// 15 of `node_index` is or-ed into the node bit.
    pub fn set_node_index_unmasked(&mut self, node_index: u16)
        ensures
            final(self).value == (old(self).value & !0x7fffu16) | node_index,
            node_index < 0x8000 ==> final(self).value == old(self).value - old(self).value
                % 0x8000 + node_index,
    {
        proof {
            lemma_field_updates(self.value, node_index);
            lemma_field_masks(node_index);
        }
        self.value = (self.value & !NODE_INDEX_BIT_MASK) | node_index;
    }

    /// Replaces the node index by the low 15 bits of `node_index`.
    pub fn set_node_index(&mut self, node_index: u16)
        ensures
            final(self).value == old(self).value - old(self).value % 0x8000 + node_index % 0x8000,
    {
        proof {
            lemma_field_masks(node_index);
        }
        self.set_node_index_unmasked(node_index & NODE_INDEX_BIT_MASK);
    }

    /// This slot as a leaf; the slot holds no node reference.
    pub fn as_leaf(&self) -> (r: Leaf)
        requires
            !self.is_node(),
        ensures
            r@ == *self,
    {
        Leaf::new(*self)
    }

    /// This slot as a leaf whose surface flag has not been computed; the
    /// slot holds no node reference.
    pub fn as_hidden(&self) -> (r: HiddenLeaf)
        requires
            !self.is_node(),
        ensures
            r@ == *self,
    {
        HiddenLeaf::new(*self)
    }
}

impl Deref for Child {
    type Target = u16;

    fn deref(&self) -> (r: &u16)
        ensures
            *r == self.value,
    {
        &self.value
    }
}

impl DerefMut for Child {
    fn deref_mut(&mut self) -> (r: &mut u16)
        ensures
            *r == old(self).value,
            final(self).value == *final(r),
    {
        &mut self.value
    }
}

} // verus!

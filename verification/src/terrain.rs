//! A landscape raised from an image: over each pixel stands a column of
//! solid boxes, as high as the pixel is bright.

use crate::chunk::Compression;
use crate::coords::Pos;
use crate::insert::Unsupported;
use crate::leaf::Leaf;
use crate::tree::Tree;
use vstd::prelude::*;

verus! {

/// The column over one pixel: the height of its topmost box and the box
/// specifier of its boxes.
#[derive(Copy, Clone, PartialEq, Eq, Structural, Debug)]
pub struct Column {
    pub top: u16,
    pub box_spec: u16,
}

/// How raising a column ended: the number of boxes that were placed, from
/// the bottom up, and what became of the next one; `Ok(true)` where none was
/// left to place.
#[derive(Copy, Clone, Debug)]
pub struct Raised {
    pub placed: u32,
    pub result: Result<bool, Unsupported>,
}

/// The column over a pixel of the given colour: with the sum of the three
/// channels for the grey value, the column is a 32nd of the grey value high,
/// and its boxes are of the kind of a third of the grey value.
pub fn column_of(r: u8, g: u8, b: u8) -> (c: Column)
    ensures
        c.top == (r + g + b) / 32,
        c.box_spec == (r + g + b) / 3,
{
    let grey: u16 = (r as u16) + (g as u16) + (b as u16);
    Column { top: grey / 32, box_spec: grey / 3 }
}

/// The place of the box at the height `h` of the column over `(x, z)`.
pub open spec fn column_pos(x: u32, z: u32, h: int) -> Pos {
    Pos { x: x, y: h as u32, z: z }
}

/// The leaf of a box of a column: solid, with the given box specifier.
pub open spec fn column_leaf(leaf: Leaf, box_spec: u16) -> bool {
    leaf@.value == 0x2000 + box_spec % 0x2000
}

impl<C: Compression> Tree<C> {
    /// Whether `post` is `pre` with the lowest `k` boxes of the column over
    /// `(x, z)` placed, one after the other from the bottom up.
    pub open spec fn raised(pre: &Self, post: &Self, x: u32, z: u32, leaf: Leaf, k: int) -> bool
        decreases k,
    {
        if k <= 0 {
            *post == *pre
        } else {
            exists|mid: Self|
                Self::raised(pre, &mid, x, z, leaf, k - 1) && #[trigger] Self::placed(
                    &mid,
                    post,
                    column_pos(x, z, k - 1),
                    leaf,
                )
        }
    }

    /// Whether raising a column on `mid` stops at its box at `pos` with `r`
    /// and the tree `post`: for want of chunks on the way to the box, or else
    /// on a solid box that is there already, with the tree as it is.
    pub open spec fn stopped(mid: &Self, post: &Self, pos: Pos, r: Result<bool, Unsupported>) -> bool {
        if mid.leaf_level(pos.x as int, pos.y as int, pos.z as int) > mid.spec_num_free_nodes() {
            r == Ok::<bool, Unsupported>(false) && Self::exhausted(mid, post, pos)
        } else {
            &&& r == Err::<bool, Unsupported>(Unsupported::SameSolidity)
            &&& mid.at(pos.x as int, pos.y as int, pos.z as int).is_solid()
            &&& *post == *mid
        }
    }

    /// Raises the column over `(x, z)`: places solid boxes with the
    /// specifier of the column at the heights from 0 to the top of the column,
    /// from the bottom up, and stops at the first box that cannot be placed.
    pub fn raise(&mut self, x: u32, z: u32, column: Column) -> (r: Raised)
        requires
            old(self).wf(),
        ensures
            final(self).wf(),
            final(self).spec_depth() == old(self).spec_depth(),
            final(self).capacity() == old(self).capacity(),
            final(self).compression() == old(self).compression(),
            0 <= r.placed <= column.top + 1,
            r.result == Ok::<bool, Unsupported>(true) <==> r.placed == column.top + 1,
            exists|mid: Self, leaf: Leaf|
                {
                    &&& column_leaf(leaf, column.box_spec)
                    &&& #[trigger] Self::raised(old(self), &mid, x, z, leaf, r.placed as int)
                    &&& mid.wf()
                    &&& if r.placed == column.top + 1 {
                        *final(self) == mid
                    } else {
                        Self::stopped(&mid, final(self), column_pos(x, z, r.placed as int), r.result)
                    }
                },
    {
        let leaf = Leaf::from_solid_box_spec(true, column.box_spec);
        let ghost start = *self;
        let mut h: u32 = 0;
        let top: u32 = column.top as u32;
        assert(Self::raised(&start, self, x, z, leaf, 0));
        while h <= top
            invariant
                start == *old(self),
                top == column.top,
                0 <= h <= top + 1,
                column_leaf(leaf, column.box_spec),
                !leaf@.is_void(),
                leaf@.is_solid(),
                self.wf(),
                self.spec_depth() == start.spec_depth(),
                self.capacity() == start.capacity(),
                self.compression() == start.compression(),
                Self::raised(&start, self, x, z, leaf, h as int),
            decreases top + 1 - h,
        {
            let ghost mid = *self;
            let r = self.set_at_pos(Pos::new(x, h, z), leaf);
            match r {
                Ok(true) => {
                    proof {
                        let k = h + 1;
                        assert(Self::raised(&start, &mid, x, z, leaf, k - 1));
                        assert(Self::placed(&mid, self, column_pos(x, z, k - 1), leaf));
                        assert(Self::raised(&start, self, x, z, leaf, k));
                    }
                    h = h + 1;
                },
                _ => {
                    proof {
                        assert(Self::stopped(&mid, self, column_pos(x, z, h as int), r));
                    }
                    return Raised { placed: h, result: r };
                },
            }
        }
        Raised { placed: h, result: Ok(true) }
    }
}

} // verus!

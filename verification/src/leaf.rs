//! Leaves: child slots that are known to hold a box and no node reference.

use crate::child::{pack, Child};
use std::ops::Deref;
use vstd::prelude::*;

verus! {

/// A child slot that holds a leaf: its node bit is clear.
#[derive(Copy, Clone, Debug)]
pub struct Leaf {
    child_: Child,
}

impl View for Leaf {
    type V = Child;

    /// The slot that the leaf wraps.
    closed spec fn view(&self) -> Child {
        self.child_
    }
}

impl Leaf {
    #[verifier::type_invariant]
    spec fn is_leaf(self) -> bool {
        !self.child_.is_node()
    }

    /// Wraps a slot whose node bit is clear.
    pub fn new(child: Child) -> (r: Self)
        requires
            !child.is_node(),
        ensures
            r@ == child,
    {
        Leaf { child_: child }
    }

    /// Empty space.
    pub fn void() -> (r: Self)
        ensures
            r@.value == 0,
    {
        Leaf::new(Child::void())
    }

    /// A leaf off the surface with the given solid flag and box specifier, of
    /// which the low 13 bits count.
    pub fn from_solid_box_spec(solid: bool, spec: u16) -> (r: Self)
        ensures
            r@.value == pack(false, false, solid, (spec % 0x2000) as int),
    {
        Leaf::new(Child::leaf_from_surface_solid_box_spec(false, solid, spec))
    }

    /// A leaf off the surface with the given extended specifier, of which the
    /// low 14 bits count.
    pub fn from_ext_spec(spec: u16) -> (r: Self)
        ensures
            r@.value == spec % 0x4000,
    {
        Leaf::new(Child::leaf_from_surface_ext_spec(false, spec))
    }

    /// Sets or clears the solid bit; every other bit stays.
    pub fn set_solid(&mut self, solid: bool)
        ensures
            final(self)@.value == pack(
                false,
                old(self)@.is_surface(),
                solid,
                old(self)@.box_spec() as int,
            ),
    {
        proof {
            use_type_invariant(&*self);
        }
        let mut child = self.child_;
        child.set_solid(solid);
        self.child_ = child;
    }

    /// Replaces the box specifier by the low 13 bits of `box_spec`.
    pub fn set_box_spec(&mut self, box_spec: u16)
        ensures
            final(self)@.value == old(self)@.value - old(self)@.value % 0x2000 + box_spec % 0x2000,
    {
        proof {
            use_type_invariant(&*self);
        }
        let mut child = self.child_;
        child.set_box_spec(box_spec);
        self.child_ = child;
    }

    /// Replaces the extended specifier by the low 14 bits of `ext_spec`.
    pub fn set_ext_spec(&mut self, ext_spec: u16)
        ensures
            final(self)@.value == old(self)@.value - old(self)@.value % 0x4000 + ext_spec % 0x4000,
    {
        proof {
            use_type_invariant(&*self);
        }
        let mut child = self.child_;
        child.set_ext_spec(ext_spec);
        self.child_ = child;
    }

    /// The slot that the leaf wraps; its node bit is clear.
    pub fn as_child(&self) -> (r: &Child)
        ensures
            *r == self@,
            !r.is_node(),
    {
        proof {
            use_type_invariant(self);
        }
        &self.child_
    }
}

impl Deref for Leaf {
    type Target = Child;

    fn deref(&self) -> (r: &Child)
        ensures
            *r == self@,
    {
        &self.child_
    }
}

/// A leaf whose surface bit has not been computed yet: a solid box that some
/// compression strategy stores or restores.
#[derive(Copy, Clone, Debug)]
pub struct HiddenLeaf {
    child_: Child,
}

impl View for HiddenLeaf {
    type V = Child;

    /// The slot that the leaf wraps.
    closed spec fn view(&self) -> Child {
        self.child_
    }
}

impl HiddenLeaf {
    #[verifier::type_invariant]
    spec fn is_leaf(self) -> bool {
        !self.child_.is_node()
    }

    /// Wraps a slot whose node bit is clear.
    pub fn new(child: Child) -> (r: Self)
        requires
            !child.is_node(),
        ensures
            r@ == child,
    {
        HiddenLeaf { child_: child }
    }

    /// A solid leaf off the surface with the given box specifier, of which the
    /// low 13 bits count.
    pub fn from_box_spec(spec: u16) -> (r: Self)
        ensures
            r@.value == 0x2000 + spec % 0x2000,
    {
        HiddenLeaf::new(Child::leaf_from_surface_solid_box_spec(false, true, spec))
    }

    /// Replaces the box specifier by the low 13 bits of `box_spec`.
    pub fn set_box_spec(&mut self, box_spec: u16)
        ensures
            final(self)@.value == old(self)@.value - old(self)@.value % 0x2000 + box_spec % 0x2000,
    {
        proof {
            use_type_invariant(&*self);
        }
        let mut child = self.child_;
        child.set_box_spec(box_spec);
        self.child_ = child;
    }

    /// The slot that the leaf wraps; its node bit is clear.
    pub fn as_child(&self) -> (r: &Child)
        ensures
            *r == self@,
            !r.is_node(),
    {
        proof {
            use_type_invariant(self);
        }
        &self.child_
    }
}

impl Deref for HiddenLeaf {
    type Target = Child;

    fn deref(&self) -> (r: &Child)
        ensures
            *r == self@,
    {
        &self.child_
    }
}

} // verus!

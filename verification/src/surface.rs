//! The surface flag: a box is on the surface when it is not void and one of
//! its 26 neighbours is not solid. The world wraps around, so every box has 26
//! neighbours.

use crate::child::Child;
use crate::chunk::Compression;
use crate::coords::{lemma_same_place_add, lemma_same_place_u32, slot_of, Pos};
use crate::edit::same_box;
use crate::mask::{any_around, bit, block_bits, lemma_no_bit, ring_bits, row_bits, with_bit};
use crate::tree::{Found, SlotRef, Tree};
use vstd::prelude::*;

verus! {

/// The leaf with the surface flag that the rule asks for, where `exposed`
/// tells whether the box has a neighbour that is not solid: a void leaf stays
/// as it is.
pub open spec fn dressed(child: Child, exposed: bool) -> Child {
    if child.value == 0 {
        child
    } else {
        Child {
            value: (child.value % 0x4000 + (if exposed {
                0x4000int
            } else {
                0
            })) as u16,
        }
    }
}

/// Whether the slot `b` is the slot `a`, but for the surface flag of a solid leaf.
pub open spec fn flagged(a: Child, b: Child) -> bool {
    a == b || (!a.is_node() && a.is_solid() && !b.is_node() && b.value % 0x4000 == a.value % 0x4000)
}

/// Whether `(a, b, e)` names box `u` of the 3 x 3 x 3 boxes about `(x, y, z)`.
pub open spec fn hits(a: int, b: int, e: int, x: int, y: int, z: int, u: int, d: int) -> bool {
    same_box(a, b, e, x + u % 3 - 1, y + (u / 3) % 3 - 1, z + u / 9 - 1, d)
}

/// Whether `(a, b, e)` names one of the first `t` of the 3 x 3 x 3 boxes
/// about `(x, y, z)`.
pub open spec fn near_upto(a: int, b: int, e: int, x: int, y: int, z: int, t: int, d: int) -> bool {
    exists|u: int| 0 <= u < t && #[trigger] hits(a, b, e, x, y, z, u, d)
}

/// The box `(i, j, k)` of a sample of 5 x 5 x 5 boxes has the number
/// `i + 5 * j + 25 * k`.
pub proof fn lemma_sample_index(i: int, j: int, k: int)
    requires
        0 <= i < 5,
        0 <= j < 5,
        0 <= k < 5,
    ensures
        0 <= i + 5 * j + 25 * k < 125,
        (i + 5 * j + 25 * k) % 5 == i,
        ((i + 5 * j + 25 * k) / 5) % 5 == j,
        (i + 5 * j + 25 * k) / 25 == k,
        (i + 5 * j + 25 * k) % 25 == i + 5 * j,
{
}

/// Bit `u` of a sample of 5 x 5 x 5 boxes: the box `(u % 5, (u / 5) % 5, u / 25)`
/// of the sample, in the mask of its slab.
pub open spec fn sample_bit(flags: Seq<u32>, u: int) -> bool {
    bit(flags[u / 25], (u % 25) as u32)
}

impl<C: Compression> Tree<C> {
    /// Whether the box at `(x, y, z)` is not solid: void, or passable.
    pub open spec fn open_at(&self, x: int, y: int, z: int) -> bool {
        !self.at(x, y, z).is_solid()
    }

    /// Whether one of the three boxes in the row along x about `(x, y, z)` is not solid.
    pub open spec fn open_row(&self, x: int, y: int, z: int) -> bool {
        self.open_at(x - 1, y, z) || self.open_at(x, y, z) || self.open_at(x + 1, y, z)
    }

    /// Whether one of the nine boxes in the slab across z about `(x, y, z)`
    /// is not solid.
    pub open spec fn open_slab(&self, x: int, y: int, z: int) -> bool {
        self.open_row(x, y - 1, z) || self.open_row(x, y, z) || self.open_row(x, y + 1, z)
    }

    /// Whether one of the eight boxes around `(x, y, z)` in its own slab
    /// across z is not solid.
    pub open spec fn open_ring(&self, x: int, y: int, z: int) -> bool {
        self.open_row(x, y - 1, z) || self.open_at(x - 1, y, z) || self.open_at(x + 1, y, z)
            || self.open_row(x, y + 1, z)
    }

    /// Whether one of the 26 neighbours of the box at `(x, y, z)` is not solid.
    #[verifier::opaque]
    pub open spec fn exposed(&self, x: int, y: int, z: int) -> bool {
        self.open_slab(x, y, z - 1) || self.open_ring(x, y, z) || self.open_slab(x, y, z + 1)
    }

    /// The rule of the surface flag at `(x, y, z)`: the flag is set exactly if
    /// the box is not void and has a neighbour that is not solid.
    pub open spec fn surface_rule(&self, x: int, y: int, z: int) -> bool {
        self.at(x, y, z).is_surface() == (!self.at(x, y, z).is_void() && self.exposed(x, y, z))
    }

    /// The rule of the surface flag holds of every box.
    pub open(crate) spec fn surface_ok(&self) -> bool {
        forall|x: int, y: int, z: int| #[trigger] self.surface_rule(x, y, z)
    }

    /// Whether box `u` of the sample about `(x, y, z)` is not solid.
    pub open spec fn sample_box(&self, x: int, y: int, z: int, u: int) -> bool {
        self.open_at(x + u % 5 - 2, y + (u / 5) % 5 - 2, z + u / 25 - 2)
    }

    /// The masks tell, for each box within two steps of `(x, y, z)` along
    /// each axis, whether it is not solid.
    pub open(crate) spec fn sampled(&self, flags: Seq<u32>, x: int, y: int, z: int) -> bool {
        &&& flags.len() == 5
        &&& forall|u: int| 0 <= u < 125 ==> #[trigger] sample_bit(flags, u) == self.sample_box(x, y, z, u)
    }

    /// Finds the slot that holds the leaf of the box at
    /// `pos + (i - back, j - back, k - back)`.
    pub(crate) fn look(&self, pos: Pos, i: u32, j: u32, k: u32, back: u32) -> (r: SlotRef)
        requires
            self.arena_ok(),
            self.shape_ok(),
            i < 8,
            j < 8,
            k < 8,
            back < 8,
        ensures
            r.chunk < self.used(),
            r.index < 4096,
            self.probe(pos.x + i - back, pos.y + j - back, pos.z + k - back) == (Found {
                chunk: r.chunk as int,
                level: self.places_@[r.chunk as int].level,
                child: self.slot(r.chunk as int, r.index as int),
            }),
            slot_of(
                pos.x + i - back,
                pos.y + j - back,
                pos.z + k - back,
                self.places_@[r.chunk as int].level,
            ) == r.index,
            self.holds(r.chunk as int, pos.x + i - back, pos.y + j - back, pos.z + k - back),
            !self.slot(r.chunk as int, r.index as int).is_node(),
            self.slot(r.chunk as int, r.index as int).value != 0 ==> self.places_@[r.chunk as int].level
                == 0 && self.slot(r.chunk as int, r.index as int).is_solid(),
    {
        let dir = Pos { x: i.wrapping_sub(back), y: j.wrapping_sub(back), z: k.wrapping_sub(back) };
        let r = self.locate(pos, dir);
        proof {
            let d = self.depth_ as int;
            let (x, y, z) = (pos.x + i - back, pos.y + j - back, pos.z + k - back);
            lemma_same_place_u32(x, d);
            lemma_same_place_u32(y, d);
            lemma_same_place_u32(z, d);
            self.lemma_probe_wrap(pos.x + dir.x, pos.y + dir.y, pos.z + dir.z, x, y, z);
            self.lemma_same_box_holds(
                r.chunk as int,
                pos.x + dir.x,
                pos.y + dir.y,
                pos.z + dir.z,
                x,
                y,
                z,
            );
            self.lemma_probe_lands(x, y, z);
        }
        r
    }

    /// Samples the boxes within two steps of `pos` along each axis: one
    /// mask for each slab across z, with a bit set for each box that is not
    /// solid.
    pub(crate) fn sample(&self, pos: Pos) -> (flags: [u32; 5])
        requires
            self.arena_ok(),
            self.shape_ok(),
        ensures
            self.sampled(flags@, pos.x as int, pos.y as int, pos.z as int),
    {
        let mut flags = [0u32;5];
        let mut t: u32 = 0;
        proof {
            assert forall|u: int| 0 <= u < 125 implies !#[trigger] sample_bit(flags@, u) by {
                lemma_no_bit((u % 25) as u32);
            }
        }
        while t < 125
            invariant
                t <= 125,
                self.arena_ok(),
                self.shape_ok(),
                flags@.len() == 5,
                forall|u: int|
                    0 <= u < t ==> #[trigger] sample_bit(flags@, u) == self.sample_box(
                        pos.x as int,
                        pos.y as int,
                        pos.z as int,
                        u,
                    ),
                forall|u: int| t <= u < 125 ==> !#[trigger] sample_bit(flags@, u),
            decreases 125 - t,
        {
            let i = t % 5;
            let j = (t / 5) % 5;
            let k = t / 25;
            let r = self.look(pos, i, j, k, 2);
            let child = self.chunks_[r.chunk as usize].children[r.index as usize];
            proof {
                assert(child == self.slot(r.chunk as int, r.index as int));
            }
            if !child.is_solid() {
                let ghost prev = flags@;
                let mask = with_bit(flags[k as usize], t % 25);
                flags[k as usize] = mask;
                proof {
                    assert forall|u: int| 0 <= u < 125 implies #[trigger] sample_bit(flags@, u) == (
                    u == t || sample_bit(prev, u)) by {
                        if u / 25 == k {
                            assert(bit(mask, (u % 25) as u32) == ((u % 25) as u32 == t % 25 || bit(
                                prev[k as int],
                                (u % 25) as u32,
                            )));
                        }
                    }
                }
            }
            t = t + 1;
        }
        flags
    }

    /// What the masks tell of a row of three boxes of the sample.
    pub(crate) proof fn lemma_sample_row(
        &self,
        flags: Seq<u32>,
        x: int,
        y: int,
        z: int,
        i: int,
        j: int,
        k: int,
    )
        requires
            self.sampled(flags, x, y, z),
            0 <= i < 3,
            0 <= j < 5,
            0 <= k < 5,
        ensures
            row_bits(flags[k], (5 * j + i) as u32) == self.open_row(x + i - 1, y + j - 2, z + k - 2),
            bit(flags[k], (5 * j + i) as u32) == self.open_at(x + i - 2, y + j - 2, z + k - 2),
            bit(flags[k], (5 * j + i + 2) as u32) == self.open_at(x + i, y + j - 2, z + k - 2),
    {
        let u = i + 5 * j + 25 * k;
        lemma_sample_index(i, j, k);
        lemma_sample_index(i + 1, j, k);
        lemma_sample_index(i + 2, j, k);
        assert(sample_bit(flags, u) == self.sample_box(x, y, z, u));
        assert(sample_bit(flags, u + 1) == self.sample_box(x, y, z, u + 1));
        assert(sample_bit(flags, u + 2) == self.sample_box(x, y, z, u + 2));
    }

    /// What the masks tell of the 26 boxes around a box next to the middle
    /// of the sample.
    pub(crate) proof fn lemma_sample_exposed(
        &self,
        flags: Seq<u32>,
        x: int,
        y: int,
        z: int,
        i: int,
        j: int,
        k: int,
    )
        requires
            self.sampled(flags, x, y, z),
            0 <= i < 3,
            0 <= j < 3,
            0 <= k < 3,
        ensures
            (block_bits(flags[k], (5 * j + i) as u32) || ring_bits(flags[k + 1], (5 * j + i) as u32)
                || block_bits(flags[k + 2], (5 * j + i) as u32)) == self.exposed(
                x + i - 1,
                y + j - 1,
                z + k - 1,
            ),
    {
        reveal(Tree::exposed);
        self.lemma_sample_row(flags, x, y, z, i, j, k);
        self.lemma_sample_row(flags, x, y, z, i, j + 1, k);
        self.lemma_sample_row(flags, x, y, z, i, j + 2, k);
        self.lemma_sample_row(flags, x, y, z, i, j, k + 1);
        self.lemma_sample_row(flags, x, y, z, i, j + 1, k + 1);
        self.lemma_sample_row(flags, x, y, z, i, j + 2, k + 1);
        self.lemma_sample_row(flags, x, y, z, i, j, k + 2);
        self.lemma_sample_row(flags, x, y, z, i, j + 1, k + 2);
        self.lemma_sample_row(flags, x, y, z, i, j + 2, k + 2);
    }

    /// Positions that name the same box have the same neighbour in each direction.
    pub(crate) proof fn lemma_open_wrap(
        &self,
        a: int,
        b: int,
        e: int,
        x: int,
        y: int,
        z: int,
        i: int,
        j: int,
        k: int,
    )
        requires
            self.depth_ >= 1,
            same_box(a, b, e, x, y, z, self.depth_ as int),
        ensures
            self.open_at(a + i, b + j, e + k) == self.open_at(x + i, y + j, z + k),
    {
        let d = self.depth_ as int;
        lemma_same_place_add(a, x, i, d);
        lemma_same_place_add(b, y, j, d);
        lemma_same_place_add(e, z, k, d);
        self.lemma_probe_wrap(a + i, b + j, e + k, x + i, y + j, z + k);
    }

    /// Positions that name the same box have the same rows of neighbours.
    pub(crate) proof fn lemma_row_wrap(
        &self,
        a: int,
        b: int,
        e: int,
        x: int,
        y: int,
        z: int,
        j: int,
        k: int,
    )
        requires
            self.depth_ >= 1,
            same_box(a, b, e, x, y, z, self.depth_ as int),
        ensures
            self.open_row(a, b + j, e + k) == self.open_row(x, y + j, z + k),
            self.open_at(a - 1, b + j, e + k) == self.open_at(x - 1, y + j, z + k),
            self.open_at(a + 1, b + j, e + k) == self.open_at(x + 1, y + j, z + k),
    {
        self.lemma_open_wrap(a, b, e, x, y, z, -1, j, k);
        self.lemma_open_wrap(a, b, e, x, y, z, 0, j, k);
        self.lemma_open_wrap(a, b, e, x, y, z, 1, j, k);
    }

    /// Positions that name the same box are exposed alike.
    pub(crate) proof fn lemma_exposed_wrap(&self, a: int, b: int, e: int, x: int, y: int, z: int)
        requires
            self.depth_ >= 1,
            same_box(a, b, e, x, y, z, self.depth_ as int),
        ensures
            self.exposed(a, b, e) == self.exposed(x, y, z),
    {
        reveal(Tree::exposed);
        self.lemma_row_wrap(a, b, e, x, y, z, -1, -1);
        self.lemma_row_wrap(a, b, e, x, y, z, 0, -1);
        self.lemma_row_wrap(a, b, e, x, y, z, 1, -1);
        self.lemma_row_wrap(a, b, e, x, y, z, -1, 0);
        self.lemma_row_wrap(a, b, e, x, y, z, 0, 0);
        self.lemma_row_wrap(a, b, e, x, y, z, 1, 0);
        self.lemma_row_wrap(a, b, e, x, y, z, -1, 1);
        self.lemma_row_wrap(a, b, e, x, y, z, 0, 1);
        self.lemma_row_wrap(a, b, e, x, y, z, 1, 1);
    }

    /// `cur` is `t1` with the surface flags of the first `t` of the 3 x 3 x 3
    /// boxes about `(x, y, z)` set as the rule asks, by the neighbours in `t1`.
    pub open(crate) spec fn refreshed_upto(
        cur: &Self,
        t1: &Self,
        x: int,
        y: int,
        z: int,
        t: int,
    ) -> bool {
        forall|a: int, b: int, e: int| #[trigger]
            cur.at(a, b, e) == (if near_upto(a, b, e, x, y, z, t, t1.depth_ as int) {
                dressed(t1.at(a, b, e), t1.exposed(a, b, e))
            } else {
                t1.at(a, b, e)
            })
    }

    /// One more box about `(x, y, z)` has its surface flag set as the rule
    /// asks: what that says of the leaf at `(a, b, e)`.
    pub(crate) proof fn lemma_refresh_point(
        pre: &Self,
        post: &Self,
        t1: &Self,
        x: int,
        y: int,
        z: int,
        t: int,
        a: int,
        b: int,
        e: int,
    )
        requires
            t1.depth_ >= 1,
            0 <= t < 27,
            ({
                let (qx, qy, qz) = (x + t % 3 - 1, y + (t / 3) % 3 - 1, z + t / 9 - 1);
                let d = t1.depth_ as int;
                &&& !t1.at(qx, qy, qz).is_node()
                &&& t1.at(qx, qy, qz).value == 0 || t1.at(qx, qy, qz).is_solid()
                &&& pre.at(qx, qy, qz) == dressed(t1.at(qx, qy, qz), t1.exposed(qx, qy, qz))
                    || pre.at(qx, qy, qz) == t1.at(qx, qy, qz)
                &&& pre.at(a, b, e) == (if near_upto(a, b, e, x, y, z, t, d) {
                    dressed(t1.at(a, b, e), t1.exposed(a, b, e))
                } else {
                    t1.at(a, b, e)
                })
                &&& post.at(a, b, e) == (if hits(a, b, e, x, y, z, t, d) {
                    dressed(pre.at(qx, qy, qz), t1.exposed(qx, qy, qz))
                } else {
                    pre.at(a, b, e)
                })
            }),
        ensures
            post.at(a, b, e) == (if near_upto(a, b, e, x, y, z, t + 1, t1.depth_ as int) {
                dressed(t1.at(a, b, e), t1.exposed(a, b, e))
            } else {
                t1.at(a, b, e)
            }),
    {
        let d = t1.depth_ as int;
        let (qx, qy, qz) = (x + t % 3 - 1, y + (t / 3) % 3 - 1, z + t / 9 - 1);
        if hits(a, b, e, x, y, z, t, d) {
            t1.lemma_probe_wrap(a, b, e, qx, qy, qz);
            t1.lemma_exposed_wrap(a, b, e, qx, qy, qz);
            crate::child::lemma_pack_fields(t1.at(qx, qy, qz).value);
            assert(dressed(pre.at(qx, qy, qz), t1.exposed(qx, qy, qz)) == dressed(
                t1.at(qx, qy, qz),
                t1.exposed(qx, qy, qz),
            ));
        } else {
            if near_upto(a, b, e, x, y, z, t + 1, d) {
                let u = choose|u: int| 0 <= u < t + 1 && #[trigger] hits(a, b, e, x, y, z, u, d);
                assert(hits(a, b, e, x, y, z, u, d) && u < t);
            }
            if near_upto(a, b, e, x, y, z, t, d) {
                let u = choose|u: int| 0 <= u < t && #[trigger] hits(a, b, e, x, y, z, u, d);
                assert(hits(a, b, e, x, y, z, u, d) && u < t + 1);
            }
        }
    }

    /// One more box about `(x, y, z)` has its surface flag set as the rule asks.
    pub(crate) proof fn lemma_refresh_step(
        pre: &Self,
        post: &Self,
        t1: &Self,
        x: int,
        y: int,
        z: int,
        t: int,
    )
        requires
            t1.arena_ok(),
            t1.shape_ok(),
            pre.depth_ == t1.depth_,
            post.depth_ == t1.depth_,
            0 <= t < 27,
            Self::refreshed_upto(pre, t1, x, y, z, t),
            forall|a: int, b: int, e: int| #[trigger]
                post.at(a, b, e) == (if hits(a, b, e, x, y, z, t, t1.depth_ as int) {
                    dressed(
                        pre.at(x + t % 3 - 1, y + (t / 3) % 3 - 1, z + t / 9 - 1),
                        t1.exposed(x + t % 3 - 1, y + (t / 3) % 3 - 1, z + t / 9 - 1),
                    )
                } else {
                    pre.at(a, b, e)
                }),
        ensures
            Self::refreshed_upto(post, t1, x, y, z, t + 1),
    {
        let d = t1.depth_ as int;
        let (qx, qy, qz) = (x + t % 3 - 1, y + (t / 3) % 3 - 1, z + t / 9 - 1);
        t1.lemma_probe_lands(qx, qy, qz);
        assert(pre.at(qx, qy, qz) == (if near_upto(qx, qy, qz, x, y, z, t, d) {
            dressed(t1.at(qx, qy, qz), t1.exposed(qx, qy, qz))
        } else {
            t1.at(qx, qy, qz)
        }));
        assert forall|a: int, b: int, e: int| #[trigger]
            post.at(a, b, e) == (if near_upto(a, b, e, x, y, z, t + 1, d) {
                dressed(t1.at(a, b, e), t1.exposed(a, b, e))
            } else {
                t1.at(a, b, e)
            }) by {
            assert(pre.at(a, b, e) == (if near_upto(a, b, e, x, y, z, t, d) {
                dressed(t1.at(a, b, e), t1.exposed(a, b, e))
            } else {
                t1.at(a, b, e)
            }));
            Self::lemma_refresh_point(pre, post, t1, x, y, z, t, a, b, e);
        }
    }

    /// `cur` is `t1` but for surface flags of solid leaves.
    pub open(crate) spec fn flags_of(cur: &Self, t1: &Self) -> bool {
        &&& cur.depth_ == t1.depth_
        &&& cur.compression_ == t1.compression_
        &&& cur.places_@ == t1.places_@
        &&& cur.infos_@ == t1.infos_@
        &&& cur.num_free_nodes_ == t1.num_free_nodes_
        &&& cur.first_free_node_ == t1.first_free_node_
        &&& cur.chunks_@.len() == t1.chunks_@.len()
        &&& forall|c: int, s: int|
            0 <= c < t1.chunks_@.len() && 0 <= s < 4096 ==> flagged(
                t1.slot(c, s),
                #[trigger] cur.slot(c, s),
            )
    }

    /// Sets the surface flags of the 3 x 3 x 3 boxes about `pos`, the box at
    /// `pos` among them, as the rule asks: by what the masks tell of the boxes
    /// around each. A void leaf stays as it is.
    pub(crate) fn refresh(&mut self, pos: Pos, flags: &[u32; 5])
        requires
            old(self).arena_ok(),
            old(self).shape_ok(),
            old(self).sampled(flags@, pos.x as int, pos.y as int, pos.z as int),
        ensures
            final(self).arena_ok(),
            final(self).shape_ok(),
            Self::flags_of(final(self), old(self)),
            Self::refreshed_upto(
                final(self),
                old(self),
                pos.x as int,
                pos.y as int,
                pos.z as int,
                27,
            ),
            forall|a: int, b: int, e: int| #[trigger]
                final(self).leaf_level(a, b, e) == old(self).leaf_level(a, b, e),
            forall|a: int, b: int, e: int, l: int| #[trigger]
                final(self).way(a, b, e, l) == old(self).way(a, b, e, l),
    {
        let ghost t1 = *self;
        let ghost (x, y, z) = (pos.x as int, pos.y as int, pos.z as int);
        let ghost d = self.depth_ as int;
        let mut t: u32 = 0;
        while t < 27
            invariant
                t <= 27,
                t1 == *old(self),
                x == pos.x,
                y == pos.y,
                z == pos.z,
                d == t1.depth_,
                t1.arena_ok(),
                t1.shape_ok(),
                t1.sampled(flags@, x, y, z),
                self.arena_ok(),
                self.shape_ok(),
                Self::flags_of(self, &t1),
                Self::refreshed_upto(self, &t1, x, y, z, t as int),
                forall|a: int, b: int, e: int| #[trigger]
                    self.leaf_level(a, b, e) == t1.leaf_level(a, b, e),
                forall|a: int, b: int, e: int, l: int| #[trigger]
                    self.way(a, b, e, l) == t1.way(a, b, e, l),
            decreases 27 - t,
        {
            let i = t % 3;
            let j = (t / 3) % 3;
            let k = t / 9;
            let ghost (qx, qy, qz) = (x + i - 1, y + j - 1, z + k - 1);
            let r = self.look(pos, i, j, k, 1);
            let child = self.chunks_[r.chunk as usize].children[r.index as usize];
            let surface = any_around(
                flags[k as usize],
                flags[(k + 1) as usize],
                flags[(k + 2) as usize],
                5 * j + i,
            );
            let ghost pre = *self;
            proof {
                assert(child == self.slot(r.chunk as int, r.index as int));
                t1.lemma_sample_exposed(flags@, x, y, z, i as int, j as int, k as int);
                assert(surface == t1.exposed(qx, qy, qz));
            }
            if !child.is_void() {
                let mut leaf = child;
                leaf.set_surface(surface);
                proof {
                    crate::child::lemma_pack_fields(child.value);
                    assert(leaf == dressed(child, surface));
                    crate::child::lemma_pack_fields(leaf.value);
                }
                self.put(r, leaf, false, Ghost(qx), Ghost(qy), Ghost(qz));
                proof {
                    assert(self.infos_@ =~= pre.infos_@);
                    assert forall|a: int, b: int, e: int, l: int| #[trigger]
                        self.way(a, b, e, l) == t1.way(a, b, e, l) by {
                        assert(pre.way(a, b, e, l) == t1.way(a, b, e, l));
                    }
                    assert forall|a: int, b: int, e: int| #[trigger]
                        self.leaf_level(a, b, e) == t1.leaf_level(a, b, e) by {
                        assert(pre.leaf_level(a, b, e) == t1.leaf_level(a, b, e));
                        if same_box(a, b, e, qx, qy, qz, d) {
                            pre.lemma_probe_wrap(a, b, e, qx, qy, qz);
                        }
                    }
                    assert forall|c: int, s: int|
                        0 <= c < t1.chunks_@.len() && 0 <= s < 4096 implies flagged(
                        t1.slot(c, s),
                        #[trigger] self.slot(c, s),
                    ) by {
                        assert(flagged(t1.slot(c, s), pre.slot(c, s)));
                        if !(c == r.chunk && s == r.index) {
                            assert(self.slot(c, s) == pre.slot(c, s));
                        }
                    }
                }
            } else {
                proof {
                    assert forall|a: int, b: int, e: int|
                        hits(a, b, e, x, y, z, t as int, d) implies #[trigger] pre.at(a, b, e)
                        == pre.at(qx, qy, qz) by {
                        pre.lemma_probe_wrap(a, b, e, qx, qy, qz);
                    }
                }
            }
            proof {
                Self::lemma_refresh_step(&pre, self, &t1, x, y, z, t as int);
            }
            t = t + 1;
        }
    }

    /// Trees with the same solid boxes expose the same boxes.
    pub(crate) proof fn lemma_exposed_same(t1: &Self, t2: &Self, a: int, b: int, e: int)
        requires
            forall|n1: int, n2: int, n3: int| #[trigger]
                t2.open_at(n1, n2, n3) == t1.open_at(n1, n2, n3),
        ensures
            t2.exposed(a, b, e) == t1.exposed(a, b, e),
    {
        reveal(Tree::exposed);
        assert(t2.open_row(a, b - 1, e - 1) == t1.open_row(a, b - 1, e - 1));
        assert(t2.open_row(a, b, e - 1) == t1.open_row(a, b, e - 1));
        assert(t2.open_row(a, b + 1, e - 1) == t1.open_row(a, b + 1, e - 1));
        assert(t2.open_row(a, b - 1, e) == t1.open_row(a, b - 1, e));
        assert(t2.open_row(a, b, e) == t1.open_row(a, b, e));
        assert(t2.open_row(a, b + 1, e) == t1.open_row(a, b + 1, e));
        assert(t2.open_row(a, b - 1, e + 1) == t1.open_row(a, b - 1, e + 1));
        assert(t2.open_row(a, b, e + 1) == t1.open_row(a, b, e + 1));
        assert(t2.open_row(a, b + 1, e + 1) == t1.open_row(a, b + 1, e + 1));
    }

    /// Flags that were refreshed changed nothing else of a leaf.
    pub(crate) proof fn lemma_refreshed_keeps(t1: &Self, t2: &Self, x: int, y: int, z: int, t: int)
        requires
            t1.arena_ok(),
            t1.shape_ok(),
            Self::refreshed_upto(t2, t1, x, y, z, t),
        ensures
            forall|a: int, b: int, e: int|
                !(#[trigger] t2.at(a, b, e)).is_node() && t2.at(a, b, e).value % 0x4000 == t1.at(
                    a,
                    b,
                    e,
                ).value % 0x4000 && (t2.at(a, b, e).value == 0) == (t1.at(a, b, e).value == 0),
            forall|a: int, b: int, e: int| #[trigger]
                t2.open_at(a, b, e) == t1.open_at(a, b, e),
    {
        assert forall|a: int, b: int, e: int|
            !(#[trigger] t2.at(a, b, e)).is_node() && t2.at(a, b, e).value % 0x4000 == t1.at(
                a,
                b,
                e,
            ).value % 0x4000 && (t2.at(a, b, e).value == 0) == (t1.at(a, b, e).value == 0)
                && t2.at(a, b, e).is_solid() == t1.at(a, b, e).is_solid() by {
            t1.lemma_probe_lands(a, b, e);
            crate::child::lemma_pack_fields(t1.at(a, b, e).value);
            crate::child::lemma_pack_fields(t2.at(a, b, e).value);
        }
        assert forall|a: int, b: int, e: int| #[trigger] t2.open_at(a, b, e) == t1.open_at(
            a,
            b,
            e,
        ) by {
            assert(t2.at(a, b, e).is_solid() == t1.at(a, b, e).is_solid());
        }
    }

    /// A box placed at `(x, y, z)` changes no neighbour of a box that is not
    /// among the 3 x 3 x 3 about it.
    pub(crate) proof fn lemma_far_keeps(
        t0: &Self,
        t1: &Self,
        x: int,
        y: int,
        z: int,
        leaf: Child,
        a: int,
        b: int,
        e: int,
    )
        requires
            t0.depth_ >= 1,
            forall|n1: int, n2: int, n3: int| #[trigger]
                t1.at(n1, n2, n3) == (if same_box(n1, n2, n3, x, y, z, t0.depth_ as int) {
                    leaf
                } else {
                    t0.at(n1, n2, n3)
                }),
            !near_upto(a, b, e, x, y, z, 27, t0.depth_ as int),
        ensures
            t1.at(a, b, e) == t0.at(a, b, e),
            t1.exposed(a, b, e) == t0.exposed(a, b, e),
    {
        let d = t0.depth_ as int;
        assert forall|n1: int, n2: int, n3: int|
            a - 1 <= n1 <= a + 1 && b - 1 <= n2 <= b + 1 && e - 1 <= n3 <= e + 1 implies !same_box(
            n1,
            n2,
            n3,
            x,
            y,
            z,
            d,
        ) && #[trigger] t1.open_at(n1, n2, n3) == t0.open_at(n1, n2, n3) by {
            if same_box(n1, n2, n3, x, y, z, d) {
                let u = (1 - (n1 - a)) + 3 * (1 - (n2 - b)) + 9 * (1 - (n3 - e));
                lemma_same_place_add(n1, x, a - n1, d);
                lemma_same_place_add(n2, y, b - n2, d);
                lemma_same_place_add(n3, z, e - n3, d);
                assert(hits(a, b, e, x, y, z, u, d));
            }
            assert(t1.at(n1, n2, n3) == t0.at(n1, n2, n3));
        }
        reveal(Tree::exposed);
        assert(t1.open_at(a, b, e) == t0.open_at(a, b, e));
        assert(t1.open_row(a, b - 1, e - 1) == t0.open_row(a, b - 1, e - 1));
        assert(t1.open_row(a, b, e - 1) == t0.open_row(a, b, e - 1));
        assert(t1.open_row(a, b + 1, e - 1) == t0.open_row(a, b + 1, e - 1));
        assert(t1.open_row(a, b - 1, e) == t0.open_row(a, b - 1, e));
        assert(t1.open_row(a, b, e) == t0.open_row(a, b, e));
        assert(t1.open_row(a, b + 1, e) == t0.open_row(a, b + 1, e));
        assert(t1.open_row(a, b - 1, e + 1) == t0.open_row(a, b - 1, e + 1));
        assert(t1.open_row(a, b, e + 1) == t0.open_row(a, b, e + 1));
        assert(t1.open_row(a, b + 1, e + 1) == t0.open_row(a, b + 1, e + 1));
    }

    /// A solid box placed where none was, and the surface flags about it
    /// refreshed: the rule of the surface flag holds of every box again.
    pub(crate) proof fn lemma_surface_restored(
        t0: &Self,
        t1: &Self,
        t2: &Self,
        x: int,
        y: int,
        z: int,
        leaf: Child,
    )
        requires
            t0.arena_ok(),
            t0.shape_ok(),
            t0.surface_ok(),
            t1.arena_ok(),
            t1.shape_ok(),
            t1.depth_ == t0.depth_,
            t2.depth_ == t0.depth_,
            !leaf.is_node(),
            leaf.is_solid(),
            forall|a: int, b: int, e: int| #[trigger]
                t1.at(a, b, e) == (if same_box(a, b, e, x, y, z, t0.depth_ as int) {
                    leaf
                } else {
                    t0.at(a, b, e)
                }),
            Self::refreshed_upto(t2, t1, x, y, z, 27),
        ensures
            t2.surface_ok(),
            forall|a: int, b: int, e: int|
                !(#[trigger] t2.at(a, b, e)).is_node() && t2.at(a, b, e).value % 0x4000 == (
                if same_box(a, b, e, x, y, z, t0.depth_ as int) {
                    leaf.value % 0x4000
                } else {
                    t0.at(a, b, e).value % 0x4000
                }),
    {
        let d = t0.depth_ as int;
        Self::lemma_refreshed_keeps(t1, t2, x, y, z, 27);
        assert forall|a: int, b: int, e: int| #[trigger] t2.surface_rule(a, b, e) by {
            Self::lemma_exposed_same(t1, t2, a, b, e);
            Self::lemma_rule_at(t0, t1, t2, x, y, z, leaf, a, b, e);
        }
    }

    /// The rule of the surface flag at one box, after a placement and the refresh.
    pub(crate) proof fn lemma_rule_at(
        t0: &Self,
        t1: &Self,
        t2: &Self,
        x: int,
        y: int,
        z: int,
        leaf: Child,
        a: int,
        b: int,
        e: int,
    )
        requires
            t0.arena_ok(),
            t0.surface_ok(),
            t1.arena_ok(),
            t1.shape_ok(),
            t1.depth_ == t0.depth_,
            forall|n1: int, n2: int, n3: int| #[trigger]
                t1.at(n1, n2, n3) == (if same_box(n1, n2, n3, x, y, z, t0.depth_ as int) {
                    leaf
                } else {
                    t0.at(n1, n2, n3)
                }),
            t2.at(a, b, e) == (if near_upto(a, b, e, x, y, z, 27, t0.depth_ as int) {
                dressed(t1.at(a, b, e), t1.exposed(a, b, e))
            } else {
                t1.at(a, b, e)
            }),
            t2.exposed(a, b, e) == t1.exposed(a, b, e),
        ensures
            t2.surface_rule(a, b, e),
    {
        let d = t0.depth_ as int;
        t1.lemma_probe_lands(a, b, e);
        crate::child::lemma_pack_fields(t1.at(a, b, e).value);
        if !near_upto(a, b, e, x, y, z, 27, d) {
            Self::lemma_far_keeps(t0, t1, x, y, z, leaf, a, b, e);
            assert(t0.surface_rule(a, b, e));
        }
    }
}

} // verus!

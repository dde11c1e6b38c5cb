//! Changes to the arena, one slot at a time: what a lookup finds before and
//! after a leaf is written or a chunk is hung into a void slot.

use crate::child::Child;
use crate::chunk::{Compression, Info};
use crate::coords::{
    chunk_index, fork, lemma_cell_step, lemma_pow16_pos, pow16, same_place, slot_of, Pos,
};
use crate::tree::{child_place, Found, SlotRef, Tree};
use vstd::prelude::*;

verus! {

/// Whether `(a, b, e)` and `(x, y, z)` name the same box of a world of depth `d`.
pub open spec fn same_box(a: int, b: int, e: int, x: int, y: int, z: int, d: int) -> bool {
    &&& same_place(a, x, d)
    &&& same_place(b, y, d)
    &&& same_place(e, z, d)
}

impl<C: Compression> Tree<C> {
    /// `post` is `pre` with another leaf in slot `s` of chunk `c`, and with
    /// counters of that chunk that may differ.
    pub open(crate) spec fn put_of(pre: &Self, post: &Self, c: int, s: int) -> bool {
        &&& post.depth_ == pre.depth_
        &&& post.compression_ == pre.compression_
        &&& post.places_@ == pre.places_@
        &&& post.num_free_nodes_ == pre.num_free_nodes_
        &&& post.first_free_node_ == pre.first_free_node_
        &&& post.chunks_@.len() == pre.chunks_@.len()
        &&& post.infos_@.len() == pre.infos_@.len()
        &&& forall|i: int|
            0 <= i < pre.infos_@.len() ==> (#[trigger] post.infos_@[i]).parent_index
                == pre.infos_@[i].parent_index
        &&& forall|i: int|
            0 <= i < pre.infos_@.len() && i != c ==> #[trigger] post.infos_@[i] == pre.infos_@[i]
        &&& forall|i: int, j: int|
            0 <= i < pre.chunks_@.len() && 0 <= j < 4096 && !(i == c && j == s)
                ==> #[trigger] post.slot(i, j) == pre.slot(i, j)
        &&& !pre.slot(c, s).is_node()
        &&& !post.slot(c, s).is_node()
        &&& post.slot(c, s).value == 0 || post.slot(c, s).is_solid()
    }

    /// A lookup after a leaf was written at the bottom, from a chunk on: it
    /// finds the new leaf for the box that the slot holds, and what it found
    /// before for every other.
    pub(crate) proof fn lemma_put_from(
        pre: &Self,
        post: &Self,
        c: int,
        s: int,
        x: int,
        y: int,
        z: int,
        c1: int,
        a: int,
        b: int,
        e: int,
    )
        requires
            pre.arena_ok(),
            pre.shape_ok(),
            Self::put_of(pre, post, c, s),
            0 <= c < pre.used(),
            pre.places_@[c].level == 0,
            pre.holds(c, x, y, z),
            slot_of(x, y, z, 0) == s,
            0 <= c1 < pre.used(),
            pre.holds(c1, a, b, e),
        ensures
            post.probe_from(c1, pre.places_@[c1].level, a, b, e) == (if same_box(
                a,
                b,
                e,
                x,
                y,
                z,
                pre.depth_ as int,
            ) {
                Found { chunk: c, level: 0, child: post.slot(c, s) }
            } else {
                pre.probe_from(c1, pre.places_@[c1].level, a, b, e)
            }),
        decreases pre.places_@[c1].level,
    {
        let l1 = pre.places_@[c1].level;
        let s1 = slot_of(a, b, e, l1);
        pre.lemma_step_down(c1, a, b, e);
        if c1 == c && s1 == s {
            pre.lemma_same_slot(c, a, b, e, x, y, z);
        } else {
            let child = pre.slot(c1, s1);
            assert(post.slot(c1, s1) == child);
            if child.is_node() && l1 > 0 {
                let t = child.node_index() as int;
                Self::lemma_put_from(pre, post, c, s, x, y, z, t, a, b, e);
            } else {
                if same_box(a, b, e, x, y, z, pre.depth_ as int) {
                    pre.lemma_same_box_holds(c1, a, b, e, x, y, z);
                    pre.lemma_probe_reaches(c1, x, y, z);
                    pre.lemma_probe_reaches(c, x, y, z);
                    assert(false);
                }
            }
        }
    }

    /// A tree with another leaf in a slot at the bottom: it keeps its shape,
    /// and a lookup finds the new leaf for the box that the slot holds, and
    /// what it found before for every other.
    pub(crate) proof fn lemma_put(pre: &Self, post: &Self, c: int, s: int, x: int, y: int, z: int)
        requires
            pre.arena_ok(),
            pre.shape_ok(),
            Self::put_of(pre, post, c, s),
            0 <= c < pre.used(),
            pre.places_@[c].level == 0,
            pre.holds(c, x, y, z),
            slot_of(x, y, z, 0) == s,
        ensures
            post.arena_ok(),
            post.shape_ok(),
            forall|a: int, b: int, e: int|
                #[trigger] post.probe(a, b, e) == (if same_box(
                    a,
                    b,
                    e,
                    x,
                    y,
                    z,
                    pre.depth_ as int,
                ) {
                    Found { chunk: c, level: 0, child: post.slot(c, s) }
                } else {
                    pre.probe(a, b, e)
                }),
    {
        let d = pre.depth_ as int;
        assert(0 <= s < 4096) by {
            lemma_cell_step(x, 0, d);
            lemma_cell_step(y, 0, d);
            lemma_cell_step(z, 0, d);
        }
        assert forall|i: int| post.used() <= i < post.chunks_@.len() implies #[trigger] post.free_chunk_ok(
            i,
        ) by {
            assert(pre.free_chunk_ok(i));
            assert(post.slot(i, 0) == pre.slot(i, 0));
            assert forall|j: int| 1 <= j < 4096 implies (#[trigger] post.slot(i, j)).value == 0 by {
                assert(post.slot(i, j) == pre.slot(i, j));
            }
        }
        assert forall|i: int| 0 <= i < post.used() implies #[trigger] post.place_ok(i) by {
            assert(pre.place_ok(i));
        }
        assert forall|i: int| 1 <= i < post.used() implies #[trigger] post.linked(i) by {
            assert(pre.linked(i));
            let p = pre.places_@[i];
            let up = pre.infos_@[i].parent_index as int;
            let j = crate::coords::join(p.x % 16, p.y % 16, p.z % 16);
            assert(post.infos_@[i].parent_index == up);
            assert(post.slot(up, j) == pre.slot(up, j));
        }
        assert forall|i: int, j: int| 0 <= i < post.used() && 0 <= j < 4096 implies #[trigger] post.slot_ok(
            i,
            j,
        ) by {
            assert(pre.slot_ok(i, j));
            if !(i == c && j == s) {
                assert(post.slot(i, j) == pre.slot(i, j));
            }
        }
        assert(post.infos_@[0].parent_index == pre.infos_@[0].parent_index);
        assert forall|a: int, b: int, e: int|
            #[trigger] post.probe(a, b, e) == (if same_box(a, b, e, x, y, z, d) {
                Found { chunk: c, level: 0, child: post.slot(c, s) }
            } else {
                pre.probe(a, b, e)
            }) by {
            pre.lemma_root_holds(a, b, e);
            Self::lemma_put_from(pre, post, c, s, x, y, z, 0, a, b, e);
        }
    }

    /// `post` is `pre` with the head of the free list hung into the void
    /// slot `s1` of chunk `c1`.
    pub open(crate) spec fn hang_of(pre: &Self, post: &Self, c1: int, s1: int) -> bool {
        let t = pre.used();
        &&& post.depth_ == pre.depth_
        &&& post.compression_ == pre.compression_
        &&& post.chunks_@.len() == pre.chunks_@.len()
        &&& post.infos_@.len() == pre.infos_@.len()
        &&& post.num_free_nodes_ == pre.num_free_nodes_ - 1
        &&& post.first_free_node_ == pre.slot(t, 0).value
        &&& post.places_@ == pre.places_@.update(t, child_place(pre.places_@[c1], s1))
        &&& post.infos_@ == pre.infos_@.update(
            t,
            Info {
                parent_index: c1 as u16,
                num_void_children: 4096,
                num_solid_children: 0,
                num_surface_children: 0,
            },
        )
        &&& forall|i: int, j: int|
            0 <= i < pre.chunks_@.len() && 0 <= j < 4096 ==> (#[trigger] post.slot(i, j)).value == (
            if i == c1 && j == s1 {
                0x8000 + t
            } else if i == t && j == 0 {
                0
            } else {
                pre.slot(i, j).value as int
            })
    }

    /// What hanging a chunk into a void slot asks for.
    pub open(crate) spec fn can_hang(&self, c1: int, s1: int) -> bool {
        &&& self.arena_ok()
        &&& self.shape_ok()
        &&& 0 <= c1 < self.used()
        &&& 0 <= s1 < 4096
        &&& self.places_@[c1].level > 0
        &&& self.slot(c1, s1).value == 0
        &&& self.num_free_nodes_ > 0
    }

    /// Whether the lookup from chunk `c2` on ends in slot `s1` of chunk `c1`.
    pub open(crate) spec fn ends_in(
        &self,
        c2: int,
        c1: int,
        s1: int,
        a: int,
        b: int,
        e: int,
    ) -> bool {
        let found = self.probe_from(c2, self.places_@[c2].level, a, b, e);
        found.chunk == c1 && slot_of(a, b, e, self.places_@[c1].level) == s1
    }

    /// A lookup after a chunk was hung into a void slot, from a chunk on: it
    /// finds what it found before, one level down where it ended in that slot.
    pub(crate) proof fn lemma_hang_from(
        pre: &Self,
        post: &Self,
        c1: int,
        s1: int,
        c2: int,
        a: int,
        b: int,
        e: int,
    )
        requires
            pre.can_hang(c1, s1),
            Self::hang_of(pre, post, c1, s1),
            0 <= c2 < pre.used(),
            pre.holds(c2, a, b, e),
        ensures
            post.probe_from(c2, pre.places_@[c2].level, a, b, e) == (if pre.ends_in(
                c2,
                c1,
                s1,
                a,
                b,
                e,
            ) {
                Found {
                    chunk: pre.used(),
                    level: pre.places_@[c1].level - 1,
                    child: Child { value: 0 },
                }
            } else {
                pre.probe_from(c2, pre.places_@[c2].level, a, b, e)
            }),
            pre.probe_from(c2, pre.places_@[c2].level, a, b, e).chunk == c1 ==> pre.places_@[c2].level
                >= pre.places_@[c1].level,
        decreases pre.places_@[c2].level,
    {
        let t = pre.used();
        let l2 = pre.places_@[c2].level;
        let s2 = slot_of(a, b, e, l2);
        pre.lemma_step_down(c2, a, b, e);
        let child = pre.slot(c2, s2);
        if c2 == c1 && s2 == s1 {
            let j = slot_of(a, b, e, l2 - 1);
            crate::coords::lemma_nib_bound(a, l2 - 1);
            crate::coords::lemma_nib_bound(b, l2 - 1);
            crate::coords::lemma_nib_bound(e, l2 - 1);
            assert(pre.free_chunk_ok(t));
            assert(post.slot(c1, s1).value == 0x8000 + t);
            assert(post.slot(c1, s1).node_index() == t);
            assert(post.slot(t, j).value == 0);
            assert(post.probe_from(t, l2 - 1, a, b, e) == Found {
                chunk: t,
                level: l2 - 1,
                child: post.slot(t, j),
            });
        } else {
            assert(post.slot(c2, s2).value == child.value);
            if child.is_node() && l2 > 0 {
                let t2 = child.node_index() as int;
                Self::lemma_hang_from(pre, post, c1, s1, t2, a, b, e);
            }
        }
    }

    /// No chunk in use lies where a chunk hung into a void slot will lie.
    pub(crate) proof fn lemma_hang_room(&self, c1: int, s1: int)
        requires
            self.can_hang(c1, s1),
        ensures
            forall|i: int|
                0 <= i < self.used() ==> #[trigger] self.places_@[i] != child_place(
                    self.places_@[c1],
                    s1,
                ),
    {
        let pt = child_place(self.places_@[c1], s1);
        assert(self.place_ok(c1));
        assert forall|i: int| 0 <= i < self.used() implies #[trigger] self.places_@[i] != pt by {
            if self.places_@[i] == pt {
                assert(self.place_ok(i));
                assert(i != 0);
                assert(self.linked(i));
                let up = self.infos_@[i].parent_index as int;
                assert(self.places_@[up] == self.places_@[c1]);
                assert(false);
            }
        }
    }

    /// The arena after a chunk was hung into a void slot: the free list
    /// has lost its head.
    pub(crate) proof fn lemma_hang_arena(pre: &Self, post: &Self, c1: int, s1: int)
        requires
            pre.can_hang(c1, s1),
            Self::hang_of(pre, post, c1, s1),
        ensures
            post.arena_ok(),
            post.used() == pre.used() + 1,
    {
        let t = pre.used();
        assert(pre.free_chunk_ok(t));
        assert forall|i: int| post.used() <= i < post.chunks_@.len() implies #[trigger] post.free_chunk_ok(
            i,
        ) by {
            assert(pre.free_chunk_ok(i));
            assert(post.slot(i, 0).value == pre.slot(i, 0).value);
            assert forall|j: int| 1 <= j < 4096 implies (#[trigger] post.slot(i, j)).value == 0 by {
                assert(post.slot(i, j).value == pre.slot(i, j).value);
            }
        }
    }

    /// The slots and links after a chunk was hung into a void slot.
    pub(crate) proof fn lemma_hang_links(pre: &Self, post: &Self, c1: int, s1: int)
        requires
            pre.can_hang(c1, s1),
            Self::hang_of(pre, post, c1, s1),
        ensures
            forall|i: int| 1 <= i < pre.used() + 1 ==> #[trigger] post.linked(i),
            forall|i: int, j: int|
                0 <= i < pre.used() + 1 && 0 <= j < 4096 ==> #[trigger] post.slot_ok(i, j),
    {
        let t = pre.used();
        assert(pre.free_chunk_ok(t));
        assert(pre.place_ok(c1));
        assert forall|i: int| 1 <= i < t + 1 implies #[trigger] post.linked(i) by {
            if i < t {
                assert(pre.linked(i));
                let p = pre.places_@[i];
                let up = pre.infos_@[i].parent_index as int;
                let j = crate::coords::join(p.x % 16, p.y % 16, p.z % 16);
                assert(post.slot(up, j).value == pre.slot(up, j).value);
            } else {
                assert(post.slot(c1, s1).value == 0x8000 + t);
            }
        }
        assert forall|i: int, j: int| 0 <= i < t + 1 && 0 <= j < 4096 implies #[trigger] post.slot_ok(
            i,
            j,
        ) by {
            if i < t {
                assert(pre.slot_ok(i, j));
                if i == c1 && j == s1 {
                    assert(post.slot(i, j).value == 0x8000 + t);
                } else {
                    assert(post.slot(i, j).value == pre.slot(i, j).value);
                    assert(post.slot(i, j) == pre.slot(i, j));
                }
            } else {
                assert(post.slot(i, j).value == 0);
            }
        }
    }

    /// A tree with a chunk hung into a void slot: it keeps its shape, and a
    /// lookup finds what it found before, one level down where it ended in
    /// that slot.
    pub(crate) proof fn lemma_hang(pre: &Self, post: &Self, c1: int, s1: int)
        requires
            pre.can_hang(c1, s1),
            Self::hang_of(pre, post, c1, s1),
        ensures
            post.arena_ok(),
            post.shape_ok(),
            post.used() == pre.used() + 1,
            forall|a: int, b: int, e: int|
                #[trigger] post.probe(a, b, e) == (if pre.ends_in(0, c1, s1, a, b, e) {
                    Found {
                        chunk: pre.used(),
                        level: pre.places_@[c1].level - 1,
                        child: Child { value: 0 },
                    }
                } else {
                    pre.probe(a, b, e)
                }),
    {
        let d = pre.depth_ as int;
        let t = pre.used();
        let l1 = pre.places_@[c1].level;
        Self::lemma_hang_arena(pre, post, c1, s1);
        Self::lemma_hang_links(pre, post, c1, s1);
        pre.lemma_hang_room(c1, s1);
        assert(pre.place_ok(c1));
        assert forall|i: int| 0 <= i < post.used() implies #[trigger] post.place_ok(i) by {
            if i < t {
                assert(pre.place_ok(i));
            } else {
                lemma_pow16_pos(d - 1 - l1);
                assert(pow16(d - l1) == 16 * pow16(d - 1 - l1));
            }
        }
        assert forall|i: int, k: int|
            0 <= i < post.used() && 0 <= k < post.used() && #[trigger] post.places_@[i]
                == #[trigger] post.places_@[k] implies i == k by {
            if i < t && k < t {
                assert(pre.places_@[i] == pre.places_@[k]);
            }
        }
        assert forall|a: int, b: int, e: int|
            #[trigger] post.probe(a, b, e) == (if pre.ends_in(0, c1, s1, a, b, e) {
                Found { chunk: t, level: l1 - 1, child: Child { value: 0 } }
            } else {
                pre.probe(a, b, e)
            }) by {
            pre.lemma_root_holds(a, b, e);
            Self::lemma_hang_from(pre, post, c1, s1, 0, a, b, e);
        }
    }

    /// The way down after a chunk was hung into a void slot, from a chunk
    /// on: it goes where it went, and on into the new chunk where it ended in
    /// that slot.
    pub(crate) proof fn lemma_hang_way_from(
        pre: &Self,
        post: &Self,
        c1: int,
        s1: int,
        c2: int,
        a: int,
        b: int,
        e: int,
        l: int,
    )
        requires
            pre.can_hang(c1, s1),
            Self::hang_of(pre, post, c1, s1),
            0 <= c2 < pre.used(),
            pre.holds(c2, a, b, e),
        ensures
            post.way_from(c2, pre.places_@[c2].level, a, b, e, l) == (if pre.ends_in(
                c2,
                c1,
                s1,
                a,
                b,
                e,
            ) && l < pre.places_@[c1].level {
                pre.used()
            } else {
                pre.way_from(c2, pre.places_@[c2].level, a, b, e, l)
            }),
        decreases pre.places_@[c2].level,
    {
        let t = pre.used();
        let l2 = pre.places_@[c2].level;
        let s2 = slot_of(a, b, e, l2);
        pre.lemma_step_down(c2, a, b, e);
        Self::lemma_hang_from(pre, post, c1, s1, c2, a, b, e);
        let child = pre.slot(c2, s2);
        if c2 == c1 && s2 == s1 {
            let j = slot_of(a, b, e, l2 - 1);
            crate::coords::lemma_nib_bound(a, l2 - 1);
            crate::coords::lemma_nib_bound(b, l2 - 1);
            crate::coords::lemma_nib_bound(e, l2 - 1);
            assert(pre.free_chunk_ok(t));
            assert(post.slot(c1, s1).value == 0x8000 + t);
            assert(post.slot(c1, s1).node_index() == t);
            assert(post.slot(t, j).value == 0);
            assert(post.way_from(t, l2 - 1, a, b, e, l) == t);
        } else {
            assert(post.slot(c2, s2).value == child.value);
            if child.is_node() && l2 > 0 {
                let t2 = child.node_index() as int;
                if l2 > l {
                    Self::lemma_hang_way_from(pre, post, c1, s1, t2, a, b, e, l);
                }
            }
        }
    }

    /// The way down after a leaf was written over a leaf: it goes where it went.
    pub(crate) proof fn lemma_put_way_from(
        pre: &Self,
        post: &Self,
        c: int,
        s: int,
        c2: int,
        a: int,
        b: int,
        e: int,
        l: int,
    )
        requires
            pre.arena_ok(),
            pre.shape_ok(),
            Self::put_of(pre, post, c, s),
            0 <= c2 < pre.used(),
            pre.holds(c2, a, b, e),
        ensures
            post.way_from(c2, pre.places_@[c2].level, a, b, e, l) == pre.way_from(
                c2,
                pre.places_@[c2].level,
                a,
                b,
                e,
                l,
            ),
        decreases pre.places_@[c2].level,
    {
        let l2 = pre.places_@[c2].level;
        let s2 = slot_of(a, b, e, l2);
        pre.lemma_step_down(c2, a, b, e);
        let child = pre.slot(c2, s2);
        if !(c2 == c && s2 == s) {
            assert(post.slot(c2, s2) == child);
            if l2 > l && l2 > 0 && child.is_node() {
                Self::lemma_put_way_from(pre, post, c, s, child.node_index() as int, a, b, e, l);
            }
        }
    }

    /// Takes the head of the free list and hangs it into the void slot
    /// `index` of `chunk`: the new chunk is void all through, and its record
    /// names `chunk` as its parent. Returns the index of the new chunk.
    pub(crate) fn hang(&mut self, chunk: u16, index: u16) -> (t: u16)
        requires
            old(self).wf(),
            old(self).can_hang(chunk as int, index as int),
        ensures
            final(self).wf(),
            Self::hang_of(old(self), final(self), chunk as int, index as int),
            t == old(self).used(),
    {
        let t = self.first_free_node_;
        proof {
            assert(self.free_chunk_ok(t as int));
        }
        self.num_free_nodes_ = self.num_free_nodes_ - 1;
        self.first_free_node_ = self.chunks_[t as usize].children[0].value;
        self.chunks_[t as usize].children[0] = Child::void();
        self.chunks_[chunk as usize].children[index as usize] = Child::node_from_index(t);
        self.infos_[t as usize].parent_index = chunk;
        proof {
            self.places_@ = self.places_@.update(
                t as int,
                child_place(self.places_@[chunk as int], index as int),
            );
            assert(self.infos_@ =~= old(self).infos_@.update(
                t as int,
                Info {
                    parent_index: chunk,
                    num_void_children: 4096,
                    num_solid_children: 0,
                    num_surface_children: 0,
                },
            ));
            Self::lemma_hang(old(self), self, chunk as int, index as int);
            Self::lemma_hang_keeps(old(self), self, chunk as int, index as int);
        }
        t
    }

    /// Hanging a chunk into a void slot changes no box.
    pub(crate) proof fn lemma_hang_keeps(pre: &Self, post: &Self, c1: int, s1: int)
        requires
            pre.can_hang(c1, s1),
            Self::hang_of(pre, post, c1, s1),
        ensures
            forall|a: int, b: int, e: int| #[trigger] post.at(a, b, e) == pre.at(a, b, e),
            forall|a: int, b: int, e: int| #[trigger]
                post.leaf_level(a, b, e) == (if pre.ends_in(0, c1, s1, a, b, e) {
                    pre.leaf_level(a, b, e) - 1
                } else {
                    pre.leaf_level(a, b, e)
                }),
            pre.surface_ok() ==> post.surface_ok(),
            pre.counters_ok() ==> post.counters_ok(),
            forall|a: int, b: int, e: int, l: int| #[trigger]
                post.way(a, b, e, l) == (if pre.ends_in(0, c1, s1, a, b, e) && l
                    < pre.places_@[c1].level {
                    pre.used()
                } else {
                    pre.way(a, b, e, l)
                }),
    {
        Self::lemma_hang(pre, post, c1, s1);
        assert forall|a: int, b: int, e: int, l: int| #[trigger]
            post.way(a, b, e, l) == (if pre.ends_in(0, c1, s1, a, b, e) && l
                < pre.places_@[c1].level {
                pre.used()
            } else {
                pre.way(a, b, e, l)
            }) by {
            pre.lemma_root_holds(a, b, e);
            Self::lemma_hang_way_from(pre, post, c1, s1, 0, a, b, e, l);
        }
        if pre.counters_ok() {
            let t = pre.used();
            assert forall|c: int| 0 <= c < post.used() implies #[trigger] post.counted(c) by {
                let a = pre.chunks_@[c].children@;
                let b = post.chunks_@[c].children@;
                if c < t {
                    assert(pre.counted(c));
                    assert forall|i: int| 0 <= i < 4096 implies crate::chunk::holds_box(
                        #[trigger] a[i],
                    ) == crate::chunk::holds_box(b[i]) by {
                        assert(post.slot(c, i).value == (if c == c1 && i == s1 {
                            0x8000 + t
                        } else {
                            pre.slot(c, i).value as int
                        }));
                    }
                    crate::chunk::lemma_boxes_same(a, b, 4096);
                } else {
                    assert(pre.free_chunk_ok(t));
                    assert forall|i: int| 0 <= i < 4096 implies (#[trigger] b[i]).value == 0 by {
                        assert(post.slot(t, i).value == (if i == 0 {
                            0
                        } else {
                            pre.slot(t, i).value as int
                        }));
                    }
                    crate::chunk::lemma_boxes_none(b, 4096);
                }
            }
        }
        assert forall|a: int, b: int, e: int|
            #![trigger post.at(a, b, e)]
            #![trigger post.leaf_level(a, b, e)]
            post.at(a, b, e) == pre.at(a, b, e) && post.leaf_level(a, b, e) == (if pre.ends_in(
                0,
                c1,
                s1,
                a,
                b,
                e,
            ) {
                pre.leaf_level(a, b, e) - 1
            } else {
                pre.leaf_level(a, b, e)
            }) by {
            pre.lemma_probe_lands(a, b, e);
        }
        if pre.surface_ok() {
            assert forall|x: int, y: int, z: int| #[trigger] post.open_at(x, y, z) == pre.open_at(
                x,
                y,
                z,
            ) by {
                assert(post.at(x, y, z) == pre.at(x, y, z));
            }
            assert forall|x: int, y: int, z: int| #[trigger] post.surface_rule(x, y, z) by {
                assert(pre.surface_rule(x, y, z));
                assert(post.at(x, y, z) == pre.at(x, y, z));
                Self::lemma_exposed_same(pre, post, x, y, z);
            }
        }
    }

    /// Builds the path to the box at `pos` out to the bottom: wherever the way
    /// down ends in a void slot, a chunk from the free list is hung into it.
    /// Returns the chunk at the bottom that holds the box, or `None` where the
    /// free list ran out on the way; the chunks hung in up to there stay.
    pub(crate) fn dig(&mut self, pos: Pos) -> (r: Option<u16>)
        requires
            old(self).wf(),
        ensures
            final(self).wf(),
            final(self).depth_ == old(self).depth_,
            final(self).compression_ == old(self).compression_,
            final(self).chunks_@.len() == old(self).chunks_@.len(),
            forall|a: int, b: int, e: int| #[trigger]
                final(self).at(a, b, e) == old(self).at(a, b, e),
            r is Some <==> old(self).leaf_level(pos.x as int, pos.y as int, pos.z as int) <= old(
                self,
            ).num_free_nodes_,
            r matches Some(c) ==> {
                &&& c < final(self).used()
                &&& final(self).places_@[c as int].level == 0
                &&& final(self).holds(c as int, pos.x as int, pos.y as int, pos.z as int)
                &&& final(self).num_free_nodes_ == old(self).num_free_nodes_ - old(
                    self,
                ).leaf_level(pos.x as int, pos.y as int, pos.z as int)
            },
            r is None ==> final(self).num_free_nodes_ == 0,
            final(self).num_free_nodes_ == old(self).num_free_nodes_ ==> *final(self) == *old(self),
            final(self).leaf_level(pos.x as int, pos.y as int, pos.z as int) == vstd::math::max(
                0,
                old(self).leaf_level(pos.x as int, pos.y as int, pos.z as int) - old(
                    self,
                ).num_free_nodes_,
            ),
            forall|a: int, b: int, e: int| #[trigger]
                final(self).leaf_level(a, b, e) == vstd::math::min(
                    old(self).leaf_level(a, b, e),
                    vstd::math::max(
                        fork(a, b, e, pos.x as int, pos.y as int, pos.z as int, old(self).depth_ as int),
                        final(self).leaf_level(pos.x as int, pos.y as int, pos.z as int),
                    ),
                ),
            forall|a: int, b: int, e: int, l: int|
                final(self).leaf_level(a, b, e) <= l ==> #[trigger] final(self).way(a, b, e, l) == (
                if l >= old(self).leaf_level(a, b, e) {
                    old(self).way(a, b, e, l)
                } else {
                    old(self).used() + old(self).leaf_level(
                        pos.x as int,
                        pos.y as int,
                        pos.z as int,
                    ) - 1 - l
                }),
    {
        let ghost (x, y, z) = (pos.x as int, pos.y as int, pos.z as int);
        let mut chunk: u16 = 0;
        let mut level: u8 = self.depth_ - 1;
        proof {
            self.lemma_root_holds(x, y, z);
            self.lemma_probe_lands(x, y, z);
            assert forall|a: int, b: int, e: int| #[trigger]
                self.leaf_level(a, b, e) == vstd::math::min(
                    self.leaf_level(a, b, e),
                    vstd::math::max(
                        fork(a, b, e, x, y, z, self.depth_ as int),
                        self.leaf_level(x, y, z),
                    ),
                ) by {
                self.lemma_fork_bound(a, b, e, x, y, z);
            }
        }
        while level > 0
            invariant
                self.wf(),
                self.depth_ == old(self).depth_,
                self.compression_ == old(self).compression_,
                self.chunks_@.len() == old(self).chunks_@.len(),
                forall|a: int, b: int, e: int| #[trigger] self.at(a, b, e) == old(self).at(a, b, e),
                chunk < self.used(),
                self.num_free_nodes_ <= old(self).num_free_nodes_,
                self.num_free_nodes_ == old(self).num_free_nodes_ ==> *self == *old(self),
                self.places_@[chunk as int].level == level,
                self.holds(chunk as int, x, y, z),
                x == pos.x,
                y == pos.y,
                z == pos.z,
                0 <= self.leaf_level(x, y, z) <= level,
                old(self).num_free_nodes_ - self.num_free_nodes_ == old(self).leaf_level(x, y, z)
                    - self.leaf_level(x, y, z),
                forall|a: int, b: int, e: int| #[trigger]
                    self.leaf_level(a, b, e) == vstd::math::min(
                        old(self).leaf_level(a, b, e),
                        vstd::math::max(
                            fork(a, b, e, x, y, z, self.depth_ as int),
                            self.leaf_level(x, y, z),
                        ),
                    ),
                forall|a: int, b: int, e: int, l: int|
                    self.leaf_level(a, b, e) <= l ==> #[trigger] self.way(a, b, e, l) == (if l
                        >= old(self).leaf_level(a, b, e) {
                        old(self).way(a, b, e, l)
                    } else {
                        old(self).used() + old(self).leaf_level(x, y, z) - 1 - l
                    }),
            decreases level,
        {
            proof {
                self.lemma_step_down(chunk as int, x, y, z);
            }
            let index = chunk_index(pos, level);
            let mut child = self.chunks_[chunk as usize].children[index as usize];
            proof {
                self.lemma_probe_reaches(chunk as int, x, y, z);
                assert(child == self.slot(chunk as int, index as int));
            }
            if child.is_void() {
                if self.first_free_node_ == 0 {
                    return None;
                }
                let ghost before = *self;
                let t = self.hang(chunk, index);
                proof {
                    Self::lemma_hang_keeps(&before, self, chunk as int, index as int);
                    assert(self.leaf_level(x, y, z) == before.leaf_level(x, y, z) - 1);
                    assert forall|a: int, b: int, e: int| #[trigger]
                        self.leaf_level(a, b, e) == vstd::math::min(
                            old(self).leaf_level(a, b, e),
                            vstd::math::max(
                                fork(a, b, e, x, y, z, self.depth_ as int),
                                self.leaf_level(x, y, z),
                            ),
                        ) by {
                        before.lemma_ends_in_fork(chunk as int, index as int, a, b, e, x, y, z);
                        assert(before.leaf_level(a, b, e) == vstd::math::min(
                            old(self).leaf_level(a, b, e),
                            vstd::math::max(
                                fork(a, b, e, x, y, z, self.depth_ as int),
                                before.leaf_level(x, y, z),
                            ),
                        ));
                    }
                    assert forall|a: int, b: int, e: int, l: int|
                        self.leaf_level(a, b, e) <= l implies #[trigger] self.way(a, b, e, l) == (
                    if l >= old(self).leaf_level(a, b, e) {
                        old(self).way(a, b, e, l)
                    } else {
                        old(self).used() + old(self).leaf_level(x, y, z) - 1 - l
                    }) by {
                        before.lemma_ends_in_fork(chunk as int, index as int, a, b, e, x, y, z);
                        assert(before.leaf_level(a, b, e) == vstd::math::min(
                            old(self).leaf_level(a, b, e),
                            vstd::math::max(
                                fork(a, b, e, x, y, z, self.depth_ as int),
                                before.leaf_level(x, y, z),
                            ),
                        ));
                        if before.leaf_level(a, b, e) <= l {
                            assert(before.way(a, b, e, l) == (if l >= old(self).leaf_level(
                                a,
                                b,
                                e,
                            ) {
                                old(self).way(a, b, e, l)
                            } else {
                                old(self).used() + old(self).leaf_level(x, y, z) - 1 - l
                            }));
                        }
                    }
                    assert forall|a: int, b: int, e: int| #[trigger]
                        self.at(a, b, e) == old(self).at(a, b, e) by {
                        assert(self.at(a, b, e) == before.at(a, b, e));
                    }
                }
                child = Child::node_from_index(t);
                proof {
                    assert(self.slot(chunk as int, index as int).value == child.value);
                    self.lemma_step_down(chunk as int, x, y, z);
                }
            } else {
                proof {
                    self.lemma_probe_lands_from(child.node_index() as int, x, y, z);
                }
            }
            chunk = child.node_index();
            level = level - 1;
        }
        Some(chunk)
    }

    /// Writes `leaf` into the slot at the bottom that holds the box at
    /// `(x, y, z)`, and with `count` adds one to the counter of the chunk.
    pub(crate) fn put(
        &mut self,
        at: SlotRef,
        leaf: Child,
        count: bool,
        Ghost(x): Ghost<int>,
        Ghost(y): Ghost<int>,
        Ghost(z): Ghost<int>,
    )
        requires
            old(self).arena_ok(),
            old(self).shape_ok(),
            at.chunk < old(self).used(),
            old(self).places_@[at.chunk as int].level == 0,
            old(self).holds(at.chunk as int, x, y, z),
            slot_of(x, y, z, 0) == at.index,
            !leaf.is_node(),
            leaf.value == 0 || leaf.is_solid(),
            count ==> old(self).infos_@[at.chunk as int].num_void_children < 0xffff,
        ensures
            final(self).arena_ok(),
            final(self).shape_ok(),
            Self::put_of(old(self), final(self), at.chunk as int, at.index as int),
            final(self).slot(at.chunk as int, at.index as int) == leaf,
            final(self).infos_@ == old(self).infos_@.update(
                at.chunk as int,
                Info {
                    num_void_children: (old(self).infos_@[at.chunk as int].num_void_children + (
                    if count {
                        1int
                    } else {
                        0
                    })) as u16,
                    ..old(self).infos_@[at.chunk as int]
                },
            ),
            forall|a: int, b: int, e: int| #[trigger]
                final(self).probe(a, b, e) == (if same_box(
                    a,
                    b,
                    e,
                    x,
                    y,
                    z,
                    old(self).depth_ as int,
                ) {
                    Found { chunk: at.chunk as int, level: 0, child: leaf }
                } else {
                    old(self).probe(a, b, e)
                }),
            forall|a: int, b: int, e: int, l: int| #[trigger]
                final(self).way(a, b, e, l) == old(self).way(a, b, e, l),
    {
        proof {
            self.lemma_step_down(at.chunk as int, x, y, z);
        }
        self.chunks_[at.chunk as usize].children[at.index as usize] = leaf;
        if count {
            let n = self.infos_[at.chunk as usize].num_void_children;
            self.infos_[at.chunk as usize].num_void_children = n + 1;
        }
        proof {
            assert(self.slot(at.chunk as int, at.index as int) == leaf);
            assert(self.infos_@ =~= old(self).infos_@.update(
                at.chunk as int,
                Info {
                    num_void_children: (old(self).infos_@[at.chunk as int].num_void_children + (
                    if count {
                        1int
                    } else {
                        0
                    })) as u16,
                    ..old(self).infos_@[at.chunk as int]
                },
            ));
            Self::lemma_put(old(self), self, at.chunk as int, at.index as int, x, y, z);
            assert forall|a: int, b: int, e: int, l: int| #[trigger]
                self.way(a, b, e, l) == old(self).way(a, b, e, l) by {
                old(self).lemma_root_holds(a, b, e);
                Self::lemma_put_way_from(
                    old(self),
                    self,
                    at.chunk as int,
                    at.index as int,
                    0,
                    a,
                    b,
                    e,
                    l,
                );
            }
        }
    }
}

} // verus!

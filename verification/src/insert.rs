//! Placing boxes: the public edits of a tree.

use crate::child::Child;
use crate::chunk::{boxes, holds_box, lemma_boxes_put, lemma_boxes_same, Compression};
use crate::coords::{chunk_index, fork, Pos};
use crate::edit::same_box;
use crate::leaf::Leaf;
use crate::surface::flagged;
use crate::tree::{SlotRef, Tree};
use vstd::prelude::*;

verus! {

/// An edit that a tree does not carry out. The tree is as it was before.
#[derive(Copy, Clone, PartialEq, Eq, Structural, Debug)]
pub enum Unsupported {
    /// A box was to be taken away: a void leaf was to be put in.
    Delete,
    /// The new leaf is as solid as the leaf in its place: a solid box on a
    /// solid box, or a passable box in empty space.
    SameSolidity,
    /// A passable box was to take the place of a solid one.
    Transparent,
}

impl<C: Compression> Tree<C> {
    /// Whether `post` is `pre` with the box of `leaf` placed at `pos`: the
    /// chunks that the way to the box lacked have left the free list, the leaf
    /// at `pos` has the solid flag and the box specifier of `leaf`, every other
    /// leaf has those it had, every surface flag is as the rule asks, and
    /// every leaf is found where it was or, below that, where the way to it
    /// parts from the way to the box.
    pub open spec fn placed(pre: &Self, post: &Self, pos: Pos, leaf: Leaf) -> bool {
        &&& post.spec_num_free_nodes() == pre.spec_num_free_nodes() - pre.leaf_level(
            pos.x as int,
            pos.y as int,
            pos.z as int,
        )
        &&& forall|a: int, b: int, e: int|
            !(#[trigger] post.at(a, b, e)).is_node() && post.at(a, b, e).ext_spec() == (
            if same_box(a, b, e, pos.x as int, pos.y as int, pos.z as int, pre.spec_depth()) {
                leaf@.ext_spec()
            } else {
                pre.at(a, b, e).ext_spec()
            })
        &&& forall|a: int, b: int, e: int| #[trigger] post.surface_rule(a, b, e)
        &&& forall|a: int, b: int, e: int| #[trigger]
            post.leaf_level(a, b, e) == vstd::math::min(
                pre.leaf_level(a, b, e),
                fork(a, b, e, pos.x as int, pos.y as int, pos.z as int, pre.spec_depth()),
            )
        &&& Self::grown(pre, post, pos)
    }

    /// Whether the chunks of `post` are those of `pre` and, below them on
    /// the way to the box at `pos`, the chunks that were at the head of the free
    /// list of `pre`, in the order of the list from the top down: every way
    /// passes through the chunks that it passed through, and on through the
    /// new ones as far as it follows the way to the box.
    pub open spec fn grown(pre: &Self, post: &Self, pos: Pos) -> bool {
        forall|a: int, b: int, e: int, l: int|
            post.leaf_level(a, b, e) <= l ==> #[trigger] post.way(a, b, e, l) == (if l
                >= pre.leaf_level(a, b, e) {
                pre.way(a, b, e, l)
            } else {
                pre.capacity() - pre.spec_num_free_nodes() + pre.leaf_level(
                    pos.x as int,
                    pos.y as int,
                    pos.z as int,
                ) - 1 - l
            })
    }

    /// Whether `post` is `pre` after the free list ran out on the way to the
    /// box at `pos`: the list is empty, every leaf is as it was, and the way
    /// to the box is built out as far as the list reached. Where the list
    /// was empty before, the tree is as it was.
    pub open spec fn exhausted(pre: &Self, post: &Self, pos: Pos) -> bool {
        &&& post.spec_num_free_nodes() == 0
        &&& pre.spec_num_free_nodes() == 0 ==> *post == *pre
        &&& forall|a: int, b: int, e: int| #[trigger] post.at(a, b, e) == pre.at(a, b, e)
        &&& forall|a: int, b: int, e: int| #[trigger]
            post.leaf_level(a, b, e) == vstd::math::min(
                pre.leaf_level(a, b, e),
                vstd::math::max(
                    fork(a, b, e, pos.x as int, pos.y as int, pos.z as int, pre.spec_depth()),
                    pre.leaf_level(pos.x as int, pos.y as int, pos.z as int)
                        - pre.spec_num_free_nodes(),
                ),
            )
        &&& Self::grown(pre, post, pos)
    }

    /// Places a box: puts `new_leaf`, which is not void, at `pos`.
    ///
    /// The way to the box comes first. Where it lacks more chunks than the
    /// free list holds, the way is built out with the chunks that the list
    /// has, and the result is `Ok(false)`, whatever the leaf: no box has
    /// changed, the chunks taken stay in the tree, and the list is empty.
    ///
    /// Where the list holds enough, only a solid box in the place of a leaf
    /// that is not solid can be placed; every other edit is turned down with
    /// the tree unchanged. For a box that can be placed the way is built out
    /// to the bottom, the box is put in, the surface flags of the box and of
    /// its 26 neighbours are set by the rule of the surface flag, and the
    /// result is `Ok(true)`.
    pub fn set_non_void_at_pos(&mut self, pos: Pos, new_leaf: Leaf) -> (r: Result<bool, Unsupported>)
        requires
            old(self).wf(),
            !new_leaf@.is_void(),
        ensures
            final(self).wf(),
            final(self).spec_depth() == old(self).spec_depth(),
            final(self).capacity() == old(self).capacity(),
            final(self).compression() == old(self).compression(),
            r == Ok::<bool, Unsupported>(false) <==> old(self).leaf_level(
                pos.x as int,
                pos.y as int,
                pos.z as int,
            ) > old(self).spec_num_free_nodes(),
            r == Err::<bool, Unsupported>(Unsupported::SameSolidity) <==> old(self).leaf_level(
                pos.x as int,
                pos.y as int,
                pos.z as int,
            ) <= old(self).spec_num_free_nodes() && old(self).at(
                pos.x as int,
                pos.y as int,
                pos.z as int,
            ).is_solid() == new_leaf@.is_solid(),
            r == Err::<bool, Unsupported>(Unsupported::Transparent) <==> old(self).at(
                pos.x as int,
                pos.y as int,
                pos.z as int,
            ).is_solid() && !new_leaf@.is_solid(),
            r == Ok::<bool, Unsupported>(true) <==> old(self).leaf_level(
                pos.x as int,
                pos.y as int,
                pos.z as int,
            ) <= old(self).spec_num_free_nodes() && !old(self).at(
                pos.x as int,
                pos.y as int,
                pos.z as int,
            ).is_solid() && new_leaf@.is_solid(),
            r is Err ==> *final(self) == *old(self),
            r == Ok::<bool, Unsupported>(false) ==> Self::exhausted(old(self), final(self), pos),
            r == Ok::<bool, Unsupported>(true) ==> Self::placed(
                old(self),
                final(self),
                pos,
                new_leaf,
            ),
    {
        let ghost (x, y, z) = (pos.x as int, pos.y as int, pos.z as int);
        let (old_leaf, level) = self.find(pos);
        let leaf: Child = *new_leaf.as_child();
        proof {
            self.lemma_probe_lands(x, y, z);
        }
        if (level as u16) <= self.num_free_nodes_ {
            if old_leaf.as_child().is_solid() == leaf.is_solid() {
                return Err(Unsupported::SameSolidity);
            }
            if !leaf.is_solid() {
                return Err(Unsupported::Transparent);
            }
        }
        let bottom = self.dig(pos);
        match bottom {
            None => Ok(false),
            Some(chunk) => {
                let ghost t0 = *self;
                proof {
                    t0.lemma_step_down(chunk as int, x, y, z);
                    t0.lemma_probe_reaches(chunk as int, x, y, z);
                    assert(t0.counted(chunk as int));
                }
                let index = chunk_index(pos, 0);
                let prior = self.chunks_[chunk as usize].children[index as usize];
                proof {
                    assert(prior == t0.slot(chunk as int, index as int));
                    assert(prior == t0.at(x, y, z));
                    assert(prior.value == 0);
                    lemma_boxes_put(
                        t0.chunks_@[chunk as int].children@,
                        t0.chunks_@[chunk as int].children@,
                        index as int,
                        4096,
                    );
                }
                self.put(
                    SlotRef { chunk: chunk, index: index },
                    leaf,
                    prior.is_void(),
                    Ghost(x),
                    Ghost(y),
                    Ghost(z),
                );
                let ghost t1 = *self;
                let flags = self.sample(pos);
                self.refresh(pos, &flags);
                proof {
                    Self::lemma_surface_restored(&t0, &t1, self, x, y, z, leaf);
                    Self::lemma_recounted(&t0, &t1, self, chunk as int, index as int);
                    assert forall|a: int, b: int, e: int| #[trigger]
                        self.leaf_level(a, b, e) == vstd::math::min(
                            old(self).leaf_level(a, b, e),
                            fork(a, b, e, x, y, z, old(self).spec_depth()),
                        ) by {
                        assert(self.leaf_level(a, b, e) == t1.leaf_level(a, b, e));
                        crate::coords::lemma_fork(a, b, e, x, y, z, t0.depth_ as int, 1);
                        if same_box(a, b, e, x, y, z, t0.depth_ as int) {
                            t0.lemma_probe_wrap(a, b, e, x, y, z);
                        }
                        assert(t0.leaf_level(a, b, e) == vstd::math::min(
                            old(self).leaf_level(a, b, e),
                            vstd::math::max(
                                fork(a, b, e, x, y, z, old(self).depth_ as int),
                                t0.leaf_level(x, y, z),
                            ),
                        ));
                    }
                }
                Ok(true)
            },
        }
    }

    /// The counters after a box was placed in a void slot and flags were refreshed.
    pub(crate) proof fn lemma_recounted(t0: &Self, t1: &Self, t2: &Self, c: int, s: int)
        requires
            t0.arena_ok(),
            t0.shape_ok(),
            t0.counters_ok(),
            0 <= c < t0.used(),
            0 <= s < 4096,
            t0.slot(c, s).value == 0,
            Self::put_of(t0, t1, c, s),
            t1.slot(c, s).is_solid(),
            t1.infos_@ == t0.infos_@.update(
                c,
                crate::chunk::Info {
                    num_void_children: (t0.infos_@[c].num_void_children + 1) as u16,
                    ..t0.infos_@[c]
                },
            ),
            t0.infos_@[c].num_void_children < 0xffff,
            Self::flags_of(t2, t1),
        ensures
            t2.counters_ok(),
    {
        assert forall|i: int| 0 <= i < t2.used() implies #[trigger] t2.counted(i) by {
            let a = t0.chunks_@[i].children@;
            let b = t2.chunks_@[i].children@;
            assert(t0.counted(i));
            assert forall|j: int| 0 <= j < 4096 && !(i == c && j == s) implies holds_box(
                #[trigger] a[j],
            ) == holds_box(b[j]) by {
                assert(t1.slot(i, j) == t0.slot(i, j));
                assert(flagged(t1.slot(i, j), t2.slot(i, j)));
            }
            assert(flagged(t1.slot(c, s), t2.slot(c, s)));
            if i == c {
                lemma_boxes_put(a, b, s, 4096);
            } else {
                lemma_boxes_same(a, b, 4096);
            }
        }
    }

    /// Takes the box at `pos` away. A tree does not carry this out yet: it
    /// turns the edit down and stays as it is.
    pub fn set_void_at_pos(&mut self, pos: Pos) -> (r: Result<(), Unsupported>)
        ensures
            r == Err::<(), Unsupported>(Unsupported::Delete),
            *final(self) == *old(self),
    {
        Err(Unsupported::Delete)
    }

    /// Puts `new_leaf` at `pos`: takes the box there away where the leaf is
    /// void, and places a box else.
    pub fn set_at_pos(&mut self, pos: Pos, new_leaf: Leaf) -> (r: Result<bool, Unsupported>)
        requires
            old(self).wf(),
        ensures
            final(self).wf(),
            final(self).spec_depth() == old(self).spec_depth(),
            final(self).capacity() == old(self).capacity(),
            final(self).compression() == old(self).compression(),
            r == Err::<bool, Unsupported>(Unsupported::Delete) <==> new_leaf@.is_void(),
            r == Ok::<bool, Unsupported>(false) <==> !new_leaf@.is_void() && old(self).leaf_level(
                pos.x as int,
                pos.y as int,
                pos.z as int,
            ) > old(self).spec_num_free_nodes(),
            r == Err::<bool, Unsupported>(Unsupported::SameSolidity) <==> !new_leaf@.is_void()
                && old(self).leaf_level(pos.x as int, pos.y as int, pos.z as int) <= old(
                self,
            ).spec_num_free_nodes() && old(self).at(
                pos.x as int,
                pos.y as int,
                pos.z as int,
            ).is_solid() == new_leaf@.is_solid(),
            r == Err::<bool, Unsupported>(Unsupported::Transparent) <==> !new_leaf@.is_void()
                && old(self).at(pos.x as int, pos.y as int, pos.z as int).is_solid()
                && !new_leaf@.is_solid(),
            r == Ok::<bool, Unsupported>(true) <==> old(self).leaf_level(
                pos.x as int,
                pos.y as int,
                pos.z as int,
            ) <= old(self).spec_num_free_nodes() && !old(self).at(
                pos.x as int,
                pos.y as int,
                pos.z as int,
            ).is_solid() && new_leaf@.is_solid(),
            r is Err ==> *final(self) == *old(self),
            r == Ok::<bool, Unsupported>(false) ==> Self::exhausted(old(self), final(self), pos),
            r == Ok::<bool, Unsupported>(true) ==> Self::placed(
                old(self),
                final(self),
                pos,
                new_leaf,
            ),
    {
        if new_leaf.as_child().is_void() {
            match self.set_void_at_pos(pos) {
                Ok(()) => Ok(true),
                Err(e) => Err(e),
            }
        } else {
            self.set_non_void_at_pos(pos, new_leaf)
        }
    }
}

} // verus!

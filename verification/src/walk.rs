//! The walk over the boxes that a view volume shows: depth first through the
//! tree, in the order of the chunk indices, past every cell that lies outside
//! the volume.

use crate::child::Child;
use crate::chunk::Compression;
use crate::coords::{
    cell, join, lemma_cell_ends, lemma_cell_step, lemma_pow16_add, lemma_pow16_pos,
    lemma_pow16_values, lemma_pow4096_add, lemma_rank_step, lemma_walk_rank_bound,
    lemma_walk_rank_injective, pow16, pow4096, slot_of, walk_rank, Pos,
};
use crate::frustum::{
    gauges_at, gauges_inside, gauges_moved, gauges_rescaled, gauges_start, lemma_cull, reachable,
    Frustum,
};
use crate::tree::{Place, Tree};
use vstd::prelude::*;

verus! {

/// A box that the walk has come upon: where it lies and what its slot holds.
#[derive(Copy, Clone, Debug)]
pub struct Visit {
    pub pos: Pos,
    pub child: Child,
}

/// Whether the box at `(x, y, z)` is among the visits.
pub open spec fn listed(out: Seq<Visit>, x: int, y: int, z: int) -> bool {
    exists|i: int|
        0 <= i < out.len() && (#[trigger] out[i]).pos.x == x && out[i].pos.y == y && out[i].pos.z
            == z
}

impl<C: Compression> Tree<C> {
    /// Whether `(x, y, z)` are the coordinates of a box, each below the
    /// width of the world.
    pub open spec fn in_world(&self, x: int, y: int, z: int) -> bool {
        &&& 0 <= x < pow16(self.spec_depth())
        &&& 0 <= y < pow16(self.spec_depth())
        &&& 0 <= z < pow16(self.spec_depth())
    }

    /// Whether the view volume `f` shows the box at `(x, y, z)`: the box is on
    /// the surface and reaches into the volume.
    pub open spec fn shows(&self, f: Frustum, x: int, y: int, z: int) -> bool {
        self.at(x, y, z).is_surface() && f.holds(x, y, z)
    }

    /// Whether `v` is a box of this tree that `f` shows, with its slot.
    pub open spec fn lists(&self, f: Frustum, v: Visit) -> bool {
        &&& self.in_world(v.pos.x as int, v.pos.y as int, v.pos.z as int)
        &&& v.child == self.at(v.pos.x as int, v.pos.y as int, v.pos.z as int)
        &&& self.shows(f, v.pos.x as int, v.pos.y as int, v.pos.z as int)
    }

    /// The place of a box in the order of the walk.
    pub open spec fn rank(&self, pos: Pos) -> int {
        walk_rank(self.spec_depth(), pos.x as int, pos.y as int, pos.z as int)
    }

    /// The rank, among the cells of level `l`, of the cell that holds `(x, y, z)`.
    pub open(crate) spec fn rank_at(&self, l: int, x: int, y: int, z: int) -> int {
        let d = self.depth_ as int;
        walk_rank(d - l, cell(x, l, d), cell(y, l, d), cell(z, l, d))
    }

    /// Every visit is a box that `f` shows.
    pub open(crate) spec fn sound(&self, f: Frustum, out: Seq<Visit>) -> bool {
        forall|i: int| 0 <= i < out.len() ==> self.lists(f, #[trigger] out[i])
    }

    /// The visits stand in the order of the walk.
    pub open(crate) spec fn sorted(&self, out: Seq<Visit>) -> bool {
        forall|i: int, j: int|
            0 <= i < j < out.len() ==> self.rank((#[trigger] out[i]).pos) < self.rank(
                (#[trigger] out[j]).pos,
            )
    }

    /// Every visit lies in a cell of level `l` that ranks below `m`.
    pub open(crate) spec fn behind(&self, out: Seq<Visit>, l: int, m: int) -> bool {
        forall|i: int|
            0 <= i < out.len() ==> self.rank_at(
                l,
                (#[trigger] out[i]).pos.x as int,
                out[i].pos.y as int,
                out[i].pos.z as int,
            ) < m
    }

    /// Every box that `f` shows in a cell of level `l` that ranks below `m`
    /// is among the visits.
    pub open(crate) spec fn covered(&self, f: Frustum, out: Seq<Visit>, l: int, m: int) -> bool {
        forall|x: int, y: int, z: int|
            self.in_world(x, y, z) && #[trigger] self.rank_at(l, x, y, z) < m && self.shows(
                f,
                x,
                y,
                z,
            ) ==> listed(out, x, y, z)
    }

    /// The cursor of the walk stands at slot `s` of chunk `c`, which is the
    /// cell `(x, y, z)` of level `l` and has the rank `m` among such cells.
    pub open(crate) spec fn cursor_ok(
        &self,
        l: int,
        c: int,
        s: int,
        x: int,
        y: int,
        z: int,
        m: int,
    ) -> bool {
        &&& 0 <= c < self.used()
        &&& 0 <= l < self.depth_
        &&& 0 <= x
        &&& 0 <= y
        &&& 0 <= z
        &&& self.places_@[c] == (Place { level: l, x: x / 16, y: y / 16, z: z / 16 })
        &&& s == join(x % 16, y % 16, z % 16)
        &&& m == walk_rank(self.depth_ - l, x, y, z)
    }

    /// What the cursor's chunk being in use says of the cursor's cell.
    pub(crate) proof fn lemma_cursor_bounds(
        &self,
        l: int,
        c: int,
        s: int,
        x: int,
        y: int,
        z: int,
        m: int,
    )
        requires
            self.wf(),
            self.cursor_ok(l, c, s, x, y, z, m),
        ensures
            x < pow16(self.depth_ - l) <= pow16(8 - l),
            y < pow16(self.depth_ - l),
            z < pow16(self.depth_ - l),
            pow16(self.depth_ - l) <= 0x1_0000_0000,
            l > 0 ==> pow16(self.depth_ - l) <= 0x1000_0000,
            reachable(l, x, y, z),
            0 <= s < 4096,
            0 <= m < pow4096(self.depth_ - l),
            m * pow4096(l) < pow4096(self.depth_ as int),
            self.in_world(pow16(l) * x, pow16(l) * y, pow16(l) * z),
    {
        let d = self.depth_ as int;
        assert(self.place_ok(c));
        lemma_pow16_values();
        lemma_pow16_pos(d - l - 1);
        assert(pow16(d - l) == 16 * pow16(d - l - 1));
        crate::coords::lemma_pow16_mono(d - l, 8 - l);
        crate::coords::lemma_pow16_mono(8 - l, 8);
        if l > 0 {
            crate::coords::lemma_pow16_mono(d - l, 7);
        }
        lemma_walk_rank_bound(d - l, x, y, z);
        lemma_pow4096_add(d - l, l);
        lemma_pow4096_add(l, 0);
        assert(m * pow4096(l) < pow4096(d)) by (nonlinear_arith)
            requires
                0 <= m < pow4096(d - l),
                pow4096(l) >= 1,
                pow4096(d) == pow4096(d - l) * pow4096(l),
        ;
        lemma_pow16_add(l, d - l);
        lemma_pow16_pos(l);
        assert(0 <= pow16(l) * x < pow16(d) && 0 <= pow16(l) * y < pow16(d) && 0 <= pow16(l) * z
            < pow16(d)) by (nonlinear_arith)
            requires
                0 <= x < pow16(d - l),
                0 <= y < pow16(d - l),
                0 <= z < pow16(d - l),
                pow16(l) >= 1,
                pow16(d) == pow16(l) * pow16(d - l),
        ;
    }

    /// Ranks of neighbouring levels: a cell ranks below `m` exactly if the
    /// cells that it splits into rank below `4096 * m`.
    pub(crate) proof fn lemma_level_change(&self, f: Frustum, out: Seq<Visit>, l: int, m: int)
        requires
            0 <= l,
            l + 1 < self.depth_,
        ensures
            self.behind(out, l + 1, m) <==> self.behind(out, l, 4096 * m),
            self.covered(f, out, l + 1, m) <==> self.covered(f, out, l, 4096 * m),
    {
        let d = self.depth_ as int;
        assert forall|x: int, y: int, z: int|
            #![trigger self.rank_at(l, x, y, z)]
            #![trigger self.rank_at(l + 1, x, y, z)]
            (self.rank_at(l, x, y, z) < 4096 * m) == (self.rank_at(l + 1, x, y, z) < m) by {
            lemma_rank_step(x, y, z, l, d);
        }
    }

    /// The cell at the cursor is dealt with once it turns out to lie
    /// outside the volume, or to hold a leaf that is off the surface or among
    /// the visits.
    pub(crate) proof fn lemma_cell_done(
        &self,
        f: Frustum,
        out: Seq<Visit>,
        l: int,
        c: int,
        s: int,
        x: int,
        y: int,
        z: int,
        m: int,
    )
        requires
            self.wf(),
            self.cursor_ok(l, c, s, x, y, z, m),
            self.covered(f, out, l, m),
            !f.inside(l, x, y, z) || (!self.slot(c, s).is_node() && (!self.slot(c, s).is_surface()
                || listed(out, x, y, z))),
        ensures
            self.covered(f, out, l, m + 1),
    {
        let d = self.depth_ as int;
        self.lemma_cursor_bounds(l, c, s, x, y, z, m);
        assert forall|a: int, b: int, e: int|
            self.in_world(a, b, e) && #[trigger] self.rank_at(l, a, b, e) < m + 1 && self.shows(
                f,
                a,
                b,
                e,
            ) implies listed(out, a, b, e) by {
            if self.rank_at(l, a, b, e) == m {
                lemma_cell_step(a, l, d);
                lemma_cell_step(b, l, d);
                lemma_cell_step(e, l, d);
                lemma_walk_rank_injective(
                    d - l,
                    cell(a, l, d),
                    cell(b, l, d),
                    cell(e, l, d),
                    x,
                    y,
                    z,
                );
                crate::coords::lemma_cell_inside(a, l, d);
                crate::coords::lemma_cell_inside(b, l, d);
                crate::coords::lemma_cell_inside(e, l, d);
                if !f.inside(l, x, y, z) {
                    lemma_cull(f, l, a, b, e);
                } else {
                    self.lemma_probe_reaches(c, a, b, e);
                    assert(slot_of(a, b, e, l) == s);
                    assert(self.at(a, b, e) == self.slot(c, s));
                    assert(self.slot_ok(c, s));
                    lemma_cell_ends(a, d);
                    lemma_cell_ends(b, d);
                    lemma_cell_ends(e, d);
                    crate::child::lemma_pack_fields(self.slot(c, s).value);
                }
            }
        }
    }

    /// What a step of the cursor into the chunk that its slot refers to keeps.
    pub(crate) proof fn lemma_descend(
        &self,
        f: Frustum,
        out: Seq<Visit>,
        l: int,
        c: int,
        s: int,
        x: int,
        y: int,
        z: int,
        m: int,
    )
        requires
            self.wf(),
            self.cursor_ok(l, c, s, x, y, z, m),
            self.behind(out, l, m),
            self.covered(f, out, l, m),
            self.slot(c, s).is_node(),
        ensures
            l > 0,
            0 < self.slot(c, s).node_index() < self.used(),
            self.places_@[self.slot(c, s).node_index() as int] == (Place {
                level: l - 1,
                x: x,
                y: y,
                z: z,
            }),
            walk_rank(self.depth_ - l + 1, 16 * x, 16 * y, 16 * z) == 4096 * m,
            self.behind(out, l - 1, 4096 * m),
            self.covered(f, out, l - 1, 4096 * m),
            pow16(l) * x == pow16(l - 1) * (16 * x),
            pow16(l) * y == pow16(l - 1) * (16 * y),
            pow16(l) * z == pow16(l - 1) * (16 * z),
            reachable(l - 1, 16 * x, 16 * y, 16 * z),
            (4096 * m) * pow4096(l - 1) == m * pow4096(l),
            16 * x < 0x1_0000_0000,
            16 * y < 0x1_0000_0000,
            16 * z < 0x1_0000_0000,
    {
        let d = self.depth_ as int;
        let t = self.slot(c, s).node_index() as int;
        self.lemma_cursor_bounds(l, c, s, x, y, z, m);
        assert(self.slot_ok(c, s));
        assert(self.place_ok(t));
        self.lemma_level_change(f, out, l - 1, m);
        lemma_pow16_pos(l - 1);
        lemma_pow16_values();
        assert(pow16(l) == 16 * pow16(l - 1));
        assert(pow16(8 - (l - 1)) == 16 * pow16(8 - l));
        assert(pow16(l) * x == pow16(l - 1) * (16 * x) && pow16(l) * y == pow16(l - 1) * (16 * y)
            && pow16(l) * z == pow16(l - 1) * (16 * z)) by (nonlinear_arith)
            requires
                pow16(l) == 16 * pow16(l - 1),
        ;
        assert(walk_rank(d - l + 1, 16 * x, 16 * y, 16 * z) == 4096 * walk_rank(d - l, x, y, z));
        assert(pow4096(l) == 4096 * pow4096(l - 1));
        assert((4096 * m) * pow4096(l - 1) == m * pow4096(l)) by (nonlinear_arith)
            requires
                pow4096(l) == 4096 * pow4096(l - 1),
        ;
    }

    /// What a step of the cursor from the last slot of a chunk up to the
    /// slot that refers to the chunk keeps.
    pub(crate) proof fn lemma_ascend(
        &self,
        f: Frustum,
        out: Seq<Visit>,
        l: int,
        c: int,
        s: int,
        x: int,
        y: int,
        z: int,
        m: int,
    )
        requires
            self.wf(),
            self.cursor_ok(l, c, s, x, y, z, m),
            self.behind(out, l, m + 1),
            self.covered(f, out, l, m + 1),
            x % 16 == 15,
            y % 16 == 15,
            z % 16 == 15,
            l + 1 < self.depth_,
        ensures
            c != 0,
            self.infos_@[c].parent_index < self.used(),
            self.places_@[self.infos_@[c].parent_index as int] == (Place {
                level: l + 1,
                x: (x / 16) / 16,
                y: (y / 16) / 16,
                z: (z / 16) / 16,
            }),
            m + 1 == 4096 * (walk_rank(self.depth_ - l - 1, x / 16, y / 16, z / 16) + 1),
            self.behind(out, l + 1, walk_rank(self.depth_ - l - 1, x / 16, y / 16, z / 16) + 1),
            self.covered(f, out, l + 1, walk_rank(self.depth_ - l - 1, x / 16, y / 16, z / 16) + 1),
            pow16(l) * (x - 15) == pow16(l + 1) * (x / 16),
            pow16(l) * (y - 15) == pow16(l + 1) * (y / 16),
            pow16(l) * (z - 15) == pow16(l + 1) * (z / 16),
            reachable(l + 1, x / 16, y / 16, z / 16),
            (walk_rank(self.depth_ - l - 1, x / 16, y / 16, z / 16) + 1) * pow4096(l + 1) == (m
                + 1) * pow4096(l),
    {
        let d = self.depth_ as int;
        let up = walk_rank(d - l - 1, x / 16, y / 16, z / 16);
        self.lemma_cursor_bounds(l, c, s, x, y, z, m);
        assert(self.linked(c));
        assert(self.place_ok(c));
        lemma_pow16_values();
        assert(pow16(l + 1) == 16 * pow16(l));
        assert(pow16(l) * (x - 15) == pow16(l + 1) * (x / 16) && pow16(l) * (y - 15) == pow16(
            l + 1,
        ) * (y / 16) && pow16(l) * (z - 15) == pow16(l + 1) * (z / 16)) by (nonlinear_arith)
            requires
                pow16(l + 1) == 16 * pow16(l),
                x - 15 == 16 * (x / 16),
                y - 15 == 16 * (y / 16),
                z - 15 == 16 * (z / 16),
        ;
        crate::coords::lemma_pow16_mono(d - l - 1, 8 - l - 1);
        assert(m == 4096 * up + 4095);
        self.lemma_level_change(f, out, l, up + 1);
        assert(pow4096(l + 1) == 4096 * pow4096(l));
        assert((up + 1) * pow4096(l + 1) == (m + 1) * pow4096(l)) by (nonlinear_arith)
            requires
                pow4096(l + 1) == 4096 * pow4096(l),
                m + 1 == 4096 * (up + 1),
        ;
    }

    /// The leaf at the cursor, at the bottom of the tree, joins the visits.
    pub(crate) proof fn lemma_visit(
        &self,
        f: Frustum,
        out: Seq<Visit>,
        v: Visit,
        c: int,
        s: int,
        m: int,
    )
        requires
            self.wf(),
            self.cursor_ok(0, c, s, v.pos.x as int, v.pos.y as int, v.pos.z as int, m),
            self.sound(f, out),
            self.sorted(out),
            self.behind(out, 0, m),
            self.covered(f, out, 0, m),
            f.inside(0, v.pos.x as int, v.pos.y as int, v.pos.z as int),
            v.child == self.slot(c, s),
            !v.child.is_node(),
            v.child.is_surface(),
        ensures
            self.sound(f, out.push(v)),
            self.sorted(out.push(v)),
            self.behind(out.push(v), 0, m + 1),
            self.covered(f, out.push(v), 0, m),
            listed(out.push(v), v.pos.x as int, v.pos.y as int, v.pos.z as int),
    {
        let d = self.depth_ as int;
        let (x, y, z) = (v.pos.x as int, v.pos.y as int, v.pos.z as int);
        let more = out.push(v);
        self.lemma_cursor_bounds(0, c, s, x, y, z, m);
        lemma_pow16_values();
        self.lemma_own_cell(x, y, z);
        lemma_cell_step(x, 0, d);
        lemma_cell_step(y, 0, d);
        lemma_cell_step(z, 0, d);
        self.lemma_probe_reaches(c, x, y, z);
        assert(self.lists(f, v));
        assert(more[out.len() as int] == v);
        assert forall|i: int| 0 <= i < more.len() implies self.rank_at(
            0,
            (#[trigger] more[i]).pos.x as int,
            more[i].pos.y as int,
            more[i].pos.z as int,
        ) < m + 1 by {
            if i < out.len() {
                assert(more[i] == out[i]);
            }
        }
        assert forall|i: int, j: int| 0 <= i < j < more.len() implies self.rank(
            (#[trigger] more[i]).pos,
        ) < self.rank((#[trigger] more[j]).pos) by {
            assert(more[i] == out[i]);
            assert(self.lists(f, out[i]));
            self.lemma_own_cell(out[i].pos.x as int, out[i].pos.y as int, out[i].pos.z as int);
            if j < out.len() {
                assert(more[j] == out[j]);
            }
        }
        assert forall|a: int, b: int, e: int| listed(out, a, b, e) implies listed(
            more,
            a,
            b,
            e,
        ) by {
            let i = choose|i: int|
                0 <= i < out.len() && (#[trigger] out[i]).pos.x == a && out[i].pos.y == b
                    && out[i].pos.z == e;
            assert(more[i] == out[i]);
        }
        assert forall|a: int, b: int, e: int|
            self.in_world(a, b, e) && #[trigger] self.rank_at(0, a, b, e) < m && self.shows(
                f,
                a,
                b,
                e,
            ) implies listed(more, a, b, e) by {
            assert(listed(out, a, b, e));
        }
    }

    /// A box of the world is its own cell of level 0.
    pub(crate) proof fn lemma_own_cell(&self, x: int, y: int, z: int)
        requires
            self.in_world(x, y, z),
            0 <= self.depth_,
        ensures
            cell(x, 0, self.depth_ as int) == x,
            cell(y, 0, self.depth_ as int) == y,
            cell(z, 0, self.depth_ as int) == z,
            self.rank_at(0, x, y, z) == walk_rank(self.depth_ as int, x, y, z),
    {
        let d = self.depth_ as int;
        crate::coords::lemma_cell_inside(x, 0, d);
        crate::coords::lemma_cell_inside(y, 0, d);
        crate::coords::lemma_cell_inside(z, 0, d);
    }

    /// Lists the boxes that a view volume shows: the boxes on the surface
    /// that reach into the volume, each once, in the order of the walk.
    ///
    /// The walk goes depth first through the chunks, in the order of their
    /// indices, and keeps for each plane a running value at the cursor. It
    /// passes by every cell that lies outside the volume without a look at what
    /// the cell holds.
    pub fn cast_view(&self, frustum: &Frustum) -> (out: Vec<Visit>)
        requires
            self.wf(),
        ensures
            forall|i: int| 0 <= i < out@.len() ==> self.lists(*frustum, #[trigger] out@[i]),
            forall|x: int, y: int, z: int|
                self.in_world(x, y, z) && #[trigger] self.shows(*frustum, x, y, z) ==> listed(
                    out@,
                    x,
                    y,
                    z,
                ),
            forall|i: int, j: int|
                0 <= i < j < out@.len() ==> self.rank((#[trigger] out@[i]).pos) < self.rank(
                    (#[trigger] out@[j]).pos,
                ),
    {
        let top: u8 = self.depth_ - 1;
        let mut level: u8 = top;
        let mut chunk: u16 = 0;
        let mut index: u16 = 0;
        let mut pos = Pos { x: 0, y: 0, z: 0 };
        let mut gauges = gauges_start(frustum, level);
        let mut out: Vec<Visit> = Vec::new();
        let ghost f = *frustum;
        let ghost mut m: int = 0;
        proof {
            assert(walk_rank(1, 0, 0, 0) == 0) by {
                reveal_with_fuel(walk_rank, 2);
            }
            assert forall|x: int, y: int, z: int|
                self.in_world(x, y, z) && #[trigger] self.rank_at(top as int, x, y, z) < 0
                    && self.shows(f, x, y, z) implies listed(out@, x, y, z) by {
                lemma_walk_rank_bound(
                    1,
                    cell(x, top as int, self.depth_ as int),
                    cell(y, top as int, self.depth_ as int),
                    cell(z, top as int, self.depth_ as int),
                );
            }
        }
        loop
            invariant
                self.wf(),
                f == *frustum,
                top == self.depth_ - 1,
                self.cursor_ok(
                    level as int,
                    chunk as int,
                    index as int,
                    pos.x as int,
                    pos.y as int,
                    pos.z as int,
                    m,
                ),
                gauges_at(gauges, f, level as int, pos.x as int, pos.y as int, pos.z as int),
                self.sound(f, out@),
                self.sorted(out@),
                self.behind(out@, level as int, m),
                self.covered(f, out@, level as int, m),
            decreases pow4096(self.depth_ as int) - m * pow4096(level as int), level,
        {
            let ghost (x, y, z) = (pos.x as int, pos.y as int, pos.z as int);
            let ghost l = level as int;
            let ghost d = self.depth_ as int;
            proof {
                self.lemma_cursor_bounds(l, chunk as int, index as int, x, y, z, m);
                lemma_pow4096_add(l, 0);
            }
            let mut advance = true;
            if gauges_inside(&gauges, Ghost(f), Ghost(l), Ghost(x), Ghost(y), Ghost(z)) {
                let child = self.chunks_[chunk as usize].children[index as usize];
                proof {
                    assert(child == self.slot(chunk as int, index as int));
                    assert(self.slot_ok(chunk as int, index as int));
                }
                if child.is_node() {
                    let below = child.node_index();
                    proof {
                        self.lemma_descend(
                            f,
                            out@,
                            l,
                            chunk as int,
                            index as int,
                            x,
                            y,
                            z,
                            m,
                        );
                    }
                    gauges =
                    gauges_rescaled(
                        &gauges,
                        frustum,
                        level - 1,
                        Ghost(l),
                        Ghost(x),
                        Ghost(y),
                        Ghost(z),
                        Ghost(16 * x),
                        Ghost(16 * y),
                        Ghost(16 * z),
                    );
                    level = level - 1;
                    chunk = below;
                    index = 0;
                    pos = Pos { x: pos.x * 16, y: pos.y * 16, z: pos.z * 16 };
                    proof {
                        m = 4096 * m;
                    }
                    advance = false;
                } else if child.is_surface() {
                    let v = Visit { pos: pos, child: child };
                    proof {
                        crate::child::lemma_pack_fields(child.value);
                        assert(l == 0);
                        self.lemma_visit(f, out@, v, chunk as int, index as int, m);
                    }
                    out.push(v);
                }
            }
            if advance {
                let ghost target = (m + 1) * pow4096(l);
                proof {
                    self.lemma_cell_done(
                        f,
                        out@,
                        l,
                        chunk as int,
                        index as int,
                        x,
                        y,
                        z,
                        m,
                    );
                    assert(target == m * pow4096(l) + pow4096(l)) by (nonlinear_arith)
                        requires
                            target == (m + 1) * pow4096(l),
                    ;
                }
                loop
                    invariant_except_break
                        self.cursor_ok(
                            level as int,
                            chunk as int,
                            index as int,
                            pos.x as int,
                            pos.y as int,
                            pos.z as int,
                            m,
                        ),
                        gauges_at(
                            gauges,
                            f,
                            level as int,
                            pos.x as int,
                            pos.y as int,
                            pos.z as int,
                        ),
                        self.behind(out@, level as int, m + 1),
                        self.covered(f, out@, level as int, m + 1),
                        (m + 1) * pow4096(level as int) == target,
                    invariant
                        self.wf(),
                        f == *frustum,
                        top == self.depth_ - 1,
                        self.sound(f, out@),
                        self.sorted(out@),
                    ensures
                        self.cursor_ok(
                            level as int,
                            chunk as int,
                            index as int,
                            pos.x as int,
                            pos.y as int,
                            pos.z as int,
                            m,
                        ),
                        gauges_at(
                            gauges,
                            f,
                            level as int,
                            pos.x as int,
                            pos.y as int,
                            pos.z as int,
                        ),
                        self.behind(out@, level as int, m),
                        self.covered(f, out@, level as int, m),
                        m * pow4096(level as int) == target,
                    decreases self.depth_ - level,
                {
                    let ghost (x, y, z) = (pos.x as int, pos.y as int, pos.z as int);
                    let ghost l = level as int;
                    let ghost d = self.depth_ as int;
                    let ghost n = d - l;
                    proof {
                        self.lemma_cursor_bounds(
                            l,
                            chunk as int,
                            index as int,
                            x,
                            y,
                            z,
                            m,
                        );
                        lemma_pow16_values();
                    }
                    gauges =
                    gauges_moved(&gauges, 0, false, Ghost(f), Ghost(l), Ghost(x), Ghost(y), Ghost(z));
                    if pos.x % 16 != 15 {
                        pos.x = pos.x + 1;
                        index = index + 1;
                        proof {
                            m = m + 1;
                        }
                        break ;
                    }
                    pos.x = pos.x - 15;
                    gauges =
                    gauges_moved(
                        &gauges,
                        0,
                        true,
                        Ghost(f),
                        Ghost(l),
                        Ghost(x + 1),
                        Ghost(y),
                        Ghost(z),
                    );
                    gauges =
                    gauges_moved(
                        &gauges,
                        1,
                        false,
                        Ghost(f),
                        Ghost(l),
                        Ghost(x - 15),
                        Ghost(y),
                        Ghost(z),
                    );
                    if pos.y % 16 != 15 {
                        pos.y = pos.y + 1;
                        index = index + 1;
                        proof {
                            m = m + 1;
                        }
                        break ;
                    }
                    pos.y = pos.y - 15;
                    gauges =
                    gauges_moved(
                        &gauges,
                        1,
                        true,
                        Ghost(f),
                        Ghost(l),
                        Ghost(x - 15),
                        Ghost(y + 1),
                        Ghost(z),
                    );
                    gauges =
                    gauges_moved(
                        &gauges,
                        2,
                        false,
                        Ghost(f),
                        Ghost(l),
                        Ghost(x - 15),
                        Ghost(y - 15),
                        Ghost(z),
                    );
                    if pos.z % 16 != 15 {
                        pos.z = pos.z + 1;
                        index = index + 1;
                        proof {
                            m = m + 1;
                        }
                        break ;
                    }
                    if level == top {
                        proof {
                            assert(m + 1 == 4096) by {
                                reveal_with_fuel(walk_rank, 2);
                            }
                            assert forall|a: int, b: int, e: int|
                                self.in_world(a, b, e) && #[trigger] self.shows(
                                    f,
                                    a,
                                    b,
                                    e,
                                ) implies listed(out@, a, b, e) by {
                                lemma_walk_rank_bound(
                                    1,
                                    cell(a, l, d),
                                    cell(b, l, d),
                                    cell(e, l, d),
                                );
                                lemma_pow4096_add(1, 0);
                                assert(self.rank_at(l, a, b, e) < 4096);
                            }
                        }
                        return out;
                    }
                    pos.z = pos.z - 15;
                    gauges =
                    gauges_moved(
                        &gauges,
                        2,
                        true,
                        Ghost(f),
                        Ghost(l),
                        Ghost(x - 15),
                        Ghost(y - 15),
                        Ghost(z + 1),
                    );
                    proof {
                        self.lemma_ascend(
                            f,
                            out@,
                            l,
                            chunk as int,
                            index as int,
                            x,
                            y,
                            z,
                            m,
                        );
                    }
                    level = level + 1;
                    gauges =
                    gauges_rescaled(
                        &gauges,
                        frustum,
                        level,
                        Ghost(l),
                        Ghost(x - 15),
                        Ghost(y - 15),
                        Ghost(z - 15),
                        Ghost(x / 16),
                        Ghost(y / 16),
                        Ghost(z / 16),
                    );
                    chunk = self.infos_[chunk as usize].parent_index;
                    pos = Pos { x: pos.x / 16, y: pos.y / 16, z: pos.z / 16 };
                    index = ((pos.x % 16) + (pos.y % 16) * 16 + (pos.z % 16) * 256) as u16;
                    proof {
                        m = walk_rank(d - l - 1, x / 16, y / 16, z / 16);
                    }
                }
            }
            proof {
                self.lemma_cursor_bounds(
                    level as int,
                    chunk as int,
                    index as int,
                    pos.x as int,
                    pos.y as int,
                    pos.z as int,
                    m,
                );
            }
        }
    }
}

} // verus!

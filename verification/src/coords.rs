//! Coordinates: how a position is cut into one chunk index per level of the
//! tree, and how the world wraps around at its width.
//!
//! A tree of depth `d` reads `4 * d` bits of each axis. Level `d - 1` is the
//! root and takes the highest of these nibbles, level `0` is the bottom and
//! takes the lowest. Bits above the width are not read: along each axis the
//! world repeats with period `16^d`.

use vstd::arithmetic::div_mod::{
    lemma_basic_div, lemma_div_denominator, lemma_fundamental_div_mod,
    lemma_hoist_over_denominator, lemma_mod_multiples_vanish, lemma_multiply_divide_lt,
};
use crate::child::{CHUNK_SIDE_MASK, MAX_DEPTH};
use vstd::prelude::*;

verus! {

/// A position in the world, or a displacement between two positions.
#[derive(Copy, Clone, PartialEq, Eq, Structural, Debug)]
pub struct Pos {
    pub x: u32,
    pub y: u32,
    pub z: u32,
}

impl Pos {
    /// The position with the given coordinates.
    pub fn new(x: u32, y: u32, z: u32) -> (r: Self)
        ensures
            r.x == x,
            r.y == y,
            r.z == z,
    {
        Pos { x: x, y: y, z: z }
    }
}

/// `16^n`, the number of boxes along one side of a cell of level `n`.
pub open spec fn pow16(n: int) -> int
    decreases n,
{
    if n <= 0 {
        1
    } else {
        16 * pow16(n - 1)
    }
}

/// The nibble of `v` that level `l` reads.
pub closed spec fn nib(v: int, l: int) -> int {
    (v / pow16(l)) % 16
}

/// The coordinate of the cell of level `l` that holds `v`, in a world of
/// depth `d`: `v` reduced to the world's width, without its `l` lowest nibbles.
pub closed spec fn cell(v: int, l: int, d: int) -> int {
    (v % pow16(d)) / pow16(l)
}

/// The index within a chunk of the child whose nibbles are `nx`, `ny`, `nz`.
pub open spec fn join(nx: int, ny: int, nz: int) -> int {
    nx + 16 * ny + 256 * nz
}

/// The index that level `l` reads within its chunk for the position `(x, y, z)`.
pub open spec fn slot_of(x: int, y: int, z: int, l: int) -> int {
    join(nib(x, l), nib(y, l), nib(z, l))
}

/// Whether two coordinates name the same place of a world of depth `d`.
pub open spec fn same_place(a: int, b: int, d: int) -> bool {
    a % pow16(d) == b % pow16(d)
}

/// The powers of sixteen that a tree can meet.
pub proof fn lemma_pow16_values()
    ensures
        pow16(0) == 1,
        pow16(1) == 0x10,
        pow16(2) == 0x100,
        pow16(3) == 0x1000,
        pow16(4) == 0x1_0000,
        pow16(5) == 0x10_0000,
        pow16(6) == 0x100_0000,
        pow16(7) == 0x1000_0000,
        pow16(8) == 0x1_0000_0000,
{
    reveal_with_fuel(pow16, 10);
}

/// Powers of sixteen are positive.
pub proof fn lemma_pow16_pos(n: int)
    ensures
        pow16(n) >= 1,
    decreases n,
{
    if n > 0 {
        lemma_pow16_pos(n - 1);
    }
}

/// Powers of sixteen multiply as their exponents add.
pub proof fn lemma_pow16_add(a: int, b: int)
    requires
        0 <= a,
        0 <= b,
    ensures
        pow16(a + b) == pow16(a) * pow16(b),
    decreases a,
{
    if a > 0 {
        lemma_pow16_add(a - 1, b);
        assert(16 * (pow16(a - 1) * pow16(b)) == (16 * pow16(a - 1)) * pow16(b))
            by (nonlinear_arith);
    }
}

/// Powers of sixteen grow with their exponents.
pub proof fn lemma_pow16_mono(a: int, b: int)
    requires
        a <= b,
    ensures
        pow16(a) <= pow16(b),
    decreases b - a,
{
    lemma_pow16_pos(a);
    if a < b {
        lemma_pow16_mono(a, b - 1);
        lemma_pow16_pos(b - 1);
        if b <= 0 {
            assert(pow16(b) == 1 && pow16(b - 1) == 1);
        }
    }
}

/// Each level splits the cell above it sixteen ways along an axis, by the
/// nibble that the level reads.
pub proof fn lemma_cell_step(v: int, l: int, d: int)
    requires
        0 <= l < d,
    ensures
        0 <= nib(v, l) < 16,
        cell(v, l, d) == 16 * cell(v, l + 1, d) + nib(v, l),
        0 <= cell(v, l, d) < pow16(d - l),
        0 <= cell(v, l + 1, d) < pow16(d - l - 1),
{
    let w = pow16(d);
    let p = pow16(l);
    let m = pow16(d - l - 1);
    lemma_pow16_pos(d);
    lemma_pow16_pos(l);
    lemma_pow16_pos(d - l - 1);
    lemma_pow16_add(l + 1, d - l - 1);
    lemma_pow16_add(l, d - l);
    assert(pow16(l + 1) == 16 * p);
    assert(pow16(d - l) == 16 * m);
    let r = v % w;
    let q = v / w;
    lemma_fundamental_div_mod(v, w);
    lemma_div_denominator(r, p, 16);
    assert(p * 16 == 16 * p);
    lemma_fundamental_div_mod(r / p, 16);
    let j = 16 * (m * q);
    assert(v == r + j * p) by (nonlinear_arith)
        requires
            v == w * q + r,
            w == (16 * p) * m,
            j == 16 * (m * q),
    ;
    lemma_hoist_over_denominator(r, j, p as nat);
    lemma_mod_multiples_vanish(m * q, r / p, 16);
    assert(r < p * pow16(d - l)) by {
        assert(w == p * pow16(d - l));
    }
    lemma_multiply_divide_lt(r, p, pow16(d - l));
    assert(r < (16 * p) * m);
    lemma_multiply_divide_lt(r, 16 * p, m);
    assert(r / p >= 0) by (nonlinear_arith)
        requires
            r >= 0,
            p > 0,
    ;
    assert(r / (16 * p) >= 0) by (nonlinear_arith)
        requires
            r >= 0,
            p > 0,
    ;
}

/// At the level of the whole world there is one cell; at the level of a
/// single box a cell is a place of the world.
pub proof fn lemma_cell_ends(v: int, d: int)
    requires
        0 <= d,
    ensures
        cell(v, d, d) == 0,
        cell(v, 0, d) == v % pow16(d),
        0 <= v % pow16(d) < pow16(d),
{
    lemma_pow16_pos(d);
    lemma_basic_div(v % pow16(d), pow16(d));
    reveal_with_fuel(pow16, 1);
}

/// Within the world a cell's coordinate is the box's, without its low nibbles.
pub proof fn lemma_cell_inside(v: int, l: int, d: int)
    requires
        0 <= v < pow16(d),
    ensures
        cell(v, l, d) == v / pow16(l),
        cell(v, 0, d) == v,
{
    vstd::arithmetic::div_mod::lemma_small_mod(v as nat, pow16(d) as nat);
    reveal_with_fuel(pow16, 1);
}

/// Places that agree lie in the same cells.
pub proof fn lemma_same_place_cell(a: int, b: int, l: int, d: int)
    requires
        same_place(a, b, d),
    ensures
        cell(a, l, d) == cell(b, l, d),
{
}

/// What a nibble and a cell are, in arithmetic.
pub proof fn lemma_nib_cell(v: int, l: int, d: int)
    ensures
        nib(v, l) == (v / pow16(l)) % 16,
        cell(v, l, d) == (v % pow16(d)) / pow16(l),
{
}

/// A nibble is a number below sixteen.
pub proof fn lemma_nib_bound(v: int, l: int)
    ensures
        0 <= nib(v, l) < 16,
{
}

/// Coordinates that differ by a multiple of the world's width lie in the
/// same cells.
pub proof fn lemma_cell_wrap(v: int, k: int, l: int, d: int)
    requires
        0 <= d,
    ensures
        cell(v + k * pow16(d), l, d) == cell(v, l, d),
        same_place(v + k * pow16(d), v, d),
{
    lemma_pow16_pos(d);
    lemma_mod_multiples_vanish(k, v, pow16(d));
    assert(pow16(d) * k + v == v + k * pow16(d)) by (nonlinear_arith);
}

/// The width of every world divides `2^32`: a coordinate in 32 bits names
/// the same place as the coordinate without the wrap of the 32 bits.
pub proof fn lemma_same_place_u32(v: int, d: int)
    requires
        0 <= d <= 8,
    ensures
        same_place(v + 0x1_0000_0000, v, d),
        same_place(v - 0x1_0000_0000, v, d),
{
    lemma_pow16_values();
    lemma_pow16_add(d, 8 - d);
    assert(pow16(8 - d) * pow16(d) == 0x1_0000_0000) by (nonlinear_arith)
        requires
            pow16(d) * pow16(8 - d) == 0x1_0000_0000,
    ;
    lemma_cell_wrap(v, pow16(8 - d), 0, d);
    lemma_cell_wrap(v - 0x1_0000_0000, pow16(8 - d), 0, d);
}

/// Places that agree still agree after the same step.
pub proof fn lemma_same_place_add(a: int, b: int, k: int, d: int)
    requires
        0 <= d,
        same_place(a, b, d),
    ensures
        same_place(a + k, b + k, d),
{
    lemma_pow16_pos(d);
    vstd::arithmetic::div_mod::lemma_add_mod_noop(a, k, pow16(d));
    vstd::arithmetic::div_mod::lemma_add_mod_noop(b, k, pow16(d));
}

/// Coordinates that name the same place are read alike by every level.
pub proof fn lemma_same_place_nib(a: int, b: int, l: int, d: int)
    requires
        0 <= l < d,
        same_place(a, b, d),
    ensures
        nib(a, l) == nib(b, l),
{
    lemma_cell_step(a, l, d);
    lemma_cell_step(b, l, d);
}

/// Whether `(a, b, e)` and `(x, y, z)` lie in the same cell of level `l`
/// of a world of depth `d`.
pub open spec fn same_cell(a: int, b: int, e: int, x: int, y: int, z: int, l: int, d: int) -> bool {
    &&& cell(a, l, d) == cell(x, l, d)
    &&& cell(b, l, d) == cell(y, l, d)
    &&& cell(e, l, d) == cell(z, l, d)
}

/// The lowest level from `l` down at which the ways to `(a, b, e)` and to
/// `(x, y, z)` still pass through the same chunk, for positions that lie in the
/// same cell of level `l + 1`.
pub open spec fn fork_below(
    a: int,
    b: int,
    e: int,
    x: int,
    y: int,
    z: int,
    l: int,
    d: int,
) -> int
    decreases l,
{
    if l <= 0 {
        0
    } else if same_cell(a, b, e, x, y, z, l, d) {
        fork_below(a, b, e, x, y, z, l - 1, d)
    } else {
        l
    }
}

/// The level at which the ways from the root to `(a, b, e)` and to
/// `(x, y, z)` part: the level of the lowest chunk that could hold both, 0
/// where a chunk at the bottom does.
pub open spec fn fork(a: int, b: int, e: int, x: int, y: int, z: int, d: int) -> int {
    fork_below(a, b, e, x, y, z, d - 1, d)
}

/// Positions in the same cell lie in the same cell of the level above, and
/// the level reads them alike.
pub proof fn lemma_same_cell_up(a: int, b: int, e: int, x: int, y: int, z: int, l: int, d: int)
    requires
        0 <= l < d,
        same_cell(a, b, e, x, y, z, l, d),
    ensures
        same_cell(a, b, e, x, y, z, l + 1, d),
        slot_of(a, b, e, l) == slot_of(x, y, z, l),
{
    assert(cell(a, l + 1, d) == cell(x, l + 1, d) && nib(a, l) == nib(x, l)) by {
        lemma_cell_step(a, l, d);
        lemma_cell_step(x, l, d);
    }
    assert(cell(b, l + 1, d) == cell(y, l + 1, d) && nib(b, l) == nib(y, l)) by {
        lemma_cell_step(b, l, d);
        lemma_cell_step(y, l, d);
    }
    assert(cell(e, l + 1, d) == cell(z, l + 1, d) && nib(e, l) == nib(z, l)) by {
        lemma_cell_step(e, l, d);
        lemma_cell_step(z, l, d);
    }
}

/// An index within a chunk splits into the nibbles that it is made of.
pub proof fn lemma_join_parts(nx: int, ny: int, nz: int)
    requires
        0 <= nx < 16,
        0 <= ny < 16,
        0 <= nz < 16,
    ensures
        0 <= join(nx, ny, nz) < 4096,
        join(nx, ny, nz) % 16 == nx,
        (join(nx, ny, nz) / 16) % 16 == ny,
        join(nx, ny, nz) / 256 == nz,
{
}

/// Indices within a chunk that agree are made of the same nibbles.
pub proof fn lemma_join_injective(a: int, b: int, e: int, x: int, y: int, z: int)
    requires
        0 <= a < 16,
        0 <= b < 16,
        0 <= e < 16,
        0 <= x < 16,
        0 <= y < 16,
        0 <= z < 16,
        join(a, b, e) == join(x, y, z),
    ensures
        a == x,
        b == y,
        e == z,
{
}

/// Positions in the same cell of the level above that a level reads
/// alike lie in the same cell of the level.
pub proof fn lemma_same_cell_down(a: int, b: int, e: int, x: int, y: int, z: int, l: int, d: int)
    requires
        0 <= l < d,
        same_cell(a, b, e, x, y, z, l + 1, d),
        slot_of(a, b, e, l) == slot_of(x, y, z, l),
    ensures
        same_cell(a, b, e, x, y, z, l, d),
{
    lemma_nib_bound(a, l);
    lemma_nib_bound(b, l);
    lemma_nib_bound(e, l);
    lemma_nib_bound(x, l);
    lemma_nib_bound(y, l);
    lemma_nib_bound(z, l);
    lemma_join_injective(nib(a, l), nib(b, l), nib(e, l), nib(x, l), nib(y, l), nib(z, l));
    assert(cell(a, l, d) == cell(x, l, d)) by {
        lemma_cell_step(a, l, d);
        lemma_cell_step(x, l, d);
    }
    assert(cell(b, l, d) == cell(y, l, d)) by {
        lemma_cell_step(b, l, d);
        lemma_cell_step(y, l, d);
    }
    assert(cell(e, l, d) == cell(z, l, d)) by {
        lemma_cell_step(e, l, d);
        lemma_cell_step(z, l, d);
    }
}

/// Where the ways part, seen from a level on: a level from 0 to that level,
/// above which the positions share their cells and at which, if it is not
/// 0, they do not.
pub proof fn lemma_fork_below(
    a: int,
    b: int,
    e: int,
    x: int,
    y: int,
    z: int,
    l: int,
    d: int,
    m: int,
)
    requires
        0 <= l < d,
        same_cell(a, b, e, x, y, z, l + 1, d),
    ensures
        0 <= fork_below(a, b, e, x, y, z, l, d) <= l,
        fork_below(a, b, e, x, y, z, l, d) < m <= l + 1 ==> same_cell(a, b, e, x, y, z, m, d),
        0 < m <= l && same_cell(a, b, e, x, y, z, m, d) ==> fork_below(a, b, e, x, y, z, l, d) < m,
    decreases l,
{
    if l > 0 && same_cell(a, b, e, x, y, z, l, d) {
        lemma_fork_below(a, b, e, x, y, z, l - 1, d, m);
    } else if l > 0 {
        if 0 < m <= l && same_cell(a, b, e, x, y, z, m, d) {
            lemma_same_cell_climb(a, b, e, x, y, z, m, l, d);
        }
    }
}

/// Positions in the same cell lie in the same cell of every higher level.
pub proof fn lemma_same_cell_climb(
    a: int,
    b: int,
    e: int,
    x: int,
    y: int,
    z: int,
    m: int,
    l: int,
    d: int,
)
    requires
        0 <= m <= l <= d,
        same_cell(a, b, e, x, y, z, m, d),
    ensures
        same_cell(a, b, e, x, y, z, l, d),
    decreases l - m,
{
    if m < l {
        lemma_same_cell_up(a, b, e, x, y, z, m, d);
        lemma_same_cell_climb(a, b, e, x, y, z, m + 1, l, d);
    }
}

/// Where the ways to two positions part: a level from 0 to the root's,
/// above which the positions share their cells and at which, if it is not
/// 0, they do not.
pub proof fn lemma_fork(a: int, b: int, e: int, x: int, y: int, z: int, d: int, m: int)
    requires
        1 <= d,
    ensures
        0 <= fork(a, b, e, x, y, z, d) <= d - 1,
        fork(a, b, e, x, y, z, d) < m <= d ==> same_cell(a, b, e, x, y, z, m, d),
        0 < m <= d - 1 && same_cell(a, b, e, x, y, z, m, d) ==> fork(a, b, e, x, y, z, d) < m,
{
    lemma_cell_ends(a, d);
    lemma_cell_ends(b, d);
    lemma_cell_ends(e, d);
    lemma_cell_ends(x, d);
    lemma_cell_ends(y, d);
    lemma_cell_ends(z, d);
    lemma_fork_below(a, b, e, x, y, z, d - 1, d, m);
}

/// The place of the cell `(x, y, z)` in the order of the walk, among the
/// cells whose coordinates have `n` nibbles: the chunk indices of the cell
/// from the root down, read as the digits of a number to the base 4096. So
/// cells are ordered by their index in the root's chunk, then by their index
/// one level down, and so on.
pub open spec fn walk_rank(n: int, x: int, y: int, z: int) -> int
    decreases n,
{
    if n <= 0 {
        0
    } else {
        4096 * walk_rank(n - 1, x / 16, y / 16, z / 16) + join(x % 16, y % 16, z % 16)
    }
}

/// `4096^n`, the number of cells of `n` nibbles.
pub open spec fn pow4096(n: int) -> int
    decreases n,
{
    if n <= 0 {
        1
    } else {
        4096 * pow4096(n - 1)
    }
}

/// Powers of 4096 are positive, and multiply as their exponents add.
pub proof fn lemma_pow4096_add(a: int, b: int)
    requires
        0 <= a,
        0 <= b,
    ensures
        pow4096(a + b) == pow4096(a) * pow4096(b),
        pow4096(a) >= 1,
    decreases a,
{
    if a > 0 {
        lemma_pow4096_add(a - 1, b);
        assert(4096 * (pow4096(a - 1) * pow4096(b)) == (4096 * pow4096(a - 1)) * pow4096(b))
            by (nonlinear_arith);
    }
}

/// A rank among the cells of `n` nibbles is a number below `4096^n`.
pub proof fn lemma_walk_rank_bound(n: int, x: int, y: int, z: int)
    requires
        0 <= n,
    ensures
        0 <= walk_rank(n, x, y, z) < pow4096(n),
    decreases n,
{
    if n > 0 {
        lemma_walk_rank_bound(n - 1, x / 16, y / 16, z / 16);
    }
}

/// Cells of the same rank are the same cell.
pub proof fn lemma_walk_rank_injective(n: int, x: int, y: int, z: int, a: int, b: int, c: int)
    requires
        0 <= n,
        walk_rank(n, x, y, z) == walk_rank(n, a, b, c),
        0 <= x < pow16(n),
        0 <= y < pow16(n),
        0 <= z < pow16(n),
        0 <= a < pow16(n),
        0 <= b < pow16(n),
        0 <= c < pow16(n),
    ensures
        x == a,
        y == b,
        z == c,
    decreases n,
{
    if n > 0 {
        lemma_walk_rank_bound(n - 1, x / 16, y / 16, z / 16);
        lemma_walk_rank_bound(n - 1, a / 16, b / 16, c / 16);
        lemma_walk_rank_injective(n - 1, x / 16, y / 16, z / 16, a / 16, b / 16, c / 16);
    }
}

/// The rank of a cell is the rank of the cell above it, then the index
/// that the level reads.
pub proof fn lemma_rank_step(x: int, y: int, z: int, l: int, d: int)
    requires
        0 <= l < d,
    ensures
        walk_rank(d - l, cell(x, l, d), cell(y, l, d), cell(z, l, d)) == 4096 * walk_rank(
            d - l - 1,
            cell(x, l + 1, d),
            cell(y, l + 1, d),
            cell(z, l + 1, d),
        ) + slot_of(x, y, z, l),
        0 <= slot_of(x, y, z, l) < 4096,
{
    lemma_cell_step(x, l, d);
    lemma_cell_step(y, l, d);
    lemma_cell_step(z, l, d);
}

/// A shift by whole nibbles is a division by a power of sixteen.
proof fn lemma_nibble_shifts(v: u32)
    by (bit_vector)
    ensures
        (v >> 0u32) & 15 == (v / 0x1) % 16,
        (v >> 4u32) & 15 == (v / 0x10) % 16,
        (v >> 8u32) & 15 == (v / 0x100) % 16,
        (v >> 12u32) & 15 == (v / 0x1000) % 16,
        (v >> 16u32) & 15 == (v / 0x1_0000) % 16,
        (v >> 20u32) & 15 == (v / 0x10_0000) % 16,
        (v >> 24u32) & 15 == (v / 0x100_0000) % 16,
        (v >> 28u32) & 15 == (v / 0x1000_0000) % 16,
{
}

/// A mask of low nibbles is a remainder by a power of sixteen.
proof fn lemma_nibble_masks(v: u32)
    by (bit_vector)
    ensures
        v & 0xf == v % 0x10,
        v & 0xff == v % 0x100,
        v & 0xfff == v % 0x1000,
        v & 0xffff == v % 0x1_0000,
        v & 0xf_ffff == v % 0x10_0000,
        v & 0xff_ffff == v % 0x100_0000,
        v & 0xfff_ffff == v % 0x1000_0000,
{
}

/// The masks of whole nibbles, as shifts.
proof fn lemma_shift_values()
    by (bit_vector)
    ensures
        1u32 << 4u32 == 0x10,
        1u32 << 8u32 == 0x100,
        1u32 << 12u32 == 0x1000,
        1u32 << 16u32 == 0x1_0000,
        1u32 << 20u32 == 0x10_0000,
        1u32 << 24u32 == 0x100_0000,
        1u32 << 28u32 == 0x1000_0000,
{
}

/// Nibbles side by side are the index that they make.
proof fn lemma_join_bits(nx: u32, ny: u32, nz: u32)
    by (bit_vector)
    requires
        nx < 16,
        ny < 16,
        nz < 16,
    ensures
        nx | (ny << 4) | (nz << 8) == nx + 16 * ny + 256 * nz,
        nx | (ny << 4) | (nz << 8) < 4096,
{
}

/// The nibble of `v` that the level `level` reads.
fn nibble(v: u32, level: u8) -> (r: u32)
    requires
        level < 8,
    ensures
        r == nib(v as int, level as int),
        r < 16,
{
    let s: u32 = 4 * (level as u32);
    proof {
        lemma_nibble_shifts(v);
        lemma_pow16_values();
    }
    (v >> s) & CHUNK_SIDE_MASK
}

/// The index that level `level` reads within its chunk for `pos`: the
/// nibbles of the three axes side by side, `x` lowest.
pub fn chunk_index(pos: Pos, level: u8) -> (r: u16)
    requires
        level < 8,
    ensures
        r == slot_of(pos.x as int, pos.y as int, pos.z as int, level as int),
        r < 4096,
{
    let nx = nibble(pos.x, level);
    let ny = nibble(pos.y, level);
    let nz = nibble(pos.z, level);
    proof {
        lemma_join_bits(nx, ny, nz);
    }
    (nx | (ny << 4u32) | (nz << 8u32)) as u16
}

/// `v + d`, reduced to the width of a world of depth `depth`.
fn displace_axis(v: u32, d: u32, depth: u8) -> (r: u32)
    requires
        1 <= depth <= 8,
    ensures
        r == (v + d) % pow16(depth as int),
{
    let w = v.wrapping_add(d);
    proof {
        let n = pow16(depth as int);
        let k = pow16(8 - depth);
        lemma_pow16_values();
        lemma_pow16_add(depth as int, 8 - depth);
        assert(k * n == 0x1_0000_0000) by (nonlinear_arith)
            requires
                n * k == 0x1_0000_0000,
        ;
        if v + d > u32::MAX {
            assert(w == v + d - 0x1_0000_0000);
            lemma_cell_wrap(w as int, k, 0, depth as int);
        }
        assert(w as int % n == (v + d) % n);
    }
    if depth >= MAX_DEPTH {
        proof {
            assert(w as int % 0x1_0000_0000 == w);
        }
        w
    } else {
        let s: u32 = 4 * (depth as u32);
        proof {
            lemma_nibble_masks(w);
            lemma_shift_values();
        }
        w & ((1u32 << s) - 1)
    }
}

/// `pos` displaced by `dir` along each axis, wrapping around at the width
/// of a world of depth `depth`. A step back by `n` is the displacement
/// `2^32 - n`.
pub fn displace(pos: Pos, dir: Pos, depth: u8) -> (r: Pos)
    requires
        1 <= depth <= 8,
    ensures
        r.x == (pos.x + dir.x) % pow16(depth as int),
        r.y == (pos.y + dir.y) % pow16(depth as int),
        r.z == (pos.z + dir.z) % pow16(depth as int),
{
    Pos {
        x: displace_axis(pos.x, dir.x, depth),
        y: displace_axis(pos.y, dir.y, depth),
        z: displace_axis(pos.z, dir.z, depth),
    }
}

} // verus!

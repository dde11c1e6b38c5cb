//! Bit masks over a slab of 5 x 5 boxes: bit `x + 5 * y` stands for the box
//! at `(x, y)` of the slab.

use vstd::prelude::*;

verus! {

/// The 3 x 3 boxes at the low corner of a slab.
pub const BLOCK_MASK: u32 = 0x1ce7;

/// The 3 x 3 boxes at the low corner of a slab but the one in the middle.
pub const RING_MASK: u32 = 0x1ca7;

/// Whether bit `n` of `v` is set.
pub open spec fn bit(v: u32, n: u32) -> bool {
    (v >> n) & 1 == 1
}

/// Whether one of the three bits from `n` on is set: a row of three boxes.
pub open spec fn row_bits(v: u32, n: u32) -> bool {
    bit(v, n) || bit(v, (n + 1) as u32) || bit(v, (n + 2) as u32)
}

/// Whether a bit of the 3 x 3 block whose low corner is bit `n` is set.
pub open spec fn block_bits(v: u32, n: u32) -> bool {
    row_bits(v, n) || row_bits(v, (n + 5) as u32) || row_bits(v, (n + 10) as u32)
}

/// Whether a bit of the 3 x 3 block whose low corner is bit `n` is set,
/// the one in the middle apart.
pub open spec fn ring_bits(v: u32, n: u32) -> bool {
    row_bits(v, n) || bit(v, (n + 5) as u32) || bit(v, (n + 7) as u32) || row_bits(
        v,
        (n + 10) as u32,
    )
}

/// Setting a bit changes that bit alone.
proof fn lemma_with_bit(v: u32, n: u32, k: u32)
    by (bit_vector)
    requires
        n < 32,
        k < 32,
    ensures
        ((v | (1u32 << n)) >> k) & 1 == 1 <==> (k == n || (v >> k) & 1 == 1),
        (0u32 >> k) & 1 == 0,
{
}

/// A mask of a block or a ring picks the bits of the block or the ring.
proof fn lemma_block(v: u32, n: u32)
    by (bit_vector)
    requires
        n <= 12,
    ensures
        (v & (0x1ce7u32 << n)) != 0 <==> ((v >> n) & 1 == 1 || (v >> ((n + 1) as u32)) & 1 == 1 || (
        v >> ((n + 2) as u32)) & 1 == 1 || (v >> ((n + 5) as u32)) & 1 == 1 || (v >> ((n
            + 6) as u32)) & 1 == 1 || (v >> ((n + 7) as u32)) & 1 == 1 || (v >> ((n + 10) as u32))
            & 1 == 1 || (v >> ((n + 11) as u32)) & 1 == 1 || (v >> ((n + 12) as u32)) & 1 == 1),
        (v & (0x1ca7u32 << n)) != 0 <==> ((v >> n) & 1 == 1 || (v >> ((n + 1) as u32)) & 1 == 1 || (
        v >> ((n + 2) as u32)) & 1 == 1 || (v >> ((n + 5) as u32)) & 1 == 1 || (v >> ((n
            + 7) as u32)) & 1 == 1 || (v >> ((n + 10) as u32)) & 1 == 1 || (v >> ((n + 11) as u32))
            & 1 == 1 || (v >> ((n + 12) as u32)) & 1 == 1),
{
}

/// A bit of two masks joined is set where it is set in one of them.
proof fn lemma_join(a: u32, b: u32, n: u32)
    by (bit_vector)
    requires
        n < 32,
    ensures
        ((a | b) >> n) & 1 == 1 <==> ((a >> n) & 1 == 1 || (b >> n) & 1 == 1),
        (a | b) != 0 <==> (a != 0 || b != 0),
{
}

/// `v` with bit `n` set.
pub(crate) fn with_bit(v: u32, n: u32) -> (r: u32)
    requires
        n < 32,
    ensures
        forall|k: u32| k < 32 ==> #[trigger] bit(r, k) == (k == n || bit(v, k)),
{
    let r = v | (1u32 << n);
    proof {
        assert forall|k: u32| k < 32 implies #[trigger] bit(r, k) == (k == n || bit(v, k)) by {
            lemma_with_bit(v, n, k);
        }
    }
    r
}

/// No bit of 0 is set.
pub proof fn lemma_no_bit(k: u32)
    requires
        k < 32,
    ensures
        !bit(0, k),
{
    lemma_with_bit(0, 0, k);
}

/// Whether, of three slabs one above the other, a bit is set in the 3 x 3
/// blocks of the lower and the upper one or in the ring of the middle one,
/// where bit `n` is the low corner of the blocks: whether one of the 26
/// boxes around the box at bit `n + 6` of the middle slab has its bit set.
pub(crate) fn any_around(lower: u32, middle: u32, upper: u32, n: u32) -> (r: bool)
    requires
        n <= 12,
    ensures
        r == (block_bits(lower, n) || ring_bits(middle, n) || block_bits(upper, n)),
{
    proof {
        lemma_block(lower, n);
        lemma_block(middle, n);
        lemma_block(upper, n);
        lemma_block(lower | upper, n);
        lemma_join(lower, upper, n);
        lemma_join(lower, upper, (n + 1) as u32);
        lemma_join(lower, upper, (n + 2) as u32);
        lemma_join(lower, upper, (n + 5) as u32);
        lemma_join(lower, upper, (n + 6) as u32);
        lemma_join(lower, upper, (n + 7) as u32);
        lemma_join(lower, upper, (n + 10) as u32);
        lemma_join(lower, upper, (n + 11) as u32);
        lemma_join(lower, upper, (n + 12) as u32);
    }
    ((lower | upper) & (BLOCK_MASK << n)) != 0 || (middle & (RING_MASK << n)) != 0
}

} // verus!

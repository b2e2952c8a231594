//! Bit-level view of a 64-bit occupancy set, and the few facts about the
//! bitwise operators that the rest of the crate builds on.

use vstd::prelude::*;

verus! {

/// Bit `i` of `b` is set; indices at 64 and above never are.
pub open spec fn bit(b: u64, i: u64) -> bool {
    i < 64 && (b >> i) & 1u64 == 1u64
}

/// The board is 8 columns by 8 rows, both 0-indexed from the top left.
pub open spec fn in_board(x: int, y: int) -> bool {
    0 <= x < 8 && 0 <= y < 8
}

/// Linear bit index of the cell in column `x` of row `y`.
pub open spec fn idx(x: int, y: int) -> u64 {
    (y * 8 + x) as u64
}

/// The cell `(x, y)` is a member of the occupancy set `b`.
pub open spec fn cell(b: u64, x: int, y: int) -> bool {
    in_board(x, y) && bit(b, idx(x, y))
}

/// Union, intersection and complement act on occupancy sets bit by bit, and
/// a shifted 1 is the singleton set of its index.
pub proof fn lemma_bit_ops()
    by (bit_vector)
    ensures
        forall|a: u64, b: u64, i: u64| #[trigger] bit(a | b, i) == (bit(a, i) || bit(b, i)),
        forall|a: u64, b: u64, i: u64| #[trigger] bit(a & b, i) == (bit(a, i) && bit(b, i)),
        forall|a: u64, i: u64| #[trigger] bit(!a, i) == (i < 64 && !bit(a, i)),
        forall|j: u64, i: u64| j < 64 ==> #[trigger] bit(1u64 << j, i) == (i == j),
        forall|i: u64| !bit(0u64, i),
        forall|a: u64, j: u64| j < 64 ==> (#[trigger] (a | (1u64 << j))) != 0,
{
}

/// Two occupancy sets that agree on every bit from position `k` up agree as
/// words once both are shifted down by `k`.
proof fn lemma_bit_ext_from(a: u64, b: u64, k: u64)
    requires
        k <= 64,
        forall|i: u64| k <= i ==> #[trigger] bit(a, i) == bit(b, i),
    ensures
        (a >> k) == (b >> k),
    decreases 64 - k,
{
    if k == 64 {
        assert((a >> 64u64) == (b >> 64u64)) by (bit_vector);
    } else {
        let k1: u64 = (k + 1) as u64;
        lemma_bit_ext_from(a, b, k1);
        assert(bit(a, k) == bit(b, k));
        assert((a >> k) == (b >> k)) by (bit_vector)
            requires
                k < 64,
                k1 == (k + 1) as u64,
                (a >> k1) == (b >> k1),
                ((a >> k) & 1u64 == 1u64) == ((b >> k) & 1u64 == 1u64),
        ;
    }
}

/// Two occupancy sets with the same members are the same word.
pub proof fn lemma_bit_ext(a: u64, b: u64)
    requires
        forall|i: u64| #[trigger] bit(a, i) == bit(b, i),
    ensures
        a == b,
{
    lemma_bit_ext_from(a, b, 0);
    assert((a >> 0u64) == a && (b >> 0u64) == b) by (bit_vector);
}

} // verus!

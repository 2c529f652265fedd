//! Bitboard primitives: what it means for a square's bit to be set, and the
//! facts about `|`, `&`, `!`, single-bit masks and lowest-bit removal that the
//! board code relies on.
use vstd::prelude::*;

verus! {

/// Square `s` (0 = a1, 63 = h8) is set in the bitboard `bb`.
pub open spec fn has_bit(bb: u64, s: int) -> bool {
    0 <= s < 64 && (bb >> (s as u64)) & 1u64 == 1u64
}

/// The bitboard holding exactly square `s`.
pub open spec fn square_bit(s: int) -> u64 {
    1u64 << (s as u64)
}

proof fn lemma_or_u64(x: u64, y: u64, s: u64)
    by (bit_vector)
    requires
        s < 64,
    ensures
        ((x | y) >> s) & 1u64 == 1u64 <==> ((x >> s) & 1u64 == 1u64 || (y >> s) & 1u64 == 1u64),
{
}

proof fn lemma_and_u64(x: u64, y: u64, s: u64)
    by (bit_vector)
    requires
        s < 64,
    ensures
        ((x & y) >> s) & 1u64 == 1u64 <==> ((x >> s) & 1u64 == 1u64 && (y >> s) & 1u64 == 1u64),
{
}

proof fn lemma_not_u64(x: u64, s: u64)
    by (bit_vector)
    requires
        s < 64,
    ensures
        ((!x) >> s) & 1u64 == 1u64 <==> !((x >> s) & 1u64 == 1u64),
{
}

proof fn lemma_single_u64(t: u64, s: u64)
    by (bit_vector)
    requires
        s < 64,
        t < 64,
    ensures
        ((1u64 << t) >> s) & 1u64 == 1u64 <==> s == t,
{
}

proof fn lemma_test_u64(x: u64, t: u64)
    by (bit_vector)
    requires
        t < 64,
    ensures
        (x & (1u64 << t) != 0) <==> ((x >> t) & 1u64 == 1u64),
{
}

proof fn lemma_zero_u64(s: u64)
    by (bit_vector)
    ensures
        (0u64 >> s) & 1u64 != 1u64,
{
}

proof fn lemma_clear_lowest_u64(x: u64, t: u64)
    by (bit_vector)
    requires
        x != 0,
        t < 64,
        (x >> t) & 1u64 == 1u64,
        x << ((64 - t) as u64) == 0,
    ensures
        x & ((x - 1) as u64) == x & !(1u64 << t),
{
}

pub broadcast proof fn lemma_has_or(x: u64, y: u64, s: int)
    ensures
        #[trigger] has_bit(x | y, s) == (has_bit(x, s) || has_bit(y, s)),
{
    if 0 <= s < 64 {
        lemma_or_u64(x, y, s as u64);
    }
}

pub broadcast proof fn lemma_has_and(x: u64, y: u64, s: int)
    ensures
        #[trigger] has_bit(x & y, s) == (has_bit(x, s) && has_bit(y, s)),
{
    if 0 <= s < 64 {
        lemma_and_u64(x, y, s as u64);
    }
}

pub broadcast proof fn lemma_has_not(x: u64, s: int)
    ensures
        #[trigger] has_bit(!x, s) == (0 <= s < 64 && !has_bit(x, s)),
{
    if 0 <= s < 64 {
        lemma_not_u64(x, s as u64);
    }
}

pub broadcast proof fn lemma_has_single(t: int, s: int)
    requires
        0 <= t < 64,
    ensures
        #[trigger] has_bit(square_bit(t), s) == (s == t),
{
    if 0 <= s < 64 {
        lemma_single_u64(t as u64, s as u64);
    }
}

pub broadcast proof fn lemma_has_zero(s: int)
    ensures
        !#[trigger] has_bit(0u64, s),
{
    if 0 <= s < 64 {
        lemma_zero_u64(s as u64);
    }
}

pub broadcast group group_bits {
    lemma_has_or,
    lemma_has_and,
    lemma_has_not,
    lemma_has_single,
    lemma_has_zero,
}

/// Testing a square's bit with a single-bit mask, as the executable code does.
pub proof fn lemma_test_bit(x: u64, t: int)
    requires
        0 <= t < 64,
    ensures
        (x & square_bit(t) != 0) == has_bit(x, t),
{
    lemma_test_u64(x, t as u64);
}

/// Removing the lowest set bit with `x & (x - 1)`: the removed square is
/// `x.trailing_zeros()`, no lower square is set, and every other square keeps
/// its bit.
pub proof fn lemma_pop_lowest(x: u64)
    requires
        x != 0,
    ensures
        0 <= x.trailing_zeros() < 64,
        has_bit(x, x.trailing_zeros() as int),
        forall|j: int| 0 <= j < x.trailing_zeros() ==> !#[trigger] has_bit(x, j),
        forall|j: int|
            #[trigger] has_bit(x & ((x - 1) as u64), j) == (has_bit(x, j) && j
                != x.trailing_zeros()),
{
    broadcast use group_bits;

    let t = x.trailing_zeros();
    vstd::std_specs::bits::axiom_u64_trailing_zeros(x);
    assert forall|j: int| 0 <= j < t implies !#[trigger] has_bit(x, j) by {
        let ju = j as u64;
        assert((x >> ju) & 1u64 == 0u64);
    }
    lemma_clear_lowest_u64(x, t as u64);
    assert forall|j: int| #[trigger]
        has_bit(x & ((x - 1) as u64), j) == (has_bit(x, j) && j != t) by {
        assert(has_bit(x & !square_bit(t as int), j) == (has_bit(x, j) && j != t));
    }
}

/// Number of set squares below `n`.
pub open spec fn popcount_below(x: u64, n: int) -> nat
    decreases n,
{
    if n <= 0 {
        0
    } else {
        popcount_below(x, n - 1) + if has_bit(x, n - 1) {
            1nat
        } else {
            0nat
        }
    }
}

/// Number of set squares of a bitboard.
pub open spec fn popcount(x: u64) -> nat {
    popcount_below(x, 64)
}

pub proof fn lemma_popcount_below_bound(x: u64, n: int)
    requires
        0 <= n,
    ensures
        popcount_below(x, n) <= n,
    decreases n,
{
    if n > 0 {
        lemma_popcount_below_bound(x, n - 1);
    }
}

/// Counts the set squares of `x`.
pub fn count_ones(x: u64) -> (n: u32)
    ensures
        n == popcount(x),
        n <= 64,
{
    let mut n: u32 = 0;
    let mut i: u64 = 0;
    while i < 64
        invariant
            i <= 64,
            n == popcount_below(x, i as int),
            n <= i,
        decreases 64 - i,
    {
        proof {
            lemma_popcount_below_bound(x, i as int);
        }
        if (x >> i) & 1 == 1 {
            n = n + 1;
        }
        i = i + 1;
    }
    n
}


/// The empty bitboard has no set square.
pub proof fn lemma_popcount_zero()
    ensures
        popcount(0u64) == 0,
{
    lemma_popcount_below_zero(64);
}

proof fn lemma_popcount_below_zero(n: int)
    ensures
        popcount_below(0u64, n) == 0,
    decreases n,
{
    broadcast use group_bits;

    if n > 0 {
        lemma_popcount_below_zero(n - 1);
    }
}

/// Bitboards that hold the same squares below `n` count the same there.
pub proof fn lemma_popcount_same(x: u64, y: u64, n: int)
    requires
        forall|j: int| 0 <= j < n ==> has_bit(x, j) == has_bit(y, j),
    ensures
        popcount_below(x, n) == popcount_below(y, n),
    decreases n,
{
    if n > 0 {
        lemma_popcount_same(x, y, n - 1);
        assert(has_bit(x, n - 1) == has_bit(y, n - 1));
    }
}

/// A bitboard holding the squares of `x` and one more square `s` counts one
/// more than `x` (below `n`, when `s` is below `n`).
pub proof fn lemma_popcount_insert(x: u64, y: u64, s: int, n: int)
    requires
        0 <= s < 64,
        !has_bit(x, s),
        forall|j: int| 0 <= j < n ==> has_bit(y, j) == (has_bit(x, j) || j == s),
    ensures
        popcount_below(y, n) == popcount_below(x, n) + if s < n {
            1int
        } else {
            0int
        },
    decreases n,
{
    if n > 0 {
        lemma_popcount_insert(x, y, s, n - 1);
        assert(has_bit(y, n - 1) == (has_bit(x, n - 1) || n - 1 == s));
    }
}

} // verus!

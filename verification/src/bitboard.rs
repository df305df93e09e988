//! Bitboards: 64-bit words read as sets of squares.
//!
//! Bit `q` of a bitboard says whether square `q` is a member. Every contract
//! in this crate speaks of bitboards through [`bit`], and the lemmas here
//! connect that reading to the word-level operations the code performs.

use vstd::prelude::*;
use vstd::arithmetic::power2::{pow2, lemma2_to64_rest, lemma_pow2_strictly_increases};
use vstd::bits::{lemma_u64_pow2_no_overflow, lemma_u64_shl_is_mul};

verus! {

/// Whether square `q` is a member of the bitboard `b`.
pub open spec fn bit(b: u64, q: u64) -> bool {
    (b >> q) & 1 == 1
}

/// Whether every member of `a` is a member of `b`.
pub open spec fn is_subset(a: u64, b: u64) -> bool {
    a & !b == 0
}

/// The bitboard whose members below `n` are the squares satisfying `f`.
pub open spec fn board_upto(f: spec_fn(u64) -> bool, n: nat) -> u64
    decreases n,
{
    if n == 0 {
        0
    } else {
        let rest = board_upto(f, (n - 1) as nat);
        if f((n - 1) as u64) {
            rest | (1u64 << ((n - 1) as u64))
        } else {
            rest
        }
    }
}

/// The bitboard whose members are exactly the squares satisfying `f`.
pub open spec fn board_of(f: spec_fn(u64) -> bool) -> u64 {
    board_upto(f, 64)
}

/// The number of members of `b` among the squares below `n`.
pub open spec fn count_below(b: u64, n: nat) -> nat
    decreases n,
{
    if n == 0 {
        0
    } else {
        count_below(b, (n - 1) as nat) + if bit(b, (n - 1) as u64) {
            1nat
        } else {
            0nat
        }
    }
}

/// The number of members of `b`.
pub open spec fn popcount(b: u64) -> nat {
    count_below(b, 64)
}

/// `u64::count_ones` of the standard library, which returns the number of
/// ones in the binary representation of its argument. Trusted: the result is
/// taken to be [`popcount`], the count of set bits over the 64 positions.
pub assume_specification[ u64::count_ones ](i: u64) -> (r: u32)
    ensures
        r == popcount(i),
;

/// The empty bitboard has no member.
pub proof fn lemma_bit_zero(q: u64)
    by (bit_vector)
    ensures
        !bit(0, q),
{
}

/// The full bitboard has every square as a member.
pub proof fn lemma_bit_full(q: u64)
    by (bit_vector)
    requires
        q < 64,
    ensures
        bit(0xffff_ffff_ffff_ffff, q),
{
}

/// Adding the square `j` to a bitboard adds that member and no other.
pub proof fn lemma_bit_or_single(b: u64, j: u64, q: u64)
    by (bit_vector)
    requires
        j < 64,
        q < 64,
    ensures
        bit(b | (1u64 << j), q) <==> (bit(b, q) || q == j),
{
}

/// The members of a union are the members of its parts.
pub proof fn lemma_bit_or(a: u64, b: u64, q: u64)
    by (bit_vector)
    ensures
        bit(a | b, q) <==> (bit(a, q) || bit(b, q)),
{
}

/// The members of an intersection are the common members of its parts.
pub proof fn lemma_bit_and(a: u64, b: u64, q: u64)
    by (bit_vector)
    ensures
        bit(a & b, q) <==> (bit(a, q) && bit(b, q)),
{
}

/// The members of a difference are the members of the first part that are
/// not members of the second.
pub proof fn lemma_bit_and_not(a: u64, b: u64, q: u64)
    by (bit_vector)
    ensures
        bit(a & !b, q) <==> (bit(a, q) && !bit(b, q)),
{
}

/// The members of a symmetric difference are the squares on which the two
/// parts differ; it is empty only for equal parts.
pub proof fn lemma_bit_xor(a: u64, b: u64, q: u64)
    by (bit_vector)
    ensures
        bit(a ^ b, q) <==> (bit(a, q) != bit(b, q)),
        a ^ b == 0 ==> a == b,
{
}

/// Testing a square by masking agrees with [`bit`].
pub proof fn lemma_bit_test(b: u64, j: u64)
    by (bit_vector)
    requires
        j < 64,
    ensures
        (b & (1u64 << j) != 0) <==> bit(b, j),
{
}

proof fn lemma_no_high_bits_step(x: u64, n: u64)
    by (bit_vector)
    requires
        n < 64,
        n == 63 || x >> ((n + 1) as u64) == 0,
        !bit(x, n),
    ensures
        x >> n == 0,
{
}

proof fn lemma_no_bits_from(x: u64, n: u64)
    requires
        n < 64,
        forall|q: u64| n <= q < 64 ==> !bit(x, q),
    ensures
        x >> n == 0,
    decreases 64 - n,
{
    if n < 63 {
        lemma_no_bits_from(x, (n + 1) as u64);
    }
    lemma_no_high_bits_step(x, n);
}

proof fn lemma_shr_zero(x: u64)
    by (bit_vector)
    ensures
        x >> 0 == x,
{
}

/// A bitboard without members is the empty bitboard.
pub proof fn lemma_empty(x: u64)
    requires
        forall|q: u64| q < 64 ==> !bit(x, q),
    ensures
        x == 0,
{
    lemma_no_bits_from(x, 0);
    lemma_shr_zero(x);
}

/// Two bitboards with the same members are the same bitboard.
pub proof fn lemma_equal_bits(a: u64, b: u64)
    requires
        forall|q: u64| q < 64 ==> (bit(a, q) <==> bit(b, q)),
    ensures
        a == b,
{
    assert forall|q: u64| q < 64 implies !bit(a ^ b, q) by {
        lemma_bit_xor(a, b, q);
    }
    lemma_empty(a ^ b);
    lemma_bit_xor(a, b, 0);
}

/// The part of a bitboard that lies within a mask is a subset of the mask.
pub proof fn lemma_and_is_subset(a: u64, mask: u64)
    by (bit_vector)
    ensures
        is_subset(a & mask, mask),
{
}

/// [`is_subset`] read square by square.
pub proof fn lemma_subset_bits(a: u64, b: u64)
    ensures
        is_subset(a, b) <==> (forall|q: u64| q < 64 ==> (bit(a, q) ==> bit(b, q))),
{
    if is_subset(a, b) {
        assert forall|q: u64| q < 64 && bit(a, q) implies bit(b, q) by {
            lemma_bit_and_not(a, b, q);
            lemma_bit_zero(q);
        }
    }
    if forall|q: u64| q < 64 ==> (bit(a, q) ==> bit(b, q)) {
        assert forall|q: u64| q < 64 implies !bit(a & !b, q) by {
            lemma_bit_and_not(a, b, q);
        }
        lemma_empty(a & !b);
    }
}

/// The members of [`board_upto`]`(f, n)` are the squares below `n` that
/// satisfy `f`.
pub proof fn lemma_board_upto_bit(f: spec_fn(u64) -> bool, n: nat, q: u64)
    requires
        n <= 64,
        q < 64,
    ensures
        bit(board_upto(f, n), q) <==> (q < n && f(q)),
    decreases n,
{
    if n == 0 {
        lemma_bit_zero(q);
    } else {
        lemma_board_upto_bit(f, (n - 1) as nat, q);
        lemma_bit_or_single(board_upto(f, (n - 1) as nat), (n - 1) as u64, q);
    }
}

/// The members of [`board_of`]`(f)` are the squares satisfying `f`.
pub proof fn lemma_board_of_bit(f: spec_fn(u64) -> bool, q: u64)
    requires
        q < 64,
    ensures
        bit(board_of(f), q) <==> f(q),
{
    lemma_board_upto_bit(f, 64, q);
}

/// A bitboard whose members are the squares satisfying `f` is [`board_of`]`(f)`.
pub proof fn lemma_is_board_of(b: u64, f: spec_fn(u64) -> bool)
    requires
        forall|q: u64| q < 64 ==> (bit(b, q) <==> f(q)),
    ensures
        b == board_of(f),
{
    assert forall|q: u64| q < 64 implies (bit(b, q) <==> bit(board_of(f), q)) by {
        lemma_board_of_bit(f, q);
    }
    lemma_equal_bits(b, board_of(f));
}

/// Among the squares below `n` there are at most `n` members.
pub proof fn lemma_count_below_bound(b: u64, n: nat)
    ensures
        count_below(b, n) <= n,
    decreases n,
{
    if n > 0 {
        lemma_count_below_bound(b, (n - 1) as nat);
    }
}

/// A longer prefix counts at least as many members.
pub proof fn lemma_count_below_monotone(b: u64, n: nat, m: nat)
    requires
        n <= m,
    ensures
        count_below(b, n) <= count_below(b, m),
    decreases m,
{
    if n < m {
        lemma_count_below_monotone(b, n, (m - 1) as nat);
    }
}

/// A member at `q` is counted by every later prefix.
pub proof fn lemma_count_below_member(b: u64, q: u64, m: nat)
    requires
        q < m,
        bit(b, q),
    ensures
        count_below(b, q as nat) < count_below(b, m),
{
    lemma_count_below_monotone(b, (q + 1) as nat, m);
}

/// The empty bitboard has no member below any square.
pub proof fn lemma_count_below_empty(n: nat)
    requires
        n <= 64,
    ensures
        count_below(0, n) == 0,
    decreases n,
{
    if n > 0 {
        lemma_count_below_empty((n - 1) as nat);
        lemma_bit_zero((n - 1) as u64);
    }
}

/// Adding a new member `j` raises the count of every prefix that reaches
/// beyond `j` by one and leaves the others as they are.
pub proof fn lemma_count_below_insert(b: u64, j: u64, n: nat)
    requires
        j < 64,
        n <= 64,
        !bit(b, j),
    ensures
        count_below(b | (1u64 << j), n) == count_below(b, n) + if j < n {
            1nat
        } else {
            0nat
        },
    decreases n,
{
    if n > 0 {
        lemma_count_below_insert(b, j, (n - 1) as nat);
        lemma_bit_or_single(b, j, (n - 1) as u64);
    }
}

/// A prefix of a union counts at most as many members as the prefixes of
/// its parts together.
pub proof fn lemma_count_below_or(a: u64, b: u64, n: nat)
    requires
        n <= 64,
    ensures
        count_below(a | b, n) <= count_below(a, n) + count_below(b, n),
    decreases n,
{
    if n > 0 {
        lemma_count_below_or(a, b, (n - 1) as nat);
        lemma_bit_or(a, b, (n - 1) as u64);
    }
}

/// Adding a square that is not yet a member raises the count by one.
pub proof fn lemma_popcount_insert(b: u64, j: u64)
    requires
        j < 64,
        !bit(b, j),
    ensures
        popcount(b | (1u64 << j)) == popcount(b) + 1,
{
    lemma_count_below_insert(b, j, 64);
}

/// A union has at most as many members as its two parts together.
pub proof fn lemma_popcount_or(a: u64, b: u64)
    ensures
        popcount(a | b) <= popcount(a) + popcount(b),
{
    lemma_count_below_or(a, b, 64);
}

/// The empty bitboard has no members.
pub proof fn lemma_popcount_empty()
    ensures
        popcount(0) == 0,
{
    lemma_count_below_empty(64);
}

proof fn lemma_below_shift(x: u64, k: u64, t: u64)
    by (bit_vector)
    requires
        k < 64,
        x < (1u64 << k),
        k <= t,
        t < 64,
    ensures
        !bit(x, t),
{
}

proof fn lemma_shr_zero_is_below(x: u64, k: u64)
    by (bit_vector)
    requires
        k < 64,
        x >> k == 0,
    ensures
        x < (1u64 << k),
{
}

/// Shifting one to the left by `k` gives the `k`-th power of two.
pub proof fn lemma_one_shl(k: u64)
    requires
        k < 64,
    ensures
        (1u64 << k) == pow2(k as nat),
{
    lemma_u64_pow2_no_overflow(k as nat);
    lemma_u64_shl_is_mul(1, k);
}

/// A number below `2^k` has no bit set at position `k` or above.
pub proof fn lemma_small_has_no_high_bits(x: u64, k: nat, t: u64)
    requires
        x < pow2(k),
        k <= t < 64,
    ensures
        !bit(x, t),
{
    lemma_one_shl(k as u64);
    lemma_below_shift(x, k as u64, t);
}

/// A number with no bit set at position `k` or above is below `2^k`.
pub proof fn lemma_no_high_bits_is_small(x: u64, k: nat)
    requires
        forall|t: u64| k <= t < 64 ==> !bit(x, t),
    ensures
        x < pow2(k),
{
    if k < 64 {
        lemma_no_bits_from(x, k as u64);
        lemma_shr_zero_is_below(x, k as u64);
        lemma_one_shl(k as u64);
    } else {
        lemma2_to64_rest();
        if k > 64 {
            lemma_pow2_strictly_increases(64, k);
        }
    }
}

} // verus!

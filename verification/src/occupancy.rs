//! Enumeration of the blocker placements on a relevant-occupancy mask.
//!
//! A mask with `k` members has `2^k` subsets. The subset with index `i` holds
//! the mask's `t`-th member, counted from the lowest square, exactly when bit
//! `t` of `i` is set.

use vstd::prelude::*;
use vstd::arithmetic::power2::pow2;
use vstd::bits::{lemma_usize_pow2_no_overflow, lemma_usize_shl_is_mul};
use crate::bitboard::{
    bit, board_of, count_below, is_subset, popcount, lemma_bit_or_single, lemma_bit_test,
    lemma_bit_zero, lemma_board_of_bit, lemma_count_below_bound, lemma_count_below_member,
    lemma_equal_bits, lemma_is_board_of, lemma_no_high_bits_is_small,
    lemma_small_has_no_high_bits, lemma_subset_bits,
};

verus! {

/// The membership test of the subset of `mask` with the given index.
pub open spec fn subset_squares(mask: u64, index: u64) -> spec_fn(u64) -> bool {
    |q: u64| bit(mask, q) && bit(index, count_below(mask, q as nat) as u64)
}

/// The subset of `mask` with the given index: square `q` is a member when it
/// is a member of `mask` and, `t` members of `mask` lying below `q`, bit `t`
/// of the index is set.
pub open spec fn nth_subset(mask: u64, index: u64) -> u64 {
    board_of(subset_squares(mask, index))
}

/// The subsets of `mask` in the order of their indices.
pub open spec fn occupancy_seq(mask: u64) -> Seq<u64> {
    Seq::new(pow2(popcount(mask)), |i: int| nth_subset(mask, i as u64))
}

/// The square of the `t`-th member of `mask` among the squares below `n`.
pub open spec fn select(mask: u64, t: nat, n: nat) -> u64
    decreases n,
{
    if n == 0 {
        0
    } else if bit(mask, (n - 1) as u64) && count_below(mask, (n - 1) as nat) == t {
        (n - 1) as u64
    } else {
        select(mask, t, (n - 1) as nat)
    }
}

/// The index bits that the members of `subset` below square `n` account for.
pub open spec fn gather_upto(mask: u64, subset: u64, n: nat) -> u64
    decreases n,
{
    if n == 0 {
        0
    } else {
        let rest = gather_upto(mask, subset, (n - 1) as nat);
        if bit(mask, (n - 1) as u64) && bit(subset, (n - 1) as u64) {
            rest | (1u64 << (count_below(mask, (n - 1) as nat) as u64))
        } else {
            rest
        }
    }
}

/// The index under which a subset of `mask` is enumerated: bit `t` is set
/// when the `t`-th member of `mask` is a member of the subset.
pub open spec fn index_of(mask: u64, subset: u64) -> u64 {
    gather_upto(mask, subset, 64)
}

proof fn lemma_select(mask: u64, t: nat, n: nat)
    requires
        n <= 64,
        t < count_below(mask, n),
    ensures
        select(mask, t, n) < n,
        bit(mask, select(mask, t, n)),
        count_below(mask, select(mask, t, n) as nat) == t,
    decreases n,
{
    if n > 0 {
        if !(bit(mask, (n - 1) as u64) && count_below(mask, (n - 1) as nat) == t) {
            lemma_select(mask, t, (n - 1) as nat);
        }
    }
}

proof fn lemma_select_member(mask: u64, q: u64, n: nat)
    requires
        q < n <= 64,
        bit(mask, q),
    ensures
        select(mask, count_below(mask, q as nat), n) == q,
    decreases n,
{
    if q < n - 1 {
        lemma_count_below_member(mask, q, (n - 1) as nat);
        lemma_select_member(mask, q, (n - 1) as nat);
    }
}

proof fn lemma_gather_bit(mask: u64, subset: u64, n: nat, t: u64)
    requires
        n <= 64,
        t < 64,
    ensures
        bit(gather_upto(mask, subset, n), t) <==> (t < count_below(mask, n) && bit(
            subset,
            select(mask, t as nat, n),
        )),
    decreases n,
{
    if n == 0 {
        lemma_bit_zero(t);
    } else {
        let m = (n - 1) as nat;
        let c = count_below(mask, m);
        lemma_gather_bit(mask, subset, m, t);
        lemma_count_below_bound(mask, m);
        if bit(mask, m as u64) && bit(subset, m as u64) {
            lemma_bit_or_single(gather_upto(mask, subset, m), c as u64, t);
        }
    }
}

/// Every enumerated subset lies within the mask.
pub proof fn lemma_subset_within(mask: u64, index: u64)
    ensures
        is_subset(nth_subset(mask, index), mask),
{
    assert forall|q: u64| q < 64 && bit(nth_subset(mask, index), q) implies bit(mask, q) by {
        lemma_board_of_bit(subset_squares(mask, index), q);
    }
    lemma_subset_bits(nth_subset(mask, index), mask);
}

/// Two different indices below `2^k`, for a mask with `k` members, give two
/// different subsets.
pub proof fn lemma_subsets_distinct(mask: u64, i: u64, j: u64)
    requires
        i < pow2(popcount(mask)),
        j < pow2(popcount(mask)),
        i != j,
    ensures
        nth_subset(mask, i) != nth_subset(mask, j),
{
    if forall|t: u64| t < 64 ==> (bit(i, t) <==> bit(j, t)) {
        lemma_equal_bits(i, j);
    }
    let t = choose|t: u64| t < 64 && !(bit(i, t) <==> bit(j, t));
    if t >= popcount(mask) {
        lemma_small_has_no_high_bits(i, popcount(mask), t);
        lemma_small_has_no_high_bits(j, popcount(mask), t);
    }
    lemma_select(mask, t as nat, 64);
    let q = select(mask, t as nat, 64);
    lemma_board_of_bit(subset_squares(mask, i), q);
    lemma_board_of_bit(subset_squares(mask, j), q);
}

/// Every subset of the mask is enumerated, under the index [`index_of`]
/// gives for it, which is below `2^k` for a mask with `k` members.
pub proof fn lemma_subsets_complete(mask: u64, subset: u64)
    requires
        is_subset(subset, mask),
    ensures
        index_of(mask, subset) < pow2(popcount(mask)),
        nth_subset(mask, index_of(mask, subset)) == subset,
{
    let index = index_of(mask, subset);
    assert forall|t: u64| popcount(mask) <= t < 64 implies !bit(index, t) by {
        lemma_gather_bit(mask, subset, 64, t);
    }
    lemma_no_high_bits_is_small(index, popcount(mask));
    lemma_subset_bits(subset, mask);
    assert forall|q: u64| q < 64 implies (bit(subset, q) <==> subset_squares(mask, index)(q)) by {
        lemma_count_below_bound(mask, q as nat);
        let t = count_below(mask, q as nat) as u64;
        lemma_gather_bit(mask, subset, 64, t);
        if bit(mask, q) {
            lemma_count_below_member(mask, q, 64);
            lemma_select_member(mask, q, 64);
        }
    }
    lemma_is_board_of(subset, subset_squares(mask, index));
}

/// The subset of `mask` with the given index.
pub fn subset_at(mask: u64, index: u64) -> (board: u64)
    ensures
        board == nth_subset(mask, index),
{
    let mut board: u64 = 0;
    let mut taken: u32 = 0;
    let mut square: u32 = 0;
    proof {
        assert forall|q: u64| q < 64 implies !#[trigger] bit(board, q) by {
            lemma_bit_zero(q);
        }
    }
    while square < 64
        invariant
            square <= 64,
            taken == count_below(mask, square as nat),
            forall|q: u64|
                q < 64 ==> (#[trigger] bit(board, q) <==> (q < square && subset_squares(
                    mask,
                    index,
                )(q))),
        decreases 64 - square,
    {
        proof {
            lemma_count_below_bound(mask, square as nat);
            lemma_bit_test(mask, square as u64);
            lemma_bit_test(index, taken as u64);
        }
        let ghost before = board;
        if mask & (1u64 << square) != 0 {
            if index & (1u64 << taken) != 0 {
                board = board | (1u64 << square);
                proof {
                    assert forall|q: u64| q < 64 implies (#[trigger] bit(board, q) <==> (bit(
                        before,
                        q,
                    ) || q == square)) by {
                        lemma_bit_or_single(before, square as u64, q);
                    }
                }
            }
            taken = taken + 1;
        }
        square = square + 1;
    }
    proof {
        lemma_is_board_of(board, subset_squares(mask, index));
    }
    board
}

/// All subsets of `mask`, the one with index `i` at position `i`.
///
/// A mask with `k` members has `2^k` subsets; they are held in one vector of
/// 64-bit words, which bounds `k` by the width of `usize`.
pub fn occupancies(mask: u64) -> (subsets: Vec<u64>)
    requires
        popcount(mask) + 4 < usize::BITS,
    ensures
        subsets@ == occupancy_seq(mask),
        subsets@.len() == pow2(popcount(mask)),
        forall|i: int| 0 <= i < subsets@.len() ==> #[trigger] subsets@[i] == nth_subset(mask, i as u64),
        forall|i: int| 0 <= i < subsets@.len() ==> is_subset(#[trigger] subsets@[i], mask),
        forall|i: int, j: int|
            0 <= i < j < subsets@.len() ==> #[trigger] subsets@[i] != #[trigger] subsets@[j],
        forall|subset: u64|
            is_subset(subset, mask) ==> 0 <= index_of(mask, subset) < subsets@.len()
                && subsets@[index_of(mask, subset) as int] == subset,
{
    let bits: u32 = mask.count_ones();
    proof {
        lemma_usize_pow2_no_overflow(bits as nat);
        lemma_usize_shl_is_mul(1, bits as usize);
    }
    let len: usize = 1usize << bits;
    let mut subsets: Vec<u64> = Vec::with_capacity(len);
    let mut index: usize = 0;
    while index < len
        invariant
            index <= len,
            len == pow2(popcount(mask)),
            subsets@.len() == index,
            forall|i: int| 0 <= i < index ==> #[trigger] subsets@[i] == nth_subset(mask, i as u64),
        decreases len - index,
    {
        subsets.push(subset_at(mask, index as u64));
        index = index + 1;
    }
    proof {
        assert(subsets@ =~= occupancy_seq(mask));
        assert forall|i: int| 0 <= i < subsets@.len() implies is_subset(
            #[trigger] subsets@[i],
            mask,
        ) by {
            lemma_subset_within(mask, i as u64);
        }
        assert forall|i: int, j: int| 0 <= i < j < subsets@.len() implies #[trigger] subsets@[i]
            != #[trigger] subsets@[j] by {
            lemma_subsets_distinct(mask, i as u64, j as u64);
        }
        assert forall|subset: u64| is_subset(subset, mask) implies 0 <= index_of(mask, subset)
            < subsets@.len() && subsets@[index_of(mask, subset) as int] == subset by {
            lemma_subsets_complete(mask, subset);
        }
    }
    subsets
}

} // verus!

//! The multiplicative hash and the collision-detecting table construction.
//!
//! A candidate magic number sends an occupancy to a slot of a table with
//! `2^bits` slots. The construction writes each occupancy's attack set into
//! its slot and gives up as soon as two occupancies with different attack
//! sets meet in one slot.

use vstd::prelude::*;
use vstd::arithmetic::power2::{pow2, lemma_pow2_pos};
use vstd::bits::{lemma_usize_pow2_no_overflow, lemma_usize_shl_is_mul};
use crate::bitboard::lemma_one_shl;

verus! {

/// What a slot that no occupancy is sent to holds.
pub const EMPTY: u64 = 0xffff_ffff_ffff_ffff;

/// The word with the low `bits` bits set.
pub open spec fn low_mask(bits: u32) -> u64 {
    (pow2(bits as nat) - 1) as u64
}

/// The slot of `board`: the product with the magic number modulo `2^64`,
/// shifted right, reduced to `bits` bits.
pub open spec fn hash_spec(board: u64, magic: u64, shift: u32, bits: u32) -> u64 {
    (board.wrapping_mul(magic) >> shift) & low_mask(bits)
}

proof fn lemma_and_le(x: u64, m: u64)
    by (bit_vector)
    ensures
        x & m <= m,
{
}

/// Every slot is below `2^bits`.
pub proof fn lemma_hash_bound(board: u64, magic: u64, shift: u32, bits: u32)
    requires
        bits < 64,
    ensures
        hash_spec(board, magic, shift, bits) < pow2(bits as nat),
{
    lemma_one_shl(bits as u64);
    lemma_pow2_pos(bits as nat);
    lemma_and_le(board.wrapping_mul(magic) >> shift, low_mask(bits));
}

/// The slot of `board` in a table of `2^bits` slots. The multiplication
/// wraps around at 64 bits.
pub fn hash(board: u64, magic: u64, shift: u32, bits: u32) -> (slot: u64)
    requires
        shift < 64,
        bits < 64,
    ensures
        slot == hash_spec(board, magic, shift, bits),
        slot < pow2(bits as nat),
{
    proof {
        lemma_one_shl(bits as u64);
        lemma_pow2_pos(bits as nat);
        lemma_hash_bound(board, magic, shift, bits);
    }
    (board.wrapping_mul(magic) >> shift) & ((1u64 << bits) - 1)
}

/// The number of (occupancy, attack set) pairs that two parallel sequences
/// hold.
pub open spec fn pair_count(occupancies: Seq<u64>, attacks: Seq<u64>) -> int {
    if occupancies.len() <= attacks.len() {
        occupancies.len() as int
    } else {
        attacks.len() as int
    }
}

/// The slot of the `k`-th occupancy.
pub open spec fn slot_of(magic: u64, shift: u32, bits: u32, occupancies: Seq<u64>, k: int) -> int {
    hash_spec(occupancies[k], magic, shift, bits) as int
}

/// Whether one of the first `n` occupancies is sent to slot `s`.
pub open spec fn is_hit(
    magic: u64,
    shift: u32,
    bits: u32,
    occupancies: Seq<u64>,
    n: int,
    s: int,
) -> bool {
    exists|k: int| 0 <= k < n && #[trigger] slot_of(magic, shift, bits, occupancies, k) == s
}

/// One of the first `n` occupancies that is sent to slot `s`.
pub open spec fn hit_of(
    magic: u64,
    shift: u32,
    bits: u32,
    occupancies: Seq<u64>,
    n: int,
    s: int,
) -> int {
    choose|k: int| 0 <= k < n && #[trigger] slot_of(magic, shift, bits, occupancies, k) == s
}

/// Whether the hash is perfect on the given pairs: occupancies that share a
/// slot have the same attack set.
pub open spec fn collision_free(
    magic: u64,
    shift: u32,
    bits: u32,
    occupancies: Seq<u64>,
    attacks: Seq<u64>,
) -> bool {
    forall|i: int, j: int|
        0 <= i < pair_count(occupancies, attacks) && 0 <= j < pair_count(occupancies, attacks)
            && #[trigger] slot_of(magic, shift, bits, occupancies, i) == #[trigger] slot_of(
            magic,
            shift,
            bits,
            occupancies,
            j,
        ) ==> attacks[i] == attacks[j]
}

/// The table of a perfect hash: each slot holds the attack set of the
/// occupancies sent to it, or [`EMPTY`] when there is none.
pub open spec fn table_spec(
    magic: u64,
    shift: u32,
    bits: u32,
    occupancies: Seq<u64>,
    attacks: Seq<u64>,
) -> Seq<u64> {
    let n = pair_count(occupancies, attacks);
    Seq::new(
        pow2(bits as nat),
        |s: int|
            if is_hit(magic, shift, bits, occupancies, n, s) {
                attacks[hit_of(magic, shift, bits, occupancies, n, s)]
            } else {
                EMPTY
            },
    )
}

/// What the construction returns: the table when the hash is perfect on the
/// given pairs, nothing otherwise.
pub open spec fn build_spec(
    magic: u64,
    shift: u32,
    bits: u32,
    occupancies: Seq<u64>,
    attacks: Seq<u64>,
) -> Option<Seq<u64>> {
    if collision_free(magic, shift, bits, occupancies, attacks) {
        Some(table_spec(magic, shift, bits, occupancies, attacks))
    } else {
        None
    }
}

/// The properties that single out the result of the construction.
pub open spec fn is_build_of(
    magic: u64,
    shift: u32,
    bits: u32,
    occupancies: Seq<u64>,
    attacks: Seq<u64>,
    result: Option<Seq<u64>>,
) -> bool {
    let n = pair_count(occupancies, attacks);
    &&& result is Some <==> collision_free(magic, shift, bits, occupancies, attacks)
    &&& result matches Some(table) ==> {
        &&& table.len() == pow2(bits as nat)
        &&& forall|k: int|
            0 <= k < n ==> table[#[trigger] slot_of(magic, shift, bits, occupancies, k)]
                == attacks[k]
        &&& forall|s: int|
            0 <= s < table.len() && !is_hit(magic, shift, bits, occupancies, n, s)
                ==> #[trigger] table[s] == EMPTY
    }
}

/// The table that was built, as a sequence.
pub open spec fn table_view(table: Option<Vec<u64>>) -> Option<Seq<u64>> {
    match table {
        Some(t) => Some(t@),
        None => None,
    }
}

/// The construction is a function of its inputs: whatever has the
/// properties of its result for given inputs is that result, so two runs on
/// the same inputs yield the same table or both yield none.
pub proof fn lemma_build_unique(
    magic: u64,
    shift: u32,
    bits: u32,
    occupancies: Seq<u64>,
    attacks: Seq<u64>,
    first: Option<Seq<u64>>,
    second: Option<Seq<u64>>,
)
    requires
        is_build_of(magic, shift, bits, occupancies, attacks, first),
        is_build_of(magic, shift, bits, occupancies, attacks, second),
    ensures
        first == second,
{
    let n = pair_count(occupancies, attacks);
    if first is Some {
        let a = first->0;
        let b = second->0;
        assert forall|s: int| 0 <= s < a.len() implies a[s] == b[s] by {
            if is_hit(magic, shift, bits, occupancies, n, s) {
                let k = hit_of(magic, shift, bits, occupancies, n, s);
                assert(a[slot_of(magic, shift, bits, occupancies, k)] == attacks[k]);
                assert(b[slot_of(magic, shift, bits, occupancies, k)] == attacks[k]);
            }
        }
        assert(a =~= b);
    }
}

/// [`build_spec`] has the properties that single out the result.
pub proof fn lemma_build_spec(
    magic: u64,
    shift: u32,
    bits: u32,
    occupancies: Seq<u64>,
    attacks: Seq<u64>,
)
    requires
        bits < 64,
    ensures
        is_build_of(
            magic,
            shift,
            bits,
            occupancies,
            attacks,
            build_spec(magic, shift, bits, occupancies, attacks),
        ),
{
    let n = pair_count(occupancies, attacks);
    if collision_free(magic, shift, bits, occupancies, attacks) {
        let table = table_spec(magic, shift, bits, occupancies, attacks);
        assert forall|k: int| 0 <= k < n implies table[#[trigger] slot_of(
            magic,
            shift,
            bits,
            occupancies,
            k,
        )] == attacks[k] by {
            let s = slot_of(magic, shift, bits, occupancies, k);
            lemma_hash_bound(occupancies[k], magic, shift, bits);
            assert(is_hit(magic, shift, bits, occupancies, n, s));
            let h = hit_of(magic, shift, bits, occupancies, n, s);
            assert(slot_of(magic, shift, bits, occupancies, h) == slot_of(
                magic,
                shift,
                bits,
                occupancies,
                k,
            ));
        }
    }
}

/// Builds the table of the hash `(magic, shift, bits)` for the given pairs,
/// the `i`-th occupancy going with the `i`-th attack set.
fn build_table(magic: u64, shift: u32, bits: u32, occupancies: &[u64], attacks: &[u64]) -> (table:
    Option<Vec<u64>>)
    requires
        shift < 64,
        bits + 4 < usize::BITS,
    ensures
        table_view(table) == build_spec(magic, shift, bits, occupancies@, attacks@),
        is_build_of(magic, shift, bits, occupancies@, attacks@, table_view(table)),
{
    proof {
        lemma_usize_pow2_no_overflow(bits as nat);
        lemma_usize_shl_is_mul(1, bits as usize);
    }
    let size: usize = 1usize << bits;
    let mut table: Vec<u64> = vec![EMPTY; size];
    let mut filled: Vec<bool> = vec![false; size];
    let n: usize = if occupancies.len() <= attacks.len() {
        occupancies.len()
    } else {
        attacks.len()
    };
    let mut i: usize = 0;
    while i < n
        invariant
            shift < 64,
            bits < 64,
            i <= n,
            n == pair_count(occupancies@, attacks@),
            size == pow2(bits as nat),
            table@.len() == size,
            filled@.len() == size,
            forall|k: int|
                0 <= k < i ==> 0 <= #[trigger] slot_of(magic, shift, bits, occupancies@, k) < size
                    && filled@[slot_of(magic, shift, bits, occupancies@, k)]
                    && table@[slot_of(magic, shift, bits, occupancies@, k)] == attacks@[k],
            forall|s: int|
                0 <= s < size && #[trigger] filled@[s] ==> is_hit(
                    magic,
                    shift,
                    bits,
                    occupancies@,
                    i as int,
                    s,
                ),
            forall|s: int| 0 <= s < size && !filled@[s] ==> #[trigger] table@[s] == EMPTY,
        decreases n - i,
    {
        let slot = hash(occupancies[i], magic, shift, bits) as usize;
        assert(slot == slot_of(magic, shift, bits, occupancies@, i as int));
        if !filled[slot] {
            table.set(slot, attacks[i]);
            filled.set(slot, true);
        } else if table[slot] != attacks[i] {
            proof {
                let k = hit_of(magic, shift, bits, occupancies@, i as int, slot as int);
                assert(slot_of(magic, shift, bits, occupancies@, k) == slot_of(
                    magic,
                    shift,
                    bits,
                    occupancies@,
                    i as int,
                ));
                assert(attacks@[k] != attacks@[i as int]);
            }
            return None;
        }
        i = i + 1;
    }
    proof {
        let spec_table = table_spec(magic, shift, bits, occupancies@, attacks@);
        assert forall|s: int| 0 <= s < size implies table@[s] == spec_table[s] by {
            if is_hit(magic, shift, bits, occupancies@, n as int, s) {
                let k = hit_of(magic, shift, bits, occupancies@, n as int, s);
                assert(table@[slot_of(magic, shift, bits, occupancies@, k)] == attacks@[k]);
            }
        }
        assert(table@ =~= spec_table);
        lemma_build_spec(magic, shift, bits, occupancies@, attacks@);
    }
    Some(table)
}

/// Builds the lookup table of a rook for a candidate hash, or finds that
/// the candidate fails.
///
/// `occupancies` and `attacks` are parallel. The result is the table exactly
/// when no two occupancies with different attack sets share a slot.
pub fn check_rook_magic(
    magic: u64,
    shift: u32,
    bits: u32,
    occupancies: &[u64],
    attacks: &[u64],
) -> (table: Option<Vec<u64>>)
    requires
        shift < 64,
        bits + 4 < usize::BITS,
    ensures
        table_view(table) == build_spec(magic, shift, bits, occupancies@, attacks@),
        is_build_of(magic, shift, bits, occupancies@, attacks@, table_view(table)),
{
    build_table(magic, shift, bits, occupancies, attacks)
}

/// Builds the lookup table of a bishop for a candidate hash, or finds that
/// the candidate fails.
///
/// `occupancies` and `attacks` are parallel. The result is the table exactly
/// when no two occupancies with different attack sets share a slot.
pub fn check_bish_magic(
    magic: u64,
    shift: u32,
    bits: u32,
    occupancies: &[u64],
    attacks: &[u64],
) -> (table: Option<Vec<u64>>)
    requires
        shift < 64,
        bits + 4 < usize::BITS,
    ensures
        table_view(table) == build_spec(magic, shift, bits, occupancies@, attacks@),
        is_build_of(magic, shift, bits, occupancies@, attacks@, table_view(table)),
{
    build_table(magic, shift, bits, occupancies, attacks)
}

} // verus!

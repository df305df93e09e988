//! The randomized search for magic numbers.
//!
//! For one square and one pattern the search draws candidate magic numbers
//! until one of them, with some shift, hashes every occupancy of the square's
//! relevant mask to a slot that holds the right attack set.

use vstd::prelude::*;
use vstd::arithmetic::power2::pow2;
use rand::Rng;
use rand::rngs::SmallRng;
use crate::bitboard::{is_subset, popcount, lemma_and_is_subset, lemma_one_shl};
use crate::geometry::{
    attack_set, attack_spec, mask_spec, relevant_mask, lemma_attack_depends_on_mask,
    lemma_mask_popcount, Pattern,
};
use crate::occupancy::{index_of, occupancies, occupancy_seq};
use crate::table::{
    check_bish_magic, check_rook_magic, collision_free, hash, hash_spec, lemma_build_spec,
    low_mask, slot_of, table_spec,
};

verus! {

/// The random number generator of the rand crate that the search draws
/// from. Nothing of its state is visible here.
#[verifier::external_type_specification]
#[verifier::external_body]
pub struct ExSmallRng(rand::rngs::SmallRng);

/// `Rng::gen::<u64>` of the rand crate on a `SmallRng`: the next 64-bit
/// word of the generator's stream. Trusted to return; nothing is claimed of
/// the word.
#[verifier::external_body]
fn next_word(rng: &mut SmallRng) -> (word: u64) {
    rng.gen::<u64>()
}

/// A candidate from three random words: the bits set in all three, which
/// favours sparse candidates.
pub fn combine(first: u64, second: u64, third: u64) -> (magic: u64)
    ensures
        magic == first & second & third,
{
    first & second & third
}

/// Draws a candidate magic number. Every 64-bit word can come back.
pub fn draw_magic(rng: &mut SmallRng) -> (magic: u64) {
    let first = next_word(rng);
    let second = next_word(rng);
    let third = next_word(rng);
    combine(first, second, third)
}

/// A perfect hash for one square and one pattern, with its lookup table.
#[derive(Debug, Clone)]
pub struct MagicDescriptor {
    /// The multiplier.
    pub magic: u64,
    /// How far the product is shifted right.
    pub shift: u32,
    /// The relevant-occupancy mask of the square.
    pub mask: u64,
    /// The width of a table index: the table has `2^bits` slots.
    pub bits: u32,
    /// The attack sets, indexed by the hash of the occupancy.
    pub attack_table: Vec<u64>,
    /// The number of candidates that were tried before this one.
    pub attempt: u32,
}

impl MagicDescriptor {
    /// Whether this is a perfect hash for `square` and `pattern`: the mask is
    /// the square's relevant mask, and for every occupancy within the mask
    /// the table holds the attack set at the occupancy's slot.
    pub open spec fn describes(&self, pattern: Pattern, square: u8) -> bool {
        &&& self.mask == mask_spec(pattern, square)
        &&& self.bits == popcount(self.mask) || self.bits == popcount(self.mask) + 1
        &&& self.shift < 64 - popcount(self.mask)
        &&& self.attack_table@.len() == pow2(self.bits as nat)
        &&& forall|occupancy: u64|
            is_subset(occupancy, self.mask) ==> self.attack_table@[#[trigger] hash_spec(
                occupancy,
                self.magic,
                self.shift,
                self.bits,
            ) as int] == attack_spec(pattern, square, occupancy)
    }

    /// Whether this is what the candidate `self.magic`, tried as attempt
    /// `self.attempt`, leads to for `square` and `pattern`: the shift is the
    /// first one that is accepted, the width is the one it is accepted with,
    /// and the table is the table of that hash.
    pub open spec fn accepted_for(
        &self,
        pattern: Pattern,
        square: u8,
        max_attempts: u32,
        allow_relaxation: bool,
    ) -> bool {
        let occupancies = occupancy_seq(self.mask);
        let attacks = attack_seq(pattern, square, occupancies);
        let relax = relaxation_due(self.attempt, max_attempts, allow_relaxation);
        &&& width_at(self.mask, self.magic, self.shift, relax, occupancies, attacks) == Some(
            self.bits,
        )
        &&& forall|s: u32|
            s < self.shift ==> #[trigger] width_at(
                self.mask,
                self.magic,
                s,
                relax,
                occupancies,
                attacks,
            ) is None
        &&& self.attack_table@ == table_spec(
            self.magic,
            self.shift,
            self.bits,
            occupancies,
            attacks,
        )
    }

    /// The word that reduces a shifted product to a table index.
    pub fn index_mask(&self) -> (mask: u64)
        requires
            self.bits < 64,
        ensures
            mask == low_mask(self.bits),
    {
        proof {
            lemma_one_shl(self.bits as u64);
            vstd::arithmetic::power2::lemma_pow2_pos(self.bits as nat);
        }
        (1u64 << self.bits) - 1
    }
}

/// The index of a perfect hash has at most thirteen bits, and shift and
/// index together stay within the 64 bits of the product.
pub proof fn lemma_descriptor_width(d: MagicDescriptor, pattern: Pattern, square: u8)
    requires
        square < 64,
        d.describes(pattern, square),
    ensures
        d.bits <= 13,
        d.shift + d.bits <= 64,
{
    lemma_mask_popcount(pattern, square);
}

/// A perfect hash answers for every placement of blockers on the board: the
/// table entry at the slot of the blockers that lie within the mask is the
/// attack set for the whole placement.
pub proof fn lemma_descriptor_answers(
    d: MagicDescriptor,
    pattern: Pattern,
    square: u8,
    occupancy: u64,
)
    requires
        square < 64,
        d.describes(pattern, square),
    ensures
        d.attack_table@[hash_spec(occupancy & d.mask, d.magic, d.shift, d.bits) as int]
            == attack_spec(pattern, square, occupancy),
{
    lemma_and_is_subset(occupancy, d.mask);
    lemma_attack_depends_on_mask(pattern, square, occupancy);
}

/// The attack set of each occupancy, in the order of the occupancies.
pub open spec fn attack_seq(pattern: Pattern, square: u8, occupancies: Seq<u64>) -> Seq<u64> {
    Seq::new(occupancies.len(), |i: int| attack_spec(pattern, square, occupancies[i]))
}

/// The cheap test a shift has to pass before a table is built: the hash of
/// the full mask has at least `bits` bits set.
pub open spec fn passes_filter(mask: u64, magic: u64, shift: u32, bits: u32) -> bool {
    popcount(hash_spec(mask, magic, shift, bits)) >= bits
}

/// Whether a failed candidate is tried again with a table twice as large.
pub open spec fn relaxation_due(attempt: u32, max_attempts: u32, allow_relaxation: bool) -> bool {
    allow_relaxation && attempt > max_attempts / 2
}

/// The index width with which `(magic, shift)` is accepted, if it is: the
/// mask's member count when the hash is perfect at that width, else one more
/// when relaxation is due and the hash is perfect then.
pub open spec fn width_at(
    mask: u64,
    magic: u64,
    shift: u32,
    relax: bool,
    occupancies: Seq<u64>,
    attacks: Seq<u64>,
) -> Option<u32> {
    let bits = popcount(mask) as u32;
    if !passes_filter(mask, magic, shift, bits) {
        None
    } else if collision_free(magic, shift, bits, occupancies, attacks) {
        Some(bits)
    } else if relax && collision_free(magic, shift, (bits + 1) as u32, occupancies, attacks) {
        Some((bits + 1) as u32)
    } else {
        None
    }
}

/// Tries one candidate magic number with every shift, in ascending order,
/// and returns the hash of the first shift that is accepted.
pub fn try_candidate(
    pattern: Pattern,
    magic: u64,
    attempt: u32,
    max_attempts: u32,
    allow_relaxation: bool,
    mask: u64,
    occupancies: &[u64],
    attacks: &[u64],
) -> (found: Option<MagicDescriptor>)
    requires
        popcount(mask) + 5 < usize::BITS,
    ensures
        match found {
            Some(d) => {
                &&& d.magic == magic
                &&& d.mask == mask
                &&& d.attempt == attempt
                &&& d.shift < 64 - popcount(mask)
                &&& width_at(
                    mask,
                    magic,
                    d.shift,
                    relaxation_due(attempt, max_attempts, allow_relaxation),
                    occupancies@,
                    attacks@,
                ) == Some(d.bits)
                &&& forall|s: u32|
                    s < d.shift ==> #[trigger] width_at(
                        mask,
                        magic,
                        s,
                        relaxation_due(attempt, max_attempts, allow_relaxation),
                        occupancies@,
                        attacks@,
                    ) is None
                &&& d.attack_table@ == table_spec(magic, d.shift, d.bits, occupancies@, attacks@)
            },
            None => forall|s: u32|
                s < 64 - popcount(mask) ==> #[trigger] width_at(
                    mask,
                    magic,
                    s,
                    relaxation_due(attempt, max_attempts, allow_relaxation),
                    occupancies@,
                    attacks@,
                ) is None,
        },
{
    let bits: u32 = mask.count_ones();
    let relax = allow_relaxation && attempt > max_attempts / 2;
    let mut shift: u32 = 0;
    while shift < 64 - bits
        invariant
            bits == popcount(mask),
            bits + 5 < usize::BITS,
            relax == relaxation_due(attempt, max_attempts, allow_relaxation),
            shift <= 64 - bits,
            forall|s: u32|
                s < shift ==> #[trigger] width_at(mask, magic, s, relax, occupancies@, attacks@)
                    is None,
        decreases 64 - bits - shift,
    {
        let probe = hash(mask, magic, shift, bits);
        if probe.count_ones() >= bits {
            let table = match pattern {
                Pattern::Rook => check_rook_magic(magic, shift, bits, occupancies, attacks),
                Pattern::Bishop => check_bish_magic(magic, shift, bits, occupancies, attacks),
            };
            if let Some(attack_table) = table {
                return Some(MagicDescriptor { magic, shift, mask, bits, attack_table, attempt });
            }
            if relax {
                let wider = match pattern {
                    Pattern::Rook => check_rook_magic(magic, shift, bits + 1, occupancies, attacks),
                    Pattern::Bishop => check_bish_magic(
                        magic,
                        shift,
                        bits + 1,
                        occupancies,
                        attacks,
                    ),
                };
                if let Some(attack_table) = wider {
                    return Some(
                        MagicDescriptor {
                            magic,
                            shift,
                            mask,
                            bits: bits + 1,
                            attack_table,
                            attempt,
                        },
                    );
                }
            }
        }
        shift = shift + 1;
    }
    None
}

/// The attack set of each occupancy, in the order of the occupancies.
pub fn attack_sets(square: u8, pattern: Pattern, occupancies: &[u64]) -> (attacks: Vec<u64>)
    requires
        square < 64,
    ensures
        attacks@ == attack_seq(pattern, square, occupancies@),
        attacks@.len() == occupancies@.len(),
        forall|i: int|
            0 <= i < attacks@.len() ==> #[trigger] attacks@[i] == attack_spec(
                pattern,
                square,
                occupancies@[i],
            ),
{
    let mut attacks: Vec<u64> = Vec::with_capacity(occupancies.len());
    let mut i: usize = 0;
    while i < occupancies.len()
        invariant
            square < 64,
            i <= occupancies@.len(),
            attacks@.len() == i,
            forall|k: int|
                0 <= k < i ==> #[trigger] attacks@[k] == attack_spec(
                    pattern,
                    square,
                    occupancies@[k],
                ),
        decreases occupancies@.len() - i,
    {
        attacks.push(attack_set(square, pattern, occupancies[i]));
        i = i + 1;
    }
    assert(attacks@ =~= attack_seq(pattern, square, occupancies@));
    attacks
}

/// Searches a perfect hash for `square` and `pattern`, drawing at most
/// `max_attempts` candidates from `rng`.
///
/// A hash that comes back is perfect over every occupancy of the square's
/// relevant mask. Its table has `2^k` slots for a mask of `k` members, or
/// `2^(k + 1)` when relaxation is allowed and the candidate came after more
/// than half of the attempts. Nothing comes back when no candidate that was
/// drawn is accepted, which depends on the random stream.
pub fn search(
    rng: &mut SmallRng,
    square: u8,
    pattern: Pattern,
    max_attempts: u32,
    allow_relaxation: bool,
) -> (found: Option<MagicDescriptor>)
    requires
        square < 64,
    ensures
        found matches Some(d) ==> {
            &&& d.describes(pattern, square)
            &&& d.accepted_for(pattern, square, max_attempts, allow_relaxation)
            &&& d.attempt < max_attempts
            &&& d.bits == popcount(d.mask) || relaxation_due(
                d.attempt,
                max_attempts,
                allow_relaxation,
            )
            &&& !allow_relaxation ==> d.attack_table@.len() == pow2(popcount(d.mask))
        },
{
    let mask = relevant_mask(square, pattern);
    let subsets = occupancies(mask);
    let attacks = attack_sets(square, pattern, subsets.as_slice());
    let mut attempt: u32 = 0;
    while attempt < max_attempts
        invariant
            square < 64,
            mask == mask_spec(pattern, square),
            popcount(mask) <= 12,
            subsets@ == occupancy_seq(mask),
            attacks@ == attack_seq(pattern, square, subsets@),
            attacks@.len() == subsets@.len(),
            forall|i: int|
                0 <= i < attacks@.len() ==> #[trigger] attacks@[i] == attack_spec(
                    pattern,
                    square,
                    subsets@[i],
                ),
            forall|subset: u64|
                is_subset(subset, mask) ==> 0 <= #[trigger] index_of(mask, subset) < subsets@.len()
                    && subsets@[index_of(mask, subset) as int] == subset,
        decreases max_attempts - attempt,
    {
        let magic = draw_magic(rng);
        let found = try_candidate(
            pattern,
            magic,
            attempt,
            max_attempts,
            allow_relaxation,
            mask,
            subsets.as_slice(),
            attacks.as_slice(),
        );
        if let Some(d) = found {
            proof {
                lemma_build_spec(d.magic, d.shift, d.bits, subsets@, attacks@);
                assert forall|occupancy: u64| is_subset(occupancy, d.mask) implies d.attack_table@[
                #[trigger] hash_spec(occupancy, d.magic, d.shift, d.bits) as int] == attack_spec(
                    pattern,
                    square,
                    occupancy,
                ) by {
                    let k = index_of(mask, occupancy) as int;
                    assert(slot_of(d.magic, d.shift, d.bits, subsets@, k) == hash_spec(
                        occupancy,
                        d.magic,
                        d.shift,
                        d.bits,
                    ));
                }
            }
            return Some(d);
        }
        attempt = attempt + 1;
    }
    None
}

/// Why a run came to nothing: the attempts for one square ran out.
#[derive(Debug, Clone, Copy)]
pub struct SearchExhausted {
    /// The pattern that was being searched.
    pub pattern: Pattern,
    /// The square no hash was found for.
    pub square: u8,
}

/// The pattern of the `i`-th descriptor of a full run.
pub open spec fn pattern_at(i: int) -> Pattern {
    if i < 64 {
        Pattern::Rook
    } else {
        Pattern::Bishop
    }
}

/// The square of the `i`-th descriptor of a full run.
pub open spec fn square_at(i: int) -> u8 {
    (i % 64) as u8
}

/// The number of searches of a full run: two patterns on 64 squares.
pub const SEARCHES: usize = 128;

/// The pattern and the square of the `i`-th search of a full run: first the
/// rook on the squares 0 to 63, then the bishop on the squares 0 to 63.
pub fn job_at(i: usize) -> (job: (Pattern, u8))
    requires
        i < SEARCHES,
    ensures
        job.0 == pattern_at(i as int),
        job.1 == square_at(i as int),
        job.1 < 64,
{
    let pattern = if i < 64 {
        Pattern::Rook
    } else {
        Pattern::Bishop
    };
    (pattern, (i % 64) as u8)
}

/// Searches all 128 hashes: the rook's for the squares 0 to 63, then the
/// bishop's for the squares 0 to 63, each with its own budget of attempts.
/// The run stops at the first square for which the attempts run out.
pub fn find_all(rng: &mut SmallRng, max_attempts: u32, allow_relaxation: bool) -> (result: Result<
    Vec<MagicDescriptor>,
    SearchExhausted,
>)
    ensures
        match result {
            Ok(all) => {
                &&& all@.len() == 128
                &&& forall|i: int|
                    0 <= i < 128 ==> {
                        &&& (#[trigger] all@[i]).describes(pattern_at(i), square_at(i))
                        &&& all@[i].accepted_for(
                            pattern_at(i),
                            square_at(i),
                            max_attempts,
                            allow_relaxation,
                        )
                        &&& all@[i].attempt < max_attempts
                        &&& all@[i].bits == popcount(all@[i].mask) || relaxation_due(
                            all@[i].attempt,
                            max_attempts,
                            allow_relaxation,
                        )
                    }
            },
            Err(e) => e.square < 64,
        },
{
    let mut all: Vec<MagicDescriptor> = Vec::with_capacity(SEARCHES);
    let mut i: usize = 0;
    while i < SEARCHES
        invariant
            i <= 128,
            all@.len() == i,
            forall|k: int|
                0 <= k < i ==> {
                    &&& (#[trigger] all@[k]).describes(pattern_at(k), square_at(k))
                    &&& all@[k].accepted_for(
                        pattern_at(k),
                        square_at(k),
                        max_attempts,
                        allow_relaxation,
                    )
                    &&& all@[k].attempt < max_attempts
                    &&& all@[k].bits == popcount(all@[k].mask) || relaxation_due(
                        all@[k].attempt,
                        max_attempts,
                        allow_relaxation,
                    )
                },
        decreases 128 - i,
    {
        let (pattern, square) = job_at(i);
        match search(rng, square, pattern, max_attempts, allow_relaxation) {
            Some(d) => {
                all.push(d);
            },
            None => {
                return Err(SearchExhausted { pattern, square });
            },
        }
        i = i + 1;
    }
    Ok(all)
}

/// Sixty-four empty vectors, one per square.
pub fn vec_arr() -> (tables: [Vec<u64>; 64])
    ensures
        forall|i: int| 0 <= i < 64 ==> (#[trigger] tables@[i])@.len() == 0,
{
    [
        Vec::new(), Vec::new(), Vec::new(), Vec::new(),
        Vec::new(), Vec::new(), Vec::new(), Vec::new(),
        Vec::new(), Vec::new(), Vec::new(), Vec::new(),
        Vec::new(), Vec::new(), Vec::new(), Vec::new(),
        Vec::new(), Vec::new(), Vec::new(), Vec::new(),
        Vec::new(), Vec::new(), Vec::new(), Vec::new(),
        Vec::new(), Vec::new(), Vec::new(), Vec::new(),
        Vec::new(), Vec::new(), Vec::new(), Vec::new(),
        Vec::new(), Vec::new(), Vec::new(), Vec::new(),
        Vec::new(), Vec::new(), Vec::new(), Vec::new(),
        Vec::new(), Vec::new(), Vec::new(), Vec::new(),
        Vec::new(), Vec::new(), Vec::new(), Vec::new(),
        Vec::new(), Vec::new(), Vec::new(), Vec::new(),
        Vec::new(), Vec::new(), Vec::new(), Vec::new(),
        Vec::new(), Vec::new(), Vec::new(), Vec::new(),
        Vec::new(), Vec::new(), Vec::new(), Vec::new(),
    ]
}

} // verus!

use magic_bitboard_finder::geometry::{attack_set, relevant_mask, Pattern};
use magic_bitboard_finder::occupancy::occupancies;
use magic_bitboard_finder::search::{
    attack_sets, combine, draw_magic, find_all, job_at, search, try_candidate, vec_arr,
    MagicDescriptor, SEARCHES,
};
use magic_bitboard_finder::table::{hash, EMPTY};
use rand::rngs::SmallRng;
use rand::SeedableRng;

fn assert_perfect(d: &MagicDescriptor, square: u8, pattern: Pattern) {
    assert_eq!(d.mask, relevant_mask(square, pattern));
    assert_eq!(d.attack_table.len(), 1usize << d.bits);
    assert!(d.shift < 64 - d.mask.count_ones());
    for occupancy in occupancies(d.mask) {
        let slot = hash(occupancy, d.magic, d.shift, d.bits) as usize;
        assert_eq!(d.attack_table[slot], attack_set(square, pattern, occupancy));
    }
}

fn sample_attacks(occupancies: &[u64]) -> Vec<u64> {
    occupancies.iter().map(|o| (o * 2654435761 + 17) & 0xffff).collect()
}

#[test]
fn combine_keeps_the_common_bits() {
    assert_eq!(combine(0b1110, 0b0111, 0b1101), 0b0100);
    assert_eq!(combine(u64::MAX, u64::MAX, 0x1234), 0x1234);
    assert_eq!(combine(0xff00, 0x00ff, u64::MAX), 0);
}

#[test]
fn draw_magic_follows_the_seeded_stream() {
    let mut rng = SmallRng::seed_from_u64(1);
    let magic = draw_magic(&mut rng);
    assert_eq!(magic, 0xb69f_604a_f052_deb0 & 0x09e1_49a4_a587_f9eb & 0x2e8d_d4b9_e845_4db1);
    let mut again = SmallRng::seed_from_u64(1);
    assert_eq!(draw_magic(&mut again), magic);
    assert_ne!(draw_magic(&mut again), magic);
}

#[test]
fn attack_sets_are_parallel_to_the_occupancies() {
    let subsets = occupancies(relevant_mask(27, Pattern::Rook));
    let attacks = attack_sets(27, Pattern::Rook, &subsets);
    assert_eq!(attacks.len(), subsets.len());
    assert_eq!(attacks[0], 0x0808_0808_f708_0808);
    for i in 0..subsets.len() {
        assert_eq!(attacks[i], attack_set(27, Pattern::Rook, subsets[i]));
    }
}

#[test]
fn candidate_is_accepted_at_its_first_shift() {
    let subsets = occupancies(0b111);
    let attacks = sample_attacks(&subsets);
    let d = try_candidate(Pattern::Rook, 35, 0, 100, false, 0b111, &subsets, &attacks).unwrap();
    assert_eq!((d.magic, d.shift, d.bits, d.mask, d.attempt), (35, 5, 3, 0b111, 0));
    assert_eq!(
        d.attack_table,
        vec![0x11, 0x79c2, 0xf373, 0x6d24, 0xe6d5, 0x6086, 0xda37, 0x53e8]
    );
}

#[test]
fn candidate_is_relaxed_only_past_half_of_the_attempts() {
    let subsets = occupancies(0b111);
    let attacks = sample_attacks(&subsets);
    let relaxed = vec![
        0x11, EMPTY, 0x79c2, EMPTY, 0xf373, EMPTY, 0x6d24, EMPTY, 0xe6d5, EMPTY, 0x6086, EMPTY,
        EMPTY, 0xda37, EMPTY, 0x53e8,
    ];
    let d = try_candidate(Pattern::Bishop, 35, 51, 100, true, 0b111, &subsets, &attacks).unwrap();
    assert_eq!((d.shift, d.bits, d.attempt), (4, 4, 51));
    assert_eq!(d.attack_table, relaxed);
    let d = try_candidate(Pattern::Bishop, 35, 50, 100, true, 0b111, &subsets, &attacks).unwrap();
    assert_eq!((d.shift, d.bits), (5, 3));
    let d = try_candidate(Pattern::Bishop, 35, 99, 100, false, 0b111, &subsets, &attacks).unwrap();
    assert_eq!((d.shift, d.bits), (5, 3));
}

#[test]
fn candidate_that_needs_relaxation_fails_without_it() {
    let subsets = occupancies(0b111);
    let attacks = sample_attacks(&subsets);
    assert!(try_candidate(Pattern::Rook, 27, 9, 10, false, 0b111, &subsets, &attacks).is_none());
    assert!(try_candidate(Pattern::Rook, 27, 5, 10, true, 0b111, &subsets, &attacks).is_none());
    let d = try_candidate(Pattern::Rook, 27, 6, 10, true, 0b111, &subsets, &attacks).unwrap();
    assert_eq!((d.shift, d.bits), (2, 4));
    assert_eq!(
        d.attack_table,
        vec![
            0x11, 0x6086, EMPTY, EMPTY, 0x6d24, EMPTY, 0x79c2, EMPTY, 0xda37, EMPTY, EMPTY, 0xe6d5,
            EMPTY, 0xf373, EMPTY, 0x53e8,
        ]
    );
}

#[test]
fn candidate_zero_is_never_accepted() {
    let mask = relevant_mask(0, Pattern::Bishop);
    let subsets = occupancies(mask);
    let attacks = attack_sets(0, Pattern::Bishop, &subsets);
    assert!(try_candidate(Pattern::Bishop, 0, 9, 10, true, mask, &subsets, &attacks).is_none());
}

#[test]
fn search_finds_a_bishop_hash_in_the_corner() {
    let mut rng = SmallRng::seed_from_u64(1);
    let d = search(&mut rng, 0, Pattern::Bishop, 1_000_000, false).unwrap();
    assert_perfect(&d, 0, Pattern::Bishop);
    assert_eq!((d.attempt, d.magic, d.shift, d.bits), (1224, 0x0100_8022_4282_0210, 53, 6));
    assert_eq!(d.attack_table.len(), 64);
    assert_eq!(d.attack_table[0], 0x8040_2010_0804_0200);
}

#[test]
fn search_finds_a_rook_hash_in_the_centre() {
    let mut rng = SmallRng::seed_from_u64(7);
    let d = search(&mut rng, 27, Pattern::Rook, 1_000_000, false).unwrap();
    assert_perfect(&d, 27, Pattern::Rook);
    assert_eq!((d.attempt, d.magic, d.shift, d.bits), (11695, 0x000a_0008_0080_8010, 46, 10));
    assert_eq!(d.attack_table.len(), 1024);
}

#[test]
fn search_fails_when_the_attempts_run_out() {
    let mut rng = SmallRng::seed_from_u64(1);
    assert!(search(&mut rng, 0, Pattern::Bishop, 1224, false).is_none());
    let mut rng = SmallRng::seed_from_u64(1);
    assert!(search(&mut rng, 0, Pattern::Bishop, 1225, false).is_some());
    let mut rng = SmallRng::seed_from_u64(1);
    assert!(search(&mut rng, 0, Pattern::Rook, 0, true).is_none());
}

#[test]
fn search_without_relaxation_gives_the_exact_table_size() {
    for (seed, square) in [(2u64, 7u8), (3, 9), (9, 18), (10, 62)] {
        let mut rng = SmallRng::seed_from_u64(seed);
        let d = search(&mut rng, square, Pattern::Bishop, 1_000_000, false).unwrap();
        assert_perfect(&d, square, Pattern::Bishop);
        assert_eq!(d.bits, d.mask.count_ones());
        assert_eq!(d.attack_table.len(), 1usize << d.mask.count_ones());
    }
}

#[test]
fn search_with_relaxation_may_double_the_table() {
    let mut rng = SmallRng::seed_from_u64(2);
    let d = search(&mut rng, 0, Pattern::Bishop, 600, true).unwrap();
    assert_perfect(&d, 0, Pattern::Bishop);
    assert_eq!((d.attempt, d.magic, d.shift, d.bits), (464, 0x0491_0052_0081_8052, 56, 7));
    assert_eq!(d.mask.count_ones(), 6);
    assert_eq!(d.attack_table.len(), 128);
    assert_eq!(d.attack_table.iter().filter(|a| **a == EMPTY).count(), 64);
    assert!(d.attempt > 600 / 2);
    let mut rng = SmallRng::seed_from_u64(2);
    assert!(search(&mut rng, 0, Pattern::Bishop, 600, false).is_none());
}

#[test]
fn search_with_relaxation_on_an_inner_square() {
    let mut rng = SmallRng::seed_from_u64(1);
    let d = search(&mut rng, 9, Pattern::Bishop, 200, true).unwrap();
    assert_perfect(&d, 9, Pattern::Bishop);
    assert_eq!((d.attempt, d.magic, d.shift, d.bits), (135, 0x0000_8621_01c0_0a28, 54, 6));
    assert_eq!(d.index_mask(), 63);
}

#[test]
fn index_mask_has_the_low_bits_set() {
    let mut d = MagicDescriptor {
        magic: 1,
        shift: 0,
        mask: 0,
        bits: 0,
        attack_table: vec![EMPTY],
        attempt: 0,
    };
    assert_eq!(d.index_mask(), 0);
    d.bits = 12;
    assert_eq!(d.index_mask(), 0xfff);
    d.bits = 63;
    assert_eq!(d.index_mask(), 0x7fff_ffff_ffff_ffff);
}

#[test]
fn find_all_stops_at_the_first_square_without_attempts() {
    let mut rng = SmallRng::seed_from_u64(1);
    let failure = find_all(&mut rng, 0, true).unwrap_err();
    assert_eq!(failure.pattern, Pattern::Rook);
    assert_eq!(failure.square, 0);
}

#[test]
fn find_all_stops_at_the_first_square_that_fails() {
    let mut rng = SmallRng::seed_from_u64(11);
    let failure = find_all(&mut rng, 300, false).unwrap_err();
    assert_eq!(failure.pattern, Pattern::Rook);
    assert_eq!(failure.square, 0);
}

#[test]
fn vec_arr_is_sixty_four_empty_vectors() {
    let tables = vec_arr();
    assert_eq!(tables.len(), 64);
    assert!(tables.iter().all(|t| t.is_empty()));
}

#[test]
fn jobs_run_the_rook_first_and_the_bishop_second() {
    assert_eq!(SEARCHES, 128);
    assert_eq!(job_at(0), (Pattern::Rook, 0));
    assert_eq!(job_at(27), (Pattern::Rook, 27));
    assert_eq!(job_at(63), (Pattern::Rook, 63));
    assert_eq!(job_at(64), (Pattern::Bishop, 0));
    assert_eq!(job_at(100), (Pattern::Bishop, 36));
    assert_eq!(job_at(127), (Pattern::Bishop, 63));
}

#[test]
fn search_finds_every_bishop_hash() {
    let mut rng = SmallRng::seed_from_u64(3);
    let mut magics = 0u64;
    let mut attempts = 0u64;
    for job in 64..SEARCHES {
        let (pattern, square) = job_at(job);
        let d = search(&mut rng, square, pattern, 2_000_000, false).unwrap();
        assert_perfect(&d, square, Pattern::Bishop);
        assert_eq!(d.bits, d.mask.count_ones());
        magics ^= d.magic;
        attempts += d.attempt as u64;
    }
    assert_eq!(magics, 0x5680_5397_f2c6_cd8c);
    assert_eq!(attempts, 297_016);
}

#[test]
fn search_finds_rook_hashes_on_the_long_diagonal() {
    let mut rng = SmallRng::seed_from_u64(5);
    let expected = [
        (9u8, 15673u32, 0x0002_9004_0100_0402u64, 41u32, 10u32),
        (18, 58138, 0x0001_0004_0400_8001, 41, 10),
        (27, 23908, 0x0400_1020_0420_0102, 43, 10),
        (36, 1337, 0x8448_0100_1010_0080, 51, 10),
        (45, 102995, 0x0020_0020_0010_0404, 49, 10),
        (54, 24294, 0x0010_2000_8040_0020, 51, 10),
    ];
    for (square, attempt, magic, shift, bits) in expected {
        let d = search(&mut rng, square, Pattern::Rook, 2_000_000, true).unwrap();
        assert_perfect(&d, square, Pattern::Rook);
        assert_eq!((d.attempt, d.magic, d.shift, d.bits), (attempt, magic, shift, bits));
    }
}

#[test]
fn found_hash_answers_for_blockers_anywhere_on_the_board() {
    let mut rng = SmallRng::seed_from_u64(7);
    let d = search(&mut rng, 27, Pattern::Rook, 1_000_000, false).unwrap();
    for occupancy in [0u64, !0, 0x0123_4567_89ab_cdef, 0xfedc_ba98_7654_3210, 0x8100_0000_0000_0081] {
        let slot = hash(occupancy & d.mask, d.magic, d.shift, d.bits) as usize;
        assert_eq!(d.attack_table[slot], attack_set(27, Pattern::Rook, occupancy));
    }
}

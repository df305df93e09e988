use magic_bitboard_finder::geometry::{
    attack_set, bish_attack, bish_mask, relevant_mask, rook_attack, rook_mask, Pattern,
};

const RANK_1: u64 = 0x0000_0000_0000_00ff;
const RANK_8: u64 = 0xff00_0000_0000_0000;
const FILE_A: u64 = 0x0101_0101_0101_0101;
const FILE_H: u64 = 0x8080_8080_8080_8080;

#[test]
fn rook_attack_d4_empty_is_full_cross() {
    let attack = rook_attack(27, 0);
    assert_eq!(attack, 0x0808_0808_f708_0808);
    assert_eq!(attack.count_ones(), 14);
    let mut expected = 0u64;
    for q in 0..64u64 {
        if q != 27 && (q / 8 == 3 || q % 8 == 3) {
            expected |= 1 << q;
        }
    }
    assert_eq!(attack, expected);
}

#[test]
fn rook_attack_stops_at_first_blocker() {
    // rook a1, blockers on a4 and c1: a2 a3 a4, b1 c1
    assert_eq!(rook_attack(0, (1 << 24) | (1 << 2)), 0x0101_0106);
    // rook d4, blockers on e4, d6, d2, b4
    let occupancy = (1u64 << 28) | (1 << 43) | (1 << 11) | (1 << 25);
    assert_eq!(rook_attack(27, occupancy), 0x0000_0808_1608_0800);
}

#[test]
fn rook_attack_ignores_blockers_behind_the_first() {
    let near = 1u64 << 24;
    let far = 1u64 << 40;
    assert_eq!(rook_attack(0, near), rook_attack(0, near | far));
}

#[test]
fn rook_attack_includes_edge_squares() {
    assert_eq!(rook_attack(63, 0), 0x7f80_8080_8080_8080);
    assert_eq!(rook_attack(0, 0), (RANK_1 | FILE_A) & !1);
}

#[test]
fn bishop_attack_on_empty_board() {
    assert_eq!(bish_attack(27, 0), 0x8041_2214_0014_2241);
    assert_eq!(bish_attack(2, 0), 0x0000_8040_2011_0a00);
}

#[test]
fn bishop_attack_stops_at_first_blocker() {
    // bishop d4, blockers on f6 and b2
    let occupancy = (1u64 << 45) | (1 << 9);
    assert_eq!(bish_attack(27, occupancy), 0x0001_2214_0014_2240);
}

#[test]
fn rook_masks_of_known_squares() {
    assert_eq!(rook_mask(0), 0x0001_0101_0101_017e);
    assert_eq!(rook_mask(7), 0x0080_8080_8080_807e);
    assert_eq!(rook_mask(27), 0x0008_0808_7608_0800);
    assert_eq!(rook_mask(28), 0x0010_1010_6e10_1000);
    assert_eq!(rook_mask(56), 0x7e01_0101_0101_0100);
    assert_eq!(rook_mask(63), 0x7e80_8080_8080_8000);
}

#[test]
fn bishop_masks_of_known_squares() {
    assert_eq!(bish_mask(0), 0x0040_2010_0804_0200);
    assert_eq!(bish_mask(2), 0x0000_0040_2010_0a00);
    assert_eq!(bish_mask(7), 0x0002_0408_1020_4000);
    assert_eq!(bish_mask(27), 0x0040_2214_0014_2200);
    assert_eq!(bish_mask(56), 0x0002_0408_1020_4000);
    assert_eq!(bish_mask(63), 0x0040_2010_0804_0200);
}

#[test]
fn masks_never_hold_the_own_square() {
    for square in 0..64u8 {
        assert_eq!(rook_mask(square) & (1 << square), 0);
        assert_eq!(bish_mask(square) & (1 << square), 0);
    }
}

#[test]
fn rook_masks_never_hold_the_edge_square_of_a_ray() {
    for square in 0..64u8 {
        let mask = rook_mask(square);
        let file = FILE_A << (square % 8);
        let rank = RANK_1 << (8 * (square / 8));
        assert_eq!(mask & file & (RANK_1 | RANK_8), 0);
        assert_eq!(mask & rank & (FILE_A | FILE_H), 0);
        assert_eq!(mask & !(file | rank), 0);
    }
}

#[test]
fn bishop_masks_never_hold_a_rim_square() {
    for square in 0..64u8 {
        assert_eq!(bish_mask(square) & (RANK_1 | RANK_8 | FILE_A | FILE_H), 0);
    }
}

#[test]
fn masks_have_at_most_twelve_members() {
    let mut most = 0;
    for square in 0..64u8 {
        most = most.max(rook_mask(square).count_ones());
        most = most.max(bish_mask(square).count_ones());
    }
    assert_eq!(most, 12);
    assert_eq!(rook_mask(0).count_ones(), 12);
    assert_eq!(rook_mask(27).count_ones(), 10);
    assert_eq!(bish_mask(0).count_ones(), 6);
    assert_eq!(bish_mask(27).count_ones(), 9);
    assert_eq!(bish_mask(9).count_ones(), 5);
}

#[test]
fn mask_is_attack_on_empty_board_without_ray_ends() {
    for square in 0..64u8 {
        let rook = rook_attack(square, 0);
        assert_eq!(rook_mask(square) & !rook, 0);
        assert_eq!((rook & !rook_mask(square)).count_ones(), 4 - corner_or_edge(square));
        let bishop = bish_attack(square, 0);
        assert_eq!(bish_mask(square), bishop & !(RANK_1 | RANK_8 | FILE_A | FILE_H));
    }
}

fn corner_or_edge(square: u8) -> u32 {
    let mut missing = 0;
    if square / 8 == 0 || square / 8 == 7 {
        missing += 1;
    }
    if square % 8 == 0 || square % 8 == 7 {
        missing += 1;
    }
    missing
}

#[test]
fn attacks_never_hold_the_own_square() {
    for square in 0..64u8 {
        for occupancy in [0u64, !0, 0x5555_5555_5555_5555, 0x00ff_00ff_00ff_00ff] {
            assert_eq!(rook_attack(square, occupancy) & (1 << square), 0);
            assert_eq!(bish_attack(square, occupancy) & (1 << square), 0);
        }
    }
}

#[test]
fn attack_on_full_board_is_the_neighbours() {
    assert_eq!(rook_attack(27, !0), (1 << 35) | (1 << 19) | (1 << 26) | (1 << 28));
    assert_eq!(bish_attack(27, !0), (1 << 36) | (1 << 34) | (1 << 20) | (1 << 18));
    assert_eq!(rook_attack(0, !0), (1 << 8) | (1 << 1));
    assert_eq!(bish_attack(0, !0), 1 << 9);
}

#[test]
fn pattern_dispatch_agrees_with_the_named_functions() {
    for square in 0..64u8 {
        assert_eq!(relevant_mask(square, Pattern::Rook), rook_mask(square));
        assert_eq!(relevant_mask(square, Pattern::Bishop), bish_mask(square));
        let occupancy = 0x0123_4567_89ab_cdef_u64.rotate_left(square as u32);
        assert_eq!(attack_set(square, Pattern::Rook, occupancy), rook_attack(square, occupancy));
        assert_eq!(attack_set(square, Pattern::Bishop, occupancy), bish_attack(square, occupancy));
    }
}

#[test]
fn only_blockers_within_the_mask_matter() {
    for square in [0u8, 7, 27, 36, 56, 63] {
        let occupancy = 0x0f1e_2d3c_4b5a_6978_u64;
        assert_eq!(
            rook_attack(square, occupancy),
            rook_attack(square, occupancy & rook_mask(square))
        );
        assert_eq!(
            bish_attack(square, occupancy),
            bish_attack(square, occupancy & bish_mask(square))
        );
    }
}

//! Board geometry: the squares a sliding piece can be blocked on, and the
//! squares it attacks for a given placement of blockers.
//!
//! A square is a number below 64; its rank is `q / 8` and its file `q % 8`.
//! A ray leaves a square in one of eight unit directions `(dr, df)`.

use vstd::prelude::*;
use crate::bitboard::{
    bit, board_of, popcount, lemma_bit_and, lemma_bit_full, lemma_bit_or, lemma_empty,
    lemma_equal_bits, lemma_bit_or_single, lemma_bit_test, lemma_bit_zero,
    lemma_board_of_bit, lemma_is_board_of, lemma_popcount_empty, lemma_popcount_insert,
    lemma_popcount_or,
};

verus! {

/// The two sliding movement patterns.
#[derive(Clone, Copy, PartialEq, Eq, Structural, Debug)]
pub enum Pattern {
    /// Four orthogonal rays.
    Rook,
    /// Four diagonal rays.
    Bishop,
}

/// The offset reached after `m` steps along an axis whose direction has the
/// sign of `d`.
pub open spec fn toward(d: int, m: int) -> int {
    if d > 0 {
        m
    } else if d < 0 {
        -m
    } else {
        0
    }
}

/// Whether a rank and a file name a square of the board.
pub open spec fn on_board(rank: int, file: int) -> bool {
    0 <= rank < 8 && 0 <= file < 8
}

/// The larger of the sizes of two offsets.
pub open spec fn span(x: int, y: int) -> int {
    let ax = if x >= 0 {
        x
    } else {
        -x
    };
    let ay = if y >= 0 {
        y
    } else {
        -y
    };
    if ax >= ay {
        ax
    } else {
        ay
    }
}

/// The number of king steps between two squares.
pub open spec fn distance(sq: int, q: int) -> int {
    span(q / 8 - sq / 8, q % 8 - sq % 8)
}

/// The square `m` steps from `sq` in direction `(dr, df)`.
pub open spec fn ray_square(sq: int, dr: int, df: int, m: int) -> u64 {
    ((sq / 8 + toward(dr, m)) * 8 + sq % 8 + toward(df, m)) as u64
}

/// Whether `q` lies on the ray that leaves `sq` in direction `(dr, df)`.
pub open spec fn on_ray(sq: int, dr: int, df: int, q: int) -> bool {
    let k = distance(sq, q);
    k >= 1 && q / 8 == sq / 8 + toward(dr, k) && q % 8 == sq % 8 + toward(df, k)
}

/// Whether the first `k - 1` squares of the ray hold no blocker.
pub open spec fn ray_clear(sq: int, dr: int, df: int, occupancy: u64, k: int) -> bool {
    forall|m: int| 1 <= m < k ==> !bit(occupancy, #[trigger] ray_square(sq, dr, df, m))
}

/// Whether a walk along the ray from `sq` visits `q`: `q` is on the ray and
/// no square strictly between the two holds a blocker.
pub open spec fn ray_reaches(sq: int, dr: int, df: int, occupancy: u64, q: int) -> bool {
    on_ray(sq, dr, df, q) && ray_clear(sq, dr, df, occupancy, distance(sq, q))
}

/// Whether `q` is on the ray and is not its last square: the ray goes on for
/// at least one more square of the board beyond `q`.
pub open spec fn ray_inner(sq: int, dr: int, df: int, q: int) -> bool {
    on_ray(sq, dr, df, q) && on_board(q / 8 + dr, q % 8 + df)
}

/// How many squares of the ray are not its last one.
pub open spec fn inner_len(sq: int, dr: int, df: int) -> int {
    let room_r = if dr > 0 {
        7 - sq / 8
    } else if dr < 0 {
        sq / 8
    } else {
        7
    };
    let room_f = if df > 0 {
        7 - sq % 8
    } else if df < 0 {
        sq % 8
    } else {
        7
    };
    let room = if room_r <= room_f {
        room_r
    } else {
        room_f
    };
    if room >= 1 {
        room - 1
    } else {
        0
    }
}

/// Whether a blocker on `q` can matter to a piece of the given pattern on `sq`.
pub open spec fn relevant(pattern: Pattern, sq: int, q: int) -> bool {
    match pattern {
        Pattern::Rook => {
            ||| ray_inner(sq, 1, 0, q)
            ||| ray_inner(sq, 0, 1, q)
            ||| ray_inner(sq, -1, 0, q)
            ||| ray_inner(sq, 0, -1, q)
        },
        Pattern::Bishop => {
            ||| ray_inner(sq, 1, 1, q)
            ||| ray_inner(sq, 1, -1, q)
            ||| ray_inner(sq, -1, 1, q)
            ||| ray_inner(sq, -1, -1, q)
        },
    }
}

/// Whether a piece of the given pattern on `sq` attacks `q` when the squares
/// of `occupancy` hold blockers.
pub open spec fn reaches(pattern: Pattern, sq: int, occupancy: u64, q: int) -> bool {
    match pattern {
        Pattern::Rook => {
            ||| ray_reaches(sq, 1, 0, occupancy, q)
            ||| ray_reaches(sq, 0, 1, occupancy, q)
            ||| ray_reaches(sq, -1, 0, occupancy, q)
            ||| ray_reaches(sq, 0, -1, occupancy, q)
        },
        Pattern::Bishop => {
            ||| ray_reaches(sq, 1, 1, occupancy, q)
            ||| ray_reaches(sq, 1, -1, occupancy, q)
            ||| ray_reaches(sq, -1, 1, occupancy, q)
            ||| ray_reaches(sq, -1, -1, occupancy, q)
        },
    }
}

/// The membership test of a relevant-occupancy mask.
pub open spec fn relevant_squares(pattern: Pattern, square: u8) -> spec_fn(u64) -> bool {
    |q: u64| relevant(pattern, square as int, q as int)
}

/// The membership test of an attack set.
pub open spec fn attacked_squares(pattern: Pattern, square: u8, occupancy: u64) -> spec_fn(
    u64,
) -> bool {
    |q: u64| reaches(pattern, square as int, occupancy, q as int)
}

/// The relevant-occupancy mask of a square: the squares on which a blocker
/// can change what the piece attacks.
pub open spec fn mask_spec(pattern: Pattern, square: u8) -> u64 {
    board_of(relevant_squares(pattern, square))
}

/// The attack set of a square for one placement of blockers.
pub open spec fn attack_spec(pattern: Pattern, square: u8, occupancy: u64) -> u64 {
    board_of(attacked_squares(pattern, square, occupancy))
}

/// The squares of one ray that are not its last.
fn ray_mask(square: u8, dr: i8, df: i8) -> (mask: u64)
    requires
        square < 64,
        -1 <= dr <= 1,
        -1 <= df <= 1,
        dr != 0 || df != 0,
    ensures
        forall|q: u64|
            q < 64 ==> (#[trigger] bit(mask, q) <==> ray_inner(
                square as int,
                dr as int,
                df as int,
                q as int,
            )),
{
    let mut r: i8 = (square / 8) as i8 + dr;
    let mut f: i8 = (square % 8) as i8 + df;
    let mut mask: u64 = 0;
    let ghost mut n: int = 1;
    let ghost sq = square as int;
    let ghost (dri, dfi) = (dr as int, df as int);
    proof {
        assert forall|q: u64| q < 64 implies !#[trigger] bit(mask, q) by {
            lemma_bit_zero(q);
        }
    }
    while 0 <= r + dr && r + dr < 8 && 0 <= f + df && f + df < 8
        invariant
            0 <= sq < 64,
            -1 <= dri <= 1,
            -1 <= dfi <= 1,
            dri != 0 || dfi != 0,
            dri == dr,
            dfi == df,
            1 <= n <= 8,
            r == sq / 8 + toward(dri, n),
            f == sq % 8 + toward(dfi, n),
            forall|q: u64|
                q < 64 ==> (#[trigger] bit(mask, q) <==> (ray_inner(sq, dri, dfi, q as int)
                    && distance(sq, q as int) < n)),
        decreases 8 - n,
    {
        let idx: u8 = (r * 8 + f) as u8;
        let ghost before = mask;
        mask = mask | (1u64 << idx);
        proof {
            assert forall|q: u64| q < 64 implies (#[trigger] bit(mask, q) <==> (ray_inner(
                sq,
                dri,
                dfi,
                q as int,
            ) && distance(sq, q as int) < n + 1)) by {
                lemma_bit_or_single(before, idx as u64, q);
                lemma_ray_nth(sq, dri, dfi, n, q as int);
            }
        }
        r = r + dr;
        f = f + df;
        proof {
            n = n + 1;
        }
    }
    mask
}

proof fn lemma_offsets(dr: int, df: int, n: int, x: int, y: int)
    requires
        -1 <= dr <= 1,
        -1 <= df <= 1,
        dr != 0 || df != 0,
        1 <= n,
    ensures
        (x == toward(dr, n) && y == toward(df, n)) <==> (span(x, y) == n && x == toward(
            dr,
            span(x, y),
        ) && y == toward(df, span(x, y))),
{
}

/// The `n`-th square of a ray, when it is on the board, is on the ray at
/// distance `n`, and is the only such square.
proof fn lemma_ray_nth(sq: int, dr: int, df: int, n: int, q: int)
    requires
        0 <= sq < 64,
        -1 <= dr <= 1,
        -1 <= df <= 1,
        dr != 0 || df != 0,
        1 <= n,
        0 <= q < 64,
        on_board(sq / 8 + toward(dr, n), sq % 8 + toward(df, n)),
    ensures
        (on_ray(sq, dr, df, q) && distance(sq, q) == n) <==> q == ray_square(sq, dr, df, n),
        ray_square(sq, dr, df, n) == (sq / 8 + toward(dr, n)) * 8 + sq % 8 + toward(df, n),
{
    let rank = sq / 8 + toward(dr, n);
    let file = sq % 8 + toward(df, n);
    let target = rank * 8 + file;
    assert(0 <= target < 64);
    assert(target / 8 == rank && target % 8 == file);
    assert(q == (q / 8) * 8 + q % 8);
    assert(q == target <==> (q / 8 == rank && q % 8 == file));
    lemma_offsets(dr, df, n, q / 8 - sq / 8, q % 8 - sq % 8);
}

proof fn lemma_ray_clear_shorter(sq: int, dr: int, df: int, occupancy: u64, n: int, k: int)
    requires
        ray_clear(sq, dr, df, occupancy, n),
        k <= n,
    ensures
        ray_clear(sq, dr, df, occupancy, k),
{
}

proof fn lemma_ray_clear_longer(sq: int, dr: int, df: int, occupancy: u64, n: int)
    requires
        ray_clear(sq, dr, df, occupancy, n),
        !bit(occupancy, ray_square(sq, dr, df, n)),
    ensures
        ray_clear(sq, dr, df, occupancy, n + 1),
{
}

proof fn lemma_ray_blocked(sq: int, dr: int, df: int, occupancy: u64, n: int, k: int)
    requires
        1 <= n < k,
        bit(occupancy, ray_square(sq, dr, df, n)),
    ensures
        !ray_clear(sq, dr, df, occupancy, k),
{
}

/// The squares visited by a walk along one ray: every square up to and
/// including the first blocker, or up to the edge of the board.
fn ray_attack(square: u8, dr: i8, df: i8, occupancy: u64) -> (mask: u64)
    requires
        square < 64,
        -1 <= dr <= 1,
        -1 <= df <= 1,
        dr != 0 || df != 0,
    ensures
        forall|q: u64|
            q < 64 ==> (#[trigger] bit(mask, q) <==> ray_reaches(
                square as int,
                dr as int,
                df as int,
                occupancy,
                q as int,
            )),
{
    let mut r: i8 = (square / 8) as i8 + dr;
    let mut f: i8 = (square % 8) as i8 + df;
    let mut mask: u64 = 0;
    let ghost mut n: int = 1;
    let ghost sq = square as int;
    let ghost (dri, dfi) = (dr as int, df as int);
    proof {
        assert forall|q: u64| q < 64 implies !#[trigger] bit(mask, q) by {
            lemma_bit_zero(q);
        }
    }
    while 0 <= r && r < 8 && 0 <= f && f < 8
        invariant_except_break
            1 <= n <= 8,
            r == sq / 8 + toward(dri, n),
            f == sq % 8 + toward(dfi, n),
            ray_clear(sq, dri, dfi, occupancy, n),
            forall|q: u64|
                q < 64 ==> (#[trigger] bit(mask, q) <==> (on_ray(sq, dri, dfi, q as int)
                    && distance(sq, q as int) < n)),
        invariant
            0 <= sq < 64,
            -1 <= dri <= 1,
            -1 <= dfi <= 1,
            dri != 0 || dfi != 0,
            dri == dr,
            dfi == df,
        ensures
            forall|q: u64|
                q < 64 ==> (#[trigger] bit(mask, q) <==> ray_reaches(
                    sq,
                    dri,
                    dfi,
                    occupancy,
                    q as int,
                )),
        decreases 8 - n,
    {
        let idx: u8 = (r * 8 + f) as u8;
        let ghost before = mask;
        proof {
            lemma_ray_nth(sq, dri, dfi, n, idx as int);
            lemma_bit_test(occupancy, idx as u64);
        }
        mask = mask | (1u64 << idx);
        proof {
            assert forall|q: u64| q < 64 implies (#[trigger] bit(mask, q) <==> (on_ray(
                sq,
                dri,
                dfi,
                q as int,
            ) && distance(sq, q as int) < n + 1)) by {
                lemma_bit_or_single(before, idx as u64, q);
                lemma_ray_nth(sq, dri, dfi, n, q as int);
            }
        }
        if occupancy & (1u64 << idx) != 0 {
            proof {
                assert forall|q: u64| q < 64 implies (#[trigger] bit(mask, q) <==> ray_reaches(
                    sq,
                    dri,
                    dfi,
                    occupancy,
                    q as int,
                )) by {
                    let k = distance(sq, q as int);
                    if on_ray(sq, dri, dfi, q as int) {
                        if k <= n {
                            lemma_ray_clear_shorter(sq, dri, dfi, occupancy, n, k);
                        } else {
                            lemma_ray_blocked(sq, dri, dfi, occupancy, n, k);
                        }
                    }
                }
            }
            break ;
        }
        proof {
            lemma_ray_clear_longer(sq, dri, dfi, occupancy, n);
        }
        r = r + dr;
        f = f + df;
        proof {
            n = n + 1;
        }
    }
    mask
}

/// The relevant-occupancy mask of a rook on `square`: the squares strictly
/// between the rook and the edge of the board along its rank and its file.
pub fn rook_mask(square: u8) -> (mask: u64)
    requires
        square < 64,
    ensures
        mask == mask_spec(Pattern::Rook, square),
        forall|q: u64|
            q < 64 ==> (#[trigger] bit(mask, q) <==> relevant(
                Pattern::Rook,
                square as int,
                q as int,
            )),
        !bit(mask, square as u64),
        popcount(mask) <= 12,
{
    let up = ray_mask(square, 1, 0);
    let right = ray_mask(square, 0, 1);
    let down = ray_mask(square, -1, 0);
    let left = ray_mask(square, 0, -1);
    let mask = up | right | down | left;
    proof {
        assert forall|q: u64| q < 64 implies (#[trigger] bit(mask, q) <==> relevant(
            Pattern::Rook,
            square as int,
            q as int,
        )) by {
            lemma_bit_or(up | right | down, left, q);
            lemma_bit_or(up | right, down, q);
            lemma_bit_or(up, right, q);
        }
        assert forall|q: u64| q < 64 implies (bit(mask, q) <==> relevant_squares(
            Pattern::Rook,
            square,
        )(q)) by {}
        lemma_is_board_of(mask, relevant_squares(Pattern::Rook, square));
        lemma_mask_popcount(Pattern::Rook, square);
    }
    mask
}

/// The relevant-occupancy mask of a bishop on `square`: the squares of its
/// four diagonals that lie strictly inside the board.
pub fn bish_mask(square: u8) -> (mask: u64)
    requires
        square < 64,
    ensures
        mask == mask_spec(Pattern::Bishop, square),
        forall|q: u64|
            q < 64 ==> (#[trigger] bit(mask, q) <==> relevant(
                Pattern::Bishop,
                square as int,
                q as int,
            )),
        !bit(mask, square as u64),
        popcount(mask) <= 12,
{
    let ne = ray_mask(square, 1, 1);
    let nw = ray_mask(square, 1, -1);
    let se = ray_mask(square, -1, 1);
    let sw = ray_mask(square, -1, -1);
    let mask = ne | nw | se | sw;
    proof {
        assert forall|q: u64| q < 64 implies (#[trigger] bit(mask, q) <==> relevant(
            Pattern::Bishop,
            square as int,
            q as int,
        )) by {
            lemma_bit_or(ne | nw | se, sw, q);
            lemma_bit_or(ne | nw, se, q);
            lemma_bit_or(ne, nw, q);
        }
        assert forall|q: u64| q < 64 implies (bit(mask, q) <==> relevant_squares(
            Pattern::Bishop,
            square,
        )(q)) by {}
        lemma_is_board_of(mask, relevant_squares(Pattern::Bishop, square));
        lemma_mask_popcount(Pattern::Bishop, square);
    }
    mask
}

/// The relevant-occupancy mask of `square` for either pattern.
pub fn relevant_mask(square: u8, pattern: Pattern) -> (mask: u64)
    requires
        square < 64,
    ensures
        mask == mask_spec(pattern, square),
        forall|q: u64|
            q < 64 ==> (#[trigger] bit(mask, q) <==> relevant(pattern, square as int, q as int)),
        !bit(mask, square as u64),
        popcount(mask) <= 12,
{
    match pattern {
        Pattern::Rook => rook_mask(square),
        Pattern::Bishop => bish_mask(square),
    }
}

/// The squares a rook on `square` attacks when the squares of `occupancy`
/// hold blockers: along each of its four rays every square up to and
/// including the first blocker.
pub fn rook_attack(square: u8, occupancy: u64) -> (attack: u64)
    requires
        square < 64,
    ensures
        attack == attack_spec(Pattern::Rook, square, occupancy),
        forall|q: u64|
            q < 64 ==> (#[trigger] bit(attack, q) <==> reaches(
                Pattern::Rook,
                square as int,
                occupancy,
                q as int,
            )),
{
    let up = ray_attack(square, 1, 0, occupancy);
    let right = ray_attack(square, 0, 1, occupancy);
    let down = ray_attack(square, -1, 0, occupancy);
    let left = ray_attack(square, 0, -1, occupancy);
    let attack = up | right | down | left;
    proof {
        assert forall|q: u64| q < 64 implies (#[trigger] bit(attack, q) <==> reaches(
            Pattern::Rook,
            square as int,
            occupancy,
            q as int,
        )) by {
            lemma_bit_or(up | right | down, left, q);
            lemma_bit_or(up | right, down, q);
            lemma_bit_or(up, right, q);
        }
        assert forall|q: u64| q < 64 implies (bit(attack, q) <==> attacked_squares(
            Pattern::Rook,
            square,
            occupancy,
        )(q)) by {}
        lemma_is_board_of(attack, attacked_squares(Pattern::Rook, square, occupancy));
    }
    attack
}

/// The squares a bishop on `square` attacks when the squares of `occupancy`
/// hold blockers.
pub fn bish_attack(square: u8, occupancy: u64) -> (attack: u64)
    requires
        square < 64,
    ensures
        attack == attack_spec(Pattern::Bishop, square, occupancy),
        forall|q: u64|
            q < 64 ==> (#[trigger] bit(attack, q) <==> reaches(
                Pattern::Bishop,
                square as int,
                occupancy,
                q as int,
            )),
{
    let ne = ray_attack(square, 1, 1, occupancy);
    let nw = ray_attack(square, 1, -1, occupancy);
    let se = ray_attack(square, -1, 1, occupancy);
    let sw = ray_attack(square, -1, -1, occupancy);
    let attack = ne | nw | se | sw;
    proof {
        assert forall|q: u64| q < 64 implies (#[trigger] bit(attack, q) <==> reaches(
            Pattern::Bishop,
            square as int,
            occupancy,
            q as int,
        )) by {
            lemma_bit_or(ne | nw | se, sw, q);
            lemma_bit_or(ne | nw, se, q);
            lemma_bit_or(ne, nw, q);
        }
        assert forall|q: u64| q < 64 implies (bit(attack, q) <==> attacked_squares(
            Pattern::Bishop,
            square,
            occupancy,
        )(q)) by {}
        lemma_is_board_of(attack, attacked_squares(Pattern::Bishop, square, occupancy));
    }
    attack
}

/// The attack set of `square` for either pattern.
pub fn attack_set(square: u8, pattern: Pattern, occupancy: u64) -> (attack: u64)
    requires
        square < 64,
    ensures
        attack == attack_spec(pattern, square, occupancy),
        forall|q: u64|
            q < 64 ==> (#[trigger] bit(attack, q) <==> reaches(
                pattern,
                square as int,
                occupancy,
                q as int,
            )),
{
    match pattern {
        Pattern::Rook => rook_attack(square, occupancy),
        Pattern::Bishop => bish_attack(square, occupancy),
    }
}

/// A relevant-occupancy mask never holds the piece's own square, and never a
/// square on the edge of the board that one of the piece's rays ends on: for
/// a rook no square of its file on the first or last rank and no square of
/// its rank on the first or last file, for a bishop no square of the rim.
pub proof fn lemma_mask_excludes_origin_and_edges(pattern: Pattern, square: u8, q: u64)
    requires
        square < 64,
        q < 64,
        bit(mask_spec(pattern, square), q),
    ensures
        q != square,
        pattern == Pattern::Rook && q % 8 == square % 8 ==> 1 <= q / 8 <= 6,
        pattern == Pattern::Rook && q / 8 == square / 8 ==> 1 <= q % 8 <= 6,
        pattern == Pattern::Bishop ==> 1 <= q / 8 <= 6 && 1 <= q % 8 <= 6,
{
    lemma_board_of_bit(relevant_squares(pattern, square), q);
}

/// An attack set never holds the piece's own square, so it is never the
/// full board.
pub proof fn lemma_attack_excludes_origin(pattern: Pattern, square: u8, occupancy: u64)
    requires
        square < 64,
    ensures
        !bit(attack_spec(pattern, square, occupancy), square as u64),
        attack_spec(pattern, square, occupancy) != 0xffff_ffff_ffff_ffff,
{
    lemma_board_of_bit(attacked_squares(pattern, square, occupancy), square as u64);
    lemma_bit_full(square as u64);
}

/// The squares of a ray before its `k`-th square, that square being on the
/// board, are squares of the board that are not the ray's last.
proof fn lemma_ray_between(sq: int, dr: int, df: int, k: int, m: int)
    requires
        0 <= sq < 64,
        -1 <= dr <= 1,
        -1 <= df <= 1,
        dr != 0 || df != 0,
        1 <= m < k,
        on_board(sq / 8 + toward(dr, k), sq % 8 + toward(df, k)),
    ensures
        ray_square(sq, dr, df, m) < 64,
        ray_inner(sq, dr, df, ray_square(sq, dr, df, m) as int),
{
    let rank = sq / 8 + toward(dr, m);
    let file = sq % 8 + toward(df, m);
    assert(on_board(rank, file));
    let x = rank * 8 + file;
    lemma_ray_nth(sq, dr, df, m, x);
    assert(x / 8 == rank && x % 8 == file);
    assert(on_board(sq / 8 + toward(dr, m + 1), sq % 8 + toward(df, m + 1)));
}

/// Blockers off the squares that are not a ray's last do not change whether
/// the ray is clear up to one of its squares.
proof fn lemma_ray_clear_masked(sq: int, dr: int, df: int, occupancy: u64, mask: u64, k: int)
    requires
        0 <= sq < 64,
        -1 <= dr <= 1,
        -1 <= df <= 1,
        dr != 0 || df != 0,
        1 <= k,
        on_board(sq / 8 + toward(dr, k), sq % 8 + toward(df, k)),
        forall|x: u64| x < 64 && ray_inner(sq, dr, df, x as int) ==> bit(mask, x),
    ensures
        ray_clear(sq, dr, df, occupancy, k) <==> ray_clear(sq, dr, df, occupancy & mask, k),
{
    assert forall|m: int| 1 <= m < k implies (bit(
        occupancy,
        #[trigger] ray_square(sq, dr, df, m),
    ) <==> bit(occupancy & mask, ray_square(sq, dr, df, m))) by {
        lemma_ray_between(sq, dr, df, k, m);
        lemma_bit_and(occupancy, mask, ray_square(sq, dr, df, m));
    }
}

proof fn lemma_ray_reaches_masked(sq: int, dr: int, df: int, occupancy: u64, mask: u64, q: int)
    requires
        0 <= sq < 64,
        0 <= q < 64,
        -1 <= dr <= 1,
        -1 <= df <= 1,
        dr != 0 || df != 0,
        forall|x: u64| x < 64 && ray_inner(sq, dr, df, x as int) ==> bit(mask, x),
    ensures
        ray_reaches(sq, dr, df, occupancy, q) <==> ray_reaches(sq, dr, df, occupancy & mask, q),
{
    if on_ray(sq, dr, df, q) {
        lemma_ray_clear_masked(sq, dr, df, occupancy, mask, distance(sq, q));
    }
}

/// Only the blockers on the relevant-occupancy mask matter: the attack set
/// for an occupancy is the attack set for the part of the occupancy that
/// lies within the mask.
pub proof fn lemma_attack_depends_on_mask(pattern: Pattern, square: u8, occupancy: u64)
    requires
        square < 64,
    ensures
        attack_spec(pattern, square, occupancy) == attack_spec(
            pattern,
            square,
            occupancy & mask_spec(pattern, square),
        ),
{
    let sq = square as int;
    let mask = mask_spec(pattern, square);
    let within = occupancy & mask;
    assert forall|x: u64| x < 64 && relevant(pattern, sq, x as int) implies bit(mask, x) by {
        lemma_board_of_bit(relevant_squares(pattern, square), x);
    }
    assert forall|q: u64| q < 64 implies (bit(attack_spec(pattern, square, occupancy), q)
        <==> attacked_squares(pattern, square, within)(q)) by {
        lemma_board_of_bit(attacked_squares(pattern, square, occupancy), q);
        match pattern {
            Pattern::Rook => {
                lemma_ray_reaches_masked(sq, 1, 0, occupancy, mask, q as int);
                lemma_ray_reaches_masked(sq, 0, 1, occupancy, mask, q as int);
                lemma_ray_reaches_masked(sq, -1, 0, occupancy, mask, q as int);
                lemma_ray_reaches_masked(sq, 0, -1, occupancy, mask, q as int);
            },
            Pattern::Bishop => {
                lemma_ray_reaches_masked(sq, 1, 1, occupancy, mask, q as int);
                lemma_ray_reaches_masked(sq, 1, -1, occupancy, mask, q as int);
                lemma_ray_reaches_masked(sq, -1, 1, occupancy, mask, q as int);
                lemma_ray_reaches_masked(sq, -1, -1, occupancy, mask, q as int);
            },
        }
    }
    lemma_is_board_of(
        attack_spec(pattern, square, occupancy),
        attacked_squares(pattern, square, within),
    );
}

/// The membership test of the part of a ray that is nearer than `n` steps
/// and not the ray's last square.
pub open spec fn near_inner_squares(sq: int, dr: int, df: int, n: int) -> spec_fn(u64) -> bool {
    |q: u64| ray_inner(sq, dr, df, q as int) && distance(sq, q as int) < n
}

/// A ray's squares other than its last number [`inner_len`]; the first
/// `n - 1` squares of the ray hold `n - 1` of them, or all.
proof fn lemma_ray_count(sq: int, dr: int, df: int, n: int)
    requires
        0 <= sq < 64,
        -1 <= dr <= 1,
        -1 <= df <= 1,
        dr != 0 || df != 0,
        1 <= n <= 8,
    ensures
        popcount(board_of(near_inner_squares(sq, dr, df, n))) == if n - 1 <= inner_len(
            sq,
            dr,
            df,
        ) {
            n - 1
        } else {
            inner_len(sq, dr, df)
        },
    decreases n,
{
    let board = board_of(near_inner_squares(sq, dr, df, n));
    if n == 1 {
        assert forall|q: u64| q < 64 implies !bit(board, q) by {
            lemma_board_of_bit(near_inner_squares(sq, dr, df, n), q);
        }
        lemma_empty(board);
        lemma_popcount_empty();
    } else {
        let m = n - 1;
        let nearer = board_of(near_inner_squares(sq, dr, df, m));
        lemma_ray_count(sq, dr, df, m);
        if on_board(sq / 8 + toward(dr, m + 1), sq % 8 + toward(df, m + 1)) {
            let x = ray_square(sq, dr, df, m);
            lemma_ray_nth(sq, dr, df, m, x as int);
            lemma_board_of_bit(near_inner_squares(sq, dr, df, m), x);
            assert forall|q: u64| q < 64 implies (bit(board, q) <==> bit(
                nearer | (1u64 << x),
                q,
            )) by {
                lemma_board_of_bit(near_inner_squares(sq, dr, df, n), q);
                lemma_board_of_bit(near_inner_squares(sq, dr, df, m), q);
                lemma_bit_or_single(nearer, x, q);
                lemma_ray_nth(sq, dr, df, m, q as int);
            }
            lemma_equal_bits(board, nearer | (1u64 << x));
            lemma_popcount_insert(nearer, x);
        } else {
            assert forall|q: u64| q < 64 implies (bit(board, q) <==> bit(nearer, q)) by {
                lemma_board_of_bit(near_inner_squares(sq, dr, df, n), q);
                lemma_board_of_bit(near_inner_squares(sq, dr, df, m), q);
            }
            lemma_equal_bits(board, nearer);
        }
    }
}

/// A relevant-occupancy mask has at most twelve members.
pub proof fn lemma_mask_popcount(pattern: Pattern, square: u8)
    requires
        square < 64,
    ensures
        popcount(mask_spec(pattern, square)) <= 12,
{
    let sq = square as int;
    let (a, b) = match pattern {
        Pattern::Rook => ((1int, 0int), (0int, 1int)),
        Pattern::Bishop => ((1int, 1int), (1int, -1int)),
    };
    let first = board_of(near_inner_squares(sq, a.0, a.1, 8));
    let second = board_of(near_inner_squares(sq, b.0, b.1, 8));
    let third = board_of(near_inner_squares(sq, -a.0, -a.1, 8));
    let fourth = board_of(near_inner_squares(sq, -b.0, -b.1, 8));
    lemma_ray_count(sq, a.0, a.1, 8);
    lemma_ray_count(sq, b.0, b.1, 8);
    lemma_ray_count(sq, -a.0, -a.1, 8);
    lemma_ray_count(sq, -b.0, -b.1, 8);
    let all = first | second | third | fourth;
    assert forall|q: u64| q < 64 implies (bit(mask_spec(pattern, square), q) <==> bit(all, q)) by {
        lemma_board_of_bit(relevant_squares(pattern, square), q);
        lemma_board_of_bit(near_inner_squares(sq, a.0, a.1, 8), q);
        lemma_board_of_bit(near_inner_squares(sq, b.0, b.1, 8), q);
        lemma_board_of_bit(near_inner_squares(sq, -a.0, -a.1, 8), q);
        lemma_board_of_bit(near_inner_squares(sq, -b.0, -b.1, 8), q);
        lemma_bit_or(first | second | third, fourth, q);
        lemma_bit_or(first | second, third, q);
        lemma_bit_or(first, second, q);
    }
    lemma_equal_bits(mask_spec(pattern, square), all);
    lemma_popcount_or(first | second | third, fourth);
    lemma_popcount_or(first | second, third);
    lemma_popcount_or(first, second);
}

} // verus!

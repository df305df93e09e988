//! Names of squares in algebraic notation: a file letter and a rank digit.

use vstd::prelude::*;

verus! {

/// The letter of a square's file, `a` to `h`.
pub open spec fn file_letter(square: u8) -> char {
    ('a' as u8 + square % 8) as char
}

/// The capital letter of a square's file, `A` to `H`.
pub open spec fn file_capital(square: u8) -> char {
    ('A' as u8 + square % 8) as char
}

/// The digit of a square's rank, `1` to `8`.
pub open spec fn rank_digit(square: u8) -> char {
    ('1' as u8 + square / 8) as char
}

fn file_lower(file: u8) -> (s: &'static str)
    requires
        file < 8,
    ensures
        s@ == seq![file_letter(file)],
{
    proof {
        reveal_strlit("a");
        reveal_strlit("b");
        reveal_strlit("c");
        reveal_strlit("d");
        reveal_strlit("e");
        reveal_strlit("f");
        reveal_strlit("g");
        reveal_strlit("h");
    }
    let s = if file == 0 {
        "a"
    } else if file == 1 {
        "b"
    } else if file == 2 {
        "c"
    } else if file == 3 {
        "d"
    } else if file == 4 {
        "e"
    } else if file == 5 {
        "f"
    } else if file == 6 {
        "g"
    } else {
        "h"
    };
    assert(s@ =~= seq![file_letter(file)]);
    s
}

fn file_upper(file: u8) -> (s: &'static str)
    requires
        file < 8,
    ensures
        s@ == seq![file_capital(file)],
{
    proof {
        reveal_strlit("A");
        reveal_strlit("B");
        reveal_strlit("C");
        reveal_strlit("D");
        reveal_strlit("E");
        reveal_strlit("F");
        reveal_strlit("G");
        reveal_strlit("H");
    }
    let s = if file == 0 {
        "A"
    } else if file == 1 {
        "B"
    } else if file == 2 {
        "C"
    } else if file == 3 {
        "D"
    } else if file == 4 {
        "E"
    } else if file == 5 {
        "F"
    } else if file == 6 {
        "G"
    } else {
        "H"
    };
    assert(s@ =~= seq![file_capital(file)]);
    s
}

fn rank_name(rank: u8) -> (s: &'static str)
    requires
        rank < 8,
    ensures
        s@ == seq![rank_digit((rank * 8) as u8)],
{
    proof {
        reveal_strlit("1");
        reveal_strlit("2");
        reveal_strlit("3");
        reveal_strlit("4");
        reveal_strlit("5");
        reveal_strlit("6");
        reveal_strlit("7");
        reveal_strlit("8");
    }
    let s = if rank == 0 {
        "1"
    } else if rank == 1 {
        "2"
    } else if rank == 2 {
        "3"
    } else if rank == 3 {
        "4"
    } else if rank == 4 {
        "5"
    } else if rank == 5 {
        "6"
    } else if rank == 6 {
        "7"
    } else {
        "8"
    };
    assert(s@ =~= seq![rank_digit((rank * 8) as u8)]);
    s
}

/// The name of a square, such as `d4`.
pub fn square_name(square: u8) -> (name: String)
    requires
        square < 64,
    ensures
        name@ == seq![file_letter(square), rank_digit(square)],
{
    let mut name = String::new();
    name.append(file_lower(square % 8));
    name.append(rank_name(square / 8));
    assert(name@ =~= seq![file_letter(square), rank_digit(square)]);
    name
}

/// The name of a square in capitals, such as `D4`.
pub fn square_name_upper(square: u8) -> (name: String)
    requires
        square < 64,
    ensures
        name@ == seq![file_capital(square), rank_digit(square)],
{
    let mut name = String::new();
    name.append(file_upper(square % 8));
    name.append(rank_name(square / 8));
    assert(name@ =~= seq![file_capital(square), rank_digit(square)]);
    name
}

} // verus!

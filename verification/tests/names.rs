use magic_bitboard_finder::names::{square_name, square_name_upper};

#[test]
fn names_of_the_corners() {
    assert_eq!(square_name(0), "a1");
    assert_eq!(square_name(7), "h1");
    assert_eq!(square_name(56), "a8");
    assert_eq!(square_name(63), "h8");
}

#[test]
fn name_of_d4() {
    assert_eq!(square_name(27), "d4");
    assert_eq!(square_name_upper(27), "D4");
}

#[test]
fn capital_names_of_the_corners() {
    assert_eq!(square_name_upper(0), "A1");
    assert_eq!(square_name_upper(7), "H1");
    assert_eq!(square_name_upper(56), "A8");
    assert_eq!(square_name_upper(63), "H8");
}

#[test]
fn names_of_all_squares() {
    let files = ['a', 'b', 'c', 'd', 'e', 'f', 'g', 'h'];
    let ranks = ['1', '2', '3', '4', '5', '6', '7', '8'];
    for square in 0..64u8 {
        let expected = format!("{}{}", files[(square % 8) as usize], ranks[(square / 8) as usize]);
        assert_eq!(square_name(square), expected);
        assert_eq!(square_name_upper(square), expected.to_uppercase());
    }
}

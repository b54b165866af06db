use bin2dec::converter::{convert, to_binary, ConversionError};

#[test]
fn converts_zero() {
    assert_eq!(convert("0"), Ok(0));
}

#[test]
fn converts_one() {
    assert_eq!(convert("1"), Ok(1));
}

#[test]
fn converts_two() {
    assert_eq!(convert("10"), Ok(2));
}

#[test]
fn converts_small_values() {
    assert_eq!(convert("101"), Ok(5));
    assert_eq!(convert("110"), Ok(6));
    assert_eq!(convert("11111111"), Ok(255));
    assert_eq!(convert("100000000"), Ok(256));
}

#[test]
fn converts_thirty_two_ones() {
    let s = "1".repeat(32);
    assert_eq!(convert(&s), Ok(0xFFFF_FFFF));
}

#[test]
fn empty_input_is_zero() {
    assert_eq!(convert(""), Ok(0));
}

#[test]
fn leading_zeros_are_harmless() {
    let s = format!("{}{}", "0".repeat(20), "1".repeat(32));
    assert_eq!(convert(&s), Ok(0xFFFF_FFFF));
    assert_eq!(convert(&"0".repeat(100)), Ok(0));
    assert_eq!(convert("0001"), Ok(1));
}

#[test]
fn invalid_character_at_last_position() {
    assert_eq!(
        convert("102"),
        Err(ConversionError::InvalidCharacter {
            character: '2',
            position: 0,
        })
    );
}

#[test]
fn invalid_character_positions_count_from_the_end() {
    assert_eq!(
        convert("1a1"),
        Err(ConversionError::InvalidCharacter {
            character: 'a',
            position: 1,
        })
    );
    assert_eq!(
        convert("x00"),
        Err(ConversionError::InvalidCharacter {
            character: 'x',
            position: 2,
        })
    );
}

#[test]
fn first_invalid_position_from_the_end_wins() {
    assert_eq!(
        convert("3_1"),
        Err(ConversionError::InvalidCharacter {
            character: '_',
            position: 1,
        })
    );
}

#[test]
fn one_bit_past_position_31_overflows() {
    let s = format!("1{}", "0".repeat(32));
    assert_eq!(convert(&s), Err(ConversionError::Overflow));
    assert_eq!(convert(&"1".repeat(33)), Err(ConversionError::Overflow));
}

#[test]
fn invalid_character_beyond_position_31_is_still_reported() {
    // A '2' at position 33, with only zeros below it: the scan reaches it.
    let s = format!("2{}", "0".repeat(33));
    assert_eq!(
        convert(&s),
        Err(ConversionError::InvalidCharacter {
            character: '2',
            position: 33,
        })
    );
}

#[test]
fn overflow_is_found_before_a_farther_invalid_character() {
    // '1' bits fill positions 0..=32, so position 32 overflows before the
    // scan ever reaches the '2' at position 33.
    let s = format!("2{}", "1".repeat(33));
    assert_eq!(convert(&s), Err(ConversionError::Overflow));
}

#[test]
fn converting_twice_gives_the_same_result() {
    for s in ["", "0", "1", "10", "110101", "102", "abc", "111x", "1"]
        .iter()
        .copied()
    {
        assert_eq!(convert(s), convert(s));
    }
    let long = "1".repeat(40);
    assert_eq!(convert(&long), convert(&long));
}

#[test]
fn to_binary_exact_strings() {
    assert_eq!(to_binary(0), "0");
    assert_eq!(to_binary(1), "1");
    assert_eq!(to_binary(2), "10");
    assert_eq!(to_binary(6), "110");
    assert_eq!(to_binary(255), "11111111");
    assert_eq!(to_binary(u32::MAX), "1".repeat(32));
}

#[test]
fn round_trip_through_binary() {
    for n in [
        0u32,
        1,
        2,
        3,
        6,
        31,
        32,
        255,
        256,
        1000,
        0x8000_0000,
        0xDEAD_BEEF,
        u32::MAX,
    ] {
        let s = to_binary(n);
        assert_eq!(convert(&s), Ok(n));
    }
}

use memlimit::digits::NumParseError;
use memlimit::parser::{parse_byte_amount, parse_byte_amount_at, ParseByteError};

#[test]
fn test_empty() {
    assert_eq!(parse_byte_amount(""), Err(ParseByteError::Empty));
}

#[test]
fn test_whitespace() {
    assert_eq!(parse_byte_amount("              "), Err(ParseByteError::Empty));
}

#[test]
fn test_number_only() {
    assert_eq!(parse_byte_amount("3"), Ok(3));
}

#[test]
fn test_number_only_too_big() {
    assert!(matches!(
        parse_byte_amount("3000000000000000000000000000000000000000000000000000000"),
        Err(ParseByteError::InvalidAmount(_))
    ));
}

#[test]
fn test_stuff_after_unit() {
    assert_eq!(
        parse_byte_amount("3GiB1234244hello"),
        Err(ParseByteError::TrailingGarbage("1234244hello"))
    );
}

#[test]
fn test_number_only_negative() {
    assert!(matches!(
        parse_byte_amount("-1"),
        Err(ParseByteError::InvalidAmount(_))
    ));
}

#[test]
fn test_number_byte() {
    assert_eq!(parse_byte_amount("3B"), Ok(3));
}

#[test]
fn test_number_kilobyte() {
    assert_eq!(parse_byte_amount("5K"), Ok(5000));
    assert_eq!(parse_byte_amount("5KB"), Ok(5000));
}

#[test]
fn test_number_kibibyte() {
    assert_eq!(parse_byte_amount("5Ki"), Ok(5120));
    assert_eq!(parse_byte_amount("5KiB"), Ok(5120));
}

#[test]
fn test_unit_too_big() {
    assert_eq!(
        parse_byte_amount("1QB"),
        Err(ParseByteError::UnitOverflow("QB"))
    );
}

#[test]
fn test_resulting_value_too_big() {
    // at a width where the amount parses but the product overflows
    assert_eq!(
        parse_byte_amount_at("10000000000GB", 1_000_000_000_000_000_000),
        Err(ParseByteError::AmountOverflow(10000000000, "GB"))
    );
    // the full 64-bit width still holds this product exactly
    assert_eq!(
        parse_byte_amount("10000000000GB"),
        Ok(10_000_000_000_000_000_000)
    );
    assert_eq!(
        parse_byte_amount("100000000000GB"),
        Err(ParseByteError::AmountOverflow(100000000000, "GB"))
    );
}

#[test]
fn test_every_fitting_unit_exact() {
    // decimal units up to exa and binary units up to exbi fit the width
    let cases: &[(&str, u64)] = &[
        ("2B", 2),
        ("2K", 2_000),
        ("2KB", 2_000),
        ("2Ki", 2_048),
        ("2KiB", 2_048),
        ("2M", 2_000_000),
        ("2MB", 2_000_000),
        ("2Mi", 2 << 20),
        ("2MiB", 2 << 20),
        ("2G", 2_000_000_000),
        ("2GB", 2_000_000_000),
        ("2Gi", 2 << 30),
        ("2GiB", 2 << 30),
        ("2T", 2_000_000_000_000),
        ("2TB", 2_000_000_000_000),
        ("2Ti", 2 << 40),
        ("2TiB", 2 << 40),
        ("2P", 2_000_000_000_000_000),
        ("2PB", 2_000_000_000_000_000),
        ("2Pi", 2 << 50),
        ("2PiB", 2 << 50),
        ("2E", 2_000_000_000_000_000_000),
        ("2EB", 2_000_000_000_000_000_000),
        ("2Ei", 2 << 60),
        ("2EiB", 2 << 60),
    ];
    for (input, expected) in cases {
        assert_eq!(parse_byte_amount(input), Ok(*expected), "input {input}");
    }
}

#[test]
fn test_units_beyond_the_width() {
    // from zetta/zebi on, the multiplier itself does not fit 64 bits
    for (input, unit) in [
        ("1Z", "Z"),
        ("1ZB", "ZB"),
        ("1ZiB", "ZiB"),
        ("1Y", "Y"),
        ("1YiB", "YiB"),
        ("1R", "R"),
        ("1RiB", "RiB"),
        ("1Q", "Q"),
        ("1Qi", "Qi"),
        ("1QiB", "QiB"),
    ] {
        assert_eq!(
            parse_byte_amount(input),
            Err(ParseByteError::UnitOverflow(unit)),
            "input {input}"
        );
    }
}

#[test]
fn test_surrounding_whitespace_ignored() {
    assert_eq!(parse_byte_amount("  5K \t\n "), Ok(5000));
    assert_eq!(parse_byte_amount("\t42\r\n"), Ok(42));
}

#[test]
fn test_alpha_before_amount() {
    assert_eq!(parse_byte_amount("GB"), Err(ParseByteError::AlphaBeforeAmount));
    assert_eq!(parse_byte_amount("x3"), Err(ParseByteError::AlphaBeforeAmount));
}

#[test]
fn test_unknown_unit() {
    assert_eq!(
        parse_byte_amount("5X"),
        Err(ParseByteError::UnknownUnitPrefix("X"))
    );
    assert_eq!(
        parse_byte_amount("5KBB"),
        Err(ParseByteError::UnknownUnitPrefix("KBB"))
    );
    assert_eq!(
        parse_byte_amount("5kb"),
        Err(ParseByteError::UnknownUnitPrefix("kb"))
    );
}

#[test]
fn test_non_digit_amount() {
    assert_eq!(
        parse_byte_amount("+5"),
        Err(ParseByteError::InvalidAmount(NumParseError::NonDigit))
    );
    assert_eq!(
        parse_byte_amount("3.5GB"),
        Err(ParseByteError::InvalidAmount(NumParseError::NonDigit))
    );
}

#[test]
fn test_width_boundary() {
    assert_eq!(parse_byte_amount("18446744073709551615"), Ok(u64::MAX));
    assert_eq!(
        parse_byte_amount("18446744073709551616"),
        Err(ParseByteError::InvalidAmount(NumParseError::TooLarge))
    );
    // 16 * 2^60 is exactly 2^64
    assert_eq!(
        parse_byte_amount("16EiB"),
        Err(ParseByteError::AmountOverflow(16, "EiB"))
    );
    assert_eq!(parse_byte_amount("15EiB"), Ok(15 << 60));
}

#[test]
fn test_leading_zeros() {
    assert_eq!(parse_byte_amount("0007KB"), Ok(7000));
    assert_eq!(parse_byte_amount("0"), Ok(0));
}

#[test]
fn test_beyond_ascii_classification() {
    // µ is alphabetic but no unit of the table
    assert_eq!(
        parse_byte_amount("3µB"),
        Err(ParseByteError::UnknownUnitPrefix("µB"))
    );
    // a no-break space is whitespace and is trimmed
    assert_eq!(parse_byte_amount("\u{00A0}3\u{00A0}"), Ok(3));
}

#[test]
fn test_trailing_garbage_after_spaces_inside() {
    // whitespace inside the text is not trimmed, only surrounding whitespace
    assert_eq!(
        parse_byte_amount("3K 4"),
        Err(ParseByteError::TrailingGarbage(" 4"))
    );
}

#[test]
fn test_narrow_width_rejects_amount_itself() {
    assert_eq!(
        parse_byte_amount_at("5", 3),
        Err(ParseByteError::InvalidAmount(NumParseError::TooLarge))
    );
    assert_eq!(parse_byte_amount_at("5", 5), Ok(5));
    // at a narrow width even the kilo multiplier is a unit overflow
    assert_eq!(
        parse_byte_amount_at("1KB", 100),
        Err(ParseByteError::UnitOverflow("KB"))
    );
}

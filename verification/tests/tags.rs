use quicktag_cli::error::QueryError;
use quicktag_cli::number::{hex32, parse_usize, IntError};
use quicktag_cli::tag::{parse_tag, tag_name, TagHash};

#[test]
fn tag_hash_roundtrip() {
    for value in [0x80800000, 0x81234567, 0xffffffff] {
        let tag = TagHash(value);
        assert_eq!(parse_tag(&tag_name(tag)).unwrap(), tag);
    }
    assert_eq!(parse_tag("00008080").unwrap().0, 0x80800000);
    assert!(parse_tag("8080").is_err());
    assert!(parse_tag("ZZZZZZZZ").is_err());
}

#[test]
fn tag_names_are_little_endian_upper_case() {
    assert_eq!(tag_name(TagHash(0x80800000)), "00008080");
    assert_eq!(tag_name(TagHash(0x81abcdef)), "EFCDAB81");
    assert_eq!(tag_name(TagHash(0)), "00000000");
    for value in [0u32, 1, 0xff, 0x1234, 0x80800065, 0xdeadbeef, u32::MAX] {
        assert_eq!(tag_name(TagHash(value)), format!("{:08X}", value.swap_bytes()));
    }
}

#[test]
fn tag_parsing_takes_prefix_and_either_case() {
    assert_eq!(parse_tag("0x00008080").unwrap(), TagHash(0x80800000));
    assert_eq!(parse_tag("efcdab81").unwrap(), TagHash(0x81abcdef));
    assert_eq!(tag_name(parse_tag("0xefcdab81").unwrap()), "EFCDAB81");
}

#[test]
fn tag_parsing_wants_exactly_eight_digits() {
    assert!(matches!(parse_tag("8080"), Err(QueryError::TagLength)));
    assert!(matches!(parse_tag(""), Err(QueryError::TagLength)));
    assert!(matches!(parse_tag("000080800"), Err(QueryError::TagLength)));
    assert!(matches!(parse_tag("0x"), Err(QueryError::TagLength)));
    let digit = |s: &str| {
        matches!(parse_tag(s), Err(QueryError::Hex(IntError::InvalidDigit)))
    };
    assert!(digit("ZZZZZZZZ"));
    assert!(digit("+0008080"));
    assert!(digit("0x0x008080"));
    assert!(digit("\u{d55c}\u{d55c}00"));
    assert!(digit("0000 080"));
}

#[test]
fn tag_errors_have_texts() {
    assert_eq!(
        parse_tag("8080").unwrap_err().message(),
        "tag hash must contain exactly 8 hex digits in QuickTag display order"
    );
    assert_eq!(
        parse_tag("ZZZZZZZZ").unwrap_err().message(),
        "expected hexadecimal u32: invalid digit found in string"
    );
}

#[test]
fn hexadecimal_integers() {
    assert_eq!(hex32("0x80800065").unwrap(), 0x80800065);
    assert_eq!(hex32("80800065").unwrap(), 0x80800065);
    assert_eq!(hex32("ffffffff").unwrap(), u32::MAX);
    assert_eq!(hex32("+1F").unwrap(), 0x1f);
    assert!(matches!(hex32(""), Err(QueryError::Hex(IntError::Empty))));
    assert!(matches!(hex32("0x"), Err(QueryError::Hex(IntError::Empty))));
    assert!(matches!(hex32("+"), Err(QueryError::Hex(IntError::InvalidDigit))));
    assert!(matches!(hex32("-1"), Err(QueryError::Hex(IntError::InvalidDigit))));
    assert!(matches!(hex32("0x0x1"), Err(QueryError::Hex(IntError::InvalidDigit))));
    assert!(matches!(hex32("100000000"), Err(QueryError::Hex(IntError::TooLarge))));
}

#[test]
fn hexadecimal_integers_agree_with_std() {
    let texts = [
        "", "+", "-", "0", "00000000000000001", "ffffffff", "100000000", "fffffffff", "FFFFFFFFZ",
        "FFFFFFFFFZ", "Zffffffffff", "+ff", "++1", "-0", "1g", "\u{ff11}", " 1", "1 ", "deadBEEF",
    ];
    for text in texts {
        let ours = hex32(text).map_err(|e| e.message());
        let std = u32::from_str_radix(text, 16)
            .map_err(|e| format!("expected hexadecimal u32: {}", e));
        assert_eq!(ours, std, "{:?}", text);
    }
}

#[test]
fn offsets_in_decimal_and_hexadecimal() {
    assert_eq!(parse_usize("288"), Ok(288));
    assert_eq!(parse_usize("0x120"), Ok(288));
    assert_eq!(parse_usize("18446744073709551615"), Ok(usize::MAX));
    let texts = [
        "", "12a", "-1", "+5", "18446744073709551616", "99999999999999999999999x", "0", "+", "0X1",
    ];
    for text in texts {
        let std: Result<usize, String> = text.parse::<usize>().map_err(|e| e.to_string());
        assert_eq!(parse_usize(text), std, "{:?}", text);
    }
    assert_eq!(
        parse_usize("0xfffffffffffffffff"),
        Err("number too large to fit in target type".to_string())
    );
    assert_eq!(
        parse_usize("0x"),
        Err("cannot parse integer from empty string".to_string())
    );
}

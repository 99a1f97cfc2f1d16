use quicktag_cli::bytes::{byte_range, default_length, hex_text};
use quicktag_cli::error::QueryError;
use quicktag_cli::page::{default_limit, Page};
use quicktag_cli::text::{clipped, str_contains, str_le};

#[test]
fn pagination_reports_remaining() {
    let rows: Vec<i32> = (0..5).collect();
    let r = Page {
        limit: 2,
        offset: 2,
    }
    .apply(rows)
    .unwrap();
    assert_eq!(r.items, vec![2, 3]);
    assert_eq!(r.next_offset, Some(4));
    assert!(Page {
        limit: 0,
        offset: 0
    }
    .apply(Vec::<i32>::new())
    .is_err());
    assert!(Page {
        limit: 201,
        offset: 0
    }
    .apply(Vec::<i32>::new())
    .is_err());
    assert_eq!(
        Page {
            limit: 20,
            offset: usize::MAX
        }
        .apply(vec![1])
        .unwrap()
        .next_offset,
        None
    );
}

#[test]
fn pages_report_the_total() {
    let r = Page { limit: 200, offset: 1 }.apply(vec!['a', 'b', 'c']).unwrap();
    assert_eq!(r.items, vec!['b', 'c']);
    assert_eq!(r.total, 3);
    assert_eq!(r.next_offset, None);
    let e = Page { limit: 201, offset: 0 }.apply(vec![1]).unwrap_err();
    assert!(matches!(e, QueryError::Limit));
    assert_eq!(e.message(), "limit must be between 1 and 200");
}

#[test]
fn following_pages_shows_every_row_once() {
    let rows: Vec<u32> = (0..103).collect();
    for limit in [1, 7, 100, 200] {
        let mut seen = Vec::new();
        let mut offset = Some(0);
        while let Some(at) = offset {
            let page = Page { limit, offset: at }.apply(rows.clone()).unwrap();
            seen.extend(page.items);
            offset = page.next_offset;
        }
        assert_eq!(seen, rows);
    }
}

#[test]
fn defaults_of_pages_and_bytes() {
    assert_eq!(default_limit(), 20);
    assert_eq!(default_length(), 64);
}

#[test]
fn bytes_boundaries() {
    assert_eq!(byte_range(&[1, 2, 3], 1, usize::MAX).unwrap(), &[2, 3]);
    assert_eq!(byte_range(&[1], 1, 3).unwrap(), &[] as &[u8]);
    assert!(byte_range(&[1], 2, 1).is_err());
}

#[test]
fn byte_ranges_join() {
    let data: Vec<u8> = (0..50).collect();
    let mut joined = byte_range(&data, 5, 10).unwrap().to_vec();
    joined.extend_from_slice(byte_range(&data, 15, 7).unwrap());
    assert_eq!(joined, byte_range(&data, 5, 17).unwrap());
    assert!(matches!(byte_range(&data, 51, 1), Err(QueryError::Offset)));
    assert_eq!(
        byte_range(&data, 51, 1).unwrap_err().message(),
        "offset exceeds tag size"
    );
}

#[test]
fn bytes_as_hexadecimal() {
    assert_eq!(hex_text(&[0x00, 0x0f, 0xa5, 0xff]), "000FA5FF");
    assert_eq!(hex_text(&[]), "");
}

#[test]
fn unicode_clipping() {
    let (text, truncated) = clipped(&"\u{d55c}".repeat(241));
    assert_eq!(text.chars().count(), 240);
    assert!(truncated);
}

#[test]
fn clipping_leaves_short_texts_alone() {
    let exact = "\u{d55c}".repeat(240);
    assert_eq!(clipped(&exact), (exact.clone(), false));
    assert_eq!(clipped(""), (String::new(), false));
    let long = format!("{}{}", "a".repeat(239), "\u{1f600}bc");
    let (text, truncated) = clipped(&long);
    assert_eq!(text, format!("{}\u{1f600}", "a".repeat(239)));
    assert!(truncated);
}

#[test]
fn substrings_are_found() {
    assert!(str_contains("ana bray", "bray"));
    assert!(str_contains("ana bray", ""));
    assert!(str_contains("aab", "ab"));
    assert!(!str_contains("ana bray", "braz"));
    assert!(!str_contains("a", "ab"));
    assert!(str_contains("x\u{d55c}y", "\u{d55c}"));
    assert!(!str_contains("", "a"));
}

#[test]
fn strings_are_ordered_as_in_std() {
    let texts = ["", "a", "ab", "b", "B", "\u{e9}", "\u{d55c}", "\u{1f600}", "\u{ffff}", "a\u{0}"];
    for a in texts {
        for b in texts {
            assert_eq!(str_le(a, b), a <= b, "{:?} {:?}", a, b);
        }
    }
}

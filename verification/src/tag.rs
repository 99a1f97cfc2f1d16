//! Tag hashes: their displayed form, and their parts.

use vstd::prelude::*;
use vstd::string::*;
use vstd::utf8::*;

use crate::error::QueryError;
use crate::number;
use crate::number::IntError;
use crate::text::chars_of;

verus! {

/// The hash that identifies a tag.
#[derive(Clone, Copy, Debug, PartialEq, Eq, Structural)]
pub struct TagHash(pub u32);

// ---------------------------------------------------------------------------
// Displayed form
// ---------------------------------------------------------------------------

/// Byte `i` of a 32-bit integer, counted from the least significant one.
pub open spec fn byte_of(v: u32, i: int) -> nat {
    (if i == 0 {
        v as int % 256
    } else if i == 1 {
        v as int / 0x100 % 256
    } else if i == 2 {
        v as int / 0x10000 % 256
    } else {
        v as int / 0x1000000
    }) as nat
}

/// The integer whose bytes are those of `v` in reverse.
pub open spec fn bytes_swapped(v: u32) -> u32 {
    (byte_of(v, 0) * 0x1000000 + byte_of(v, 1) * 0x10000 + byte_of(v, 2) * 0x100 + byte_of(
        v,
        3,
    )) as u32
}

fn swap_bytes(v: u32) -> (r: u32)
    ensures
        r == bytes_swapped(v),
{
    let b0: u32 = v % 256;
    let b1: u32 = v / 0x100 % 256;
    let b2: u32 = v / 0x10000 % 256;
    let b3: u32 = v / 0x1000000;
    b0 * 0x1000000 + b1 * 0x10000 + b2 * 0x100 + b3
}

proof fn lemma_bytes_swapped_twice(v: u32)
    ensures
        bytes_swapped(bytes_swapped(v)) == v,
{
    let b0 = (v % 256) as u32;
    let b1 = (v / 0x100 % 256) as u32;
    let b2 = (v / 0x10000 % 256) as u32;
    let b3 = (v / 0x1000000) as u32;
    let w = bytes_swapped(v);
    assert(w % 256 == b3 && w / 0x100 % 256 == b2 && w / 0x10000 % 256 == b1 && w / 0x1000000
        == b0) by (bit_vector)
        requires
            w == b0 * 0x1000000 + b1 * 0x10000 + b2 * 0x100 + b3,
            b0 < 256,
            b1 < 256,
            b2 < 256,
            b3 < 256,
    ;
    assert(v == b3 * 0x1000000 + b2 * 0x10000 + b1 * 0x100 + b0) by (bit_vector)
        requires
            b0 == v % 256,
            b1 == v / 0x100 % 256,
            b2 == v / 0x10000 % 256,
            b3 == v / 0x1000000,
    ;
}

/// The displayed form of a tag hash: eight hexadecimal digits, the least
/// significant byte first.
pub open spec fn tag_text(tag: TagHash) -> Seq<char> {
    number::hex_fixed(bytes_swapped(tag.0) as nat, 8)
}

/// The displayed form of a tag hash.
pub fn tag_name(tag: TagHash) -> (text: String)
    ensures
        text@ == tag_text(tag),
{
    let mut text = String::new();
    number::push_hex(&mut text, swap_bytes(tag.0) as u64, 8);
    assert(text@ =~= tag_text(tag));
    text
}

/// What a displayed tag hash denotes: exactly eight hexadecimal digits, behind
/// an optional `0x`.
pub open spec fn read_tag(s: Seq<char>) -> Result<TagHash, QueryError<Seq<char>>> {
    let digits = number::without_hex_prefix(s);
    if encode_utf8(digits).len() != 8 {
        Err(QueryError::TagLength)
    } else if !number::all_digits(digits, 16) {
        Err(QueryError::Hex(IntError::InvalidDigit))
    } else {
        Ok(TagHash(bytes_swapped(number::digits_value(digits, 16) as u32)))
    }
}

proof fn lemma_encode_len(s: Seq<char>)
    ensures
        encode_utf8(s).len() >= s.len(),
        (forall|i: int| 0 <= i < s.len() ==> (#[trigger] s[i] as u32) < 128) ==> encode_utf8(
            s,
        ).len() == s.len(),
    decreases s.len(),
{
    if s.len() > 0 {
        let rest = s.drop_first();
        lemma_encode_len(rest);
        if forall|i: int| 0 <= i < s.len() ==> (#[trigger] s[i] as u32) < 128 {
            assert forall|i: int| 0 <= i < rest.len() implies (#[trigger] rest[i] as u32) < 128 by {
                assert(rest[i] == s[i + 1]);
            }
            assert((s[0] as u32) < 128);
        }
    }
}

proof fn lemma_eight_digits(s: Seq<char>)
    requires
        number::all_digits(s, 16),
        encode_utf8(s).len() == 8,
    ensures
        s.len() == 8,
        number::digits_value(s, 16) <= u32::MAX,
{
    assert forall|i: int| 0 <= i < s.len() implies (#[trigger] s[i] as u32) < 128 by {
        assert(number::digit_of(s[i], 16) is Some);
    }
    lemma_encode_len(s);
    lemma_digits_bound(s);
    reveal_with_fuel(number::hex_count, 9);
}

proof fn lemma_digits_bound(s: Seq<char>)
    requires
        number::all_digits(s, 16),
    ensures
        number::digits_value(s, 16) < number::hex_count(s.len()),
    decreases s.len(),
{
    if s.len() > 0 {
        let front = s.drop_last();
        assert(s =~= front.push(s.last()));
        assert(number::all_digits(front, 16)) by {
            assert forall|i: int| 0 <= i < front.len() implies number::digit_of(
                #[trigger] front[i],
                16,
            ) is Some by {
                assert(front[i] == s[i]);
            }
        }
        lemma_digits_bound(front);
        number::lemma_value_from_push(0, front, s.last(), 16);
        assert(number::digit_of(s[s.len() - 1], 16) is Some);
    }
}

/// The tag hash that `s` denotes in displayed form.
pub fn parse_tag(s: &str) -> (r: Result<TagHash, QueryError<String>>)
    ensures
        match (r, read_tag(s@)) {
            (Ok(tag), Ok(wanted)) => tag == wanted,
            (Err(e), Err(wanted)) => e@ == wanted,
            _ => false,
        },
{
    let chars = chars_of(s);
    let skip = number::hex_prefix_len(&chars);
    let ghost digits = number::without_hex_prefix(s@);
    proof {
        if number::has_hex_prefix(s@) {
            let rest = s@.drop_first();
            assert(rest.drop_first() =~= digits);
            assert(encode_utf8(s@) == encode_scalar(s@[0] as u32) + encode_utf8(rest));
            assert(encode_utf8(rest) == encode_scalar(rest[0] as u32) + encode_utf8(digits));
            assert(encode_utf8(s@).len() == 2 + encode_utf8(digits).len());
        }
    }
    let size = s.as_bytes().len();
    if size != 8 + skip {
        return Err(QueryError::TagLength);
    }
    let mut i: usize = skip;
    while i < chars.len()
        invariant
            skip <= i <= chars.len(),
            chars@.skip(skip as int) == digits,
            digits == number::without_hex_prefix(s@),
            encode_utf8(digits).len() == 8,
            forall|k: int| 0 <= k < i - skip ==> number::digit_of(#[trigger] digits[k], 16) is Some,
        decreases chars.len() - i,
    {
        assert(chars@[i as int] == digits[i - skip]);
        if number::digit_value(chars[i], 16).is_none() {
            assert(!number::all_digits(digits, 16));
            return Err(QueryError::Hex(IntError::InvalidDigit));
        }
        i += 1;
    }
    assert(number::all_digits(digits, 16));
    proof {
        lemma_eight_digits(digits);
        assert(digits[0] != '+');
        number::law_read_unsigned(digits, 16, u32::MAX as nat, number::digits_value(digits, 16));
    }
    match number::parse_unsigned(&chars, skip, 16, u32::MAX as u64) {
        Ok(v) => Ok(TagHash(swap_bytes(v as u32))),
        Err(e) => Err(QueryError::Hex(e)),
    }
}

/// Parsing undoes display: the displayed form of any tag hash denotes that
/// tag hash.
pub proof fn law_tag_round_trip(tag: TagHash)
    ensures
        read_tag(tag_text(tag)) == Ok::<TagHash, QueryError<Seq<char>>>(tag),
{
    let s = tag_text(tag);
    let v = bytes_swapped(tag.0);
    number::law_hex_fixed(v as nat, 8);
    reveal_with_fuel(number::hex_count, 9);
    assert(!number::has_hex_prefix(s));
    assert forall|i: int| 0 <= i < s.len() implies (#[trigger] s[i] as u32) < 128 by {
        assert(number::hex_fixed(v as nat, 8)[i] == s[i]);
    }
    lemma_encode_len(s);
    lemma_bytes_swapped_twice(tag.0);
}

/// Different tag hashes are displayed differently.
pub proof fn law_tag_text_injective(a: TagHash, b: TagHash)
    requires
        tag_text(a) == tag_text(b),
    ensures
        a == b,
{
    law_tag_round_trip(a);
    law_tag_round_trip(b);
}

/// The upper-case form of a hexadecimal digit.
pub open spec fn upper_digit(c: char) -> char {
    if 'a' <= c <= 'f' {
        (c as int - 'a' as int + 'A' as int) as char
    } else {
        c
    }
}

proof fn lemma_hex_of_digits(s: Seq<char>)
    requires
        number::all_digits(s, 16),
    ensures
        number::hex_fixed(number::digits_value(s, 16), s.len()) == s.map_values(|c: char| upper_digit(c)),
    decreases s.len(),
{
    let upper = s.map_values(|c: char| upper_digit(c));
    if s.len() == 0 {
        assert(upper =~= Seq::<char>::empty());
    } else {
        let front = s.drop_last();
        assert(s =~= front.push(s.last()));
        assert forall|i: int| 0 <= i < front.len() implies number::digit_of(
            #[trigger] front[i],
            16,
        ) is Some by {
            assert(front[i] == s[i]);
        }
        lemma_hex_of_digits(front);
        number::lemma_value_from_push(0, front, s.last(), 16);
        assert(number::digit_of(s[s.len() - 1], 16) is Some);
        let d = number::digit_of(s.last(), 16).unwrap();
        let v = number::digits_value(s, 16);
        assert(v == number::digits_value(front, 16) * 16 + d);
        assert(v / 16 == number::digits_value(front, 16));
        assert(v % 16 == d);
        assert(number::hex_digit(d) == upper_digit(s.last()));
        assert(upper =~= front.map_values(|c: char| upper_digit(c)).push(upper_digit(s.last())));
    }
}

/// Display undoes parsing: a text that denotes a tag hash is its displayed
/// form, apart from the optional `0x` and the case of the letters.
pub proof fn law_tag_text_of_parsed(s: Seq<char>)
    requires
        read_tag(s) is Ok,
    ensures
        tag_text(read_tag(s)->Ok_0) == number::without_hex_prefix(s).map_values(
            |c: char| upper_digit(c),
        ),
{
    let digits = number::without_hex_prefix(s);
    lemma_eight_digits(digits);
    lemma_hex_of_digits(digits);
    lemma_bytes_swapped_twice(number::digits_value(digits, 16) as u32);
}

proof fn lemma_last_byte_digits(high: nat, low: nat, width: nat)
    requires
        low < 256,
    ensures
        number::hex_fixed(high * 256 + low, width + 2) == number::hex_fixed(high, width)
            + number::hex_fixed(low, 2),
{
    let v = high * 256 + low;
    assert(v / 16 / 16 == high);
    assert(v / 16 % 16 == low / 16 % 16);
    assert(v % 16 == low % 16);
    assert(number::hex_fixed(v, width + 2) == number::hex_fixed(v / 16, width + 1).push(
        number::hex_digit(v % 16),
    ));
    assert(number::hex_fixed(v / 16, width + 1) == number::hex_fixed(v / 16 / 16, width).push(
        number::hex_digit(v / 16 % 16),
    ));
    reveal_with_fuel(number::hex_fixed, 3);
    assert(number::hex_fixed(low, 2) =~= seq![
        number::hex_digit(low / 16 % 16),
        number::hex_digit(low % 16),
    ]);
    assert(number::hex_fixed(v, width + 2) =~= number::hex_fixed(high, width) + number::hex_fixed(
        low,
        2,
    ));
}

/// The displayed form gives the bytes of the hash in little-endian order, two
/// digits each.
pub proof fn law_tag_text_bytes(tag: TagHash)
    ensures
        tag_text(tag) == number::hex_fixed(byte_of(tag.0, 0), 2) + number::hex_fixed(
            byte_of(tag.0, 1),
            2,
        ) + number::hex_fixed(byte_of(tag.0, 2), 2) + number::hex_fixed(byte_of(tag.0, 3), 2),
{
    let b0 = byte_of(tag.0, 0);
    let b1 = byte_of(tag.0, 1);
    let b2 = byte_of(tag.0, 2);
    let b3 = byte_of(tag.0, 3);
    let two = b0 * 256 + b1;
    let three = two * 256 + b2;
    assert(bytes_swapped(tag.0) == three * 256 + b3);
    lemma_last_byte_digits(three, b3, 6);
    lemma_last_byte_digits(two, b2, 4);
    lemma_last_byte_digits(b0, b1, 2);
}

// ---------------------------------------------------------------------------
// Parts
// ---------------------------------------------------------------------------

/// The hash of entry `entry` in package `package`.
pub open spec fn hash_of_entry(package: u16, entry: int) -> TagHash {
    TagHash((0x80800000 + package * 8192 + entry % 8192) as u32)
}

/// The package that a tag hash names.
pub open spec fn package_of(tag: TagHash) -> u16 {
    ((tag.0 as int - 0x80800000) % 0x1_0000_0000 / 8192 % 65536) as u16
}

/// The position in its package that a tag hash names.
pub open spec fn index_of(tag: TagHash) -> int {
    tag.0 as int % 8192
}

/// `tiger_pkg::TagHash::new`: the base 0x80800000, plus the package number
/// times 8192, plus the entry number modulo 8192.
#[verifier::external_body]
pub(crate) fn new_tag_hash(package: u16, entry: u16) -> (tag: TagHash)
    ensures
        tag == hash_of_entry(package, entry as int),
{
    TagHash(tiger_pkg::TagHash::new(package, entry).0)
}

/// `tiger_pkg::TagHash::pkg_id`: what is over the base 0x80800000, in wrapping
/// 32-bit arithmetic, divided by 8192, cut to 16 bits.
#[verifier::external_body]
pub(crate) fn pkg_id(tag: TagHash) -> (package: u16)
    ensures
        package == package_of(tag),
{
    tiger_pkg::TagHash(tag.0).pkg_id()
}

/// `tiger_pkg::TagHash::entry_index`: the hash modulo 8192.
#[verifier::external_body]
pub(crate) fn entry_index(tag: TagHash) -> (entry: u16)
    ensures
        entry == index_of(tag),
{
    tiger_pkg::TagHash(tag.0).entry_index()
}

/// A tag hash names the package it was made for, and its entry if that is one
/// of the 8192 entries that a package can number.
pub proof fn law_tag_parts(package: u16, entry: int)
    requires
        0 <= entry,
    ensures
        package_of(hash_of_entry(package, entry)) == package,
        index_of(hash_of_entry(package, entry)) == entry % 8192,
        hash_of_entry(package, entry).0 == 0x80800000 + package * 8192 + entry % 8192,
{
}

/// The bytes of a number make it up: the first counts one, and each further one
/// 256 times as much as the one before.
pub proof fn law_byte_of(v: u32)
    ensures
        byte_of(v, 0) < 256,
        byte_of(v, 1) < 256,
        byte_of(v, 2) < 256,
        byte_of(v, 3) < 256,
        v == byte_of(v, 0) + byte_of(v, 1) * 0x100 + byte_of(v, 2) * 0x10000 + byte_of(v, 3)
            * 0x1000000,
{
}

proof fn lemma_two_digits(c: char, d: char)
    requires
        number::digit_of(c, 16) is Some,
        number::digit_of(d, 16) is Some,
    ensures
        number::digits_value(seq![c, d], 16) == number::digit_of(c, 16)->0 * 16 + number::digit_of(
            d,
            16,
        )->0,
{
    let first = Seq::<char>::empty().push(c);
    assert(seq![c, d] =~= first.push(d));
    number::law_digits_value(Seq::empty(), c, 16);
    number::law_digits_value(first, d, 16);
}

/// The displayed form of a hash is eight digits, in upper case, of which each
/// two denote a byte of it, the least significant byte first.
pub proof fn law_tag_text_digits(tag: TagHash, i: int)
    requires
        0 <= i < 4,
    ensures
        tag_text(tag).len() == 8,
        number::digits_value(tag_text(tag).subrange(2 * i, 2 * i + 2), 16) == byte_of(tag.0, i),
        forall|k: int|
            0 <= k < 8 ==> {
                let c = #[trigger] tag_text(tag)[k];
                '0' <= c <= '9' || 'A' <= c <= 'F'
            },
{
    let b0 = number::hex_fixed(byte_of(tag.0, 0), 2);
    let b1 = number::hex_fixed(byte_of(tag.0, 1), 2);
    let b2 = number::hex_fixed(byte_of(tag.0, 2), 2);
    let b3 = number::hex_fixed(byte_of(tag.0, 3), 2);
    law_tag_text_bytes(tag);
    number::law_hex_fixed(bytes_swapped(tag.0) as nat, 8);
    number::law_hex_fixed(byte_of(tag.0, 0), 2);
    number::law_hex_fixed(byte_of(tag.0, 1), 2);
    number::law_hex_fixed(byte_of(tag.0, 2), 2);
    number::law_hex_fixed(byte_of(tag.0, 3), 2);
    reveal_with_fuel(number::hex_count, 3);
    let part = tag_text(tag).subrange(2 * i, 2 * i + 2);
    assert(i == 0 ==> part =~= b0);
    assert(i == 1 ==> part =~= b1);
    assert(i == 2 ==> part =~= b2);
    assert(i == 3 ==> part =~= b3);
}

/// Whether a character is a hexadecimal digit.
pub open spec fn is_hex(c: char) -> bool {
    '0' <= c <= '9' || 'a' <= c <= 'f' || 'A' <= c <= 'F'
}

/// Whether a text is eight hexadecimal digits.
pub open spec fn eight_hex(s: Seq<char>) -> bool {
    s.len() == 8 && forall|k: int| 0 <= k < 8 ==> is_hex(#[trigger] s[k])
}

/// A text denotes a tag hash exactly if it is eight hexadecimal digits, behind
/// one `0x` or none; each two of them denote a byte of the hash, the least
/// significant byte first. A text of another length is refused for its length,
/// and else one with another character for that character.
pub proof fn law_read_tag(s: Seq<char>, digits: Seq<char>, i: int)
    requires
        0 <= i < 4,
        s.len() >= 2 && s[0] == '0' && s[1] == 'x' ==> digits == s.skip(2),
        !(s.len() >= 2 && s[0] == '0' && s[1] == 'x') ==> digits == s,
    ensures
        match read_tag(s) {
            Ok(tag) => eight_hex(digits) && number::digits_value(
                digits.subrange(2 * i, 2 * i + 2),
                16,
            ) == byte_of(tag.0, i),
            Err(e) => !eight_hex(digits) && e == if encode_utf8(digits).len() == 8 {
                QueryError::<Seq<char>>::Hex(IntError::InvalidDigit)
            } else {
                QueryError::TagLength
            },
        },
{
    assert(digits == number::without_hex_prefix(s));
    assert forall|c: char| is_hex(c) <==> #[trigger] number::digit_of(c, 16) is Some by {
        number::law_digits(c);
    }
    if forall|k: int| 0 <= k < digits.len() ==> is_hex(#[trigger] digits[k]) {
        assert(number::all_digits(digits, 16));
        assert forall|k: int| 0 <= k < digits.len() implies (#[trigger] digits[k] as u32) < 128 by {
            assert(is_hex(digits[k]));
        }
        lemma_encode_len(digits);
    } else {
        let k = choose|k: int| 0 <= k < digits.len() && !is_hex(#[trigger] digits[k]);
        assert(number::digit_of(digits[k], 16) is None);
        assert(!number::all_digits(digits, 16));
    }
    if let Ok(tag) = read_tag(s) {
        lemma_eight_digits(digits);
        assert forall|k: int| 0 <= k < 8 implies is_hex(#[trigger] digits[k]) by {
            assert(number::digit_of(digits[k], 16) is Some);
        }
        law_tag_text_of_parsed(s);
        law_tag_text_digits(tag, i);
        let upper = digits.map_values(|c: char| upper_digit(c));
        let c = digits[2 * i];
        let d = digits[2 * i + 1];
        assert(is_hex(c) && is_hex(d)) by {
            assert(number::digit_of(c, 16) is Some && number::digit_of(d, 16) is Some);
        }
        assert(digits.subrange(2 * i, 2 * i + 2) =~= seq![c, d]);
        assert(upper.subrange(2 * i, 2 * i + 2) =~= seq![upper_digit(c), upper_digit(d)]);
        lemma_two_digits(c, d);
        lemma_two_digits(upper_digit(c), upper_digit(d));
    }
}

} // verus!

//! Integers as text: parsing in base 10 and 16, and fixed-width hexadecimal.

use vstd::prelude::*;
use vstd::string::*;

use crate::error::QueryError;
use crate::text::chars_of;

verus! {

/// Why a text is not an unsigned integer of the wanted size.
#[derive(Clone, Copy, Debug, PartialEq, Eq, Structural)]
pub enum IntError {
    /// There is no text.
    Empty,
    /// A character that is no digit, or a sign without digits.
    InvalidDigit,
    /// The number is too large.
    TooLarge,
}

impl IntError {
    /// The text that is reported for this error.
    pub open spec fn text(self) -> Seq<char> {
        match self {
            IntError::Empty => "cannot parse integer from empty string"@,
            IntError::InvalidDigit => "invalid digit found in string"@,
            IntError::TooLarge => "number too large to fit in target type"@,
        }
    }

    /// The text that is reported for this error.
    pub fn message(&self) -> (text: String)
        ensures
            text@ == self.text(),
    {
        match self {
            IntError::Empty => "cannot parse integer from empty string".to_owned(),
            IntError::InvalidDigit => "invalid digit found in string".to_owned(),
            IntError::TooLarge => "number too large to fit in target type".to_owned(),
        }
    }
}

// ---------------------------------------------------------------------------
// Parsing
// ---------------------------------------------------------------------------

/// The value of a character as a digit, in either letter case.
pub open spec fn digit_of(c: char, radix: nat) -> Option<nat> {
    let d: int = if '0' <= c <= '9' {
        c as int - '0' as int
    } else if 'a' <= c <= 'f' {
        c as int - 'a' as int + 10
    } else if 'A' <= c <= 'F' {
        c as int - 'A' as int + 10
    } else {
        16
    };
    if d < radix {
        Some(d as nat)
    } else {
        None
    }
}

/// Whether every character is a digit.
pub open spec fn all_digits(s: Seq<char>, radix: nat) -> bool {
    forall|i: int| 0 <= i < s.len() ==> digit_of(#[trigger] s[i], radix) is Some
}

/// The number that `s` denotes behind digits that denote `acc`.
pub open spec fn value_from(acc: nat, s: Seq<char>, radix: nat) -> nat
    decreases s.len(),
{
    if s.len() == 0 {
        acc
    } else {
        value_from(acc * radix + digit_of(s[0], radix).unwrap_or(0), s.drop_first(), radix)
    }
}

/// The number that a string of digits denotes.
pub open spec fn digits_value(s: Seq<char>, radix: nat) -> nat {
    value_from(0, s, radix)
}

/// Digits read from left to right: the first character that is no digit, or
/// that takes the number over `max`, ends the reading.
pub open spec fn read_digits(acc: nat, s: Seq<char>, radix: nat, max: nat) -> Result<nat, IntError>
    decreases s.len(),
{
    if s.len() == 0 {
        Ok(acc)
    } else {
        match digit_of(s[0], radix) {
            None => Err(IntError::InvalidDigit),
            Some(d) => if acc * radix + d > max {
                Err(IntError::TooLarge)
            } else {
                read_digits(acc * radix + d, s.drop_first(), radix, max)
            },
        }
    }
}

/// The digits of an unsigned number: what follows an optional plus sign.
pub open spec fn unsigned_digits(s: Seq<char>) -> Seq<char> {
    if s.len() > 0 && s[0] == '+' {
        s.skip(1)
    } else {
        s
    }
}

/// An unsigned integer of at most `max`, as text in base `radix`.
pub open spec fn read_unsigned(s: Seq<char>, radix: nat, max: nat) -> Result<nat, IntError> {
    if s.len() == 0 {
        Err(IntError::Empty)
    } else if unsigned_digits(s).len() == 0 {
        Err(IntError::InvalidDigit)
    } else {
        read_digits(0, unsigned_digits(s), radix, max)
    }
}

proof fn lemma_value_from_grows(acc: nat, s: Seq<char>, radix: nat)
    requires
        radix >= 1,
    ensures
        value_from(acc, s, radix) >= acc,
    decreases s.len(),
{
    if s.len() > 0 {
        let next = acc * radix + digit_of(s[0], radix).unwrap_or(0);
        assert(acc * radix >= acc) by (nonlinear_arith)
            requires
                radix >= 1,
        ;
        lemma_value_from_grows(next, s.drop_first(), radix);
    }
}

proof fn lemma_read_digits(acc: nat, s: Seq<char>, radix: nat, max: nat)
    requires
        radix >= 1,
        acc <= max,
    ensures
        read_digits(acc, s, radix, max) is Ok <==> all_digits(s, radix) && value_from(
            acc,
            s,
            radix,
        ) <= max,
        read_digits(acc, s, radix, max) is Ok ==> read_digits(acc, s, radix, max) == Ok::<
            nat,
            IntError,
        >(value_from(acc, s, radix)),
    decreases s.len(),
{
    if s.len() > 0 {
        if let Some(d) = digit_of(s[0], radix) {
            let next = acc * radix + d;
            let rest = s.drop_first();
            lemma_value_from_grows(next, rest, radix);
            if next <= max {
                lemma_read_digits(next, rest, radix, max);
            }
            assert(all_digits(s, radix) <==> all_digits(rest, radix)) by {
                if all_digits(rest, radix) {
                    assert forall|i: int| 0 <= i < s.len() implies digit_of(
                        #[trigger] s[i],
                        radix,
                    ) is Some by {
                        if i > 0 {
                            assert(rest[i - 1] == s[i]);
                        }
                    }
                }
            }
        }
    }
}

/// Reading succeeds exactly on a non-empty string of digits, behind an optional
/// plus sign, that denotes at most `max`, and gives the number denoted.
pub proof fn law_read_unsigned(s: Seq<char>, radix: nat, max: nat, v: nat)
    requires
        radix >= 1,
    ensures
        read_unsigned(s, radix, max) == Ok::<nat, IntError>(v) <==> {
            let digits = unsigned_digits(s);
            &&& digits.len() > 0
            &&& all_digits(digits, radix)
            &&& digits_value(digits, radix) == v
            &&& v <= max
        },
{
    lemma_read_digits(0, unsigned_digits(s), radix, max);
}

pub(crate) fn digit_value(c: char, radix: u8) -> (r: Option<u8>)
    requires
        radix <= 16,
    ensures
        match r {
            Some(d) => digit_of(c, radix as nat) == Some(d as nat),
            None => digit_of(c, radix as nat) is None,
        },
{
    let d: u8 = if '0' <= c && c <= '9' {
        (c as u32 - '0' as u32) as u8
    } else if 'a' <= c && c <= 'f' {
        (c as u32 - 'a' as u32 + 10) as u8
    } else if 'A' <= c && c <= 'F' {
        (c as u32 - 'A' as u32 + 10) as u8
    } else {
        16
    };
    if d < radix {
        Some(d)
    } else {
        None
    }
}

/// The unsigned integer that `chars` denote from position `from` on.
pub(crate) fn parse_unsigned(chars: &Vec<char>, from: usize, radix: u8, max: u64) -> (r: Result<
    u64,
    IntError,
>)
    requires
        from <= chars.len(),
        1 <= radix <= 16,
    ensures
        match r {
            Ok(v) => v <= max && read_unsigned(chars@.skip(from as int), radix as nat, max as nat)
                == Ok::<nat, IntError>(v as nat),
            Err(e) => read_unsigned(chars@.skip(from as int), radix as nat, max as nat) == Err::<
                nat,
                IntError,
            >(e),
        },
{
    let ghost s = chars@.skip(from as int);
    if from == chars.len() {
        return Err(IntError::Empty);
    }
    let start: usize = if chars[from] == '+' {
        from + 1
    } else {
        from
    };
    assert(unsigned_digits(s) =~= chars@.skip(start as int));
    if start == chars.len() {
        return Err(IntError::InvalidDigit);
    }
    let mut acc: u64 = 0;
    let mut i: usize = start;
    while i < chars.len()
        invariant
            1 <= radix <= 16,
            acc <= max,
            start <= i <= chars.len(),
            read_digits(0, chars@.skip(start as int), radix as nat, max as nat) == read_digits(
                acc as nat,
                chars@.skip(i as int),
                radix as nat,
                max as nat,
            ),
            s == chars@.skip(from as int),
            unsigned_digits(s) == chars@.skip(start as int),
            s.len() > 0,
            start < chars.len(),
        decreases chars.len() - i,
    {
        assert(chars@.skip(i as int).drop_first() =~= chars@.skip(i + 1));
        match digit_value(chars[i], radix) {
            None => {
                return Err(IntError::InvalidDigit);
            },
            Some(d) => {
                assert(acc * radix <= u64::MAX * 16) by (nonlinear_arith)
                    requires
                        acc <= u64::MAX,
                        radix <= 16,
                ;
                let next: u128 = acc as u128 * radix as u128 + d as u128;
                if next > max as u128 {
                    return Err(IntError::TooLarge);
                }
                acc = next as u64;
            },
        }
        i += 1;
    }
    Ok(acc)
}

/// Whether a text starts with `0x`.
pub open spec fn has_hex_prefix(s: Seq<char>) -> bool {
    s.len() >= 2 && s[0] == '0' && s[1] == 'x'
}

/// A text without its leading `0x`, if it has one.
pub open spec fn without_hex_prefix(s: Seq<char>) -> Seq<char> {
    if has_hex_prefix(s) {
        s.skip(2)
    } else {
        s
    }
}

/// How many characters a leading `0x` takes.
pub(crate) fn hex_prefix_len(chars: &Vec<char>) -> (n: usize)
    ensures
        n <= chars.len(),
        n == if has_hex_prefix(chars@) { 2int } else { 0int },
        chars@.skip(n as int) == without_hex_prefix(chars@),
{
    assert(chars@.skip(0) =~= chars@);
    if chars.len() >= 2 && chars[0] == '0' && chars[1] == 'x' {
        2
    } else {
        0
    }
}

/// A byte offset as text: hexadecimal behind `0x`, else decimal.
pub open spec fn read_offset(s: Seq<char>) -> Result<nat, IntError> {
    read_unsigned(
        without_hex_prefix(s),
        if has_hex_prefix(s) {
            16
        } else {
            10
        },
        usize::MAX as nat,
    )
}

/// The byte offset that `s` denotes, in decimal or `0x` notation.
pub fn parse_usize(s: &str) -> (r: Result<usize, String>)
    ensures
        match (r, read_offset(s@)) {
            (Ok(v), Ok(n)) => v == n,
            (Err(message), Err(e)) => message@ == e.text(),
            _ => false,
        },
{
    let chars = chars_of(s);
    let skip = hex_prefix_len(&chars);
    let radix: u8 = if skip == 2 {
        16
    } else {
        10
    };
    match parse_unsigned(&chars, skip, radix, usize::MAX as u64) {
        Ok(v) => Ok(v as usize),
        Err(e) => Err(e.message()),
    }
}

/// A 32-bit hexadecimal integer as text; a leading `0x` is optional.
pub open spec fn read_hex32(s: Seq<char>) -> Result<nat, IntError> {
    read_unsigned(without_hex_prefix(s), 16, u32::MAX as nat)
}

/// The 32-bit integer that `s` denotes in hexadecimal.
pub fn hex32(s: &str) -> (r: Result<u32, QueryError<String>>)
    ensures
        match (r, read_hex32(s@)) {
            (Ok(v), Ok(n)) => v == n,
            (Err(e), Err(kind)) => e@ == QueryError::<Seq<char>>::Hex(kind),
            _ => false,
        },
{
    let chars = chars_of(s);
    let skip = hex_prefix_len(&chars);
    match parse_unsigned(&chars, skip, 16, u32::MAX as u64) {
        Ok(v) => Ok(v as u32),
        Err(e) => Err(QueryError::Hex(e)),
    }
}

// ---------------------------------------------------------------------------
// Hexadecimal text of a fixed width
// ---------------------------------------------------------------------------

/// An upper-case hexadecimal digit.
pub open spec fn hex_digit(n: nat) -> char {
    if n < 10 {
        ('0' as int + n) as char
    } else {
        ('A' as int + n - 10) as char
    }
}

/// The last `width` hexadecimal digits of a number, in upper case.
pub open spec fn hex_fixed(v: nat, width: nat) -> Seq<char>
    decreases width,
{
    if width == 0 {
        Seq::empty()
    } else {
        hex_fixed(v / 16, (width - 1) as nat).push(hex_digit(v % 16))
    }
}

/// A number as `0x` and `width` hexadecimal digits.
pub open spec fn hex_number(v: nat, width: nat) -> Seq<char> {
    "0x"@ + hex_fixed(v, width)
}

/// How many numbers `width` hexadecimal digits can denote.
pub open spec fn hex_count(width: nat) -> nat
    decreases width,
{
    if width == 0 {
        1
    } else {
        16 * hex_count((width - 1) as nat)
    }
}

fn hex_digit_char(n: u8) -> (c: char)
    requires
        n < 16,
    ensures
        c == hex_digit(n as nat),
{
    if n < 10 {
        (48u8 + n) as char
    } else {
        (55u8 + n) as char
    }
}

/// Appends the last `width` hexadecimal digits of `v`.
pub(crate) fn push_hex(out: &mut String, v: u64, width: u8)
    ensures
        final(out)@ == old(out)@ + hex_fixed(v as nat, width as nat),
    decreases width,
{
    if width > 0 {
        push_hex(out, v / 16, width - 1);
        out.push(hex_digit_char((v % 16) as u8));
        assert(out@ =~= old(out)@ + hex_fixed(v as nat, width as nat));
    } else {
        assert(out@ =~= old(out)@ + hex_fixed(v as nat, 0));
    }
}

/// `v` as `0x` and `width` hexadecimal digits.
pub(crate) fn hex_number_text(v: u64, width: u8) -> (text: String)
    ensures
        text@ == hex_number(v as nat, width as nat),
{
    let mut text = "0x".to_owned();
    push_hex(&mut text, v, width);
    text
}

pub(crate) proof fn lemma_value_from_push(acc: nat, s: Seq<char>, c: char, radix: nat)
    ensures
        value_from(acc, s.push(c), radix) == value_from(acc, s, radix) * radix + digit_of(
            c,
            radix,
        ).unwrap_or(0),
    decreases s.len(),
{
    if s.len() == 0 {
        assert(s.push(c).drop_first() =~= Seq::<char>::empty());
        reveal_with_fuel(value_from, 2);
    } else {
        let next = acc * radix + digit_of(s[0], radix).unwrap_or(0);
        assert(s.push(c).drop_first() =~= s.drop_first().push(c));
        lemma_value_from_push(next, s.drop_first(), c, radix);
    }
}

/// Fixed-width hexadecimal text is `width` digits, and denotes the number it
/// was made from if that many digits can hold it.
pub proof fn law_hex_fixed(v: nat, width: nat)
    ensures
        hex_fixed(v, width).len() == width,
        all_digits(hex_fixed(v, width), 16),
        forall|i: int|
            0 <= i < width ==> {
                let c = #[trigger] hex_fixed(v, width)[i];
                '0' <= c <= '9' || 'A' <= c <= 'F'
            },
        v < hex_count(width) ==> digits_value(hex_fixed(v, width), 16) == v,
    decreases width,
{
    if width > 0 {
        let w = (width - 1) as nat;
        law_hex_fixed(v / 16, w);
        lemma_value_from_push(0, hex_fixed(v / 16, w), hex_digit(v % 16), 16);
        assert(digit_of(hex_digit(v % 16), 16) == Some((v % 16) as nat));
    }
}

// ---------------------------------------------------------------------------
// Laws
// ---------------------------------------------------------------------------

/// A digit's value: of `0` to `9` its distance from `0`, and of a letter from
/// `a` to `f`, in either case, ten more than its distance from `a`. In base 10
/// letters are no digits.
pub proof fn law_digits(c: char)
    ensures
        '0' <= c <= '9' ==> digit_of(c, 10) == Some((c as int - '0' as int) as nat) && digit_of(
            c,
            16,
        ) == Some((c as int - '0' as int) as nat),
        'a' <= c <= 'f' ==> digit_of(c, 16) == Some((c as int - 'a' as int + 10) as nat),
        'A' <= c <= 'F' ==> digit_of(c, 16) == Some((c as int - 'A' as int + 10) as nat),
        !('0' <= c <= '9') ==> digit_of(c, 10) is None,
        !('0' <= c <= '9' || 'a' <= c <= 'f' || 'A' <= c <= 'F') ==> digit_of(c, 16) is None,
        digit_of(c, 16) matches Some(d) ==> hex_digit(d) == c || hex_digit(d) as int + 32 == c as int,
{
}

/// What digits denote: nothing denotes zero, and a digit behind others counts
/// one while those count `radix` times what they denote.
pub proof fn law_digits_value(s: Seq<char>, c: char, radix: nat)
    ensures
        digits_value(Seq::empty(), radix) == 0,
        digit_of(c, radix) matches Some(d) ==> digits_value(s.push(c), radix) == digits_value(
            s,
            radix,
        ) * radix + d,
{
    lemma_value_from_push(0, s, c, radix);
}

/// Whether the first `i` characters are digits that denote at most `max`.
pub open spec fn good_until(s: Seq<char>, i: int, radix: nat, max: nat) -> bool {
    &&& 0 <= i <= s.len()
    &&& all_digits(s.take(i), radix)
    &&& digits_value(s.take(i), radix) <= max
}

proof fn lemma_read_digits_error(s: Seq<char>, i: int, radix: nat, max: nat)
    requires
        radix >= 1,
        good_until(s, i, radix, max),
    ensures
        read_digits(0, s, radix, max) == read_digits(
            digits_value(s.take(i), radix),
            s.skip(i),
            radix,
            max,
        ),
    decreases i,
{
    if i == 0 {
        assert(s.skip(0) =~= s);
        assert(s.take(0) =~= Seq::<char>::empty());
    } else {
        let front = s.take(i - 1);
        let c = s[i - 1];
        assert(s.take(i) =~= front.push(c));
        assert(s.take(i)[i - 1] == c);
        lemma_value_from_push(0, front, c, radix);
        let v = digits_value(front, radix);
        assert(v * radix >= v) by (nonlinear_arith)
            requires
                radix >= 1,
        ;
        assert(all_digits(front, radix)) by {
            assert forall|k: int| 0 <= k < front.len() implies digit_of(
                #[trigger] front[k],
                radix,
            ) is Some by {
                assert(s.take(i)[k] == front[k]);
            }
        }
        lemma_read_digits_error(s, i - 1, radix, max);
        assert(s.skip(i - 1)[0] == c);
        assert(s.skip(i - 1).drop_first() =~= s.skip(i));
    }
}

/// Why reading fails: there is nothing; or behind digits that are good so far
/// stands a character that is no digit, or one that takes the number over the
/// bound.
pub proof fn law_read_unsigned_errors(s: Seq<char>, radix: nat, max: nat, i: int)
    requires
        radix >= 1,
    ensures
        read_unsigned(s, radix, max) == Err::<nat, IntError>(IntError::Empty) <==> s.len() == 0,
        s == seq!['+'] ==> read_unsigned(s, radix, max) == Err::<nat, IntError>(
            IntError::InvalidDigit,
        ),
        ({
            let digits = if s.len() > 0 && s[0] == '+' {
                s.skip(1)
            } else {
                s
            };
            good_until(digits, i, radix, max) && i < digits.len() ==> {
                &&& digit_of(digits[i], radix) is None ==> read_unsigned(s, radix, max) == Err::<
                    nat,
                    IntError,
                >(IntError::InvalidDigit)
                &&& digit_of(digits[i], radix) is Some && digits_value(digits.take(i + 1), radix)
                    > max ==> read_unsigned(s, radix, max) == Err::<nat, IntError>(
                    IntError::TooLarge,
                )
            }
        }),
{
    let digits = unsigned_digits(s);
    if good_until(digits, i, radix, max) && i < digits.len() {
        lemma_read_digits_error(digits, i, radix, max);
        assert(digits.skip(i)[0] == digits[i]);
        assert(digits.take(i + 1) =~= digits.take(i).push(digits[i]));
        lemma_value_from_push(0, digits.take(i), digits[i], radix);
    }
    if s.len() > 0 && unsigned_digits(s).len() > 0 {
        lemma_not_empty(0, unsigned_digits(s), radix, max);
    }
}

proof fn lemma_not_empty(acc: nat, s: Seq<char>, radix: nat, max: nat)
    ensures
        read_digits(acc, s, radix, max) != Err::<nat, IntError>(IntError::Empty),
    decreases s.len(),
{
    if s.len() > 0 {
        if let Some(d) = digit_of(s[0], radix) {
            lemma_not_empty(acc * radix + d, s.drop_first(), radix, max);
        }
    }
}

/// A leading `0x` is left out of a 32-bit integer, which is hexadecimal with it
/// and without it. An offset is hexadecimal behind `0x`, and else decimal.
pub proof fn law_prefix(s: Seq<char>)
    ensures
        read_hex32(seq!['0', 'x'] + s) == read_unsigned(s, 16, 0xffff_ffff),
        read_offset(seq!['0', 'x'] + s) == read_unsigned(s, 16, usize::MAX as nat),
        !(s.len() >= 2 && s[0] == '0' && s[1] == 'x') ==> read_hex32(s) == read_unsigned(
            s,
            16,
            0xffff_ffff,
        ) && read_offset(s) == read_unsigned(s, 10, usize::MAX as nat),
{
    assert((seq!['0', 'x'] + s).skip(2) =~= s);
}

/// A 32-bit number is written as `0x` and eight digits, and read back as itself;
/// a 64-bit one as `0x` and sixteen digits that denote it.
pub proof fn law_hex_number(v: u32, w: u64)
    ensures
        hex_number(v as nat, 8).len() == 10,
        hex_number(v as nat, 8).take(2) == seq!['0', 'x'],
        read_hex32(hex_number(v as nat, 8)) == Ok::<nat, IntError>(v as nat),
        hex_number(w as nat, 16).len() == 18,
        hex_number(w as nat, 16).take(2) == seq!['0', 'x'],
        digits_value(hex_number(w as nat, 16).skip(2), 16) == w,
{
    reveal_strlit("0x");
    law_hex_fixed(v as nat, 8);
    law_hex_fixed(w as nat, 16);
    reveal_with_fuel(hex_count, 17);
    let a = hex_fixed(v as nat, 8);
    let b = hex_fixed(w as nat, 16);
    assert("0x"@ =~= seq!['0', 'x']);
    assert(hex_number(v as nat, 8).take(2) =~= seq!['0', 'x']);
    assert(hex_number(w as nat, 16).take(2) =~= seq!['0', 'x']);
    assert(hex_number(w as nat, 16).skip(2) =~= b);
    law_prefix(a);
    assert(a[0] != '+');
    law_read_unsigned(a, 16, 0xffff_ffff, v as nat);
}

/// The texts of the errors.
pub proof fn law_int_error_texts()
    ensures
        IntError::Empty.text() == "cannot parse integer from empty string"@,
        IntError::InvalidDigit.text() == "invalid digit found in string"@,
        IntError::TooLarge.text() == "number too large to fit in target type"@,
{
}

} // verus!

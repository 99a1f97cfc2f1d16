//! Strings: order, substring search, clipping and JSON notation.

use vstd::prelude::*;
use vstd::string::*;
use vstd::utf8::*;

verus! {

/// `String::push` appends the given character to the end of the string.
pub assume_specification[ String::push ](s: &mut String, c: char)
    ensures
        final(s)@ == old(s)@.push(c),
;

/// Longest preview of a string, in Unicode characters.
pub const PREVIEW_CHARS: usize = 240;

// ---------------------------------------------------------------------------
// Characters
// ---------------------------------------------------------------------------

/// What an optional text holds.
pub open spec fn optional_text(t: Option<String>) -> Option<Seq<char>> {
    match t {
        Some(s) => Some(s@),
        None => None,
    }
}

/// What some texts hold.
pub open spec fn texts_of(texts: Seq<String>) -> Seq<Seq<char>> {
    texts.map_values(|s: String| s@)
}

/// Whether two lists hold the same texts, in the same order.
pub(crate) fn same_texts(a: &Vec<String>, b: &Vec<String>) -> (r: bool)
    ensures
        r == (texts_of(a@) == texts_of(b@)),
{
    if a.len() != b.len() {
        assert(texts_of(a@).len() != texts_of(b@).len());
        return false;
    }
    let mut i: usize = 0;
    while i < a.len()
        invariant
            i <= a.len(),
            a.len() == b.len(),
            forall|k: int| 0 <= k < i ==> texts_of(a@)[k] == texts_of(b@)[k],
        decreases a.len() - i,
    {
        assert(texts_of(a@)[i as int] == a@[i as int]@);
        assert(texts_of(b@)[i as int] == b@[i as int]@);
        if a[i] != b[i] {
            return false;
        }
        i += 1;
    }
    assert(texts_of(a@) =~= texts_of(b@));
    true
}

/// A list of the same texts.
pub(crate) fn copy_texts(texts: &Vec<String>) -> (copy: Vec<String>)
    ensures
        texts_of(copy@) == texts_of(texts@),
{
    let mut copy: Vec<String> = Vec::new();
    let mut i: usize = 0;
    while i < texts.len()
        invariant
            i <= texts.len(),
            i == copy.len(),
            forall|k: int| 0 <= k < i ==> (#[trigger] copy@[k])@ == texts@[k]@,
        decreases texts.len() - i,
    {
        copy.push(texts[i].clone());
        i += 1;
    }
    assert(texts_of(copy@) =~= texts_of(texts@));
    copy
}

/// The characters of a string, as a vector that can be indexed.
pub fn chars_of(s: &str) -> (chars: Vec<char>)
    ensures
        chars@ == s@,
{
    let mut chars: Vec<char> = Vec::new();
    for c in it: s.chars()
        invariant
            it.seq() == s@,
            chars@ == s@.take(it.index()),
    {
        chars.push(c);
        assert(s@.take(it.index() + 1) == s@.take(it.index()).push(c));
    }
    assert(s@.take(s@.len() as int) == s@);
    chars
}

// ---------------------------------------------------------------------------
// Order
// ---------------------------------------------------------------------------

/// Lexicographic order on byte strings; a proper prefix comes first.
pub open spec fn bytes_le(a: Seq<u8>, b: Seq<u8>) -> bool
    decreases a.len(),
{
    if a.len() == 0 {
        true
    } else if b.len() == 0 {
        false
    } else if a[0] != b[0] {
        a[0] < b[0]
    } else {
        bytes_le(a.drop_first(), b.drop_first())
    }
}

/// The order of strings: lexicographic order of their UTF-8 bytes.
pub open spec fn text_le(a: Seq<char>, b: Seq<char>) -> bool {
    bytes_le(encode_utf8(a), encode_utf8(b))
}

proof fn lemma_bytes_le_total(a: Seq<u8>, b: Seq<u8>)
    ensures
        bytes_le(a, b) || bytes_le(b, a),
    decreases a.len(),
{
    if a.len() > 0 && b.len() > 0 && a[0] == b[0] {
        lemma_bytes_le_total(a.drop_first(), b.drop_first());
    }
}

proof fn lemma_bytes_le_transitive(a: Seq<u8>, b: Seq<u8>, c: Seq<u8>)
    requires
        bytes_le(a, b),
        bytes_le(b, c),
    ensures
        bytes_le(a, c),
    decreases a.len(),
{
    if a.len() > 0 && b.len() > 0 && c.len() > 0 && a[0] == b[0] && b[0] == c[0] {
        lemma_bytes_le_transitive(a.drop_first(), b.drop_first(), c.drop_first());
    }
}

proof fn lemma_bytes_le_antisymmetric(a: Seq<u8>, b: Seq<u8>)
    requires
        bytes_le(a, b),
        bytes_le(b, a),
    ensures
        a == b,
    decreases a.len(),
{
    if a.len() > 0 && b.len() > 0 {
        lemma_bytes_le_antisymmetric(a.drop_first(), b.drop_first());
        assert(a == seq![a[0]] + a.drop_first());
        assert(b == seq![b[0]] + b.drop_first());
    }
}

/// Any two strings are ordered one way or the other.
pub proof fn lemma_text_le_total(a: Seq<char>, b: Seq<char>)
    ensures
        text_le(a, b) || text_le(b, a),
{
    lemma_bytes_le_total(encode_utf8(a), encode_utf8(b));
}

/// The order of strings is transitive.
pub proof fn lemma_text_le_transitive(a: Seq<char>, b: Seq<char>, c: Seq<char>)
    requires
        text_le(a, b),
        text_le(b, c),
    ensures
        text_le(a, c),
{
    lemma_bytes_le_transitive(encode_utf8(a), encode_utf8(b), encode_utf8(c));
}

/// Two strings that are ordered both ways are the same string.
pub proof fn lemma_text_le_antisymmetric(a: Seq<char>, b: Seq<char>)
    requires
        text_le(a, b),
        text_le(b, a),
    ensures
        a == b,
{
    lemma_bytes_le_antisymmetric(encode_utf8(a), encode_utf8(b));
    encode_utf8_decode_utf8(a);
    encode_utf8_decode_utf8(b);
}

/// Whether `a` comes no later than `b`.
pub fn str_le(a: &str, b: &str) -> (r: bool)
    ensures
        r == text_le(a@, b@),
{
    let x = a.as_bytes();
    let y = b.as_bytes();
    let mut i: usize = 0;
    assert(x@.skip(0) == x@);
    assert(y@.skip(0) == y@);
    while i < x.len() && i < y.len() && x[i] == y[i]
        invariant
            i <= x.len(),
            i <= y.len(),
            bytes_le(x@, y@) == bytes_le(x@.skip(i as int), y@.skip(i as int)),
        decreases x.len() - i,
    {
        assert(x@.skip(i as int).drop_first() == x@.skip(i + 1));
        assert(y@.skip(i as int).drop_first() == y@.skip(i + 1));
        i += 1;
    }
    if i == x.len() {
        true
    } else if i == y.len() {
        false
    } else {
        x[i] < y[i]
    }
}

// ---------------------------------------------------------------------------
// Search
// ---------------------------------------------------------------------------

/// Whether the bytes of `needle` occur in `hay` at position `at`.
pub open spec fn occurs_at(hay: Seq<u8>, needle: Seq<u8>, at: int) -> bool {
    &&& 0 <= at
    &&& at + needle.len() <= hay.len()
    &&& hay.subrange(at, at + needle.len()) == needle
}

/// Whether `needle` is a slice of `hay`.
pub open spec fn text_contains(hay: Seq<char>, needle: Seq<char>) -> bool {
    exists|at: int| occurs_at(encode_utf8(hay), encode_utf8(needle), at)
}

/// Whether `hay` contains `needle`.
pub fn str_contains(hay: &str, needle: &str) -> (r: bool)
    ensures
        r == text_contains(hay@, needle@),
{
    let h = hay.as_bytes();
    let n = needle.as_bytes();
    if n.len() > h.len() {
        assert(forall|at: int| !occurs_at(h@, n@, at));
        return false;
    }
    let last: usize = h.len() - n.len();
    let mut at: usize = 0;
    loop
        invariant
            h@ == encode_utf8(hay@),
            n@ == encode_utf8(needle@),
            last == h.len() - n.len(),
            at <= last,
            forall|k: int| 0 <= k < at ==> !occurs_at(h@, n@, k),
        decreases last - at,
    {
        let mut j: usize = 0;
        while j < n.len() && h[at + j] == n[j]
            invariant
                at <= last,
                last == h.len() - n.len(),
                j <= n.len(),
                forall|k: int| 0 <= k < j ==> h@[at + k] == #[trigger] n@[k],
            decreases n.len() - j,
        {
            j += 1;
        }
        if j == n.len() {
            assert(h@.subrange(at as int, at + n.len()) =~= n@);
            assert(occurs_at(h@, n@, at as int));
            return true;
        }
        assert(!occurs_at(h@, n@, at as int)) by {
            assert(h@.subrange(at as int, at + n.len())[j as int] == h@[at + j]);
        }
        if at == last {
            return false;
        }
        at += 1;
    }
}

/// What `str::to_lowercase` gives for a string of these characters.
pub uninterp spec fn lowercase_text(s: Seq<char>) -> Seq<char>;

/// `str::to_lowercase`: the lower-case equivalent by Unicode's mapping, which
/// depends on the string alone and on no locale. The mapping itself is not
/// spelled out.
#[verifier::external_body]
pub(crate) fn to_lowercase(s: &str) -> (r: String)
    ensures
        r@ == lowercase_text(s@),
{
    s.to_lowercase()
}

/// Whether the lower-case form of `text` contains `needle`.
pub fn matches_needle(text: &str, needle: &str) -> (r: bool)
    ensures
        r == text_contains(lowercase_text(text@), needle@),
{
    let lower = to_lowercase(text);
    str_contains(lower.as_str(), needle)
}

// ---------------------------------------------------------------------------
// Clipping
// ---------------------------------------------------------------------------

/// The preview of a text: its first characters, at most `PREVIEW_CHARS`.
pub open spec fn preview(s: Seq<char>) -> Seq<char> {
    if s.len() > PREVIEW_CHARS {
        s.take(PREVIEW_CHARS as int)
    } else {
        s
    }
}

/// A preview of `s`, and whether it leaves anything out.
pub fn clipped(s: &str) -> (r: (String, bool))
    ensures
        r.0@ == preview(s@),
        r.1 == (s@.len() > PREVIEW_CHARS),
        r.0@.len() <= PREVIEW_CHARS,
{
    if s.unicode_len() > PREVIEW_CHARS {
        let head = s.substring_char(0, PREVIEW_CHARS);
        assert(head@ == s@.take(PREVIEW_CHARS as int));
        (head.to_owned(), true)
    } else {
        (s.to_owned(), false)
    }
}

/// A preview is a prefix of the text, and the flag is raised exactly when the
/// preview differs from the text.
pub proof fn law_preview_flag(s: Seq<char>)
    ensures
        preview(s).is_prefix_of(s),
        s.len() > PREVIEW_CHARS <==> preview(s) != s,
        preview(preview(s)) == preview(s),
{
}

// ---------------------------------------------------------------------------
// JSON notation
// ---------------------------------------------------------------------------

/// A lower-case hexadecimal digit.
pub open spec fn lower_hex_digit(n: int) -> char {
    if n < 10 {
        ('0' as int + n) as char
    } else {
        ('a' as int + n - 10) as char
    }
}

/// One character inside a JSON string.
pub open spec fn json_char(c: char) -> Seq<char> {
    if c == '"' {
        seq!['\\', '"']
    } else if c == '\\' {
        seq!['\\', '\\']
    } else if c as u32 == 8 {
        seq!['\\', 'b']
    } else if c as u32 == 9 {
        seq!['\\', 't']
    } else if c as u32 == 10 {
        seq!['\\', 'n']
    } else if c as u32 == 12 {
        seq!['\\', 'f']
    } else if c as u32 == 13 {
        seq!['\\', 'r']
    } else if (c as u32) < 32 {
        seq!['\\', 'u', '0', '0', lower_hex_digit(c as int / 16), lower_hex_digit(c as int % 16)]
    } else {
        seq![c]
    }
}

/// The characters of a text as they stand inside a JSON string.
pub open spec fn json_chars(s: Seq<char>) -> Seq<char> {
    s.map_values(|c: char| json_char(c)).flatten()
}

/// A text as a JSON string, quotes included.
pub open spec fn json_text(s: Seq<char>) -> Seq<char> {
    seq!['"'] + json_chars(s) + seq!['"']
}

proof fn lemma_json_chars_first(s: Seq<char>)
    requires
        s.len() > 0,
    ensures
        json_chars(s) == json_char(s[0]) + json_chars(s.drop_first()),
{
    let f = |c: char| json_char(c);
    assert(s.map_values(f).drop_first() =~= s.drop_first().map_values(f));
}

/// No character inside a JSON string begins as another one.
proof fn lemma_json_char_told(a: char, b: char, x: Seq<char>, y: Seq<char>)
    requires
        json_char(a) + x == json_char(b) + y,
    ensures
        a == b,
        x == y,
{
    let p = json_char(a) + x;
    let q = json_char(b) + y;
    assert(p[0] == json_char(a)[0] && q[0] == json_char(b)[0]);
    assert(a == b) by {
        if json_char(a).len() > 1 && json_char(b).len() > 1 {
            assert(p[1] == json_char(a)[1] && q[1] == json_char(b)[1]);
            if json_char(a).len() == 6 && json_char(b).len() == 6 {
                assert(p[4] == json_char(a)[4] && q[4] == json_char(b)[4]);
                assert(p[5] == json_char(a)[5] && q[5] == json_char(b)[5]);
            }
        }
    }
    assert(x =~= p.skip(json_char(a).len() as int));
    assert(y =~= q.skip(json_char(b).len() as int));
}

/// The first quote that is not escaped ends a JSON string: what stands before
/// it tells the text, whatever follows.
pub proof fn lemma_json_text_ends(a: Seq<char>, b: Seq<char>, x: Seq<char>, y: Seq<char>)
    requires
        json_chars(a) + seq!['"'] + x == json_chars(b) + seq!['"'] + y,
    ensures
        a == b,
        x == y,
    decreases a.len(),
{
    let p = json_chars(a) + seq!['"'] + x;
    let q = json_chars(b) + seq!['"'] + y;
    if a.len() > 0 {
        lemma_json_chars_first(a);
        assert(p[0] == json_char(a[0])[0]);
    }
    if b.len() > 0 {
        lemma_json_chars_first(b);
        assert(q[0] == json_char(b[0])[0]);
    }
    if a.len() == 0 || b.len() == 0 {
        assert(a.len() == 0 ==> p[0] == '"');
        assert(b.len() == 0 ==> q[0] == '"');
        assert(a =~= b);
        assert(x =~= p.skip(1));
        assert(y =~= q.skip(1));
    } else {
        let ra = a.drop_first();
        let rb = b.drop_first();
        let u = json_chars(ra) + seq!['"'] + x;
        let v = json_chars(rb) + seq!['"'] + y;
        assert(p =~= json_char(a[0]) + u);
        assert(q =~= json_char(b[0]) + v);
        lemma_json_char_told(a[0], b[0], u, v);
        lemma_json_text_ends(ra, rb, x, y);
        assert(a =~= seq![a[0]] + ra);
        assert(b =~= seq![b[0]] + rb);
    }
}

/// `serde_json::Value::to_string` on a string value: the text between quotes,
/// with the quote, the backslash and the control characters below U+0020
/// escaped, the latter by a letter where JSON has one and else by `\u00xx`.
#[verifier::external_body]
pub(crate) fn json_string(s: &str) -> (r: String)
    ensures
        r@ == json_text(s@),
{
    serde_json::Value::from(s).to_string()
}

// ---------------------------------------------------------------------------
// Laws
// ---------------------------------------------------------------------------

/// Whether `shown` and the flag are the preview of `s`: its first characters,
/// all of them or 240, and whether that leaves any out.
pub open spec fn is_preview(shown: Seq<char>, truncated: bool, s: Seq<char>) -> bool {
    &&& s.len() <= 240 ==> shown == s && !truncated
    &&& s.len() > 240 ==> shown.len() == 240 && truncated
    &&& forall|i: int| 0 <= i < shown.len() ==> #[trigger] shown[i] == s[i]
}

/// The preview of a text has the text's own first characters: all of them, or
/// 240 if there are more.
pub proof fn law_preview(s: Seq<char>)
    ensures
        is_preview(preview(s), s.len() > 240, s),
        s.len() > PREVIEW_CHARS <==> s.len() > 240,
{
}

/// What an optional text, or a list of texts, holds.
pub proof fn law_text_views(t: Option<String>, texts: Seq<String>)
    ensures
        match t {
            Some(s) => optional_text(t) == Some(s@),
            None => optional_text(t) is None,
        },
        texts_of(texts).len() == texts.len(),
        forall|i: int| 0 <= i < texts.len() ==> #[trigger] texts_of(texts)[i] == texts[i]@,
{
}

/// Whether the bytes `a` come before the bytes `b`, or are the same: `a` begins
/// `b`, or has the lesser byte where they first differ.
pub open spec fn ordered(a: Seq<u8>, b: Seq<u8>) -> bool {
    exists|k: int|
        {
            &&& 0 <= k <= a.len()
            &&& k <= b.len()
            &&& #[trigger] a.take(k) == b.take(k)
            &&& k == a.len() || (k < b.len() && a[k] < b[k])
        }
}

proof fn lemma_bytes_ordered(a: Seq<u8>, b: Seq<u8>)
    ensures
        bytes_le(a, b) <==> ordered(a, b),
    decreases a.len(),
{
    if a.len() == 0 {
        assert(a.take(0) =~= b.take(0));
    } else if b.len() == 0 {
    } else if a[0] != b[0] {
        if a[0] < b[0] {
            assert(a.take(0) =~= b.take(0));
        }
        if ordered(a, b) {
            let k = choose|k: int|
                {
                    &&& 0 <= k <= a.len()
                    &&& k <= b.len()
                    &&& #[trigger] a.take(k) == b.take(k)
                    &&& k == a.len() || (k < b.len() && a[k] < b[k])
                };
            if k > 0 {
                assert(a.take(k)[0] == b.take(k)[0]);
            }
        }
    } else {
        let x = a.drop_first();
        let y = b.drop_first();
        lemma_bytes_ordered(x, y);
        if ordered(x, y) {
            let k = choose|k: int|
                {
                    &&& 0 <= k <= x.len()
                    &&& k <= y.len()
                    &&& #[trigger] x.take(k) == y.take(k)
                    &&& k == x.len() || (k < y.len() && x[k] < y[k])
                };
            assert(a.take(k + 1) =~= seq![a[0]] + x.take(k));
            assert(b.take(k + 1) =~= seq![b[0]] + y.take(k));
        }
        if ordered(a, b) {
            let k = choose|k: int|
                {
                    &&& 0 <= k <= a.len()
                    &&& k <= b.len()
                    &&& #[trigger] a.take(k) == b.take(k)
                    &&& k == a.len() || (k < b.len() && a[k] < b[k])
                };
            assert(k > 0);
            assert(x.take(k - 1) =~= a.take(k).drop_first());
            assert(y.take(k - 1) =~= b.take(k).drop_first());
        }
    }
}

/// Strings are ordered as their UTF-8 bytes are: by the first byte in which they
/// differ, and a beginning before what it begins.
pub proof fn law_text_order(a: Seq<char>, b: Seq<char>)
    ensures
        text_le(a, b) <==> ordered(encode_utf8(a), encode_utf8(b)),
{
    lemma_bytes_ordered(encode_utf8(a), encode_utf8(b));
}

/// A string contains another exactly if the bytes of the other stand in its
/// bytes, with some before and some behind them.
pub proof fn law_text_contains(hay: Seq<char>, needle: Seq<char>)
    ensures
        text_contains(hay, needle) <==> exists|before: Seq<u8>, behind: Seq<u8>|
            encode_utf8(hay) == #[trigger] (before + encode_utf8(needle) + behind),
{
    let h = encode_utf8(hay);
    let n = encode_utf8(needle);
    if text_contains(hay, needle) {
        let at = choose|at: int| occurs_at(h, n, at);
        let before = h.take(at);
        let behind = h.skip(at + n.len());
        assert(h =~= before + n + behind);
    }
    if exists|before: Seq<u8>, behind: Seq<u8>| h == #[trigger] (before + n + behind) {
        let (before, behind) = choose|before: Seq<u8>, behind: Seq<u8>|
            h == #[trigger] (before + n + behind);
        let at = before.len() as int;
        assert(h.subrange(at, at + n.len()) =~= n);
        assert(occurs_at(h, n, at));
    }
}

proof fn lemma_encode_add(a: Seq<char>, b: Seq<char>)
    ensures
        encode_utf8(a + b) == encode_utf8(a) + encode_utf8(b),
    decreases a.len(),
{
    if a.len() == 0 {
        assert(a + b =~= b);
        assert(encode_utf8(a) + encode_utf8(b) =~= encode_utf8(b));
    } else {
        assert((a + b).drop_first() =~= a.drop_first() + b);
        lemma_encode_add(a.drop_first(), b);
        assert(encode_utf8(a + b) =~= encode_utf8(a) + encode_utf8(b));
    }
}

/// A string contains each of its parts.
pub proof fn law_text_contains_part(before: Seq<char>, needle: Seq<char>, behind: Seq<char>)
    ensures
        text_contains(before + needle + behind, needle),
{
    lemma_encode_add(before + needle, behind);
    lemma_encode_add(before, needle);
    law_text_contains(before + needle + behind, needle);
}

} // verus!

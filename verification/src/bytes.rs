//! Ranges of a tag's payload.

use vstd::prelude::*;
use vstd::string::*;

use crate::error::QueryError;
use crate::number;

verus! {

/// Most bytes that can be asked for at once.
pub const MAX_LENGTH: usize = 4096;

/// How many bytes are read where no number is asked for.
pub fn default_length() -> (n: usize)
    ensures
        n == 64,
{
    64
}

/// The bytes of `data` from `offset` on, at most `length` of them; there are
/// none at the end, and none can be asked for beyond it.
pub open spec fn window(data: Seq<u8>, offset: int, length: int) -> Result<
    Seq<u8>,
    QueryError<Seq<char>>,
> {
    if offset > data.len() {
        Err(QueryError::Offset)
    } else if offset + length < data.len() {
        Ok(data.subrange(offset, offset + length))
    } else {
        Ok(data.skip(offset))
    }
}

/// The bytes of `data` from `offset` on, at most `length` of them.
pub fn byte_range(data: &[u8], offset: usize, length: usize) -> (r: Result<
    &[u8],
    QueryError<String>,
>)
    ensures
        match r {
            Ok(bytes) => window(data@, offset as int, length as int) == Ok::<
                Seq<u8>,
                QueryError<Seq<char>>,
            >(bytes@) && bytes@.len() <= length,
            Err(e) => window(data@, offset as int, length as int) == Err::<
                Seq<u8>,
                QueryError<Seq<char>>,
            >(e@),
        },
{
    if offset > data.len() {
        return Err(QueryError::Offset);
    }
    let rest = data.len() - offset;
    let end: usize = if length < rest {
        offset + length
    } else {
        data.len()
    };
    let bytes = vstd::slice::slice_subrange(data, offset, end);
    assert(length >= rest ==> bytes@ =~= data@.skip(offset as int));
    Ok(bytes)
}

/// Bytes as hexadecimal text, two upper-case digits each.
pub open spec fn hex_bytes(bytes: Seq<u8>) -> Seq<char>
    decreases bytes.len(),
{
    if bytes.len() == 0 {
        Seq::empty()
    } else {
        hex_bytes(bytes.drop_last()) + number::hex_fixed(bytes.last() as nat, 2)
    }
}

/// `bytes` as hexadecimal text.
pub fn hex_text(bytes: &[u8]) -> (text: String)
    ensures
        text@ == hex_bytes(bytes@),
{
    let mut text = String::new();
    let mut i: usize = 0;
    while i < bytes.len()
        invariant
            i <= bytes.len(),
            text@ == hex_bytes(bytes@.take(i as int)),
        decreases bytes.len() - i,
    {
        assert(bytes@.take(i + 1).drop_last() =~= bytes@.take(i as int));
        number::push_hex(&mut text, bytes[i] as u64, 2);
        i += 1;
    }
    assert(bytes@.take(bytes@.len() as int) =~= bytes@);
    text
}

/// Hexadecimal text has two digits for each byte, and tells the bytes.
pub proof fn law_hex_bytes(bytes: Seq<u8>)
    ensures
        hex_bytes(bytes).len() == 2 * bytes.len(),
        forall|i: int|
            0 <= i < bytes.len() ==> number::digits_value(
                hex_bytes(bytes).subrange(2 * i, 2 * i + 2),
                16,
            ) == #[trigger] bytes[i],
    decreases bytes.len(),
{
    if bytes.len() > 0 {
        let front = bytes.drop_last();
        let last = number::hex_fixed(bytes.last() as nat, 2);
        law_hex_bytes(front);
        number::law_hex_fixed(bytes.last() as nat, 2);
        reveal_with_fuel(number::hex_count, 3);
        assert forall|i: int| 0 <= i < bytes.len() implies number::digits_value(
            hex_bytes(bytes).subrange(2 * i, 2 * i + 2),
            16,
        ) == #[trigger] bytes[i] by {
            if i < front.len() {
                assert(front[i] == bytes[i]);
                assert(hex_bytes(bytes).subrange(2 * i, 2 * i + 2) =~= hex_bytes(front).subrange(
                    2 * i,
                    2 * i + 2,
                ));
            } else {
                assert(hex_bytes(bytes).subrange(2 * i, 2 * i + 2) =~= last);
            }
        }
    }
}

/// Two ranges of which the second starts where the first ends make the range
/// over both.
pub proof fn law_ranges_join(data: Seq<u8>, offset: int, first: int, second: int)
    requires
        0 <= offset,
        0 <= first,
        0 <= second,
        offset + first <= data.len(),
    ensures
        window(data, offset, first)->Ok_0 + window(data, offset + first, second)->Ok_0 == window(
            data,
            offset,
            first + second,
        )->Ok_0,
        window(data, offset, first) is Ok,
        window(data, offset + first, second) is Ok,
{
    assert(window(data, offset, first)->Ok_0 + window(data, offset + first, second)->Ok_0
        =~= window(data, offset, first + second)->Ok_0);
}

/// What is read of a payload: nothing can be read from beyond its end; else the
/// bytes from the offset on are read, all that there are or as many as were
/// asked for.
pub proof fn law_window(data: Seq<u8>, offset: int, length: int)
    requires
        0 <= offset,
        0 <= length,
    ensures
        match window(data, offset, length) {
            Ok(found) => {
                &&& offset <= data.len()
                &&& offset + length <= data.len() ==> found.len() == length
                &&& offset + length > data.len() ==> found.len() == data.len() - offset
                &&& forall|i: int| 0 <= i < found.len() ==> #[trigger] found[i] == data[offset + i]
            },
            Err(e) => offset > data.len() && e == QueryError::<Seq<char>>::Offset,
        },
{
}

/// Each byte is written as its own two digits, in upper case, byte after byte.
pub proof fn law_hex_digits(bytes: Seq<u8>, i: int)
    requires
        0 <= i < bytes.len(),
    ensures
        hex_bytes(bytes).len() == 2 * bytes.len(),
        number::digits_value(hex_bytes(bytes).subrange(2 * i, 2 * i + 2), 16) == bytes[i],
        ({
            let c = hex_bytes(bytes)[2 * i];
            '0' <= c <= '9' || 'A' <= c <= 'F'
        }),
        ({
            let c = hex_bytes(bytes)[2 * i + 1];
            '0' <= c <= '9' || 'A' <= c <= 'F'
        }),
    decreases bytes.len(),
{
    let front = bytes.drop_last();
    law_hex_bytes(bytes);
    law_hex_bytes(front);
    let last = number::hex_fixed(bytes.last() as nat, 2);
    number::law_hex_fixed(bytes.last() as nat, 2);
    if i < front.len() {
        law_hex_digits(front, i);
        assert(hex_bytes(bytes)[2 * i] == hex_bytes(front)[2 * i]);
        assert(hex_bytes(bytes)[2 * i + 1] == hex_bytes(front)[2 * i + 1]);
    } else {
        assert(hex_bytes(bytes)[2 * i] == last[0]);
        assert(hex_bytes(bytes)[2 * i + 1] == last[1]);
    }
}

} // verus!

//! Request lines out of a stream of bytes.

use vstd::prelude::*;

use crate::error::QueryError;

verus! {

/// Longest request line, its end of line included.
pub const MAX_REQUEST: usize = 65536;

/// The byte that ends a line.
pub const NEWLINE: u8 = 10;

/// A request line as it is handed on.
#[verifier::ext_equal]
pub enum Frame {
    /// The line, with its end of line if it has one.
    Line(Seq<u8>),
    /// A line that is too long.
    Oversized,
}

/// How a line is handed on.
pub open spec fn frame_of(line: Seq<u8>) -> Frame {
    if line.len() > MAX_REQUEST {
        Frame::Oversized
    } else {
        Frame::Line(line)
    }
}

/// The position of the first end of line, or the length if there is none.
pub open spec fn first_newline(bytes: Seq<u8>) -> int
    decreases bytes.len(),
{
    if bytes.len() == 0 || bytes[0] == NEWLINE {
        0
    } else {
        1 + first_newline(bytes.drop_first())
    }
}

/// The request lines of a whole input: one for each end of line, and one for
/// what follows the last of them, if anything does.
pub open spec fn frames(input: Seq<u8>) -> Seq<Frame>
    decreases input.len(),
{
    let n = first_newline(input);
    if input.len() == 0 {
        Seq::empty()
    } else if n >= input.len() || n < 0 {
        seq![frame_of(input)]
    } else {
        seq![frame_of(input.take(n + 1))] + frames(input.skip(n + 1))
    }
}

/// What became of some input.
#[derive(Debug)]
pub enum Progress {
    /// The line goes on.
    More,
    /// The input is over, and no line was begun.
    End,
    /// A request line, or the error for one that is too long.
    Request(Result<Vec<u8>, QueryError<String>>),
}

/// What a request line is handed on as.
pub open spec fn delivers(request: Result<Vec<u8>, QueryError<String>>, frame: Frame) -> bool {
    match (request, frame) {
        (Ok(line), Frame::Line(wanted)) => line@ == wanted,
        (Err(e), Frame::Oversized) => e@ == QueryError::<Seq<char>>::RequestSize,
        _ => false,
    }
}

/// Whether a reader that has consumed `begun` of a line, and is given `bytes`,
/// may consume `count` of them, report `progress`, and have `after` of a line
/// consumed then.
pub open spec fn reads_on(
    begun: Seq<u8>,
    bytes: Seq<u8>,
    count: int,
    progress: Progress,
    after: Seq<u8>,
) -> bool {
    let n = first_newline(bytes);
    if bytes.len() == 0 {
        &&& count == 0
        &&& after == Seq::<u8>::empty()
        &&& if begun.len() == 0 {
            progress is End
        } else {
            &&& progress is Request
            &&& delivers(progress->Request_0, frame_of(begun))
        }
    } else if n == bytes.len() {
        &&& count == n
        &&& progress is More
        &&& after == begun + bytes
    } else {
        &&& 0 <= n < bytes.len()
        &&& count == n + 1
        &&& progress is Request
        &&& delivers(progress->Request_0, frame_of(begun + bytes.take(n + 1)))
        &&& after == Seq::<u8>::empty()
    }
}

/// Assembles request lines from the pieces in which the input arrives. A line
/// that is too long is consumed to its end, without being kept.
pub struct RequestReader {
    line: Vec<u8>,
    oversized: bool,
    saw_input: bool,
    seen: Ghost<Seq<u8>>,
}

impl View for RequestReader {
    type V = Seq<u8>;

    /// The part of the current line that was consumed.
    closed spec fn view(&self) -> Seq<u8> {
        self.seen@
    }
}

impl RequestReader {
    /// Whether the state is one that the reader can be in.
    pub closed spec fn wf(&self) -> bool {
        &&& self.saw_input == (self.seen@.len() > 0)
        &&& self.oversized == (self.seen@.len() > MAX_REQUEST)
        &&& !self.oversized ==> self.line@ == self.seen@
        &&& self.line@.len() <= MAX_REQUEST
    }

    /// How many bytes are kept.
    pub closed spec fn kept(&self) -> nat {
        self.line@.len()
    }

    /// A reader at the start of a line.
    pub fn new() -> (reader: RequestReader)
        ensures
            reader.wf(),
            reader@ == Seq::<u8>::empty(),
    {
        RequestReader { line: Vec::new(), oversized: false, saw_input: false, seen: Ghost(Seq::empty()) }
    }

    /// Takes the next piece of input, an empty one at the end of it. Gives the
    /// number of bytes consumed, which never go beyond the end of a line, and
    /// what became of them.
    pub fn read_request(&mut self, bytes: &[u8]) -> (r: (usize, Progress))
        requires
            old(self).wf(),
        ensures
            final(self).wf(),
            final(self).kept() <= MAX_REQUEST,
            reads_on(old(self)@, bytes@, r.0 as int, r.1, final(self)@),
    {
        if bytes.len() == 0 {
            if !self.saw_input {
                assert(self@ =~= Seq::<u8>::empty());
                return (0, Progress::End);
            }
            return (0, Progress::Request(self.take_request()));
        }
        let mut n: usize = 0;
        assert(bytes@.skip(0) =~= bytes@);
        while n < bytes.len() && bytes[n] != NEWLINE
            invariant
                n <= bytes.len(),
                first_newline(bytes@) == n + first_newline(bytes@.skip(n as int)),
            decreases bytes.len() - n,
        {
            assert(bytes@.skip(n as int).drop_first() =~= bytes@.skip(n + 1));
            n += 1;
        }
        let ended = n < bytes.len();
        let count: usize = if ended {
            n + 1
        } else {
            n
        };
        self.saw_input = true;
        if count > MAX_REQUEST - self.line.len() {
            self.oversized = true;
        }
        if !self.oversized {
            let mut i: usize = 0;
            let ghost kept = self.line@;
            while i < count
                invariant
                    i <= count <= bytes.len(),
                    self.line@ == kept + bytes@.take(i as int),
                    kept.len() + count <= MAX_REQUEST,
                    self.oversized == old(self).oversized,
                    self.saw_input,
                    self.seen == old(self).seen,
                decreases count - i,
            {
                self.line.push(bytes[i]);
                i += 1;
                assert(self.line@ =~= kept + bytes@.take(i as int));
            }
        }
        self.seen = Ghost(self.seen@ + bytes@.take(count as int));
        assert(bytes@.take(bytes@.len() as int) =~= bytes@);
        if ended {
            let request = self.take_request();
            (count, Progress::Request(request))
        } else {
            (count, Progress::More)
        }
    }

    /// Hands the current line on, and starts a new one.
    fn take_request(&mut self) -> (request: Result<Vec<u8>, QueryError<String>>)
        requires
            old(self).wf(),
        ensures
            final(self).wf(),
            final(self)@ == Seq::<u8>::empty(),
            delivers(request, frame_of(old(self)@)),
    {
        let oversized = self.oversized;
        let mut line: Vec<u8> = Vec::new();
        std::mem::swap(&mut line, &mut self.line);
        self.oversized = false;
        self.saw_input = false;
        self.seen = Ghost(Seq::empty());
        if oversized {
            Err(QueryError::RequestSize)
        } else {
            Ok(line)
        }
    }
}

// ---------------------------------------------------------------------------
// Laws
// ---------------------------------------------------------------------------

/// The request lines that a reader hands on which has consumed `begun` of a
/// line, has `buffer` before it, and will be given the pieces `later`.
pub open spec fn served(begun: Seq<u8>, buffer: Seq<u8>, later: Seq<Seq<u8>>) -> Seq<Frame>
    decreases later.len(), buffer.len(),
{
    let n = first_newline(buffer);
    if buffer.len() == 0 {
        if later.len() > 0 {
            served(begun, later[0], later.drop_first())
        } else if begun.len() > 0 {
            seq![frame_of(begun)]
        } else {
            Seq::empty()
        }
    } else if n >= buffer.len() || n < 0 {
        served(begun + buffer, Seq::empty(), later)
    } else {
        seq![frame_of(begun + buffer.take(n + 1))] + served(
            Seq::empty(),
            buffer.skip(n + 1),
            later,
        )
    }
}

/// What a reader hands on in one step.
pub open spec fn handed_on(progress: Progress) -> Seq<Frame> {
    match progress {
        Progress::Request(Ok(line)) => seq![Frame::Line(line@)],
        Progress::Request(Err(_)) => seq![Frame::Oversized],
        _ => Seq::empty(),
    }
}

/// What a reader hands on is what it hands on in one step, and then what it
/// hands on of the rest. An empty piece is given only at the end.
pub proof fn law_step_served(
    begun: Seq<u8>,
    bytes: Seq<u8>,
    later: Seq<Seq<u8>>,
    count: int,
    progress: Progress,
    after: Seq<u8>,
)
    requires
        reads_on(begun, bytes, count, progress, after),
        bytes.len() == 0 ==> later.len() == 0,
    ensures
        0 <= count <= bytes.len(),
        served(begun, bytes, later) == handed_on(progress) + served(
            after,
            bytes.skip(count),
            later,
        ),
{
    lemma_first_newline_bounds(bytes);
    let rest = served(after, bytes.skip(count), later);
    if bytes.len() == 0 {
        assert(bytes.skip(0) =~= Seq::<u8>::empty());
        assert(handed_on(progress) + rest =~= handed_on(progress));
    } else if first_newline(bytes) == bytes.len() {
        assert(bytes.skip(count) =~= Seq::<u8>::empty());
        assert(handed_on(progress) + rest =~= rest);
    }
}

/// A reader that starts with a line on which no end of line was seen goes on
/// with such a line.
pub proof fn law_step_begun(
    begun: Seq<u8>,
    bytes: Seq<u8>,
    count: int,
    progress: Progress,
    after: Seq<u8>,
)
    requires
        reads_on(begun, bytes, count, progress, after),
        first_newline(begun) == begun.len(),
    ensures
        first_newline(after) == after.len(),
{
    if bytes.len() > 0 && first_newline(bytes) == bytes.len() {
        lemma_first_newline_after(begun, bytes);
    }
}

proof fn lemma_first_newline_bounds(bytes: Seq<u8>)
    ensures
        0 <= first_newline(bytes) <= bytes.len(),
        first_newline(bytes) < bytes.len() ==> bytes[first_newline(bytes)] == NEWLINE,
    decreases bytes.len(),
{
    if bytes.len() > 0 && bytes[0] != NEWLINE {
        lemma_first_newline_bounds(bytes.drop_first());
    }
}

proof fn lemma_first_newline_after(begun: Seq<u8>, bytes: Seq<u8>)
    requires
        first_newline(begun) == begun.len(),
    ensures
        first_newline(begun + bytes) == begun.len() + first_newline(bytes),
    decreases begun.len(),
{
    if begun.len() == 0 {
        assert(begun + bytes =~= bytes);
    } else {
        assert((begun + bytes).drop_first() =~= begun.drop_first() + bytes);
        lemma_first_newline_bounds(begun.drop_first());
        lemma_first_newline_after(begun.drop_first(), bytes);
    }
}

/// The requests do not depend on how the input is cut into pieces: they are
/// the lines of the pieces put together.
pub proof fn law_pieces(begun: Seq<u8>, buffer: Seq<u8>, later: Seq<Seq<u8>>)
    requires
        first_newline(begun) == begun.len(),
    ensures
        served(begun, buffer, later) == frames(begun + buffer + later.flatten()),
    decreases later.len(), buffer.len(),
{
    let rest = later.flatten();
    let all = begun + buffer + rest;
    let n = first_newline(buffer);
    lemma_first_newline_bounds(buffer);
    if buffer.len() == 0 {
        if later.len() > 0 {
            law_pieces(begun, later[0], later.drop_first());
            assert(begun + later[0] + later.drop_first().flatten() =~= all);
        } else {
            assert(all =~= begun);
        }
    } else if n == buffer.len() {
        lemma_first_newline_after(begun, buffer);
        law_pieces(begun + buffer, Seq::empty(), later);
        assert(begun + buffer + Seq::<u8>::empty() + rest =~= all);
    } else {
        law_pieces(Seq::empty(), buffer.skip(n + 1), later);
        lemma_first_newline_after(begun, buffer + rest);
        lemma_first_newline_prefix(buffer, rest);
        assert(all =~= begun + (buffer + rest));
        let m = first_newline(all);
        assert(m == begun.len() + n);
        assert(all.take(m + 1) =~= begun + buffer.take(n + 1));
        assert(all.skip(m + 1) =~= Seq::<u8>::empty() + buffer.skip(n + 1) + rest);
    }
}

proof fn lemma_first_newline_prefix(bytes: Seq<u8>, rest: Seq<u8>)
    requires
        first_newline(bytes) < bytes.len(),
    ensures
        first_newline(bytes + rest) == first_newline(bytes),
    decreases bytes.len(),
{
    if bytes.len() > 0 && bytes[0] != NEWLINE {
        assert((bytes + rest).drop_first() =~= bytes.drop_first() + rest);
        lemma_first_newline_prefix(bytes.drop_first(), rest);
    }
}

/// Whatever a line holds, and however long it is, it is handed on as one
/// request, and the next request starts behind it.
pub proof fn law_next_request(line: Seq<u8>, rest: Seq<u8>)
    requires
        line.len() > 0,
        first_newline(line) == line.len() - 1,
    ensures
        frames(line + rest) == seq![frame_of(line)] + frames(rest),
{
    lemma_first_newline_prefix(line, rest);
    assert((line + rest).take(line.len() as int) =~= line);
    assert((line + rest).skip(line.len() as int) =~= rest);
}

/// How many ends of line there are.
pub open spec fn newline_count(bytes: Seq<u8>) -> nat
    decreases bytes.len(),
{
    if bytes.len() == 0 {
        0
    } else {
        newline_count(bytes.drop_first()) + if bytes[0] == NEWLINE {
            1nat
        } else {
            0nat
        }
    }
}

proof fn lemma_newline_count_line(bytes: Seq<u8>)
    ensures
        first_newline(bytes) == bytes.len() ==> newline_count(bytes) == 0,
        first_newline(bytes) < bytes.len() ==> newline_count(bytes) == 1 + newline_count(
            bytes.skip(first_newline(bytes) + 1),
        ),
    decreases bytes.len(),
{
    if bytes.len() > 0 {
        if bytes[0] == NEWLINE {
            assert(bytes.skip(1) =~= bytes.drop_first());
        } else {
            let rest = bytes.drop_first();
            lemma_first_newline_bounds(rest);
            lemma_newline_count_line(rest);
            if first_newline(rest) < rest.len() {
                assert(rest.skip(first_newline(rest) + 1) =~= bytes.skip(
                    first_newline(bytes) + 1,
                ));
            }
        }
    }
}

/// There is one request for each end of line, and one more for an input that
/// does not end with one.
pub proof fn law_request_count(input: Seq<u8>)
    ensures
        frames(input).len() == newline_count(input) + if input.len() > 0 && input.last()
            != NEWLINE {
            1int
        } else {
            0int
        },
    decreases input.len(),
{
    if input.len() > 0 {
        let n = first_newline(input);
        lemma_first_newline_bounds(input);
        lemma_newline_count_line(input);
        if n < input.len() {
            let rest = input.skip(n + 1);
            law_request_count(rest);
            if rest.len() > 0 {
                assert(rest.last() == input.last());
            }
        } else {
            lemma_no_newline(input, input.len() - 1);
        }
    }
}

proof fn lemma_no_newline(bytes: Seq<u8>, i: int)
    requires
        first_newline(bytes) == bytes.len(),
        0 <= i < bytes.len(),
    ensures
        bytes[i] != NEWLINE,
    decreases bytes.len(),
{
    if i > 0 {
        lemma_first_newline_bounds(bytes.drop_first());
        lemma_no_newline(bytes.drop_first(), i - 1);
        assert(bytes.drop_first()[i - 1] == bytes[i]);
    }
}

/// The first end of line is the first byte 10 there is.
pub proof fn law_first_newline(bytes: Seq<u8>)
    ensures
        0 <= first_newline(bytes) <= bytes.len(),
        first_newline(bytes) < bytes.len() ==> bytes[first_newline(bytes)] == 10,
        forall|i: int| 0 <= i < first_newline(bytes) ==> #[trigger] bytes[i] != 10,
    decreases bytes.len(),
{
    lemma_first_newline_bounds(bytes);
    if bytes.len() > 0 && bytes[0] != 10 {
        let rest = bytes.drop_first();
        law_first_newline(rest);
        assert forall|i: int| 0 <= i < first_newline(bytes) implies #[trigger] bytes[i] != 10 by {
            if i > 0 {
                assert(rest[i - 1] == bytes[i]);
            }
        }
    }
}

proof fn lemma_first_newline_is(bytes: Seq<u8>, n: int)
    requires
        0 <= n <= bytes.len(),
        n < bytes.len() ==> bytes[n] == 10,
        forall|i: int| 0 <= i < n ==> #[trigger] bytes[i] != 10,
    ensures
        first_newline(bytes) == n,
{
    law_first_newline(bytes);
    let m = first_newline(bytes);
    if m < n {
        assert(bytes[m] != 10);
    }
    if n < m {
        assert(bytes[n] != 10);
    }
}

/// What a reader does with a piece of input. Up to the first byte 10 it belongs
/// to the line that was begun, which is then handed on, byte for byte, if it has
/// at most 65536 bytes, and else refused; without such a byte it is kept. At the
/// end of the input a line that was begun is handed on in the same way.
pub proof fn law_reads_on(
    begun: Seq<u8>,
    bytes: Seq<u8>,
    n: int,
    count: int,
    progress: Progress,
    after: Seq<u8>,
)
    requires
        reads_on(begun, bytes, count, progress, after),
        0 <= n <= bytes.len(),
        n < bytes.len() ==> bytes[n] == 10,
        forall|i: int| 0 <= i < n ==> #[trigger] bytes[i] != 10,
    ensures
        ({
            let line = if n < bytes.len() {
                begun + bytes.take(n + 1)
            } else {
                begun + bytes
            };
            if bytes.len() > 0 && n == bytes.len() {
                count == n && progress is More && after == line
            } else if line.len() == 0 {
                count == 0 && progress is End && after.len() == 0
            } else {
                &&& count == if n < bytes.len() {
                    n + 1
                } else {
                    0
                }
                &&& after.len() == 0
                &&& progress matches Progress::Request(request)
                &&& if line.len() <= 65536 {
                    request matches Ok(handed) && handed@ == line
                } else {
                    request matches Err(e) && e@ == QueryError::<Seq<char>>::RequestSize
                }
            }
        }),
{
    lemma_first_newline_is(bytes, n);
    if bytes.len() == 0 {
        assert(begun + bytes =~= begun);
    }
}

/// The request lines of an input: none if it is empty, one if no byte of it is a
/// 10, and else its bytes up to the first 10 and then the lines of the rest. A
/// line of more than 65536 bytes is refused, any other handed on as it is.
pub proof fn law_frames(line: Seq<u8>, rest: Seq<u8>)
    requires
        line.len() > 0,
        forall|i: int| 0 <= i < line.len() - 1 ==> #[trigger] line[i] != 10,
        rest.len() > 0 ==> line.last() == 10,
    ensures
        frames(Seq::empty()).len() == 0,
        frames(line + rest) == seq![
            if line.len() <= 65536 {
                Frame::Line(line)
            } else {
                Frame::Oversized
            },
        ] + frames(rest),
{
    let n = if line.last() == 10 {
        line.len() - 1
    } else {
        line.len() as int
    };
    if line.last() == 10 {
        lemma_first_newline_is(line, n);
        law_next_request(line, rest);
    } else {
        lemma_first_newline_is(line, n);
        assert(line + rest =~= line);
        assert(seq![frame_of(line)] + frames(rest) =~= seq![frame_of(line)]);
    }
}

} // verus!

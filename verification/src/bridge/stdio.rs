//! Frames on a stream: lines that end in a newline, of bounded size.
use vstd::prelude::*;
use vstd::utf8::encode_utf8;

use crate::bridge::limits::Limits;
use crate::bridge::protocol::{
    extract_id, extracted_id, id_fault, is_error, law_sound_ids, parse_request, parsed, validate_id,
    ErrorCode, ParseView, Response,
};
use crate::bytes::append_slice;
use crate::text::{join2, join_texts, joined, text_views};

verus! {

/// How long the requests of a closed stream may go on, in milliseconds.
pub const REQUEST_DRAIN_GRACE: u64 = 500;

/// How long cancelled requests may go on, in milliseconds.
pub const CANCEL_DRAIN_BUDGET: u64 = 250;

/// How long the writing of a frame may take, in milliseconds.
pub const STEADY_WRITE_BUDGET: u64 = 30_000;

/// What is read from a stream.
#[derive(Debug)]
pub enum FrameRead {
    Line(Vec<u8>),
    Oversized { id: String },
    Eof,
}

pub enum FrameView {
    Line(Seq<u8>),
    Oversized(Seq<char>),
    Eof,
}

impl View for FrameRead {
    type V = FrameView;

    open spec fn view(&self) -> FrameView {
        match self {
            FrameRead::Line(b) => FrameView::Line(b@),
            FrameRead::Oversized { id } => FrameView::Oversized(id@),
            FrameRead::Eof => FrameView::Eof,
        }
    }
}

/// Where the first newline from `i` on stands.
pub open spec fn newline_from(a: Seq<u8>, i: int) -> Option<int>
    decreases a.len() - i,
{
    if i >= a.len() {
        None
    } else if a[i] == 0x0a {
        Some(i)
    } else {
        newline_from(a, i + 1)
    }
}

pub proof fn lemma_newline(a: Seq<u8>, i: int)
    requires
        0 <= i,
    ensures
        match newline_from(a, i) {
            Some(n) => i <= n < a.len() && a[n] == 0x0a && forall|k: int|
                i <= k < n ==> #[trigger] a[k] != 0x0a,
            None => forall|k: int| i <= k < a.len() ==> #[trigger] a[k] != 0x0a,
        },
    decreases a.len() - i,
{
    if i < a.len() && a[i] != 0x0a {
        lemma_newline(a, i + 1);
    }
}

fn find_newline(a: &[u8]) -> (r: Option<usize>)
    ensures
        match newline_from(a@, 0) {
            Some(n) => r matches Some(i) && i == n && i < a@.len(),
            None => r is None,
        },
{
    let mut i: usize = 0;
    while i < a.len()
        invariant
            i <= a@.len(),
            newline_from(a@, 0) == newline_from(a@, i as int),
        decreases a@.len() - i,
    {
        if a[i] == 0x0a {
            return Some(i);
        }
        i = i + 1;
    }
    None
}

/// A line without the carriage return at its end.
pub open spec fn without_return(s: Seq<u8>) -> Seq<u8> {
    if s.len() > 0 && s.last() == 0x0d {
        s.drop_last()
    } else {
        s
    }
}

/// Reads one frame from the pieces of a stream. `held` is what was kept of
/// the line; of a line that is too long the rest is thrown away.
#[derive(Debug)]
pub struct FrameReader {
    held: Vec<u8>,
    over: bool,
    max: usize,
}

pub struct ReaderView {
    pub held: Seq<u8>,
    pub over: bool,
    pub max: nat,
}

/// What a piece comes to: the reader after it, how many bytes of the piece
/// were used, and the frame that ended in it.
pub struct FillView {
    pub reader: ReaderView,
    pub used: int,
    pub frame: Option<FrameView>,
}

impl View for FrameReader {
    type V = ReaderView;

    closed spec fn view(&self) -> ReaderView {
        ReaderView { held: self.held@, over: self.over, max: self.max as nat }
    }
}

impl ReaderView {
    /// A line is thrown away exactly if it is too long.
    pub open spec fn wf(self) -> bool {
        self.over <==> self.held.len() > self.max
    }

    pub open spec fn fresh(self) -> ReaderView {
        ReaderView { held: Seq::empty(), over: false, max: self.max }
    }

    pub open spec fn filled(self, a: Seq<u8>) -> FillView {
        match newline_from(a, 0) {
            Some(i) => FillView {
                reader: self.fresh(),
                used: i + 1,
                frame: Some(
                    if self.over {
                        FrameView::Oversized(extracted_id(self.held))
                    } else if self.held.len() + i > self.max {
                        FrameView::Oversized(extracted_id(self.held + a.take(i)))
                    } else {
                        FrameView::Line(without_return(self.held + a.take(i)))
                    },
                ),
            },
            None => FillView {
                reader: if self.over {
                    self
                } else {
                    ReaderView {
                        held: self.held + a,
                        over: self.held.len() + a.len() > self.max,
                        max: self.max,
                    }
                },
                used: a.len() as int,
                frame: None,
            },
        }
    }

    pub open spec fn finished(self) -> FrameView {
        if self.over {
            FrameView::Oversized(extracted_id(self.held))
        } else if self.held.len() == 0 {
            FrameView::Eof
        } else {
            FrameView::Line(without_return(self.held))
        }
    }
}

fn strip_return(line: &mut Vec<u8>)
    ensures
        final(line)@ == without_return(old(line)@),
{
    let n: usize = line.len();
    if n > 0 && line[n - 1] == 0x0d {
        let _ret: Option<u8> = line.pop();
    }
}

impl FrameReader {
    /// A reader of a frame of at most `max_bytes` bytes.
    pub fn new(max_bytes: usize) -> (r: Self)
        ensures
            r@ == (ReaderView { held: Seq::empty(), over: false, max: max_bytes as nat }),
            r@.wf(),
    {
        FrameReader { held: Vec::new(), over: false, max: max_bytes }
    }

    /// The next piece of the stream. Bytes after a newline belong to the next
    /// frame and are not used.
    pub fn fill(&mut self, available: &[u8]) -> (r: (usize, Option<FrameRead>))
        requires
            old(self)@.wf(),
        ensures
            final(self)@ == old(self)@.filled(available@).reader,
            final(self)@.wf(),
            r.0 == old(self)@.filled(available@).used,
            match old(self)@.filled(available@).frame {
                Some(f) => r.1 matches Some(x) && x@ == f,
                None => r.1 is None,
            },
    {
        let ghost before = self@;
        let size: usize = available.len();
        match find_newline(available) {
            Some(i) => {
                let frame: FrameRead = if self.over {
                    FrameRead::Oversized { id: extract_id(&self.held) }
                } else {
                    let long: bool = i > self.max - self.held.len();
                    let part: &[u8] = vstd::slice::slice_subrange(available, 0, i);
                    let mut line: Vec<u8> = Vec::new();
                    append_slice(&mut line, &self.held);
                    append_slice(&mut line, part);
                    assert(line@ =~= before.held + available@.take(i as int));
                    if long {
                        FrameRead::Oversized { id: extract_id(&line) }
                    } else {
                        strip_return(&mut line);
                        FrameRead::Line(line)
                    }
                };
                self.held = Vec::new();
                self.over = false;
                assert(self@.held =~= Seq::empty());
                (i + 1, Some(frame))
            },
            None => {
                if !self.over {
                    if size > self.max - self.held.len() {
                        self.over = true;
                    }
                    append_slice(&mut self.held, available);
                }
                (size, None)
            },
        }
    }

    /// The stream has ended.
    pub fn finish(self) -> (r: FrameRead)
        requires
            self@.wf(),
        ensures
            r@ == self@.finished(),
    {
        if self.over {
            return FrameRead::Oversized { id: extract_id(&self.held) };
        }
        if self.held.len() == 0 {
            return FrameRead::Eof;
        }
        let mut line: Vec<u8> = self.held;
        strip_return(&mut line);
        FrameRead::Line(line)
    }
}

// -------------------------------------------------------------- the stream
/// A frame without the id that was found in one that is too long.
pub enum FrameKind {
    Line(Seq<u8>),
    Oversized,
}

/// What a line is.
pub open spec fn line_kind(line: Seq<u8>, max: nat) -> FrameKind {
    if line.len() > max {
        FrameKind::Oversized
    } else {
        FrameKind::Line(without_return(line))
    }
}

/// The lines of a stream of which `line` was seen and `input` is to come.
pub open spec fn stream_lines(line: Seq<u8>, input: Seq<u8>, max: nat) -> Seq<FrameKind>
    decreases input.len(),
{
    if input.len() == 0 {
        if line.len() == 0 {
            Seq::empty()
        } else {
            seq![line_kind(line, max)]
        }
    } else if input[0] == 0x0a {
        seq![line_kind(line, max)] + stream_lines(Seq::empty(), input.drop_first(), max)
    } else {
        stream_lines(line.push(input[0]), input.drop_first(), max)
    }
}

pub open spec fn frame_kind(f: FrameView) -> FrameKind {
    match f {
        FrameView::Line(b) => FrameKind::Line(b),
        _ => FrameKind::Oversized,
    }
}

/// The size of the next piece of a stream with `left` bytes to come.
pub open spec fn piece(sizes: spec_fn(nat) -> nat, left: nat) -> int {
    if sizes(left) == 0 {
        1
    } else if sizes(left) > left {
        left as int
    } else {
        sizes(left) as int
    }
}

/// The frames that readers make of a stream that comes in pieces: with `n`
/// bytes to come, the next piece has `sizes(n)` bytes.
pub open spec fn frames_read(r: ReaderView, input: Seq<u8>, sizes: spec_fn(nat) -> nat) -> Seq<
    FrameKind,
>
    decreases input.len(),
{
    if input.len() == 0 {
        match r.finished() {
            FrameView::Eof => Seq::empty(),
            f => seq![frame_kind(f)],
        }
    } else {
        let f = r.filled(input.take(piece(sizes, input.len())));
        proof {
            lemma_newline(input.take(piece(sizes, input.len())), 0);
        }
        let rest = frames_read(f.reader, input.skip(f.used), sizes);
        match f.frame {
            Some(x) => seq![frame_kind(x)] + rest,
            None => rest,
        }
    }
}

proof fn lemma_lines_skip(line: Seq<u8>, input: Seq<u8>, max: nat, n: int)
    requires
        0 <= n <= input.len(),
        forall|k: int| 0 <= k < n ==> #[trigger] input[k] != 0x0a,
    ensures
        stream_lines(line, input, max) == stream_lines(line + input.take(n), input.skip(n), max),
    decreases n,
{
    if n == 0 {
        assert(line + input.take(0) =~= line);
        assert(input.skip(0) =~= input);
    } else {
        let rest = input.drop_first();
        assert forall|k: int| 0 <= k < n - 1 implies #[trigger] rest[k] != 0x0a by {
            assert(rest[k] == input[k + 1]);
        }
        assert(input[0] != 0x0a);
        lemma_lines_skip(line.push(input[0]), rest, max, n - 1);
        assert(line.push(input[0]) + rest.take(n - 1) =~= line + input.take(n));
        assert(rest.skip(n - 1) =~= input.skip(n));
    }
}

/// Whether a reader has seen `line`.
pub open spec fn has_seen(r: ReaderView, line: Seq<u8>) -> bool {
    if r.over {
        line.len() > r.max
    } else {
        r.held == line && line.len() <= r.max
    }
}

proof fn lemma_frames(r: ReaderView, line: Seq<u8>, input: Seq<u8>, sizes: spec_fn(nat) -> nat)
    requires
        has_seen(r, line),
    ensures
        frames_read(r, input, sizes) == stream_lines(line, input, r.max),
    decreases input.len(),
{
    if input.len() > 0 {
        let n = piece(sizes, input.len());
        let a = input.take(n);
        let f = r.filled(a);
        lemma_newline(a, 0);
        match newline_from(a, 0) {
            Some(i) => {
                assert forall|k: int| 0 <= k < i implies #[trigger] input[k] != 0x0a by {
                    assert(a[k] == input[k]);
                }
                lemma_lines_skip(line, input, r.max, i);
                let rest = input.skip(i);
                assert(rest[0] == 0x0a) by {
                    assert(a[i] == input[i]);
                }
                assert(rest.drop_first() =~= input.skip(f.used));
                assert(a.take(i) =~= input.take(i));
                lemma_frames(f.reader, Seq::empty(), input.skip(f.used), sizes);
            },
            None => {
                assert forall|k: int| 0 <= k < n implies #[trigger] input[k] != 0x0a by {
                    assert(a[k] == input[k]);
                }
                lemma_lines_skip(line, input, r.max, n);
                lemma_frames(f.reader, line + a, input.skip(f.used), sizes);
            },
        }
    }
}

/// However a stream is cut into pieces, the same frames are read from it: its
/// lines, each without its line end, with those that are too long marked.
pub proof fn law_frames_do_not_depend_on_pieces(
    input: Seq<u8>,
    max: nat,
    sizes: spec_fn(nat) -> nat,
)
    ensures
        frames_read(
            (ReaderView { held: Seq::empty(), over: false, max }),
            input,
            sizes,
        ) == stream_lines(Seq::empty(), input, max),
{
    lemma_frames(
        ReaderView { held: Seq::empty(), over: false, max },
        Seq::empty(),
        input,
        sizes,
    );
}

// -------------------------------------------------------------- admission
/// The id of a request, whether or not the request is valid.
pub open spec fn request_id(bytes: Seq<u8>, limits: Limits) -> Seq<char> {
    match parsed(bytes, limits) {
        ParseView::Invalid { id, .. } => id,
        ParseView::Unsupported { id, .. } => id,
        ParseView::Request { id, .. } => id,
    }
}

/// The id of a request, whether or not the request is valid.
pub fn peek_id(bytes: &[u8], limits: &Limits) -> (r: String)
    ensures
        r@ == request_id(bytes@, *limits),
{
    match parse_request(bytes, limits) {
        Ok(q) => q.id().to_owned(),
        Err(e) => e.id().to_owned(),
    }
}

/// Whether one more request is taken on beside those that are under way;
/// where not, the answer to it.
pub fn take_on(under_way: usize, bytes: &[u8], limits: &Limits) -> (r: core::result::Result<
    (),
    Response,
>)
    ensures
        r is Ok <==> under_way < limits.max_concurrent_requests,
        r matches Err(e) ==> is_error(
            e,
            request_id(bytes@, *limits),
            ErrorCode::Busy,
            "too many concurrent requests"@,
        ),
{
    if under_way < limits.max_concurrent_requests {
        return Ok(());
    }
    let id: String = peek_id(bytes, limits);
    Err(Response::busy(&id))
}

/// The answer to a frame that is too long.
pub fn oversized_response(id: &str) -> (r: Response)
    ensures
        is_error(r, id@, ErrorCode::InvalidRequest, "request frame exceeds max_frame_bytes"@),
{
    Response::invalid(id, "request frame exceeds max_frame_bytes")
}

// ----------------------------------------------------------------- output
/// The id that is named where an answer is too long: that of the answer, if
/// it is a proper one.
pub open spec fn capped_id(line: Seq<char>, max_id_len: usize) -> Seq<char> {
    let id = extracted_id(encode_utf8(line));
    if id_fault(encode_utf8(id), max_id_len) is None {
        id
    } else {
        Seq::empty()
    }
}

/// Whether `text` is how `render` writes the given error.
pub open spec fn renders<F: Fn(&Response) -> String>(
    render: F,
    id: Seq<char>,
    message: Seq<char>,
    text: Seq<char>,
) -> bool {
    exists|x: Response, s: String|
        is_error(x, id, ErrorCode::InvalidRequest, message) && #[trigger] render.ensures((&x,), s)
            && s@ == text
}

/// An answer that fits into a frame. One that is too long is replaced by an
/// error that names its request, or by a shorter one; where neither fits,
/// nothing can be sent.
pub fn cap_stdout_frame<F: Fn(&Response) -> String>(
    line: String,
    max_frame_bytes: usize,
    max_id_len: usize,
    render: F,
) -> (r: core::result::Result<String, &'static str>)
    requires
        forall|x: Response| #[trigger] render.requires((&x,)),
    ensures
        r matches Ok(s) ==> encode_utf8(s@).len() <= max_frame_bytes,
        encode_utf8(line@).len() <= max_frame_bytes ==> r == Ok::<String, &'static str>(line),
        encode_utf8(line@).len() > max_frame_bytes ==> match r {
            Ok(s) => {
                ||| renders(
                    render,
                    capped_id(line@, max_id_len),
                    "response frame exceeds max_frame_bytes"@,
                    s@,
                )
                ||| renders(render, Seq::empty(), "response exceeds frame limit"@, s@) && exists|
                    t: Seq<char>,
                |
                    encode_utf8(t).len() > max_frame_bytes && #[trigger] renders(
                        render,
                        capped_id(line@, max_id_len),
                        "response frame exceeds max_frame_bytes"@,
                        t,
                    )
            },
            Err(e) => e@ == "frame limit cannot contain a protocol error"@ && (exists|t: Seq<char>|
                encode_utf8(t).len() > max_frame_bytes && #[trigger] renders(
                    render,
                    capped_id(line@, max_id_len),
                    "response frame exceeds max_frame_bytes"@,
                    t,
                )) && (exists|t: Seq<char>|
                encode_utf8(t).len() > max_frame_bytes && #[trigger] renders(
                    render,
                    Seq::empty(),
                    "response exceeds frame limit"@,
                    t,
                )),
        },
{
    if line.as_str().as_bytes().len() <= max_frame_bytes {
        return Ok(line);
    }
    proof {
        reveal_strlit("");
        assert(""@ =~= Seq::<char>::empty());
    }
    let mut id: String = extract_id(line.as_str().as_bytes());
    if validate_id(&id, max_id_len).is_err() {
        id = "".to_owned();
    }
    assert(id@ == capped_id(line@, max_id_len));
    let first: Response = Response::invalid(&id, "response frame exceeds max_frame_bytes");
    let fallback: String = render(&first);
    assert(renders(
        render,
        capped_id(line@, max_id_len),
        "response frame exceeds max_frame_bytes"@,
        fallback@,
    ));
    if fallback.as_str().as_bytes().len() <= max_frame_bytes {
        return Ok(fallback);
    }
    let last: Response = Response::invalid("", "response exceeds frame limit");
    let short: String = render(&last);
    assert(renders(render, Seq::empty(), "response exceeds frame limit"@, short@));
    if short.as_str().as_bytes().len() <= max_frame_bytes {
        return Ok(short);
    }
    Err("frame limit cannot contain a protocol error")
}

// --------------------------------------------------------------- shutdown
/// How a bridge shut down: what failed, in the order in which it did.
pub fn shutdown_report(failures: &Vec<String>) -> (r: core::result::Result<(), String>)
    ensures
        r is Ok <==> failures@.len() == 0,
        r matches Err(e) ==> e@ == "bridge shutdown: "@ + joined(text_views(failures@), "; "@),
{
    if failures.len() == 0 {
        return Ok(());
    }
    let list: String = join_texts(failures, "; ");
    Err(join2("bridge shutdown: ", &list))
}

/// A line is what stands before its newline, without the carriage return that
/// it may end in, as long as it keeps to the limit; the lines after it do not
/// depend on it. What follows the last newline is a line too, if there is
/// anything.
pub proof fn law_lines_end_at_newlines(line: Seq<u8>, rest: Seq<u8>, max: nat)
    requires
        forall|i: int| 0 <= i < line.len() ==> #[trigger] line[i] != 0x0a,
    ensures
        ({
            let whole = stream_lines(Seq::empty(), line + seq![0x0au8] + rest, max);
            &&& whole.len() == 1 + stream_lines(Seq::empty(), rest, max).len()
            &&& whole.skip(1) == stream_lines(Seq::empty(), rest, max)
            &&& line.len() > max ==> whole[0] is Oversized
            &&& line.len() <= max && (line.len() == 0 || line.last() != 0x0d) ==> whole[0]
                == FrameKind::Line(line)
            &&& line.len() <= max && line.len() > 0 && line.last() == 0x0d ==> whole[0]
                == FrameKind::Line(line.drop_last())
        }),
        line.len() == 0 ==> stream_lines(Seq::empty(), line, max).len() == 0,
        0 < line.len() <= max && line.last() != 0x0d ==> stream_lines(Seq::empty(), line, max)
            == seq![FrameKind::Line(line)],
{
    lemma_line_taken(Seq::empty(), line, seq![0x0au8] + rest, max);
    lemma_line_taken(Seq::empty(), line, Seq::empty(), max);
    assert(line + seq![0x0au8] + rest =~= line + (seq![0x0au8] + rest));
    assert(Seq::<u8>::empty() + line =~= line);
    assert((seq![0x0au8] + rest).drop_first() =~= rest);
    assert(line + Seq::<u8>::empty() =~= line);
    let whole = stream_lines(Seq::empty(), line + seq![0x0au8] + rest, max);
    assert(whole.skip(1) =~= stream_lines(Seq::empty(), rest, max));
}

proof fn lemma_line_taken(held: Seq<u8>, line: Seq<u8>, rest: Seq<u8>, max: nat)
    requires
        forall|i: int| 0 <= i < line.len() ==> #[trigger] line[i] != 0x0a,
    ensures
        stream_lines(held, line + rest, max) == stream_lines(held + line, rest, max),
    decreases line.len(),
{
    if line.len() == 0 {
        assert(line + rest =~= rest);
        assert(held + line =~= held);
    } else {
        let input = line + rest;
        assert(input[0] == line[0]);
        assert(input.drop_first() =~= line.drop_first() + rest);
        assert(held.push(input[0]) + line.drop_first() =~= held + line);
        lemma_line_taken(held.push(input[0]), line.drop_first(), rest, max);
    }
}

/// The id that a capped response keeps is that of the line it stands for, if
/// it is a sound one.
pub proof fn law_capped_response_keeps_a_sound_id(line: Seq<char>, max: usize)
    ensures
        ({
            let id = extracted_id(encode_utf8(line));
            let sound = 1 <= encode_utf8(id).len() <= max && forall|i: int|
                0 <= i < encode_utf8(id).len() ==> 0x21 <= #[trigger] encode_utf8(id)[i] <= 0x7e;
            &&& sound ==> capped_id(line, max) == id
            &&& !sound ==> capped_id(line, max).len() == 0
        }),
{
    law_sound_ids(encode_utf8(extracted_id(encode_utf8(line))), max);
}

} // verus!

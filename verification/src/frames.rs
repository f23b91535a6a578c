//! Frames: the bytes in which a message comes, with a header that tells the length of its body.

use vstd::prelude::*;
use vstd::utf8::{decode_utf8, encode_utf8, valid_utf8};
use crate::decimal::{decimal, lemma_decimal_reads_back};
use crate::outside::text_of_bytes;
use crate::protocol::{
    frame_header, header_step, header_text, law_frame_header_reads_back, length_line,
    read_header_line, HeaderStep,
};

verus! {

/// The byte that ends a line.
pub const LINE_FEED: u8 = 10;

/// What the bytes that came so far lead to.
#[derive(Debug, PartialEq, Eq)]
pub enum FrameStep {
    /// More bytes are needed.
    More,
    /// There is no further frame.
    Ended,
    /// A frame is there: its body stands between these places, and what follows is not read.
    Body { from: usize, to: usize },
    /// A line of the header is no text.
    NotText,
    /// The length that the header tells is none.
    BadLength,
    /// The header tells no length.
    NoLength,
    /// The bytes end before the body does.
    CutShort,
}

/// The place behind the first line feed at a place or after it: `None`, where there is none.
pub open spec fn line_end(bytes: Seq<u8>, at: int) -> Option<int>
    decreases bytes.len() - at,
{
    if at >= bytes.len() {
        None
    } else if bytes[at] == LINE_FEED {
        Some(at + 1)
    } else {
        line_end(bytes, at + 1)
    }
}

/// What a line of a header leads to: `None`, where it is no text.
pub open spec fn line_step(length: Option<usize>, line: Seq<u8>) -> Option<HeaderStep> {
    if valid_utf8(line) {
        Some(header_step(length, decode_utf8(line)))
    } else {
        None
    }
}

/// What a body leads to that begins at a place and has the length that the header told.
pub open spec fn body_step(len: nat, from: int, length: Option<usize>, ended: bool) -> FrameStep {
    match length {
        None => FrameStep::NoLength,
        Some(n) => if from + n <= len {
            FrameStep::Body { from: from as usize, to: (from + n) as usize }
        } else if ended {
            FrameStep::CutShort
        } else {
            FrameStep::More
        },
    }
}

/// What bytes lead to, from a place in the header on, when the header has told `length` so
/// far. `ended` says whether no more bytes will come. A header that the bytes end in is none.
pub open spec fn frame_step(
    bytes: Seq<u8>,
    at: int,
    length: Option<usize>,
    ended: bool,
) -> FrameStep
    decreases bytes.len() - at,
{
    match line_end(bytes, at) {
        Some(end) => match line_step(length, bytes.subrange(at, end)) {
            None => FrameStep::NotText,
            Some(HeaderStep::BadLength) => FrameStep::BadLength,
            Some(HeaderStep::End) => body_step(bytes.len(), end, length, ended),
            Some(HeaderStep::More(told)) => {
                proof {
                    lemma_line_end(bytes, at);
                }
                frame_step(bytes, end, told, ended)
            },
        },
        None => if !ended {
            FrameStep::More
        } else if at >= bytes.len() {
            FrameStep::Ended
        } else {
            match line_step(length, bytes.skip(at)) {
                None => FrameStep::NotText,
                Some(HeaderStep::BadLength) => FrameStep::BadLength,
                Some(_) => FrameStep::Ended,
            }
        },
    }
}

/// A line that ends has a byte at least, and ends within the bytes.
pub proof fn lemma_line_end(bytes: Seq<u8>, at: int)
    ensures
        line_end(bytes, at) matches Some(end) ==> at < end <= bytes.len(),
    decreases bytes.len() - at,
{
    if at < bytes.len() && bytes[at] != LINE_FEED {
        lemma_line_end(bytes, at + 1);
    }
}

/// A line feed that is the first is found.
proof fn lemma_line_found(bytes: Seq<u8>, at: int, end: int)
    requires
        0 <= at < end <= bytes.len(),
        bytes[end - 1] == LINE_FEED,
        forall|i: int| at <= i < end - 1 ==> #[trigger] bytes[i] != LINE_FEED,
    ensures
        line_end(bytes, at) == Some(end),
    decreases end - at,
{
    if at < end - 1 {
        lemma_line_found(bytes, at + 1, end);
    }
}

/// Finds the place behind the first line feed at a place or after it.
fn find_line_end(bytes: &[u8], at: usize) -> (end: Option<usize>)
    requires
        at <= bytes@.len(),
    ensures
        match end {
            Some(end) => line_end(bytes@, at as int) == Some(end as int),
            None => line_end(bytes@, at as int) is None,
        },
{
    let mut i: usize = at;
    while i < bytes.len()
        invariant
            at <= i <= bytes@.len(),
            line_end(bytes@, at as int) == line_end(bytes@, i as int),
        decreases bytes@.len() - i,
    {
        if bytes[i] == LINE_FEED {
            return Some(i + 1);
        }
        i += 1;
    }
    None
}

/// Reads a line of a header.
fn read_line(length: Option<usize>, line: &[u8]) -> (step: Option<HeaderStep>)
    ensures
        step == line_step(length, line@),
{
    match text_of_bytes(line) {
        Some(text) => Some(read_header_line(length, text.as_str())),
        None => None,
    }
}

/// Takes the first frame of the bytes that came so far: `ended` says whether no more will
/// come.
pub fn take_frame(bytes: &[u8], ended: bool) -> (step: FrameStep)
    ensures
        step == frame_step(bytes@, 0, None, ended),
{
    let mut at: usize = 0;
    let mut length: Option<usize> = None;
    loop
        invariant
            at <= bytes@.len(),
            frame_step(bytes@, 0, None, ended) == frame_step(bytes@, at as int, length, ended),
        decreases bytes@.len() - at,
    {
        proof {
            lemma_line_end(bytes@, at as int);
        }
        match find_line_end(bytes, at) {
            Some(end) => {
                let line = vstd::slice::slice_subrange(bytes, at, end);
                match read_line(length, line) {
                    None => {
                        return FrameStep::NotText;
                    },
                    Some(HeaderStep::BadLength) => {
                        return FrameStep::BadLength;
                    },
                    Some(HeaderStep::End) => {
                        return match length {
                            None => FrameStep::NoLength,
                            Some(n) => if n <= bytes.len() - end {
                                FrameStep::Body { from: end, to: end + n }
                            } else if ended {
                                FrameStep::CutShort
                            } else {
                                FrameStep::More
                            },
                        };
                    },
                    Some(HeaderStep::More(told)) => {
                        length = told;
                        at = end;
                    },
                }
            },
            None => {
                if !ended {
                    return FrameStep::More;
                }
                if at == bytes.len() {
                    return FrameStep::Ended;
                }
                let line = vstd::slice::slice_subrange(bytes, at, bytes.len());
                assert(line@ =~= bytes@.skip(at as int));
                return match read_line(length, line) {
                    None => FrameStep::NotText,
                    Some(HeaderStep::BadLength) => FrameStep::BadLength,
                    Some(_) => FrameStep::Ended,
                };
            },
        }
    }
}

/// The bytes of a frame: its header, and its body behind it.
pub open spec fn frame_bytes(body: Seq<u8>) -> Seq<u8> {
    encode_utf8(header_text(body.len())) + body
}

/// Makes the frame of a body.
pub fn frame_of(body: &[u8]) -> (frame: Vec<u8>)
    ensures
        frame@ == frame_bytes(body@),
{
    let header = frame_header(body.len());
    let mut frame: Vec<u8> = Vec::new();
    frame.extend_from_slice(header.as_str().as_bytes());
    frame.extend_from_slice(body);
    assert(frame@ =~= frame_bytes(body@));
    frame
}

/// The header of a frame stands in ASCII, and only its two lines end in line feeds.
proof fn lemma_header_bytes(n: nat)
    ensures
        ({
            let line = length_line(n);
            let bytes = encode_utf8(header_text(n));
            &&& bytes == encode_utf8(line) + encode_utf8("\r\n"@)
            &&& encode_utf8(line).len() == line.len()
            &&& encode_utf8("\r\n"@) == seq![13u8, LINE_FEED]
            &&& line.len() > 0
            &&& encode_utf8(line)[line.len() - 1] == LINE_FEED
            &&& forall|i: int|
                0 <= i < line.len() - 1 ==> #[trigger] encode_utf8(line)[i] != LINE_FEED
        }),
{
    let line = length_line(n);
    let whole = header_text(n);
    let end = "\r\n"@;
    let digits = decimal(n);
    reveal_strlit("Content-Length: ");
    reveal_strlit("\r\n");
    lemma_decimal_reads_back(n);
    let name = "Content-Length: "@;
    assert forall|i: int| 0 <= i < line.len() - 1 implies 0 <= #[trigger] line[i] as int <= 127
        && line[i] != '\n' by {
        if i < name.len() {
            assert(line[i] == name[i]);
        } else if i < name.len() + digits.len() {
            assert(line[i] == digits[i - name.len()]);
            assert('0' <= digits[i - name.len()] <= '9');
        } else {
            assert(line[i] == end[i - name.len() - digits.len()]);
        }
    }
    assert(line[line.len() - 1] == '\n');
    assert(vstd::utf8::is_ascii_chars(line));
    assert(vstd::utf8::is_ascii_chars(end));
    assert(vstd::utf8::is_ascii_chars(whole)) by {
        assert forall|i: int| 0 <= i < whole.len() implies 0 <= #[trigger] whole[i] as int <= 127 by {
            if i < line.len() {
                assert(whole[i] == line[i]);
            } else {
                assert(whole[i] == end[i - line.len()]);
            }
        }
    }
    vstd::utf8::is_ascii_chars_encode_utf8(line);
    vstd::utf8::is_ascii_chars_encode_utf8(end);
    vstd::utf8::is_ascii_chars_encode_utf8(whole);
    assert(encode_utf8(whole) =~= encode_utf8(line) + encode_utf8(end));
    assert(encode_utf8(end) =~= seq![13u8, LINE_FEED]);
}

/// A frame that was written is read again: exactly its body is taken, and what follows it is
/// left.
pub proof fn law_frame_reads_back(body: Seq<u8>, rest: Seq<u8>, ended: bool)
    requires
        (frame_bytes(body) + rest).len() <= usize::MAX,
    ensures
        ({
            let bytes = frame_bytes(body) + rest;
            &&& frame_step(bytes, 0, None, ended) matches FrameStep::Body { from, to }
            &&& from <= to <= bytes.len()
            &&& bytes.subrange(from as int, to as int) == body
            &&& bytes.skip(to as int) == rest
        }),
{
    let bytes = frame_bytes(body) + rest;
    let n = body.len();
    let line = length_line(n);
    let first = encode_utf8(line);
    let second = encode_utf8("\r\n"@);
    lemma_header_bytes(n);
    let a = line.len() as int;
    let b = a + 2;
    assert(bytes.subrange(0, a) =~= first);
    assert(bytes.subrange(a, b) =~= second);
    assert forall|i: int| 0 <= i < a - 1 implies #[trigger] bytes[i] != LINE_FEED by {
        assert(bytes[i] == first[i]);
    }
    assert(bytes[a - 1] == first[a - 1]);
    lemma_line_found(bytes, 0, a);
    assert(bytes[a] == 13u8 && bytes[a + 1] == LINE_FEED);
    lemma_line_found(bytes, a, b);
    vstd::utf8::encode_utf8_valid_utf8(line);
    vstd::utf8::encode_utf8_decode_utf8(line);
    vstd::utf8::encode_utf8_valid_utf8("\r\n"@);
    vstd::utf8::encode_utf8_decode_utf8("\r\n"@);
    law_frame_header_reads_back(n as usize, None);
    assert(frame_step(bytes, a, Some(n as usize), ended) == FrameStep::Body {
        from: b as usize,
        to: (b + n) as usize,
    });
    assert(frame_step(bytes, 0, None, ended) == frame_step(bytes, a, Some(n as usize), ended));
    assert(bytes.subrange(b, b + n) =~= body);
    assert(bytes.skip(b + n) =~= rest);
}

/// A frame that came in part is waited for.
pub proof fn law_part_of_a_frame_is_waited_for(body: Seq<u8>, part: Seq<u8>)
    requires
        frame_bytes(body).len() <= usize::MAX,
        part.is_prefix_of(frame_bytes(body)),
        part != frame_bytes(body),
    ensures
        frame_step(part, 0, None, false) == FrameStep::More,
{
    let bytes = frame_bytes(body);
    let n = body.len();
    let line = length_line(n);
    let first = encode_utf8(line);
    lemma_header_bytes(n);
    let a = line.len() as int;
    let b = a + 2;
    assert forall|i: int| 0 <= i < part.len() implies part[i] == bytes[i] by {}
    assert(part.len() < bytes.len()) by {
        if part.len() == bytes.len() {
            assert(part =~= bytes);
        }
    }
    assert forall|i: int| 0 <= i < a - 1 implies #[trigger] bytes[i] != LINE_FEED by {
        assert(bytes[i] == first[i]);
    }
    if part.len() < a {
        lemma_no_line_end(part, 0);
    } else {
        assert(bytes[a - 1] == first[a - 1]);
        lemma_line_found(part, 0, a);
        assert(part.subrange(0, a) =~= first);
        vstd::utf8::encode_utf8_valid_utf8(line);
        vstd::utf8::encode_utf8_decode_utf8(line);
        law_frame_header_reads_back(n as usize, None);
        assert(frame_step(part, 0, None, false) == frame_step(part, a, Some(n as usize), false));
        assert(bytes[a] == 13u8 && bytes[a + 1] == LINE_FEED);
        if part.len() < b {
            lemma_no_line_end(part, a);
        } else {
            lemma_line_found(part, a, b);
            assert(part.subrange(a, b) =~= encode_utf8("\r\n"@));
            vstd::utf8::encode_utf8_valid_utf8("\r\n"@);
            vstd::utf8::encode_utf8_decode_utf8("\r\n"@);
        }
    }
}

/// Where there is no line feed, none is found.
proof fn lemma_no_line_end(bytes: Seq<u8>, at: int)
    requires
        0 <= at <= bytes.len(),
        forall|i: int| at <= i < bytes.len() ==> #[trigger] bytes[i] != LINE_FEED,
    ensures
        line_end(bytes, at) is None,
    decreases bytes.len() - at,
{
    if at < bytes.len() {
        lemma_no_line_end(bytes, at + 1);
    }
}

/// Where no bytes are left and none will come, there is no further frame.
pub proof fn law_nothing_left_is_the_end()
    ensures
        frame_step(Seq::empty(), 0, None, true) == FrameStep::Ended,
{
}

} // verus!

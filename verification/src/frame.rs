//! Protocol frames and the wire-format reader.
//!
//! A frame is one protocol message. On the wire each frame starts with a
//! one-byte tag, then either a CR/LF-terminated line or a length-prefixed
//! run of bytes:
//!
//! - `+<text>\r\n` — a simple string; the text must be UTF-8
//! - `-<text>\r\n` — an error string; the text must be UTF-8
//! - `:<decimal>\r\n` — a non-negative 64-bit integer
//! - `$<len>\r\n<len bytes>\r\n` — a byte string
//! - `$-1\r\n` — the null frame
//! - `*<count>\r\n<count frames>` — an array
//!
//! `spec_parse` is the mathematical reading of a buffer; `Frame::check` and
//! `Frame::parse` are the executable readers, and both are pinned to
//! `spec_parse`: `check` walks past one frame without building it, `parse`
//! builds it. The two therefore accept, refuse, and consume exactly alike.

use crate::bytes_util::is_valid_utf8;
use crate::num::{parse_u64, spec_parse_u64};
use vstd::prelude::*;
use vstd::utf8::valid_utf8;

verus! {

broadcast use {
    vstd::seq::axiom_seq_index_decreases,
    vstd::std_specs::vec::axiom_vec_decreases_to_view,
};

/// One protocol message. Text and byte payloads are byte strings; the
/// presentation layer decides what is shown as text.
pub enum Frame {
    Simple(Vec<u8>),
    Error(Vec<u8>),
    Integer(u64),
    Bulk(Vec<u8>),
    Null,
    Array(Vec<Frame>),
}

/// The mathematical shape of a frame: what the codec contracts speak of.
pub enum FrameModel {
    Simple(Seq<u8>),
    Error(Seq<u8>),
    Integer(u64),
    Bulk(Seq<u8>),
    Null,
    Array(Seq<FrameModel>),
}

pub open spec fn frame_model(f: Frame) -> FrameModel
    decreases f,
    via frame_model_decreases
{
    match f {
        Frame::Simple(s) => FrameModel::Simple(s@),
        Frame::Error(s) => FrameModel::Error(s@),
        Frame::Integer(n) => FrameModel::Integer(n),
        Frame::Bulk(d) => FrameModel::Bulk(d@),
        Frame::Null => FrameModel::Null,
        Frame::Array(items) => FrameModel::Array(frames_model(items@)),
    }
}

/// The models of a run of frames, in order.
pub open spec fn frames_model(s: Seq<Frame>) -> Seq<FrameModel>
    decreases s,
    via frames_model_decreases
{
    if s.len() == 0 {
        Seq::empty()
    } else {
        frames_model(s.subrange(0, s.len() - 1)).push(frame_model(s[s.len() - 1]))
    }
}

#[via_fn]
proof fn frame_model_decreases(f: Frame) {
    match f {
        Frame::Array(items) => {
            vstd::std_specs::vec::axiom_vec_decreases_to_view(items);
            assert(decreases_to!(f => items));
            assert(decreases_to!(items => items@));
        },
        _ => {},
    }
}

#[via_fn]
proof fn frames_model_decreases(s: Seq<Frame>) {
    if s.len() > 0 {
        vstd::seq::axiom_seq_subrange_decreases(s, 0, s.len() - 1);
        vstd::seq::axiom_seq_index_decreases(s, s.len() - 1);
    }
}

impl View for Frame {
    type V = FrameModel;

    open spec fn view(&self) -> FrameModel {
        frame_model(*self)
    }
}

/// Reading one frame from a buffer ends one of three ways.
#[derive(Clone, Copy, Debug, PartialEq, Eq, Structural)]
pub enum Error {
    /// The buffer ends before the frame does; more bytes may complete it.
    Incomplete,
    /// The bytes cannot begin any frame; the connection must be closed.
    Invalid,
}

/// Outcome of the mathematical reading: the frame read and the position
/// just past it, or one of the two failure modes.
pub enum ParseOutcome {
    Parsed(FrameModel, int),
    Incomplete,
    Invalid,
}

/// Outcome of reading a run of consecutive frames.
pub enum ElemsOutcome {
    Parsed(Seq<FrameModel>, int),
    Incomplete,
    Invalid,
}

pub const CR: u8 = 13;

pub const LF: u8 = 10;

/// Position of the first CR/LF pair at or after `pos`, the LF still inside
/// the buffer.
pub open spec fn spec_find_crlf(b: Seq<u8>, pos: int) -> Option<int>
    decreases b.len() - pos,
{
    if pos < 0 || pos + 1 >= b.len() {
        None
    } else if b[pos] == CR && b[pos + 1] == LF {
        Some(pos)
    } else {
        spec_find_crlf(b, pos + 1)
    }
}

/// The line starting at `pos`: its bytes (CR/LF excluded) and the position
/// just past its CR/LF terminator.
pub open spec fn spec_line(b: Seq<u8>, pos: int) -> Option<(Seq<u8>, int)> {
    match spec_find_crlf(b, pos) {
        Some(i) => Some((b.subrange(pos, i), i + 2)),
        None => None,
    }
}

/// The mathematical reading of one frame at `pos`.
pub open spec fn spec_parse(b: Seq<u8>, pos: int) -> ParseOutcome
    decreases b.len() - pos, 0int,
{
    if !(0 <= pos < b.len()) {
        ParseOutcome::Incomplete
    } else {
        let tag = b[pos];
        let p1 = pos + 1;
        if tag == 43 {  // '+'
            match spec_line(b, p1) {
                Some((line, p2)) => if valid_utf8(line) {
                    ParseOutcome::Parsed(FrameModel::Simple(line), p2)
                } else {
                    ParseOutcome::Invalid
                },
                None => ParseOutcome::Incomplete,
            }
        } else if tag == 45 {  // '-'
            match spec_line(b, p1) {
                Some((line, p2)) => if valid_utf8(line) {
                    ParseOutcome::Parsed(FrameModel::Error(line), p2)
                } else {
                    ParseOutcome::Invalid
                },
                None => ParseOutcome::Incomplete,
            }
        } else if tag == 58 {  // ':'
            match spec_line(b, p1) {
                Some((line, p2)) => match spec_parse_u64(line) {
                    Some(n) => ParseOutcome::Parsed(FrameModel::Integer(n), p2),
                    None => ParseOutcome::Invalid,
                },
                None => ParseOutcome::Incomplete,
            }
        } else if tag == 36 {  // '$'
            if p1 >= b.len() {
                ParseOutcome::Incomplete
            } else if b[p1] == 45 {  // '-': only "$-1\r\n" is a frame, the null frame
                match spec_line(b, p1) {
                    Some((line, p2)) => if line == seq![45u8, 49u8] {
                        ParseOutcome::Parsed(FrameModel::Null, p2)
                    } else {
                        ParseOutcome::Invalid
                    },
                    None => ParseOutcome::Incomplete,
                }
            } else {
                match spec_line(b, p1) {
                    Some((line, p2)) => match spec_parse_u64(line) {
                        Some(len) => if p2 + len + 2 <= b.len() {
                            ParseOutcome::Parsed(
                                FrameModel::Bulk(b.subrange(p2, p2 + len)),
                                p2 + len + 2,
                            )
                        } else {
                            ParseOutcome::Incomplete
                        },
                        None => ParseOutcome::Invalid,
                    },
                    None => ParseOutcome::Incomplete,
                }
            }
        } else if tag == 42 {  // '*'
            match spec_line(b, p1) {
                Some((line, p2)) => if !(p1 < p2 <= b.len()) {
                    ParseOutcome::Invalid
                } else {
                    match spec_parse_u64(line) {
                        Some(n) => match spec_parse_elems(b, p2, n as nat) {
                            ElemsOutcome::Parsed(elems, p3) => ParseOutcome::Parsed(
                                FrameModel::Array(elems),
                                p3,
                            ),
                            ElemsOutcome::Incomplete => ParseOutcome::Incomplete,
                            ElemsOutcome::Invalid => ParseOutcome::Invalid,
                        },
                        None => ParseOutcome::Invalid,
                    }
                },
                None => ParseOutcome::Incomplete,
            }
        } else {
            ParseOutcome::Invalid
        }
    }
}

/// The mathematical reading of `n` consecutive frames starting at `pos`.
pub open spec fn spec_parse_elems(b: Seq<u8>, pos: int, n: nat) -> ElemsOutcome
    decreases b.len() - pos, n,
{
    if n == 0 {
        ElemsOutcome::Parsed(Seq::empty(), pos)
    } else {
        match spec_parse(b, pos) {
            ParseOutcome::Parsed(f, p2) => if !(pos < p2 <= b.len()) {
                ElemsOutcome::Invalid
            } else {
                match spec_parse_elems(b, p2, (n - 1) as nat) {
                    ElemsOutcome::Parsed(rest, p3) => ElemsOutcome::Parsed(
                        seq![f] + rest,
                        p3,
                    ),
                    ElemsOutcome::Incomplete => ElemsOutcome::Incomplete,
                    ElemsOutcome::Invalid => ElemsOutcome::Invalid,
                }
            },
            ParseOutcome::Incomplete => ElemsOutcome::Incomplete,
            ParseOutcome::Invalid => ElemsOutcome::Invalid,
        }
    }
}

/// A parsed frame always ends strictly past where it began and inside the
/// buffer; a parsed run of frames never moves backwards.
pub proof fn lemma_parse_bounds(b: Seq<u8>, pos: int)
    ensures
        spec_parse(b, pos) matches ParseOutcome::Parsed(_, end) ==> pos < end <= b.len(),
    decreases b.len() - pos, 0int,
{
    if 0 <= pos < b.len() {
        lemma_find_crlf_bounds(b, pos + 1);
        if b[pos] == 42 {
            if let Some((line, p2)) = spec_line(b, pos + 1) {
                if p2 <= b.len() {
                    if let Some(n) = spec_parse_u64(line) {
                        lemma_parse_elems_bounds(b, p2, n as nat);
                    }
                }
            }
        }
    }
}

pub proof fn lemma_parse_elems_bounds(b: Seq<u8>, pos: int, n: nat)
    ensures
        spec_parse_elems(b, pos, n) matches ElemsOutcome::Parsed(elems, end) ==> {
            &&& pos <= end <= b.len() || n == 0
            &&& n > 0 ==> pos < end <= b.len()
            &&& elems.len() == n
            &&& n == 0 ==> end == pos
        },
    decreases b.len() - pos, n,
{
    if n > 0 {
        lemma_parse_bounds(b, pos);
        if let ParseOutcome::Parsed(f, p2) = spec_parse(b, pos) {
            if pos < p2 <= b.len() {
                lemma_parse_elems_bounds(b, p2, (n - 1) as nat);
            }
        }
    }
}

/// A found CR/LF pair lies at or after the start of the search and its LF
/// is inside the buffer.
pub proof fn lemma_find_crlf_bounds(b: Seq<u8>, pos: int)
    ensures
        spec_find_crlf(b, pos) matches Some(i) ==> pos <= i && i + 2 <= b.len(),
    decreases b.len() - pos,
{
    if !(pos < 0 || pos + 1 >= b.len()) {
        if !(b[pos] == CR && b[pos + 1] == LF) {
            lemma_find_crlf_bounds(b, pos + 1);
        }
    }
}

/// The byte at `pos`, the position unchanged.
pub fn peek_u8(src: &[u8], pos: usize) -> (r: Result<u8, Error>)
    ensures
        match r {
            Ok(b) => pos < src@.len() && b == src@[pos as int],
            Err(e) => e is Incomplete && pos >= src@.len(),
        },
{
    if pos < src.len() {
        Ok(src[pos])
    } else {
        Err(Error::Incomplete)
    }
}

/// The byte at `pos` and the position just past it.
pub fn get_u8(src: &[u8], pos: usize) -> (r: Result<(u8, usize), Error>)
    ensures
        match r {
            Ok(t) => pos < src@.len() && t.0 == src@[pos as int] && t.1 == pos + 1,
            Err(e) => e is Incomplete && pos >= src@.len(),
        },
{
    if pos < src.len() {
        Ok((src[pos], pos + 1))
    } else {
        Err(Error::Incomplete)
    }
}

/// The position `n` bytes past `pos`, if that many are buffered.
pub fn skip(src: &[u8], pos: usize, n: usize) -> (r: Result<usize, Error>)
    ensures
        match r {
            Ok(p2) => pos + n <= src@.len() && p2 == pos + n,
            Err(e) => e is Incomplete && pos + n > src@.len(),
        },
{
    if n <= src.len() && pos <= src.len() - n {
        Ok(pos + n)
    } else {
        Err(Error::Incomplete)
    }
}

/// The bounds of the line starting at `pos`: where its text ends and
/// the position just past its CR/LF terminator. Copies nothing.
pub fn find_line(src: &[u8], pos: usize) -> (r: Result<(usize, usize), Error>)
    ensures
        match r {
            Ok(t) => {
                &&& spec_line(src@, pos as int) matches Some(lp) && lp.0 == src@.subrange(
                    pos as int,
                    t.0 as int,
                ) && lp.1 == t.1 as int
                &&& pos <= t.0 && t.0 + 2 == t.1 && t.1 <= src@.len()
            },
            Err(e) => e is Incomplete && spec_line(src@, pos as int) is None,
        },
{
    let n = src.len();
    if n < 2 {
        return Err(Error::Incomplete);
    }
    let mut i: usize = pos;
    while i < n - 1
        invariant
            pos <= i,
            n == src@.len(),
            2 <= n,
            spec_find_crlf(src@, pos as int) == spec_find_crlf(src@, i as int),
        decreases n - i,
    {
        if src[i] == CR && src[i + 1] == LF {
            assert(spec_find_crlf(src@, i as int) == Some(i as int));
            return Ok((i, i + 2));
        }
        i = i + 1;
    }
    Err(Error::Incomplete)
}

/// The line starting at `pos`, copied out: its bytes, CR/LF excluded,
/// and the position just past the CR/LF pair that ends it.
pub fn get_line(src: &[u8], pos: usize) -> (r: Result<(Vec<u8>, usize), Error>)
    ensures
        match r {
            Ok(t) => {
                &&& spec_line(src@, pos as int) matches Some(lp) && lp.0 == t.0@ && lp.1
                    == t.1 as int
                &&& pos + 2 <= t.1 <= src@.len()
            },
            Err(e) => e is Incomplete && spec_line(src@, pos as int) is None,
        },
{
    match find_line(src, pos) {
        Ok((i, p2)) => {
            let line = vstd::slice::slice_to_vec(&src[pos..i]);
            Ok((line, p2))
        },
        Err(e) => Err(e),
    }
}

/// The decimal line starting at `pos`: its value and the position just
/// past the line. A line that is not a plain decimal number is invalid.
pub fn get_decimal(src: &[u8], pos: usize) -> (r: Result<(u64, usize), Error>)
    ensures
        match r {
            Ok(t) => {
                &&& spec_line(src@, pos as int) matches Some(lp) && spec_parse_u64(lp.0)
                    == Some(t.0) && lp.1 == t.1 as int
                &&& pos + 2 <= t.1 <= src@.len()
            },
            Err(Error::Incomplete) => spec_line(src@, pos as int) is None,
            Err(Error::Invalid) => spec_line(src@, pos as int) matches Some(lp)
                && spec_parse_u64(lp.0) is None,
        },
{
    match find_line(src, pos) {
        Ok((i, p2)) => match parse_u64(&src[pos..i]) {
            Some(v) => Ok((v, p2)),
            None => Err(Error::Invalid),
        },
        Err(e) => Err(e),
    }
}

impl Frame {
    /// Walks past one whole frame without building it. Consumes exactly
    /// what `parse` would and fails exactly where `parse` would: both are
    /// readings of `spec_parse`.
    pub fn check(src: &[u8], pos: usize) -> (r: Result<usize, Error>)
        ensures
            match r {
                Ok(p2) => spec_parse(src@, pos as int) matches ParseOutcome::Parsed(_, end)
                    && end == p2 as int,
                Err(Error::Incomplete) => spec_parse(src@, pos as int) is Incomplete,
                Err(Error::Invalid) => spec_parse(src@, pos as int) is Invalid,
            },
        decreases src@.len() - pos,
    {
        let (tag, p1) = match get_u8(src, pos) {
            Ok(t) => t,
            Err(_) => {
                return Err(Error::Incomplete);
            },
        };
        if tag == 43 || tag == 45 {
            match find_line(src, p1) {
                Ok((i, p2)) => {
                    if is_valid_utf8(&src[p1..i]) {
                        Ok(p2)
                    } else {
                        Err(Error::Invalid)
                    }
                },
                Err(_) => Err(Error::Incomplete),
            }
        } else if tag == 58 {
            match get_decimal(src, p1) {
                Ok((_v, p2)) => Ok(p2),
                Err(e) => Err(e),
            }
        } else if tag == 36 {
            let b = match peek_u8(src, p1) {
                Ok(b) => b,
                Err(_) => {
                    return Err(Error::Incomplete);
                },
            };
            if b == 45 {
                match find_line(src, p1) {
                    Ok((i, p2)) => {
                        if i - p1 == 2 && src[p1] == 45 && src[p1 + 1] == 49 {
                            assert(src@.subrange(p1 as int, i as int) =~= seq![
                                45u8, 49u8,
                            ]);
                            Ok(p2)
                        } else {
                            assert(src@.subrange(p1 as int, i as int) != seq![
                                45u8, 49u8,
                            ]);
                            Err(Error::Invalid)
                        }
                    },
                    Err(_) => Err(Error::Incomplete),
                }
            } else {
                match get_decimal(src, p1) {
                    Ok((len, p2)) => {
                        let rem = (src.len() - p2) as u64;
                        if rem >= 2 && len <= rem - 2 {
                            Ok(p2 + (len as usize) + 2)
                        } else {
                            Err(Error::Incomplete)
                        }
                    },
                    Err(e) => Err(e),
                }
            }
        } else if tag == 42 {
            match get_decimal(src, p1) {
                Ok((n, p2)) => {
                    let ghost b = src@;
                    let ghost orig = spec_parse_elems(b, p2 as int, n as nat);
                    let mut cur: usize = p2;
                    let mut i: u64 = 0;
                    while i < n
                        invariant
                            i <= n,
                            b == src@,
                            pos < p2 <= cur <= b.len(),
                            orig == spec_parse_elems(b, p2 as int, n as nat),
                            match spec_parse_elems(b, cur as int, (n - i) as nat) {
                                ElemsOutcome::Parsed(_, p) => orig matches
                                    ElemsOutcome::Parsed(_, pa) && pa == p,
                                ElemsOutcome::Incomplete => orig is Incomplete,
                                ElemsOutcome::Invalid => orig is Invalid,
                            },
                            match orig {
                                ElemsOutcome::Parsed(_, p) => spec_parse(b, pos as int)
                                    matches ParseOutcome::Parsed(_, pa) && pa == p,
                                ElemsOutcome::Incomplete => spec_parse(b, pos as int)
                                    is Incomplete,
                                ElemsOutcome::Invalid => spec_parse(b, pos as int)
                                    is Invalid,
                            },
                        decreases n - i,
                    {
                        match Frame::check(src, cur) {
                            Ok(nxt) => {
                                proof {
                                    lemma_parse_bounds(b, cur as int);
                                }
                                cur = nxt;
                                i = i + 1;
                            },
                            Err(e) => {
                                return Err(e);
                            },
                        }
                    }
                    Ok(cur)
                },
                Err(e) => Err(e),
            }
        } else {
            Err(Error::Invalid)
        }
    }

    /// Reads one whole frame. Accepts, refuses, and consumes exactly as
    /// `check` does; on success the returned frame is the one `spec_parse`
    /// names, and the returned position is just past it.
    pub fn parse(src: &[u8], pos: usize) -> (r: Result<(Frame, usize), Error>)
        ensures
            match r {
                Ok(t) => spec_parse(src@, pos as int) == ParseOutcome::Parsed(
                    t.0@,
                    t.1 as int,
                ),
                Err(Error::Incomplete) => spec_parse(src@, pos as int) is Incomplete,
                Err(Error::Invalid) => spec_parse(src@, pos as int) is Invalid,
            },
        decreases src@.len() - pos,
    {
        let (tag, p1) = match get_u8(src, pos) {
            Ok(t) => t,
            Err(_) => {
                return Err(Error::Incomplete);
            },
        };
        if tag == 43 {
            match get_line(src, p1) {
                Ok((line, p2)) => {
                    if is_valid_utf8(line.as_slice()) {
                        Ok((Frame::Simple(line), p2))
                    } else {
                        Err(Error::Invalid)
                    }
                },
                Err(_) => Err(Error::Incomplete),
            }
        } else if tag == 45 {
            match get_line(src, p1) {
                Ok((line, p2)) => {
                    if is_valid_utf8(line.as_slice()) {
                        Ok((Frame::Error(line), p2))
                    } else {
                        Err(Error::Invalid)
                    }
                },
                Err(_) => Err(Error::Incomplete),
            }
        } else if tag == 58 {
            match get_decimal(src, p1) {
                Ok((v, p2)) => Ok((Frame::Integer(v), p2)),
                Err(e) => Err(e),
            }
        } else if tag == 36 {
            let b = match peek_u8(src, p1) {
                Ok(b) => b,
                Err(_) => {
                    return Err(Error::Incomplete);
                },
            };
            if b == 45 {
                match get_line(src, p1) {
                    Ok((line, p2)) => {
                        if line.len() == 2 && line[0] == 45 && line[1] == 49 {
                            assert(line@ =~= seq![45u8, 49u8]);
                            Ok((Frame::Null, p2))
                        } else {
                            assert(line@ != seq![45u8, 49u8]);
                            Err(Error::Invalid)
                        }
                    },
                    Err(_) => Err(Error::Incomplete),
                }
            } else {
                match get_decimal(src, p1) {
                    Ok((len, p2)) => {
                        let rem = (src.len() - p2) as u64;
                        if rem >= 2 && len <= rem - 2 {
                            let l = len as usize;
                            let data = vstd::slice::slice_to_vec(&src[p2..p2 + l]);
                            Ok((Frame::Bulk(data), p2 + l + 2))
                        } else {
                            Err(Error::Incomplete)
                        }
                    },
                    Err(e) => Err(e),
                }
            }
        } else if tag == 42 {
            match get_decimal(src, p1) {
                Ok((n, p2)) => {
                    let ghost b = src@;
                    let ghost orig = spec_parse_elems(b, p2 as int, n as nat);
                    let mut out: Vec<Frame> = Vec::new();
                    let mut cur: usize = p2;
                    let mut i: u64 = 0;
                    assert(frames_model(out@) =~= Seq::<FrameModel>::empty());
                    while i < n
                        invariant
                            i <= n,
                            b == src@,
                            pos < p2 <= cur <= b.len(),
                            orig == spec_parse_elems(b, p2 as int, n as nat),
                            match spec_parse_elems(b, cur as int, (n - i) as nat) {
                                ElemsOutcome::Parsed(s, p) => orig matches
                                    ElemsOutcome::Parsed(sa, pa) && pa == p && sa
                                    == frames_model(out@) + s,
                                ElemsOutcome::Incomplete => orig is Incomplete,
                                ElemsOutcome::Invalid => orig is Invalid,
                            },
                            match orig {
                                ElemsOutcome::Parsed(_, p) => spec_parse(b, pos as int)
                                    matches ParseOutcome::Parsed(_, pa) && pa == p,
                                ElemsOutcome::Incomplete => spec_parse(b, pos as int)
                                    is Incomplete,
                                ElemsOutcome::Invalid => spec_parse(b, pos as int)
                                    is Invalid,
                            },
                            spec_parse(b, pos as int) matches ParseOutcome::Parsed(fm, _)
                                ==> (orig matches ElemsOutcome::Parsed(sa, _) && fm
                                == FrameModel::Array(sa)),
                        decreases n - i,
                    {
                        match Frame::parse(src, cur) {
                            Ok((f, nxt)) => {
                                proof {
                                    lemma_parse_bounds(b, cur as int);
                                }
                                let ghost prev = out@;
                                out.push(f);
                                proof {
                                    lemma_frames_model_push(prev, f);
                                    if let ElemsOutcome::Parsed(s, _) = spec_parse_elems(
                                        b,
                                        nxt as int,
                                        (n - i - 1) as nat,
                                    ) {
                                        assert(frames_model(prev) + (seq![f@] + s)
                                            =~= frames_model(prev).push(f@) + s);
                                    }
                                }
                                cur = nxt;
                                i = i + 1;
                            },
                            Err(e) => {
                                return Err(e);
                            },
                        }
                    }
                    proof {
                        if let ElemsOutcome::Parsed(sa, _) = orig {
                            assert(frames_model(out@) + Seq::<FrameModel>::empty()
                                =~= frames_model(out@));
                        }
                    }
                    Ok((Frame::Array(out), cur))
                },
                Err(e) => Err(e),
            }
        } else {
            Err(Error::Invalid)
        }
    }
}

impl Frame {
    /// An empty array frame, ready to take reply parts.
    pub fn array() -> (f: Frame)
        ensures
            f@ == FrameModel::Array(Seq::<FrameModel>::empty()),
    {
        let f = Frame::Array(Vec::new());
        proof {
            assert(frames_model(Seq::<Frame>::empty()) =~= Seq::<FrameModel>::empty());
        }
        f
    }

    /// Appends a byte-string frame to this array frame.
    pub fn push_bulk(&mut self, bytes: Vec<u8>)
        requires
            old(self)@ is Array,
        ensures
            final(self)@ == FrameModel::Array(
                old(self)@->Array_0.push(FrameModel::Bulk(bytes@)),
            ),
    {
        let x = Frame::Bulk(bytes);
        let ghost gx = x;
        match self {
            Frame::Array(items) => {
                let ghost prev = items@;
                items.push(x);
                proof {
                    lemma_frames_model_push(prev, gx);
                }
            },
            _ => {
                proof {
                    assert(false);
                }
            },
        }
    }

    /// Appends an integer frame to this array frame.
    pub fn push_int(&mut self, value: u64)
        requires
            old(self)@ is Array,
        ensures
            final(self)@ == FrameModel::Array(
                old(self)@->Array_0.push(FrameModel::Integer(value)),
            ),
    {
        let x = Frame::Integer(value);
        let ghost gx = x;
        match self {
            Frame::Array(items) => {
                let ghost prev = items@;
                items.push(x);
                proof {
                    lemma_frames_model_push(prev, gx);
                }
            },
            _ => {
                proof {
                    assert(false);
                }
            },
        }
    }

    /// True when this frame carries exactly the given text, as a simple
    /// string or as a byte string.
    pub fn is_text(&self, text: &[u8]) -> (r: bool)
        ensures
            r == ((self@ matches FrameModel::Simple(s) && s == text@) || (self@ matches
                FrameModel::Bulk(s) && s == text@)),
    {
        match self {
            Frame::Simple(s) => crate::bytes_util::bytes_eq(s.as_slice(), text),
            Frame::Bulk(s) => crate::bytes_util::bytes_eq(s.as_slice(), text),
            _ => false,
        }
    }
}

/// Appending one frame to a run appends its model to the run's models.
pub proof fn lemma_frames_model_push(s: Seq<Frame>, x: Frame)
    ensures
        frames_model(s.push(x)) == frames_model(s).push(frame_model(x)),
{
    assert(s.push(x).subrange(0, s.push(x).len() - 1) =~= s);
    assert(s.push(x)[s.push(x).len() - 1] == x);
}

} // verus!

//! Laws of the frame codec.
//!
//! The round-trip law: writing a well-formed frame and reading the bytes
//! back — with anything at all appended — yields the same frame and
//! consumes exactly its wire image.

use crate::encode::{crlf, frame_bytes, frames_bytes, wf_frame, wf_literal};
use crate::frame::{
    lemma_find_crlf_bounds, lemma_parse_bounds, spec_find_crlf, spec_line, spec_parse,
    spec_parse_elems, ElemsOutcome, FrameModel, ParseOutcome, CR, LF,
};
use crate::num::{
    all_digits, is_digit, lemma_fmt_nat_digits, lemma_fmt_nat_value, spec_fmt_nat,
    spec_parse_u64,
};
use vstd::prelude::*;

verus! {

/// `s` lies in `b` starting at `pos`.
pub open spec fn bytes_at(b: Seq<u8>, pos: int, s: Seq<u8>) -> bool {
    &&& 0 <= pos
    &&& pos + s.len() <= b.len()
    &&& b.subrange(pos, pos + s.len()) == s
}

proof fn lemma_bytes_at_index(b: Seq<u8>, pos: int, s: Seq<u8>)
    requires
        bytes_at(b, pos, s),
    ensures
        forall|i: int| 0 <= i < s.len() ==> b[pos + i] == #[trigger] s[i],
{
    assert forall|i: int| 0 <= i < s.len() implies b[pos + i] == #[trigger] s[i] by {
        assert(b.subrange(pos, pos + s.len())[i] == b[pos + i]);
    }
}

proof fn lemma_bytes_at_sub(b: Seq<u8>, pos: int, s: Seq<u8>, a: int, c: int)
    requires
        bytes_at(b, pos, s),
        0 <= a <= c <= s.len(),
    ensures
        bytes_at(b, pos + a, s.subrange(a, c)),
{
    lemma_bytes_at_index(b, pos, s);
    assert(b.subrange(pos + a, pos + a + s.subrange(a, c).len()) =~= s.subrange(a, c));
}

/// Where a line's text holds no CR, the first CR/LF pair is the
/// terminator written after it.
proof fn lemma_find_crlf_at(b: Seq<u8>, pos: int, k: int)
    requires
        0 <= pos,
        0 <= k,
        pos + k + 2 <= b.len(),
        forall|j: int| pos <= j < pos + k ==> #[trigger] b[j] != CR,
        b[pos + k] == CR,
        b[pos + k + 1] == LF,
    ensures
        spec_find_crlf(b, pos) == Some(pos + k),
    decreases k,
{
    if k > 0 {
        lemma_find_crlf_at(b, pos + 1, k - 1);
    }
}

/// A wire image is at least a tag byte and a line terminator long.
proof fn lemma_frame_bytes_nonempty(v: FrameModel)
    ensures
        frame_bytes(v).len() >= 3,
{
}

/// A terminated line whose text holds no CR reads back as that text.
proof fn lemma_line_at(b: Seq<u8>, pos: int, s: Seq<u8>)
    requires
        bytes_at(b, pos, s + crlf()),
        forall|j: int| 0 <= j < s.len() ==> #[trigger] s[j] != CR,
    ensures
        spec_line(b, pos) == Some((s, pos + s.len() + 2)),
{
    lemma_bytes_at_index(b, pos, s + crlf());
    assert forall|j: int| pos <= j < pos + s.len() implies #[trigger] b[j] != CR by {
        assert(b[j] == (s + crlf())[j - pos]);
        assert((s + crlf())[j - pos] == s[j - pos]);
    }
    assert(b[pos + s.len()] == (s + crlf())[s.len() as int]);
    assert(b[pos + s.len() + 1] == (s + crlf())[(s.len() + 1) as int]);
    lemma_find_crlf_at(b, pos, s.len() as int);
    assert(b.subrange(pos, pos + s.len()) =~= s) by {
        lemma_bytes_at_index(b, pos, s + crlf());
        assert forall|i: int| 0 <= i < s.len() implies b.subrange(pos, pos + s.len())[i]
            == s[i] by {
            assert(b[pos + i] == (s + crlf())[i]);
        }
    }
}

/// Digit strings hold no CR.
proof fn lemma_digits_no_cr(s: Seq<u8>)
    requires
        all_digits(s),
    ensures
        forall|j: int| 0 <= j < s.len() ==> #[trigger] s[j] != CR,
{
}

/// A rendered decimal line reads back as the number it renders.
proof fn lemma_decimal_line_at(b: Seq<u8>, pos: int, n: nat)
    requires
        bytes_at(b, pos, spec_fmt_nat(n) + crlf()),
        n <= u64::MAX,
    ensures
        spec_line(b, pos) matches Some(lp) && lp.0 == spec_fmt_nat(n) && lp.1 == pos
            + spec_fmt_nat(n).len() + 2,
        spec_parse_u64(spec_fmt_nat(n)) == Some(n as u64),
{
    lemma_fmt_nat_digits(n);
    lemma_fmt_nat_value(n);
    lemma_digits_no_cr(spec_fmt_nat(n));
    lemma_line_at(b, pos, spec_fmt_nat(n));
}

/// A literal's wire image at `pos` parses back as the literal.
proof fn lemma_parse_literal_bytes(b: Seq<u8>, pos: int, v: FrameModel)
    requires
        wf_literal(v),
        bytes_at(b, pos, frame_bytes(v)),
    ensures
        spec_parse(b, pos) == ParseOutcome::Parsed(v, pos + frame_bytes(v).len()),
{
    let sv = frame_bytes(v);
    lemma_bytes_at_index(b, pos, sv);
    assert(b[pos] == sv[0]);
    match v {
        FrameModel::Simple(s) => {
            assert(sv =~= seq![43u8] + (s + crlf()));
            lemma_bytes_at_sub(b, pos, sv, 1, sv.len() as int);
            assert(sv.subrange(1, sv.len() as int) =~= s + crlf());
            lemma_line_at(b, pos + 1, s);
        },
        FrameModel::Error(s) => {
            assert(sv =~= seq![45u8] + (s + crlf()));
            lemma_bytes_at_sub(b, pos, sv, 1, sv.len() as int);
            assert(sv.subrange(1, sv.len() as int) =~= s + crlf());
            lemma_line_at(b, pos + 1, s);
        },
        FrameModel::Integer(n) => {
            assert(sv =~= seq![58u8] + (spec_fmt_nat(n as nat) + crlf()));
            lemma_bytes_at_sub(b, pos, sv, 1, sv.len() as int);
            assert(sv.subrange(1, sv.len() as int) =~= spec_fmt_nat(n as nat) + crlf());
            lemma_decimal_line_at(b, pos + 1, n as nat);
        },
        FrameModel::Null => {
            assert(b[pos + 1] == sv[1]);
            assert(b[pos + 2] == sv[2]);
            assert(b[pos + 3] == sv[3]);
            assert(b[pos + 4] == sv[4]);
            lemma_find_crlf_at(b, pos + 1, 2);
            assert(spec_line(b, pos + 1) matches Some(lp) && lp.0 == b.subrange(
                pos + 1,
                pos + 3,
            ));
            assert(b.subrange(pos + 1, pos + 3) =~= seq![45u8, 49u8]);
        },
        FrameModel::Bulk(d) => {
            let dd = spec_fmt_nat(d.len());
            lemma_fmt_nat_digits(d.len());
            assert(sv =~= seq![36u8] + (dd + crlf()) + d + crlf());
            lemma_bytes_at_sub(b, pos, sv, 1, (1 + dd.len() + 2) as int);
            assert(sv.subrange(1, (1 + dd.len() + 2) as int) =~= dd + crlf());
            lemma_decimal_line_at(b, pos + 1, d.len());
            // The tag is '$' and the first line byte is a digit, not '-'.
            assert(b[pos + 1] == sv[1]);
            assert(sv[1] == dd[0]);
            assert(is_digit(dd[0]));
            // The data and its terminator lie where the reader looks.
            let p2 = pos + 1 + dd.len() + 2;
            lemma_bytes_at_sub(b, pos, sv, (1 + dd.len() + 2) as int, sv.len() as int);
            assert(sv.subrange((1 + dd.len() + 2) as int, sv.len() as int) =~= d + crlf());
            lemma_bytes_at_index(b, p2, d + crlf());
            assert(b.subrange(p2, p2 + d.len()) =~= d) by {
                assert forall|i: int| 0 <= i < d.len() implies b.subrange(
                    p2,
                    p2 + d.len(),
                )[i] == d[i] by {
                    assert(b[p2 + i] == (d + crlf())[i]);
                }
            }
            assert(spec_parse(b, pos) == ParseOutcome::Parsed(
                FrameModel::Bulk(d),
                pos + sv.len(),
            ));
        },
        FrameModel::Array(_) => {
            assert(false);
        },
    }
}

/// The concatenated wire images of a run of literals parse back as that
/// run.
proof fn lemma_parse_elems_bytes(b: Seq<u8>, pos: int, es: Seq<FrameModel>)
    requires
        0 <= pos,
        forall|i: int| 0 <= i < es.len() ==> wf_literal(#[trigger] es[i]),
        bytes_at(b, pos, frames_bytes(es)),
    ensures
        spec_parse_elems(b, pos, es.len()) == ElemsOutcome::Parsed(
            es,
            pos + frames_bytes(es).len(),
        ),
    decreases es.len(),
{
    if es.len() == 0 {
        assert(spec_parse_elems(b, pos, 0) == ElemsOutcome::Parsed(
            Seq::<FrameModel>::empty(),
            pos,
        ));
        assert(es =~= Seq::<FrameModel>::empty());
    } else {
        let head = es[0];
        let tail = es.subrange(1, es.len() as int);
        let hb = frame_bytes(head);
        assert(frames_bytes(es) == hb + frames_bytes(tail));
        lemma_bytes_at_sub(b, pos, frames_bytes(es), 0, hb.len() as int);
        assert(frames_bytes(es).subrange(0, hb.len() as int) =~= hb);
        lemma_parse_literal_bytes(b, pos, head);
        lemma_frame_bytes_nonempty(head);
        let p2 = pos + hb.len();
        lemma_bytes_at_sub(b, pos, frames_bytes(es), hb.len() as int, frames_bytes(
            es,
        ).len() as int);
        assert(frames_bytes(es).subrange(hb.len() as int, frames_bytes(es).len() as int)
            =~= frames_bytes(tail));
        lemma_parse_elems_bytes(b, p2, tail);
        assert(seq![head] + tail =~= es);
    }
}

/// A well-formed frame's wire image at `pos` parses back as the frame.
pub proof fn lemma_parse_frame_bytes(b: Seq<u8>, pos: int, v: FrameModel)
    requires
        wf_frame(v),
        bytes_at(b, pos, frame_bytes(v)),
    ensures
        spec_parse(b, pos) == ParseOutcome::Parsed(v, pos + frame_bytes(v).len()),
{
    match v {
        FrameModel::Array(es) => {
            let sv = frame_bytes(v);
            let cd = spec_fmt_nat(es.len());
            lemma_fmt_nat_digits(es.len());
            lemma_bytes_at_index(b, pos, sv);
            assert(b[pos] == sv[0]);
            assert(sv =~= seq![42u8] + (cd + crlf()) + frames_bytes(es));
            lemma_bytes_at_sub(b, pos, sv, 1, (1 + cd.len() + 2) as int);
            assert(sv.subrange(1, (1 + cd.len() + 2) as int) =~= cd + crlf());
            lemma_decimal_line_at(b, pos + 1, es.len());
            let p2 = pos + 1 + cd.len() + 2;
            lemma_bytes_at_sub(b, pos, sv, (1 + cd.len() + 2) as int, sv.len() as int);
            assert(sv.subrange((1 + cd.len() + 2) as int, sv.len() as int) =~= frames_bytes(es));
            lemma_parse_elems_bytes(b, p2, es);
            assert(spec_parse(b, pos) == ParseOutcome::Parsed(v, pos + sv.len()));
        },
        _ => {
            lemma_parse_literal_bytes(b, pos, v);
        },
    }
}

/// The first CR/LF pair found in a buffer is still the one found after
/// more bytes arrive.
proof fn lemma_find_crlf_stable(b: Seq<u8>, ext: Seq<u8>, pos: int)
    requires
        spec_find_crlf(b, pos) is Some,
    ensures
        spec_find_crlf(b + ext, pos) == spec_find_crlf(b, pos),
    decreases b.len() - pos,
{
    if !(pos < 0 || pos + 1 >= b.len()) {
        assert((b + ext)[pos] == b[pos]);
        assert((b + ext)[pos + 1] == b[pos + 1]);
        if !(b[pos] == CR && b[pos + 1] == LF) {
            lemma_find_crlf_stable(b, ext, pos + 1);
        }
    }
}

/// A whole line, once present, does not change as more bytes arrive.
proof fn lemma_line_stable(b: Seq<u8>, ext: Seq<u8>, pos: int)
    requires
        spec_line(b, pos) is Some,
    ensures
        spec_line(b + ext, pos) == spec_line(b, pos),
{
    lemma_find_crlf_stable(b, ext, pos);
    lemma_find_crlf_bounds(b, pos);
    if let Some(i) = spec_find_crlf(b, pos) {
        assert((b + ext).subrange(pos, i) =~= b.subrange(pos, i));
    }
}

/// A frame already read in full does not change as more bytes arrive.
pub proof fn lemma_parse_stable(b: Seq<u8>, ext: Seq<u8>, pos: int)
    requires
        spec_parse(b, pos) is Parsed,
    ensures
        spec_parse(b + ext, pos) == spec_parse(b, pos),
    decreases b.len() - pos, 0int,
{
    let full = b + ext;
    let tag = b[pos];
    assert(full[pos] == b[pos]);
    let p1 = pos + 1;
    if tag == 43 || tag == 45 || tag == 58 {
        lemma_line_stable(b, ext, p1);
    } else if tag == 36 {
        assert(full[p1] == b[p1]);
        if b[p1] == 45 {
            lemma_line_stable(b, ext, p1);
        } else {
            lemma_line_stable(b, ext, p1);
            lemma_find_crlf_bounds(b, p1);
            if let Some((line, p2)) = spec_line(b, p1) {
                if let Some(len) = spec_parse_u64(line) {
                    if p2 + len + 2 <= b.len() {
                        assert(full.subrange(p2, p2 + len) =~= b.subrange(p2, p2 + len));
                    }
                }
            }
        }
    } else if tag == 42 {
        lemma_line_stable(b, ext, p1);
        lemma_find_crlf_bounds(b, p1);
        if let Some((line, p2)) = spec_line(b, p1) {
            if p1 < p2 <= b.len() {
                if let Some(n) = spec_parse_u64(line) {
                    lemma_parse_elems_stable(b, ext, p2, n as nat);
                }
            }
        }
    }
}

/// A run of frames already read in full does not change as more bytes
/// arrive.
proof fn lemma_parse_elems_stable(b: Seq<u8>, ext: Seq<u8>, pos: int, n: nat)
    requires
        spec_parse_elems(b, pos, n) is Parsed,
    ensures
        spec_parse_elems(b + ext, pos, n) == spec_parse_elems(b, pos, n),
    decreases b.len() - pos, n,
{
    if n > 0 {
        lemma_parse_stable(b, ext, pos);
        if let ParseOutcome::Parsed(f, p2) = spec_parse(b, pos) {
            if pos < p2 <= b.len() {
                lemma_parse_elems_stable(b, ext, p2, (n - 1) as nat);
            }
        }
    }
}

/// A prefix of a buffer that parses is never invalid: it is either still
/// incomplete or already parses the same way. (A prefix of a buffer that
/// does not parse has no such warrant: ":a" is incomplete, yet its
/// extension ":a\r\n" is invalid.)
pub proof fn lemma_prefix_never_invalid(b: Seq<u8>, ext: Seq<u8>, pos: int)
    requires
        spec_parse(b + ext, pos) is Parsed,
    ensures
        spec_parse(b, pos) is Incomplete || spec_parse(b, pos) == spec_parse(b + ext, pos),
    decreases b.len() + ext.len() - pos, 0int,
{
    let full = b + ext;
    if pos < b.len() {
        let tag = b[pos];
        assert(full[pos] == b[pos]);
        let p1 = pos + 1;
        if tag == 43 || tag == 45 || tag == 58 {
            if spec_line(b, p1) is Some {
                lemma_line_stable(b, ext, p1);
            }
        } else if tag == 36 {
            if p1 < b.len() {
                assert(full[p1] == b[p1]);
                if spec_line(b, p1) is Some {
                    lemma_line_stable(b, ext, p1);
                    lemma_find_crlf_bounds(b, p1);
                    if b[p1] != 45 {
                        if let Some((line, p2)) = spec_line(b, p1) {
                            if let Some(len) = spec_parse_u64(line) {
                                if p2 + len + 2 <= b.len() {
                                    assert(full.subrange(p2, p2 + len) =~= b.subrange(
                                        p2,
                                        p2 + len,
                                    ));
                                }
                            }
                        }
                    }
                }
            }
        } else if tag == 42 {
            if spec_line(b, p1) is Some {
                lemma_line_stable(b, ext, p1);
                lemma_find_crlf_bounds(b, p1);
                if let Some((line, p2)) = spec_line(b, p1) {
                    if p1 < p2 <= b.len() {
                        if let Some(n) = spec_parse_u64(line) {
                            lemma_prefix_elems_never_invalid(b, ext, p2, n as nat);
                        }
                    }
                }
            }
        }
    }
}

/// The run-of-frames side of `lemma_prefix_never_invalid`.
proof fn lemma_prefix_elems_never_invalid(b: Seq<u8>, ext: Seq<u8>, pos: int, n: nat)
    requires
        spec_parse_elems(b + ext, pos, n) is Parsed,
    ensures
        spec_parse_elems(b, pos, n) is Incomplete || spec_parse_elems(b, pos, n)
            == spec_parse_elems(b + ext, pos, n),
    decreases b.len() + ext.len() - pos, n,
{
    let full = b + ext;
    if n > 0 {
        lemma_parse_bounds(full, pos);
        if let ParseOutcome::Parsed(ff, fp2) = spec_parse(full, pos) {
            lemma_prefix_never_invalid(b, ext, pos);
            if spec_parse(b, pos) == spec_parse(full, pos) {
                lemma_parse_bounds(b, pos);
                lemma_prefix_elems_never_invalid(b, ext, fp2, (n - 1) as nat);
            }
        }
    }
}

/// Round trip: the wire image of a well-formed frame, with anything at all
/// appended, reads back as exactly that frame, consuming exactly the image.
pub proof fn lemma_frame_round_trip(v: FrameModel, rest: Seq<u8>)
    requires
        wf_frame(v),
    ensures
        spec_parse(frame_bytes(v) + rest, 0) == ParseOutcome::Parsed(
            v,
            frame_bytes(v).len() as int,
        ),
{
    let b = frame_bytes(v) + rest;
    assert(b.subrange(0, frame_bytes(v).len() as int) =~= frame_bytes(v));
    lemma_parse_frame_bytes(b, 0, v);
}

} // verus!

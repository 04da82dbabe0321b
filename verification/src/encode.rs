//! Writing frames to bytes.
//!
//! `frame_bytes` is the wire image of a frame. The executable writer
//! handles every literal frame and arrays of literals; it does not write
//! nested arrays, which the server never produces.

use crate::frame::{frame_model, frames_model, Frame, FrameModel, CR, LF};
use crate::num::{format_u64, spec_fmt_nat};
use vstd::prelude::*;
use vstd::utf8::valid_utf8;

verus! {

/// The two-byte line terminator.
pub open spec fn crlf() -> Seq<u8> {
    seq![CR, LF]
}

/// The wire image of one frame.
pub open spec fn frame_bytes(v: FrameModel) -> Seq<u8>
    decreases v,
{
    match v {
        FrameModel::Simple(s) => seq![43u8] + s + crlf(),
        FrameModel::Error(s) => seq![45u8] + s + crlf(),
        FrameModel::Integer(n) => seq![58u8] + spec_fmt_nat(n as nat) + crlf(),
        FrameModel::Bulk(d) => seq![36u8] + spec_fmt_nat(d.len()) + crlf() + d + crlf(),
        FrameModel::Null => seq![36u8, 45u8, 49u8, CR, LF],
        FrameModel::Array(es) => seq![42u8] + spec_fmt_nat(es.len()) + crlf() + frames_bytes(
            es,
        ),
    }
}

/// The wire image of a run of frames, in order.
pub open spec fn frames_bytes(s: Seq<FrameModel>) -> Seq<u8>
    decreases s,
    via frames_bytes_decreases
{
    if s.len() == 0 {
        Seq::empty()
    } else {
        frame_bytes(s[0]) + frames_bytes(s.subrange(1, s.len() as int))
    }
}

#[via_fn]
proof fn frames_bytes_decreases(s: Seq<FrameModel>) {
    if s.len() > 0 {
        vstd::seq::axiom_seq_index_decreases(s, 0);
        vstd::seq::axiom_seq_subrange_decreases(s, 1, s.len() as int);
    }
}

/// Text that may stand on a protocol line: no CR and no LF inside.
pub open spec fn text_ok(s: Seq<u8>) -> bool {
    forall|i: int| 0 <= i < s.len() ==> #[trigger] s[i] != CR && s[i] != LF
}

/// A well-formed non-array frame: its wire image reads back as itself.
/// Text payloads must hold no CR or LF and must be UTF-8, as the wire
/// format demands of them.
pub open spec fn wf_literal(v: FrameModel) -> bool {
    match v {
        FrameModel::Simple(s) => text_ok(s) && valid_utf8(s),
        FrameModel::Error(s) => text_ok(s) && valid_utf8(s),
        FrameModel::Integer(_) => true,
        FrameModel::Bulk(d) => d.len() <= u64::MAX,
        FrameModel::Null => true,
        FrameModel::Array(_) => false,
    }
}

/// A well-formed frame: a well-formed literal, or an array of well-formed
/// literals. Nested arrays are left out, as the writer never produces them.
pub open spec fn wf_frame(v: FrameModel) -> bool {
    match v {
        FrameModel::Array(es) => es.len() <= u64::MAX && forall|i: int|
            0 <= i < es.len() ==> wf_literal(#[trigger] es[i]),
        _ => wf_literal(v),
    }
}

/// No array element is itself an array: what the writer can put on the
/// wire at all.
pub open spec fn flat(v: FrameModel) -> bool {
    match v {
        FrameModel::Array(es) => forall|i: int| 0 <= i < es.len() ==> !(#[trigger] es[i]
            is Array),
        _ => true,
    }
}

/// A run of models has one model per frame.
pub proof fn lemma_frames_model_len(s: Seq<Frame>)
    ensures
        frames_model(s).len() == s.len(),
    decreases s.len(),
{
    if s.len() > 0 {
        lemma_frames_model_len(s.subrange(0, s.len() - 1));
    }
}

/// The model of the `i`th frame of a run is the `i`th model of the run.
pub proof fn lemma_frames_model_index(s: Seq<Frame>, i: int)
    requires
        0 <= i < s.len(),
    ensures
        frames_model(s).len() == s.len(),
        frames_model(s)[i] == frame_model(s[i]),
    decreases s.len(),
{
    lemma_frames_model_len(s);
    if i < s.len() - 1 {
        assert(s.subrange(0, s.len() - 1)[i] == s[i]);
        lemma_frames_model_index(s.subrange(0, s.len() - 1), i);
    }
}

/// Appending a frame to a run appends its wire image to the run's.
pub proof fn lemma_frames_bytes_push(s: Seq<FrameModel>, x: FrameModel)
    ensures
        frames_bytes(s.push(x)) == frames_bytes(s) + frame_bytes(x),
    decreases s.len(),
{
    let sp = s.push(x);
    if s.len() == 0 {
        assert(sp.len() == 1);
        assert(sp[0] == x);
        assert(sp.subrange(1, sp.len() as int) =~= Seq::<FrameModel>::empty());
        assert(frames_bytes(sp.subrange(1, sp.len() as int)) == Seq::<u8>::empty());
        assert(frames_bytes(sp) == frame_bytes(x) + Seq::<u8>::empty());
        assert(frames_bytes(s) == Seq::<u8>::empty());
        assert(frames_bytes(s.push(x)) =~= frames_bytes(s) + frame_bytes(x));
    } else {
        assert(sp[0] == s[0]);
        assert(sp.subrange(1, sp.len() as int) =~= s.subrange(1, s.len() as int).push(x));
        lemma_frames_bytes_push(s.subrange(1, s.len() as int), x);
        assert(frames_bytes(s.push(x)) =~= frames_bytes(s) + frame_bytes(x));
    }
}

/// Appends every byte of `bytes` to `out`.
pub fn push_all(out: &mut Vec<u8>, bytes: &[u8])
    ensures
        final(out)@ == old(out)@ + bytes@,
{
    let mut j: usize = 0;
    while j < bytes.len()
        invariant
            0 <= j <= bytes@.len(),
            out@ == old(out)@ + bytes@.take(j as int),
        decreases bytes@.len() - j,
    {
        out.push(bytes[j]);
        assert(old(out)@ + bytes@.take(j as int) + seq![bytes@[j as int]] =~= old(out)@
            + bytes@.take(j + 1));
        j = j + 1;
    }
    assert(bytes@.take(bytes@.len() as int) =~= bytes@);
}

/// Appends the wire image of one literal frame to `out`.
fn write_literal(out: &mut Vec<u8>, f: &Frame)
    requires
        !(f@ is Array),
    ensures
        final(out)@ == old(out)@ + frame_bytes(f@),
{
    match f {
        Frame::Simple(s) => {
            out.push(43);
            push_all(out, s.as_slice());
            out.push(CR);
            out.push(LF);
            assert(out@ =~= old(out)@ + (seq![43u8] + s@ + crlf()));
        },
        Frame::Error(s) => {
            out.push(45);
            push_all(out, s.as_slice());
            out.push(CR);
            out.push(LF);
            assert(out@ =~= old(out)@ + (seq![45u8] + s@ + crlf()));
        },
        Frame::Integer(n) => {
            out.push(58);
            let digits = format_u64(*n);
            push_all(out, digits.as_slice());
            out.push(CR);
            out.push(LF);
            assert(out@ =~= old(out)@ + (seq![58u8] + spec_fmt_nat(*n as nat) + crlf()));
        },
        Frame::Bulk(d) => {
            out.push(36);
            let digits = format_u64(d.len() as u64);
            push_all(out, digits.as_slice());
            out.push(CR);
            out.push(LF);
            push_all(out, d.as_slice());
            out.push(CR);
            out.push(LF);
            assert(out@ =~= old(out)@ + (seq![36u8] + spec_fmt_nat(d@.len()) + crlf() + d@
                + crlf()));
        },
        Frame::Null => {
            out.push(36);
            out.push(45);
            out.push(49);
            out.push(CR);
            out.push(LF);
            assert(out@ =~= old(out)@ + seq![36u8, 45u8, 49u8, CR, LF]);
        },
        Frame::Array(_) => {
            proof {
                assert(false);
            }
        },
    }
}

impl Frame {
    /// True when this frame is not an array.
    pub fn is_literal(&self) -> (r: bool)
        ensures
            r == !(self@ is Array),
    {
        match self {
            Frame::Array(_) => false,
            _ => true,
        }
    }

    /// Writes one frame as bytes, or nothing for a frame the writer does
    /// not support: an array holding another array.
    pub fn try_encode(&self) -> (r: Option<Vec<u8>>)
        ensures
            match r {
                Some(v) => flat(self@) && v@ == frame_bytes(self@),
                None => !flat(self@),
            },
    {
        match self {
            Frame::Array(items) => {
                let ghost es = frames_model(items@);
                proof {
                    lemma_frames_model_len(items@);
                }
                let mut i: usize = 0;
                while i < items.len()
                    invariant
                        0 <= i <= items@.len(),
                        es == frames_model(items@),
                        es.len() == items@.len(),
                        self@ == FrameModel::Array(es),
                        forall|j: int| 0 <= j < i ==> !((#[trigger] es[j]) is Array),
                    decreases items@.len() - i,
                {
                    proof {
                        lemma_frames_model_index(items@, i as int);
                    }
                    if !items[i].is_literal() {
                        proof {
                            assert(es[i as int] is Array);
                        }
                        return None;
                    }
                    i = i + 1;
                }
                Some(self.encode())
            },
            _ => Some(self.encode()),
        }
    }

    /// Writes one frame as bytes: an array as its count line followed by
    /// each element written as a literal, anything else as a literal.
    /// Nested arrays are not written; the server never produces them.
    pub fn encode(&self) -> (r: Vec<u8>)
        requires
            flat(self@),
        ensures
            r@ == frame_bytes(self@),
    {
        let mut out: Vec<u8> = Vec::new();
        match self {
            Frame::Array(items) => {
                let ghost es = frames_model(items@);
                proof {
                    lemma_frames_model_len(items@);
                }
                out.push(42);
                let digits = format_u64(items.len() as u64);
                push_all(&mut out, digits.as_slice());
                out.push(CR);
                out.push(LF);
                let ghost header = seq![42u8] + spec_fmt_nat(es.len()) + crlf();
                assert(out@ =~= header);
                let mut i: usize = 0;
                assert(es.take(0) =~= Seq::<FrameModel>::empty());
                while i < items.len()
                    invariant
                        0 <= i <= items@.len(),
                        es == frames_model(items@),
                        es.len() == items@.len(),
                        self@ == FrameModel::Array(es),
                        flat(self@),
                        out@ == header + frames_bytes(es.take(i as int)),
                    decreases items@.len() - i,
                {
                    proof {
                        lemma_frames_model_index(items@, i as int);
                    }
                    write_literal(&mut out, &items[i]);
                    proof {
                        assert(es.take(i + 1) =~= es.take(i as int).push(es[i as int]));
                        lemma_frames_bytes_push(es.take(i as int), es[i as int]);
                    }
                    i = i + 1;
                }
                assert(es.take(es.len() as int) =~= es);
                out
            },
            _ => {
                write_literal(&mut out, self);
                assert(out@ =~= frame_bytes(self@));
                out
            },
        }
    }
}

} // verus!

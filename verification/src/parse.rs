//! Token cursor over an array frame.
//!
//! A command arrives as an array frame; each entry is one token. `Parse`
//! hands the tokens out in order, typed: text, bytes, or a number.
//! Exhaustion is its own condition (`EndOfStream`), distinct from a
//! malformed token, so a caller can tell an absent optional argument from
//! a protocol violation.

use crate::bytes_util::is_valid_utf8;
use crate::encode::{lemma_frames_model_index, lemma_frames_model_len};
use crate::frame::{frame_model, frames_model, Frame, FrameModel};
use crate::num::spec_parse_u64;
use vstd::prelude::*;
use vstd::utf8::valid_utf8;

verus! {

/// A fault met while pulling typed tokens out of an array frame.
#[derive(Clone, Copy, Debug, PartialEq, Eq, Structural)]
pub enum ParseError {
    /// The array is exhausted; an optional trailing argument is absent.
    EndOfStream,
    /// The frame handed to `Parse::new` is not an array.
    NotAnArray,
    /// The entry is of the wrong kind for the accessor.
    WrongType,
    /// The entry should carry text but its bytes are not UTF-8.
    BadText,
    /// The entry should carry a decimal number but does not.
    BadNumber,
    /// Entries remain where the command expects its end.
    Trailing,
}

impl ParseError {
    /// The protocol-error text sent back to the client.
    pub fn message(&self) -> (r: &'static str)
        ensures
            self is EndOfStream ==> r@ == "protocol error; unexpected end of stream"@,
            self is NotAnArray ==> r@ == "protocol error; expected array frame"@,
            self is WrongType ==> r@ == "protocol error; unexpected frame type"@,
            self is BadText ==> r@ == "protocol error; invalid string"@,
            self is BadNumber ==> r@ == "protocol error; invalid number"@,
            self is Trailing ==> r@ == "protocol error; expected end of frame"@,
    {
        match self {
            ParseError::EndOfStream => "protocol error; unexpected end of stream",
            ParseError::NotAnArray => "protocol error; expected array frame",
            ParseError::WrongType => "protocol error; unexpected frame type",
            ParseError::BadText => "protocol error; invalid string",
            ParseError::BadNumber => "protocol error; invalid number",
            ParseError::Trailing => "protocol error; expected end of frame",
        }
    }
}

/// The number a token denotes: an integer frame's own value, or the
/// decimal reading of a text or byte-string token.
pub open spec fn token_int(v: FrameModel) -> Option<u64> {
    match v {
        FrameModel::Integer(n) => Some(n),
        FrameModel::Simple(s) => spec_parse_u64(s),
        FrameModel::Bulk(s) => spec_parse_u64(s),
        _ => None,
    }
}

/// Taking the head of a run of frames leaves its models' tail.
proof fn lemma_remaining_skip(s: Seq<Frame>)
    requires
        s.len() > 0,
    ensures
        frames_model(s.remove(0)) == frames_model(s).skip(1),
        frames_model(s).len() == s.len(),
        frames_model(s)[0] == frame_model(s[0]),
{
    lemma_frames_model_len(s);
    lemma_frames_model_len(s.remove(0));
    lemma_frames_model_index(s, 0);
    assert(frames_model(s.remove(0)) =~= frames_model(s).skip(1)) by {
        assert forall|i: int|
            0 <= i < frames_model(s.remove(0)).len() implies frames_model(s.remove(0))[i]
            == frames_model(s).skip(1)[i] by {
            lemma_frames_model_index(s.remove(0), i);
            lemma_frames_model_index(s, i + 1);
            assert(s.remove(0)[i] == s[i + 1]);
        }
    }
}

/// Ordered, typed extraction over the entries of one array frame.
pub struct Parse {
    parts: Vec<Frame>,
}

impl Parse {
    /// The tokens not yet consumed, in order.
    pub closed spec fn remaining(self) -> Seq<FrameModel> {
        frames_model(self.parts@)
    }

    /// Takes the entries of an array frame; any other frame is refused.
    pub fn new(frame: Frame) -> (r: Result<Parse, ParseError>)
        ensures
            match r {
                Ok(p) => frame@ matches FrameModel::Array(es) && p.remaining() == es,
                Err(e) => e is NotAnArray && !(frame@ is Array),
            },
    {
        match frame {
            Frame::Array(parts) => Ok(Parse { parts }),
            _ => Err(ParseError::NotAnArray),
        }
    }

    /// The next entry, whole.
    fn next(&mut self) -> (r: Result<Frame, ParseError>)
        ensures
            match r {
                Ok(f) => old(self).remaining().len() > 0 && f@ == old(self).remaining()[0]
                    && final(self).remaining() == old(self).remaining().skip(1),
                Err(e) => e is EndOfStream && old(self).remaining().len() == 0 && final(self).remaining() == old(self).remaining(),
            },
    {
        proof {
            lemma_frames_model_len(self.parts@);
        }
        if self.parts.len() == 0 {
            return Err(ParseError::EndOfStream);
        }
        let ghost prev = self.parts@;
        let f = self.parts.remove(0);
        proof {
            lemma_remaining_skip(prev);
        }
        Ok(f)
    }

    /// The next entry as a byte string. Text and byte-string entries both
    /// qualify; anything else is a protocol violation.
    pub fn next_bytes(&mut self) -> (r: Result<Vec<u8>, ParseError>)
        ensures
            match r {
                Ok(d) => {
                    &&& old(self).remaining().len() > 0
                    &&& (old(self).remaining()[0] == FrameModel::Simple(d@) || old(self).remaining()[0] == FrameModel::Bulk(d@))
                    &&& final(self).remaining() == old(self).remaining().skip(1)
                },
                Err(e) => {
                    &&& (e is EndOfStream || e is WrongType)
                    &&& (e is EndOfStream <==> old(self).remaining().len() == 0)
                    &&& (e is EndOfStream ==> final(self).remaining() == old(self).remaining())
                    &&& (e is WrongType ==> !(old(self).remaining()[0] is Simple) && !(old(self).remaining()[0] is Bulk) && final(self).remaining() == old(self).remaining().skip(1))
                },
            },
    {
        match self.next() {
            Ok(f) => match f {
                Frame::Simple(s) => Ok(s),
                Frame::Bulk(d) => Ok(d),
                _ => Err(ParseError::WrongType),
            },
            Err(_) => Err(ParseError::EndOfStream),
        }
    }

    /// The next entry as text: a simple string as it stands (its bytes
    /// were validated on the wire), a byte string only when its bytes
    /// are UTF-8. Anything else is a protocol violation.
    pub fn next_string(&mut self) -> (r: Result<Vec<u8>, ParseError>)
        ensures
            match r {
                Ok(d) => {
                    &&& old(self).remaining().len() > 0
                    &&& (old(self).remaining()[0] == FrameModel::Simple(d@) || (old(self).remaining()[0] == FrameModel::Bulk(d@) && valid_utf8(d@)))
                    &&& final(self).remaining() == old(self).remaining().skip(1)
                },
                Err(e) => {
                    &&& (e is EndOfStream || e is WrongType || e is BadText)
                    &&& (e is EndOfStream <==> old(self).remaining().len() == 0)
                    &&& (e is EndOfStream ==> final(self).remaining() == old(self).remaining())
                    &&& (e is WrongType ==> !(old(self).remaining()[0] is Simple) && !(old(self).remaining()[0] is Bulk) && final(self).remaining() == old(self).remaining().skip(1))
                    &&& (e is BadText ==> (old(self).remaining()[0] matches FrameModel::Bulk(b) && !valid_utf8(b)) && final(self).remaining() == old(self).remaining().skip(1))
                },
            },
    {
        match self.next() {
            Ok(f) => match f {
                Frame::Simple(s) => Ok(s),
                Frame::Bulk(d) => {
                    if is_valid_utf8(d.as_slice()) {
                        Ok(d)
                    } else {
                        Err(ParseError::BadText)
                    }
                },
                _ => Err(ParseError::WrongType),
            },
            Err(_) => Err(ParseError::EndOfStream),
        }
    }

    /// The next entry as a number: an integer frame directly, a text or
    /// byte-string frame by its decimal reading.
    pub fn next_int(&mut self) -> (r: Result<u64, ParseError>)
        ensures
            match r {
                Ok(n) => {
                    &&& old(self).remaining().len() > 0
                    &&& token_int(old(self).remaining()[0]) == Some(n)
                    &&& final(self).remaining() == old(self).remaining().skip(1)
                },
                Err(e) => {
                    &&& (e is EndOfStream || e is WrongType || e is BadNumber)
                    &&& (e is EndOfStream <==> old(self).remaining().len() == 0)
                    &&& (e is EndOfStream ==> final(self).remaining() == old(self).remaining())
                    &&& (!(e is EndOfStream) ==> token_int(old(self).remaining()[0])
                        is None && final(self).remaining() == old(self).remaining().skip(1))
                    &&& (e is BadNumber ==> old(self).remaining()[0] is Simple || old(self).remaining()[0] is Bulk)
                    &&& (e is WrongType ==> !(old(self).remaining()[0] is Simple) && !(old(self).remaining()[0] is Bulk) && !(old(self).remaining()[0] is Integer))
                },
            },
    {
        match self.next() {
            Ok(f) => match f {
                Frame::Integer(n) => Ok(n),
                Frame::Simple(s) => match crate::num::parse_u64(s.as_slice()) {
                    Some(n) => Ok(n),
                    None => Err(ParseError::BadNumber),
                },
                Frame::Bulk(d) => match crate::num::parse_u64(d.as_slice()) {
                    Some(n) => Ok(n),
                    None => Err(ParseError::BadNumber),
                },
                _ => Err(ParseError::WrongType),
            },
            Err(_) => Err(ParseError::EndOfStream),
        }
    }

    /// Succeeds exactly when every entry has been consumed; trailing
    /// entries are a protocol violation.
    pub fn finish(&mut self) -> (r: Result<(), ParseError>)
        ensures
            r is Ok <==> old(self).remaining().len() == 0,
            r matches Err(e) ==> e is Trailing,
            old(self).remaining().len() == 0 ==> final(self).remaining() == old(self).remaining(),
    {
        match self.next() {
            Ok(_) => Err(ParseError::Trailing),
            Err(_) => Ok(()),
        }
    }
}

} // verus!

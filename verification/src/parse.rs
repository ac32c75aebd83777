//! Token cursor over a command frame.
//!
//! Commands arrive as array frames; each element is a token. `Parse` hands
//! the tokens out in order, reading them as byte strings or integers.
//! `EndOfStream` is a soft error that callers use to detect optional
//! trailing tokens; every other error terminates the connection.

use vstd::prelude::*;
use crate::frame::{Frame, SpecFrame, frames_model, lemma_frames_model};
use crate::decimal::{is_dec_u64, dec_value};

verus! {

/// Why the token cursor rejected a frame.
#[derive(Debug, Clone, Copy, PartialEq, Eq, Structural)]
pub enum ParseFault {
    /// The command frame is not an array.
    ExpectedArray,
    /// A token has the wrong frame type.
    ExpectedType,
    /// A token should be a decimal number but is not.
    InvalidNumber,
    /// Tokens remain where the command ends.
    ExpectedEnd,
    /// A `SET` option token is not one of `EX`, `PX`, `NX`, `XX`.
    UnsupportedOption,
    /// `NX` and `XX` were both given.
    ConflictingOptions,
}

/// Error while reading command tokens.
#[derive(Debug, Clone, Copy, PartialEq, Eq, Structural)]
pub enum ParseError {
    /// The token list is exhausted.
    EndOfStream,
    /// The token list is malformed.
    Other(ParseFault),
}

/// The bytes a token denotes: `Simple` and `Bulk` frames only.
pub open spec fn token_bytes(f: SpecFrame) -> Option<Seq<u8>> {
    match f {
        SpecFrame::Simple(s) => Some(s),
        SpecFrame::Bulk(s) => Some(s),
        _ => None,
    }
}

/// The integer a token denotes: an `Integer` frame directly, or the
/// decimal reading of a `Simple` or `Bulk` payload.
pub open spec fn token_int(f: SpecFrame) -> Option<u64> {
    match f {
        SpecFrame::Integer(v) => Some(v),
        SpecFrame::Simple(s) => if is_dec_u64(s) {
            Some(dec_value(s) as u64)
        } else {
            None
        },
        SpecFrame::Bulk(s) => if is_dec_u64(s) {
            Some(dec_value(s) as u64)
        } else {
            None
        },
        _ => None,
    }
}

/// Cursor over the tokens of an array frame.
#[derive(Debug)]
pub struct Parse {
    parts: Vec<Frame>,
}

impl Parse {
    /// The tokens not yet consumed.
    pub closed spec fn remaining(&self) -> Seq<SpecFrame> {
        frames_model(self.parts@)
    }

    /// Builds a cursor over the elements of an array frame; any other
    /// frame is a protocol error.
    pub fn new(frame: Frame) -> (r: Result<Parse, ParseError>)
        ensures
            match r {
                Ok(p) => frame@ matches SpecFrame::Array(elems) && p.remaining() == elems,
                Err(e) => !(frame@ is Array) && e == ParseError::Other(ParseFault::ExpectedArray),
            },
    {
        match frame {
            Frame::Array(parts) => Ok(Parse { parts }),
            _ => Err(ParseError::Other(ParseFault::ExpectedArray)),
        }
    }

    /// Returns the next token.
    pub fn next(&mut self) -> (r: Result<Frame, ParseError>)
        ensures
            old(self).remaining().len() > 0 ==> (r matches Ok(f) && f@ == old(self).remaining()[0]
                && final(self).remaining() == old(self).remaining().drop_first()),
            old(self).remaining().len() == 0 ==> r == Err::<Frame, ParseError>(
                ParseError::EndOfStream,
            ) && final(self).remaining() == old(self).remaining(),
    {
        proof {
            lemma_frames_model(self.parts@);
        }
        if self.parts.len() > 0 {
            let ghost before = self.parts@;
            let f = self.parts.remove(0);
            proof {
                assert(before.remove(0) =~= before.drop_first());
                assert(frames_model(before).drop_first() =~= frames_model(before.drop_first()));
            }
            Ok(f)
        } else {
            Err(ParseError::EndOfStream)
        }
    }

    /// Returns the next token as raw bytes (`Simple` or `Bulk`).
    pub fn next_bytes(&mut self) -> (r: Result<Vec<u8>, ParseError>)
        ensures
            old(self).remaining().len() == 0 ==> r == Err::<Vec<u8>, ParseError>(
                ParseError::EndOfStream,
            ) && final(self).remaining() == old(self).remaining(),
            old(self).remaining().len() > 0 ==> final(self).remaining() == old(
                self,
            ).remaining().drop_first() && (match token_bytes(old(self).remaining()[0]) {
                Some(b) => r matches Ok(v) && v@ == b,
                None => r == Err::<Vec<u8>, ParseError>(
                    ParseError::Other(ParseFault::ExpectedType),
                ),
            }),
    {
        match self.next() {
            Ok(f) => match f {
                Frame::Simple(s) => Ok(s),
                Frame::Bulk(s) => Ok(s),
                _ => Err(ParseError::Other(ParseFault::ExpectedType)),
            },
            Err(e) => Err(e),
        }
    }

    /// Returns the next token as an integer: an `Integer` frame directly,
    /// or the decimal reading of a `Simple` or `Bulk` payload.
    pub fn next_int(&mut self) -> (r: Result<u64, ParseError>)
        ensures
            old(self).remaining().len() == 0 ==> r == Err::<u64, ParseError>(
                ParseError::EndOfStream,
            ) && final(self).remaining() == old(self).remaining(),
            old(self).remaining().len() > 0 ==> final(self).remaining() == old(
                self,
            ).remaining().drop_first() && (match token_int(old(self).remaining()[0]) {
                Some(v) => r == Ok::<u64, ParseError>(v),
                None => r == Err::<u64, ParseError>(
                    ParseError::Other(
                        if token_bytes(old(self).remaining()[0]) is Some {
                            ParseFault::InvalidNumber
                        } else {
                            ParseFault::ExpectedType
                        },
                    ),
                ),
            }),
    {
        match self.next() {
            Ok(f) => match f {
                Frame::Integer(v) => Ok(v),
                Frame::Simple(s) => match crate::decimal::parse_decimal(&s) {
                    Some(v) => Ok(v),
                    None => Err(ParseError::Other(ParseFault::InvalidNumber)),
                },
                Frame::Bulk(s) => match crate::decimal::parse_decimal(&s) {
                    Some(v) => Ok(v),
                    None => Err(ParseError::Other(ParseFault::InvalidNumber)),
                },
                _ => Err(ParseError::Other(ParseFault::ExpectedType)),
            },
            Err(e) => Err(e),
        }
    }

    /// Asserts that all tokens were consumed.
    pub fn finish(&mut self) -> (r: Result<(), ParseError>)
        ensures
            old(self).remaining().len() == 0 ==> r is Ok && final(self).remaining() == old(
                self,
            ).remaining(),
            old(self).remaining().len() > 0 ==> r == Err::<(), ParseError>(
                ParseError::Other(ParseFault::ExpectedEnd),
            ) && final(self).remaining() == old(self).remaining().drop_first(),
    {
        match self.next() {
            Ok(_) => Err(ParseError::Other(ParseFault::ExpectedEnd)),
            Err(_) => Ok(()),
        }
    }
}

} // verus!

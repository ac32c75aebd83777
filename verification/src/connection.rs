//! Framed I/O computations for one connection.
//!
//! The socket lives outside the library. What the library provides is the
//! exact byte image of a frame to be written (`write_frame`) and the scan
//! that locates and decodes the first complete frame in a read buffer
//! (`parse_frame`), both stated against the wire grammar of `crate::frame`.

use vstd::prelude::*;
use crate::frame::{
    Frame, SpecFrame, Error, CheckResult, ParseResult, spec_check, spec_parse, spec_encode,
    encode_elems, encodable, frames_model, lemma_frames_model, lemma_encode_elems_push,
    lemma_parse_implies_check, CR, LF, TAG_SIMPLE, TAG_ERROR, TAG_INTEGER, TAG_BULK, TAG_ARRAY,
    DIGIT_ONE,
};
use crate::decimal::dec_repr;

verus! {

/// Append all bytes of `src` to `out`.
pub fn push_all(out: &mut Vec<u8>, src: &Vec<u8>)
    ensures
        final(out)@ == old(out)@ + src@,
{
    proof {
        assert(out@ =~= old(out)@ + src@.take(0));
    }
    let mut k: usize = 0;
    while k < src.len()
        invariant
            k <= src@.len(),
            out@ == old(out)@ + src@.take(k as int),
        decreases src@.len() - k,
    {
        let b = src[k];
        out.push(b);
        proof {
            assert(old(out)@ + src@.take(k + 1) =~= (old(out)@ + src@.take(k as int)).push(
                src@[k as int],
            ));
        }
        k = k + 1;
    }
    proof {
        assert(src@.take(src@.len() as int) =~= src@);
    }
}

/// Write the decimal numeral of `val` followed by `\r\n`.
pub fn write_decimal(out: &mut Vec<u8>, val: u64)
    ensures
        final(out)@ == old(out)@ + dec_repr(val as int) + seq![CR, LF],
{
    let digits = crate::decimal::format_decimal(val);
    push_all(out, &digits);
    out.push(CR);
    out.push(LF);
    proof {
        assert(old(out)@ + dec_repr(val as int) + seq![CR, LF] =~= ((old(out)@ + dec_repr(
            val as int,
        )).push(CR)).push(LF));
    }
}

/// Write the encoding of one non-array frame.
pub fn write_value(out: &mut Vec<u8>, frame: &Frame)
    requires
        !(frame@ is Array),
    ensures
        final(out)@ == old(out)@ + spec_encode(frame@),
{
    match frame {
        Frame::Simple(val) => {
            out.push(TAG_SIMPLE);
            push_all(out, val);
            out.push(CR);
            out.push(LF);
            proof {
                assert(old(out)@ + spec_encode(frame@) =~= (((old(out)@.push(TAG_SIMPLE)) + val@)
                    .push(CR)).push(LF));
            }
        },
        Frame::Error(val) => {
            out.push(TAG_ERROR);
            push_all(out, val);
            out.push(CR);
            out.push(LF);
            proof {
                assert(old(out)@ + spec_encode(frame@) =~= (((old(out)@.push(TAG_ERROR)) + val@)
                    .push(CR)).push(LF));
            }
        },
        Frame::Integer(val) => {
            out.push(TAG_INTEGER);
            write_decimal(out, *val);
            proof {
                assert(old(out)@ + spec_encode(frame@) =~= (old(out)@.push(TAG_INTEGER)) + dec_repr(
                    *val as int,
                ) + seq![CR, LF]);
            }
        },
        Frame::Bulk(val) => {
            out.push(TAG_BULK);
            write_decimal(out, val.len() as u64);
            push_all(out, val);
            out.push(CR);
            out.push(LF);
            proof {
                assert(old(out)@ + spec_encode(frame@) =~= (((old(out)@.push(TAG_BULK)) + dec_repr(
                    val@.len() as int,
                ) + seq![CR, LF] + val@).push(CR)).push(LF));
            }
        },
        Frame::Null => {
            out.push(TAG_BULK);
            out.push(TAG_ERROR);
            out.push(DIGIT_ONE);
            out.push(CR);
            out.push(LF);
            proof {
                assert(old(out)@ + spec_encode(frame@) =~= old(out)@.push(TAG_BULK).push(TAG_ERROR)
                    .push(DIGIT_ONE).push(CR).push(LF));
            }
        },
        Frame::Array(_) => {
            proof {
                assert(false);
            }
        },
    }
}

/// Write the encoding of one frame; an array is written as its length line
/// followed by each element's non-array encoding.
pub fn write_frame(out: &mut Vec<u8>, frame: &Frame)
    requires
        encodable(frame@),
    ensures
        final(out)@ == old(out)@ + spec_encode(frame@),
{
    match frame {
        Frame::Array(val) => {
            let ghost elems = frames_model(val@);
            proof {
                lemma_frames_model(val@);
            }
            out.push(TAG_ARRAY);
            write_decimal(out, val.len() as u64);
            let ghost base = out@;
            proof {
                assert(encode_elems(elems.take(0)) =~= Seq::<u8>::empty());
                assert(out@ =~= base + encode_elems(elems.take(0)));
            }
            let mut k: usize = 0;
            while k < val.len()
                invariant
                    k <= val@.len(),
                    elems == frames_model(val@),
                    elems.len() == val@.len(),
                    forall|i: int| 0 <= i < val@.len() ==> elems[i] == #[trigger] val@[i].model(),
                    encodable(SpecFrame::Array(elems)),
                    out@ == base + encode_elems(elems.take(k as int)),
                decreases val@.len() - k,
            {
                write_value(out, &val[k]);
                proof {
                    assert(elems.take(k + 1) =~= elems.take(k as int).push(elems[k as int]));
                    lemma_encode_elems_push(elems.take(k as int), elems[k as int]);
                    assert(base + (encode_elems(elems.take(k as int)) + spec_encode(
                        elems[k as int],
                    )) =~= (base + encode_elems(elems.take(k as int))) + spec_encode(
                        elems[k as int],
                    ));
                }
                k = k + 1;
            }
            proof {
                assert(elems.take(elems.len() as int) =~= elems);
                assert(old(out)@ + spec_encode(frame@) =~= base + encode_elems(elems));
            }
        },
        _ => {
            write_value(out, frame);
        },
    }
}

/// Locate and decode the first frame of `buffer`.
///
/// Returns the frame together with the number of bytes the caller must
/// drain from the buffer; `None` when more bytes are needed first; an error
/// when the buffered bytes can never become a valid frame.
pub fn parse_frame(buffer: &Vec<u8>) -> (r: Result<Option<(Frame, usize)>, Error>)
    ensures
        match spec_check(buffer@) {
            CheckResult::Complete(n) => match spec_parse(buffer@) {
                ParseResult::Complete(f, c) => r matches Ok(rr) && rr matches Some(p) && p.0@ == f
                    && p.1 == n && c == n,
                _ => r is Err,
            },
            CheckResult::Incomplete => r == Ok::<Option<(Frame, usize)>, Error>(None),
            CheckResult::Invalid => r is Err,
        },
{
    proof {
        assert(buffer@.skip(0) =~= buffer@);
    }
    let mut pos: usize = 0;
    match Frame::check(buffer, &mut pos) {
        Ok(()) => {
            let len = pos;
            let mut pos2: usize = 0;
            match Frame::parse(buffer, &mut pos2) {
                Ok(frame) => {
                    proof {
                        lemma_parse_implies_check(buffer@);
                    }
                    Ok(Some((frame, len)))
                },
                Err(e) => Err(e),
            }
        },
        Err(Error::Incomplete) => Ok(None),
        Err(e) => Err(e),
    }
}

} // verus!

//! RESP protocol frames.
//!
//! A frame is one self-delimiting value of the Redis serialization protocol.
//! The grammar is given three mathematical readings over byte sequences:
//! `spec_check` (the structural prescan, which finds the extent of the first
//! complete frame without decoding payloads), `spec_parse` (the full decoder)
//! and `spec_encode` (the writer). The executable `Frame::check` and
//! `Frame::parse` are proved to follow `spec_check` and `spec_parse` exactly.

use vstd::prelude::*;
use crate::decimal::{all_digits, dec_value, is_dec_u64};

verus! {

broadcast use
    vstd::seq::axiom_seq_index_decreases,
    vstd::seq::axiom_seq_subrange_decreases,
    vstd::std_specs::vec::axiom_vec_decreases_to_view;

/// Carriage return.
pub const CR: u8 = 13;
/// Line feed.
pub const LF: u8 = 10;
/// `'+'`, starts a simple string frame.
pub const TAG_SIMPLE: u8 = 43;
/// `'-'`, starts an error frame; also the ASCII minus sign.
pub const TAG_ERROR: u8 = 45;
/// `':'`, starts an integer frame.
pub const TAG_INTEGER: u8 = 58;
/// `'$'`, starts a bulk frame.
pub const TAG_BULK: u8 = 36;
/// `'*'`, starts an array frame.
pub const TAG_ARRAY: u8 = 42;
/// `'1'`.
pub const DIGIT_ONE: u8 = 49;

/// A frame in the Redis protocol.
#[derive(Debug)]
pub enum Frame {
    Simple(Vec<u8>),
    Error(Vec<u8>),
    Integer(u64),
    Bulk(Vec<u8>),
    Null,
    Array(Vec<Frame>),
}

/// The mathematical value of a frame: payloads as byte sequences.
pub enum SpecFrame {
    Simple(Seq<u8>),
    Error(Seq<u8>),
    Integer(u64),
    Bulk(Seq<u8>),
    Null,
    Array(Seq<SpecFrame>),
}

/// Why a byte stream was rejected.
#[derive(Debug, Clone, Copy, PartialEq, Eq, Structural)]
pub enum ProtocolError {
    /// The leading byte of a frame is not one of the five tags.
    InvalidTypeByte,
    /// A length line, integer line or null marker is malformed.
    InvalidFormat,
}

/// Error raised while scanning or decoding a frame.
#[derive(Debug, Clone, Copy, PartialEq, Eq, Structural)]
pub enum Error {
    /// More bytes are needed before a full frame is present.
    Incomplete,
    /// The bytes can never become a valid frame.
    Other(ProtocolError),
}

pub open spec fn frames_model(v: Seq<Frame>) -> Seq<SpecFrame>
    decreases v,
{
    if v.len() == 0 {
        Seq::empty()
    } else {
        seq![v[0].model()] + frames_model(v.drop_first())
    }
}

impl Frame {
    /// The mathematical value of this frame.
    pub open spec fn model(self) -> SpecFrame
        decreases self,
    {
        match self {
            Frame::Simple(s) => SpecFrame::Simple(s@),
            Frame::Error(s) => SpecFrame::Error(s@),
            Frame::Integer(n) => SpecFrame::Integer(n),
            Frame::Bulk(b) => SpecFrame::Bulk(b@),
            Frame::Null => SpecFrame::Null,
            Frame::Array(elems) => SpecFrame::Array(frames_model(elems@)),
        }
    }
}

impl View for Frame {
    type V = SpecFrame;

    open spec fn view(&self) -> SpecFrame {
        self.model()
    }
}

pub proof fn lemma_frames_model(v: Seq<Frame>)
    ensures
        frames_model(v).len() == v.len(),
        forall|i: int| 0 <= i < v.len() ==> frames_model(v)[i] == #[trigger] v[i].model(),
    decreases v,
{
    if v.len() > 0 {
        lemma_frames_model(v.drop_first());
        assert forall|i: int| 0 <= i < v.len() implies frames_model(v)[i] == #[trigger] v[i].model() by {
            if i == 0 {
                assert(frames_model(v)[0] == v[0].model());
            } else {
                assert(v.drop_first()[i - 1] == v[i]);
                assert(frames_model(v)[i] == frames_model(v.drop_first())[i - 1]);
            }
        }
    }
}

pub proof fn lemma_frames_model_push(v: Seq<Frame>, f: Frame)
    ensures
        frames_model(v.push(f)) == frames_model(v).push(f.model()),
{
    lemma_frames_model(v);
    lemma_frames_model(v.push(f));
    assert forall|i: int| 0 <= i < v.len() + 1 implies frames_model(v.push(f))[i]
        == frames_model(v).push(f.model())[i] by {
        if i < v.len() {
            assert(v.push(f)[i] == v[i]);
            assert(frames_model(v.push(f))[i] == v.push(f)[i].model());
            assert(frames_model(v)[i] == v[i].model());
        } else {
            assert(v.push(f)[i] == f);
            assert(frames_model(v.push(f))[i] == v.push(f)[i].model());
        }
    }
    assert(frames_model(v.push(f)) =~= frames_model(v).push(f.model()));
}

/// Index of the first `\r\n` pair at or after `i`, if any.
pub open spec fn find_crlf_at(s: Seq<u8>, i: int) -> Option<int>
    decreases s.len() - i,
{
    if i < 0 || i + 1 >= s.len() {
        None
    } else if s[i] == CR && s[i + 1] == LF {
        Some(i)
    } else {
        find_crlf_at(s, i + 1)
    }
}

pub open spec fn find_crlf(s: Seq<u8>) -> Option<int> {
    find_crlf_at(s, 0)
}

/// The first line of `s`: its content (up to the first `\r\n`) and the
/// number of bytes consumed including the terminator.
pub open spec fn spec_line(s: Seq<u8>) -> Option<(Seq<u8>, int)> {
    match find_crlf(s) {
        Some(i) => if 0 <= i && i + 1 < s.len() {
            Some((s.take(i), i + 2))
        } else {
            None
        },
        None => None,
    }
}

/// Outcome of the structural prescan: the length in bytes of the first
/// complete frame, or the need for more bytes, or a malformed head.
pub enum CheckResult {
    Complete(int),
    Incomplete,
    Invalid,
}

/// Outcome of the full decoder.
pub enum ParseResult {
    Complete(SpecFrame, int),
    Incomplete,
    Invalid,
}

/// Outcome of decoding a fixed number of consecutive frames.
pub enum ElemsResult {
    Complete(Seq<SpecFrame>, int),
    Incomplete,
    Invalid,
}

/// Structural prescan of one frame, as `Frame::check` performs it: lines are
/// located, lengths are read, but payloads are only skipped. A null bulk
/// marker is skipped without inspecting its content.
pub open spec fn spec_check(s: Seq<u8>) -> CheckResult
    decreases s.len(), 0int,
{
    if s.len() == 0 {
        CheckResult::Incomplete
    } else {
        let rest = s.skip(1);
        if s[0] == TAG_SIMPLE || s[0] == TAG_ERROR {
            match spec_line(rest) {
                Some(lc) => CheckResult::Complete(1 + lc.1),
                None => CheckResult::Incomplete,
            }
        } else if s[0] == TAG_INTEGER {
            match spec_line(rest) {
                Some(lc) => if is_dec_u64(lc.0) {
                    CheckResult::Complete(1 + lc.1)
                } else {
                    CheckResult::Invalid
                },
                None => CheckResult::Incomplete,
            }
        } else if s[0] == TAG_BULK {
            if rest.len() == 0 {
                CheckResult::Incomplete
            } else if rest[0] == TAG_ERROR {
                if rest.len() >= 4 {
                    CheckResult::Complete(5)
                } else {
                    CheckResult::Incomplete
                }
            } else {
                match spec_line(rest) {
                    Some(lc) => if is_dec_u64(lc.0) {
                        if rest.len() - lc.1 >= dec_value(lc.0) + 2 {
                            CheckResult::Complete(1 + lc.1 + dec_value(lc.0) + 2)
                        } else {
                            CheckResult::Incomplete
                        }
                    } else {
                        CheckResult::Invalid
                    },
                    None => CheckResult::Incomplete,
                }
            }
        } else if s[0] == TAG_ARRAY {
            match spec_line(rest) {
                Some(lc) => if is_dec_u64(lc.0) {
                    match spec_check_n(s.skip(1 + lc.1), dec_value(lc.0)) {
                        CheckResult::Complete(m) => CheckResult::Complete(1 + lc.1 + m),
                        CheckResult::Incomplete => CheckResult::Incomplete,
                        CheckResult::Invalid => CheckResult::Invalid,
                    }
                } else {
                    CheckResult::Invalid
                },
                None => CheckResult::Incomplete,
            }
        } else {
            CheckResult::Invalid
        }
    }
}

/// Prescan of `n` consecutive frames; the consumed lengths add up.
pub open spec fn spec_check_n(s: Seq<u8>, n: int) -> CheckResult
    decreases s.len(), n,
{
    if n <= 0 {
        CheckResult::Complete(0)
    } else {
        match spec_check(s) {
            CheckResult::Complete(c) => if 1 <= c <= s.len() {
                match spec_check_n(s.skip(c), n - 1) {
                    CheckResult::Complete(m) => CheckResult::Complete(c + m),
                    CheckResult::Incomplete => CheckResult::Incomplete,
                    CheckResult::Invalid => CheckResult::Invalid,
                }
            } else {
                CheckResult::Invalid
            },
            CheckResult::Incomplete => CheckResult::Incomplete,
            CheckResult::Invalid => CheckResult::Invalid,
        }
    }
}

/// Full decoder of one frame, as `Frame::parse` performs it. Stricter than
/// `spec_check`: an integer or length line must be a valid decimal and a
/// null bulk marker must read exactly `-1`.
pub open spec fn spec_parse(s: Seq<u8>) -> ParseResult
    decreases s.len(), 0int,
{
    if s.len() == 0 {
        ParseResult::Incomplete
    } else {
        let rest = s.skip(1);
        if s[0] == TAG_SIMPLE {
            match spec_line(rest) {
                Some(lc) => ParseResult::Complete(SpecFrame::Simple(lc.0), 1 + lc.1),
                None => ParseResult::Incomplete,
            }
        } else if s[0] == TAG_ERROR {
            match spec_line(rest) {
                Some(lc) => ParseResult::Complete(SpecFrame::Error(lc.0), 1 + lc.1),
                None => ParseResult::Incomplete,
            }
        } else if s[0] == TAG_INTEGER {
            match spec_line(rest) {
                Some(lc) => if is_dec_u64(lc.0) {
                    ParseResult::Complete(SpecFrame::Integer(dec_value(lc.0) as u64), 1 + lc.1)
                } else {
                    ParseResult::Invalid
                },
                None => ParseResult::Incomplete,
            }
        } else if s[0] == TAG_BULK {
            if rest.len() == 0 {
                ParseResult::Incomplete
            } else if rest[0] == TAG_ERROR {
                match spec_line(rest) {
                    Some(lc) => if lc.0 == seq![TAG_ERROR, DIGIT_ONE] {
                        ParseResult::Complete(SpecFrame::Null, 1 + lc.1)
                    } else {
                        ParseResult::Invalid
                    },
                    None => ParseResult::Incomplete,
                }
            } else {
                match spec_line(rest) {
                    Some(lc) => if is_dec_u64(lc.0) {
                        let len = dec_value(lc.0);
                        if rest.len() - lc.1 >= len + 2 {
                            ParseResult::Complete(
                                SpecFrame::Bulk(rest.skip(lc.1).take(len)),
                                1 + lc.1 + len + 2,
                            )
                        } else {
                            ParseResult::Incomplete
                        }
                    } else {
                        ParseResult::Invalid
                    },
                    None => ParseResult::Incomplete,
                }
            }
        } else if s[0] == TAG_ARRAY {
            match spec_line(rest) {
                Some(lc) => if is_dec_u64(lc.0) {
                    match spec_parse_n(s.skip(1 + lc.1), dec_value(lc.0)) {
                        ElemsResult::Complete(elems, m) => ParseResult::Complete(
                            SpecFrame::Array(elems),
                            1 + lc.1 + m,
                        ),
                        ElemsResult::Incomplete => ParseResult::Incomplete,
                        ElemsResult::Invalid => ParseResult::Invalid,
                    }
                } else {
                    ParseResult::Invalid
                },
                None => ParseResult::Incomplete,
            }
        } else {
            ParseResult::Invalid
        }
    }
}

/// Decoder of `n` consecutive frames.
pub open spec fn spec_parse_n(s: Seq<u8>, n: int) -> ElemsResult
    decreases s.len(), n,
{
    if n <= 0 {
        ElemsResult::Complete(Seq::empty(), 0)
    } else {
        match spec_parse(s) {
            ParseResult::Complete(f, c) => if 1 <= c <= s.len() {
                match spec_parse_n(s.skip(c), n - 1) {
                    ElemsResult::Complete(elems, m) => ElemsResult::Complete(
                        seq![f] + elems,
                        c + m,
                    ),
                    ElemsResult::Incomplete => ElemsResult::Incomplete,
                    ElemsResult::Invalid => ElemsResult::Invalid,
                }
            } else {
                ElemsResult::Invalid
            },
            ParseResult::Incomplete => ElemsResult::Incomplete,
            ParseResult::Invalid => ElemsResult::Invalid,
        }
    }
}

/// The byte sequence contains no `\r\n` pair, so it can stand as the body
/// of a line-delimited frame.
pub open spec fn no_crlf(s: Seq<u8>) -> bool {
    find_crlf(s) == None::<int>
}

/// The frame can be written by the encoder: arrays must not nest.
pub open spec fn encodable(f: SpecFrame) -> bool {
    match f {
        SpecFrame::Array(elems) => forall|i: int|
            0 <= i < elems.len() ==> !((#[trigger] elems[i]) is Array),
        _ => true,
    }
}

/// Payload lengths and element counts fit the wire's `u64` length fields.
/// Every frame built from executable vectors satisfies this.
pub open spec fn bounded(f: SpecFrame) -> bool
    decreases f,
{
    match f {
        SpecFrame::Bulk(b) => b.len() <= u64::MAX,
        SpecFrame::Array(elems) => elems.len() <= u64::MAX && forall|i: int|
            0 <= i < elems.len() ==> bounded(#[trigger] elems[i]),
        _ => true,
    }
}

/// Line-delimited payloads contain no `\r\n`, so decoding recovers them.
pub open spec fn line_safe(f: SpecFrame) -> bool
    decreases f,
{
    match f {
        SpecFrame::Simple(s) => no_crlf(s),
        SpecFrame::Error(s) => no_crlf(s),
        SpecFrame::Integer(_) => true,
        SpecFrame::Bulk(_) => true,
        SpecFrame::Null => true,
        SpecFrame::Array(elems) => forall|i: int|
            0 <= i < elems.len() ==> line_safe(#[trigger] elems[i]),
    }
}

/// The wire encoding of a frame. Array elements are written by the
/// non-array encoding, in order.
pub open spec fn spec_encode(f: SpecFrame) -> Seq<u8>
    decreases f,
{
    match f {
        SpecFrame::Simple(s) => seq![TAG_SIMPLE] + s + seq![CR, LF],
        SpecFrame::Error(s) => seq![TAG_ERROR] + s + seq![CR, LF],
        SpecFrame::Integer(n) => seq![TAG_INTEGER] + crate::decimal::dec_repr(n as int) + seq![
            CR,
            LF,
        ],
        SpecFrame::Bulk(b) => seq![TAG_BULK] + crate::decimal::dec_repr(b.len() as int) + seq![
            CR,
            LF,
        ] + b + seq![CR, LF],
        SpecFrame::Null => seq![TAG_BULK, TAG_ERROR, DIGIT_ONE, CR, LF],
        SpecFrame::Array(elems) => seq![TAG_ARRAY] + crate::decimal::dec_repr(elems.len() as int)
            + seq![CR, LF] + encode_elems(elems),
    }
}

/// The concatenated encodings of a sequence of frames.
pub open spec fn encode_elems(elems: Seq<SpecFrame>) -> Seq<u8>
    decreases elems,
{
    if elems.len() == 0 {
        Seq::empty()
    } else {
        spec_encode(elems[0]) + encode_elems(elems.drop_first())
    }
}

pub proof fn lemma_encode_elems_push(elems: Seq<SpecFrame>, f: SpecFrame)
    ensures
        encode_elems(elems.push(f)) == encode_elems(elems) + spec_encode(f),
    decreases elems,
{
    if elems.len() == 0 {
        assert(elems.push(f)[0] == f);
        assert(elems.push(f).drop_first() =~= Seq::<SpecFrame>::empty());
        assert(encode_elems(elems.push(f)) == spec_encode(f) + encode_elems(
            Seq::<SpecFrame>::empty(),
        ));
        assert(encode_elems(elems.push(f)) =~= encode_elems(elems) + spec_encode(f));
    } else {
        assert(elems.push(f)[0] == elems[0]);
        assert(elems.push(f).drop_first() =~= elems.drop_first().push(f));
        lemma_encode_elems_push(elems.drop_first(), f);
        assert(spec_encode(elems[0]) + (encode_elems(elems.drop_first()) + spec_encode(f))
            =~= (spec_encode(elems[0]) + encode_elems(elems.drop_first())) + spec_encode(f));
        assert(encode_elems(elems.push(f)) =~= encode_elems(elems) + spec_encode(f));
    }
}

impl SpecFrame {
    /// A frame equals a plain byte string: only `Simple` and `Bulk` frames
    /// do, by their payload bytes.
    pub open spec fn is_bytes(self, b: Seq<u8>) -> bool {
        match self {
            SpecFrame::Simple(s) => s == b,
            SpecFrame::Bulk(s) => s == b,
            _ => false,
        }
    }
}

pub proof fn lemma_find_crlf_at_some(s: Seq<u8>, k: int, i: int)
    requires
        0 <= k <= i,
        i + 1 < s.len(),
        s[i] == CR,
        s[i + 1] == LF,
        forall|j: int| k <= j < i ==> !((#[trigger] s[j]) == CR && s[j + 1] == LF),
    ensures
        find_crlf_at(s, k) == Some(i),
    decreases i - k,
{
    if k < i {
        lemma_find_crlf_at_some(s, k + 1, i);
    }
}

pub proof fn lemma_find_crlf_at_none(s: Seq<u8>, k: int)
    requires
        0 <= k,
        forall|j: int| k <= j && j + 1 < s.len() ==> !((#[trigger] s[j]) == CR && s[j + 1] == LF),
    ensures
        find_crlf_at(s, k) == None::<int>,
    decreases s.len() - k,
{
    if k + 1 < s.len() {
        lemma_find_crlf_at_none(s, k + 1);
    }
}

pub proof fn lemma_find_crlf_at_props(s: Seq<u8>, k: int)
    requires
        0 <= k,
    ensures
        find_crlf_at(s, k) matches Some(i) ==> {
            &&& k <= i
            &&& i + 1 < s.len()
            &&& s[i] == CR
            &&& s[i + 1] == LF
            &&& forall|j: int| k <= j < i ==> !((#[trigger] s[j]) == CR && s[j + 1] == LF)
        },
    decreases s.len() - k,
{
    if !(k + 1 >= s.len()) && !(s[k] == CR && s[k + 1] == LF) {
        lemma_find_crlf_at_props(s, k + 1);
    }
}

/// A complete prescan consumes at least one and at most all bytes.
pub proof fn lemma_check_bounds(s: Seq<u8>)
    ensures
        spec_check(s) matches CheckResult::Complete(c) ==> 1 <= c <= s.len(),
    decreases s.len(), 0int,
{
    if s.len() > 0 {
        let rest = s.skip(1);
        match spec_line(rest) {
            Some(lc) => {
                if is_dec_u64(lc.0) {
                    crate::decimal::lemma_dec_value_nonneg(lc.0);
                    if s[0] == TAG_ARRAY {
                        lemma_check_n_bounds(s.skip(1 + lc.1), dec_value(lc.0));
                    }
                }
            },
            None => {},
        }
    }
}

pub proof fn lemma_check_n_bounds(s: Seq<u8>, n: int)
    ensures
        spec_check_n(s, n) matches CheckResult::Complete(m) ==> 0 <= m <= s.len(),
    decreases s.len(), n,
{
    if n > 0 {
        lemma_check_bounds(s);
        match spec_check(s) {
            CheckResult::Complete(c) => if 1 <= c <= s.len() {
                lemma_check_n_bounds(s.skip(c), n - 1);
            },
            _ => {},
        }
    }
}

/// A complete decode consumes at least one and at most all bytes.
pub proof fn lemma_parse_bounds(s: Seq<u8>)
    ensures
        spec_parse(s) matches ParseResult::Complete(f, c) ==> 1 <= c <= s.len(),
    decreases s.len(), 0int,
{
    if s.len() > 0 {
        let rest = s.skip(1);
        match spec_line(rest) {
            Some(lc) => {
                if is_dec_u64(lc.0) {
                    crate::decimal::lemma_dec_value_nonneg(lc.0);
                    if s[0] == TAG_ARRAY {
                        lemma_parse_n_bounds(s.skip(1 + lc.1), dec_value(lc.0));
                    }
                }
            },
            None => {},
        }
    }
}

/// A successful decode is also a successful prescan of the same length:
/// `spec_parse` is strictly stricter than `spec_check`.
pub proof fn lemma_parse_implies_check(s: Seq<u8>)
    ensures
        spec_parse(s) matches ParseResult::Complete(f, c) ==> spec_check(s)
            == CheckResult::Complete(c),
    decreases s.len(), 0int,
{
    if s.len() > 0 {
        let rest = s.skip(1);
        match spec_line(rest) {
            Some(lc) => {
                if s[0] == TAG_ARRAY && is_dec_u64(lc.0) {
                    lemma_parse_n_implies_check_n(s.skip(1 + lc.1), dec_value(lc.0));
                }
            },
            None => {},
        }
    }
}

pub proof fn lemma_parse_n_implies_check_n(s: Seq<u8>, n: int)
    ensures
        spec_parse_n(s, n) matches ElemsResult::Complete(elems, m) ==> spec_check_n(s, n)
            == CheckResult::Complete(m),
    decreases s.len(), n,
{
    if n > 0 {
        lemma_parse_implies_check(s);
        lemma_parse_bounds(s);
        match spec_parse(s) {
            ParseResult::Complete(f, c) => if 1 <= c <= s.len() {
                lemma_parse_n_implies_check_n(s.skip(c), n - 1);
            },
            _ => {},
        }
    }
}

pub proof fn lemma_skip_skip(s: Seq<u8>, a: int, b: int)
    requires
        0 <= a,
        0 <= b,
        a + b <= s.len(),
    ensures
        s.skip(a).skip(b) == s.skip(a + b),
{
    assert(s.skip(a).skip(b) =~= s.skip(a + b));
}

pub proof fn lemma_parse_n_bounds(s: Seq<u8>, n: int)
    ensures
        spec_parse_n(s, n) matches ElemsResult::Complete(elems, m) ==> {
            &&& 0 <= m <= s.len()
            &&& elems.len() == (if n >= 0 { n } else { 0 })
        },
    decreases s.len(), n,
{
    if n > 0 {
        lemma_parse_bounds(s);
        match spec_parse(s) {
            ParseResult::Complete(f, c) => if 1 <= c <= s.len() {
                lemma_parse_n_bounds(s.skip(c), n - 1);
            },
            _ => {},
        }
    }
}

/// Byte at the cursor, without advancing.
pub fn peek_u8(src: &Vec<u8>, pos: usize) -> (r: Result<u8, Error>)
    ensures
        pos < src@.len() ==> r == Ok::<u8, Error>(src@[pos as int]),
        pos >= src@.len() ==> r == Err::<u8, Error>(Error::Incomplete),
{
    if pos < src.len() {
        Ok(src[pos])
    } else {
        Err(Error::Incomplete)
    }
}

/// Byte at the cursor; advances past it.
pub fn eat_u8(src: &Vec<u8>, pos: &mut usize) -> (r: Result<u8, Error>)
    ensures
        *old(pos) < src@.len() ==> r == Ok::<u8, Error>(src@[*old(pos) as int]) && *final(pos)
            == *old(pos) + 1,
        *old(pos) >= src@.len() ==> r == Err::<u8, Error>(Error::Incomplete) && *final(pos)
            == *old(pos),
{
    if *pos < src.len() {
        let b = src[*pos];
        *pos = *pos + 1;
        Ok(b)
    } else {
        Err(Error::Incomplete)
    }
}

/// Advance the cursor over `n` bytes, if that many are available.
pub fn skip(src: &Vec<u8>, pos: &mut usize, n: usize) -> (r: Result<(), Error>)
    requires
        *old(pos) <= src@.len(),
    ensures
        src@.len() - *old(pos) >= n ==> r is Ok && *final(pos) == *old(pos) + n,
        src@.len() - *old(pos) < n ==> r == Err::<(), Error>(Error::Incomplete) && *final(pos)
            == *old(pos),
{
    if src.len() - *pos >= n {
        *pos = *pos + n;
        Ok(())
    } else {
        Err(Error::Incomplete)
    }
}

/// The bytes from the cursor up to the first `\r\n`; advances past the
/// terminator. Fails with `Incomplete` when no terminator is present yet.
pub fn eat_line(src: &Vec<u8>, pos: &mut usize) -> (r: Result<Vec<u8>, Error>)
    requires
        *old(pos) <= src@.len(),
    ensures
        *old(pos) <= *final(pos) <= src@.len(),
        match spec_line(src@.skip(*old(pos) as int)) {
            Some(lc) => r matches Ok(line) && line@ == lc.0 && *final(pos) == *old(pos) + lc.1,
            None => r == Err::<Vec<u8>, Error>(Error::Incomplete) && *final(pos) == *old(pos),
        },
{
    let ghost s = src@.skip(*old(pos) as int);
    let start: usize = *pos;
    let len: usize = src.len();
    if len == 0 || start >= len - 1 {
        proof {
            lemma_find_crlf_at_none(s, 0);
        }
        return Err(Error::Incomplete);
    }
    let mut i: usize = start;
    while i < len - 1
        invariant
            start == *old(pos),
            *pos == start,
            start <= i <= len - 1,
            1 <= len,
            len == src@.len(),
            start <= len,
            s == src@.skip(start as int),
            forall|j: int| 0 <= j < i - start ==> !((#[trigger] s[j]) == CR && s[j + 1] == LF),
        decreases len - i,
    {
        if src[i] == CR && src[i + 1] == LF {
            let mut line: Vec<u8> = Vec::new();
            let mut k: usize = start;
            while k < i
                invariant
                    start == *old(pos),
                    *pos == start,
                    start <= k <= i,
                    i + 1 < len,
                    len == src@.len(),
                    s == src@.skip(start as int),
                    line@ == src@.subrange(start as int, k as int),
                decreases i - k,
            {
                let b = src[k];
                line.push(b);
                proof {
                    assert(line@ =~= src@.subrange(start as int, k + 1));
                }
                k = k + 1;
            }
            *pos = i + 2;
            proof {
                let fi = i - start;
                assert(s[fi] == src@[i as int]);
                assert(s[fi + 1] == src@[i + 1]);
                lemma_find_crlf_at_some(s, 0, fi);
                assert(s.take(fi) =~= src@.subrange(start as int, i as int));
            }
            return Ok(line);
        }
        proof {
            assert(s[i - start] == src@[i as int]);
            assert(s[i - start + 1] == src@[i + 1]);
        }
        i = i + 1;
    }
    proof {
        lemma_find_crlf_at_none(s, 0);
    }
    Err(Error::Incomplete)
}

/// The first line read as an unsigned decimal. A missing terminator is
/// `Incomplete`; a line that is not a `u64` numeral is a format error.
pub fn eat_decimal(src: &Vec<u8>, pos: &mut usize) -> (r: Result<u64, Error>)
    requires
        *old(pos) <= src@.len(),
    ensures
        *old(pos) <= *final(pos) <= src@.len(),
        match spec_line(src@.skip(*old(pos) as int)) {
            Some(lc) => if is_dec_u64(lc.0) {
                r == Ok::<u64, Error>(dec_value(lc.0) as u64) && *final(pos) == *old(pos) + lc.1
            } else {
                r == Err::<u64, Error>(Error::Other(ProtocolError::InvalidFormat))
            },
            None => r == Err::<u64, Error>(Error::Incomplete) && *final(pos) == *old(pos),
        },
{
    let line = match eat_line(src, pos) {
        Ok(l) => l,
        Err(e) => {
            return Err(e);
        },
    };
    match crate::decimal::parse_decimal(&line) {
        Some(v) => Ok(v),
        None => Err(Error::Other(ProtocolError::InvalidFormat)),
    }
}

impl Frame {
    /// Scan one frame starting at the cursor, advancing it to the frame's
    /// end, exactly as `spec_check` reads the bytes.
    pub fn check(src: &Vec<u8>, pos: &mut usize) -> (r: Result<(), Error>)
        requires
            *old(pos) <= src@.len(),
        ensures
            *old(pos) <= *final(pos) <= src@.len(),
            match spec_check(src@.skip(*old(pos) as int)) {
                CheckResult::Complete(n) => r is Ok && *final(pos) == *old(pos) + n,
                CheckResult::Incomplete => r == Err::<(), Error>(Error::Incomplete),
                CheckResult::Invalid => r matches Err(e) && e matches Error::Other(_),
            },
        decreases src@.len() - *old(pos),
    {
        let ghost s = src@.skip(*old(pos) as int);
        let first = match eat_u8(src, pos) {
            Ok(b) => b,
            Err(e) => {
                return Err(e);
            },
        };
        proof {
            assert(s[0] == first);
            lemma_skip_skip(src@, *old(pos) as int, 1);
            assert(src@.skip(*pos as int) == s.skip(1));
        }
        if first == TAG_SIMPLE || first == TAG_ERROR {
            match eat_line(src, pos) {
                Ok(_) => Ok(()),
                Err(e) => Err(e),
            }
        } else if first == TAG_INTEGER {
            match eat_decimal(src, pos) {
                Ok(_) => Ok(()),
                Err(e) => Err(e),
            }
        } else if first == TAG_BULK {
            let b = match peek_u8(src, *pos) {
                Ok(b) => b,
                Err(e) => {
                    return Err(e);
                },
            };
            if b == TAG_ERROR {
                skip(src, pos, 4)
            } else {
                let len_val = match eat_decimal(src, pos) {
                    Ok(v) => v,
                    Err(e) => {
                        return Err(e);
                    },
                };
                proof {
                    match spec_line(s.skip(1)) {
                        Some(lc) => {
                            crate::decimal::lemma_dec_value_nonneg(lc.0);
                        },
                        None => {},
                    }
                }
                let remaining = src.len() - *pos;
                if (remaining as u64) < len_val {
                    return Err(Error::Incomplete);
                }
                let n = len_val as usize;
                if remaining - n < 2 {
                    return Err(Error::Incomplete);
                }
                skip(src, pos, n + 2)
            }
        } else if first == TAG_ARRAY {
            let count = match eat_decimal(src, pos) {
                Ok(v) => v,
                Err(e) => {
                    return Err(e);
                },
            };
            let ghost header = *pos as int;
            proof {
                match spec_line(s.skip(1)) {
                    Some(lc) => {
                        crate::decimal::lemma_dec_value_nonneg(lc.0);
                    },
                    None => {},
                }
                lemma_skip_skip(src@, *old(pos) as int, header - *old(pos));
            }
            let mut i: u64 = 0;
            while i < count
                invariant
                    i <= count,
                    *old(pos) < header <= *pos <= src@.len(),
                    s == src@.skip(*old(pos) as int),
                    match spec_check_n(src@.skip(*pos as int), count - i) {
                        CheckResult::Complete(m) => spec_check_n(src@.skip(header), count as int)
                            == CheckResult::Complete(*pos - header + m),
                        CheckResult::Incomplete => spec_check_n(src@.skip(header), count as int)
                            == CheckResult::Incomplete,
                        CheckResult::Invalid => spec_check_n(src@.skip(header), count as int)
                            == CheckResult::Invalid,
                    },
                    match spec_check_n(src@.skip(header), count as int) {
                        CheckResult::Complete(m) => spec_check(s) == CheckResult::Complete(
                            (header - *old(pos)) + m,
                        ),
                        CheckResult::Incomplete => spec_check(s) == CheckResult::Incomplete,
                        CheckResult::Invalid => spec_check(s) == CheckResult::Invalid,
                    },
                decreases count - i,
            {
                let ghost prev = *pos as int;
                match Frame::check(src, pos) {
                    Ok(()) => {},
                    Err(e) => {
                        return Err(e);
                    },
                }
                proof {
                    lemma_check_bounds(src@.skip(prev));
                    let c = *pos - prev;
                    lemma_skip_skip(src@, prev, c);
                }
                i = i + 1;
            }
            Ok(())
        } else {
            Err(Error::Other(ProtocolError::InvalidTypeByte))
        }
    }

    /// Decode one frame starting at the cursor, advancing it to the frame's
    /// end, exactly as `spec_parse` reads the bytes.
    pub fn parse(src: &Vec<u8>, pos: &mut usize) -> (r: Result<Frame, Error>)
        requires
            *old(pos) <= src@.len(),
        ensures
            *old(pos) <= *final(pos) <= src@.len(),
            match spec_parse(src@.skip(*old(pos) as int)) {
                ParseResult::Complete(f, n) => r matches Ok(frame) && frame@ == f && *final(pos)
                    == *old(pos) + n,
                ParseResult::Incomplete => r == Err::<Frame, Error>(Error::Incomplete),
                ParseResult::Invalid => r matches Err(e) && e matches Error::Other(_),
            },
        decreases src@.len() - *old(pos),
    {
        let ghost s = src@.skip(*old(pos) as int);
        let first = match eat_u8(src, pos) {
            Ok(b) => b,
            Err(e) => {
                return Err(e);
            },
        };
        proof {
            assert(s[0] == first);
            lemma_skip_skip(src@, *old(pos) as int, 1);
            assert(src@.skip(*pos as int) == s.skip(1));
        }
        if first == TAG_SIMPLE {
            match eat_line(src, pos) {
                Ok(line) => Ok(Frame::Simple(line)),
                Err(e) => Err(e),
            }
        } else if first == TAG_ERROR {
            match eat_line(src, pos) {
                Ok(line) => Ok(Frame::Error(line)),
                Err(e) => Err(e),
            }
        } else if first == TAG_INTEGER {
            match eat_decimal(src, pos) {
                Ok(v) => Ok(Frame::Integer(v)),
                Err(e) => Err(e),
            }
        } else if first == TAG_BULK {
            let b = match peek_u8(src, *pos) {
                Ok(b) => b,
                Err(e) => {
                    return Err(e);
                },
            };
            if b == TAG_ERROR {
                let line = match eat_line(src, pos) {
                    Ok(l) => l,
                    Err(e) => {
                        return Err(e);
                    },
                };
                if line.len() == 2 && line[0] == TAG_ERROR && line[1] == DIGIT_ONE {
                    proof {
                        assert(line@ =~= seq![TAG_ERROR, DIGIT_ONE]);
                    }
                    Ok(Frame::Null)
                } else {
                    proof {
                        if line@ == seq![TAG_ERROR, DIGIT_ONE] {
                            assert(line@.len() == 2);
                            assert(line@[0] == TAG_ERROR);
                            assert(line@[1] == DIGIT_ONE);
                        }
                    }
                    Err(Error::Other(ProtocolError::InvalidFormat))
                }
            } else {
                let len_val = match eat_decimal(src, pos) {
                    Ok(v) => v,
                    Err(e) => {
                        return Err(e);
                    },
                };
                let ghost mut c_line: int = 0;
                proof {
                    match spec_line(s.skip(1)) {
                        Some(lc) => {
                            c_line = lc.1;
                            crate::decimal::lemma_dec_value_nonneg(lc.0);
                        },
                        None => {
                            assert(false);
                        },
                    }
                }
                let remaining = src.len() - *pos;
                if (remaining as u64) < len_val {
                    return Err(Error::Incomplete);
                }
                let n = len_val as usize;
                if remaining - n < 2 {
                    return Err(Error::Incomplete);
                }
                let dstart = *pos;
                assert(dstart + n + 2 <= src@.len());
                let end = dstart + n;
                let mut data: Vec<u8> = Vec::new();
                let mut k: usize = dstart;
                while k < end
                    invariant
                        dstart <= k <= end,
                        end == dstart + n,
                        end + 2 <= src@.len(),
                        data@ == src@.subrange(dstart as int, k as int),
                    decreases end - k,
                {
                    let b2 = src[k];
                    data.push(b2);
                    proof {
                        assert(data@ =~= src@.subrange(dstart as int, k + 1));
                    }
                    k = k + 1;
                }
                *pos = dstart + n + 2;
                proof {
                    lemma_skip_skip(s, 1, c_line);
                    lemma_skip_skip(src@, *old(pos) as int, 1 + c_line);
                    assert(s.skip(1).skip(c_line) == src@.skip(dstart as int));
                    assert(src@.skip(dstart as int).take(n as int) =~= src@.subrange(
                        dstart as int,
                        dstart + n,
                    ));
                }
                Ok(Frame::Bulk(data))
            }
        } else if first == TAG_ARRAY {
            let count = match eat_decimal(src, pos) {
                Ok(v) => v,
                Err(e) => {
                    return Err(e);
                },
            };
            let ghost header = *pos as int;
            let mut out: Vec<Frame> = Vec::new();
            proof {
                match spec_line(s.skip(1)) {
                    Some(lc) => {
                        crate::decimal::lemma_dec_value_nonneg(lc.0);
                    },
                    None => {
                        assert(false);
                    },
                }
                lemma_skip_skip(src@, *old(pos) as int, header - *old(pos));
                match spec_parse_n(src@.skip(header), count as int) {
                    ElemsResult::Complete(elems, m) => {
                        assert(frames_model(out@) + elems =~= elems);
                    },
                    _ => {},
                }
            }
            let mut i: u64 = 0;
            while i < count
                invariant
                    i <= count,
                    out@.len() == i,
                    *old(pos) < header <= *pos <= src@.len(),
                    s == src@.skip(*old(pos) as int),
                    match spec_parse_n(src@.skip(*pos as int), count - i) {
                        ElemsResult::Complete(elems, m) => spec_parse_n(
                            src@.skip(header),
                            count as int,
                        ) == ElemsResult::Complete(frames_model(out@) + elems, *pos - header + m),
                        ElemsResult::Incomplete => spec_parse_n(src@.skip(header), count as int)
                            == ElemsResult::Incomplete,
                        ElemsResult::Invalid => spec_parse_n(src@.skip(header), count as int)
                            == ElemsResult::Invalid,
                    },
                    match spec_parse_n(src@.skip(header), count as int) {
                        ElemsResult::Complete(elems, m) => spec_parse(s) == ParseResult::Complete(
                            SpecFrame::Array(elems),
                            (header - *old(pos)) + m,
                        ),
                        ElemsResult::Incomplete => spec_parse(s) == ParseResult::Incomplete,
                        ElemsResult::Invalid => spec_parse(s) == ParseResult::Invalid,
                    },
                decreases count - i,
            {
                let ghost prev = *pos as int;
                let ghost out_prev = out@;
                let elem = match Frame::parse(src, pos) {
                    Ok(f) => f,
                    Err(e) => {
                        return Err(e);
                    },
                };
                proof {
                    lemma_parse_bounds(src@.skip(prev));
                    lemma_skip_skip(src@, prev, *pos - prev);
                }
                out.push(elem);
                proof {
                    lemma_frames_model_push(out_prev, elem);
                    match spec_parse_n(src@.skip(*pos as int), count - (i + 1)) {
                        ElemsResult::Complete(elems2, m2) => {
                            assert(frames_model(out_prev) + (seq![elem.model()] + elems2)
                                =~= frames_model(out_prev.push(elem)) + elems2);
                        },
                        _ => {},
                    }
                }
                i = i + 1;
            }
            proof {
                assert(frames_model(out@) + Seq::<SpecFrame>::empty() =~= frames_model(out@));
            }
            Ok(Frame::Array(out))
        } else {
            Err(Error::Other(ProtocolError::InvalidTypeByte))
        }
    }

    /// Returns an empty array frame.
    pub fn array() -> (r: Frame)
        ensures
            r@ == SpecFrame::Array(Seq::<SpecFrame>::empty()),
    {
        Frame::Array(Vec::new())
    }

    /// Pushes a bulk frame into the array. The receiver must be an array.
    pub fn push_bulk(&mut self, bytes: Vec<u8>)
        requires
            old(self)@ is Array,
        ensures
            final(self)@ == SpecFrame::Array(
                old(self)@->Array_0.push(SpecFrame::Bulk(bytes@)),
            ),
    {
        let f = Frame::Bulk(bytes);
        match self {
            Frame::Array(vec) => {
                proof {
                    lemma_frames_model_push(vec@, f);
                }
                vec.push(f);
            },
            _ => {
                proof {
                    assert(false);
                }
            },
        }
    }

    /// Pushes an integer frame into the array. The receiver must be an array.
    pub fn push_int(&mut self, value: u64)
        requires
            old(self)@ is Array,
        ensures
            final(self)@ == SpecFrame::Array(
                old(self)@->Array_0.push(SpecFrame::Integer(value)),
            ),
    {
        let f = Frame::Integer(value);
        match self {
            Frame::Array(vec) => {
                proof {
                    lemma_frames_model_push(vec@, f);
                }
                vec.push(f);
            },
            _ => {
                proof {
                    assert(false);
                }
            },
        }
    }

    /// Byte-wise comparison with a plain byte string; true only for
    /// `Simple` and `Bulk` frames holding exactly those bytes.
    pub fn eq_bytes(&self, other: &Vec<u8>) -> (r: bool)
        ensures
            r == self@.is_bytes(other@),
    {
        match self {
            Frame::Simple(s) => crate::bytes_eq(s, other),
            Frame::Bulk(s) => crate::bytes_eq(s, other),
            _ => false,
        }
    }
}

} // verus!

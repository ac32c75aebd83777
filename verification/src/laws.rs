//! Laws of the wire codec.
//!
//! Three theorems about the grammar of `crate::frame`, stated over the
//! mathematical readings `spec_encode`, `spec_parse` and `spec_check`:
//!
//! * decoding an encoded frame gives the frame back (`lemma_round_trip`);
//! * every strict prefix of an encoding is `Incomplete`
//!   (`lemma_prefix_incomplete`);
//! * the prescan never reads beyond the first complete frame: its verdict
//!   is fixed by that frame's bytes alone (`lemma_check_reads_one_frame`).

use vstd::prelude::*;
use crate::frame::{
    SpecFrame, CheckResult, ParseResult, ElemsResult, spec_check, spec_check_n, spec_parse,
    spec_parse_n, spec_line, spec_encode, encode_elems, encodable, line_safe, bounded, no_crlf,
    find_crlf, find_crlf_at, lemma_find_crlf_at_some, lemma_find_crlf_at_none,
    lemma_find_crlf_at_props, lemma_check_bounds, lemma_check_n_bounds, lemma_parse_bounds,
    lemma_parse_n_bounds, lemma_parse_implies_check, lemma_skip_skip, CR, LF, TAG_SIMPLE,
    TAG_ERROR, TAG_INTEGER, TAG_BULK, TAG_ARRAY, DIGIT_ONE,
};
use crate::decimal::{all_digits, dec_value, dec_repr, is_dec_u64, lemma_dec_repr_wf,
    lemma_dec_value_nonneg};

verus! {

proof fn lemma_find_crlf_at_none_inv(s: Seq<u8>, k: int)
    requires
        0 <= k,
        find_crlf_at(s, k) == None::<int>,
    ensures
        forall|j: int| k <= j && j + 1 < s.len() ==> !((#[trigger] s[j]) == CR && s[j + 1] == LF),
    decreases s.len() - k,
{
    if k + 1 < s.len() {
        lemma_find_crlf_at_none_inv(s, k + 1);
    }
}

proof fn lemma_no_crlf_pairs(l: Seq<u8>)
    requires
        no_crlf(l),
    ensures
        forall|j: int| 0 <= j && j + 1 < l.len() ==> !((#[trigger] l[j]) == CR && l[j + 1] == LF),
{
    lemma_find_crlf_at_none_inv(l, 0);
}

proof fn lemma_digits_no_crlf(l: Seq<u8>)
    requires
        all_digits(l),
    ensures
        no_crlf(l),
{
    assert forall|j: int| 0 <= j && j + 1 < l.len() implies !((#[trigger] l[j]) == CR && l[j + 1]
        == LF) by {
        assert(crate::decimal::is_digit(l[j]));
    }
    lemma_find_crlf_at_none(l, 0);
}

/// A line-safe body followed by `\r\n` is read back exactly, whatever
/// comes after the terminator.
proof fn lemma_line_at_front(l: Seq<u8>, t: Seq<u8>)
    requires
        no_crlf(l),
    ensures
        spec_line(l + seq![CR, LF] + t) == Some((l, l.len() as int + 2)),
{
    let s = l + seq![CR, LF] + t;
    lemma_no_crlf_pairs(l);
    assert(s[l.len() as int] == CR);
    assert(s[l.len() as int + 1] == LF);
    assert forall|j: int| 0 <= j < l.len() implies !((#[trigger] s[j]) == CR && s[j + 1] == LF) by {
        assert(s[j] == l[j]);
        if j + 1 < l.len() {
            assert(s[j + 1] == l[j + 1]);
        } else {
            assert(s[j + 1] == CR);
        }
    }
    lemma_find_crlf_at_some(s, 0, l.len() as int);
    assert(s.take(l.len() as int) =~= l);
}

/// Cut anywhere inside the body or just after the `\r`, no line is found.
proof fn lemma_line_prefix_none(l: Seq<u8>, t: Seq<u8>, i: int)
    requires
        no_crlf(l),
        0 <= i <= l.len() + 1,
    ensures
        spec_line((l + seq![CR, LF] + t).take(i)) == None::<(Seq<u8>, int)>,
{
    let p = (l + seq![CR, LF] + t).take(i);
    lemma_no_crlf_pairs(l);
    assert forall|j: int| 0 <= j && j + 1 < p.len() implies !((#[trigger] p[j]) == CR && p[j + 1]
        == LF) by {
        assert(p[j] == l[j]);
        if j + 1 < l.len() {
            assert(p[j + 1] == l[j + 1]);
        } else {
            assert(p[j + 1] == CR);
        }
    }
    lemma_find_crlf_at_none(p, 0);
}

proof fn lemma_skip_concat(a: Seq<u8>, b: Seq<u8>, k: int)
    requires
        0 <= k <= a.len(),
    ensures
        (a + b).skip(k) == a.skip(k) + b,
{
    assert((a + b).skip(k) =~= a.skip(k) + b);
}

proof fn lemma_take_concat(a: Seq<u8>, b: Seq<u8>, k: int)
    requires
        0 <= k <= a.len(),
    ensures
        (a + b).take(k) == a.take(k),
{
    assert((a + b).take(k) =~= a.take(k));
}

/// A found line is unchanged by appending bytes.
proof fn lemma_line_extend(s: Seq<u8>, t: Seq<u8>)
    ensures
        spec_line(s) matches Some(lc) ==> spec_line(s + t) == Some(lc),
{
    match find_crlf(s) {
        Some(i) => {
            lemma_find_crlf_at_props(s, 0);
            if 0 <= i && i + 1 < s.len() {
                let u = s + t;
                assert(u[i] == s[i]);
                assert(u[i + 1] == s[i + 1]);
                assert forall|j: int| 0 <= j < i implies !((#[trigger] u[j]) == CR && u[j + 1]
                    == LF) by {
                    assert(u[j] == s[j]);
                    assert(u[j + 1] == s[j + 1]);
                }
                lemma_find_crlf_at_some(u, 0, i);
                lemma_take_concat(s, t, i);
            }
        },
        None => {},
    }
}

/// A found line is unchanged by truncating anywhere at or after it.
proof fn lemma_line_truncate(s: Seq<u8>, j: int)
    ensures
        spec_line(s) matches Some(lc) ==> lc.1 <= j <= s.len() ==> spec_line(s.take(j)) == Some(
            lc,
        ),
{
    match find_crlf(s) {
        Some(i) => {
            lemma_find_crlf_at_props(s, 0);
            if 0 <= i && i + 1 < s.len() && i + 2 <= j <= s.len() {
                let p = s.take(j);
                assert(p[i] == s[i]);
                assert(p[i + 1] == s[i + 1]);
                assert forall|j2: int| 0 <= j2 < i implies !((#[trigger] p[j2]) == CR && p[j2 + 1]
                    == LF) by {
                    assert(p[j2] == s[j2]);
                    assert(p[j2 + 1] == s[j2 + 1]);
                }
                lemma_find_crlf_at_some(p, 0, i);
                assert(p.take(i) =~= s.take(i));
            }
        },
        None => {},
    }
}

/// A complete prescan is unchanged by appending bytes.
pub proof fn lemma_check_extend(s: Seq<u8>, t: Seq<u8>)
    ensures
        spec_check(s) matches CheckResult::Complete(c) ==> spec_check(s + t)
            == CheckResult::Complete(c),
    decreases s.len(), 0int,
{
    match spec_check(s) {
        CheckResult::Complete(c) => {
            let u = s + t;
            let rest = s.skip(1);
            let restu = u.skip(1);
            assert(u[0] == s[0]);
            lemma_skip_concat(s, t, 1);
            assert(restu == rest + t);
            lemma_line_extend(rest, t);
            if s[0] == TAG_BULK {
                if rest.len() > 0 {
                    assert(restu[0] == rest[0]);
                }
                match spec_line(rest) {
                    Some(lc) => {
                        if is_dec_u64(lc.0) {
                            lemma_dec_value_nonneg(lc.0);
                        }
                    },
                    None => {},
                }
            }
            if s[0] == TAG_ARRAY {
                match spec_line(rest) {
                    Some(lc) => {
                        if is_dec_u64(lc.0) {
                            lemma_dec_value_nonneg(lc.0);
                            lemma_skip_concat(s, t, 1 + lc.1);
                            lemma_check_n_extend(s.skip(1 + lc.1), t, dec_value(lc.0));
                        }
                    },
                    None => {},
                }
            }
        },
        _ => {},
    }
}

pub proof fn lemma_check_n_extend(s: Seq<u8>, t: Seq<u8>, n: int)
    ensures
        spec_check_n(s, n) matches CheckResult::Complete(m) ==> spec_check_n(s + t, n)
            == CheckResult::Complete(m),
    decreases s.len(), n,
{
    if n > 0 {
        lemma_check_bounds(s);
        lemma_check_extend(s, t);
        match spec_check(s) {
            CheckResult::Complete(c) => {
                if 1 <= c <= s.len() {
                    lemma_skip_concat(s, t, c);
                    lemma_check_n_extend(s.skip(c), t, n - 1);
                }
            },
            _ => {},
        }
    }
}

/// A complete decode is unchanged by appending bytes.
pub proof fn lemma_parse_extend(s: Seq<u8>, t: Seq<u8>)
    ensures
        spec_parse(s) matches ParseResult::Complete(f, c) ==> spec_parse(s + t)
            == ParseResult::Complete(f, c),
    decreases s.len(), 0int,
{
    match spec_parse(s) {
        ParseResult::Complete(f, c) => {
            let u = s + t;
            let rest = s.skip(1);
            let restu = u.skip(1);
            assert(u[0] == s[0]);
            lemma_skip_concat(s, t, 1);
            assert(restu == rest + t);
            lemma_line_extend(rest, t);
            if s[0] == TAG_BULK {
                if rest.len() > 0 {
                    assert(restu[0] == rest[0]);
                }
                match spec_line(rest) {
                    Some(lc) => {
                        if is_dec_u64(lc.0) {
                            lemma_dec_value_nonneg(lc.0);
                            let len = dec_value(lc.0);
                            if rest.len() - lc.1 >= len + 2 {
                                lemma_skip_concat(rest, t, lc.1);
                                lemma_take_concat(rest.skip(lc.1), t, len);
                            }
                        }
                    },
                    None => {},
                }
            }
            if s[0] == TAG_ARRAY {
                match spec_line(rest) {
                    Some(lc) => {
                        if is_dec_u64(lc.0) {
                            lemma_dec_value_nonneg(lc.0);
                            lemma_skip_concat(s, t, 1 + lc.1);
                            lemma_parse_n_extend(s.skip(1 + lc.1), t, dec_value(lc.0));
                        }
                    },
                    None => {},
                }
            }
        },
        _ => {},
    }
}

pub proof fn lemma_parse_n_extend(s: Seq<u8>, t: Seq<u8>, n: int)
    ensures
        spec_parse_n(s, n) matches ElemsResult::Complete(elems, m) ==> spec_parse_n(s + t, n)
            == ElemsResult::Complete(elems, m),
    decreases s.len(), n,
{
    if n > 0 {
        lemma_parse_bounds(s);
        lemma_parse_extend(s, t);
        match spec_parse(s) {
            ParseResult::Complete(f, c) => {
                if 1 <= c <= s.len() {
                    lemma_skip_concat(s, t, c);
                    lemma_parse_n_extend(s.skip(c), t, n - 1);
                }
            },
            _ => {},
        }
    }
}

/// A complete prescan is unchanged by truncating to exactly its extent.
pub proof fn lemma_check_truncate(s: Seq<u8>)
    ensures
        spec_check(s) matches CheckResult::Complete(c) ==> spec_check(s.take(c))
            == CheckResult::Complete(c),
    decreases s.len(), 0int,
{
    match spec_check(s) {
        CheckResult::Complete(c) => {
            lemma_check_bounds(s);
            let p = s.take(c);
            let rest = s.skip(1);
            let restp = p.skip(1);
            assert(p[0] == s[0]);
            assert(restp =~= rest.take(c - 1));
            lemma_line_truncate(rest, c - 1);
            if s[0] == TAG_BULK {
                if restp.len() > 0 {
                    assert(restp[0] == rest[0]);
                }
                match spec_line(rest) {
                    Some(lc) => {
                        if is_dec_u64(lc.0) {
                            lemma_dec_value_nonneg(lc.0);
                        }
                    },
                    None => {},
                }
            }
            if s[0] == TAG_ARRAY {
                match spec_line(rest) {
                    Some(lc) => {
                        if is_dec_u64(lc.0) {
                            lemma_dec_value_nonneg(lc.0);
                            match spec_check_n(s.skip(1 + lc.1), dec_value(lc.0)) {
                                CheckResult::Complete(m) => {
                                    lemma_check_n_bounds(s.skip(1 + lc.1), dec_value(lc.0));
                                    lemma_check_n_truncate(s.skip(1 + lc.1), dec_value(lc.0));
                                    assert(p.skip(1 + lc.1) =~= s.skip(1 + lc.1).take(m));
                                },
                                _ => {},
                            }
                        }
                    },
                    None => {},
                }
            }
        },
        _ => {},
    }
}

proof fn lemma_parse_encode_value(f: SpecFrame)
    requires
        !(f is Array),
        line_safe(f),
        bounded(f),
    ensures
        spec_parse(spec_encode(f)) == ParseResult::Complete(f, spec_encode(f).len() as int),
{
    let e = spec_encode(f);
    match f {
        SpecFrame::Simple(s0) => {
            assert(e[0] == TAG_SIMPLE);
            assert(e.skip(1) =~= s0 + seq![CR, LF] + Seq::<u8>::empty());
            lemma_line_at_front(s0, Seq::empty());
        },
        SpecFrame::Error(s0) => {
            assert(e[0] == TAG_ERROR);
            assert(e.skip(1) =~= s0 + seq![CR, LF] + Seq::<u8>::empty());
            lemma_line_at_front(s0, Seq::empty());
        },
        SpecFrame::Integer(n) => {
            let l = dec_repr(n as int);
            lemma_dec_repr_wf(n as int);
            lemma_digits_no_crlf(l);
            assert(e[0] == TAG_INTEGER);
            assert(e.skip(1) =~= l + seq![CR, LF] + Seq::<u8>::empty());
            lemma_line_at_front(l, Seq::empty());
            assert(is_dec_u64(l));
            assert(dec_value(l) as u64 == n);
        },
        SpecFrame::Null => {
            let l = seq![TAG_ERROR, DIGIT_ONE];
            assert forall|j: int| 0 <= j && j + 1 < l.len() implies !((#[trigger] l[j]) == CR && l[j
                + 1] == LF) by {}
            lemma_find_crlf_at_none(l, 0);
            assert(e[0] == TAG_BULK);
            assert(e.skip(1) =~= l + seq![CR, LF] + Seq::<u8>::empty());
            lemma_line_at_front(l, Seq::empty());
            assert(e.skip(1)[0] == TAG_ERROR);
        },
        SpecFrame::Bulk(b) => {
            let l = dec_repr(b.len() as int);
            lemma_dec_repr_wf(b.len() as int);
            lemma_digits_no_crlf(l);
            let tail = b + seq![CR, LF];
            assert(e[0] == TAG_BULK);
            let rest = e.skip(1);
            assert(rest =~= l + seq![CR, LF] + tail);
            lemma_line_at_front(l, tail);
            assert(is_dec_u64(l));
            assert(rest[0] == l[0]);
            assert(crate::decimal::is_digit(l[0]));
            lemma_skip_concat(l + seq![CR, LF], tail, l.len() as int + 2);
            assert((l + seq![CR, LF]).skip(l.len() as int + 2) =~= Seq::<u8>::empty());
            assert(rest.skip(l.len() as int + 2) =~= tail);
            lemma_take_concat(b, seq![CR, LF], b.len() as int);
            assert(tail.take(b.len() as int) =~= b);
        },
        SpecFrame::Array(_) => {
            assert(false);
        },
    }
}

proof fn lemma_parse_n_encode_elems(elems: Seq<SpecFrame>)
    requires
        forall|i: int| 0 <= i < elems.len() ==> !((#[trigger] elems[i]) is Array),
        forall|i: int| 0 <= i < elems.len() ==> line_safe(#[trigger] elems[i]),
        forall|i: int| 0 <= i < elems.len() ==> bounded(#[trigger] elems[i]),
    ensures
        spec_parse_n(encode_elems(elems), elems.len() as int) == ElemsResult::Complete(
            elems,
            encode_elems(elems).len() as int,
        ),
    decreases elems,
{
    if elems.len() == 0 {
        assert(elems =~= Seq::<SpecFrame>::empty());
    } else {
        let e0 = elems[0];
        let rest = elems.drop_first();
        let e_first = spec_encode(e0);
        let e_rest = encode_elems(rest);
        let e_all = encode_elems(elems);
        assert(e_all == e_first + e_rest);
        lemma_parse_encode_value(e0);
        lemma_parse_extend(e_first, e_rest);
        lemma_parse_bounds(e_all);
        lemma_skip_concat(e_first, e_rest, e_first.len() as int);
        assert(e_first.skip(e_first.len() as int) =~= Seq::<u8>::empty());
        assert(e_all.skip(e_first.len() as int) =~= e_rest);
        assert forall|i: int| 0 <= i < rest.len() implies !((#[trigger] rest[i]) is Array) by {
            assert(rest[i] == elems[i + 1]);
        }
        assert forall|i: int| 0 <= i < rest.len() implies line_safe(#[trigger] rest[i]) by {
            assert(rest[i] == elems[i + 1]);
        }
        assert forall|i: int| 0 <= i < rest.len() implies bounded(#[trigger] rest[i]) by {
            assert(rest[i] == elems[i + 1]);
        }
        lemma_parse_n_encode_elems(rest);
        assert(seq![e0] + rest =~= elems);
    }
}

/// Round trip: a frame with no nested array decodes from its own encoding,
/// consuming exactly the encoding. `Simple` and `Error` payloads must not
/// contain `\r\n`: they are line-delimited on the wire, so an embedded
/// terminator cuts the frame short (bulk payloads are length-prefixed and
/// free). Payload lengths must fit the wire's `u64` length fields, which
/// every frame built from vectors does.
pub proof fn lemma_round_trip(f: SpecFrame)
    requires
        encodable(f),
        line_safe(f),
        bounded(f),
    ensures
        spec_parse(spec_encode(f)) == ParseResult::Complete(f, spec_encode(f).len() as int),
{
    match f {
        SpecFrame::Array(elems) => {
            let e = spec_encode(f);
            let l = dec_repr(elems.len() as int);
            lemma_dec_repr_wf(elems.len() as int);
            lemma_digits_no_crlf(l);
            let ee = encode_elems(elems);
            assert(e[0] == TAG_ARRAY);
            assert(e.skip(1) =~= l + seq![CR, LF] + ee);
            lemma_line_at_front(l, ee);
            assert(is_dec_u64(l));
            lemma_skip_skip(e, 1, l.len() as int + 2);
            lemma_skip_concat(l + seq![CR, LF], ee, l.len() as int + 2);
            assert((l + seq![CR, LF]).skip(l.len() as int + 2) =~= Seq::<u8>::empty());
            assert(e.skip(1 + (l.len() as int + 2)) =~= ee);
            lemma_parse_n_encode_elems(elems);
            assert(dec_value(l) as u64 as int == elems.len());
        },
        _ => {
            lemma_parse_encode_value(f);
        },
    }
}

/// An encoded frame passes the prescan, which consumes exactly the encoding.
pub proof fn lemma_check_encode(f: SpecFrame)
    requires
        encodable(f),
        line_safe(f),
        bounded(f),
    ensures
        spec_check(spec_encode(f)) == CheckResult::Complete(spec_encode(f).len() as int),
{
    lemma_round_trip(f);
    lemma_parse_implies_check(spec_encode(f));
}

proof fn lemma_check_prefix_value(f: SpecFrame, i: int)
    requires
        !(f is Array),
        line_safe(f),
        bounded(f),
        0 <= i < spec_encode(f).len(),
    ensures
        spec_check(spec_encode(f).take(i)) == CheckResult::Incomplete,
{
    let e = spec_encode(f);
    let p = e.take(i);
    if i == 0 {
        assert(p.len() == 0);
    } else {
        assert(p[0] == e[0]);
        let restp = p.skip(1);
        match f {
            SpecFrame::Simple(s0) => {
                assert(restp =~= (s0 + seq![CR, LF] + Seq::<u8>::empty()).take(i - 1));
                lemma_line_prefix_none(s0, Seq::empty(), i - 1);
            },
            SpecFrame::Error(s0) => {
                assert(restp =~= (s0 + seq![CR, LF] + Seq::<u8>::empty()).take(i - 1));
                lemma_line_prefix_none(s0, Seq::empty(), i - 1);
            },
            SpecFrame::Integer(n) => {
                let l = dec_repr(n as int);
                lemma_dec_repr_wf(n as int);
                lemma_digits_no_crlf(l);
                assert(restp =~= (l + seq![CR, LF] + Seq::<u8>::empty()).take(i - 1));
                lemma_line_prefix_none(l, Seq::empty(), i - 1);
            },
            SpecFrame::Null => {
                if i >= 2 {
                    assert(restp[0] == TAG_ERROR);
                    assert(restp.len() < 4);
                }
            },
            SpecFrame::Bulk(b) => {
                let l = dec_repr(b.len() as int);
                lemma_dec_repr_wf(b.len() as int);
                lemma_digits_no_crlf(l);
                let tail = b + seq![CR, LF];
                if i - 1 <= l.len() + 1 {
                    assert(restp =~= (l + seq![CR, LF] + tail).take(i - 1));
                    lemma_line_prefix_none(l, tail, i - 1);
                    if restp.len() > 0 {
                        assert(restp[0] == l[0]);
                        assert(crate::decimal::is_digit(l[0]));
                    }
                } else {
                    let k = i - 1 - (l.len() as int + 2);
                    assert(restp =~= l + seq![CR, LF] + tail.take(k));
                    lemma_line_at_front(l, tail.take(k));
                    assert(is_dec_u64(l));
                    assert(restp[0] == l[0]);
                    assert(crate::decimal::is_digit(l[0]));
                    assert(restp.len() - (l.len() as int + 2) < b.len() + 2);
                }
            },
            SpecFrame::Array(_) => {
                assert(false);
            },
        }
    }
}

proof fn lemma_check_n_elems_prefix(elems: Seq<SpecFrame>, k: int)
    requires
        forall|i: int| 0 <= i < elems.len() ==> !((#[trigger] elems[i]) is Array),
        forall|i: int| 0 <= i < elems.len() ==> line_safe(#[trigger] elems[i]),
        forall|i: int| 0 <= i < elems.len() ==> bounded(#[trigger] elems[i]),
        0 <= k < encode_elems(elems).len(),
    ensures
        spec_check_n(encode_elems(elems).take(k), elems.len() as int) == CheckResult::Incomplete,
    decreases elems,
{
    assert(elems.len() > 0);
    let e0 = elems[0];
    let rest = elems.drop_first();
    let e_first = spec_encode(e0);
    let e_rest = encode_elems(rest);
    let e_all = encode_elems(elems);
    assert(e_all == e_first + e_rest);
    lemma_parse_encode_value(e0);
    lemma_parse_implies_check(e_first);
    lemma_check_bounds(e_first);
    if k < e_first.len() {
        lemma_take_concat(e_first, e_rest, k);
        lemma_check_prefix_value(e0, k);
    } else {
        let k1 = k - e_first.len();
        assert(e_all.take(k) =~= e_first + e_rest.take(k1));
        lemma_check_extend(e_first, e_rest.take(k1));
        lemma_skip_concat(e_first, e_rest.take(k1), e_first.len() as int);
        assert(e_first.skip(e_first.len() as int) =~= Seq::<u8>::empty());
        assert(e_all.take(k).skip(e_first.len() as int) =~= e_rest.take(k1));
        assert forall|i: int| 0 <= i < rest.len() implies !((#[trigger] rest[i]) is Array) by {
            assert(rest[i] == elems[i + 1]);
        }
        assert forall|i: int| 0 <= i < rest.len() implies line_safe(#[trigger] rest[i]) by {
            assert(rest[i] == elems[i + 1]);
        }
        assert forall|i: int| 0 <= i < rest.len() implies bounded(#[trigger] rest[i]) by {
            assert(rest[i] == elems[i + 1]);
        }
        lemma_check_n_elems_prefix(rest, k1);
    }
}

/// Every strict prefix of an encoded frame is `Incomplete` under the
/// prescan: the reader can always tell that more bytes are owed.
pub proof fn lemma_prefix_incomplete(f: SpecFrame, i: int)
    requires
        encodable(f),
        line_safe(f),
        bounded(f),
        0 <= i < spec_encode(f).len(),
    ensures
        spec_check(spec_encode(f).take(i)) == CheckResult::Incomplete,
{
    match f {
        SpecFrame::Array(elems) => {
            let e = spec_encode(f);
            let p = e.take(i);
            let l = dec_repr(elems.len() as int);
            lemma_dec_repr_wf(elems.len() as int);
            lemma_digits_no_crlf(l);
            let ee = encode_elems(elems);
            if i == 0 {
                assert(p.len() == 0);
            } else {
                assert(p[0] == e[0]);
                assert(e[0] == TAG_ARRAY);
                let restp = p.skip(1);
                if i - 1 <= l.len() + 1 {
                    assert(restp =~= (l + seq![CR, LF] + ee).take(i - 1));
                    lemma_line_prefix_none(l, ee, i - 1);
                } else {
                    let k = i - 1 - (l.len() as int + 2);
                    assert(restp =~= l + seq![CR, LF] + ee.take(k));
                    lemma_line_at_front(l, ee.take(k));
                    assert(is_dec_u64(l));
                    assert(p.skip(1 + (l.len() as int + 2)) =~= ee.take(k));
                    lemma_check_n_elems_prefix(elems, k);
                }
            }
        },
        _ => {
            lemma_check_prefix_value(f, i);
        },
    }
}

/// The prescan never reads beyond the first complete frame: when it finds a
/// frame of `c` bytes, the verdict is fixed by those `c` bytes alone, and
/// any bytes that follow them are neither read nor needed.
pub proof fn lemma_check_reads_one_frame(s: Seq<u8>, t: Seq<u8>)
    ensures
        spec_check(s) matches CheckResult::Complete(c) ==> {
            &&& 1 <= c <= s.len()
            &&& spec_check(s.take(c)) == CheckResult::Complete(c)
            &&& spec_check(s + t) == CheckResult::Complete(c)
            &&& spec_check(s.take(c) + t) == CheckResult::Complete(c)
        },
{
    lemma_check_bounds(s);
    lemma_check_truncate(s);
    lemma_check_extend(s, t);
    match spec_check(s) {
        CheckResult::Complete(c) => {
            lemma_check_extend(s.take(c), t);
        },
        _ => {},
    }
}

pub proof fn lemma_check_n_truncate(s: Seq<u8>, n: int)
    ensures
        spec_check_n(s, n) matches CheckResult::Complete(m) ==> spec_check_n(s.take(m), n)
            == CheckResult::Complete(m),
    decreases s.len(), n,
{
    if n > 0 {
        lemma_check_bounds(s);
        match spec_check(s) {
            CheckResult::Complete(c) => {
                if 1 <= c <= s.len() {
                    match spec_check_n(s.skip(c), n - 1) {
                        CheckResult::Complete(m2) => {
                            lemma_check_n_bounds(s.skip(c), n - 1);
                            lemma_check_truncate(s);
                            lemma_check_n_truncate(s.skip(c), n - 1);
                            // s.take(c + m2) == s.take(c) + s.skip(c).take(m2)
                            let p = s.take(c + m2);
                            assert(p =~= s.take(c) + s.skip(c).take(m2));
                            lemma_check_extend(s.take(c), s.skip(c).take(m2));
                            lemma_skip_concat(s.take(c), s.skip(c).take(m2), c);
                            assert(s.take(c).skip(c) =~= Seq::<u8>::empty());
                            assert(p.skip(c) =~= s.skip(c).take(m2));
                        },
                        _ => {},
                    }
                }
            },
            _ => {},
        }
    }
}

} // verus!

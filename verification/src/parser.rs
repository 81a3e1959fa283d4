use vstd::prelude::*;

use crate::num::line_i64;
use crate::num::parse_i64;
use crate::value::Value;
use crate::value::ValueModel;
use crate::value::value_model;
use crate::value::value_models;
use crate::value::lemma_value_models;

verus! {

/// Why a buffer's leading bytes cannot begin a frame.
#[derive(Clone, Copy, Debug, PartialEq, Eq, Structural)]
pub enum ParseError {
    /// The first byte is not one of the six type tags.
    UnknownType,
    /// An integer line that does not read as a signed 64-bit number.
    InvalidInteger,
    /// A bulk-string or array length prefix that does not read as a
    /// length: not a number, or negative other than the null marker.
    InvalidLength,
    /// A boolean frame whose second byte is not `t`/`f`, or that does not
    /// end in CRLF.
    InvalidBoolean,
}

/// What one attempt at decoding the front of a buffer yields.
#[derive(Debug, PartialEq)]
pub enum ParseOutcome {
    /// The buffer holds a prefix of a frame; retry once more bytes arrive.
    NeedMoreData,
    /// A complete value, and how many bytes of the buffer it took.
    Parsed(Value, usize),
    /// The buffer can never become a frame.
    Malformed(ParseError),
}

/// The outcome at the specification level, over models.
#[verifier::ext_equal]
pub enum SpecParse {
    More,
    Val(ValueModel, nat),
    Bad(ParseError),
}

/// The outcome of decoding a run of consecutive frames.
#[verifier::ext_equal]
pub enum SpecElems {
    More,
    Bad(ParseError),
    Vals(Seq<ValueModel>, nat),
}

/// Index of the first carriage-return/line-feed pair in `s`.
pub open spec fn crlf_pos(s: Seq<u8>) -> Option<int>
    decreases s.len(),
{
    if s.len() < 2 {
        None
    } else if s[0] == 13 && s[1] == 10 {
        Some(0)
    } else {
        match crlf_pos(s.drop_first()) {
            None => None,
            Some(i) => Some(i + 1),
        }
    }
}

pub proof fn lemma_crlf_pos_char(s: Seq<u8>)
    ensures
        match crlf_pos(s) {
            Some(p) => 0 <= p && p + 2 <= s.len() && s[p] == 13 && s[p + 1] == 10
                && (forall|j: int| 0 <= j < p ==> !(#[trigger] s[j] == 13 && s[j + 1] == 10)),
            None => forall|j: int|
                0 <= j && j + 1 < s.len() ==> !(#[trigger] s[j] == 13 && s[j + 1] == 10),
        },
    decreases s.len(),
{
    if s.len() < 2 {
    } else if s[0] == 13 && s[1] == 10 {
    } else {
        lemma_crlf_pos_char(s.drop_first());
        let t = s.drop_first();
        match crlf_pos(s) {
            None => {
                assert forall|j: int| 0 <= j && j + 1 < s.len() implies !(#[trigger] s[j] == 13
                    && s[j + 1] == 10) by {
                    if j > 0 {
                        assert(t[j - 1] == s[j]);
                        assert(t[j] == s[j + 1]);
                        assert(!(t[j - 1] == 13 && t[j] == 10));
                    }
                }
            },
            Some(p) => {
                assert(crlf_pos(t) == Some(p - 1));
                assert(t[p - 1] == s[p]);
                assert(t[p] == s[p + 1]);
                assert forall|j: int| 0 <= j < p implies !(#[trigger] s[j] == 13
                    && s[j + 1] == 10) by {
                    if j > 0 {
                        assert(t[j - 1] == s[j]);
                        assert(t[j] == s[j + 1]);
                        assert(!(t[j - 1] == 13 && t[j] == 10));
                    }
                }
            },
        }
    }
}

/// What the front of a byte buffer means: one frame, a prefix of a frame,
/// or bytes that can never become a frame. Dispatch is on the first byte.
pub open spec fn spec_parse(s: Seq<u8>) -> SpecParse
    decreases s.len(), 0int, 0int,
{
    if s.len() == 0 {
        SpecParse::More
    } else if s[0] == 43 {  // '+' simple string
        match crlf_pos(s.drop_first()) {
            None => SpecParse::More,
            Some(p) => SpecParse::Val(
                ValueModel::SimpleString(s.subrange(1, 1 + p)),
                (p + 3) as nat,
            ),
        }
    } else if s[0] == 45 {  // '-' error
        match crlf_pos(s.drop_first()) {
            None => SpecParse::More,
            Some(p) => SpecParse::Val(ValueModel::Error(s.subrange(1, 1 + p)), (p + 3) as nat),
        }
    } else if s[0] == 58 {  // ':' integer
        match crlf_pos(s.drop_first()) {
            None => SpecParse::More,
            Some(p) => match line_i64(s.subrange(1, 1 + p)) {
                None => SpecParse::Bad(ParseError::InvalidInteger),
                Some(i) => SpecParse::Val(ValueModel::Integer(i), (p + 3) as nat),
            },
        }
    } else if s[0] == 36 {  // '$' bulk string
        match crlf_pos(s.drop_first()) {
            None => SpecParse::More,
            Some(p) => match line_i64(s.subrange(1, 1 + p)) {
                None => SpecParse::Bad(ParseError::InvalidLength),
                Some(l) => if l == -1 {
                    SpecParse::Val(ValueModel::Null, (p + 3) as nat)
                } else if l < 0 {
                    SpecParse::Bad(ParseError::InvalidLength)
                } else if s.len() < p + 3 + l + 2 {
                    SpecParse::More
                } else {
                    SpecParse::Val(
                        ValueModel::BulkString(s.subrange(p + 3, p + 3 + l)),
                        (p + 3 + l + 2) as nat,
                    )
                },
            },
        }
    } else if s[0] == 42 {  // '*' array
        match crlf_pos(s.drop_first()) {
            None => SpecParse::More,
            Some(p) => match line_i64(s.subrange(1, 1 + p)) {
                None => SpecParse::Bad(ParseError::InvalidLength),
                Some(k) => if k == -1 {
                    SpecParse::Val(ValueModel::Null, (p + 3) as nat)
                } else if k < 0 {
                    SpecParse::Bad(ParseError::InvalidLength)
                } else if 0 <= p && p + 3 <= s.len() {
                    match spec_parse_elems(s.skip(p + 3), k) {
                        SpecElems::More => SpecParse::More,
                        SpecElems::Bad(e) => SpecParse::Bad(e),
                        SpecElems::Vals(vs, m) => SpecParse::Val(
                            ValueModel::Array(vs),
                            (p + 3) as nat + m,
                        ),
                    }
                } else {
                    SpecParse::More
                },
            },
        }
    } else if s[0] == 35 {  // '#' boolean
        if s.len() < 4 {
            SpecParse::More
        } else if s[1] != 116 && s[1] != 102 {
            SpecParse::Bad(ParseError::InvalidBoolean)
        } else if s[2] != 13 || s[3] != 10 {
            SpecParse::Bad(ParseError::InvalidBoolean)
        } else {
            SpecParse::Val(ValueModel::Boolean(s[1] == 116), 4)
        }
    } else {
        SpecParse::Bad(ParseError::UnknownType)
    }
}

/// Decodes `k` consecutive frames from the front of `s`. All of them
/// decode, or the run reports the first incomplete or malformed one.
pub open spec fn spec_parse_elems(s: Seq<u8>, k: int) -> SpecElems
    decreases s.len(), 1int, k,
{
    if k <= 0 {
        SpecElems::Vals(Seq::empty(), 0)
    } else {
        match spec_parse(s) {
            SpecParse::More => SpecElems::More,
            SpecParse::Bad(e) => SpecElems::Bad(e),
            SpecParse::Val(v, n) => if 0 < n <= s.len() {
                match spec_parse_elems(s.skip(n as int), k - 1) {
                    SpecElems::More => SpecElems::More,
                    SpecElems::Bad(e) => SpecElems::Bad(e),
                    SpecElems::Vals(vs, m) => SpecElems::Vals(seq![v] + vs, n + m),
                }
            } else {
                SpecElems::More
            },
        }
    }
}

/// The exec outcome `r` says of the buffer exactly what the spec-level
/// outcome `sp` says.
pub open spec fn outcome_matches(r: ParseOutcome, sp: SpecParse) -> bool {
    match r {
        ParseOutcome::NeedMoreData => sp is More,
        ParseOutcome::Parsed(v, n) => sp == SpecParse::Val(value_model(v), n as nat),
        ParseOutcome::Malformed(e) => sp == SpecParse::Bad(e),
    }
}

/// Finds the first carriage-return/line-feed pair at or after `from`.
#[verifier::loop_isolation(false)]
fn find_crlf(buf: &[u8], from: usize) -> (r: Option<usize>)
    requires
        from <= buf@.len(),
    ensures
        match r {
            Some(j) => from <= j && j + 2 <= buf@.len()
                && crlf_pos(buf@.skip(from as int)) == Some(j - from),
            None => crlf_pos(buf@.skip(from as int)) is None,
        },
{
    let ghost s = buf@.skip(from as int);
    proof {
        lemma_crlf_pos_char(s);
        assert(forall|j: int| 0 <= j < s.len() ==> #[trigger] s[j] == buf@[from + j]);
    }
    if buf.len() - from < 2 {
        return None;
    }
    let mut i: usize = from;
    while i < buf.len() - 1
        invariant
            from <= i <= buf@.len(),
            forall|j: int| 0 <= j < i - from ==> !(#[trigger] s[j] == 13 && s[j + 1] == 10),
        decreases buf@.len() - i,
    {
        if buf[i] == 13 && buf[i + 1] == 10 {
            proof {
                assert(s[i - from] == 13 && s[i - from + 1] == 10);
                if crlf_pos(s) is None {
                    assert(false);
                } else {
                    let p = crlf_pos(s)->0;
                    if p < i - from {
                        assert(!(s[p] == 13 && s[p + 1] == 10));
                        assert(false);
                    }
                    if p > i - from {
                        assert(!(s[i - from] == 13 && s[i - from + 1] == 10));
                        assert(false);
                    }
                }
            }
            return Some(i);
        }
        i = i + 1;
    }
    proof {
        if crlf_pos(s) is Some {
            let p = crlf_pos(s)->0;
            assert(!(s[p] == 13 && s[p + 1] == 10));
            assert(false);
        }
    }
    None
}

/// Copies `buf[start..end]` into a fresh vector.
#[verifier::loop_isolation(false)]
pub fn copy_range(buf: &[u8], start: usize, end: usize) -> (r: Vec<u8>)
    requires
        start <= end <= buf@.len(),
    ensures
        r@ == buf@.subrange(start as int, end as int),
{
    let mut r: Vec<u8> = Vec::new();
    let mut i: usize = start;
    while i < end
        invariant
            start <= i <= end,
            r@ == buf@.subrange(start as int, i as int),
        decreases end - i,
    {
        r.push(buf[i]);
        proof {
            assert(buf@.subrange(start as int, i as int).push(buf@[i as int])
                =~= buf@.subrange(start as int, i + 1));
        }
        i = i + 1;
    }
    r
}

/// The incremental frame decoder. It never performs I/O: it is a pure
/// function of the bytes it is shown.
pub struct RespParser;

impl RespParser {
    pub fn new() -> RespParser {
        RespParser
    }

    /// Decodes the frame at the front of `buf`, if it is all there.
    pub fn parse_message(buf: &[u8]) -> (r: ParseOutcome)
        ensures
            outcome_matches(r, spec_parse(buf@)),
            r matches ParseOutcome::Parsed(v, n) ==> 1 <= n <= buf@.len(),
    {
        let r = parse_at(buf, 0);
        proof {
            assert(buf@.skip(0) =~= buf@);
        }
        r
    }

    /// Decodes the frame at the front of `buf` and removes its bytes.
    /// On any other outcome the buffer is left untouched.
    pub fn take_message(buf: &mut Vec<u8>) -> (r: ParseOutcome)
        ensures
            match r {
                ParseOutcome::NeedMoreData => final(buf)@ == old(buf)@
                    && spec_parse(old(buf)@) is More,
                ParseOutcome::Malformed(e) => final(buf)@ == old(buf)@
                    && spec_parse(old(buf)@) == SpecParse::Bad(e),
                ParseOutcome::Parsed(v, n) => 1 <= n <= old(buf)@.len()
                    && spec_parse(old(buf)@) == SpecParse::Val(value_model(v), n as nat)
                    && final(buf)@ == old(buf)@.skip(n as int),
            },
    {
        let r = Self::parse_message(buf.as_slice());
        match r {
            ParseOutcome::Parsed(v, n) => {
                let rest = copy_range(buf.as_slice(), n, buf.len());
                proof {
                    assert(old(buf)@.subrange(n as int, old(buf)@.len() as int)
                        =~= old(buf)@.skip(n as int));
                }
                *buf = rest;
                ParseOutcome::Parsed(v, n)
            },
            other => other,
        }
    }
}

/// Decodes the frame beginning at `off`; consumed lengths are relative
/// to `off`.
#[verifier::loop_isolation(false)]
#[verifier::rlimit(60)]
fn parse_at(buf: &[u8], off: usize) -> (r: ParseOutcome)
    requires
        off <= buf@.len(),
    ensures
        outcome_matches(r, spec_parse(buf@.skip(off as int))),
        r matches ParseOutcome::Parsed(v, n) ==> 1 <= n && off + n <= buf@.len(),
    decreases buf@.len() - off, 1int,
{
    let ghost s = buf@.skip(off as int);
    proof {
        assert(forall|j: int| 0 <= j < s.len() ==> #[trigger] s[j] == buf@[off + j]);
    }
    if off == buf.len() {
        return ParseOutcome::NeedMoreData;
    }
    let tag = buf[off];
    proof {
        assert(tag == s[0]);
        assert(s.drop_first() =~= buf@.skip(off + 1));
    }
    if tag == 43 || tag == 45 {
        // '+' simple string, '-' error
        match find_crlf(buf, off + 1) {
            None => ParseOutcome::NeedMoreData,
            Some(j) => {
                let payload = copy_range(buf, off + 1, j);
                let ghost p = j - (off + 1);
                proof {
                    assert(s.subrange(1, 1 + p) =~= buf@.subrange(off + 1, j as int));
                }
                let n = j + 2 - off;
                if tag == 43 {
                    ParseOutcome::Parsed(Value::SimpleString(payload), n)
                } else {
                    ParseOutcome::Parsed(Value::Error(payload), n)
                }
            },
        }
    } else if tag == 58 {
        // ':' integer
        match find_crlf(buf, off + 1) {
            None => ParseOutcome::NeedMoreData,
            Some(j) => {
                let ghost p = j - (off + 1);
                proof {
                    assert(s.subrange(1, 1 + p) =~= buf@.subrange(off + 1, j as int));
                }
                match parse_i64(buf, off + 1, j) {
                    None => ParseOutcome::Malformed(ParseError::InvalidInteger),
                    Some(i) => ParseOutcome::Parsed(Value::Integer(i), j + 2 - off),
                }
            },
        }
    } else if tag == 36 {
        // '$' bulk string
        match find_crlf(buf, off + 1) {
            None => ParseOutcome::NeedMoreData,
            Some(j) => {
                let ghost p = j - (off + 1);
                proof {
                    assert(s.subrange(1, 1 + p) =~= buf@.subrange(off + 1, j as int));
                }
                match parse_i64(buf, off + 1, j) {
                    None => ParseOutcome::Malformed(ParseError::InvalidLength),
                    Some(l) => {
                        if l == -1 {
                            ParseOutcome::Parsed(Value::Null, j + 2 - off)
                        } else if l < 0 {
                            ParseOutcome::Malformed(ParseError::InvalidLength)
                        } else {
                            let header_end = j + 2;
                            let avail: u64 = (buf.len() - header_end) as u64;
                            if (l as u64) > u64::MAX - 2 || (l as u64) + 2 > avail {
                                proof {
                                    assert(s.len() < p + 3 + l + 2);
                                }
                                ParseOutcome::NeedMoreData
                            } else {
                                let lu = l as usize;
                                let payload = copy_range(buf, header_end, header_end + lu);
                                proof {
                                    assert(s.subrange(p + 3, p + 3 + l)
                                        =~= buf@.subrange(header_end as int,
                                            header_end + lu));
                                }
                                ParseOutcome::Parsed(
                                    Value::BulkString(payload),
                                    header_end + lu + 2 - off,
                                )
                            }
                        }
                    },
                }
            },
        }
    } else if tag == 42 {
        // '*' array
        match find_crlf(buf, off + 1) {
            None => ParseOutcome::NeedMoreData,
            Some(j) => {
                let ghost p = j - (off + 1);
                proof {
                    assert(s.subrange(1, 1 + p) =~= buf@.subrange(off + 1, j as int));
                }
                match parse_i64(buf, off + 1, j) {
                    None => ParseOutcome::Malformed(ParseError::InvalidLength),
                    Some(k) => {
                        if k == -1 {
                            ParseOutcome::Parsed(Value::Null, j + 2 - off)
                        } else if k < 0 {
                            ParseOutcome::Malformed(ParseError::InvalidLength)
                        } else {
                            parse_array_elems(buf, off, j + 2, k, Ghost(s), Ghost(p))
                        }
                    },
                }
            },
        }
    } else if tag == 35 {
        // '#' boolean
        if buf.len() - off < 4 {
            ParseOutcome::NeedMoreData
        } else {
            let b = buf[off + 1];
            if b != 116 && b != 102 {
                ParseOutcome::Malformed(ParseError::InvalidBoolean)
            } else if buf[off + 2] != 13 || buf[off + 3] != 10 {
                ParseOutcome::Malformed(ParseError::InvalidBoolean)
            } else {
                ParseOutcome::Parsed(Value::Boolean(b == 116), 4)
            }
        }
    } else {
        ParseOutcome::Malformed(ParseError::UnknownType)
    }
}

/// Decodes the `k` elements of an array whose header ends at `hdr_end`.
/// Either every element is complete, or nothing is taken: the reply is
/// `NeedMoreData` as soon as one element is incomplete.
#[verifier::loop_isolation(false)]
#[verifier::rlimit(60)]
fn parse_array_elems(
    buf: &[u8],
    off: usize,
    hdr_end: usize,
    k: i64,
    Ghost(s): Ghost<Seq<u8>>,
    Ghost(p): Ghost<int>,
) -> (r: ParseOutcome)
    requires
        off < hdr_end <= buf@.len(),
        s == buf@.skip(off as int),
        p == hdr_end - off - 3,
        k >= 0,
        spec_parse(s) == (match spec_parse_elems(s.skip(p + 3), k as int) {
            SpecElems::More => SpecParse::More,
            SpecElems::Bad(e) => SpecParse::Bad(e),
            SpecElems::Vals(vs, m) => SpecParse::Val(
                ValueModel::Array(vs),
                (p + 3) as nat + m,
            ),
        }),
    ensures
        outcome_matches(r, spec_parse(buf@.skip(off as int))),
        r matches ParseOutcome::Parsed(v, n) ==> 1 <= n && off + n <= buf@.len(),
    decreases buf@.len() - off, 0int,
{
    let ghost target = spec_parse_elems(s.skip(p + 3), k as int);
    let mut vals: Vec<Value> = Vec::new();
    let mut cur: usize = hdr_end;
    let mut cnt: i64 = 0;
    proof {
        assert(s.skip(p + 3) =~= buf@.skip(hdr_end as int));
    }
    while cnt < k
        invariant
            0 <= cnt <= k,
            hdr_end <= cur <= buf@.len(),
            value_models(vals@).len() == cnt,
            (match spec_parse_elems(buf@.skip(cur as int), k - cnt) {
                SpecElems::More => target is More,
                SpecElems::Bad(e) => target == SpecElems::Bad(e),
                SpecElems::Vals(ws, m) => target == SpecElems::Vals(
                    value_models(vals@) + ws,
                    (cur - hdr_end) as nat + m,
                ),
            }),
        decreases k - cnt,
    {
        let ghost rem = buf@.skip(cur as int);
        match parse_at(buf, cur) {
            ParseOutcome::NeedMoreData => {
                proof {
                    assert(spec_parse_elems(rem, k - cnt) is More);
                }
                return ParseOutcome::NeedMoreData;
            },
            ParseOutcome::Malformed(e) => {
                proof {
                    assert(spec_parse_elems(rem, k - cnt) == SpecElems::Bad(e));
                }
                return ParseOutcome::Malformed(e);
            },
            ParseOutcome::Parsed(v, n) => {
                proof {
                    assert(buf@.len() == vstd::slice::spec_slice_len(buf));
                    assert(cur + n <= buf@.len());
                    lemma_value_models(vals@.push(v));
                    assert(vals@.push(v).drop_last() =~= vals@);
                    assert(vals@.push(v).last() == v);
                    assert(value_models(vals@.push(v))
                        == value_models(vals@).push(value_model(v)));
                    assert(rem.skip(n as int) =~= buf@.skip(cur + n));
                    let sub = spec_parse_elems(rem.skip(n as int), k - cnt - 1);
                    if sub is Vals {
                        let ws = sub->Vals_0;
                        let m = sub->Vals_1;
                        assert(spec_parse_elems(rem, k - cnt) == SpecElems::Vals(
                            seq![value_model(v)] + ws,
                            n as nat + m,
                        ));
                        assert(value_models(vals@) + (seq![value_model(v)] + ws)
                            =~= value_models(vals@.push(v)) + ws);
                    }
                }
                vals.push(v);
                cur = cur + n;
                cnt = cnt + 1;
            },
        }
    }
    proof {
        assert(spec_parse_elems(buf@.skip(cur as int), 0) == SpecElems::Vals(
            Seq::<ValueModel>::empty(),
            0,
        ));
        assert(value_models(vals@) + Seq::<ValueModel>::empty() =~= value_models(vals@));
        assert(target == SpecElems::Vals(value_models(vals@), (cur - hdr_end) as nat));
        assert(value_model(Value::Array(vals)) == ValueModel::Array(value_models(vals@)));
    }
    ParseOutcome::Parsed(Value::Array(vals), cur - off)
}

} // verus!

use vstd::prelude::*;

use crate::num::dec_digits;
use crate::num::dec_int;
use crate::num::digits_val;
use crate::num::is_digit;
use crate::num::line_i64;
use crate::num::lemma_dec_digits_form;
use crate::num::lemma_dec_digits_val;
use crate::parser::SpecElems;
use crate::parser::SpecParse;
use crate::parser::crlf_pos;
use crate::parser::lemma_crlf_pos_char;
use crate::parser::spec_parse;
use crate::parser::spec_parse_elems;
use crate::value::ValueModel;
use crate::value::crlf;
use crate::value::has_crlf;
use crate::value::spec_serialize;
use crate::value::spec_serialize_elems;
use crate::value::value_wf;

verus! {

/// A pair at `q`, with none before it, is where `crlf_pos` points.
proof fn lemma_crlf_pos_unique(s: Seq<u8>, q: int)
    requires
        0 <= q,
        q + 2 <= s.len(),
        s[q] == 13,
        s[q + 1] == 10,
        forall|j: int| 0 <= j < q ==> !(#[trigger] s[j] == 13 && s[j + 1] == 10),
    ensures
        crlf_pos(s) == Some(q),
{
    lemma_crlf_pos_char(s);
    if crlf_pos(s) is None {
        assert(!(s[q] == 13 && s[q + 1] == 10));
        assert(false);
    } else {
        let p = crlf_pos(s)->0;
        if p < q {
            assert(!(s[p] == 13 && s[p + 1] == 10));
            assert(false);
        }
        if p > q {
            assert(!(s[q] == 13 && s[q + 1] == 10));
            assert(false);
        }
    }
}

/// In `x` followed by CRLF and anything, the first pair sits right
/// after `x`, provided `x` holds no pair of its own.
proof fn lemma_crlf_pos_concat(x: Seq<u8>, r: Seq<u8>)
    requires
        !has_crlf(x),
    ensures
        crlf_pos(x + (crlf() + r)) == Some(x.len() as int),
{
    let s = x + (crlf() + r);
    let q = x.len() as int;
    assert(s[q] == 13 && s[q + 1] == 10);
    assert forall|j: int| 0 <= j < q implies !(#[trigger] s[j] == 13 && s[j + 1] == 10) by {
        if j + 1 < q {
            assert(s[j] == x[j] && s[j + 1] == x[j + 1]);
            if s[j] == 13 && s[j + 1] == 10 {
                assert(has_crlf(x));
            }
        } else {
            assert(s[j + 1] == 13);
        }
    }
    lemma_crlf_pos_unique(s, q);
}

/// Truncating after the first pair leaves it the first pair.
proof fn lemma_crlf_pos_take_keep(x: Seq<u8>, j: int)
    requires
        crlf_pos(x) is Some,
        crlf_pos(x)->0 + 2 <= j <= x.len(),
    ensures
        crlf_pos(x.take(j)) == crlf_pos(x),
{
    let p = crlf_pos(x)->0;
    lemma_crlf_pos_char(x);
    assert(x.take(j)[p] == 13 && x.take(j)[p + 1] == 10);
    assert forall|i: int| 0 <= i < p implies !(#[trigger] x.take(j)[i] == 13
        && x.take(j)[i + 1] == 10) by {
        assert(x.take(j)[i] == x[i] && x.take(j)[i + 1] == x[i + 1]);
    }
    lemma_crlf_pos_unique(x.take(j), p);
}

/// Truncating strictly before the end of the first pair leaves no pair.
proof fn lemma_crlf_pos_take_short(x: Seq<u8>, j: int)
    requires
        0 <= j <= x.len(),
        match crlf_pos(x) {
            Some(p) => j < p + 2,
            None => true,
        },
    ensures
        crlf_pos(x.take(j)) is None,
{
    lemma_crlf_pos_char(x);
    lemma_crlf_pos_char(x.take(j));
    if crlf_pos(x.take(j)) is Some {
        let q = crlf_pos(x.take(j))->0;
        assert(x[q] == 13 && x[q + 1] == 10);
        match crlf_pos(x) {
            Some(p) => {
                assert(q + 2 <= j < p + 2);
                assert(!(x[q] == 13 && x[q + 1] == 10));
            },
            None => {
                assert(!(x[q] == 13 && x[q + 1] == 10));
            },
        }
        assert(false);
    }
}

/// The canonical decimal bytes hold no carriage return or line feed.
proof fn lemma_dec_int_no_crlf(i: int)
    ensures
        !has_crlf(dec_int(i)),
        !has_crlf(dec_digits(if i < 0 { (-i) as nat } else { i as nat })),
{
    let n: nat = if i < 0 {
        (-i) as nat
    } else {
        i as nat
    };
    lemma_dec_digits_form(n);
    if has_crlf(dec_digits(n)) {
        let j = choose|j: int| 0 <= j && j + 1 < dec_digits(n).len()
            && #[trigger] dec_digits(n)[j] == 13 && dec_digits(n)[j + 1] == 10;
        assert(is_digit(dec_digits(n)[j]));
        assert(false);
    }
    if i < 0 {
        if has_crlf(dec_int(i)) {
            let j = choose|j: int| 0 <= j && j + 1 < dec_int(i).len()
                && #[trigger] dec_int(i)[j] == 13 && dec_int(i)[j + 1] == 10;
            if j >= 1 {
                assert(dec_int(i)[j] == dec_digits(n)[j - 1]);
                assert(is_digit(dec_digits(n)[j - 1]));
            } else {
                assert(dec_int(i)[0] == 45);
            }
            assert(false);
        }
    }
}

/// Reading back the canonical decimal form of `i` gives `i`.
proof fn lemma_line_dec_int(i: int)
    requires
        i64::MIN <= i <= i64::MAX,
    ensures
        line_i64(dec_int(i)) == Some(i),
{
    if i >= 0 {
        let ds = dec_digits(i as nat);
        lemma_dec_digits_form(i as nat);
        lemma_dec_digits_val(i as nat);
        assert(is_digit(ds[0]));
        assert(dec_int(i) == ds);
        assert(line_i64(ds) == Some(digits_val(ds)));
    } else {
        let n = (-i) as nat;
        let ds = dec_digits(n);
        lemma_dec_digits_form(n);
        lemma_dec_digits_val(n);
        let line = dec_int(i);
        assert(line[0] == 45);
        assert(line.drop_first() =~= ds);
        assert(line_i64(line) == Some(-digits_val(ds)));
    }
}

proof fn lemma_dec_int_len(i: int)
    ensures
        dec_int(i).len() >= 1,
{
    if i < 0 {
        lemma_dec_digits_form((-i) as nat);
    } else {
        lemma_dec_digits_form(i as nat);
    }
}

/// Every wire form is at least a tag and a CRLF long.
proof fn lemma_serialize_len(v: ValueModel)
    ensures
        spec_serialize(v).len() >= 3,
{
    match v {
        ValueModel::Integer(i) => {
            lemma_dec_int_len(i);
        },
        ValueModel::BulkString(s) => {
            lemma_dec_int_len(s.len() as int);
        },
        ValueModel::Array(items) => {
            lemma_dec_int_len(items.len() as int);
        },
        _ => {},
    }
}

/// A complete well-formed value reads back from its own wire form,
/// whatever follows it in the buffer.
pub proof fn lemma_parse_of_serialize(v: ValueModel, rest: Seq<u8>)
    requires
        value_wf(v),
    ensures
        spec_parse(spec_serialize(v) + rest) == SpecParse::Val(
            v,
            spec_serialize(v).len() as nat,
        ),
    decreases v,
{
    let s = spec_serialize(v) + rest;
    match v {
        ValueModel::Null => {
            assert(s[0] == 36);
            assert(s.drop_first() =~= seq![45u8, 49u8] + (crlf() + rest));
            assert(!has_crlf(seq![45u8, 49u8]));
            lemma_crlf_pos_concat(seq![45u8, 49u8], rest);
            assert(s.subrange(1, 3) =~= seq![45u8, 49u8]);
            assert(dec_digits(1nat) =~= seq![49u8]);
            assert(dec_int(-1) =~= seq![45u8, 49u8]);
            lemma_line_dec_int(-1);
            assert(spec_parse(s) =~= SpecParse::Val(v, 5nat));
        },
        ValueModel::SimpleString(x) => {
            assert(s[0] == 43);
            assert(s.drop_first() =~= x + (crlf() + rest));
            lemma_crlf_pos_concat(x, rest);
            assert(s.subrange(1, 1 + x.len() as int) =~= x);
            assert(spec_parse(s) =~= SpecParse::Val(v, (x.len() + 3) as nat));
        },
        ValueModel::Error(x) => {
            assert(s[0] == 45);
            assert(s.drop_first() =~= x + (crlf() + rest));
            lemma_crlf_pos_concat(x, rest);
            assert(s.subrange(1, 1 + x.len() as int) =~= x);
            assert(spec_parse(s) =~= SpecParse::Val(v, (x.len() + 3) as nat));
        },
        ValueModel::Integer(i) => {
            assert(s[0] == 58);
            assert(s.drop_first() =~= dec_int(i) + (crlf() + rest));
            lemma_dec_int_no_crlf(i);
            lemma_crlf_pos_concat(dec_int(i), rest);
            assert(s.subrange(1, 1 + dec_int(i).len() as int) =~= dec_int(i));
            lemma_line_dec_int(i);
            assert(spec_parse(s) =~= SpecParse::Val(v, (dec_int(i).len() + 3) as nat));
        },
        ValueModel::Boolean(b) => {
            assert(s[0] == 35);
            assert(s.len() >= 4);
            assert(s[1] == (if b { 116u8 } else { 102u8 }));
            assert(s[2] == 13 && s[3] == 10);
            assert(spec_parse(s) =~= SpecParse::Val(v, 4nat));
        },
        ValueModel::BulkString(x) => {
            let dd = dec_digits(x.len() as nat);
            let p = dd.len() as int;
            assert(dec_int(x.len() as int) == dd);
            assert(s[0] == 36);
            assert(s.drop_first() =~= dd + (crlf() + (x + crlf() + rest)));
            lemma_dec_int_no_crlf(x.len() as int);
            lemma_crlf_pos_concat(dd, x + crlf() + rest);
            assert(s.subrange(1, 1 + p) =~= dd);
            lemma_line_dec_int(x.len() as int);
            assert(s.len() >= p + 3 + x.len() + 2);
            assert(s.subrange(p + 3, p + 3 + x.len() as int) =~= x);
            assert(spec_parse(s) =~= SpecParse::Val(v, (p + 3 + x.len() + 2) as nat));
        },
        ValueModel::Array(items) => {
            let k = items.len() as int;
            let dd = dec_digits(items.len() as nat);
            let p = dd.len() as int;
            assert(dec_int(k) == dd);
            assert(s[0] == 42);
            assert(s.drop_first() =~= dd + (crlf() + (spec_serialize_elems(items) + rest)));
            lemma_dec_int_no_crlf(k);
            lemma_crlf_pos_concat(dd, spec_serialize_elems(items) + rest);
            assert(s.subrange(1, 1 + p) =~= dd);
            lemma_line_dec_int(k);
            assert(s.skip(p + 3) =~= spec_serialize_elems(items) + rest);
            lemma_parse_of_serialize_elems(items, rest);
            assert(spec_parse(s) =~= SpecParse::Val(
                v,
                (p + 3 + spec_serialize_elems(items).len()) as nat,
            ));
        },
    }
}

/// The serialized elements of an array read back as those elements.
pub proof fn lemma_parse_of_serialize_elems(items: Seq<ValueModel>, rest: Seq<u8>)
    requires
        forall|i: int| 0 <= i < items.len() ==> value_wf(#[trigger] items[i]),
    ensures
        spec_parse_elems(spec_serialize_elems(items) + rest, items.len() as int)
            == SpecElems::Vals(items, spec_serialize_elems(items).len() as nat),
    decreases items,
{
    if items.len() == 0 {
        assert(spec_serialize_elems(items) + rest =~= rest);
        assert(spec_parse_elems(rest, 0) =~= SpecElems::Vals(items, 0nat));
    } else {
        let hd = items[0];
        let tl = items.drop_first();
        let s = spec_serialize_elems(items) + rest;
        assert(s =~= spec_serialize(hd) + (spec_serialize_elems(tl) + rest));
        lemma_parse_of_serialize(hd, spec_serialize_elems(tl) + rest);
        let n0 = spec_serialize(hd).len();
        lemma_serialize_len(hd);
        assert(s.skip(n0 as int) =~= spec_serialize_elems(tl) + rest);
        assert(forall|i: int| 0 <= i < tl.len() ==> value_wf(#[trigger] tl[i]));
        lemma_parse_of_serialize_elems(tl, rest);
        assert(seq![hd] + tl =~= items);
        assert(spec_parse_elems(s, items.len() as int) =~= SpecElems::Vals(
            items,
            spec_serialize_elems(items).len() as nat,
        ));
    }
}

/// Round trip: the wire form of a well-formed value reads back as exactly
/// that value, and the whole wire form is consumed.
pub proof fn lemma_round_trip(v: ValueModel)
    requires
        value_wf(v),
    ensures
        spec_parse(spec_serialize(v)) == SpecParse::Val(v, spec_serialize(v).len() as nat),
{
    lemma_parse_of_serialize(v, Seq::empty());
    assert(spec_serialize(v) + Seq::<u8>::empty() =~= spec_serialize(v));
}

/// Every frame takes at least its tag and a CRLF: three bytes, and never
/// more than the buffer holds; a run of `k` frames yields `k` values.
pub proof fn lemma_parse_bounds(s: Seq<u8>)
    ensures
        spec_parse(s) matches SpecParse::Val(v, n) ==> 3 <= n <= s.len(),
    decreases s.len(), 0int,
{
    if spec_parse(s) is Val {
        assert(s.len() > 0);
        if s[0] == 43 || s[0] == 45 || s[0] == 58 || s[0] == 36 || s[0] == 42 {
            lemma_crlf_pos_char(s.drop_first());
            if s[0] == 42 {
                let p = crlf_pos(s.drop_first())->0;
                match line_i64(s.subrange(1, 1 + p)) {
                    Some(k) => {
                        if k >= 0 {
                            lemma_parse_elems_bounds(s.skip(p + 3), k);
                        }
                    },
                    None => {},
                }
            }
        }
    }
}

pub proof fn lemma_parse_elems_bounds(s: Seq<u8>, k: int)
    ensures
        spec_parse_elems(s, k) matches SpecElems::Vals(vs, m) ==> m <= s.len()
            && (k >= 0 ==> vs.len() == k),
    decreases s.len(), 1int, k,
{
    if k <= 0 {
    } else {
        match spec_parse(s) {
            SpecParse::Val(v, n) => {
                lemma_parse_bounds(s);
                if 0 < n <= s.len() {
                    lemma_parse_elems_bounds(s.skip(n as int), k - 1);
                }
            },
            _ => {},
        }
    }
}

/// A decoded frame does not change when the bytes after it are cut away.
pub proof fn lemma_parse_take(s: Seq<u8>, j: int)
    requires
        spec_parse(s) is Val,
        spec_parse(s)->Val_1 <= j <= s.len(),
    ensures
        spec_parse(s.take(j)) == spec_parse(s),
    decreases s.len(), 0int, 0int,
{
    let n = spec_parse(s)->Val_1;
    lemma_parse_bounds(s);
    let t = s.take(j);
    assert(t[0] == s[0]);
    let d = s.drop_first();
    assert(t.drop_first() =~= d.take(j - 1));
    if s[0] == 43 || s[0] == 45 || s[0] == 58 || s[0] == 36 || s[0] == 42 {
        let p = crlf_pos(d)->0;
        lemma_crlf_pos_char(d);
        lemma_crlf_pos_take_keep(d, j - 1);
        assert(t.subrange(1, 1 + p) =~= s.subrange(1, 1 + p));
        if s[0] == 36 {
            match line_i64(s.subrange(1, 1 + p)) {
                Some(l) => {
                    if l >= 0 {
                        assert(t.subrange(p + 3, p + 3 + l) =~= s.subrange(p + 3, p + 3 + l));
                    }
                },
                None => {},
            }
        }
        if s[0] == 42 {
            match line_i64(s.subrange(1, 1 + p)) {
                Some(k) => {
                    if k >= 0 {
                        lemma_parse_elems_bounds(s.skip(p + 3), k);
                        assert(t.skip(p + 3) =~= s.skip(p + 3).take(j - (p + 3)));
                        lemma_parse_elems_take(s.skip(p + 3), k, j - (p + 3));
                    }
                },
                None => {},
            }
        }
        assert(spec_parse(t) =~= spec_parse(s));
    } else {
        // '#' boolean: the first four bytes agree.
        assert(spec_parse(t) =~= spec_parse(s));
    }
}

/// A decoded run of frames does not change when later bytes are cut away.
pub proof fn lemma_parse_elems_take(s: Seq<u8>, k: int, j: int)
    requires
        spec_parse_elems(s, k) is Vals,
        spec_parse_elems(s, k)->Vals_1 <= j <= s.len(),
    ensures
        spec_parse_elems(s.take(j), k) == spec_parse_elems(s, k),
    decreases s.len(), 1int, k,
{
    if k <= 0 {
    } else {
        let v = spec_parse(s)->Val_0;
        let n = spec_parse(s)->Val_1;
        lemma_parse_bounds(s);
        lemma_parse_elems_bounds(s.skip(n as int), k - 1);
        lemma_parse_take(s, j);
        assert(s.take(j).skip(n as int) =~= s.skip(n as int).take(j - n));
        lemma_parse_elems_take(s.skip(n as int), k - 1, j - n);
        assert(spec_parse_elems(s.take(j), k) =~= spec_parse_elems(s, k));
    }
}

/// A strict prefix of a frame is never a frame and never malformed: the
/// decoder reports that more bytes are needed.
pub proof fn lemma_parse_prefix_more(s: Seq<u8>, j: int)
    requires
        spec_parse(s) is Val,
        0 <= j < spec_parse(s)->Val_1,
    ensures
        spec_parse(s.take(j)) is More,
    decreases s.len(), 0int, 0int,
{
    let n = spec_parse(s)->Val_1;
    lemma_parse_bounds(s);
    let t = s.take(j);
    if j == 0 {
    } else {
        assert(t[0] == s[0]);
        let d = s.drop_first();
        assert(t.drop_first() =~= d.take(j - 1));
        if s[0] == 43 || s[0] == 45 || s[0] == 58 || s[0] == 36 || s[0] == 42 {
            let p = crlf_pos(d)->0;
            lemma_crlf_pos_char(d);
            if j < p + 3 {
                lemma_crlf_pos_take_short(d, j - 1);
                assert(spec_parse(t) is More);
            } else {
                lemma_crlf_pos_take_keep(d, j - 1);
                assert(t.subrange(1, 1 + p) =~= s.subrange(1, 1 + p));
                if s[0] == 36 {
                    let l = line_i64(s.subrange(1, 1 + p))->0;
                    assert(t.len() < p + 3 + l + 2);
                    assert(spec_parse(t) is More);
                } else if s[0] == 42 {
                    let k = line_i64(s.subrange(1, 1 + p))->0;
                    lemma_parse_elems_bounds(s.skip(p + 3), k);
                    assert(t.skip(p + 3) =~= s.skip(p + 3).take(j - (p + 3)));
                    lemma_parse_elems_prefix_more(s.skip(p + 3), k, j - (p + 3));
                    assert(spec_parse(t) is More);
                } else {
                    // a line frame is complete at p + 3, so j < p + 3
                    assert(false);
                }
            }
        } else {
            // '#' boolean: four bytes, and fewer are not yet a frame.
            assert(t.len() < 4);
            assert(spec_parse(t) is More);
        }
    }
}

/// A strict prefix of a run of frames likewise only awaits more bytes.
pub proof fn lemma_parse_elems_prefix_more(s: Seq<u8>, k: int, j: int)
    requires
        spec_parse_elems(s, k) is Vals,
        0 <= j < spec_parse_elems(s, k)->Vals_1,
    ensures
        spec_parse_elems(s.take(j), k) is More,
    decreases s.len(), 1int, k,
{
    if k <= 0 {
        assert(false);
    } else {
        let v = spec_parse(s)->Val_0;
        let n = spec_parse(s)->Val_1;
        lemma_parse_bounds(s);
        lemma_parse_elems_bounds(s, k);
        if j < n {
            lemma_parse_prefix_more(s, j);
            assert(spec_parse_elems(s.take(j), k) is More);
        } else {
            lemma_parse_take(s, j);
            assert(s.take(j).skip(n as int) =~= s.skip(n as int).take(j - n));
            lemma_parse_elems_prefix_more(s.skip(n as int), k - 1, j - n);
            assert(spec_parse_elems(s.take(j), k) is More);
        }
    }
}

/// Incremental feed: cut a frame's bytes anywhere; the first part alone
/// only asks for more data and is left in the buffer, and once the second
/// part is appended the decoder yields exactly the frame of the whole.
pub proof fn lemma_incremental_feed(s: Seq<u8>, cut: int)
    requires
        spec_parse(s) is Val,
        0 <= cut < spec_parse(s)->Val_1,
    ensures
        spec_parse(s.take(cut)) is More,
        spec_parse(s.take(cut) + s.skip(cut)) == spec_parse(s),
{
    lemma_parse_bounds(s);
    lemma_parse_prefix_more(s, cut);
    assert(s.take(cut) + s.skip(cut) =~= s);
}

} // verus!

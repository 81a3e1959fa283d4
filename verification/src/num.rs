use vstd::prelude::*;

verus! {

/// Decimal digits and signed decimal lines, as they appear in the wire
/// format's integer values and length prefixes.
pub open spec fn is_digit(b: u8) -> bool {
    48 <= b <= 57
}

pub open spec fn all_digits(s: Seq<u8>) -> bool {
    forall|i: int| 0 <= i < s.len() ==> is_digit(#[trigger] s[i])
}

/// The numeric value of a digit string, most significant digit first.
pub open spec fn digits_val(s: Seq<u8>) -> int
    decreases s.len(),
{
    if s.len() == 0 {
        0
    } else {
        digits_val(s.drop_last()) * 10 + (s.last() - 48)
    }
}

/// The canonical decimal digits of a natural number (no leading zeros).
pub open spec fn dec_digits(n: nat) -> Seq<u8>
    decreases n,
{
    if n < 10 {
        seq![(48 + n) as u8]
    } else {
        dec_digits(n / 10).push((48 + n % 10) as u8)
    }
}

/// The canonical decimal form of an integer: a minus sign for negative
/// values, then the digits of the magnitude.
pub open spec fn dec_int(i: int) -> Seq<u8> {
    if i < 0 {
        seq![45u8] + dec_digits((-i) as nat)
    } else {
        dec_digits(i as nat)
    }
}

/// What a line means when read as a signed 64-bit integer: an optional
/// `+` or `-` sign, then one or more digits, and the value must fit.
pub open spec fn line_i64(s: Seq<u8>) -> Option<int> {
    let neg = s.len() > 0 && s[0] == 45;
    let ds = if s.len() > 0 && (s[0] == 43 || s[0] == 45) {
        s.drop_first()
    } else {
        s
    };
    if ds.len() > 0 && all_digits(ds) {
        let v = if neg {
            -digits_val(ds)
        } else {
            digits_val(ds)
        };
        if i64::MIN <= v <= i64::MAX {
            Some(v)
        } else {
            None
        }
    } else {
        None
    }
}

pub proof fn lemma_dec_digits_form(n: nat)
    ensures
        dec_digits(n).len() >= 1,
        all_digits(dec_digits(n)),
    decreases n,
{
    if n >= 10 {
        lemma_dec_digits_form(n / 10);
        assert(is_digit(dec_digits(n).last()));
    }
}

pub proof fn lemma_dec_digits_val(n: nat)
    ensures
        digits_val(dec_digits(n)) == n,
    decreases n,
{
    if n < 10 {
        assert(dec_digits(n).drop_last() =~= Seq::<u8>::empty());
        assert(digits_val(Seq::<u8>::empty()) == 0);
        assert(dec_digits(n).last() == (48 + n) as u8);
        assert((48 + n) as u8 == 48 + n);
        assert(digits_val(dec_digits(n)) == 0 * 10 + (48 + n - 48));
    } else {
        lemma_dec_digits_val(n / 10);
        assert(dec_digits(n).drop_last() =~= dec_digits(n / 10));
        assert(dec_digits(n).last() == (48 + n % 10) as u8);
        assert((48 + n % 10) as u8 == 48 + n % 10);
        assert(n / 10 * 10 + n % 10 == n) by (nonlinear_arith);
    }
}

/// A digit string's value is non-negative.
pub proof fn lemma_digits_val_nonneg(s: Seq<u8>)
    requires
        all_digits(s),
    ensures
        digits_val(s) >= 0,
    decreases s.len(),
{
    if s.len() > 0 {
        assert(all_digits(s.drop_last()));
        lemma_digits_val_nonneg(s.drop_last());
    }
}

/// Extending a digit string on the right cannot shrink its value.
pub proof fn lemma_digits_val_take(s: Seq<u8>, j: int)
    requires
        all_digits(s),
        0 <= j <= s.len(),
    ensures
        digits_val(s.take(j)) <= digits_val(s),
    decreases s.len() - j,
{
    if j == s.len() {
        assert(s.take(j) =~= s);
    } else {
        lemma_digits_val_take(s, j + 1);
        assert(s.take(j + 1).drop_last() =~= s.take(j));
        assert(s.take(j + 1).last() == s[j]);
        assert(is_digit(s[j]));
        assert(all_digits(s.take(j)));
        lemma_digits_val_nonneg(s.take(j));
        assert(digits_val(s.take(j)) * 10 >= digits_val(s.take(j))) by (nonlinear_arith)
            requires digits_val(s.take(j)) >= 0;
        assert(digits_val(s.take(j + 1)) == digits_val(s.take(j)) * 10 + (s[j] - 48));
    }
}

proof fn lemma_acc_step_fits(acc: int, d: int, limit: int)
    requires
        0 <= d <= 9,
        d <= limit,
        0 <= acc <= (limit - d) / 10,
    ensures
        acc * 10 + d <= limit,
{
    assert(acc * 10 <= (limit - d) / 10 * 10) by (nonlinear_arith)
        requires 0 <= acc <= (limit - d) / 10;
    assert((limit - d) / 10 * 10 <= limit - d) by (nonlinear_arith)
        requires limit - d >= 0;
}

proof fn lemma_acc_step_over(acc: int, d: int, limit: int)
    requires
        0 <= d <= 9,
        d <= limit,
        acc > (limit - d) / 10,
    ensures
        acc * 10 + d > limit,
{
    assert(acc * 10 >= ((limit - d) / 10 + 1) * 10) by (nonlinear_arith)
        requires acc >= (limit - d) / 10 + 1;
    assert(((limit - d) / 10 + 1) * 10 > limit - d) by (nonlinear_arith)
        requires limit - d >= 0;
}

/// Appends the canonical decimal digits of `n` to `out`.
pub fn push_dec_u64(n: u64, out: &mut Vec<u8>)
    ensures
        final(out)@ == old(out)@ + dec_digits(n as nat),
    decreases n,
{
    if n < 10 {
        out.push((48 + n) as u8);
        assert(final(out)@ =~= old(out)@ + dec_digits(n as nat));
    } else {
        push_dec_u64(n / 10, out);
        out.push((48 + n % 10) as u8);
        assert(final(out)@ =~= old(out)@ + dec_digits(n as nat));
    }
}

/// Appends the canonical signed decimal form of `i` to `out`.
pub fn push_dec_i64(i: i64, out: &mut Vec<u8>)
    ensures
        final(out)@ == old(out)@ + dec_int(i as int),
{
    if i < 0 {
        out.push(45u8);
        let mag: u64 = if i == i64::MIN {
            9223372036854775808u64
        } else {
            (-i) as u64
        };
        assert(mag as nat == (-(i as int)) as nat);
        push_dec_u64(mag, out);
        assert(final(out)@ =~= old(out)@ + dec_int(i as int));
    } else {
        push_dec_u64(i as u64, out);
    }
}

/// Reads `buf[start..end]` as a signed 64-bit decimal line.
#[verifier::loop_isolation(false)]
pub fn parse_i64(buf: &[u8], start: usize, end: usize) -> (r: Option<i64>)
    requires
        start <= end <= buf@.len(),
    ensures
        match r {
            Some(v) => line_i64(buf@.subrange(start as int, end as int)) == Some(v as int),
            None => line_i64(buf@.subrange(start as int, end as int)) is None,
        },
{
    let ghost line = buf@.subrange(start as int, end as int);
    if start == end {
        return None;
    }
    let first = buf[start];
    let neg = first == 45;
    let dstart: usize = if first == 43 || first == 45 {
        start + 1
    } else {
        start
    };
    let ghost ds = buf@.subrange(dstart as int, end as int);
    proof {
        if dstart > start {
            assert(ds =~= line.drop_first());
        } else {
            assert(ds =~= line);
        }
    }
    if dstart == end {
        return None;
    }
    // The magnitude bound: one larger for negative values.
    let limit: u64 = if neg {
        9223372036854775808u64
    } else {
        9223372036854775807u64
    };
    let mut acc: u64 = 0;
    let mut i: usize = dstart;
    while i < end
        invariant
            dstart <= i <= end <= buf@.len(),
            ds == buf@.subrange(dstart as int, end as int),
            all_digits(ds.take(i - dstart)),
            acc == digits_val(ds.take(i - dstart)),
            acc <= limit,
            limit == 9223372036854775807u64 || limit == 9223372036854775808u64,
        decreases end - i,
    {
        let b = buf[i];
        proof {
            assert(ds[i - dstart] == b);
        }
        if b < 48 || b > 57 {
            proof {
                assert(!is_digit(ds[i - dstart]));
                assert(!all_digits(ds));
            }
            return None;
        }
        let d: u64 = (b - 48) as u64;
        if acc > (limit - d) / 10 {
            proof {
                lemma_acc_step_over(acc as int, d as int, limit as int);
                assert(ds.take(i + 1 - dstart).drop_last() =~= ds.take(i - dstart));
                assert(digits_val(ds.take(i + 1 - dstart)) == acc * 10 + d);
                if all_digits(ds) {
                    lemma_digits_val_take(ds, i + 1 - dstart);
                    assert(digits_val(ds) > limit);
                }
            }
            return None;
        }
        proof {
            lemma_acc_step_fits(acc as int, d as int, limit as int);
            assert(ds.take(i + 1 - dstart).drop_last() =~= ds.take(i - dstart));
            assert(all_digits(ds.take(i + 1 - dstart)));
        }
        acc = acc * 10 + d;
        i = i + 1;
    }
    proof {
        assert(ds.take(end - dstart) =~= ds);
    }
    if neg {
        if acc == 9223372036854775808u64 {
            Some(i64::MIN)
        } else {
            Some(-(acc as i64))
        }
    } else {
        Some(acc as i64)
    }
}

} // verus!

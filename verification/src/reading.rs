//! Temperature readings written in decimal, read as fixed-point integers, and
//! fixed-point integers written back as one-decimal text.

use vstd::prelude::*;
use vstd::arithmetic::div_mod::{lemma_fundamental_div_mod, lemma_fundamental_div_mod_converse};

verus! {

/// The ASCII digits `0`..=`9`.
pub open spec fn is_digit(b: u8) -> bool {
    48 <= b <= 57
}

/// The number spelled by the digits of `s`, read in order, with every other
/// byte skipped.
pub open spec fn digits_value(s: Seq<u8>) -> int
    decreases s.len(),
{
    if s.len() == 0 {
        0
    } else if is_digit(s.last()) {
        digits_value(s.drop_last()) * 10 + (s.last() - 48)
    } else {
        digits_value(s.drop_last())
    }
}

/// `s` holds a `-` somewhere.
pub open spec fn has_minus(s: Seq<u8>) -> bool {
    exists|i: int| 0 <= i < s.len() && s[i] == 45u8
}

/// The reading written in `s`, counted in units of its last written digit:
/// the value of its digits, negated when a `-` occurs anywhere in it.
/// `"-10.20"` reads as `-1020`.
pub open spec fn reading_value(s: Seq<u8>) -> int {
    if has_minus(s) {
        -digits_value(s)
    } else {
        digits_value(s)
    }
}

/// Digit values are never negative and never shrink as bytes are appended.
pub proof fn lemma_digits_value_prefix(s: Seq<u8>, i: int, j: int)
    requires
        0 <= i <= j <= s.len(),
    ensures
        0 <= digits_value(s.take(i)) <= digits_value(s.take(j)),
    decreases j - i + j,
{
    if j > 0 {
        assert(s.take(j).drop_last() =~= s.take(j - 1));
        if i < j {
            lemma_digits_value_prefix(s, i, j - 1);
        } else {
            lemma_digits_value_prefix(s, j - 1, j - 1);
        }
    } else {
        assert(s.take(0) =~= Seq::<u8>::empty());
    }
}

/// Reads `temperature` as `reading_value(temperature) * scale` (for `scale`
/// 1 or 10), or `None` when that value does not fit in an `i32`.
pub fn parse_reading(temperature: &[u8], scale: i32) -> (r: Option<i32>)
    requires
        scale == 1 || scale == 10,
    ensures
        r is Some <==> digits_value(temperature@) * scale <= i32::MAX,
        r matches Some(v) ==> v == reading_value(temperature@) * scale,
{
    let ghost s = temperature@;
    let mut result: i64 = 0;
    let mut neg = false;
    let mut i: usize = 0;
    assert(s.take(0) =~= Seq::<u8>::empty());
    while i < temperature.len()
        invariant
            0 <= i <= s.len(),
            s == temperature@,
            scale == 1 || scale == 10,
            result == digits_value(s.take(i as int)),
            0 <= result,
            result * scale <= i32::MAX,
            neg == has_minus(s.take(i as int)),
        decreases s.len() - i,
    {
        let b = temperature[i];
        proof {
            assert(s.take(i + 1).drop_last() =~= s.take(i as int));
            assert(s.take(i + 1).last() == b);
            lemma_digits_value_prefix(s, i as int, i as int);
            let t1 = s.take(i + 1);
            let t0 = s.take(i as int);
            if has_minus(t1) {
                let k = choose|k: int| 0 <= k < t1.len() && #[trigger] t1[k] == 45u8;
                if k < i {
                    assert(t0[k] == 45u8);
                }
            }
            if has_minus(t0) {
                let k = choose|k: int| 0 <= k < t0.len() && #[trigger] t0[k] == 45u8;
                assert(t1[k] == 45u8);
            }
        }
        if b == 45u8 {
            neg = true;
            proof {
                assert(s.take(i + 1)[i as int] == 45u8);
            }
        } else if 48u8 <= b && b <= 57u8 {
            let next = result * 10 + (b - 48u8) as i64;
            if next * (scale as i64) > 2147483647i64 {
                proof {
                    lemma_digits_value_prefix(s, i + 1, s.len() as int);
                    assert(s.take(s.len() as int) =~= s);
                    assert(digits_value(s) * scale >= next * scale) by (nonlinear_arith)
                        requires
                            digits_value(s) >= next,
                            scale >= 0,
                    ;
                }
                return None;
            }
            result = next;
        }
        i = i + 1;
    }
    proof {
        assert(s.take(s.len() as int) =~= s);
    }
    let v = result as i32;
    if neg {
        Some(-v * scale)
    } else {
        Some(v * scale)
    }
}

/// The digits of `n` in base ten, most significant first, with no leading zeros.
pub open spec fn decimal(n: nat) -> Seq<u8>
    decreases n,
{
    if n < 10 {
        seq![(48 + n) as u8]
    } else {
        decimal(n / 10).push((48 + n % 10) as u8)
    }
}

/// The text of a fixed-point number of tenths with one decimal place:
/// an optional `-`, the whole part, a `.`, and the tenths digit.
pub open spec fn tenths_text(negative: bool, tenths: nat) -> Seq<u8> {
    (if negative {
        seq![45u8]
    } else {
        Seq::<u8>::empty()
    }) + decimal(tenths / 10) + seq![46u8, (48 + tenths % 10) as u8]
}

/// The text of a signed number of tenths.
pub open spec fn signed_tenths_text(v: int) -> Seq<u8> {
    if v < 0 {
        tenths_text(true, (-v) as nat)
    } else {
        tenths_text(false, v as nat)
    }
}

/// Every byte of `decimal(n)` is a digit.
proof fn lemma_decimal_digits(n: nat)
    ensures
        decimal(n).len() > 0,
        forall|i: int| 0 <= i < decimal(n).len() ==> is_digit(#[trigger] decimal(n)[i]),
    decreases n,
{
    let d = (48 + n % 10) as u8;
    assert(d == 48 + n % 10);
    if n >= 10 {
        lemma_decimal_digits(n / 10);
        let p = decimal(n / 10);
        assert(decimal(n) == p.push(d));
        assert forall|i: int| 0 <= i < decimal(n).len() implies is_digit(#[trigger] decimal(n)[i]) by {
            if i < p.len() {
                assert(decimal(n)[i] == p[i]);
            }
        }
    } else {
        assert(decimal(n) == seq![d]);
    }
}

/// Reading the digits of `decimal(n)` gives `n` back.
proof fn lemma_decimal_value(n: nat)
    ensures
        digits_value(decimal(n)) == n,
    decreases n,
{
    let d = (48 + n % 10) as u8;
    assert(d == 48 + n % 10);
    assert(is_digit(d));
    if n < 10 {
        assert(decimal(n) == seq![d]);
        assert(decimal(n).drop_last() =~= Seq::<u8>::empty());
        assert(decimal(n).last() == d);
        assert(digits_value(Seq::<u8>::empty()) == 0);
        assert(digits_value(decimal(n)) == digits_value(decimal(n).drop_last()) * 10 + (d - 48));
    } else {
        lemma_decimal_value(n / 10);
        assert(decimal(n) == decimal(n / 10).push(d));
        assert(decimal(n).drop_last() =~= decimal(n / 10));
        assert(decimal(n).last() == d);
        assert(digits_value(decimal(n)) == digits_value(decimal(n / 10)) * 10 + (d - 48));
        assert((n / 10) * 10 + n % 10 == n);
    }
}

/// A byte that is not a digit adds nothing to the value of what follows it.
proof fn lemma_digits_value_skip_front(b: u8, s: Seq<u8>)
    requires
        !is_digit(b),
    ensures
        digits_value(seq![b] + s) == digits_value(s),
    decreases s.len(),
{
    let t = seq![b] + s;
    if s.len() == 0 {
        assert(t.drop_last() =~= Seq::<u8>::empty());
        assert(t.last() == b);
        assert(digits_value(Seq::<u8>::empty()) == 0);
        assert(digits_value(t) == digits_value(t.drop_last()));
    } else {
        lemma_digits_value_skip_front(b, s.drop_last());
        assert(t.drop_last() =~= seq![b] + s.drop_last());
        assert(t.last() == s.last());
        if is_digit(s.last()) {
            assert(digits_value(t) == digits_value(t.drop_last()) * 10 + (s.last() - 48));
            assert(digits_value(s) == digits_value(s.drop_last()) * 10 + (s.last() - 48));
        } else {
            assert(digits_value(t) == digits_value(t.drop_last()));
            assert(digits_value(s) == digits_value(s.drop_last()));
        }
    }
}

/// Reading back the one-decimal text of a number of tenths gives the number:
/// the writer and the reader of temperatures agree.
pub proof fn law_signed_tenths_text_reads_back(v: int)
    ensures
        reading_value(signed_tenths_text(v)) == v,
{
    let neg = v < 0;
    let n: nat = if neg { (-v) as nat } else { v as nat };
    let k = n / 10;
    let d = (48 + n % 10) as u8;
    let sign = if neg { seq![45u8] } else { Seq::<u8>::empty() };
    let t = signed_tenths_text(v);
    assert(t == tenths_text(neg, n));
    let body = sign + decimal(k);
    assert(t =~= body.push(46u8).push(d));
    lemma_decimal_value(k);
    lemma_decimal_digits(k);
    if neg {
        lemma_digits_value_skip_front(45u8, decimal(k));
        assert(body =~= seq![45u8] + decimal(k));
    } else {
        assert(body =~= decimal(k));
    }
    assert(d == 48 + n % 10);
    assert(t.drop_last() =~= body.push(46u8));
    assert(t.last() == d);
    assert(body.push(46u8).drop_last() =~= body);
    assert(body.push(46u8).last() == 46u8);
    assert(digits_value(body.push(46u8)) == digits_value(body));
    assert(digits_value(body) == k);
    assert(digits_value(t) == k * 10 + n % 10);
    assert(digits_value(t) == n);
    if neg {
        assert(t[0] == 45u8);
    } else {
        assert forall|i: int| 0 <= i < t.len() implies t[i] != 45u8 by {
            if i < decimal(k).len() {
                assert(t[i] == decimal(k)[i]);
            }
        }
    }
}

/// Reading back the one-decimal text of a number of hundredths gives its
/// magnitude rounded to the nearest tenth (halves away from zero), with the
/// sign of the number; so a value that rounds to zero reads as zero.
pub proof fn law_hundredths_text_reads_back(m: int)
    ensures
        reading_value(hundredths_text(m)) == if m < 0 { -((-m + 5) / 10) } else { (m + 5) / 10 },
        m >= 0 ==> hundredths_text(m) == signed_tenths_text((m + 5) / 10),
        m <= -5 ==> hundredths_text(m) == signed_tenths_text(-((-m + 5) / 10)),
{
    if m >= 0 {
        law_signed_tenths_text_reads_back((m + 5) / 10);
    } else {
        let r = (-m + 5) / 10;
        if r > 0 {
            law_signed_tenths_text_reads_back(-r);
        } else {
            law_signed_tenths_text_reads_back(0);
            let t = hundredths_text(m);
            assert(t =~= seq![45u8] + signed_tenths_text(0));
            lemma_digits_value_skip_front(45u8, signed_tenths_text(0));
            assert(t[0] == 45u8);
        }
    }
}

/// Appends the decimal digits of `n`.
pub fn push_decimal(out: &mut Vec<u8>, n: u64)
    ensures
        final(out)@ == old(out)@ + decimal(n as nat),
    decreases n,
{
    if n >= 10 {
        push_decimal(out, n / 10);
    }
    out.push(48u8 + (n % 10) as u8);
    proof {
        if n < 10 {
            assert(final(out)@ =~= old(out)@ + decimal(n as nat));
        } else {
            assert(final(out)@ =~= old(out)@ + decimal(n as nat));
        }
    }
}

/// Appends `tenths_text(negative, tenths)`.
pub fn push_tenths(out: &mut Vec<u8>, negative: bool, tenths: u64)
    ensures
        final(out)@ == old(out)@ + tenths_text(negative, tenths as nat),
{
    let ghost start = out@;
    if negative {
        out.push(45u8);
    }
    push_decimal(out, tenths / 10);
    out.push(46u8);
    out.push(48u8 + (tenths % 10) as u8);
    assert(out@ =~= start + tenths_text(negative, tenths as nat));
}

/// The magnitude of an `i64`, as a `u64`.
pub fn magnitude(v: i64) -> (r: u64)
    ensures
        r == (if v < 0 { -(v as int) } else { v as int }),
{
    if v < 0 {
        ((-(v + 1)) as u64) + 1
    } else {
        v as u64
    }
}

/// Appends `signed_tenths_text(v)`.
pub fn push_signed_tenths(out: &mut Vec<u8>, v: i64)
    ensures
        final(out)@ == old(out)@ + signed_tenths_text(v as int),
{
    push_tenths(out, v < 0, magnitude(v));
}

/// `a / b` rounded down (toward negative infinity), for a positive divisor;
/// `/` on `int` is this floor division.
pub fn floor_div(a: i64, b: u64) -> (r: i64)
    requires
        b > 0,
    ensures
        r == (a as int) / (b as int),
{
    if a >= 0 {
        let q = (a as u64) / b;
        proof {
            let m = a as int;
            lemma_fundamental_div_mod(m, b as int);
            assert(q as int == m / (b as int));
            assert(q <= m) by (nonlinear_arith)
                requires
                    q == m / (b as int),
                    m >= 0,
                    b > 0,
            ;
        }
        q as i64
    } else {
        let m = (-(a + 1)) as u64;
        let q = m / b;
        let s = m % b;
        proof {
            let (mi, bi, qi, si) = (m as int, b as int, q as int, s as int);
            lemma_fundamental_div_mod(mi, bi);
            assert(a as int == (-qi - 1) * bi + (bi - si - 1)) by (nonlinear_arith)
                requires
                    mi == bi * qi + si,
                    mi == -(a as int) - 1,
            ;
            lemma_fundamental_div_mod_converse(a as int, bi, -qi - 1, bi - si - 1);
            assert(qi <= mi) by (nonlinear_arith)
                requires
                    qi == mi / bi,
                    mi >= 0,
                    bi > 0,
            ;
        }
        -(q as i64) - 1
    }
}

/// A number in hundredths rounded to the nearest tenth, halves upward
/// (toward positive infinity): `floor((num + 5) / 10)`.
pub open spec fn rounded_tenths(num: int) -> int {
    (num + 5) / 10
}

/// `rounded_tenths(num)` is the tenth nearest to `num` hundredths, halves
/// upward: `10 * r - 5 <= num < 10 * r + 5`.
pub proof fn law_rounded_tenths_nearest(num: int)
    ensures
        10 * rounded_tenths(num) - 5 <= num < 10 * rounded_tenths(num) + 5,
{
    lemma_fundamental_div_mod(num + 5, 10);
}

/// Converts a fixed-point number in hundredths to tenths, properly rounded:
/// to the nearest tenth, halves upward. `14` gives `1`, `15` gives `2`,
/// `-15` gives `-1`, `-16` gives `-2`.
pub fn round_to_1decimal(num: i64) -> (r: i64)
    ensures
        r == rounded_tenths(num as int),
{
    let q = floor_div(num, 10);
    proof {
        lemma_fundamental_div_mod(num as int, 10);
    }
    let rem = ((num as i128) - (q as i128) * 10) as i64;
    proof {
        if rem >= 5 {
            lemma_fundamental_div_mod_converse(num + 5, 10, q + 1, rem - 5);
        } else {
            lemma_fundamental_div_mod_converse(num + 5, 10, q as int, rem + 5);
        }
    }
    if rem >= 5 {
        q + 1
    } else {
        q
    }
}

/// The mean of `count` readings totalling `sum` hundredths, in tenths,
/// properly rounded: the total divided by the count (rounded down), then
/// rounded to the nearest tenth with halves upward.
pub open spec fn mean_of_hundredths(sum: int, count: int) -> int {
    rounded_tenths(sum / count)
}

/// The mean of `count` readings totalling `sum` tenths, properly rounded to
/// the nearest tenth with halves upward: `floor(sum / count + 1/2)`.
pub open spec fn mean_of_tenths(sum: int, count: int) -> int {
    (2 * sum + count) / (2 * count)
}

/// Rounding the mean in hundredths down before rounding it to tenths loses
/// nothing: the result is the exact mean `sum / count` hundredths rounded to
/// the nearest tenth with halves upward, `floor((sum + 5 * count) / (10 * count))`.
pub proof fn law_mean_of_hundredths_exact(sum: int, count: int)
    requires
        count > 0,
    ensures
        mean_of_hundredths(sum, count) == (sum + 5 * count) / (10 * count),
{
    let q = sum / count;
    let r = sum % count;
    lemma_fundamental_div_mod(sum, count);
    let k = (q + 5) / 10;
    let j = (q + 5) % 10;
    lemma_fundamental_div_mod(q + 5, 10);
    assert(sum + 5 * count == k * (10 * count) + (j * count + r) && 0 <= j * count + r < 10 * count)
        by (nonlinear_arith)
        requires
            sum == q * count + r,
            0 <= r < count,
            q + 5 == k * 10 + j,
            0 <= j < 10,
    ;
    lemma_fundamental_div_mod_converse(sum + 5 * count, 10 * count, k, j * count + r);
}

/// The rounded mean `m` of readings in tenths is the nearest tenth to the
/// exact mean `sum / count`, halves upward: `m - 1/2 <= sum / count < m + 1/2`.
pub proof fn law_mean_of_tenths_nearest(sum: int, count: int)
    requires
        count > 0,
    ensures
        2 * count * mean_of_tenths(sum, count) - count <= 2 * sum,
        2 * sum < 2 * count * mean_of_tenths(sum, count) + count,
{
    let m = mean_of_tenths(sum, count);
    lemma_fundamental_div_mod(2 * sum + count, 2 * count);
    let r = (2 * sum + count) % (2 * count);
    assert(2 * sum + count == (2 * count) * m + r);
    assert(2 * count * m == (2 * count) * m) by (nonlinear_arith);
}

/// The rounded mean `m` (in tenths) of readings in hundredths is the nearest
/// tenth to the exact mean, halves upward:
/// `10 * m - 5 <= sum / count < 10 * m + 5` hundredths.
pub proof fn law_mean_of_hundredths_nearest(sum: int, count: int)
    requires
        count > 0,
    ensures
        10 * count * mean_of_hundredths(sum, count) - 5 * count <= sum,
        sum < 10 * count * mean_of_hundredths(sum, count) + 5 * count,
{
    law_mean_of_hundredths_exact(sum, count);
    let m = mean_of_hundredths(sum, count);
    lemma_fundamental_div_mod(sum + 5 * count, 10 * count);
    let r = (sum + 5 * count) % (10 * count);
    assert(sum + 5 * count == (10 * count) * m + r);
    assert(10 * count * m == (10 * count) * m) by (nonlinear_arith);
}

/// The properly rounded mean, in tenths, of `count` readings totalling `sum`
/// tenths.
pub fn round_mean_of_tenths(sum: i64, count: u32) -> (r: i64)
    requires
        count > 0,
    ensures
        r == mean_of_tenths(sum as int, count as int),
{
    let q = floor_div(sum, count as u64);
    proof {
        lemma_fundamental_div_mod(sum as int, count as int);
        assert(-0x1_0000_0000_0000_0000_0000_0000 < (q as int) * (count as int) < 0x1_0000_0000_0000_0000_0000_0000)
            by (nonlinear_arith)
            requires
                i64::MIN <= q <= i64::MAX,
                0 < count <= u32::MAX,
        ;
    }
    let rem = ((sum as i128) - (q as i128) * (count as i128)) as u64;
    proof {
        let (s, c, qi, ri) = (sum as int, count as int, q as int, rem as int);
        assert(qi * c == c * qi) by (nonlinear_arith);
        assert(ri == s % c);
        assert(s == qi * c + ri);
        if 2 * ri >= c {
            assert(2 * s + c == (qi + 1) * (2 * c) + (2 * ri - c)) by (nonlinear_arith)
                requires
                    s == qi * c + ri,
            ;
            lemma_fundamental_div_mod_converse(2 * s + c, 2 * c, qi + 1, 2 * ri - c);
            assert(qi < i64::MAX) by (nonlinear_arith)
                requires
                    s == qi * c + ri,
                    2 * ri >= c,
                    0 <= ri < c,
                    s <= i64::MAX,
            ;
        } else {
            assert(2 * s + c == qi * (2 * c) + (2 * ri + c)) by (nonlinear_arith)
                requires
                    s == qi * c + ri,
            ;
            lemma_fundamental_div_mod_converse(2 * s + c, 2 * c, qi, 2 * ri + c);
        }
    }
    if 2 * rem >= count as u64 {
        q + 1
    } else {
        q
    }
}

/// The text of a number of hundredths rounded to one decimal place, when it
/// is not halfway between two tenths: the nearest tenth, with the sign of
/// the number (so `-3` hundredths reads `-0.0`).
pub open spec fn hundredths_text(m: int) -> Seq<u8> {
    if m < 0 {
        tenths_text(true, ((-m + 5) / 10) as nat)
    } else {
        tenths_text(false, ((m + 5) / 10) as nat)
    }
}

/// Appends `hundredths_text(m)`.
pub fn push_hundredths(out: &mut Vec<u8>, m: i32)
    ensures
        final(out)@ == old(out)@ + hundredths_text(m as int),
{
    let mag = magnitude(m as i64);
    push_tenths(out, m < 0, (mag + 5) / 10);
}

/// A number is halfway between two tenths of its hundredths exactly when
/// its magnitude is.
pub proof fn lemma_halfway_by_magnitude(m: int)
    ensures
        (m % 10 == 5) == ((if m < 0 { -m } else { m }) % 10 == 5),
{
    if m < 0 {
        let a = -m;
        assert((a % 10 == 5) == ((-a) % 10 == 5)) by (nonlinear_arith)
            requires
                a > 0,
        ;
    }
}

} // verus!

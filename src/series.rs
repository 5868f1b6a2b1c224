//! Point series for the four plot modes, built exactly from the bucket
//! statistics: `by`, `cumulative`, `ratio` and `cumulative_ratio`.
use vstd::prelude::*;
use crate::analyzer::lemma_swap_multiset;
use crate::metrics::{metric_value, Fraction, Metric};
use crate::log::{lemma_pow10_mono, pow10};
use crate::stats::LogData;

verus! {

/// A fraction's numerator and denominator.
pub open spec fn pair(f: Fraction) -> (int, int) {
    (f.num as int, f.den as int)
}

/// The fraction that a numerator and denominator pair stands for.
pub open spec fn fraction_of(p: (int, int)) -> Fraction {
    Fraction { num: p.0 as u128, den: p.1 as u128 }
}

/// Whether both parts fit 128 bits.
pub open spec fn fits(p: (int, int)) -> bool {
    0 <= p.0 <= u128::MAX && 0 <= p.1 <= u128::MAX
}

/// `a + b`: numerators added over a shared denominator, otherwise the sum
/// over the product of the denominators.
pub open spec fn add_values(a: (int, int), b: (int, int)) -> (int, int) {
    if a.1 == b.1 {
        (a.0 + b.0, a.1)
    } else {
        (a.0 * b.1 + b.0 * a.1, a.1 * b.1)
    }
}

/// `a / b`; the denominator is 0 where `b` is 0.
pub open spec fn quotient(a: (int, int), b: (int, int)) -> (int, int) {
    (a.0 * b.1, a.1 * b.0)
}

/// Metric `m` of the buckets before bucket `i`, summed; an empty sum is `0 / 1`.
pub open spec fn running_total(data: Seq<LogData>, m: Metric, i: int) -> (int, int)
    decreases i,
{
    if i <= 0 {
        (0, 1)
    } else {
        add_values(running_total(data, m, i - 1), metric_value(data[i - 1], m))
    }
}

/// `a <= b` for fractions with positive denominators.
pub open spec fn value_le(a: Fraction, b: Fraction) -> bool {
    a.num as int * b.den as int <= b.num as int * a.den as int
}

/// The point of bucket `d` with metric `x` across and `y` up.
pub open spec fn point(d: LogData, x: Metric, y: Metric) -> (Fraction, Fraction) {
    (fraction_of(metric_value(d, x)), fraction_of(metric_value(d, y)))
}

/// Every metric of the bucket has a positive denominator that fits.
pub open spec fn positive_units(d: LogData) -> bool {
    d.time_unit > 0 && d.log_count > 0 && d.byte_scale <= 12
}

proof fn lemma_metric_fits(d: LogData, m: Metric)
    requires
        d.byte_scale <= 12,
    ensures
        fits(metric_value(d, m)),
        positive_units(d) ==> metric_value(d, m).1 > 0,
{
    lemma_pow10_mono(d.byte_scale as nat, 12);
    reveal_with_fuel(pow10, 13);
    assert(1000 * pow10(d.byte_scale as nat) * d.log_count <= u128::MAX) by (nonlinear_arith)
        requires
            pow10(d.byte_scale as nat) <= 1_000_000_000_000,
            d.log_count <= u64::MAX,
    ;
    assert(1000 * pow10(d.byte_scale as nat) * d.log_count >= 0) by (nonlinear_arith)
        requires
            pow10(d.byte_scale as nat) >= 1,
    ;
    if positive_units(d) {
        assert(1000 * pow10(d.byte_scale as nat) * d.log_count > 0) by (nonlinear_arith)
            requires
                pow10(d.byte_scale as nat) >= 1,
                d.log_count >= 1,
        ;
    }
}

fn add_fractions(a: Fraction, b: Fraction) -> (r: Option<Fraction>)
    ensures
        match r {
            Some(f) => pair(f) == add_values(pair(a), pair(b)),
            None => !fits(add_values(pair(a), pair(b))),
        },
{
    if a.den == b.den {
        match a.num.checked_add(b.num) {
            Some(n) => Some(Fraction { num: n, den: a.den }),
            None => None,
        }
    } else {
        let p = a.num.checked_mul(b.den);
        let q = b.num.checked_mul(a.den);
        let d = a.den.checked_mul(b.den);
        match (p, q, d) {
            (Some(p), Some(q), Some(d)) => match p.checked_add(q) {
                Some(n) => Some(Fraction { num: n, den: d }),
                None => None,
            },
            _ => {
                proof {
                    assert(a.num as int * b.den as int >= 0) by (nonlinear_arith);
                    assert(b.num as int * a.den as int >= 0) by (nonlinear_arith);
                }
                None
            },
        }
    }
}

fn divide(a: Fraction, b: Fraction) -> (r: Option<Fraction>)
    ensures
        match r {
            Some(f) => pair(f) == quotient(pair(a), pair(b)),
            None => !fits(quotient(pair(a), pair(b))),
        },
{
    match (a.num.checked_mul(b.den), a.den.checked_mul(b.num)) {
        (Some(n), Some(d)) => Some(Fraction { num: n, den: d }),
        _ => None,
    }
}

/// `a * b` as a high and a low 128-bit half.
fn mul_wide(a: u128, b: u128) -> (r: (u128, u128))
    ensures
        r.0 as int * 0x1_0000_0000_0000_0000_0000_0000_0000_0000 + r.1 as int == a as int * b as int,
{
    let base: u128 = 0x1_0000_0000_0000_0000;
    let ah: u128 = a / base;
    let al: u128 = a % base;
    let bh: u128 = b / base;
    let bl: u128 = b % base;
    assert(ah < base && bh < base);
    assert(al * bl <= (base - 1) * (base - 1)) by (nonlinear_arith)
        requires
            al < base,
            bl < base,
    ;
    assert(al * bh <= (base - 1) * (base - 1)) by (nonlinear_arith)
        requires
            al < base,
            bh < base,
    ;
    assert(ah * bl <= (base - 1) * (base - 1)) by (nonlinear_arith)
        requires
            ah < base,
            bl < base,
    ;
    assert(ah * bh <= (base - 1) * (base - 1)) by (nonlinear_arith)
        requires
            ah < base,
            bh < base,
    ;
    let ll: u128 = al * bl;
    let lh: u128 = al * bh;
    let hl: u128 = ah * bl;
    let hh: u128 = ah * bh;
    let mid: u128 = ll / base + lh % base + hl % base;
    let lo: u128 = (mid % base) * base + ll % base;
    proof {
        let (ai, bi, lli, lhi, hli, hhi) = (
            a as int,
            b as int,
            ll as int,
            lh as int,
            hl as int,
            hh as int,
        );
        vstd::arithmetic::div_mod::lemma_fundamental_div_mod(ai, 0x1_0000_0000_0000_0000);
        vstd::arithmetic::div_mod::lemma_fundamental_div_mod(bi, 0x1_0000_0000_0000_0000);
        vstd::arithmetic::div_mod::lemma_fundamental_div_mod(lli, 0x1_0000_0000_0000_0000);
        vstd::arithmetic::div_mod::lemma_fundamental_div_mod(lhi, 0x1_0000_0000_0000_0000);
        vstd::arithmetic::div_mod::lemma_fundamental_div_mod(hli, 0x1_0000_0000_0000_0000);
        vstd::arithmetic::div_mod::lemma_fundamental_div_mod(mid as int, 0x1_0000_0000_0000_0000);
        assert(ai * bi == 0x1_0000_0000_0000_0000_0000_0000_0000_0000 * hhi
            + 0x1_0000_0000_0000_0000 * (lhi + hli) + lli) by (nonlinear_arith)
            requires
                ai == 0x1_0000_0000_0000_0000 * (ah as int) + al as int,
                bi == 0x1_0000_0000_0000_0000 * (bh as int) + bl as int,
                lli == al as int * bl as int,
                lhi == al as int * bh as int,
                hli == ah as int * bl as int,
                hhi == ah as int * bh as int,
        ;
        assert(ai * bi <= 0xFFFF_FFFF_FFFF_FFFF_FFFF_FFFF_FFFF_FFFF * 0xFFFF_FFFF_FFFF_FFFF_FFFF_FFFF_FFFF_FFFF)
            by (nonlinear_arith)
            requires
                0 <= ai <= 0xFFFF_FFFF_FFFF_FFFF_FFFF_FFFF_FFFF_FFFF,
                0 <= bi <= 0xFFFF_FFFF_FFFF_FFFF_FFFF_FFFF_FFFF_FFFF,
        ;
    }
    let hi: u128 = hh + lh / base + hl / base + mid / base;
    (hi, lo)
}

/// Whether `a <= b`, for fractions with positive denominators.
pub fn fraction_le(a: Fraction, b: Fraction) -> (r: bool)
    ensures
        r == value_le(a, b),
{
    let (h1, l1) = mul_wide(a.num, b.den);
    let (h2, l2) = mul_wide(b.num, a.den);
    h1 < h2 || (h1 == h2 && l1 <= l2)
}

proof fn lemma_value_le_trans(a: Fraction, b: Fraction, c: Fraction)
    requires
        a.den > 0,
        b.den > 0,
        c.den > 0,
        value_le(a, b),
        value_le(b, c),
    ensures
        value_le(a, c),
{
    let (an, ad, bn, bd, cn, cd) = (
        a.num as int,
        a.den as int,
        b.num as int,
        b.den as int,
        c.num as int,
        c.den as int,
    );
    assert(an * cd <= cn * ad) by (nonlinear_arith)
        requires
            an * bd <= bn * ad,
            bn * cd <= cn * bd,
            ad > 0,
            bd > 0,
            cd > 0,
            an >= 0,
            bn >= 0,
            cn >= 0,
    ;
}

/// The `by` series: per bucket, metric `y` against the bucket's position
/// where `x` is time, else against metric `x`, ordered by `x`.
pub fn by_series(data: &Vec<LogData>, x: Metric, y: Metric) -> (r: Vec<(Fraction, Fraction)>)
    requires
        forall|i: int| 0 <= i < data@.len() ==> positive_units(#[trigger] data@[i]),
    ensures
        r@.len() == data@.len(),
        x == Metric::Time ==> forall|i: int|
            0 <= i < r@.len() ==> #[trigger] r@[i] == (
                Fraction { num: i as u128, den: 1 },
                fraction_of(metric_value(data@[i], y)),
            ),
        x != Metric::Time ==> {
            &&& forall|a: int, b: int|
                0 <= a < b < r@.len() ==> value_le((#[trigger] r@[a]).0, (#[trigger] r@[b]).0)
            &&& r@.to_multiset() == Seq::new(data@.len(), |i: int| point(data@[i], x, y)).to_multiset()
        },
{
    let n: usize = data.len();
    let mut out: Vec<(Fraction, Fraction)> = Vec::new();
    let mut i: usize = 0;
    while i < n
        invariant
            n == data@.len(),
            forall|i: int| 0 <= i < data@.len() ==> (#[trigger] data@[i]).byte_scale <= 12,
            i <= n,
            out@.len() == i,
            forall|k: int|
                0 <= k < i ==> #[trigger] out@[k] == if x == Metric::Time {
                    (Fraction { num: k as u128, den: 1 }, fraction_of(metric_value(data@[k], y)))
                } else {
                    point(data@[k], x, y)
                },
        decreases n - i,
    {
        let fy = data[i].get_data(y);
        let fx = if x == Metric::Time {
            Fraction { num: i as u128, den: 1 }
        } else {
            data[i].get_data(x)
        };
        out.push((fx, fy));
        i = i + 1;
    }
    if x == Metric::Time {
        return out;
    }
    let ghost pts = Seq::new(data@.len(), |i: int| point(data@[i], x, y));
    assert(out@ =~= pts);
    proof {
        assert forall|k: int| 0 <= k < n implies (#[trigger] out@[k]).0.den > 0 by {
            lemma_metric_fits(data@[k], x);
            assert(positive_units(data@[k]));
        }
    }
    if n < 2 {
        return out;
    }
    let mut i: usize = 1;
    while i < n
        invariant
            1 <= i <= n,
            n == out@.len(),
            out@.to_multiset() == pts.to_multiset(),
            forall|k: int| 0 <= k < n ==> (#[trigger] out@[k]).0.den > 0,
            forall|a: int, b: int|
                0 <= a < b < i ==> value_le((#[trigger] out@[a]).0, (#[trigger] out@[b]).0),
        decreases n - i,
    {
        let mut j: usize = i;
        while j > 0 && !fraction_le(out[j - 1].0, out[j].0)
            invariant
                0 <= j <= i < n,
                n == out@.len(),
                out@.to_multiset() == pts.to_multiset(),
                forall|k: int| 0 <= k < n ==> (#[trigger] out@[k]).0.den > 0,
                forall|a: int, b: int|
                    0 <= a < b <= i && a != j && b != j ==> value_le(
                        (#[trigger] out@[a]).0,
                        (#[trigger] out@[b]).0,
                    ),
                forall|b: int| j < b <= i ==> !value_le((#[trigger] out@[b]).0, out@[j as int].0),
            decreases j,
        {
            let p = out[j - 1];
            let q = out[j];
            proof {
                lemma_swap_multiset(out@, j - 1, j as int);
            }
            out[j - 1] = q;
            out[j] = p;
            j = j - 1;
        }
        proof {
            assert forall|a: int, b: int| 0 <= a < b <= i implies value_le(
                (#[trigger] out@[a]).0,
                (#[trigger] out@[b]).0,
            ) by {
                if b == j && a < j - 1 {
                    lemma_value_le_trans(out@[a].0, out@[j - 1].0, out@[j as int].0);
                }
                if a == j {
                    let (an, ad, bn, bd) = (
                        out@[a].0.num as int,
                        out@[a].0.den as int,
                        out@[b].0.num as int,
                        out@[b].0.den as int,
                    );
                    assert(!(bn * ad <= an * bd));
                }
            }
        }
        i = i + 1;
    }
    out
}

/// Whether a running total of the `cumulative` series before bucket `i`
/// does not fit 128 bits.
pub open spec fn sum_overflows(data: Seq<LogData>, x: Metric, y: Metric, i: int) -> bool {
    !fits(running_total(data, y, i)) || (x != Metric::Time && !fits(running_total(data, x, i)))
}

/// The `cumulative` series: per bucket, metric `y` of the buckets before
/// it, summed, against the bucket's time where `x` is time, else against
/// metric `x` of the buckets before it, summed. Nothing where one of these
/// sums does not fit 128 bits.
pub fn cumulative_series(data: &Vec<LogData>, x: Metric, y: Metric) -> (r: Option<
    Vec<(Fraction, Fraction)>,
>)
    requires
        forall|i: int| 0 <= i < data@.len() ==> (#[trigger] data@[i]).byte_scale <= 12,
    ensures
        match r {
            Some(s) => {
                &&& s@.len() == data@.len()
                &&& forall|i: int|
                    0 <= i < s@.len() ==> pair((#[trigger] s@[i]).1) == running_total(data@, y, i)
                        && pair(s@[i].0) == if x == Metric::Time {
                        metric_value(data@[i], Metric::Time)
                    } else {
                        running_total(data@, x, i)
                    }
            },
            None => exists|i: int| 0 <= i < data@.len() && #[trigger] sum_overflows(data@, x, y, i),
        },
{
    let n: usize = data.len();
    let mut out: Vec<(Fraction, Fraction)> = Vec::new();
    let mut sx = Fraction { num: 0, den: 1 };
    let mut sy = Fraction { num: 0, den: 1 };
    let mut i: usize = 0;
    while i < n
        invariant
            n == data@.len(),
            forall|i: int| 0 <= i < data@.len() ==> (#[trigger] data@[i]).byte_scale <= 12,
            i <= n,
            out@.len() == i,
            i < n ==> pair(sy) == running_total(data@, y, i as int),
            i < n && x != Metric::Time ==> pair(sx) == running_total(data@, x, i as int),
            forall|k: int|
                0 <= k < i ==> pair((#[trigger] out@[k]).1) == running_total(data@, y, k)
                    && pair(out@[k].0) == if x == Metric::Time {
                    metric_value(data@[k], Metric::Time)
                } else {
                    running_total(data@, x, k)
                },
        decreases n - i,
    {
        let fx = if x == Metric::Time {
            data[i].get_data(Metric::Time)
        } else {
            sx
        };
        out.push((fx, sy));
        if i + 1 < n {
            let vy = data[i].get_data(y);
            match add_fractions(sy, vy) {
                Some(f) => {
                    sy = f;
                },
                None => {
                    assert(sum_overflows(data@, x, y, i + 1));
                    return None;
                },
            }
            if x != Metric::Time {
                let vx = data[i].get_data(x);
                match add_fractions(sx, vx) {
                    Some(f) => {
                        sx = f;
                    },
                    None => {
                        assert(sum_overflows(data@, x, y, i + 1));
                        return None;
                    },
                }
            }
        }
        i = i + 1;
    }
    Some(out)
}

/// The `ratio` series: per bucket, its errors over metric `y` against
/// metric `x`. Nothing where a quotient's parts do not fit 128 bits.
pub fn ratio_series(data: &Vec<LogData>, x: Metric, y: Metric) -> (r: Option<
    Vec<(Fraction, Fraction)>,
>)
    requires
        forall|i: int| 0 <= i < data@.len() ==> (#[trigger] data@[i]).byte_scale <= 12,
    ensures
        match r {
            Some(s) => {
                &&& s@.len() == data@.len()
                &&& forall|i: int|
                    0 <= i < s@.len() ==> pair((#[trigger] s@[i]).0) == metric_value(data@[i], x)
                        && pair(s@[i].1) == quotient(
                        metric_value(data@[i], Metric::Errors),
                        metric_value(data@[i], y),
                    )
            },
            None => exists|i: int|
                0 <= i < data@.len() && !fits(
                    quotient(metric_value(#[trigger] data@[i], Metric::Errors), metric_value(data@[i], y)),
                ),
        },
{
    let n: usize = data.len();
    let mut out: Vec<(Fraction, Fraction)> = Vec::new();
    let mut i: usize = 0;
    while i < n
        invariant
            n == data@.len(),
            forall|i: int| 0 <= i < data@.len() ==> (#[trigger] data@[i]).byte_scale <= 12,
            i <= n,
            out@.len() == i,
            forall|k: int|
                0 <= k < i ==> pair((#[trigger] out@[k]).0) == metric_value(data@[k], x) && pair(
                    out@[k].1,
                ) == quotient(metric_value(data@[k], Metric::Errors), metric_value(data@[k], y)),
        decreases n - i,
    {
        let fx = data[i].get_data(x);
        match divide(data[i].get_data(Metric::Errors), data[i].get_data(y)) {
            Some(q) => {
                out.push((fx, q));
            },
            None => {
                return None;
            },
        }
        i = i + 1;
    }
    Some(out)
}

/// The `cumulative_ratio` series: per bucket, the errors of the buckets
/// before it over the bucket's metric `y`, against the bucket's time.
/// Nothing where a sum or quotient does not fit 128 bits.
pub fn cumulative_ratio_series(data: &Vec<LogData>, y: Metric) -> (r: Option<
    Vec<(Fraction, Fraction)>,
>)
    requires
        forall|i: int| 0 <= i < data@.len() ==> (#[trigger] data@[i]).byte_scale <= 12,
    ensures
        match r {
            Some(s) => {
                &&& s@.len() == data@.len()
                &&& forall|i: int|
                    0 <= i < s@.len() ==> pair((#[trigger] s@[i]).0) == metric_value(
                        data@[i],
                        Metric::Time,
                    ) && pair(s@[i].1) == quotient(
                        running_total(data@, Metric::Errors, i),
                        metric_value(data@[i], y),
                    )
            },
            None => exists|i: int|
                0 <= i < data@.len() && (!fits(#[trigger] running_total(data@, Metric::Errors, i))
                    || !fits(quotient(running_total(data@, Metric::Errors, i), metric_value(data@[i], y)))),
        },
{
    let n: usize = data.len();
    let mut out: Vec<(Fraction, Fraction)> = Vec::new();
    let mut errors = Fraction { num: 0, den: 1 };
    let mut i: usize = 0;
    while i < n
        invariant
            n == data@.len(),
            forall|i: int| 0 <= i < data@.len() ==> (#[trigger] data@[i]).byte_scale <= 12,
            i <= n,
            out@.len() == i,
            i < n ==> pair(errors) == running_total(data@, Metric::Errors, i as int),
            forall|k: int|
                0 <= k < i ==> pair((#[trigger] out@[k]).0) == metric_value(data@[k], Metric::Time)
                    && pair(out@[k].1) == quotient(
                    running_total(data@, Metric::Errors, k),
                    metric_value(data@[k], y),
                ),
        decreases n - i,
    {
        let fx = data[i].get_data(Metric::Time);
        match divide(errors, data[i].get_data(y)) {
            Some(q) => {
                out.push((fx, q));
            },
            None => {
                return None;
            },
        }
        if i + 1 < n {
            match add_fractions(errors, data[i].get_data(Metric::Errors)) {
                Some(f) => {
                    errors = f;
                },
                None => {
                    assert(!fits(running_total(data@, Metric::Errors, i + 1)));
                    return None;
                },
            }
        }
        i = i + 1;
    }
    Some(out)
}

/// Whether two numerator and denominator pairs stand for the same number.
pub open spec fn same_value(a: (int, int), b: (int, int)) -> bool {
    a.0 * b.1 == b.0 * a.1
}

/// The `cumulative` series gives each bucket the total of the buckets before
/// it, so its last point carries the total of all buckets exactly when the
/// last bucket adds nothing.
pub proof fn lemma_cumulative_last_total(data: Seq<LogData>, y: Metric)
    requires
        data.len() > 0,
        metric_value(data.last(), y).0 == 0,
    ensures
        same_value(running_total(data, y, data.len() - 1), running_total(data, y, data.len() as int)),
{
    let a = running_total(data, y, data.len() - 1);
    let d = metric_value(data[data.len() - 1], y).1;
    assert(data[data.len() - 1] == data.last());
    if a.1 != d {
        assert(a.0 * (a.1 * d) == (a.0 * d + 0 * a.1) * a.1) by (nonlinear_arith);
    }
}

} // verus!

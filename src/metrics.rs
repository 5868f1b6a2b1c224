//! The metrics that a plot can put on an axis, as exact fractions, and the
//! error sums that the reliability models start from.
use vstd::prelude::*;
use crate::grouping::same_text;
use crate::log::{exec_pow10, lemma_pow10_mono, pow10};
use crate::stats::LogData;

verus! {

/// A nonnegative rational number `num / den`; a zero `den` marks a quotient
/// that does not exist.
#[derive(Clone, Copy, Debug, PartialEq, Eq, Structural)]
pub struct Fraction {
    pub num: u128,
    pub den: u128,
}

/// A statistic that an axis can show.
#[derive(Clone, Copy, Debug, PartialEq, Eq, Structural)]
pub enum Metric {
    /// Time offset, in units of the granularity.
    Time,
    Users,
    Sessions,
    /// Kilobytes sent.
    TotalBytes,
    /// Kilobytes per record.
    AvgBytes,
    /// Records.
    Hits,
    Errors,
    /// Mean gap between records, in seconds.
    Atbl,
    /// Mean gap between error records, in seconds.
    Atbe,
}

impl Metric {
    /// The metric that a name denotes; any name not listed denotes `Errors`.
    pub open spec fn spec_named(s: Seq<char>) -> Metric {
        if s == "time"@ {
            Metric::Time
        } else if s == "users"@ {
            Metric::Users
        } else if s == "sessions"@ {
            Metric::Sessions
        } else if s == "total_bytes"@ {
            Metric::TotalBytes
        } else if s == "avg_bytes"@ {
            Metric::AvgBytes
        } else if s == "hits"@ {
            Metric::Hits
        } else if s == "atbl"@ {
            Metric::Atbl
        } else if s == "atbe"@ {
            Metric::Atbe
        } else {
            Metric::Errors
        }
    }

    /// The metric that a name (`time`, `users`, `sessions`, `total_bytes`,
    /// `avg_bytes`, `hits`, `errors`, `atbl`, `atbe`) denotes; any other
    /// name denotes `Errors`.
    pub fn from_name(s: &str) -> (r: Metric)
        ensures
            r == Metric::spec_named(s@),
    {
        if same_text(s, "time") {
            Metric::Time
        } else if same_text(s, "users") {
            Metric::Users
        } else if same_text(s, "sessions") {
            Metric::Sessions
        } else if same_text(s, "total_bytes") {
            Metric::TotalBytes
        } else if same_text(s, "avg_bytes") {
            Metric::AvgBytes
        } else if same_text(s, "hits") {
            Metric::Hits
        } else if same_text(s, "atbl") {
            Metric::Atbl
        } else if same_text(s, "atbe") {
            Metric::Atbe
        } else {
            Metric::Errors
        }
    }
}

/// The value of metric `m` of `d`, as numerator and denominator.
pub open spec fn metric_value(d: LogData, m: Metric) -> (int, int) {
    match m {
        Metric::Time => (d.time as int, d.time_unit as int),
        Metric::Users => (d.users as int, 1),
        Metric::Sessions => (d.sessions as int, 1),
        Metric::TotalBytes => (d.total_bytes as int, 1000 * pow10(d.byte_scale as nat) as int),
        Metric::AvgBytes => (d.total_bytes as int, 1000 * pow10(d.byte_scale as nat) as int * d.log_count),
        Metric::Hits => (d.log_count as int, 1),
        Metric::Errors => (d.errors as int, 1),
        Metric::Atbl => (d.gap_sum as int, d.log_count as int),
        Metric::Atbe => if d.errors == 0 {
            (0, 1)
        } else {
            (d.error_gap_sum as int, d.errors as int)
        },
    }
}

impl LogData {
    /// The value of metric `m`, exactly.
    pub fn get_data(&self, m: Metric) -> (r: Fraction)
        requires
            self.byte_scale <= 12,
        ensures
            (r.num as int, r.den as int) == metric_value(*self, m),
    {
        proof {
            lemma_pow10_mono(self.byte_scale as nat, 12);
            reveal_with_fuel(pow10, 13);
            assert(1000 * pow10(self.byte_scale as nat) * self.log_count <= u128::MAX) by (nonlinear_arith)
                requires
                    pow10(self.byte_scale as nat) <= 1_000_000_000_000,
                    self.log_count <= usize::MAX,
                    usize::MAX <= u64::MAX,
            ;
        }
        let unit: u128 = 1000 * exec_pow10(self.byte_scale);
        match m {
            Metric::Time => Fraction { num: self.time as u128, den: self.time_unit as u128 },
            Metric::Users => Fraction { num: self.users as u128, den: 1 },
            Metric::Sessions => Fraction { num: self.sessions as u128, den: 1 },
            Metric::TotalBytes => Fraction { num: self.total_bytes, den: unit },
            Metric::AvgBytes => Fraction {
                num: self.total_bytes,
                den: unit * self.log_count as u128,
            },
            Metric::Hits => Fraction { num: self.log_count as u128, den: 1 },
            Metric::Errors => Fraction { num: self.errors as u128, den: 1 },
            Metric::Atbl => Fraction { num: self.gap_sum, den: self.log_count as u128 },
            Metric::Atbe => if self.errors == 0 {
                Fraction { num: 0, den: 1 }
            } else {
                Fraction { num: self.error_gap_sum, den: self.errors as u128 }
            },
        }
    }

    /// The values of metrics `x` and `y`, exactly.
    pub fn get_data_point(&self, x: Metric, y: Metric) -> (r: (Fraction, Fraction))
        requires
            self.byte_scale <= 12,
        ensures
            (r.0.num as int, r.0.den as int) == metric_value(*self, x),
            (r.1.num as int, r.1.den as int) == metric_value(*self, y),
    {
        (self.get_data(x), self.get_data(y))
    }
}

/// The errors of the first `n` buckets, summed.
pub open spec fn error_sum(data: Seq<LogData>, n: int) -> int
    decreases n,
{
    if n <= 0 {
        0
    } else {
        error_sum(data, n - 1) + data[n - 1].errors
    }
}

/// The errors of the first `n` buckets, each weighted by its 1-based position, summed.
pub open spec fn weighted_error_sum(data: Seq<LogData>, n: int) -> int
    decreases n,
{
    if n <= 0 {
        0
    } else {
        weighted_error_sum(data, n - 1) + n * data[n - 1].errors
    }
}

/// The errors of all buckets, summed.
pub fn total_errors(data: &Vec<LogData>) -> (r: u128)
    ensures
        r == error_sum(data@, data@.len() as int),
{
    let mut sum: u128 = 0;
    let mut i: usize = 0;
    while i < data.len()
        invariant
            i <= data@.len(),
            sum == error_sum(data@, i as int),
            sum <= i * 0xFFFF_FFFF_FFFF_FFFFnat,
        decreases data.len() - i,
    {
        sum = sum + data[i].errors as u128;
        i = i + 1;
    }
    sum
}

proof fn lemma_weighted_monotone(data: Seq<LogData>, i: int, n: int)
    requires
        0 <= i <= n,
    ensures
        weighted_error_sum(data, i) <= weighted_error_sum(data, n),
    decreases n - i,
{
    if i < n {
        lemma_weighted_monotone(data, i, n - 1);
        assert(n * data[n - 1].errors >= 0) by (nonlinear_arith)
            requires
                n >= 1,
        ;
    }
}

/// The errors of all buckets, each weighted by its 1-based position,
/// summed; nothing where the sum does not fit 128 bits.
pub fn weighted_errors(data: &Vec<LogData>) -> (r: Option<u128>)
    ensures
        match r {
            Some(v) => v == weighted_error_sum(data@, data@.len() as int),
            None => weighted_error_sum(data@, data@.len() as int) > u128::MAX,
        },
{
    let mut sum: u128 = 0;
    let mut i: usize = 0;
    while i < data.len()
        invariant
            i <= data@.len(),
            sum == weighted_error_sum(data@, i as int),
        decreases data.len() - i,
    {
        let w = (i as u128 + 1).checked_mul(data[i].errors as u128);
        let next = match w {
            Some(w) => sum.checked_add(w),
            None => None,
        };
        match next {
            Some(v) => {
                sum = v;
            },
            None => {
                proof {
                    assert((i + 1) * data@[i as int].errors >= 0) by (nonlinear_arith);
                    lemma_weighted_monotone(data@, i + 1, data@.len() as int);
                }
                return None;
            },
        }
        i = i + 1;
    }
    Some(sum)
}

/// The statistic that a reliability model is fitted to.
#[derive(Clone, Copy, Debug, PartialEq, Eq, Structural)]
pub enum ModelType {
    /// Schick-Wolverton: the position-weighted mean bucket of the errors.
    Scwind,
    /// Goel-Okumoto: the total of the errors.
    Go,
}

/// Whether a model can be fitted to a bucket sequence.
#[derive(Clone, Copy, Debug, PartialEq, Eq, Structural)]
pub enum FitPlan {
    /// No errors: there is nothing to fit.
    Skip,
    /// A single bucket: the model curve is flat at zero.
    Flat,
    /// Solve for the model's parameters.
    Solve,
}

/// What to do with `buckets` buckets holding `errors` errors in all.
pub fn fit_plan(buckets: usize, errors: u128) -> (r: FitPlan)
    ensures
        errors == 0 ==> r == FitPlan::Skip,
        errors > 0 && buckets <= 1 ==> r == FitPlan::Flat,
        errors > 0 && buckets > 1 ==> r == FitPlan::Solve,
{
    if errors == 0 {
        FitPlan::Skip
    } else if buckets <= 1 {
        FitPlan::Flat
    } else {
        FitPlan::Solve
    }
}

/// The rate statistic of `model` over the buckets, as a fraction:
/// the weighted error sum over the error total for `Scwind`, the error
/// total for `Go`. Nothing where the weighted sum does not fit 128 bits.
pub fn rate_statistic(model: ModelType, data: &Vec<LogData>) -> (r: Option<Fraction>)
    ensures
        match model {
            ModelType::Scwind => match r {
                Some(f) => f.num == weighted_error_sum(data@, data@.len() as int) && f.den
                    == error_sum(data@, data@.len() as int),
                None => weighted_error_sum(data@, data@.len() as int) > u128::MAX,
            },
            ModelType::Go => r == Some(
                Fraction { num: error_sum(data@, data@.len() as int) as u128, den: 1 },
            ),
        },
{
    let total: u128 = total_errors(data);
    match model {
        ModelType::Scwind => match weighted_errors(data) {
            Some(w) => Some(Fraction { num: w, den: total }),
            None => None,
        },
        ModelType::Go => Some(Fraction { num: total, den: 1 }),
    }
}

} // verus!

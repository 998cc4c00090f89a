//! Samples, the derived CPU-time series, and per-run averages.
use vstd::prelude::*;

verus! {

/// Magnitude bound of a sample value that the parsers can produce, in thousandths.
pub const VALUE_LIMIT: i64 = 1_000_000_000_000_000_000;

/// One observation of a metric: a value in thousandths and a time in
/// milliseconds since the Unix epoch.
#[derive(Clone, Copy, Debug, PartialEq, Eq, Structural)]
pub struct Sample {
    pub value: i64,
    pub timestamp: u64,
}

/// The series of one metric within one run, in chronological order.
#[derive(Clone, Debug)]
pub struct NamedSeries {
    pub name: String,
    pub samples: Vec<Sample>,
}

/// A derived series was asked of two series of different lengths.
#[derive(Clone, Copy, Debug, PartialEq, Eq, Structural)]
pub struct MisalignedSeriesError {
    pub total_len: usize,
    pub gpu_len: usize,
}

/// An average was asked of a series without samples.
#[derive(Clone, Copy, Debug, PartialEq, Eq, Structural)]
pub struct EmptySeriesError;

pub open spec fn value_in_range(v: int) -> bool {
    -VALUE_LIMIT <= v <= VALUE_LIMIT
}

pub open spec fn values_in_range(s: Seq<Sample>) -> bool {
    forall|i: int| 0 <= i < s.len() ==> value_in_range(#[trigger] s[i].value as int)
}

/// The CPU-time sample derived from a total-frame-time and a GPU-time sample.
pub open spec fn cpu_sample(total: Sample, gpu: Sample) -> Sample {
    Sample { value: (total.value - gpu.value) as i64, timestamp: total.timestamp }
}

/// CPU time per frame: total frame time minus GPU time, position by position,
/// at the total's timestamps.
pub fn cpu_time(total: &Vec<Sample>, gpu: &Vec<Sample>) -> (r: Result<
    Vec<Sample>,
    MisalignedSeriesError,
>)
    requires
        values_in_range(total@),
        values_in_range(gpu@),
    ensures
        total@.len() != gpu@.len() <==> r.is_err(),
        r.is_err() ==> r == Err::<Vec<Sample>, _>(
            MisalignedSeriesError { total_len: total.len(), gpu_len: gpu.len() },
        ),
        r.is_ok() ==> {
            let v = r.unwrap()@;
            &&& v.len() == total@.len()
            &&& forall|i: int|
                0 <= i < v.len() ==> #[trigger] v[i] == cpu_sample(total@[i], gpu@[i])
            &&& forall|i: int|
                0 <= i < v.len() ==> v[i].value == total@[i].value - gpu@[i].value
        },
{
    if total.len() != gpu.len() {
        return Err(MisalignedSeriesError { total_len: total.len(), gpu_len: gpu.len() });
    }
    let mut out: Vec<Sample> = Vec::new();
    let mut i: usize = 0;
    while i < total.len()
        invariant
            total@.len() == gpu@.len(),
            values_in_range(total@),
            values_in_range(gpu@),
            i <= total@.len(),
            out@.len() == i,
            forall|j: int| 0 <= j < i ==> #[trigger] out@[j] == cpu_sample(total@[j], gpu@[j]),
            forall|j: int| 0 <= j < i ==> out@[j].value == total@[j].value - gpu@[j].value,
        decreases total@.len() - i,
    {
        assert(value_in_range(total@[i as int].value as int));
        assert(value_in_range(gpu@[i as int].value as int));
        out.push(Sample { value: total[i].value - gpu[i].value, timestamp: total[i].timestamp });
        i = i + 1;
    }
    Ok(out)
}

/// Sum of the values of `s`.
pub open spec fn sum_values(s: Seq<Sample>) -> int
    decreases s.len(),
{
    if s.len() == 0 {
        0
    } else {
        sum_values(s.drop_last()) + s.last().value
    }
}

/// The arithmetic mean of the values of a non-empty series, rounded down to a
/// thousandth.
pub open spec fn mean_value(s: Seq<Sample>) -> int
    recommends
        s.len() > 0,
{
    sum_values(s) / (s.len() as int)
}

proof fn lemma_sum_bounds(s: Seq<Sample>)
    ensures
        s.len() * i64::MIN <= sum_values(s) <= s.len() * i64::MAX,
    decreases s.len(),
{
    if s.len() > 0 {
        lemma_sum_bounds(s.drop_last());
        assert((s.len() - 1) * i64::MIN + i64::MIN == s.len() * i64::MIN) by (nonlinear_arith);
        assert((s.len() - 1) * i64::MAX + i64::MAX == s.len() * i64::MAX) by (nonlinear_arith);
    }
}

proof fn lemma_mean_bounds(sum: int, n: int)
    requires
        n > 0,
        n * i64::MIN <= sum <= n * i64::MAX,
    ensures
        i64::MIN <= sum / n <= i64::MAX,
{
    assert(i64::MIN <= sum / n <= i64::MAX) by (nonlinear_arith)
        requires
            n > 0,
            n * i64::MIN <= sum <= n * i64::MAX,
    ;
}

/// Sum of the sample values.
pub fn sum_samples(samples: &Vec<Sample>) -> (r: i128)
    ensures
        r == sum_values(samples@),
        samples@.len() * i64::MIN <= r <= samples@.len() * i64::MAX,
{
    let n = samples.len();
    let mut sum: i128 = 0;
    let mut i: usize = 0;
    while i < n
        invariant
            n == samples@.len(),
            i <= n,
            sum == sum_values(samples@.take(i as int)),
            i * i64::MIN <= sum <= i * i64::MAX,
        decreases n - i,
    {
        assert(samples@.take(i + 1).drop_last() =~= samples@.take(i as int));
        proof {
            lemma_sum_bounds(samples@.take(i + 1));
            assert((i + 1) * i64::MIN >= i128::MIN) by (nonlinear_arith)
                requires
                    i < n,
                    n <= usize::MAX,
            ;
            assert((i + 1) * i64::MAX <= i128::MAX) by (nonlinear_arith)
                requires
                    i < n,
                    n <= usize::MAX,
            ;
        }
        sum = sum + samples[i].value as i128;
        i = i + 1;
    }
    assert(samples@.take(n as int) =~= samples@);
    sum
}

/// The mean of the sample values, rounded down to a thousandth.
pub fn mean(samples: &Vec<Sample>) -> (r: Result<i64, EmptySeriesError>)
    ensures
        samples@.len() == 0 <==> r.is_err(),
        r.is_ok() ==> r.unwrap() == mean_value(samples@),
{
    let n = samples.len();
    if n == 0 {
        return Err(EmptySeriesError);
    }
    let sum = sum_samples(samples);
    proof {
        lemma_mean_bounds(sum as int, n as int);
    }
    let q: i128 = if sum >= 0 {
        sum / (n as i128)
    } else {
        let m: i128 = -sum;
        let d: i128 = m / (n as i128);
        let c: i128 = if m % (n as i128) == 0 { d } else { d + 1 };
        proof {
            let ni = n as int;
            let mi = m as int;
            assert(mi == d * ni + mi % ni && 0 <= mi % ni < ni) by (nonlinear_arith)
                requires ni > 0, mi > 0, d == mi / ni;
            if mi % ni == 0 {
                assert(-mi == (-d) * ni) by (nonlinear_arith)
                    requires mi == d * ni + mi % ni, mi % ni == 0;
                assert((-mi) / ni == -d) by (nonlinear_arith)
                    requires ni > 0, -mi == (-d) * ni;
            } else {
                assert(-mi == (-(d + 1)) * ni + (ni - mi % ni)) by (nonlinear_arith)
                    requires mi == d * ni + mi % ni;
                assert((-mi) / ni == -(d + 1)) by (nonlinear_arith)
                    requires ni > 0, -mi == (-(d + 1)) * ni + (ni - mi % ni), 0 < mi % ni < ni;
            }
        }
        -c
    };
    Ok(q as i64)
}

/// Whether some series of `m` is named `name`.
pub open spec fn has_series_named(m: Seq<NamedSeries>, name: Seq<char>) -> bool {
    exists|i: int| 0 <= i < m.len() && #[trigger] m[i].name@ == name
}

/// Whether some series of `metrics` is named `name`.
pub fn contains_key(metrics: &Vec<NamedSeries>, name: &str) -> (r: bool)
    ensures
        r == has_series_named(metrics@, name@),
{
    let key = String::from_str(name);
    let mut i: usize = 0;
    while i < metrics.len()
        invariant
            i <= metrics@.len(),
            key@ == name@,
            forall|j: int| 0 <= j < i ==> (#[trigger] metrics@[j]).name@ != name@,
        decreases metrics@.len() - i,
    {
        if metrics[i].name == key {
            return true;
        }
        i = i + 1;
    }
    false
}

/// Names of the series are pairwise distinct.
pub open spec fn names_unique(m: Seq<NamedSeries>) -> bool {
    forall|i: int, j: int| 0 <= i < j < m.len() ==> (#[trigger] m[i]).name@ != (#[trigger] m[j]).name@
}

/// Position of the first series of `metrics` named `name`, or `metrics.len()`.
pub fn find_series(metrics: &Vec<NamedSeries>, name: &String) -> (r: usize)
    ensures
        r <= metrics@.len(),
        forall|i: int| 0 <= i < r ==> (#[trigger] metrics@[i]).name@ != name@,
        r < metrics@.len() ==> metrics@[r as int].name@ == name@,
{
    let mut j: usize = 0;
    while j < metrics.len()
        invariant
            j <= metrics@.len(),
            forall|i: int| 0 <= i < j ==> (#[trigger] metrics@[i]).name@ != name@,
        decreases metrics@.len() - j,
    {
        if metrics[j].name == *name {
            return j;
        }
        j = j + 1;
    }
    j
}

} // verus!

//! Per-run results: averages, the pass/fail verdict, run identifiers, and the
//! comparison view of one run against the previous run and the all-time average.
use vstd::prelude::*;
use crate::series::{
    find_series, has_series_named, mean, mean_value, names_unique, sum_samples, sum_values,
    NamedSeries, Sample,
};
use crate::{MetricSummary, ProfileRun, ProfileSummary};

verus! {

/// A run passes when its average total frame time is at most this, in thousandths of a ms.
pub const TARGET_FRAME_TIME: i64 = 13_000;

/// Name of the metric that decides whether a run passes.
pub open spec fn total_frame_time_name() -> Seq<char> {
    "Total Frame Time"@
}

/// Whether the exact mean of the samples is at most the target:
/// their sum is at most the target times their number.
pub open spec fn within_target_spec(s: Seq<Sample>) -> bool {
    sum_values(s) <= TARGET_FRAME_TIME * s.len()
}

/// Whether the exact mean of the samples is at most the target frame time.
pub fn within_target(samples: &Vec<Sample>) -> (r: bool)
    ensures
        r == within_target_spec(samples@),
{
    let sum = sum_samples(samples);
    let n = samples.len();
    proof {
        assert(TARGET_FRAME_TIME * n <= 13_000 * usize::MAX) by (nonlinear_arith)
            requires n <= usize::MAX;
    }
    sum <= (TARGET_FRAME_TIME as i128) * (n as i128)
}

/// One metric's average over one run, in thousandths.
#[derive(Clone, Debug)]
pub struct MetricAverage {
    pub name: String,
    pub value: i64,
}

/// Why a completed run could not be turned into a record.
#[derive(Clone, Copy, Debug, PartialEq, Eq, Structural)]
pub enum RecordError {
    /// The series at this position has no samples.
    EmptySeries(usize),
    /// The run has no "Total Frame Time" series.
    MissingTotalFrameTime,
}

/// Why the comparison view of a run could not be assembled.
#[derive(Clone, Copy, Debug, PartialEq, Eq, Structural)]
pub enum AssembleError {
    /// No all-time average was given for the metric at this position.
    MissingAverage(usize),
}

/// The all-time aggregation of a metric returned no bucket.
#[derive(Clone, Copy, Debug, PartialEq, Eq, Structural)]
pub struct AggregationError;

/// What is written for a completed run: its summary and its per-metric averages.
#[derive(Clone, Debug)]
pub struct RunRecord {
    pub summary: ProfileSummary,
    pub averages: Vec<MetricAverage>,
}

/// Whether a run with this average total frame time passes (the bound is inclusive).
pub fn run_result(average_total_frame_time: i64) -> (r: bool)
    ensures
        r == (average_total_frame_time <= TARGET_FRAME_TIME),
{
    average_total_frame_time <= TARGET_FRAME_TIME
}

/// The value recorded under `name` in `s`, the first one if there are several.
pub open spec fn find_average(s: Seq<MetricAverage>, name: Seq<char>) -> Option<i64>
    decreases s.len(),
{
    if s.len() == 0 {
        None
    } else if s[0].name@ == name {
        Some(s[0].value)
    } else {
        find_average(s.skip(1), name)
    }
}

/// Looks up the average recorded under `name`.
pub fn lookup_average(s: &Vec<MetricAverage>, name: &String) -> (r: Option<i64>)
    ensures
        r == find_average(s@, name@),
{
    let mut i: usize = 0;
    assert(s@.skip(0) =~= s@);
    while i < s.len()
        invariant
            i <= s@.len(),
            find_average(s@, name@) == find_average(s@.skip(i as int), name@),
        decreases s@.len() - i,
    {
        assert(s@.skip(i as int).skip(1) =~= s@.skip(i + 1));
        if s[i].name == *name {
            return Some(s[i].value);
        }
        i = i + 1;
    }
    None
}

/// `a` holds, position by position, the name and the mean of each series of `m`.
pub open spec fn averages_of(m: Seq<NamedSeries>, a: Seq<MetricAverage>) -> bool {
    &&& a.len() == m.len()
    &&& forall|i: int|
        0 <= i < a.len() ==> #[trigger] a[i].name@ == m[i].name@ && a[i].value == mean_value(
            m[i].samples@,
        )
}

/// Names of the averages are pairwise distinct.
pub open spec fn averages_unique(a: Seq<MetricAverage>) -> bool {
    forall|i: int, j: int| 0 <= i < j < a.len() ==> (#[trigger] a[i]).name@ != (#[trigger] a[j]).name@
}

/// Per-metric averages of a run, metric by metric: `Ok` exactly when every
/// series has a sample.
pub fn get_averages(metrics: &Vec<NamedSeries>) -> (r: Result<Vec<MetricAverage>, RecordError>)
    ensures
        r.is_ok() <==> forall|i: int| 0 <= i < metrics@.len() ==> #[trigger] metrics@[i].samples@.len() > 0,
        r.is_err() ==> exists|i: int|
            0 <= i < metrics@.len() && #[trigger] metrics@[i].samples@.len() == 0
                && r == Err::<Vec<MetricAverage>, _>(RecordError::EmptySeries(i as usize)),
        r.is_ok() ==> averages_of(metrics@, r.unwrap()@),
        r.is_ok() && names_unique(metrics@) ==> averages_unique(r.unwrap()@),
{
    let mut out: Vec<MetricAverage> = Vec::new();
    let mut i: usize = 0;
    while i < metrics.len()
        invariant
            i <= metrics@.len(),
            out@.len() == i,
            forall|j: int| 0 <= j < i ==> #[trigger] metrics@[j].samples@.len() > 0,
            forall|j: int|
                0 <= j < i ==> #[trigger] out@[j].name@ == metrics@[j].name@ && out@[j].value
                    == mean_value(metrics@[j].samples@),
        decreases metrics@.len() - i,
    {
        match mean(&metrics[i].samples) {
            Ok(v) => {
                out.push(MetricAverage { name: metrics[i].name.clone(), value: v });
            },
            Err(_) => {
                return Err(RecordError::EmptySeries(i));
            },
        }
        i = i + 1;
    }
    proof {
        if names_unique(metrics@) {
            assert forall|x: int, y: int| 0 <= x < y < out@.len() implies (#[trigger] out@[x]).name@
                != (#[trigger] out@[y]).name@ by {
                assert(metrics@[x].name@ != metrics@[y].name@);
            }
        }
    }
    Ok(out)
}

/// Whether every series has at least one sample.
pub open spec fn all_nonempty(m: Seq<NamedSeries>) -> bool {
    forall|i: int| 0 <= i < m.len() ==> #[trigger] m[i].samples@.len() > 0
}

proof fn lemma_find_average_none(s: Seq<MetricAverage>, name: Seq<char>)
    ensures
        find_average(s, name) is None <==> forall|i: int|
            0 <= i < s.len() ==> #[trigger] s[i].name@ != name,
    decreases s.len(),
{
    if s.len() > 0 {
        lemma_find_average_none(s.skip(1), name);
        assert forall|i: int| 1 <= i < s.len() implies s[i] == #[trigger] s.skip(1)[i - 1] by {}
        if find_average(s, name) is None {
            assert forall|i: int| 0 <= i < s.len() implies #[trigger] s[i].name@ != name by {
                if i > 0 {
                    assert(s[i] == s.skip(1)[i - 1]);
                }
            }
        }
    }
}

/// The record of a completed run. Its identifier is the number of runs already
/// recorded; it passes when the exact mean of its first "Total Frame Time"
/// series is at most the target.
pub fn record_run(
    metrics: &Vec<NamedSeries>,
    description: String,
    start_time: u64,
    existing_runs: usize,
) -> (r: Result<RunRecord, RecordError>)
    ensures
        !all_nonempty(metrics@) ==> r matches Err(RecordError::EmptySeries(_)),
        all_nonempty(metrics@) && !has_series_named(metrics@, total_frame_time_name()) ==> r == Err::<
            RunRecord,
            _,
        >(RecordError::MissingTotalFrameTime),
        all_nonempty(metrics@) && has_series_named(metrics@, total_frame_time_name()) ==> match r {
            Ok(rec) => {
                &&& rec.summary.id == existing_runs
                &&& rec.summary.description@ == description@
                &&& rec.summary.timestamp == start_time
                &&& averages_of(metrics@, rec.averages@)
                &&& exists|j: int|
                    0 <= j < metrics@.len() && #[trigger] metrics@[j].name@ == total_frame_time_name()
                        && (forall|i: int| 0 <= i < j ==> (#[trigger] metrics@[i]).name@
                        != total_frame_time_name()) && rec.summary.result == within_target_spec(
                        metrics@[j].samples@,
                    )
            },
            Err(_) => false,
        },
{
    let averages = match get_averages(metrics) {
        Ok(a) => a,
        Err(e) => return Err(e),
    };
    let total_name = String::from_str("Total Frame Time");
    proof {
        reveal_strlit("Total Frame Time");
    }
    let j = find_series(metrics, &total_name);
    if j == metrics.len() {
        return Err(RecordError::MissingTotalFrameTime);
    }
    let result = within_target(&metrics[j].samples);
    assert(metrics@[j as int].name@ == total_frame_time_name());
    Ok(RunRecord {
        summary: ProfileSummary { description, timestamp: start_time, result, id: existing_runs },
        averages,
    })
}

/// The identifier of the run recorded just before run `id`; none for the first run.
pub fn previous_run_id(id: usize) -> (r: Option<usize>)
    ensures
        id == 0 ==> r is None,
        id > 0 ==> r == Some((id - 1) as usize),
{
    if id == 0 {
        None
    } else {
        Some(id - 1)
    }
}

/// The comparison of one metric average `cur` of a run: the previous run's value
/// for the same name (0 if it has none) and the all-time average for it.
pub open spec fn compares(
    m: MetricSummary,
    cur: MetricAverage,
    previous: Seq<MetricAverage>,
    all_time: Seq<MetricAverage>,
) -> bool {
    &&& m.name@ == cur.name@
    &&& m.value == cur.value
    &&& m.last_value == match find_average(previous, cur.name@) {
        Some(v) => v,
        None => 0,
    }
    &&& find_average(all_time, cur.name@) == Some(m.average_value)
}

/// `out` compares each of `current`, in order.
pub open spec fn compares_all(
    out: Seq<MetricSummary>,
    current: Seq<MetricAverage>,
    previous: Seq<MetricAverage>,
    all_time: Seq<MetricAverage>,
) -> bool {
    &&& out.len() == current.len()
    &&& forall|i: int|
        0 <= i < out.len() ==> compares(#[trigger] out[i], current[i], previous, all_time)
}

/// Whether every metric of `current` has an all-time average.
pub open spec fn averages_known(current: Seq<MetricAverage>, all_time: Seq<MetricAverage>) -> bool {
    forall|i: int| 0 <= i < current.len() ==> find_average(all_time, #[trigger] current[i].name@) is Some
}

/// The comparison view of a run from its summary fields, its own averages, the
/// previous run's averages (empty where there is no previous run) and the
/// all-time averages.
pub fn assemble_run(
    description: String,
    timestamp: u64,
    result: bool,
    current: &Vec<MetricAverage>,
    previous: &Vec<MetricAverage>,
    all_time: &Vec<MetricAverage>,
) -> (r: Result<ProfileRun, AssembleError>)
    ensures
        r.is_ok() <==> averages_known(current@, all_time@),
        r.is_err() ==> exists|i: int|
            0 <= i < current@.len() && find_average(all_time@, #[trigger] current@[i].name@) is None
                && r == Err::<ProfileRun, _>(AssembleError::MissingAverage(i as usize)),
        r.is_ok() ==> {
            let run = r.unwrap();
            &&& run.description@ == description@
            &&& run.timestamp == timestamp
            &&& run.result == result
            &&& compares_all(run.metrics@, current@, previous@, all_time@)
        },
{
    let mut out: Vec<MetricSummary> = Vec::new();
    let mut i: usize = 0;
    while i < current.len()
        invariant
            i <= current@.len(),
            out@.len() == i,
            forall|j: int|
                0 <= j < i ==> compares(#[trigger] out@[j], current@[j], previous@, all_time@),
            forall|j: int|
                0 <= j < i ==> find_average(all_time@, #[trigger] current@[j].name@) is Some,
        decreases current@.len() - i,
    {
        let name = &current[i].name;
        let average_value = match lookup_average(all_time, name) {
            Some(v) => v,
            None => return Err(AssembleError::MissingAverage(i)),
        };
        let last_value = match lookup_average(previous, name) {
            Some(v) => v,
            None => 0,
        };
        out.push(
            MetricSummary { name: name.clone(), value: current[i].value, last_value, average_value },
        );
        i = i + 1;
    }
    Ok(ProfileRun { description, timestamp, result, metrics: out })
}

/// The answer of the store to one metric's all-time aggregation: its buckets,
/// as (start time, mean) pairs, most recent first.
#[derive(Clone, Debug)]
pub struct BucketAnswer {
    pub name: String,
    pub buckets: Vec<(u64, i64)>,
}

/// The all-time average of each metric: the mean of the most recent bucket of
/// its answer. Fails as a whole where any answer holds no bucket.
pub fn all_time_averages(answers: &Vec<BucketAnswer>) -> (r: Result<Vec<MetricAverage>, AggregationError>)
    ensures
        r.is_ok() <==> forall|i: int| 0 <= i < answers@.len() ==> #[trigger] answers@[i].buckets@.len() > 0,
        r.is_ok() ==> {
            let a = r.unwrap()@;
            &&& a.len() == answers@.len()
            &&& forall|i: int|
                0 <= i < a.len() ==> #[trigger] a[i].name@ == answers@[i].name@ && a[i].value
                    == answers@[i].buckets@[0].1
        },
{
    let mut out: Vec<MetricAverage> = Vec::new();
    let mut i: usize = 0;
    while i < answers.len()
        invariant
            i <= answers@.len(),
            out@.len() == i,
            forall|j: int| 0 <= j < i ==> #[trigger] answers@[j].buckets@.len() > 0,
            forall|j: int|
                0 <= j < i ==> #[trigger] out@[j].name@ == answers@[j].name@ && out@[j].value
                    == answers@[j].buckets@[0].1,
        decreases answers@.len() - i,
    {
        if answers[i].buckets.len() == 0 {
            return Err(AggregationError);
        }
        out.push(MetricAverage { name: answers[i].name.clone(), value: answers[i].buckets[0].1 });
        i = i + 1;
    }
    Ok(out)
}

/// Every sample of every run, run after run.
pub open spec fn all_samples(runs: Seq<Seq<Sample>>) -> Seq<Sample>
    decreases runs.len(),
{
    if runs.len() == 0 {
        Seq::empty()
    } else {
        all_samples(runs.drop_last()) + runs.last()
    }
}

/// Where only one run has samples of a metric, the metric's all-time average
/// (the mean over the samples of all runs) is exactly that run's mean.
pub proof fn lemma_single_run_all_time_average(runs: Seq<Seq<Sample>>, k: int)
    requires
        0 <= k < runs.len(),
        forall|j: int| 0 <= j < runs.len() && j != k ==> #[trigger] runs[j].len() == 0,
    ensures
        mean_value(all_samples(runs)) == mean_value(runs[k]),
{
    lemma_all_samples_single(runs, k);
}

proof fn lemma_all_samples_single(runs: Seq<Seq<Sample>>, k: int)
    requires
        0 <= k,
        forall|j: int| 0 <= j < runs.len() && j != k ==> #[trigger] runs[j].len() == 0,
    ensures
        k < runs.len() ==> all_samples(runs) == runs[k],
        k >= runs.len() ==> all_samples(runs).len() == 0,
    decreases runs.len(),
{
    if runs.len() > 0 {
        let init = runs.drop_last();
        assert forall|j: int| 0 <= j < init.len() && j != k implies #[trigger] init[j].len() == 0 by {
            assert(init[j] == runs[j]);
        }
        lemma_all_samples_single(init, k);
        if k == runs.len() - 1 {
            assert(all_samples(runs) =~= runs[k]);
        } else {
            assert(runs.last().len() == 0);
            assert(all_samples(runs) =~= all_samples(init));
            if k < init.len() {
                assert(init[k] == runs[k]);
            }
        }
    }
}

/// The first run has no previous run, so every metric of its comparison view
/// shows 0 as the previous value.
pub proof fn lemma_first_run_last_values_zero(
    out: Seq<MetricSummary>,
    current: Seq<MetricAverage>,
    all_time: Seq<MetricAverage>,
)
    requires
        compares_all(out, current, Seq::empty(), all_time),
    ensures
        forall|i: int| 0 <= i < out.len() ==> #[trigger] out[i].last_value == 0,
{
    assert forall|i: int| 0 <= i < out.len() implies #[trigger] out[i].last_value == 0 by {
        assert(compares(out[i], current[i], Seq::empty(), all_time));
    }
}

/// Recording a run and then assembling its comparison view from the recorded
/// averages gives, for each metric, the mean of the run's own samples.
pub proof fn lemma_recorded_average_round_trip(
    metrics: Seq<NamedSeries>,
    averages: Seq<MetricAverage>,
    previous: Seq<MetricAverage>,
    all_time: Seq<MetricAverage>,
    out: Seq<MetricSummary>,
)
    requires
        averages_of(metrics, averages),
        compares_all(out, averages, previous, all_time),
    ensures
        out.len() == metrics.len(),
        forall|i: int|
            0 <= i < out.len() ==> #[trigger] out[i].value == mean_value(metrics[i].samples@)
                && out[i].name@ == metrics[i].name@,
{
    assert forall|i: int| 0 <= i < out.len() implies #[trigger] out[i].value == mean_value(
        metrics[i].samples@,
    ) && out[i].name@ == metrics[i].name@ by {
        assert(compares(out[i], averages[i], previous, all_time));
    }
}

} // verus!

//! The compositor's frame-timing log.
//!
//! A relevant line holds the tag `VrApi` and reads
//! `<timestamp> ... : key=value,key=value,...`, where the timestamp is the first
//! fourteen characters of the part before the colon, seconds with a point and
//! three fractional digits. Of the pairs only `App` (GPU time) and `CPU&GPU`
//! (total frame time) are kept, each with an optional `ms` suffix.
use vstd::prelude::*;
use crate::decimal::{all_digits, decimal_units, digits_value, is_digit, parse_decimal};
use crate::series::{
    cpu_sample, cpu_time, has_series_named, names_unique, value_in_range, values_in_range, MisalignedSeriesError, NamedSeries,
    Sample,
};
use crate::text::{
    chars_of, contains, range_contains, range_equals, split_on, split_ranges, trim, trim_range,
    lemma_split_on_len,
};

verus! {

/// Width of the timestamp at the start of a frame-timing line.
pub const STAMP_WIDTH: usize = 14;

/// A frame-timing log could not be read.
#[derive(Clone, Copy, Debug, PartialEq, Eq, Structural)]
pub enum FrameError {
    /// The relevant line at this position (counting every line of the log) is malformed.
    Parse(usize),
    /// The log holds different numbers of GPU-time and total-frame-time values.
    Misaligned(MisalignedSeriesError),
}

/// `s` without its points.
pub open spec fn without_points(s: Seq<char>) -> Seq<char> {
    s.filter(|c: char| c != '.')
}

/// The milliseconds written by a timestamp: its digits once the point is dropped.
pub open spec fn stamp_value(s: Seq<char>) -> Option<int> {
    let d = without_points(s);
    if d.len() > 0 && all_digits(d) {
        Some(digits_value(d))
    } else {
        None
    }
}

/// `v` without a trailing `ms`.
pub open spec fn strip_ms(v: Seq<char>) -> Seq<char> {
    if v.len() >= 2 && v.subrange(v.len() - 2, v.len() as int) == "ms"@ {
        v.take(v.len() - 2)
    } else {
        v
    }
}

/// The key of a `key=value` item.
pub open spec fn item_key(item: Seq<char>) -> Seq<char> {
    trim(split_on(trim(item), '=')[0])
}

/// The value of a `key=value` item, in thousandths.
pub open spec fn item_value(item: Seq<char>) -> Option<int> {
    let parts = split_on(trim(item), '=');
    if parts.len() < 2 {
        None
    } else {
        decimal_units(strip_ms(trim(parts[1])))
    }
}

/// The GPU-time values and the total-frame-time values of a line's items, in order.
pub open spec fn item_values(items: Seq<Seq<char>>) -> Option<(Seq<int>, Seq<int>)>
    decreases items.len(),
{
    if items.len() == 0 {
        Some((Seq::empty(), Seq::empty()))
    } else {
        match item_values(items.drop_last()) {
            None => None,
            Some(acc) => {
                let it = items.last();
                if item_key(it) == "App"@ {
                    match item_value(it) {
                        Some(v) => Some((acc.0.push(v), acc.1)),
                        None => None,
                    }
                } else if item_key(it) == "CPU&GPU"@ {
                    match item_value(it) {
                        Some(v) => Some((acc.0, acc.1.push(v))),
                        None => None,
                    }
                } else {
                    Some(acc)
                }
            },
        }
    }
}

/// The timestamp, the GPU-time values and the total-frame-time values of one line.
pub open spec fn frame_line(line: Seq<char>) -> Option<(int, Seq<int>, Seq<int>)> {
    let pieces = split_on(line, ':');
    let head = trim(pieces[0]);
    if pieces.len() < 2 || head.len() < STAMP_WIDTH {
        None
    } else {
        match (stamp_value(head.take(STAMP_WIDTH as int)), item_values(split_on(pieces[1], ','))) {
            (Some(ts), Some(vals)) => Some((ts, vals.0, vals.1)),
            _ => None,
        }
    }
}

/// Values stamped with one time.
pub open spec fn stamped(vals: Seq<int>, ts: int) -> Seq<Sample> {
    Seq::new(vals.len(), |i: int| Sample { value: vals[i] as i64, timestamp: ts as u64 })
}

/// The GPU-time and total-frame-time samples of the lines, in order; lines
/// without the tag `VrApi` are passed over.
pub open spec fn frame_samples(lines: Seq<Seq<char>>) -> Option<(Seq<Sample>, Seq<Sample>)>
    decreases lines.len(),
{
    if lines.len() == 0 {
        Some((Seq::empty(), Seq::empty()))
    } else {
        match frame_samples(lines.drop_last()) {
            None => None,
            Some(acc) => {
                let line = lines.last();
                if !contains(line, "VrApi"@) {
                    Some(acc)
                } else {
                    match frame_line(line) {
                        None => None,
                        Some(f) => Some((acc.0 + stamped(f.1, f.0), acc.1 + stamped(f.2, f.0))),
                    }
                }
            },
        }
    }
}

pub open spec fn pow10(n: nat) -> int
    decreases n,
{
    if n == 0 {
        1
    } else {
        10 * pow10((n - 1) as nat)
    }
}

/// Reads the timestamp `t[from..from + 14]`: its digits, the point dropped.
pub fn parse_stamp(t: &Vec<char>, from: usize) -> (r: Option<u64>)
    requires
        from + STAMP_WIDTH <= t@.len(),
    ensures
        match stamp_value(t@.subrange(from as int, from + STAMP_WIDTH)) {
            Some(v) => r == Some(v as u64) && 0 <= v <= u64::MAX,
            None => r is None,
        },
{
    let ghost s = t@.subrange(from as int, from + STAMP_WIDTH);
    let ghost keep = |c: char| c != '.';
    let n = t.len();
    let mut acc: u64 = 0;
    let mut count: usize = 0;
    let mut i: usize = 0;
    assert(s.take(0).filter(keep) =~= Seq::<char>::empty());
    while i < STAMP_WIDTH
        invariant
            from + STAMP_WIDTH <= t@.len(),
            n == t@.len(),
            s == t@.subrange(from as int, from + STAMP_WIDTH),
            keep == (|c: char| c != '.'),
            i <= STAMP_WIDTH,
            count == s.take(i as int).filter(keep).len(),
            count <= i,
            all_digits(s.take(i as int).filter(keep)),
            acc == digits_value(s.take(i as int).filter(keep)),
            acc < pow10(count as nat),
        decreases STAMP_WIDTH - i,
    {
        let c = t[from + i];
        proof {
            assert(s.take(i + 1) =~= s.take(i as int).push(c));
            s.take(i as int).lemma_filter_push(c, keep);
        }
        if c != '.' {
            if !('0' <= c && c <= '9') {
                proof {
                    let d = s.take(i + 1).filter(keep);
                    assert(d.last() == c);
                    assert(!all_digits(d));
                    lemma_filter_prefix_not_digits(s, i + 1);
                }
                return None;
            }
            proof {
                let d = s.take(i + 1).filter(keep);
                assert(d.drop_last() =~= s.take(i as int).filter(keep));
                assert(pow10((count + 1) as nat) == 10 * pow10(count as nat));
                assert(pow10(count as nat) <= 10_000_000_000_000) by {
                    lemma_pow10_mono(count as nat, 13);
                    reveal_with_fuel(pow10, 14);
                }
                assert forall|k: int| 0 <= k < d.len() implies is_digit(#[trigger] d[k]) by {
                    if k < d.len() - 1 {
                        assert(d[k] == s.take(i as int).filter(keep)[k]);
                    }
                }
            }
            acc = acc * 10 + (c as u64 - '0' as u64);
            count = count + 1;
        }
        i = i + 1;
    }
    assert(s.take(STAMP_WIDTH as int) =~= s);
    if count == 0 {
        return None;
    }
    Some(acc)
}

proof fn lemma_pow10_mono(a: nat, b: nat)
    requires
        a <= b,
    ensures
        pow10(a) <= pow10(b),
        pow10(a) >= 1,
    decreases b,
{
    if a < b {
        lemma_pow10_mono(a, (b - 1) as nat);
    } else if a > 0 {
        lemma_pow10_mono((a - 1) as nat, (a - 1) as nat);
    }
}

/// Where a prefix of `s` keeps a non-digit, so does `s`.
proof fn lemma_filter_prefix_not_digits(s: Seq<char>, i: int)
    requires
        0 <= i <= s.len(),
        !all_digits(s.take(i).filter(|c: char| c != '.')),
    ensures
        !all_digits(s.filter(|c: char| c != '.')),
    decreases s.len() - i,
{
    let keep = |c: char| c != '.';
    if i < s.len() {
        assert(s.take(i + 1) =~= s.take(i).push(s[i]));
        s.take(i).lemma_filter_push(s[i], keep);
        let a = s.take(i).filter(keep);
        let b = s.take(i + 1).filter(keep);
        let k = choose|k: int| 0 <= k < a.len() && !is_digit(#[trigger] a[k]);
        assert(b[k] == a[k]);
        lemma_filter_prefix_not_digits(s, i + 1);
    } else {
        assert(s.take(i) =~= s);
    }
}

proof fn lemma_item_values_prefix(items: Seq<Seq<char>>, k: int)
    requires
        0 <= k <= items.len(),
        item_values(items.take(k)) is None,
    ensures
        item_values(items) is None,
    decreases items.len() - k,
{
    if k < items.len() {
        assert(items.take(k + 1).drop_last() =~= items.take(k));
        lemma_item_values_prefix(items, k + 1);
    } else {
        assert(items.take(k) =~= items);
    }
}

proof fn lemma_frame_samples_prefix(lines: Seq<Seq<char>>, k: int)
    requires
        0 <= k <= lines.len(),
        frame_samples(lines.take(k)) is None,
    ensures
        frame_samples(lines) is None,
    decreases lines.len() - k,
{
    if k < lines.len() {
        assert(lines.take(k + 1).drop_last() =~= lines.take(k));
        lemma_frame_samples_prefix(lines, k + 1);
    } else {
        assert(lines.take(k) =~= lines);
    }
}

/// `v` holds the values `w`, one for one.
pub open spec fn holds(v: Seq<i64>, w: Seq<int>) -> bool {
    &&& v.len() == w.len()
    &&& forall|i: int| 0 <= i < v.len() ==> #[trigger] v[i] as int == w[i]
    &&& forall|i: int| 0 <= i < v.len() ==> value_in_range(#[trigger] v[i] as int)
}

/// Reads the value of a retained item whose trimmed value text is `t[va..vb]`.
fn parse_item_value(t: &Vec<char>, va: usize, vb: usize) -> (r: Option<i64>)
    requires
        va <= vb <= t@.len(),
    ensures
        match decimal_units(strip_ms(t@.subrange(va as int, vb as int))) {
            Some(v) => r == Some(v as i64) && value_in_range(v),
            None => r is None,
        },
{
    let ghost v = t@.subrange(va as int, vb as int);
    let mut ve: usize = vb;
    if vb - va >= 2 && range_equals(t, vb - 2, vb, "ms") {
        ve = vb - 2;
        assert(v.subrange(v.len() - 2, v.len() as int) =~= t@.subrange(vb - 2, vb as int));
        assert(v.take(v.len() - 2) =~= t@.subrange(va as int, ve as int));
    } else {
        if vb - va >= 2 {
            assert(v.subrange(v.len() - 2, v.len() as int) =~= t@.subrange(vb - 2, vb as int));
        }
    }
    parse_decimal(t, va, ve)
}

/// Reads the retained items of `t[from..to]`, a comma-separated item list.
fn parse_items(t: &Vec<char>, from: usize, to: usize) -> (r: Option<(Vec<i64>, Vec<i64>)>)
    requires
        from <= to <= t@.len(),
    ensures
        match item_values(split_on(t@.subrange(from as int, to as int), ',')) {
            Some(v) => r matches Some(x) && holds(x.0@, v.0) && holds(x.1@, v.1),
            None => r is None,
        },
{
    let ghost its = split_on(t@.subrange(from as int, to as int), ',');
    let items = split_ranges(t, from, to, ',');
    let mut gpu: Vec<i64> = Vec::new();
    let mut total: Vec<i64> = Vec::new();
    let mut k: usize = 0;
    assert(its.take(0) =~= Seq::<Seq<char>>::empty());
    while k < items.len()
        invariant
            k <= items@.len() == its.len(),
            its == split_on(t@.subrange(from as int, to as int), ','),
            forall|i: int|
                0 <= i < items@.len() ==> from <= (#[trigger] items@[i]).0 <= items@[i].1 <= to
                    && t@.subrange(items@[i].0 as int, items@[i].1 as int) == its[i],
            to <= t@.len(),
            item_values(its.take(k as int)) matches Some(v) && holds(gpu@, v.0) && holds(
                total@,
                v.1,
            ),
        decreases items@.len() - k,
    {
        let ghost item = its[k as int];
        assert(its.take(k + 1).drop_last() =~= its.take(k as int));
        assert(its.take(k + 1).last() == item);
        let (ia, ib) = items[k];
        let (a, b) = trim_range(t, ia, ib);
        let parts = split_ranges(t, a, b, '=');
        proof {
            lemma_split_on_len(trim(item), '=');
        }
        let (na, nb) = trim_range(t, parts[0].0, parts[0].1);
        let is_app = range_equals(t, na, nb, "App");
        let is_total = range_equals(t, na, nb, "CPU&GPU");
        proof {
            reveal_strlit("App");
            reveal_strlit("CPU&GPU");
            assert("App"@ != "CPU&GPU"@) by {
                assert("App"@.len() != "CPU&GPU"@.len());
            }
        }
        if is_app || is_total {
            if parts.len() < 2 {
                proof {
                    lemma_item_values_prefix(its, k + 1);
                }
                return None;
            }
            let (va, vb) = trim_range(t, parts[1].0, parts[1].1);
            match parse_item_value(t, va, vb) {
                Some(v) => {
                    if is_app {
                        gpu.push(v);
                    } else {
                        total.push(v);
                    }
                },
                None => {
                    proof {
                        lemma_item_values_prefix(its, k + 1);
                    }
                    return None;
                },
            }
        }
        k = k + 1;
    }
    assert(its.take(k as int) =~= its);
    Some((gpu, total))
}

/// Reads one relevant line `t[from..to]`: its timestamp, GPU-time values and
/// total-frame-time values.
fn parse_frame_line(t: &Vec<char>, from: usize, to: usize) -> (r: Option<(u64, Vec<i64>, Vec<i64>)>)
    requires
        from <= to <= t@.len(),
    ensures
        match frame_line(t@.subrange(from as int, to as int)) {
            Some(f) => r matches Some(x) && x.0 as int == f.0 && 0 <= f.0 <= u64::MAX && holds(
                x.1@,
                f.1,
            ) && holds(x.2@, f.2),
            None => r is None,
        },
{
    let ghost line = t@.subrange(from as int, to as int);
    let pieces = split_ranges(t, from, to, ':');
    proof {
        lemma_split_on_len(line, ':');
    }
    let (ha, hb) = trim_range(t, pieces[0].0, pieces[0].1);
    if pieces.len() < 2 || hb - ha < STAMP_WIDTH {
        return None;
    }
    proof {
        assert(trim(split_on(line, ':')[0]).take(STAMP_WIDTH as int) =~= t@.subrange(
            ha as int,
            ha + STAMP_WIDTH,
        ));
    }
    let ts = match parse_stamp(t, ha) {
        Some(ts) => ts,
        None => return None,
    };
    match parse_items(t, pieces[1].0, pieces[1].1) {
        Some((g, tt)) => Some((ts, g, tt)),
        None => None,
    }
}

/// Appends to `out` the values `vals`, each stamped with `ts`.
fn push_stamped(out: &mut Vec<Sample>, vals: &Vec<i64>, ts: u64)
    requires
        forall|i: int| 0 <= i < vals@.len() ==> value_in_range(#[trigger] vals@[i] as int),
    ensures
        final(out)@ == old(out)@ + stamped(vals@.map_values(|v: i64| v as int), ts as int),
{
    let ghost w = vals@.map_values(|v: i64| v as int);
    let ghost start = out@;
    let mut i: usize = 0;
    while i < vals.len()
        invariant
            i <= vals@.len(),
            w == vals@.map_values(|v: i64| v as int),
            out@ == start + stamped(w.take(i as int), ts as int),
        decreases vals@.len() - i,
    {
        out.push(Sample { value: vals[i], timestamp: ts });
        i = i + 1;
        assert(out@ =~= start + stamped(w.take(i as int), ts as int));
    }
    assert(w.take(i as int) =~= w);
}

/// The GPU-time samples and the total-frame-time samples of a frame-timing log,
/// line by line; lines without the tag `VrApi` are passed over.
pub fn parse_frame_lines(text: &str) -> (r: Result<(Vec<Sample>, Vec<Sample>), FrameError>)
    ensures
        match frame_samples(split_on(text@, '\n')) {
            Some(f) => r matches Ok(x) && x.0@ == f.0 && x.1@ == f.1 && values_in_range(f.0)
                && values_in_range(f.1),
            None => r matches Err(FrameError::Parse(_)),
        },
{
    let t = chars_of(text);
    let ghost ls = split_on(text@, '\n');
    let lines = split_ranges(&t, 0, t.len(), '\n');
    assert(t@.subrange(0, t@.len() as int) =~= text@);
    let mut gpu: Vec<Sample> = Vec::new();
    let mut total: Vec<Sample> = Vec::new();
    let mut k: usize = 0;
    assert(ls.take(0) =~= Seq::<Seq<char>>::empty());
    while k < lines.len()
        invariant
            k <= lines@.len() == ls.len(),
            ls == split_on(t@, '\n'),
            t@ == text@,
            forall|i: int|
                0 <= i < lines@.len() ==> (#[trigger] lines@[i]).0 <= lines@[i].1 <= t@.len()
                    && t@.subrange(lines@[i].0 as int, lines@[i].1 as int) == ls[i],
            frame_samples(ls.take(k as int)) == Some((gpu@, total@)),
            values_in_range(gpu@),
            values_in_range(total@),
        decreases lines@.len() - k,
    {
        assert(ls.take(k + 1).drop_last() =~= ls.take(k as int));
        assert(ls.take(k + 1).last() == ls[k as int]);
        let (a, b) = lines[k];
        if range_contains(&t, a, b, "VrApi") {
            proof {
                reveal_strlit("VrApi");
            }
            match parse_frame_line(&t, a, b) {
                Some((ts, g, tt)) => {
                    let ghost f = frame_line(ls[k as int]).unwrap();
                    assert(g@.map_values(|v: i64| v as int) =~= f.1);
                    assert(tt@.map_values(|v: i64| v as int) =~= f.2);
                    push_stamped(&mut gpu, &g, ts);
                    push_stamped(&mut total, &tt, ts);
                },
                None => {
                    proof {
                        lemma_frame_samples_prefix(ls, k + 1);
                    }
                    return Err(FrameError::Parse(k));
                },
            }
        } else {
            proof {
                reveal_strlit("VrApi");
            }
        }
        k = k + 1;
    }
    assert(ls.take(k as int) =~= ls);
    Ok((gpu, total))
}

/// Reads a frame-timing log and appends to `metrics` its "Total Frame Time",
/// "GPU Time" and "CPU Time" series, in that order; CPU time is total frame
/// time minus GPU time, line by line.
pub fn parse_ovr_metrics(output: &str, metrics: &mut Vec<NamedSeries>) -> (r: Result<(), FrameError>)
    requires
        names_unique(old(metrics)@),
        !has_series_named(old(metrics)@, "Total Frame Time"@),
        !has_series_named(old(metrics)@, "GPU Time"@),
        !has_series_named(old(metrics)@, "CPU Time"@),
    ensures
        match frame_samples(split_on(output@, '\n')) {
            None => r matches Err(FrameError::Parse(_)) && final(metrics)@ == old(metrics)@,
            Some(f) => if f.0.len() != f.1.len() {
                r matches Err(FrameError::Misaligned(_)) && final(metrics)@ == old(metrics)@
            } else {
                &&& r is Ok
                &&& values_in_range(f.0)
                &&& values_in_range(f.1)
                &&& names_unique(final(metrics)@)
                &&& final(metrics)@.len() == old(metrics)@.len() + 3
                &&& final(metrics)@.take(old(metrics)@.len() as int) == old(metrics)@
                &&& final(metrics)@[old(metrics)@.len() as int].name@ == "Total Frame Time"@
                &&& final(metrics)@[old(metrics)@.len() as int].samples@ == f.1
                &&& final(metrics)@[old(metrics)@.len() as int + 1].name@ == "GPU Time"@
                &&& final(metrics)@[old(metrics)@.len() as int + 1].samples@ == f.0
                &&& final(metrics)@[old(metrics)@.len() as int + 2].name@ == "CPU Time"@
                &&& final(metrics)@[old(metrics)@.len() as int + 2].samples@ == Seq::new(
                    f.1.len(),
                    |i: int| cpu_sample(f.1[i], f.0[i]),
                )
                &&& forall|i: int|
                    0 <= i < f.1.len() ==> (#[trigger] final(metrics)@[old(metrics)@.len() as int
                        + 2].samples@[i]).value == f.1[i].value - f.0[i].value
                        && final(metrics)@[old(metrics)@.len() as int + 2].samples@[i].timestamp
                        == f.1[i].timestamp
            },
        },
{
    let (gpu, total) = match parse_frame_lines(output) {
        Ok(x) => x,
        Err(e) => return Err(e),
    };
    let cpu = match cpu_time(&total, &gpu) {
        Ok(c) => c,
        Err(e) => return Err(FrameError::Misaligned(e)),
    };
    assert(cpu@ =~= Seq::new(total@.len(), |i: int| cpu_sample(total@[i], gpu@[i])));
    assert(forall|i: int| 0 <= i < cpu@.len() ==> cpu@[i].value == total@[i].value - gpu@[i].value);
    let ghost start = metrics@;
    metrics.push(NamedSeries { name: String::from_str("Total Frame Time"), samples: total });
    metrics.push(NamedSeries { name: String::from_str("GPU Time"), samples: gpu });
    metrics.push(NamedSeries { name: String::from_str("CPU Time"), samples: cpu });
    assert(metrics@.take(start.len() as int) =~= start);
    proof {
        reveal_strlit("Total Frame Time");
        reveal_strlit("GPU Time");
        reveal_strlit("CPU Time");
        assert("Total Frame Time"@.len() != "GPU Time"@.len());
        assert("Total Frame Time"@.len() != "CPU Time"@.len());
        assert("GPU Time"@[0] != "CPU Time"@[0]);
        let n = start.len() as int;
        assert forall|i: int, j: int| 0 <= i < j < metrics@.len() implies (#[trigger] metrics@[i]).name@
            != (#[trigger] metrics@[j]).name@ by {
            if j < n {
                assert(metrics@[i] == start[i] && metrics@[j] == start[j]);
            } else if i < n {
                assert(metrics@[i] == start[i]);
                if metrics@[i].name@ == metrics@[j].name@ {
                    assert(has_series_named(start, metrics@[j].name@));
                }
            }
        }
    }
    Ok(())
}

/// Every sample read from a tagged line carries the line's timestamp: the first
/// fourteen characters of its trimmed head with the point removed, read as an integer.
pub proof fn lemma_frame_line_timestamp(line: Seq<char>)
    requires
        frame_line(line) is Some,
    ensures
        ({
            let head = trim(split_on(line, ':')[0]);
            let d = without_points(head.take(STAMP_WIDTH as int));
            &&& head.len() >= STAMP_WIDTH
            &&& all_digits(d)
            &&& d.len() > 0
            &&& frame_line(line)->Some_0.0 == digits_value(d)
            &&& forall|i: int|
                0 <= i < frame_line(line)->Some_0.1.len() ==> (#[trigger] stamped(
                    frame_line(line)->Some_0.1,
                    frame_line(line)->Some_0.0,
                )[i]).timestamp == digits_value(d) as u64
        }),
{
}

} // verus!

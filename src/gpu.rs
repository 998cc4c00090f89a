//! The GPU counter tool's output.
//!
//! The tool prints a block of `name : value` lines once a second; blocks are
//! separated by empty lines (a line of carriage returns counts as empty) and
//! carry no time of their own. Lines of other whitespace are skipped without
//! ending a block. Block `k` (from 0) is stamped `start + 1000 * k` milliseconds.
use vstd::prelude::*;
use vstd::string::StrSliceExecFns;
use crate::decimal::{decimal_units, parse_decimal};
use crate::series::{find_series, names_unique, NamedSeries, Sample};
use crate::text::{chars_of, lemma_split_on_len, lemma_split_on_len_bound, split_on, split_ranges, trim, trim_range};

verus! {

/// Milliseconds between two blocks of GPU counters.
pub const SAMPLE_INTERVAL_MS: u64 = 1000;

/// A line of GPU counters could not be read.
#[derive(Clone, Copy, Debug, PartialEq, Eq, Structural)]
pub struct GpuParseError {
    /// Position of the line in the output, counting from 0.
    pub line: usize,
}

/// What has been read of the output so far: blocks started, whether the last
/// line read belongs to a block, and the series by name in order of first appearance.
pub struct GpuState {
    pub blocks: nat,
    pub in_block: bool,
    pub groups: Seq<(Seq<char>, Seq<Sample>)>,
}

/// Position of the series named `name` in `g`, or `g.len()` where there is none.
pub open spec fn name_index(g: Seq<(Seq<char>, Seq<Sample>)>, name: Seq<char>) -> int
    decreases g.len(),
{
    if g.len() == 0 {
        0
    } else {
        let k = name_index(g.drop_last(), name);
        if k < g.len() - 1 {
            k
        } else if g.last().0 == name {
            g.len() - 1
        } else {
            g.len() as int
        }
    }
}

/// `g` with `s` appended to the series named `name`, which is added where missing.
pub open spec fn add_sample(g: Seq<(Seq<char>, Seq<Sample>)>, name: Seq<char>, s: Sample) -> Seq<
    (Seq<char>, Seq<Sample>),
> {
    let k = name_index(g, name);
    if k < g.len() {
        g.update(k, (name, g[k].1.push(s)))
    } else {
        g.push((name, seq![s]))
    }
}

/// Whether a line separates two blocks: it holds nothing but carriage returns.
pub open spec fn ends_block(line: Seq<char>) -> bool {
    forall|i: int| 0 <= i < line.len() ==> #[trigger] line[i] == '\r'
}

/// Reading one more line.
pub open spec fn gpu_step(st: GpuState, line: Seq<char>, start: int) -> Option<GpuState> {
    let tl = trim(line);
    let parts = split_on(tl, ':');
    if ends_block(line) {
        Some(GpuState { blocks: st.blocks, in_block: false, groups: st.groups })
    } else if tl.len() == 0 {
        Some(st)
    } else if parts.len() < 2 {
        None
    } else {
        match decimal_units(trim(parts[1])) {
            None => None,
            Some(v) => {
                let blocks = if st.in_block {
                    st.blocks
                } else {
                    st.blocks + 1
                };
                let s = Sample { value: v as i64, timestamp: (start + 1000 * (blocks - 1)) as u64 };
                Some(GpuState { blocks, in_block: true, groups: add_sample(st.groups, trim(parts[0]), s) })
            },
        }
    }
}

/// Reading the lines in order, from nothing.
pub open spec fn gpu_read(lines: Seq<Seq<char>>, start: int) -> Option<GpuState>
    decreases lines.len(),
{
    if lines.len() == 0 {
        Some(GpuState { blocks: 0, in_block: false, groups: Seq::empty() })
    } else {
        match gpu_read(lines.drop_last(), start) {
            None => None,
            Some(st) => gpu_step(st, lines.last(), start),
        }
    }
}

/// `out` holds the series `g`, one for one.
pub open spec fn holds_groups(out: Seq<NamedSeries>, g: Seq<(Seq<char>, Seq<Sample>)>) -> bool {
    &&& out.len() == g.len()
    &&& forall|i: int|
        0 <= i < out.len() ==> (#[trigger] out[i]).name@ == g[i].0 && out[i].samples@ == g[i].1
}

proof fn lemma_name_index(g: Seq<(Seq<char>, Seq<Sample>)>, name: Seq<char>, j: int)
    requires
        0 <= j <= g.len(),
        forall|i: int| 0 <= i < j ==> (#[trigger] g[i]).0 != name,
        j == g.len() || g[j].0 == name,
    ensures
        name_index(g, name) == j,
    decreases g.len(),
{
    if g.len() > 0 {
        let h = g.drop_last();
        if j < g.len() - 1 {
            assert(h[j] == g[j]);
            assert forall|i: int| 0 <= i < j implies (#[trigger] h[i]).0 != name by {
                assert(h[i] == g[i]);
            }
            lemma_name_index(h, name, j);
        } else {
            assert forall|i: int| 0 <= i < h.len() implies (#[trigger] h[i]).0 != name by {
                assert(h[i] == g[i]);
            }
            lemma_name_index(h, name, h.len() as int);
        }
    }
}

proof fn lemma_gpu_read_prefix(lines: Seq<Seq<char>>, start: int, k: int)
    requires
        0 <= k <= lines.len(),
        gpu_read(lines.take(k), start) is None,
    ensures
        gpu_read(lines, start) is None,
    decreases lines.len() - k,
{
    if k < lines.len() {
        assert(lines.take(k + 1).drop_last() =~= lines.take(k));
        lemma_gpu_read_prefix(lines, start, k + 1);
    } else {
        assert(lines.take(k) =~= lines);
    }
}

/// Reads the GPU counters: one series per metric name, in order of first
/// appearance, each sample stamped with the time of its block.
pub fn parse_gpu_metrics(output: &str, start_time: u64) -> (r: Result<Vec<NamedSeries>, GpuParseError>)
    requires
        start_time + SAMPLE_INTERVAL_MS * output@.len() <= u64::MAX,
    ensures
        match gpu_read(split_on(output@, '\n'), start_time as int) {
            Some(st) => r matches Ok(out) && holds_groups(out@, st.groups) && names_unique(out@),
            None => r is Err,
        },
{
    let t = chars_of(output);
    let ghost ls = split_on(output@, '\n');
    let lines = split_ranges(&t, 0, t.len(), '\n');
    assert(t@.subrange(0, t@.len() as int) =~= output@);
    let mut out: Vec<NamedSeries> = Vec::new();
    let mut blocks: u64 = 0;
    let mut in_block = false;
    let mut k: usize = 0;
    assert(ls.take(0) =~= Seq::<Seq<char>>::empty());
    while k < lines.len()
        invariant
            k <= lines@.len() == ls.len(),
            ls == split_on(t@, '\n'),
            t@ == output@,
            start_time + SAMPLE_INTERVAL_MS * output@.len() <= u64::MAX,
            forall|i: int|
                0 <= i < lines@.len() ==> (#[trigger] lines@[i]).0 <= lines@[i].1 <= t@.len()
                    && t@.subrange(lines@[i].0 as int, lines@[i].1 as int) == ls[i],
            gpu_read(ls.take(k as int), start_time as int) matches Some(st) && st.blocks == blocks
                && st.in_block == in_block && holds_groups(out@, st.groups),
            blocks <= k,
            in_block ==> blocks >= 1,
            names_unique(out@),
        decreases lines@.len() - k,
    {
        let ghost st = gpu_read(ls.take(k as int), start_time as int).unwrap();
        assert(ls.take(k + 1).drop_last() =~= ls.take(k as int));
        assert(ls.take(k + 1).last() == ls[k as int]);
        let (a, b) = lines[k];
        let (ta, tb) = trim_range(&t, a, b);
        if only_carriage_returns(&t, a, b) {
            in_block = false;
        } else if ta == tb {
        } else {
            let parts = split_ranges(&t, ta, tb, ':');
            proof {
                lemma_split_on_len(trim(ls[k as int]), ':');
            }
            if parts.len() < 2 {
                proof {
                    lemma_gpu_read_prefix(ls, start_time as int, k + 1);
                }
                return Err(GpuParseError { line: k });
            }
            let (va, vb) = trim_range(&t, parts[1].0, parts[1].1);
            let v = match parse_decimal(&t, va, vb) {
                Some(v) => v,
                None => {
                    proof {
                        lemma_gpu_read_prefix(ls, start_time as int, k + 1);
                    }
                    return Err(GpuParseError { line: k });
                },
            };
            if !in_block {
                blocks = blocks + 1;
                in_block = true;
            }
            proof {
                lemma_split_on_len_bound(output@, '\n');
                assert(SAMPLE_INTERVAL_MS * (blocks - 1) <= SAMPLE_INTERVAL_MS * output@.len()) by (nonlinear_arith)
                    requires blocks - 1 <= output@.len();
                assert(blocks - 1 <= output@.len());
                assert(start_time + SAMPLE_INTERVAL_MS * (blocks - 1) <= u64::MAX);
            }
            let ts = start_time + SAMPLE_INTERVAL_MS * (blocks - 1);
            let (na, nb) = trim_range(&t, parts[0].0, parts[0].1);
            let name = String::from_str(output.substring_char(na, nb));
            let sample = Sample { value: v, timestamp: ts };
            let j = find_series(&out, &name);
            proof {
                assert forall|i: int| 0 <= i < j implies (#[trigger] st.groups[i]).0 != name@ by {
                    assert(out@[i].name@ == st.groups[i].0);
                }
                if j < out@.len() {
                    assert(out@[j as int].name@ == st.groups[j as int].0);
                }
                lemma_name_index(st.groups, name@, j as int);
            }
            let ghost before = out@;
            if j < out.len() {
                out[j].samples.push(sample);
                assert forall|i: int| 0 <= i < out@.len() implies (#[trigger] out@[i]).name@ == before[i].name@ by {}
            } else {
                let mut samples: Vec<Sample> = Vec::new();
                samples.push(sample);
                out.push(NamedSeries { name, samples });
            }
            proof {
                let nst = gpu_read(ls.take(k + 1), start_time as int).unwrap();
                assert(holds_groups(out@, nst.groups)) by {
                    assert(out@.len() == nst.groups.len());
                }
            }
        }
        k = k + 1;
    }
    assert(ls.take(k as int) =~= ls);
    Ok(out)
}

/// Every series of `st` runs forward in time from `start` in whole seconds, no
/// later than the start of its last block.
pub open spec fn ordered_state(st: GpuState, start: int) -> bool {
    &&& st.in_block ==> st.blocks >= 1
    &&& forall|i: int, j: int|
        0 <= i < st.groups.len() && 0 <= j < st.groups[i].1.len() ==> (
        #[trigger] st.groups[i].1[j].timestamp - start) % 1000 == 0
    &&& st.blocks == 0 ==> st.groups.len() == 0
    &&& forall|i: int, j: int|
        0 <= i < st.groups.len() && 0 <= j < st.groups[i].1.len() ==> start
            <= #[trigger] st.groups[i].1[j].timestamp <= start + 1000 * (st.blocks - 1)
    &&& forall|i: int, j: int|
        0 <= i < st.groups.len() && 0 <= j && j + 1 < st.groups[i].1.len()
            ==> #[trigger] st.groups[i].1[j].timestamp <= st.groups[i].1[j + 1].timestamp
}

proof fn lemma_name_index_bound(g: Seq<(Seq<char>, Seq<Sample>)>, name: Seq<char>)
    ensures
        0 <= name_index(g, name) <= g.len(),
    decreases g.len(),
{
    if g.len() > 0 {
        lemma_name_index_bound(g.drop_last(), name);
    }
}

/// Reading GPU counters keeps every series in time order: each sample is
/// stamped no earlier than the start and no earlier than the sample before it
/// in its series.
pub proof fn lemma_gpu_series_ordered(lines: Seq<Seq<char>>, start: int)
    requires
        0 <= start,
        start + 1000 * lines.len() <= u64::MAX,
    ensures
        gpu_read(lines, start) matches Some(st) ==> ordered_state(st, start) && st.blocks <= lines.len(),
    decreases lines.len(),
{
    if lines.len() > 0 {
        let init = lines.drop_last();
        assert(start + 1000 * init.len() <= u64::MAX) by (nonlinear_arith)
            requires start + 1000 * lines.len() <= u64::MAX, init.len() == lines.len() - 1;
        lemma_gpu_series_ordered(init, start);
        if let Some(st) = gpu_read(init, start) {
            let line = lines.last();
            let tl = trim(line);
            let parts = split_on(tl, ':');
            if !ends_block(line) && tl.len() != 0 && parts.len() >= 2 {
                if let Some(v) = decimal_units(trim(parts[1])) {
                    let blocks = if st.in_block { st.blocks } else { st.blocks + 1 };
                    assert(1000 * (blocks - 1) <= 1000 * init.len()) by (nonlinear_arith)
                        requires blocks - 1 <= init.len();
                    let ts = start + 1000 * (blocks - 1);
                    vstd::arithmetic::div_mod::lemma_mod_multiples_basic(blocks - 1, 1000);
                    assert((ts - start) % 1000 == 0) by {
                        assert(ts - start == (blocks - 1) * 1000);
                    }
                    let smp = Sample { value: v as i64, timestamp: ts as u64 };
                    let g = st.groups;
                    let name = trim(parts[0]);
                    let ng = add_sample(g, name, smp);
                    lemma_name_index_bound(g, name);
                    let k = name_index(g, name);
                    assert forall|i: int, j: int| 0 <= i < g.len() && 0 <= j < g[i].1.len() implies
                        g[i].1[j].timestamp <= ts by {
                        assert(start <= g[i].1[j].timestamp <= start + 1000 * (st.blocks - 1));
                        if !st.in_block {
                            assert(1000 * (st.blocks - 1) <= 1000 * (blocks - 1)) by (nonlinear_arith)
                                requires blocks == st.blocks + 1;
                        }
                    }
                    assert(1000 * (st.blocks - 1) <= 1000 * (blocks - 1)) by (nonlinear_arith)
                        requires blocks >= st.blocks;
                    assert forall|i: int, j: int|
                        0 <= i < ng.len() && 0 <= j < ng[i].1.len() implies start
                            <= #[trigger] ng[i].1[j].timestamp <= start + 1000 * (blocks - 1)
                            && (ng[i].1[j].timestamp - start) % 1000 == 0 by {
                        if i < g.len() && j < g[i].1.len() {
                            assert(ng[i].1[j] == g[i].1[j]);
                        }
                    }
                    assert forall|i: int, j: int|
                        0 <= i < ng.len() && 0 <= j && j + 1 < ng[i].1.len() implies
                            #[trigger] ng[i].1[j].timestamp <= ng[i].1[j + 1].timestamp by {
                        if i < g.len() && j + 1 < g[i].1.len() {
                            assert(ng[i].1[j] == g[i].1[j]);
                            assert(ng[i].1[j + 1] == g[i].1[j + 1]);
                        } else if i < g.len() {
                            assert(ng[i].1[j] == g[i].1[j]);
                        }
                    }
                }
            }
        }
    }
}

/// The counter name on a line, where the line holds a counter.
pub open spec fn line_counter_name(line: Seq<char>) -> Option<Seq<char>> {
    let tl = trim(line);
    let parts = split_on(tl, ':');
    if ends_block(line) || tl.len() == 0 || parts.len() < 2 {
        None
    } else {
        Some(trim(parts[0]))
    }
}

/// How many of the lines hold the counter `name`.
pub open spec fn count_named(lines: Seq<Seq<char>>, name: Seq<char>) -> nat
    decreases lines.len(),
{
    if lines.len() == 0 {
        0
    } else {
        count_named(lines.drop_last(), name) + if line_counter_name(lines.last()) == Some(name) {
            1nat
        } else {
            0nat
        }
    }
}

proof fn lemma_name_index_spec(g: Seq<(Seq<char>, Seq<Sample>)>, name: Seq<char>)
    ensures
        0 <= name_index(g, name) <= g.len(),
        forall|i: int| 0 <= i < name_index(g, name) ==> (#[trigger] g[i]).0 != name,
        name_index(g, name) < g.len() ==> g[name_index(g, name)].0 == name,
    decreases g.len(),
{
    if g.len() > 0 {
        let h = g.drop_last();
        lemma_name_index_spec(h, name);
        assert forall|i: int| 0 <= i < h.len() implies h[i] == g[i] by {}
    }
}

/// Reading GPU counters yields, for every name, one series holding exactly as
/// many samples as there are lines with that counter; a name on no line has no series.
pub proof fn lemma_gpu_counts(lines: Seq<Seq<char>>, start: int, name: Seq<char>)
    ensures
        gpu_read(lines, start) matches Some(st) ==> {
            let k = name_index(st.groups, name);
            &&& k < st.groups.len() ==> st.groups[k].1.len() == count_named(lines, name)
            &&& k == st.groups.len() ==> count_named(lines, name) == 0
        },
    decreases lines.len(),
{
    if lines.len() > 0 {
        let init = lines.drop_last();
        lemma_gpu_counts(init, start, name);
        if let Some(st) = gpu_read(init, start) {
            let line = lines.last();
            let tl = trim(line);
            let parts = split_on(tl, ':');
            if !ends_block(line) && tl.len() != 0 && parts.len() >= 2 {
                if let Some(v) = decimal_units(trim(parts[1])) {
                    let blocks = if st.in_block { st.blocks } else { st.blocks + 1 };
                    let smp = Sample { value: v as i64, timestamp: (start + 1000 * (blocks - 1)) as u64 };
                    let g = st.groups;
                    let m = trim(parts[0]);
                    let ng = add_sample(g, m, smp);
                    lemma_name_index_spec(g, m);
                    lemma_name_index_spec(g, name);
                    let km = name_index(g, m);
                    let kn = name_index(g, name);
                    if km < g.len() {
                        assert forall|i: int| 0 <= i < ng.len() implies (#[trigger] ng[i]).0 == g[i].0 by {}
                        assert forall|i: int| 0 <= i < kn implies (#[trigger] ng[i]).0 != name by {
                            assert(ng[i].0 == g[i].0);
                        }
                        if kn < g.len() {
                            assert(ng[kn].0 == g[kn].0);
                        }
                        lemma_name_index(ng, name, kn);
                    } else {
                        if name == m {
                            assert forall|i: int| 0 <= i < g.len() implies (#[trigger] ng[i]).0 != name by {
                                assert(ng[i] == g[i]);
                            }
                            lemma_name_index(ng, name, g.len() as int);
                        } else if kn < g.len() {
                            assert forall|i: int| 0 <= i < kn implies (#[trigger] ng[i]).0 != name by {
                                assert(ng[i] == g[i]);
                            }
                            assert(ng[kn] == g[kn]);
                            lemma_name_index(ng, name, kn);
                        } else {
                            assert forall|i: int| 0 <= i < ng.len() implies (#[trigger] ng[i]).0 != name by {
                                if i < g.len() {
                                    assert(ng[i] == g[i]);
                                }
                            }
                            lemma_name_index(ng, name, ng.len() as int);
                        }
                    }
                }
            }
        }
    }
}

/// Whether `t[from..to]` holds nothing but carriage returns.
fn only_carriage_returns(t: &Vec<char>, from: usize, to: usize) -> (r: bool)
    requires
        from <= to <= t@.len(),
    ensures
        r == ends_block(t@.subrange(from as int, to as int)),
{
    let mut i: usize = from;
    while i < to
        invariant
            from <= i <= to <= t@.len(),
            forall|k: int| from <= k < i ==> #[trigger] t@[k] == '\r',
        decreases to - i,
    {
        if t[i] != '\r' {
            assert(t@.subrange(from as int, to as int)[i - from] != '\r');
            return false;
        }
        i = i + 1;
    }
    assert forall|k: int| 0 <= k < to - from implies #[trigger] t@.subrange(from as int, to as int)[k] == '\r' by {
        assert(t@.subrange(from as int, to as int)[k] == t@[from + k]);
    }
    true
}

} // verus!

//! Fixed-point decimal numbers read from text.
//!
//! A decimal is an optional sign, digits, and optionally a point followed by
//! more digits, with at least one digit, and optionally an exponent mark and a
//! signed exponent below 10^4 in magnitude: `12`, `-0.5`, `4.27`, `.5`, `7.`,
//! `2.5e-3`. Its value is counted in thousandths; fractional digits past the
//! third are read but do not contribute. The whole part must stay below 10^15.
use vstd::prelude::*;

verus! {

/// Upper bound (exclusive) of the whole part of a decimal.
pub const WHOLE_LIMIT: u64 = 1_000_000_000_000_000;

pub open spec fn is_digit(c: char) -> bool {
    '0' <= c && c <= '9'
}

pub open spec fn digit_value(c: char) -> int {
    c as int - '0' as int
}

pub open spec fn all_digits(s: Seq<char>) -> bool {
    forall|i: int| 0 <= i < s.len() ==> is_digit(#[trigger] s[i])
}

/// The number written by the decimal digits `s` (0 for no digits).
pub open spec fn digits_value(s: Seq<char>) -> int
    decreases s.len(),
{
    if s.len() == 0 {
        0
    } else {
        digits_value(s.drop_last()) * 10 + digit_value(s.last())
    }
}

/// Length of the run of digits at the start of `s`.
pub open spec fn digit_run(s: Seq<char>) -> nat
    decreases s.len(),
{
    if s.len() > 0 && is_digit(s[0]) {
        1 + digit_run(s.skip(1))
    } else {
        0
    }
}

/// The digits after the point of an unsigned decimal (none if it has no point).
pub open spec fn fraction_part(s: Seq<char>) -> Seq<char> {
    let p = digit_run(s);
    if p < s.len() {
        s.skip(p as int + 1)
    } else {
        Seq::empty()
    }
}

/// Whether `s` is digits, optionally followed by a point and digits, with at
/// least one digit in all.
pub open spec fn is_unsigned_decimal(s: Seq<char>) -> bool {
    let p = digit_run(s);
    s.len() > 0 && (p == s.len() || (s[p as int] == '.' && all_digits(s.skip(p as int + 1)) && s.len()
        > 1))
}

/// Thousandths contributed by the fractional digits `f`.
pub open spec fn fraction_units(f: Seq<char>) -> int {
    if f.len() >= 3 {
        digits_value(f.take(3))
    } else if f.len() == 2 {
        digits_value(f) * 10
    } else if f.len() == 1 {
        digits_value(f) * 100
    } else {
        0
    }
}

/// The value in thousandths of an unsigned decimal, or `None` where `s` is no
/// decimal or its whole part is too large.
pub open spec fn unsigned_units(s: Seq<char>) -> Option<int> {
    let whole = digits_value(s.take(digit_run(s) as int));
    if is_unsigned_decimal(s) && whole < WHOLE_LIMIT {
        Some(whole * 1000 + fraction_units(fraction_part(s)))
    } else {
        None
    }
}

pub open spec fn is_exp_mark(c: char) -> bool {
    c == 'e' || c == 'E'
}

/// Position of the first exponent mark of `s`, or its length.
pub open spec fn exp_pos(s: Seq<char>) -> nat
    decreases s.len(),
{
    if s.len() > 0 && !is_exp_mark(s[0]) {
        1 + exp_pos(s.skip(1))
    } else {
        0
    }
}

/// Largest magnitude accepted for an exponent, plus one.
pub const EXPONENT_LIMIT: i64 = 10_000;

/// The exponent written by `e`: an optional sign and digits, below 10^4 in magnitude.
pub open spec fn exponent_value(e: Seq<char>) -> Option<int> {
    let neg = e.len() > 0 && e[0] == '-';
    let d = if e.len() > 0 && (e[0] == '-' || e[0] == '+') {
        e.skip(1)
    } else {
        e
    };
    if d.len() > 0 && all_digits(d) && digits_value(d) < EXPONENT_LIMIT {
        Some(
            if neg {
                -digits_value(d)
            } else {
                digits_value(d)
            },
        )
    } else {
        None
    }
}

/// The digits of an unsigned decimal, its point left out.
pub open spec fn mantissa_digits(m: Seq<char>) -> Seq<char> {
    let r = digit_run(m);
    if r < m.len() {
        m.take(r as int) + m.skip(r as int + 1)
    } else {
        m
    }
}

pub open spec fn zeros(n: int) -> Seq<char> {
    Seq::new(n as nat, |i: int| '0')
}

/// The unsigned decimal `m` with its point moved `x` places to the right.
pub open spec fn shift_point(m: Seq<char>, x: int) -> Seq<char> {
    place_point(mantissa_digits(m), digit_run(m) + x)
}

/// The digits `d` with a point placed after the first `p` of them (zeros added as needed).
pub open spec fn place_point(d: Seq<char>, p: int) -> Seq<char> {
    if p <= 0 {
        seq!['.'] + zeros(-p) + d
    } else if p >= d.len() {
        d + zeros(p - d.len())
    } else {
        d.take(p) + seq!['.'] + d.skip(p)
    }
}

/// The value in thousandths of an unsigned decimal with an optional exponent
/// (`2.5e-3`, `1E4`).
pub open spec fn scientific_units(s: Seq<char>) -> Option<int> {
    let q = exp_pos(s);
    if q == s.len() {
        unsigned_units(s)
    } else {
        match exponent_value(s.skip(q as int + 1)) {
            None => None,
            Some(x) => if is_unsigned_decimal(s.take(q as int)) {
                unsigned_units(shift_point(s.take(q as int), x))
            } else {
                None
            },
        }
    }
}

/// The value in thousandths of the decimal `s`, sign included.
pub open spec fn decimal_units(s: Seq<char>) -> Option<int> {
    if s.len() > 0 && s[0] == '-' {
        match scientific_units(s.skip(1)) {
            Some(v) => Some(-v),
            None => None,
        }
    } else if s.len() > 0 && s[0] == '+' {
        scientific_units(s.skip(1))
    } else {
        scientific_units(s)
    }
}

proof fn lemma_digits_value_nonneg(s: Seq<char>)
    requires
        all_digits(s),
    ensures
        digits_value(s) >= 0,
    decreases s.len(),
{
    if s.len() > 0 {
        lemma_digits_value_nonneg(s.drop_last());
    }
}

proof fn lemma_digits_value_step(s: Seq<char>, k: int)
    requires
        0 <= k < s.len(),
    ensures
        digits_value(s.take(k + 1)) == digits_value(s.take(k)) * 10 + digit_value(s[k]),
{
    assert(s.take(k + 1).drop_last() =~= s.take(k));
}

/// A longer run of digits never writes a smaller number.
proof fn lemma_digits_value_grows(s: Seq<char>, k: int, p: int)
    requires
        0 <= k <= p <= s.len(),
        all_digits(s.take(p)),
    ensures
        digits_value(s.take(k)) <= digits_value(s.take(p)),
    decreases p - k,
{
    if k < p {
        lemma_digits_value_grows(s, k + 1, p);
        lemma_digits_value_step(s, k);
        assert(is_digit(s.take(p)[k]));
        assert(all_digits(s.take(k))) by {
            assert forall|i: int| 0 <= i < k implies is_digit(#[trigger] s.take(k)[i]) by {
                assert(s.take(p)[i] == s.take(k)[i]);
            }
        }
        lemma_digits_value_nonneg(s.take(k));
    }
}

proof fn lemma_digit_run(s: Seq<char>, p: int)
    requires
        0 <= p <= s.len(),
        forall|i: int| 0 <= i < p ==> is_digit(#[trigger] s[i]),
        p == s.len() || !is_digit(s[p]),
    ensures
        digit_run(s) == p,
    decreases p,
{
    if p > 0 {
        lemma_digit_run(s.skip(1), p - 1);
    }
}

/// Reads the decimal `t[from..to]`, in thousandths.
pub fn parse_decimal(t: &Vec<char>, from: usize, to: usize) -> (r: Option<i64>)
    requires
        from <= to <= t@.len(),
    ensures
        match decimal_units(t@.subrange(from as int, to as int)) {
            Some(v) => r == Some(v as i64) && -1_000_000_000_000_000_000 < v
                < 1_000_000_000_000_000_000,
            None => r.is_none(),
        },
{
    let ghost s = t@.subrange(from as int, to as int);
    if from < to && t[from] == '-' {
        assert(s.skip(1) =~= t@.subrange(from + 1, to as int));
        match parse_scientific(t, from + 1, to) {
            Some(v) => Some(-v),
            None => None,
        }
    } else if from < to && t[from] == '+' {
        assert(s.skip(1) =~= t@.subrange(from + 1, to as int));
        parse_scientific(t, from + 1, to)
    } else {
        parse_scientific(t, from, to)
    }
}

fn parse_unsigned(t: &Vec<char>, from: usize, to: usize) -> (r: Option<i64>)
    requires
        from <= to <= t@.len(),
    ensures
        match unsigned_units(t@.subrange(from as int, to as int)) {
            Some(v) => r == Some(v as i64) && 0 <= v < 1_000_000_000_000_000_000,
            None => r.is_none(),
        },
{
    let ghost s = t@.subrange(from as int, to as int);
    let mut p: usize = from;
    let mut whole: u64 = 0;
    while p < to && '0' <= t[p] && t[p] <= '9'
        invariant
            from <= p <= to <= t@.len(),
            s == t@.subrange(from as int, to as int),
            forall|i: int| 0 <= i < p - from ==> is_digit(#[trigger] s[i]),
            whole == digits_value(s.take(p - from)),
            whole < WHOLE_LIMIT,
        decreases to - p,
    {
        proof {
            lemma_digits_value_step(s, p - from);
        }
        whole = whole * 10 + (t[p] as u64 - '0' as u64);
        p = p + 1;
        if whole >= WHOLE_LIMIT {
            proof {
                let q = digit_run(s);
                assert(forall|i: int| 0 <= i < p - from ==> is_digit(#[trigger] s[i]));
                lemma_digit_run_bound(s, p - from);
                assert(all_digits(s.take(q as int))) by {
                    lemma_digit_run_digits(s);
                }
                lemma_digits_value_grows(s, p - from, q as int);
            }
            return None;
        }
    }
    proof {
        lemma_digit_run(s, p - from);
    }
    let ghost whole_digits = s.take(p - from);
    if p == to {
        if from == to {
            return None;
        }
        assert(fraction_part(s) =~= Seq::<char>::empty());
        return Some((whole * 1000) as i64);
    }
    assert(s[p - from] == t[p as int]);
    if t[p] != '.' || to - from == 1 {
        return None;
    }
    let ghost f = s.skip(p - from + 1);
    assert(f =~= t@.subrange(p + 1, to as int));
    let mut q: usize = p + 1;
    let mut frac: u64 = 0;
    let mut k: usize = 0;
    while q < to
        invariant
            p + 1 <= q <= to <= t@.len(),
            f == t@.subrange(p + 1, to as int),
            s == t@.subrange(from as int, to as int),
            from <= p < to,
            digit_run(s) == p - from,
            f == s.skip(p - from + 1),
            k == if q - (p + 1) < 3 { q - (p + 1) } else { 3 },
            frac == digits_value(f.take(k as int)),
            k == 0 ==> frac == 0,
            k == 1 ==> frac < 10,
            k == 2 ==> frac < 100,
            frac < 1000,
            all_digits(f.take(q - (p + 1))),
        decreases to - q,
    {
        if !('0' <= t[q] && t[q] <= '9') {
            proof {
                assert(f[q - (p + 1)] == t[q as int]);
                assert(!is_digit(f[q - (p + 1)]));
                assert(!all_digits(f));
                assert(!is_unsigned_decimal(s));
            }
            return None;
        }
        proof {
            assert(f.take(q - (p + 1) + 1) =~= f.take(q - (p + 1)).push(t[q as int]));
            assert(all_digits(f.take(q - (p + 1) + 1))) by {
                assert forall|i: int| 0 <= i < q - (p + 1) + 1 implies is_digit(
                    #[trigger] f.take(q - (p + 1) + 1)[i],
                ) by {
                    if i < q - (p + 1) {
                        assert(f.take(q - (p + 1))[i] == f.take(q - (p + 1) + 1)[i]);
                    }
                }
            }
        }
        if k < 3 {
            proof {
                lemma_digits_value_step(f, k as int);
            }
            frac = frac * 10 + (t[q] as u64 - '0' as u64);
            k = k + 1;
        }
        q = q + 1;
    }
    assert(f.take(f.len() as int) =~= f);
    assert(fraction_part(s) == f);
    assert(f.take(k as int) =~= f || k == 3);
    assert(fraction_units(f) == if k == 0 {
        0
    } else if k == 1 {
        frac * 100
    } else if k == 2 {
        frac * 10
    } else {
        frac as int
    });
    let scaled: u64 = if k == 0 {
        0
    } else if k == 1 {
        frac * 100
    } else if k == 2 {
        frac * 10
    } else {
        frac
    };
    Some((whole * 1000 + scaled) as i64)
}

proof fn lemma_digit_run_bound(s: Seq<char>, p: int)
    requires
        0 <= p <= s.len(),
        forall|i: int| 0 <= i < p ==> is_digit(#[trigger] s[i]),
    ensures
        p <= digit_run(s) <= s.len(),
    decreases p,
{
    if p > 0 {
        lemma_digit_run_bound(s.skip(1), p - 1);
    } else {
        lemma_digit_run_le(s);
    }
}

proof fn lemma_digit_run_le(s: Seq<char>)
    ensures
        digit_run(s) <= s.len(),
    decreases s.len(),
{
    if s.len() > 0 {
        lemma_digit_run_le(s.skip(1));
    }
}

proof fn lemma_digit_run_digits(s: Seq<char>)
    ensures
        digit_run(s) <= s.len(),
        all_digits(s.take(digit_run(s) as int)),
    decreases s.len(),
{
    lemma_digit_run_le(s);
    if s.len() > 0 && is_digit(s[0]) {
        lemma_digit_run_digits(s.skip(1));
        let q = digit_run(s) as int;
        assert forall|i: int| 0 <= i < q implies is_digit(#[trigger] s.take(q)[i]) by {
            if i > 0 {
                assert(s.take(q)[i] == s.skip(1).take(q - 1)[i - 1]);
            }
        }
    }
}

proof fn lemma_exp_pos(s: Seq<char>, p: int)
    requires
        0 <= p <= s.len(),
        forall|i: int| 0 <= i < p ==> !is_exp_mark(#[trigger] s[i]),
        p == s.len() || is_exp_mark(s[p]),
    ensures
        exp_pos(s) == p,
    decreases p,
{
    if p > 0 {
        lemma_exp_pos(s.skip(1), p - 1);
    }
}

/// Reads the exponent `t[from..to]`.
fn parse_exponent(t: &Vec<char>, from: usize, to: usize) -> (r: Option<i64>)
    requires
        from <= to <= t@.len(),
    ensures
        match exponent_value(t@.subrange(from as int, to as int)) {
            Some(x) => r == Some(x as i64) && -EXPONENT_LIMIT < x < EXPONENT_LIMIT,
            None => r is None,
        },
{
    let ghost e = t@.subrange(from as int, to as int);
    let neg = from < to && t[from] == '-';
    let a: usize = if from < to && (t[from] == '-' || t[from] == '+') { from + 1 } else { from };
    let ghost d = t@.subrange(a as int, to as int);
    assert(d =~= if e.len() > 0 && (e[0] == '-' || e[0] == '+') { e.skip(1) } else { e });
    if a == to {
        return None;
    }
    let mut v: i64 = 0;
    let mut i: usize = a;
    while i < to
        invariant
            a <= i <= to <= t@.len(),
            d == t@.subrange(a as int, to as int),
            e == t@.subrange(from as int, to as int),
            d == if e.len() > 0 && (e[0] == '-' || e[0] == '+') {
                e.skip(1)
            } else {
                e
            },
            neg == (e.len() > 0 && e[0] == '-'),
            all_digits(d.take(i - a)),
            v == digits_value(d.take(i - a)),
            0 <= v < EXPONENT_LIMIT,
        decreases to - i,
    {
        if !('0' <= t[i] && t[i] <= '9') {
            assert(d[i - a] == t@[i as int]);
            assert(!is_digit(d[i - a]));
            assert(!all_digits(d));
            return None;
        }
        proof {
            lemma_digits_value_step(d, i - a);
            assert(all_digits(d.take(i - a + 1))) by {
                assert forall|k: int| 0 <= k < i - a + 1 implies is_digit(#[trigger] d.take(i - a + 1)[k]) by {
                    if k < i - a {
                        assert(d.take(i - a)[k] == d.take(i - a + 1)[k]);
                    }
                }
            }
        }
        v = v * 10 + (t[i] as i64 - '0' as i64);
        i = i + 1;
        if v >= EXPONENT_LIMIT {
            proof {
                assert(d.take(d.len() as int) =~= d);
                if all_digits(d) {
                    lemma_digits_value_grows(d, i - a, d.len() as int);
                }
            }
            return None;
        }
    }
    assert(d.take(d.len() as int) =~= d);
    if neg {
        Some(-v)
    } else {
        Some(v)
    }
}

/// Whether `t[from..to]` is an unsigned decimal, and the length of its leading digit run.
fn check_unsigned(t: &Vec<char>, from: usize, to: usize) -> (r: (bool, usize))
    requires
        from <= to <= t@.len(),
    ensures
        r.0 == is_unsigned_decimal(t@.subrange(from as int, to as int)),
        r.1 == digit_run(t@.subrange(from as int, to as int)),
{
    let ghost s = t@.subrange(from as int, to as int);
    let mut p: usize = from;
    while p < to && '0' <= t[p] && t[p] <= '9'
        invariant
            from <= p <= to <= t@.len(),
            s == t@.subrange(from as int, to as int),
            forall|i: int| 0 <= i < p - from ==> is_digit(#[trigger] s[i]),
        decreases to - p,
    {
        p = p + 1;
    }
    proof {
        lemma_digit_run(s, p - from);
    }
    if from == to {
        return (false, 0);
    }
    if p == to {
        return (true, p - from);
    }
    assert(s[p - from] == t@[p as int]);
    if t[p] != '.' || to - from == 1 {
        return (false, p - from);
    }
    let ghost f = s.skip(p - from + 1);
    let mut q: usize = p + 1;
    while q < to
        invariant
            p + 1 <= q <= to <= t@.len(),
            s == t@.subrange(from as int, to as int),
            from <= p < to,
            digit_run(s) == p - from,
            f == s.skip(p - from + 1),
            forall|i: int| 0 <= i < q - (p + 1) ==> is_digit(#[trigger] f[i]),
        decreases to - q,
    {
        if !('0' <= t[q] && t[q] <= '9') {
            assert(f[q - (p + 1)] == t@[q as int]);
            assert(!is_digit(f[q - (p + 1)]));
            assert(!all_digits(f));
            return (false, p - from);
        }
        q = q + 1;
    }
    (true, p - from)
}

/// Reads an unsigned decimal with an optional exponent, `t[from..to]`.
fn parse_scientific(t: &Vec<char>, from: usize, to: usize) -> (r: Option<i64>)
    requires
        from <= to <= t@.len(),
    ensures
        match scientific_units(t@.subrange(from as int, to as int)) {
            Some(v) => r == Some(v as i64) && 0 <= v < 1_000_000_000_000_000_000,
            None => r.is_none(),
        },
{
    let ghost s = t@.subrange(from as int, to as int);
    let mut q: usize = from;
    while q < to && t[q] != 'e' && t[q] != 'E'
        invariant
            from <= q <= to <= t@.len(),
            s == t@.subrange(from as int, to as int),
            forall|i: int| 0 <= i < q - from ==> !is_exp_mark(#[trigger] s[i]),
        decreases to - q,
    {
        q = q + 1;
    }
    proof {
        lemma_exp_pos(s, q - from);
    }
    if q == to {
        return parse_unsigned(t, from, to);
    }
    assert(s.skip(q - from + 1) =~= t@.subrange(q + 1, to as int));
    assert(s.take(q - from) =~= t@.subrange(from as int, q as int));
    let x = match parse_exponent(t, q + 1, to) {
        Some(x) => x,
        None => return None,
    };
    let (ok, run) = check_unsigned(t, from, q);
    if !ok {
        return None;
    }
    let ghost m = t@.subrange(from as int, q as int);
    proof {
        lemma_digit_run_le(m);
    }
    let d = mantissa_of(t, from, q, run);
    let shifted = place_point_exec(&d, run as i128 + x as i128);
    let len = shifted.len();
    assert(shifted@.subrange(0, len as int) =~= shifted@);
    parse_unsigned(&shifted, 0, len)
}

/// Appends `src[from..to]` to `dst`.
fn append_chars(dst: &mut Vec<char>, src: &Vec<char>, from: usize, to: usize)
    requires
        from <= to <= src@.len(),
    ensures
        final(dst)@ == old(dst)@ + src@.subrange(from as int, to as int),
{
    let ghost start = dst@;
    let mut i: usize = from;
    while i < to
        invariant
            from <= i <= to <= src@.len(),
            dst@ == start + src@.subrange(from as int, i as int),
        decreases to - i,
    {
        dst.push(src[i]);
        i = i + 1;
        assert(dst@ =~= start + src@.subrange(from as int, i as int));
    }
}

/// The digits of the unsigned decimal `t[from..q]`, whose leading digit run is `run` long.
fn mantissa_of(t: &Vec<char>, from: usize, q: usize, run: usize) -> (d: Vec<char>)
    requires
        from <= q <= t@.len(),
        run == digit_run(t@.subrange(from as int, q as int)),
    ensures
        d@ == mantissa_digits(t@.subrange(from as int, q as int)),
        d@.len() >= run,
{
    let ghost m = t@.subrange(from as int, q as int);
    proof {
        lemma_digit_run_le(m);
    }
    let mut d: Vec<char> = Vec::new();
    let mut i: usize = from;
    while i < q
        invariant
            from <= i <= q <= t@.len(),
            run <= q - from,
            m == t@.subrange(from as int, q as int),
            run == digit_run(m),
            d@ == if i - from <= run {
                m.take(i - from)
            } else {
                m.take(run as int) + m.subrange(run + 1, i - from)
            },
        decreases q - i,
    {
        if i - from != run {
            d.push(t[i]);
        }
        proof {
            if i - from < run {
                assert(d@ =~= m.take(i - from + 1));
            } else if i - from > run {
                assert(d@ =~= m.take(run as int) + m.subrange(run + 1, i - from + 1));
            } else {
                if i - from + 1 <= run {
                } else {
                    assert(m.subrange(run + 1, i - from + 1) =~= Seq::<char>::empty());
                    assert(d@ =~= m.take(run as int) + m.subrange(run + 1, i - from + 1));
                }
            }
        }
        i = i + 1;
    }
    proof {
        if run < m.len() {
            assert(m.subrange(run + 1, m.len() as int) =~= m.skip(run + 1));
        } else {
            assert(m.take(m.len() as int) =~= m);
        }
        assert(d@ =~= mantissa_digits(m));
    }
    d
}

/// The digits `d` with a point placed after the first `p` of them.
fn place_point_exec(d: &Vec<char>, p: i128) -> (shifted: Vec<char>)
    requires
        -EXPONENT_LIMIT < p < d@.len() + EXPONENT_LIMIT,
    ensures
        shifted@ == place_point(d@, p as int),
{
    let n = d.len();
    let mut shifted: Vec<char> = Vec::new();
    if p <= 0 {
        shifted.push('.');
        let mut k: i128 = 0;
        while k < -p
            invariant
                p <= 0,
                -p < EXPONENT_LIMIT,
                0 <= k <= -p,
                shifted@ == seq!['.'] + zeros(k as int),
            decreases -p - k,
        {
            shifted.push('0');
            k = k + 1;
            assert(shifted@ =~= seq!['.'] + zeros(k as int));
        }
        append_chars(&mut shifted, &d, 0, n);
        assert(d@.subrange(0, n as int) =~= d@);
        assert(shifted@ =~= seq!['.'] + zeros(-p) + d@);
    } else if p >= n as i128 {
        append_chars(&mut shifted, &d, 0, n);
        assert(d@.subrange(0, n as int) =~= d@);
        let ghost base = shifted@;
        let mut k: i128 = 0;
        while k < p - n as i128
            invariant
                p >= n,
                0 <= k <= p - n,
                p - n < EXPONENT_LIMIT,
                base == d@,
                shifted@ == base + zeros(k as int),
            decreases p - n - k,
        {
            shifted.push('0');
            k = k + 1;
            assert(shifted@ =~= base + zeros(k as int));
        }
        assert(shifted@ =~= d@ + zeros(p - n));
    } else {
        let pu = p as usize;
        append_chars(&mut shifted, &d, 0, pu);
        shifted.push('.');
        append_chars(&mut shifted, &d, pu, n);
        assert(shifted@ =~= d@.take(pu as int) + seq!['.'] + d@.skip(pu as int));
    }
    shifted
}

} // verus!

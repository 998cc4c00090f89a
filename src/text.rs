//! Character-level helpers shared by the parsers.
use vstd::prelude::*;
use vstd::string::StrSliceExecFns;

verus! {

/// Whitespace as the parsers understand it: space, tab, carriage return, newline.
pub open spec fn is_space(c: char) -> bool {
    c == ' ' || c == '\t' || c == '\r' || c == '\n'
}

/// Number of leading whitespace characters of `s`.
pub open spec fn lead_spaces(s: Seq<char>) -> nat
    decreases s.len(),
{
    if s.len() > 0 && is_space(s[0]) {
        1 + lead_spaces(s.skip(1))
    } else {
        0
    }
}

/// Number of trailing whitespace characters of `s`.
pub open spec fn trail_spaces(s: Seq<char>) -> nat
    decreases s.len(),
{
    if s.len() > 0 && is_space(s.last()) {
        1 + trail_spaces(s.drop_last())
    } else {
        0
    }
}

/// `s` with leading and trailing whitespace removed.
pub open spec fn trim(s: Seq<char>) -> Seq<char> {
    let a = lead_spaces(s);
    if a == s.len() {
        Seq::empty()
    } else {
        s.subrange(a as int, s.len() - trail_spaces(s))
    }
}

/// The characters of `s`, one per element.
pub fn chars_of(s: &str) -> (r: Vec<char>)
    ensures
        r@ == s@,
{
    let n = s.unicode_len();
    let mut r: Vec<char> = Vec::new();
    let mut i: usize = 0;
    while i < n
        invariant
            n == s@.len(),
            i <= n,
            r@ == s@.take(i as int),
        decreases n - i,
    {
        let c = s.get_char(i);
        r.push(c);
        i = i + 1;
        assert(r@ =~= s@.take(i as int));
    }
    assert(r@ =~= s@);
    r
}

/// The pieces of `s` between occurrences of `sep`, in order; always at least one.
pub open spec fn split_on(s: Seq<char>, sep: char) -> Seq<Seq<char>>
    decreases s.len(),
{
    if s.len() == 0 {
        seq![Seq::empty()]
    } else {
        let prev = split_on(s.drop_last(), sep);
        if s.last() == sep {
            prev.push(Seq::empty())
        } else {
            prev.update(prev.len() - 1, prev.last().push(s.last()))
        }
    }
}

pub proof fn lemma_split_on_len(s: Seq<char>, sep: char)
    ensures
        split_on(s, sep).len() >= 1,
    decreases s.len(),
{
    if s.len() > 0 {
        lemma_split_on_len(s.drop_last(), sep);
    }
}

/// Index ranges of `t` whose contents are the pieces of `t[from..to]` split on `sep`.
pub fn split_ranges(t: &Vec<char>, from: usize, to: usize, sep: char) -> (r: Vec<(usize, usize)>)
    requires
        from <= to <= t@.len(),
    ensures
        r@.len() == split_on(t@.subrange(from as int, to as int), sep).len(),
        forall|i: int|
            0 <= i < r@.len() ==> from <= (#[trigger] r@[i]).0 <= r@[i].1 <= to && t@.subrange(
                r@[i].0 as int,
                r@[i].1 as int,
            ) == split_on(t@.subrange(from as int, to as int), sep)[i],
{
    let mut r: Vec<(usize, usize)> = Vec::new();
    let mut start: usize = from;
    let mut i: usize = from;
    assert(t@.subrange(from as int, from as int) =~= Seq::<char>::empty());
    while i < to
        invariant
            from <= start <= i <= to <= t@.len(),
            r@.len() + 1 == split_on(t@.subrange(from as int, i as int), sep).len(),
            forall|k: int|
                0 <= k < r@.len() ==> from <= (#[trigger] r@[k]).0 <= r@[k].1 <= to
                    && t@.subrange(r@[k].0 as int, r@[k].1 as int) == split_on(
                    t@.subrange(from as int, i as int),
                    sep,
                )[k],
            t@.subrange(start as int, i as int) == split_on(
                t@.subrange(from as int, i as int),
                sep,
            ).last(),
        decreases to - i,
    {
        let ghost prev = split_on(t@.subrange(from as int, i as int), sep);
        assert(t@.subrange(from as int, i + 1).drop_last() =~= t@.subrange(from as int, i as int));
        assert(t@.subrange(from as int, i + 1).last() == t@[i as int]);
        if t[i] == sep {
            r.push((start, i));
            start = i + 1;
            assert(t@.subrange(start as int, i + 1) =~= Seq::<char>::empty());
        } else {
            assert(t@.subrange(start as int, i + 1) =~= t@.subrange(start as int, i as int).push(
                t@[i as int],
            ));
        }
        i = i + 1;
    }
    r.push((start, to));
    r
}

proof fn lemma_lead_spaces(s: Seq<char>, p: int)
    requires
        0 <= p <= s.len(),
        forall|i: int| 0 <= i < p ==> is_space(#[trigger] s[i]),
        p == s.len() || !is_space(s[p]),
    ensures
        lead_spaces(s) == p,
    decreases p,
{
    if p > 0 {
        lemma_lead_spaces(s.skip(1), p - 1);
    }
}

proof fn lemma_trail_spaces(s: Seq<char>, p: int)
    requires
        0 <= p <= s.len(),
        forall|i: int| p <= i < s.len() ==> is_space(#[trigger] s[i]),
        p == 0 || !is_space(s[p - 1]),
    ensures
        trail_spaces(s) == s.len() - p,
    decreases s.len() - p,
{
    if p < s.len() {
        lemma_trail_spaces(s.drop_last(), p);
    }
}

/// The index range of `t` that holds `t[from..to]` trimmed of whitespace.
pub fn trim_range(t: &Vec<char>, from: usize, to: usize) -> (r: (usize, usize))
    requires
        from <= to <= t@.len(),
    ensures
        from <= r.0 <= r.1 <= to,
        t@.subrange(r.0 as int, r.1 as int) == trim(t@.subrange(from as int, to as int)),
{
    let ghost s = t@.subrange(from as int, to as int);
    let mut a: usize = from;
    while a < to && (t[a] == ' ' || t[a] == '\t' || t[a] == '\r' || t[a] == '\n')
        invariant
            from <= a <= to <= t@.len(),
            s == t@.subrange(from as int, to as int),
            forall|i: int| 0 <= i < a - from ==> is_space(#[trigger] s[i]),
        decreases to - a,
    {
        a = a + 1;
    }
    proof {
        lemma_lead_spaces(s, a - from);
    }
    if a == to {
        assert(t@.subrange(to as int, to as int) =~= Seq::<char>::empty());
        return (to, to);
    }
    let mut b: usize = to;
    while b > a && (t[b - 1] == ' ' || t[b - 1] == '\t' || t[b - 1] == '\r' || t[b - 1] == '\n')
        invariant
            from <= a < b <= to <= t@.len() || (from <= a <= b <= to <= t@.len() && b > a),
            !is_space(t@[a as int]),
            s == t@.subrange(from as int, to as int),
            forall|i: int| b - from <= i < s.len() ==> is_space(#[trigger] s[i]),
        decreases b - a,
    {
        b = b - 1;
    }
    proof {
        lemma_trail_spaces(s, b - from);
    }
    assert(t@.subrange(a as int, b as int) =~= s.subrange(a - from, s.len() - (to - b)));
    (a, b)
}

/// Whether `t[from..to]` reads exactly `lit`.
pub fn range_equals(t: &Vec<char>, from: usize, to: usize, lit: &str) -> (r: bool)
    requires
        from <= to <= t@.len(),
    ensures
        r == (t@.subrange(from as int, to as int) == lit@),
{
    let n = lit.unicode_len();
    if to - from != n {
        return false;
    }
    let mut i: usize = 0;
    while i < n
        invariant
            n == lit@.len(),
            to - from == n,
            from <= to <= t@.len(),
            i <= n,
            forall|k: int| 0 <= k < i ==> t@[from + k] == #[trigger] lit@[k],
        decreases n - i,
    {
        if t[from + i] != lit.get_char(i) {
            assert(t@.subrange(from as int, to as int)[i as int] != lit@[i as int]);
            return false;
        }
        i = i + 1;
    }
    assert(t@.subrange(from as int, to as int) =~= lit@);
    true
}

/// Whether `s` holds `tag` somewhere.
pub open spec fn contains(s: Seq<char>, tag: Seq<char>) -> bool {
    exists|i: int| 0 <= i && i + tag.len() <= s.len() && #[trigger] s.subrange(i, i + tag.len()) == tag
}

/// Whether `t[from..to]` holds `tag` somewhere.
pub fn range_contains(t: &Vec<char>, from: usize, to: usize, tag: &str) -> (r: bool)
    requires
        from <= to <= t@.len(),
    ensures
        r == contains(t@.subrange(from as int, to as int), tag@),
{
    let ghost s = t@.subrange(from as int, to as int);
    let n = tag.unicode_len();
    if n > to - from {
        return false;
    }
    if n == 0 {
        assert(s.subrange(0int, 0int + tag@.len()) =~= tag@);
        return true;
    }
    let mut i: usize = from;
    while i <= to - n
        invariant
            n == tag@.len(),
            n > 0,
            from <= i <= to - n + 1,
            n <= to - from,
            to <= t@.len(),
            s == t@.subrange(from as int, to as int),
            forall|k: int| 0 <= k < i - from ==> #[trigger] s.subrange(k, k + n) != tag@,
        decreases to - n + 1 - i,
    {
        if range_equals(t, i, i + n, tag) {
            assert(s.subrange(i - from, i - from + n) =~= t@.subrange(i as int, i + n));
            return true;
        }
        assert(s.subrange(i - from, i - from + n) =~= t@.subrange(i as int, i + n));
        i = i + 1;
    }
    false
}

pub proof fn lemma_split_on_len_bound(s: Seq<char>, sep: char)
    ensures
        split_on(s, sep).len() <= s.len() + 1,
    decreases s.len(),
{
    if s.len() > 0 {
        lemma_split_on_len_bound(s.drop_last(), sep);
        lemma_split_on_len(s.drop_last(), sep);
    }
}

} // verus!

//! Time spans of the text lines: gathered from the segments that the
//! alignment assigned to each line, and filled in for the lines that got none.

use vstd::prelude::*;

verus! {

/// Length in milliseconds given to a line whose time is only extrapolated.
pub const DEFAULT_LINE_MS: i128 = 2500;

pub open spec fn min_i64(a: i64, b: i64) -> i64 {
    if a <= b { a } else { b }
}

pub open spec fn max_i64(a: i64, b: i64) -> i64 {
    if a >= b { a } else { b }
}

/// A line's span after one more segment `[t0, t1]` was assigned to it.
pub open spec fn merge_span(cur: Option<(i64, i64)>, t0: i64, t1: i64) -> Option<(i64, i64)> {
    match cur {
        Some((a, b)) => Some((min_i64(a, t0), max_i64(b, t1))),
        None => Some((t0, t1)),
    }
}

/// The spans of `m` lines after the first `count` entries of `mapping`
/// (segment `i` goes to line `mapping[i]`) were taken into account: a line
/// that received segments spans from their earliest start to their latest end.
pub open spec fn line_spans(
    segments: Seq<(i64, i64, String)>,
    mapping: Seq<usize>,
    m: nat,
    count: nat,
) -> Seq<Option<(i64, i64)>>
    decreases count,
{
    if count == 0 {
        Seq::new(m, |_j: int| None)
    } else {
        let prev = line_spans(segments, mapping, m, (count - 1) as nat);
        let i = count - 1;
        let j = mapping[i] as int;
        prev.update(j, merge_span(prev[j], segments[i].0, segments[i].1))
    }
}

/// The first line of the run of span-less lines that holds line `k`.
pub open spec fn run_start(spans: Seq<Option<(i64, i64)>>, k: nat) -> nat
    decreases k,
{
    if k == 0 || spans[k - 1 as int] is Some {
        k
    } else {
        run_start(spans, (k - 1) as nat)
    }
}

/// One past the last line of the run of span-less lines that holds line `k`.
pub open spec fn run_end(spans: Seq<Option<(i64, i64)>>, k: nat) -> nat
    decreases spans.len() - k,
{
    if k + 1 >= spans.len() || spans[k + 1 as int] is Some {
        k + 1
    } else {
        run_end(spans, k + 1)
    }
}

/// Walking back from `q` in steps of the default length, never below zero.
pub open spec fn back_cursor(q: int, r: nat) -> int
    decreases r,
{
    if r == 0 {
        q
    } else {
        let c = back_cursor(q, (r - 1) as nat) - DEFAULT_LINE_MS;
        if c >= 0 { c } else { 0 }
    }
}

/// The end of the known line just before the run of span-less lines that
/// holds line `k`, if there is one.
pub open spec fn prev_known_end(spans: Seq<Option<(i64, i64)>>, k: nat) -> Option<int> {
    let s = run_start(spans, k);
    if s > 0 {
        Some(spans[s - 1].unwrap().1 as int)
    } else {
        None
    }
}

/// The start of the known line just after the run of span-less lines that
/// holds line `k`, if there is one.
pub open spec fn next_known_start(spans: Seq<Option<(i64, i64)>>, k: nat) -> Option<int> {
    let e = run_end(spans, k);
    if e < spans.len() {
        Some(spans[e as int].unwrap().0 as int)
    } else {
        None
    }
}

/// The time of a line that received no segment. Its run of such lines lies
/// between the end `p` of the line before and the start `q` of the line after:
/// - both known with `q > p`: the gap is divided evenly, in steps of at least
///   1 ms, no time going past `q`;
/// - otherwise, with `p` known: lines follow `p` one default length each;
/// - with only `q` known: lines go back from `q` one default length each, not below 0;
/// - with neither: lines follow 0 one default length each.
pub open spec fn gap_time(spans: Seq<Option<(i64, i64)>>, k: nat) -> (int, int) {
    let s = run_start(spans, k);
    let count = run_end(spans, k) - s;
    let rel = k - s;
    let prev = prev_known_end(spans, k);
    let next = next_known_start(spans, k);
    if prev is Some && next is Some && next.unwrap() > prev.unwrap() {
        let p = prev.unwrap();
        let q = next.unwrap();
        let span = q - p;
        let step = if span / (count + 1) >= 1 { span / (count + 1) } else { 1 };
        let t0 = if p + step * (rel + 1) <= q { p + step * (rel + 1) } else { q };
        (t0, if t0 + step <= q { t0 + step } else { q })
    } else if prev is Some {
        let t0 = prev.unwrap() + DEFAULT_LINE_MS * rel;
        (t0, t0 + DEFAULT_LINE_MS)
    } else if next is Some {
        let q = next.unwrap();
        (back_cursor(q, (count - rel) as nat), back_cursor(q, (count - 1 - rel) as nat))
    } else {
        let t0 = DEFAULT_LINE_MS * rel;
        (t0, t0 + DEFAULT_LINE_MS)
    }
}

/// The time of every line: its span where it has one, else its gap time.
pub open spec fn line_times(spans: Seq<Option<(i64, i64)>>) -> Seq<(int, int)> {
    Seq::new(
        spans.len(),
        |k: int|
            match spans[k] {
                Some(t) => (t.0 as int, t.1 as int),
                None => gap_time(spans, k as nat),
            },
    )
}

pub proof fn lemma_line_spans_len(
    segments: Seq<(i64, i64, String)>,
    mapping: Seq<usize>,
    m: nat,
    count: nat,
)
    requires
        forall|i: int| 0 <= i < count ==> mapping[i] < m,
    ensures
        line_spans(segments, mapping, m, count).len() == m,
    decreases count,
{
    if count > 0 {
        lemma_line_spans_len(segments, mapping, m, (count - 1) as nat);
    }
}

proof fn lemma_run_start(spans: Seq<Option<(i64, i64)>>, i: nat, k: nat)
    requires
        i <= k < spans.len(),
        forall|x: int| i <= x <= k ==> spans[x] is None,
        i == 0 || spans[i - 1] is Some,
    ensures
        run_start(spans, k) == i,
    decreases k - i,
{
    if k > i {
        lemma_run_start(spans, i, (k - 1) as nat);
    }
}

proof fn lemma_run_end(spans: Seq<Option<(i64, i64)>>, k: nat, j: nat)
    requires
        k < j <= spans.len(),
        forall|x: int| k <= x < j ==> spans[x] is None,
        j == spans.len() || spans[j as int] is Some,
    ensures
        run_end(spans, k) == j,
    decreases j - k,
{
    if k + 1 < j {
        lemma_run_end(spans, k + 1, j);
    }
}

proof fn lemma_back_cursor(q: int, r: nat)
    ensures
        back_cursor(q, r) == if r == 0 {
            q
        } else if q - DEFAULT_LINE_MS * r >= 0 {
            q - DEFAULT_LINE_MS * r
        } else {
            0
        },
    decreases r,
{
    if r > 0 {
        lemma_back_cursor(q, (r - 1) as nat);
    }
}

/// A line that segments were assigned to spans from the earliest start to the
/// latest end among them; a line that none was assigned to has no span.
pub proof fn lemma_assigned_span(
    segments: Seq<(i64, i64, String)>,
    mapping: Seq<usize>,
    m: nat,
    count: nat,
    j: int,
)
    requires
        count <= mapping.len(),
        count <= segments.len(),
        forall|i: int| 0 <= i < count ==> mapping[i] < m,
        0 <= j < m,
    ensures
        line_spans(segments, mapping, m, count)[j] is None <==> (forall|i: int|
            0 <= i < count ==> mapping[i] != j),
        line_spans(segments, mapping, m, count)[j] matches Some((a, b)) ==> {
            &&& forall|i: int|
                0 <= i < count && mapping[i] == j ==> a <= (#[trigger] segments[i]).0 && segments[i].1 <= b
            &&& exists|i: int| 0 <= i < count && mapping[i] == j && a == (#[trigger] segments[i]).0
            &&& exists|i: int| 0 <= i < count && mapping[i] == j && b == (#[trigger] segments[i]).1
        },
    decreases count,
{
    lemma_line_spans_len(segments, mapping, m, count);
    if count > 0 {
        let c = (count - 1) as nat;
        lemma_assigned_span(segments, mapping, m, c, j);
        lemma_line_spans_len(segments, mapping, m, c);
        let prev = line_spans(segments, mapping, m, c);
        let cur = line_spans(segments, mapping, m, count);
        if mapping[c as int] == j {
            let t0 = segments[c as int].0;
            let t1 = segments[c as int].1;
            match prev[j] {
                Some((a, b)) => {
                    let wa = choose|i: int| 0 <= i < c && mapping[i] == j && a == (#[trigger] segments[i]).0;
                    let wb = choose|i: int| 0 <= i < c && mapping[i] == j && b == (#[trigger] segments[i]).1;
                    assert(cur[j] == Some((min_i64(a, t0), max_i64(b, t1))));
                    if a <= t0 {
                        assert(mapping[wa] == j && min_i64(a, t0) == segments[wa].0);
                    } else {
                        assert(mapping[c as int] == j && min_i64(a, t0) == segments[c as int].0);
                    }
                    if b >= t1 {
                        assert(mapping[wb] == j && max_i64(b, t1) == segments[wb].1);
                    } else {
                        assert(mapping[c as int] == j && max_i64(b, t1) == segments[c as int].1);
                    }
                },
                None => {
                    assert(cur[j] == Some((t0, t1)));
                    assert(forall|i: int| 0 <= i < count && mapping[i] == j ==> i == c);
                    assert(mapping[c as int] == j && t0 == segments[c as int].0);
                    assert(mapping[c as int] == j && t1 == segments[c as int].1);
                },
            }
        } else {
            assert(cur[j] == prev[j]);
        }
    }
}

proof fn lemma_run_bounds(spans: Seq<Option<(i64, i64)>>, k: nat)
    requires
        k < spans.len(),
    ensures
        run_start(spans, k) <= k < run_end(spans, k) <= spans.len(),
        run_start(spans, k) == 0 || spans[run_start(spans, k) - 1] is Some,
        run_end(spans, k) == spans.len() || spans[run_end(spans, k) as int] is Some,
    decreases spans.len() - k,
{
    lemma_run_start_bounds(spans, k);
    if !(k + 1 >= spans.len() || spans[k + 1 as int] is Some) {
        lemma_run_bounds(spans, k + 1);
    }
}

proof fn lemma_run_start_bounds(spans: Seq<Option<(i64, i64)>>, k: nat)
    ensures
        run_start(spans, k) <= k,
        run_start(spans, k) == 0 || spans[run_start(spans, k) - 1] is Some,
    decreases k,
{
    if !(k == 0 || spans[k - 1 as int] is Some) {
        lemma_run_start_bounds(spans, (k - 1) as nat);
    }
}

/// A run of span-less lines between two known lines, the later one starting
/// after the earlier one ends, is timed inside the gap, in order and without
/// overlap: every line of the run starts after the earlier known line ends,
/// does not end before it starts, ends no later than the later known line
/// starts, and ends no later than the next line of the run starts.
pub proof fn lemma_interpolated_inside_gap(spans: Seq<Option<(i64, i64)>>, k: nat, p: int, q: int)
    requires
        k < spans.len(),
        spans[k as int] is None,
        prev_known_end(spans, k) == Some(p),
        next_known_start(spans, k) == Some(q),
        q > p,
    ensures
        p < line_times(spans)[k as int].0 <= line_times(spans)[k as int].1 <= q,
        k + 1 < run_end(spans, k) ==> line_times(spans)[k as int].1 <= line_times(spans)[k + 1 as int].0,
{
    lemma_run_bounds(spans, k);
    let s = run_start(spans, k);
    let count = run_end(spans, k) - s;
    let rel = k - s;
    let span = q - p;
    let step = if span / (count + 1) >= 1 { span / (count + 1) } else { 1 };
    assert(step * (rel + 1) >= 1 && step * (rel + 2) == step * (rel + 1) + step) by (nonlinear_arith)
        requires
            step >= 1,
            rel >= 0,
    ;
    if k + 1 < run_end(spans, k) {
        let j = (k + 1) as nat;
        assert(spans[j as int] is None);
        assert(run_end(spans, k) == run_end(spans, j));
        assert(run_start(spans, j) == run_start(spans, k));
        assert(step * (j - s + 1) == step * (rel + 2));
    }
}

/// A run of span-less lines between two known lines, when the gap gives at
/// least one millisecond more than one per line of the run, is spread inside
/// the gap: each of its lines starts after the earlier known line ends, ends
/// after it starts, and ends no later than the later known line starts.
pub proof fn lemma_spread_inside_gap(spans: Seq<Option<(i64, i64)>>, k: nat, p: int, q: int)
    requires
        k < spans.len(),
        spans[k as int] is None,
        prev_known_end(spans, k) == Some(p),
        next_known_start(spans, k) == Some(q),
        q - p > run_end(spans, k) - run_start(spans, k),
    ensures
        p < line_times(spans)[k as int].0 < line_times(spans)[k as int].1 <= q,
{
    lemma_run_bounds(spans, k);
    let s = run_start(spans, k);
    let count = run_end(spans, k) - s;
    let rel = k - s;
    let span = q - p;
    let step = span / (count + 1);
    assert(step >= 1 && step * (count + 1) <= span) by (nonlinear_arith)
        requires
            span >= count + 1,
            count >= 1,
            step == span / (count + 1),
    ;
    assert(step * (rel + 1) + step <= span && step * (rel + 1) >= 1) by (nonlinear_arith)
        requires
            step >= 1,
            step * (count + 1) <= span,
            0 <= rel < count,
    ;
}

/// Inside a run of span-less lines that is not spread between two known
/// lines, every line starts where the line before it ends.
pub proof fn lemma_run_chained(spans: Seq<Option<(i64, i64)>>, k: nat)
    requires
        0 < k < spans.len(),
        spans[k as int] is None,
        !(prev_known_end(spans, k) is Some && next_known_start(spans, k) is Some
            && next_known_start(spans, k).unwrap() > prev_known_end(spans, k).unwrap()),
    ensures
        line_times(spans)[k as int].0 == line_times(spans)[k - 1].1,
{
    lemma_run_bounds(spans, k);
    if spans[k - 1] is None {
        let j = (k - 1) as nat;
        assert(run_start(spans, k) == run_start(spans, j));
        assert(run_end(spans, j) == run_end(spans, k));
        lemma_run_bounds(spans, j);
        let s = run_start(spans, k);
        let count = run_end(spans, k) - s;
        let rel = k - s;
        if prev_known_end(spans, k) is None && next_known_start(spans, k) is Some {
            assert((count - 1 - (rel - 1)) == count - rel);
        }
    }
}

/// A line with a span is timed by it.
pub proof fn lemma_assigned_line_time(spans: Seq<Option<(i64, i64)>>, k: int, a: i64, b: i64)
    requires
        0 <= k < spans.len(),
        spans[k] == Some((a, b)),
    ensures
        line_times(spans)[k] == (a as int, b as int),
{
}

/// The times of a run of lines `i..j` that received no segment, the line
/// before it (if any) ending at `p` and the line after it (if any) starting at
/// `q`; line `k` is the `(k - i)`-th of the run:
/// - with `q > p`: the gap is divided into `j - i + 1` equal steps (at least
///   1 ms each), line `k` starting `k - i + 1` steps after `p` and lasting one
///   step, no time going past `q`;
/// - with `p` but no later `q`: line `k` starts `2500 * (k - i)` ms after `p`
///   and lasts 2500 ms;
/// - with only `q`: line `k` ends `2500 * (j - 1 - k)` ms before `q` and lasts
///   2500 ms, no time going below 0;
/// - with neither: line `k` starts at `2500 * k` and lasts 2500 ms.
pub proof fn lemma_unassigned_run_times(spans: Seq<Option<(i64, i64)>>, i: int, j: int, k: int)
    requires
        0 <= i <= k < j <= spans.len(),
        forall|x: int| i <= x < j ==> spans[x] is None,
        i == 0 || spans[i - 1] is Some,
        j == spans.len() || spans[j] is Some,
    ensures
        ({
            let t = line_times(spans)[k];
            let has_p = i > 0;
            let has_q = j < spans.len();
            let p = if has_p { spans[i - 1].unwrap().1 as int } else { 0 };
            let q = if has_q { spans[j].unwrap().0 as int } else { 0 };
            if has_p && has_q && q > p {
                let step = if (q - p) / (j - i + 1) >= 1 { (q - p) / (j - i + 1) } else { 1 };
                let raw = p + step * (k - i + 1);
                let t0 = if raw <= q { raw } else { q };
                t == (t0, if t0 + step <= q { t0 + step } else { q })
            } else if has_p {
                t == (p + 2500 * (k - i), p + 2500 * (k - i) + 2500)
            } else if has_q {
                let e1 = q - 2500 * (j - 1 - k);
                let e0 = q - 2500 * (j - k);
                t == (if e0 >= 0 { e0 } else { 0 }, if k == j - 1 { q } else if e1 >= 0 { e1 } else { 0 })
            } else {
                t == (2500 * k, 2500 * k + 2500)
            }
        }),
{
    lemma_run_start(spans, i as nat, k as nat);
    lemma_run_end(spans, k as nat, j as nat);
    lemma_back_cursor(spans[j].unwrap().0 as int, (j - k) as nat);
    lemma_back_cursor(spans[j].unwrap().0 as int, (j - 1 - k) as nat);
}

/// The spans of the `m` lines after all of `mapping` was taken into account.
pub(crate) fn collect_spans(segments: &[(i64, i64, String)], mapping: &[usize], m: usize) -> (spans:
    Vec<Option<(i64, i64)>>)
    requires
        mapping@.len() <= segments@.len(),
        forall|i: int| 0 <= i < mapping@.len() ==> mapping@[i] < m,
    ensures
        spans@ == line_spans(segments@, mapping@, m as nat, mapping@.len()),
{
    let mut spans: Vec<Option<(i64, i64)>> = Vec::new();
    for j in 0..m
        invariant
            spans@ =~= Seq::new(j as nat, |_j: int| None::<(i64, i64)>),
    {
        spans.push(None);
    }
    for i in 0..mapping.len()
        invariant
            mapping@.len() <= segments@.len(),
            forall|x: int| 0 <= x < mapping@.len() ==> mapping@[x] < m,
            spans@ == line_spans(segments@, mapping@, m as nat, i as nat),
    {
        proof { lemma_line_spans_len(segments@, mapping@, m as nat, i as nat); }
        let j = mapping[i];
        let t0 = segments[i].0;
        let t1 = segments[i].1;
        let merged = match spans[j] {
            Some((a, b)) => Some((if a <= t0 { a } else { t0 }, if b >= t1 { b } else { t1 })),
            None => Some((t0, t1)),
        };
        spans.set(j, merged);
    }
    spans
}

pub open spec fn times_view(times: Seq<(i128, i128)>) -> Seq<(int, int)> {
    times.map_values(|t: (i128, i128)| (t.0 as int, t.1 as int))
}

pub open spec fn bounded_time(t: int) -> bool {
    -0x1_0000_0000_0000_0000_0000 < t < 0x1_0000_0000_0000_0000_0000
}

/// The first `n` times are far from the ends of `i128`.
pub open spec fn times_bounded(times: Seq<(i128, i128)>, n: int) -> bool {
    forall|k: int| 0 <= k < n ==> bounded_time(#[trigger] times[k].0 as int) && bounded_time(times[k].1 as int)
}

/// The time of every line (see `line_times`).
pub(crate) fn fill_line_times(spans: &Vec<Option<(i64, i64)>>) -> (times: Vec<(i128, i128)>)
    ensures
        times_view(times@) == line_times(spans@),
        times_bounded(times@, times@.len() as int),
{
    let m = spans.len();
    let ghost sp = spans@;
    let mut times: Vec<(i128, i128)> = Vec::new();
    let mut i: usize = 0;
    while i < m
        invariant
            m == sp.len(),
            sp == spans@,
            i <= m,
            times@.len() == i,
            i == 0 || i == m || sp[i - 1] is Some || sp[i as int] is Some,
            forall|k: int| 0 <= k < i ==> (#[trigger] times@[k].0 as int, times@[k].1 as int) == line_times(sp)[k],
            times_bounded(times@, i as int),
        decreases m - i,
    {
        match spans[i] {
            Some((a, b)) => {
                times.push((a as i128, b as i128));
                i = i + 1;
            },
            None => {
                let mut j: usize = i + 1;
                while j < m && spans[j].is_none()
                    invariant
                        m == sp.len(),
                        sp == spans@,
                        i < j <= m,
                        forall|x: int| i <= x < j ==> sp[x] is None,
                    decreases m - j,
                {
                    j = j + 1;
                }
                let count: usize = j - i;
                let prev_end: Option<i64> = if i > 0 {
                    match spans[i - 1] {
                        Some((_a, b)) => Some(b),
                        None => None,
                    }
                } else {
                    None
                };
                let next_start: Option<i64> = if j < m {
                    match spans[j] {
                        Some((a, _b)) => Some(a),
                        None => None,
                    }
                } else {
                    None
                };
                for k in 0..count
                    invariant
                        m == sp.len(),
                        sp == spans@,
                        i < j <= m,
                        count == j - i,
                        forall|x: int| i <= x < j ==> sp[x] is None,
                        i == 0 || sp[i - 1] is Some,
                        j == m || sp[j as int] is Some,
                        prev_end == (if i > 0 { Some(sp[i - 1].unwrap().1) } else { None::<i64> }),
                        next_start == (if j < m { Some(sp[j as int].unwrap().0) } else { None::<i64> }),
                        times@.len() == i + k,
                        forall|x: int|
                            0 <= x < i + k ==> (#[trigger] times@[x].0 as int, times@[x].1 as int)
                                == line_times(sp)[x],
                        times_bounded(times@, i + k),
                {
                    let ghost x: nat = (i + k) as nat;
                    proof {
                        lemma_run_start(sp, i as nat, x);
                        lemma_run_end(sp, x, j as nat);
                    }
                    let kk = k as i128;
                    let cnt = count as i128;
                    let t: (i128, i128) = match (prev_end, next_start) {
                        (Some(p), Some(q)) if q > p => {
                            let span = (q as i128) - (p as i128);
                            let mut step = span / (cnt + 1);
                            if step < 1 {
                                step = 1;
                            }
                            assert(step * (cnt + 1) <= span || step == 1) by (nonlinear_arith)
                                requires
                                    step == 1 || step as int == (span as int) / (cnt as int + 1),
                                    span > 0,
                                    cnt >= 1;
                            assert(0 <= step * (kk + 1) <= span + kk + 1) by (nonlinear_arith)
                                requires
                                    step * (cnt + 1) <= span || step == 1,
                                    step >= 1,
                                    0 <= kk < cnt,
                                    span > 0;
                            let raw = (p as i128) + step * (kk + 1);
                            let t0 = if raw <= (q as i128) { raw } else { q as i128 };
                            let t1 = if t0 + step <= (q as i128) { t0 + step } else { q as i128 };
                            (t0, t1)
                        },
                        (Some(p), _) => {
                            let t0 = (p as i128) + DEFAULT_LINE_MS * kk;
                            (t0, t0 + DEFAULT_LINE_MS)
                        },
                        (None, Some(q)) => {
                            proof {
                                lemma_back_cursor(q as int, (count - k) as nat);
                                lemma_back_cursor(q as int, (count - 1 - k) as nat);
                            }
                            let back0 = (q as i128) - DEFAULT_LINE_MS * (cnt - kk);
                            let t0 = if back0 >= 0 { back0 } else { 0 };
                            let t1 = if k + 1 == count {
                                q as i128
                            } else {
                                let back1 = (q as i128) - DEFAULT_LINE_MS * (cnt - kk - 1);
                                if back1 >= 0 { back1 } else { 0 }
                            };
                            (t0, t1)
                        },
                        (None, None) => {
                            let t0 = DEFAULT_LINE_MS * kk;
                            (t0, t0 + DEFAULT_LINE_MS)
                        },
                    };
                    times.push(t);
                }
                i = j;
            },
        }
    }
    assert(times_view(times@) =~= line_times(sp));
    times
}

/// Silences between consecutive segments longer than this (in milliseconds)
/// are reported.
pub const LONG_PAUSE_MS: i128 = 500;

/// Whether the silence between segment `i - 1` and segment `i` is long.
pub open spec fn long_pause_before(segments: Seq<(i64, i64, String)>, i: int) -> bool {
    segments[i].0 - segments[i - 1].1 > LONG_PAUSE_MS
}

/// The indices `i` in `1..k` with a long pause between segments `i - 1` and `i`,
/// in increasing order.
pub open spec fn long_pauses_upto(segments: Seq<(i64, i64, String)>, k: int) -> Seq<usize>
    decreases k,
{
    if k <= 1 {
        seq![]
    } else if long_pause_before(segments, k - 1) {
        long_pauses_upto(segments, k - 1).push((k - 1) as usize)
    } else {
        long_pauses_upto(segments, k - 1)
    }
}

/// Among the segments before `k`, exactly the indices with more than 500 ms
/// of silence before them are reported, each once and in increasing order.
pub proof fn lemma_long_pauses(segments: Seq<(i64, i64, String)>, k: int)
    requires
        0 <= k <= segments.len(),
        segments.len() <= usize::MAX,
    ensures
        forall|i: int|
            1 <= i < k ==> (long_pauses_upto(segments, k).contains(i as usize) <==> segments[i].0
                - segments[i - 1].1 > 500),
        forall|x: int|
            0 <= x < long_pauses_upto(segments, k).len() ==> 1 <= #[trigger] long_pauses_upto(
                segments,
                k,
            )[x] < k,
        forall|x: int, y: int|
            0 <= x < y < long_pauses_upto(segments, k).len() ==> long_pauses_upto(segments, k)[x]
                < long_pauses_upto(segments, k)[y],
    decreases k,
{
    if k > 1 {
        lemma_long_pauses(segments, k - 1);
        let prev = long_pauses_upto(segments, k - 1);
        let cur = long_pauses_upto(segments, k);
        let last = (k - 1) as usize;
        if long_pause_before(segments, k - 1) {
            assert(cur == prev.push(last));
        } else {
            assert(cur == prev);
        }
        assert forall|i: int|
            1 <= i < k implies (cur.contains(i as usize) <==> segments[i].0 - segments[i - 1].1
                > 500) by {
            if i < k - 1 {
                if cur.contains(i as usize) {
                    let x = choose|x: int| 0 <= x < cur.len() && cur[x] == i as usize;
                    if x == prev.len() {
                        assert(cur[x] == last);
                    } else {
                        assert(prev[x] == cur[x]);
                        assert(prev.contains(i as usize));
                    }
                }
                if prev.contains(i as usize) {
                    let x = choose|x: int| 0 <= x < prev.len() && prev[x] == i as usize;
                    assert(cur[x] == prev[x]);
                }
            } else {
                if cur.contains(i as usize) && !long_pause_before(segments, i) {
                    let x = choose|x: int| 0 <= x < cur.len() && cur[x] == i as usize;
                    assert(prev[x] < k - 1);
                }
                if long_pause_before(segments, i) {
                    assert(cur[cur.len() - 1] == i as usize);
                }
            }
        }
    }
}

/// The indices `i` such that more than 500 ms of silence lie between the end
/// of segment `i - 1` and the start of segment `i`.
pub fn long_pauses(segments: &[(i64, i64, String)]) -> (pauses: Vec<usize>)
    ensures
        pauses@ == long_pauses_upto(segments@, segments@.len() as int),
        forall|i: int|
            1 <= i < segments@.len() ==> (pauses@.contains(i as usize) <==> segments@[i].0
                - segments@[i - 1].1 > 500),
        forall|x: int| 0 <= x < pauses@.len() ==> 1 <= #[trigger] pauses@[x] < segments@.len(),
        forall|x: int, y: int| 0 <= x < y < pauses@.len() ==> pauses@[x] < pauses@[y],
{
    proof { lemma_long_pauses(segments@, segments@.len() as int); }
    let mut pauses: Vec<usize> = Vec::new();
    let n = segments.len();
    if n == 0 {
        return pauses;
    }
    for i in 1..n
        invariant
            n == segments@.len(),
            pauses@ == long_pauses_upto(segments@, i as int),
    {
        let gap = (segments[i].0 as i128) - (segments[i - 1].1 as i128);
        if gap > LONG_PAUSE_MS {
            pauses.push(i);
        }
    }
    pauses
}

} // verus!

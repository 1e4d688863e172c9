//! The integer side of aligning segments to text lines by dynamic time
//! warping: the search band and the backtracking over the decisions that the
//! cost comparisons produced.

use vstd::prelude::*;

verus! {

/// Half-width of the band of lines searched around a segment's expected line.
pub open spec fn window_spec(n: nat, m: nat) -> nat {
    let big = if n >= m { n } else { m };
    if big / 4 >= 3 { big / 4 } else { 3 }
}

/// The band `[lo, hi)` of lines searched for a segment whose expected line is
/// `expected`: `window` lines either side, cut at 0 and at `m`.
pub open spec fn band_spec(expected: nat, window: nat, m: nat) -> (nat, nat) {
    (
        if expected >= window { (expected - window) as nat } else { 0 },
        if expected + window + 1 <= m { expected + window + 1 } else { m },
    )
}

/// The line of the segment `steps` rows above the last one, when the path
/// starts at line `start` in the last row and moves one line back in every row
/// whose decision at the current line says the diagonal predecessor is best.
pub open spec fn backtrack_line(decisions: Seq<Seq<bool>>, start: nat, steps: nat) -> nat
    decreases steps,
{
    if steps == 0 {
        start
    } else {
        let c = backtrack_line(decisions, start, (steps - 1) as nat);
        let row = decisions.len() - steps;
        if decisions[row][c as int] && c > 0 {
            (c - 1) as nat
        } else {
            c
        }
    }
}

/// The largest of `s[0..=i]`.
pub open spec fn prefix_max(s: Seq<usize>, i: int) -> usize
    decreases i,
{
    if i <= 0 {
        s[0]
    } else {
        let p = prefix_max(s, i - 1);
        if s[i] > p { s[i] } else { p }
    }
}

pub open spec fn non_decreasing(s: Seq<usize>) -> bool {
    forall|i: int, j: int| 0 <= i <= j < s.len() ==> s[i] <= s[j]
}

/// The window is 3 for up to 15 segments and lines, else a quarter of the
/// larger count, rounded down.
pub proof fn lemma_window(n: nat, m: nat)
    ensures
        window_spec(n, m) >= 3,
        ({
            let big = if n >= m { n } else { m };
            &&& big < 16 ==> window_spec(n, m) == 3
            &&& big >= 12 ==> 4 * window_spec(n, m) <= big < 4 * window_spec(n, m) + 4
        }),
{
}

/// The band holds exactly the lines below `m` that lie within `window` of
/// `expected`.
pub proof fn lemma_band_members(expected: nat, window: nat, m: nat, j: nat)
    ensures
        ({
            let (lo, hi) = band_spec(expected, window, m);
            (lo <= j < hi) <==> (j < m && j <= expected + window && expected <= j + window)
        }),
{
}

/// The prefix maximum at `i` is one of the entries up to `i` and no entry up
/// to `i` exceeds it.
pub proof fn lemma_prefix_max_is_max(s: Seq<usize>, i: int)
    requires
        0 <= i < s.len(),
    ensures
        exists|j: int| 0 <= j <= i && prefix_max(s, i) == s[j],
        forall|j: int| 0 <= j <= i ==> s[j] <= #[trigger] prefix_max(s, i),
    decreases i,
{
    if i > 0 {
        lemma_prefix_max_is_max(s, i - 1);
        let p = prefix_max(s, i - 1);
        if s[i] <= p {
            let j = choose|j: int| 0 <= j <= i - 1 && p == s[j];
            assert(prefix_max(s, i) == s[j]);
        } else {
            assert(prefix_max(s, i) == s[i]);
        }
        assert forall|j: int| 0 <= j <= i implies s[j] <= #[trigger] prefix_max(s, i) by {
            if j < i {
                assert(s[j] <= prefix_max(s, i - 1));
            }
        }
    } else {
        assert(prefix_max(s, 0) == s[0]);
    }
}

/// Every prefix maximum is at least its own entry, and the prefix maxima do
/// not decrease.
pub proof fn lemma_prefix_max_non_decreasing(s: Seq<usize>)
    requires
        s.len() > 0,
    ensures
        forall|i: int| 0 <= i < s.len() ==> s[i] <= #[trigger] prefix_max(s, i),
        non_decreasing(Seq::new(s.len(), |i: int| prefix_max(s, i))),
{
    assert forall|i: int| 0 <= i < s.len() implies s[i] <= #[trigger] prefix_max(s, i) by {
        if i > 0 {
            assert(prefix_max(s, i) >= s[i]);
        }
    }
    let t = Seq::new(s.len(), |i: int| prefix_max(s, i));
    assert forall|i: int, j: int| 0 <= i <= j < t.len() implies t[i] <= t[j] by {
        lemma_prefix_max_mono(s, i, j);
    }
}

proof fn lemma_prefix_max_mono(s: Seq<usize>, i: int, j: int)
    requires
        0 <= i <= j,
    ensures
        prefix_max(s, i) <= prefix_max(s, j),
    decreases j - i,
{
    if i < j {
        lemma_prefix_max_mono(s, i, j - 1);
    }
}

/// A sequence that does not decrease is its own prefix maximum: making it
/// non-decreasing changes nothing.
pub proof fn lemma_prefix_max_of_sorted(s: Seq<usize>, i: int)
    requires
        non_decreasing(s),
        0 <= i < s.len(),
    ensures
        prefix_max(s, i) == s[i],
    decreases i,
{
    if i > 0 {
        lemma_prefix_max_of_sorted(s, i - 1);
    }
}

/// Going further back never moves the path to a later line.
pub proof fn lemma_backtrack_line_non_increasing(
    decisions: Seq<Seq<bool>>,
    start: nat,
    a: nat,
    b: nat,
)
    requires
        a <= b,
    ensures
        backtrack_line(decisions, start, b) <= backtrack_line(decisions, start, a),
    decreases b - a,
{
    if a < b {
        lemma_backtrack_line_non_increasing(decisions, start, a, (b - 1) as nat);
    }
}

/// The path ends at `start` in the last row; coming back from row `i` at
/// line `j`, it is in row `i - 1` at line `j - 1` where row `i` decides for
/// the diagonal predecessor at `j` (and `j > 0`), and at `j` otherwise.
pub proof fn lemma_backtrack_follows_decisions(decisions: Seq<Seq<bool>>, start: nat, i: int)
    requires
        0 < i < decisions.len(),
    ensures
        backtrack_line(decisions, start, 0) == start,
        ({
            let n = decisions.len();
            let j = backtrack_line(decisions, start, (n - 1 - i) as nat);
            backtrack_line(decisions, start, (n - i) as nat) == if decisions[i][j as int] && j > 0 {
                (j - 1) as nat
            } else {
                j
            }
        }),
{
    let n = decisions.len();
    assert((n - i) as nat - 1 == (n - 1 - i) as nat);
    assert(decisions.len() - ((n - i) as nat) == i);
}

/// Half-width of the search band for `n` segments and `m` lines.
pub fn dtw_window(n: usize, m: usize) -> (w: usize)
    ensures
        w == window_spec(n as nat, m as nat),
{
    let big = if n >= m { n } else { m };
    if big / 4 >= 3 { big / 4 } else { 3 }
}

/// The band `[lo, hi)` of lines searched around line `expected`.
pub fn dtw_band(expected: usize, window: usize, m: usize) -> (r: (usize, usize))
    requires
        expected + window + 1 <= usize::MAX,
    ensures
        (r.0 as nat, r.1 as nat) == band_spec(expected as nat, window as nat, m as nat),
{
    let lo = if expected >= window { expected - window } else { 0 };
    let hi = if expected + window + 1 <= m { expected + window + 1 } else { m };
    (lo, hi)
}

proof fn lemma_backtrack_line_bound(decisions: Seq<Seq<bool>>, start: nat, steps: nat)
    ensures
        backtrack_line(decisions, start, steps) <= start,
    decreases steps,
{
    if steps > 0 {
        lemma_backtrack_line_bound(decisions, start, (steps - 1) as nat);
    }
}

/// Makes `mapping` non-decreasing: every entry becomes the largest of the
/// entries up to it.
pub fn make_non_decreasing(mapping: &mut Vec<usize>)
    ensures
        final(mapping)@.len() == old(mapping)@.len(),
        forall|i: int| 0 <= i < old(mapping)@.len() ==> #[trigger] final(mapping)@[i] == prefix_max(old(mapping)@, i),
{
    let ghost orig = mapping@;
    let n = mapping.len();
    if n == 0 {
        return;
    }
    for i in 1..n
        invariant
            n == orig.len(),
            mapping@.len() == n,
            forall|k: int| 0 <= k < i ==> #[trigger] mapping@[k] == prefix_max(orig, k),
            forall|k: int| i <= k < n ==> #[trigger] mapping@[k] == orig[k],
    {
        if mapping[i] < mapping[i - 1] {
            let v = mapping[i - 1];
            mapping.set(i, v);
        }
    }
}

/// The line of every segment: the path starts at line `start` for the last
/// segment and goes back one row at a time, moving to the previous line where
/// `decisions[row][line]` says the diagonal predecessor is best (never below
/// line 0); the result is then made non-decreasing.
pub fn backtrack_alignment(decisions: &Vec<Vec<bool>>, start: usize) -> (mapping: Vec<usize>)
    requires
        decisions@.len() > 0,
        forall|i: int| 0 <= i < decisions@.len() ==> start < (#[trigger] decisions@[i])@.len(),
    ensures
        mapping@.len() == decisions@.len(),
        forall|i: int|
            0 <= i < mapping@.len() ==> #[trigger] mapping@[i] == prefix_max(
                Seq::new(
                    decisions@.len(),
                    |r: int|
                        backtrack_line(
                            decisions@.map_values(|row: Vec<bool>| row@),
                            start as nat,
                            (decisions@.len() - 1 - r) as nat,
                        ) as usize,
                ),
                i,
            ),
        forall|i: int|
            0 <= i < mapping@.len() ==> #[trigger] mapping@[i] == backtrack_line(
                decisions@.map_values(|row: Vec<bool>| row@),
                start as nat,
                (decisions@.len() - 1 - i) as nat,
            ),
        mapping@[mapping@.len() - 1] == start,
        forall|i: int|
            0 < i < mapping@.len() ==> mapping@[i - 1] == if #[trigger] decisions@[i]@[mapping@[i] as int]
                && mapping@[i] > 0 {
                (mapping@[i] - 1) as usize
            } else {
                mapping@[i]
            },
{
    let n = decisions.len();
    let ghost d = decisions@.map_values(|row: Vec<bool>| row@);
    let ghost path = Seq::new(
        n as nat,
        |r: int| backtrack_line(d, start as nat, (n - 1 - r) as nat) as usize,
    );
    let mut mapping: Vec<usize> = Vec::new();
    for r in 0..n
        invariant
            mapping@.len() == r,
    {
        mapping.push(0);
    }
    let mut j = start;
    mapping.set(n - 1, j);
    let mut i = n - 1;
    while i > 0
        invariant
            n == decisions@.len(),
            d == decisions@.map_values(|row: Vec<bool>| row@),
            path == Seq::new(
                n as nat,
                |r: int| backtrack_line(d, start as nat, (n - 1 - r) as nat) as usize,
            ),
            forall|k: int| 0 <= k < n ==> start < (#[trigger] decisions@[k])@.len(),
            i < n,
            mapping@.len() == n,
            j == backtrack_line(d, start as nat, (n - 1 - i) as nat),
            forall|k: int| i <= k < n ==> #[trigger] mapping@[k] == path[k],
        decreases i,
    {
        proof { lemma_backtrack_line_bound(d, start as nat, (n - 1 - i) as nat); }
        assert(d[i as int] == decisions@[i as int]@);
        if decisions[i][j] && j > 0 {
            j = j - 1;
        }
        mapping.set(i - 1, j);
        i = i - 1;
    }
    assert(mapping@ =~= path);
    proof {
        assert forall|a: int, b: int| 0 <= a <= b < path.len() implies path[a] <= path[b] by {
            lemma_backtrack_line_non_increasing(d, start as nat, (n - 1 - b) as nat, (n - 1 - a) as nat);
            lemma_backtrack_line_bound(d, start as nat, (n - 1 - b) as nat);
            lemma_backtrack_line_bound(d, start as nat, (n - 1 - a) as nat);
        }
    }
    make_non_decreasing(&mut mapping);
    proof {
        assert forall|i: int| 0 <= i < n implies #[trigger] mapping@[i] == path[i] by {
            lemma_prefix_max_of_sorted(path, i);
            lemma_backtrack_line_bound(d, start as nat, (n - 1 - i) as nat);
        }
        assert forall|i: int| 0 <= i < n implies #[trigger] mapping@[i] == backtrack_line(
            d,
            start as nat,
            (n - 1 - i) as nat,
        ) by {
            lemma_backtrack_line_bound(d, start as nat, (n - 1 - i) as nat);
            assert(mapping@[i] == path[i]);
        }
        assert forall|i: int| 0 < i < n implies mapping@[i - 1] == if #[trigger] decisions@[i]@[mapping@[i] as int]
            && mapping@[i] > 0 {
            (mapping@[i] - 1) as usize
        } else {
            mapping@[i]
        } by {
            lemma_backtrack_follows_decisions(d, start as nat, i);
            assert(d[i] == decisions@[i]@);
            assert(mapping@[i] == backtrack_line(d, start as nat, (n - 1 - i) as nat));
            assert(mapping@[i - 1] == backtrack_line(d, start as nat, (n - 1 - (i - 1)) as nat));
        }
    }
    mapping
}

} // verus!

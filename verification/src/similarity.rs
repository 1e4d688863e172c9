//! Character-bigram similarity of two texts, as an exact fraction.

use vstd::prelude::*;

verus! {

broadcast use vstd::string::group_string_axioms;

/// The set of pairs of adjacent characters of `s`, among its first `n` pairs.
pub open spec fn bigrams_upto(s: Seq<char>, n: int) -> Set<(char, char)> {
    Set::new(|p: (char, char)| exists|k: int| 0 <= k < n && k + 1 < s.len() && p == (#[trigger] s[k], s[k + 1]))
}

/// The set of pairs of adjacent characters of `s`.
pub open spec fn bigrams(s: Seq<char>) -> Set<(char, char)> {
    bigrams_upto(s, s.len() as int)
}

/// How many bigrams the two texts share, and how many distinct bigrams they
/// have together.
pub open spec fn bigram_overlap_spec(a: Seq<char>, b: Seq<char>) -> (nat, nat) {
    (bigrams(a).intersect(bigrams(b)).len(), bigrams(a).union(bigrams(b)).len())
}

/// The similarity of two texts as a fraction `(numerator, denominator)`:
/// 1 when both are empty, 0 when just one is, else the number of shared
/// bigrams over the number of distinct bigrams of both (0 when they have none).
pub open spec fn similarity_fraction_spec(a: Seq<char>, b: Seq<char>) -> (nat, nat) {
    if a.len() == 0 && b.len() == 0 {
        (1, 1)
    } else if a.len() == 0 || b.len() == 0 {
        (0, 1)
    } else {
        let (shared, all) = bigram_overlap_spec(a, b);
        if all == 0 {
            (0, 1)
        } else {
            (shared, all)
        }
    }
}

proof fn lemma_bigrams_upto_step(s: Seq<char>, i: int)
    requires
        0 <= i,
        i + 1 < s.len(),
    ensures
        bigrams_upto(s, i + 1) == bigrams_upto(s, i).insert((s[i], s[i + 1])),
{
    let p = (s[i], s[i + 1]);
    assert forall|q: (char, char)|
        bigrams_upto(s, i + 1).contains(q) == bigrams_upto(s, i).insert(p).contains(q) by {
        if bigrams_upto(s, i + 1).contains(q) {
            let k = choose|k: int| 0 <= k < i + 1 && k + 1 < s.len() && q == (#[trigger] s[k], s[k + 1]);
            if k < i {
                assert(bigrams_upto(s, i).contains(q));
            }
        }
        if q == p {
            assert(q == (s[i], s[i + 1]));
        }
    }
    assert(bigrams_upto(s, i + 1) =~= bigrams_upto(s, i).insert(p));
}

proof fn lemma_bigrams_upto_finite(s: Seq<char>, n: int)
    ensures
        bigrams_upto(s, n).finite(),
    decreases n,
{
    if n <= 0 {
        assert(bigrams_upto(s, n) =~= Set::empty());
    } else {
        lemma_bigrams_upto_finite(s, n - 1);
        if n < s.len() {
            lemma_bigrams_upto_step(s, n - 1);
        } else {
            assert(bigrams_upto(s, n) =~= bigrams_upto(s, n - 1));
        }
    }
}

/// Two empty texts are fully similar; an empty text and a non-empty one are
/// not similar at all.
pub proof fn lemma_similarity_with_empty(a: Seq<char>)
    ensures
        similarity_fraction_spec(Seq::<char>::empty(), Seq::<char>::empty()) == (1nat, 1nat),
        a.len() > 0 ==> similarity_fraction_spec(a, Seq::<char>::empty()) == (0nat, 1nat),
        a.len() > 0 ==> similarity_fraction_spec(Seq::<char>::empty(), a) == (0nat, 1nat),
{
}

/// A pair is a bigram of `s` exactly when it is two adjacent characters of `s`,
/// at any position.
pub proof fn lemma_bigrams_are_adjacent_pairs(s: Seq<char>, x: (char, char))
    ensures
        bigrams(s).contains(x) <==> exists|k: int| 0 <= k && k + 1 < s.len() && x == (#[trigger] s[k], s[k + 1]),
{
}

/// The similarity of two non-empty texts counts shared distinct bigrams over
/// all distinct bigrams of both, taken over every position of each text: it is
/// below 1 when some pair of adjacent characters of one text is nowhere
/// adjacent in the other.
pub proof fn lemma_unshared_bigram_lowers_similarity(a: Seq<char>, b: Seq<char>, k: int)
    requires
        0 <= k && k + 1 < a.len(),
        b.len() > 0,
        forall|m: int| 0 <= m && m + 1 < b.len() ==> (#[trigger] b[m], b[m + 1]) != (a[k], a[k + 1]),
    ensures
        similarity_fraction_spec(a, b).0 < similarity_fraction_spec(a, b).1,
{
    let sa = bigrams(a);
    let sb = bigrams(b);
    let x = (a[k], a[k + 1]);
    lemma_bigrams_are_adjacent_pairs(a, x);
    lemma_bigrams_are_adjacent_pairs(b, x);
    assert(sa.contains(x));
    assert(!sb.contains(x));
    lemma_bigrams_upto_finite(a, a.len() as int);
    lemma_bigrams_upto_finite(b, b.len() as int);
    let i = sa.intersect(sb);
    let u = sa.union(sb);
    assert(u.contains(x) && !i.contains(x));
    vstd::set_lib::lemma_len_subset(i, u.remove(x));
    assert(u.remove(x).len() + 1 == u.len());
}

/// Similarity does not depend on the order of the two texts, its denominator
/// is positive and its numerator is at most the denominator.
pub proof fn lemma_similarity_symmetric_bounded(a: Seq<char>, b: Seq<char>)
    ensures
        similarity_fraction_spec(a, b) == similarity_fraction_spec(b, a),
        similarity_fraction_spec(a, b).1 > 0,
        similarity_fraction_spec(a, b).0 <= similarity_fraction_spec(a, b).1,
{
    let sa = bigrams(a);
    let sb = bigrams(b);
    assert(sa.intersect(sb) =~= sb.intersect(sa));
    assert(sa.union(sb) =~= sb.union(sa));
    lemma_bigrams_upto_finite(a, a.len() as int);
    lemma_bigrams_upto_finite(b, b.len() as int);
    vstd::set_lib::lemma_len_subset(sa.intersect(sb), sa.union(sb));
}

/// A text with at least two characters, or the empty text, is fully similar
/// to itself.
pub proof fn lemma_similarity_self(a: Seq<char>)
    requires
        a.len() != 1,
    ensures
        similarity_fraction_spec(a, a).0 == similarity_fraction_spec(a, a).1,
{
    let sa = bigrams(a);
    assert(sa.intersect(sa) =~= sa);
    assert(sa.union(sa) =~= sa);
    if a.len() >= 2 {
        assert(sa.contains((a[0], a[1])));
        lemma_bigrams_upto_finite(a, a.len() as int);
        assert(sa.len() > 0);
    }
}

fn chars_of(s: &str) -> (v: Vec<char>)
    ensures
        v@ == s@,
{
    let mut v: Vec<char> = Vec::new();
    for c in it: s.chars()
        invariant
            v.len() == it.index(),
            forall|i: int| 0 <= i < v.len() ==> v@[i] == it.seq()[i],
    {
        v.push(c);
    }
    assert(v@ =~= s@);
    v
}

proof fn lemma_push_no_duplicates(s: Seq<(char, char)>, x: (char, char))
    requires
        s.no_duplicates(),
        !s.contains(x),
    ensures
        s.push(x).no_duplicates(),
        s.push(x).to_set() == s.to_set().insert(x),
{
    broadcast use vstd::seq::Seq::lemma_push_to_set_commute;

    let t = s.push(x);
    assert forall|a: int, b: int| 0 <= a < b < t.len() implies t[a] != t[b] by {
        if b == t.len() - 1 {
            assert(s.contains(t[a]));
        }
    }
}

fn contains_pair(v: &Vec<(char, char)>, p: (char, char)) -> (found: bool)
    ensures
        found == v@.contains(p),
{
    for i in 0..v.len()
        invariant
            forall|k: int| 0 <= k < i ==> v@[k] != p,
    {
        if v[i].0 == p.0 && v[i].1 == p.1 {
            assert(v@[i as int] == p);
            return true;
        }
    }
    false
}

/// The distinct bigrams of `cs`, each once.
fn distinct_bigrams(cs: &Vec<char>) -> (v: Vec<(char, char)>)
    ensures
        v@.no_duplicates(),
        v@.to_set() == bigrams(cs@),
{
    let mut v: Vec<(char, char)> = Vec::new();
    let n = cs.len();
    let mut i: usize = 0;
    assert(v@.to_set() =~= bigrams_upto(cs@, 0));
    while i + 1 < n
        invariant
            n == cs@.len(),
            i + 1 <= n || i == 0,
            v@.no_duplicates(),
            v@.to_set() == bigrams_upto(cs@, i as int),
        decreases n - i,
    {
        let p = (cs[i], cs[i + 1]);
        let ghost old_v = v@;
        if !contains_pair(&v, p) {
            proof { lemma_push_no_duplicates(old_v, p); }
            v.push(p);
        } else {
            assert(old_v.to_set().contains(p));
            assert(old_v.to_set().insert(p) =~= old_v.to_set());
        }
        proof { lemma_bigrams_upto_step(cs@, i as int); }
        assert(v@.to_set() =~= old_v.to_set().insert(p));
        assert(v@.to_set() =~= bigrams_upto(cs@, i + 1));
        i = i + 1;
    }
    assert(bigrams_upto(cs@, i as int) =~= bigrams(cs@));
    v
}

/// The number of bigrams that `a` and `b` share and the number of distinct
/// bigrams of both.
pub fn bigram_overlap(a: &str, b: &str) -> (r: (usize, usize))
    ensures
        r.0 == bigram_overlap_spec(a@, b@).0,
        r.1 == bigram_overlap_spec(a@, b@).1,
{
    let ca = chars_of(a);
    let cb = chars_of(b);
    let va = distinct_bigrams(&ca);
    let vb = distinct_bigrams(&cb);
    let ghost sa = va@.to_set();
    let ghost sb = vb@.to_set();
    let mut shared: Vec<(char, char)> = Vec::new();
    assert(shared@.to_set() =~= va@.take(0).to_set().intersect(sb));
    for i in 0..va.len()
        invariant
            va@.no_duplicates(),
            sb == vb@.to_set(),
            shared@.no_duplicates(),
            shared@.to_set() == va@.take(i as int).to_set().intersect(sb),
    {
        let p = va[i];
        let ghost old_s = shared@;
        assert(va@.take(i + 1) =~= va@.take(i as int).push(p));
        proof { va@.take(i as int).lemma_push_to_set_commute(p); }
        if contains_pair(&vb, p) {
            assert(!old_s.contains(p)) by {
                if old_s.contains(p) {
                    assert(old_s.to_set().contains(p));
                    let k = choose|k: int| 0 <= k < i && va@.take(i as int)[k] == p;
                    assert(va@[k] == va@[i as int]);
                }
            }
            proof { lemma_push_no_duplicates(old_s, p); }
            shared.push(p);
            assert(sb.contains(p));
        } else {
            assert(!sb.contains(p));
        }
        assert(shared@.to_set() =~= va@.take(i + 1).to_set().intersect(sb));
    }
    let mut all: Vec<(char, char)> = Vec::new();
    for i in 0..va.len()
        invariant
            va@.no_duplicates(),
            all@ == va@.take(i as int),
    {
        all.push(va[i]);
        assert(va@.take(i + 1) =~= va@.take(i as int).push(va@[i as int]));
    }
    assert(va@.take(va@.len() as int) =~= va@);
    for i in 0..vb.len()
        invariant
            sa == va@.to_set(),
            sb == vb@.to_set(),
            vb@.no_duplicates(),
            all@.no_duplicates(),
            all@.to_set() == sa.union(vb@.take(i as int).to_set()),
    {
        let p = vb[i];
        let ghost old_all = all@;
        assert(vb@.take(i + 1) =~= vb@.take(i as int).push(p));
        proof { vb@.take(i as int).lemma_push_to_set_commute(p); }
        if !contains_pair(&va, p) {
            assert(!old_all.contains(p)) by {
                if old_all.contains(p) {
                    assert(old_all.to_set().contains(p));
                    assert(vb@.take(i as int).to_set().contains(p));
                    let k = choose|k: int| 0 <= k < i && vb@.take(i as int)[k] == p;
                    assert(vb@[k] == vb@[i as int]);
                }
            }
            proof { lemma_push_no_duplicates(old_all, p); }
            all.push(p);
        } else {
            assert(sa.contains(p));
        }
        assert(all@.to_set() =~= sa.union(vb@.take(i + 1).to_set()));
    }
    proof {
        assert(vb@.take(vb@.len() as int) =~= vb@);
        shared@.unique_seq_to_set();
        all@.unique_seq_to_set();
        assert(va@.take(va@.len() as int) =~= va@);
    }
    (shared.len(), all.len())
}

/// The bigram similarity of `a` and `b` as a fraction `(numerator, denominator)`
/// (see `similarity_fraction_spec`); the denominator is never 0.
pub fn similarity_fraction(a: &str, b: &str) -> (r: (usize, usize))
    ensures
        r.0 == similarity_fraction_spec(a@, b@).0,
        r.1 == similarity_fraction_spec(a@, b@).1,
        r.1 > 0,
{
    let a_empty = a.unicode_len() == 0;
    let b_empty = b.unicode_len() == 0;
    if a_empty && b_empty {
        (1, 1)
    } else if a_empty || b_empty {
        (0, 1)
    } else {
        let (shared, all) = bigram_overlap(a, b);
        if all == 0 {
            (0, 1)
        } else {
            (shared, all)
        }
    }
}

} // verus!

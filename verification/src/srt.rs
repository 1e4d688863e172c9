//! SRT time codes and documents.

use vstd::prelude::*;
use crate::decimal::{
    all_digits, decimal_digits, decimal_value, digit_value, lemma_decimal_digits, lemma_zero_padded,
    padded_int, push_decimal, push_padded, zero_padded,
};
use crate::timeline::{
    bounded_time, collect_spans, fill_line_times, line_spans, line_times, times_bounded, times_view,
};

verus! {

/// Integer division that rounds towards zero, as `/` on Rust's signed integers.
pub open spec fn trunc_div(a: int, b: int) -> int {
    if a >= 0 {
        a / b
    } else {
        -((-a) / b)
    }
}

/// The remainder that goes with `trunc_div`, as `%` on Rust's signed integers.
pub open spec fn trunc_rem(a: int, b: int) -> int {
    a - b * trunc_div(a, b)
}

/// The SRT time code `HH:MM:SS,mmm` of a time in milliseconds; each field is
/// printed as Rust prints it with a zero-padded width (so hours may take more
/// than two digits, and a negative time prints negative fields).
pub open spec fn srt_time_text(ms: int) -> Seq<char> {
    let secs = trunc_div(ms, 1000);
    let msecs = trunc_rem(ms, 1000);
    let mins = trunc_div(secs, 60);
    let hours = trunc_div(mins, 60);
    padded_int(hours, 2) + seq![':'] + padded_int(trunc_rem(mins, 60), 2) + seq![':']
        + padded_int(trunc_rem(secs, 60), 2) + seq![','] + padded_int(msecs, 3)
}

/// For a time that is not negative, the four fields of its time code are in
/// range and put back together give the time.
pub proof fn lemma_time_fields_recompose(ms: int)
    requires
        ms >= 0,
    ensures
        ({
            let secs = trunc_div(ms, 1000);
            let mins = trunc_div(secs, 60);
            let hours = trunc_div(mins, 60);
            &&& hours >= 0
            &&& 0 <= trunc_rem(mins, 60) < 60
            &&& 0 <= trunc_rem(secs, 60) < 60
            &&& 0 <= trunc_rem(ms, 1000) < 1000
            &&& hours * 3_600_000 + trunc_rem(mins, 60) * 60_000 + trunc_rem(secs, 60) * 1000
                + trunc_rem(ms, 1000) == ms
        }),
{
    let secs = ms / 1000;
    let mins = secs / 60;
    let hours = mins / 60;
    assert(secs * 1000 + ms % 1000 == ms);
    assert(mins * 60 + secs % 60 == secs);
    assert(hours * 60 + mins % 60 == mins);
    assert(hours * 3_600_000 + (mins % 60) * 60_000 + (secs % 60) * 1000 + ms % 1000 == ms)
        by (nonlinear_arith)
        requires
            secs * 1000 + ms % 1000 == ms,
            mins * 60 + secs % 60 == secs,
            hours * 60 + mins % 60 == mins,
    ;
}

/// Whether `t` has the shape `H:MM:SS,mmm`: at least two hour digits, then two
/// minute, two second and three millisecond digits, with the separators.
pub open spec fn time_code_shaped(t: Seq<char>) -> bool {
    let n = t.len() as int;
    &&& n >= 12
    &&& t[n - 10] == ':'
    &&& t[n - 7] == ':'
    &&& t[n - 4] == ','
    &&& all_digits(t.take(n - 10))
    &&& all_digits(t.subrange(n - 9, n - 7))
    &&& all_digits(t.subrange(n - 6, n - 4))
    &&& all_digits(t.skip(n - 3))
}

/// The hours, minutes, seconds and milliseconds that a time code of the shape
/// `H:MM:SS,mmm` reads as.
pub open spec fn time_code_fields(t: Seq<char>) -> (int, int, int, int) {
    let n = t.len() as int;
    (
        decimal_value(t.take(n - 10)),
        decimal_value(t.subrange(n - 9, n - 7)),
        decimal_value(t.subrange(n - 6, n - 4)),
        decimal_value(t.skip(n - 3)),
    )
}

/// The time in milliseconds that a time code of the shape `H:MM:SS,mmm` reads as.
pub open spec fn time_code_value(t: Seq<char>) -> int {
    let (h, m, s, f) = time_code_fields(t);
    h * 3_600_000 + m * 60_000 + s * 1000 + f
}

/// For a time that is not negative, the time code has the shape
/// `H:MM:SS,mmm`, its minutes and seconds are below 60, and reading it back
/// gives the time.
pub proof fn lemma_time_code_reads_back(ms: int)
    requires
        ms >= 0,
    ensures
        time_code_shaped(srt_time_text(ms)),
        time_code_fields(srt_time_text(ms)).1 < 60,
        time_code_fields(srt_time_text(ms)).2 < 60,
        time_code_value(srt_time_text(ms)) == ms,
{
    lemma_time_fields_recompose(ms);
    let secs = trunc_div(ms, 1000);
    let mins = trunc_div(secs, 60);
    let h = trunc_div(mins, 60) as nat;
    let m = trunc_rem(mins, 60) as nat;
    let sc = trunc_rem(secs, 60) as nat;
    let f = trunc_rem(ms, 1000) as nat;
    lemma_decimal_digits(h);
    lemma_decimal_digits(m);
    lemma_decimal_digits(sc);
    lemma_decimal_digits(f);
    lemma_zero_padded(decimal_digits(h), 2);
    lemma_zero_padded(decimal_digits(m), 2);
    lemma_zero_padded(decimal_digits(sc), 2);
    lemma_zero_padded(decimal_digits(f), 3);
    let hs = zero_padded(decimal_digits(h), 2);
    let msx = zero_padded(decimal_digits(m), 2);
    let ss = zero_padded(decimal_digits(sc), 2);
    let fs = zero_padded(decimal_digits(f), 3);
    let t = srt_time_text(ms);
    assert(t == hs + seq![':'] + msx + seq![':'] + ss + seq![','] + fs);
    assert(msx.len() == 2 && ss.len() == 2 && fs.len() == 3 && hs.len() >= 2);
    let n = t.len() as int;
    assert(n == hs.len() + 10);
    assert(t.take(n - 10) =~= hs);
    assert(t.subrange(n - 9, n - 7) =~= msx);
    assert(t.subrange(n - 6, n - 4) =~= ss);
    assert(t.skip(n - 3) =~= fs);
}

/// Lexicographic order of character strings, as strings compare.
pub open spec fn lex_less(a: Seq<char>, b: Seq<char>) -> bool {
    ||| exists|i: int|
        0 <= i < a.len() && i < b.len() && a.take(i) == b.take(i) && ((#[trigger] a[i]) as u32) < (
        b[i] as u32)
    ||| (a.len() < b.len() && a == b.take(a.len() as int))
}

/// Lexicographic order of two strings of the same length, decided from the back.
pub open spec fn lex_less_back(a: Seq<char>, b: Seq<char>) -> bool
    decreases a.len(),
{
    if a.len() == 0 || b.len() == 0 {
        false
    } else {
        lex_less_back(a.drop_last(), b.drop_last()) || (a.drop_last() == b.drop_last() && (
        a.last() as u32) < (b.last() as u32))
    }
}

proof fn lemma_lex_less_back(a: Seq<char>, b: Seq<char>)
    requires
        a.len() == b.len(),
    ensures
        lex_less(a, b) == lex_less_back(a, b),
    decreases a.len(),
{
    if a.len() > 0 {
        let a1 = a.drop_last();
        let b1 = b.drop_last();
        let n = a.len() - 1;
        lemma_lex_less_back(a1, b1);
        if lex_less(a, b) {
            let i = choose|i: int|
                0 <= i < a.len() && i < b.len() && a.take(i) == b.take(i) && ((#[trigger] a[i])
                    as u32) < (b[i] as u32);
            if i < n {
                assert(a1.take(i) =~= a.take(i));
                assert(b1.take(i) =~= b.take(i));
                assert(a1[i] == a[i]);
                assert(lex_less(a1, b1));
            } else {
                assert(a1 =~= a.take(i));
                assert(b1 =~= b.take(i));
            }
        }
        if lex_less_back(a, b) {
            if lex_less_back(a1, b1) {
                let i = choose|i: int|
                    0 <= i < a1.len() && i < b1.len() && a1.take(i) == b1.take(i) && ((
                    #[trigger] a1[i]) as u32) < (b1[i] as u32);
                assert(a1.take(i) =~= a.take(i));
                assert(b1.take(i) =~= b.take(i));
                assert(a[i] == a1[i]);
            } else {
                assert(a1 =~= a.take(n));
                assert(b1 =~= b.take(n));
                assert(a.take(n) == b.take(n) && (a[n] as u32) < (b[n] as u32));
            }
        }
    }
}

proof fn lemma_lex_concat(u1: Seq<char>, u2: Seq<char>, v1: Seq<char>, v2: Seq<char>)
    requires
        u1.len() == u2.len(),
        v1.len() == v2.len(),
    ensures
        lex_less_back(u1 + v1, u2 + v2) == (lex_less_back(u1, u2) || (u1 == u2 && lex_less_back(
            v1,
            v2,
        ))),
        (u1 + v1 == u2 + v2) == (u1 == u2 && v1 == v2),
    decreases v1.len(),
{
    if u1 + v1 == u2 + v2 {
        assert(u1 =~= (u1 + v1).take(u1.len() as int));
        assert(u2 =~= (u2 + v2).take(u1.len() as int));
        assert(v1 =~= (u1 + v1).skip(u1.len() as int));
        assert(v2 =~= (u2 + v2).skip(u1.len() as int));
    }
    if v1.len() == 0 {
        assert(u1 + v1 =~= u1);
        assert(u2 + v2 =~= u2);
    } else {
        lemma_lex_concat(u1, u2, v1.drop_last(), v2.drop_last());
        assert((u1 + v1).drop_last() =~= u1 + v1.drop_last());
        assert((u2 + v2).drop_last() =~= u2 + v2.drop_last());
        assert((u1 + v1).last() == v1.last());
        assert((u2 + v2).last() == v2.last());
        if v1.drop_last() == v2.drop_last() && v1.last() == v2.last() {
            assert forall|i: int| 0 <= i < v1.len() implies v1[i] == v2[i] by {
                if i < v1.len() - 1 {
                    assert(v1[i] == v1.drop_last()[i] && v2[i] == v2.drop_last()[i]);
                }
            }
            assert(v1 =~= v2);
        }
        if v1 == v2 {
            assert(v1.drop_last() == v2.drop_last());
        }
    }
}

proof fn lemma_lex_digits(a: Seq<char>, b: Seq<char>)
    requires
        a.len() == b.len(),
        all_digits(a),
        all_digits(b),
    ensures
        lex_less_back(a, b) == (decimal_value(a) < decimal_value(b)),
        (a == b) == (decimal_value(a) == decimal_value(b)),
    decreases a.len(),
{
    if a.len() > 0 {
        let a1 = a.drop_last();
        let b1 = b.drop_last();
        assert(all_digits(a1) && all_digits(b1)) by {
            assert forall|i: int| 0 <= i < a1.len() implies crate::decimal::is_digit(#[trigger] a1[i]) by {
                assert(a1[i] == a[i]);
            }
            assert forall|i: int| 0 <= i < b1.len() implies crate::decimal::is_digit(#[trigger] b1[i]) by {
                assert(b1[i] == b[i]);
            }
        }
        lemma_lex_digits(a1, b1);
        let la = a.last();
        let lb = b.last();
        assert(crate::decimal::is_digit(a[a.len() - 1]));
        assert(crate::decimal::is_digit(b[b.len() - 1]));
        assert(0 <= digit_value(la) <= 9);
        assert(0 <= digit_value(lb) <= 9);
        if decimal_value(a) == decimal_value(b) {
            assert(decimal_value(a) == decimal_value(a1) * 10 + digit_value(la));
            assert(decimal_value(b) == decimal_value(b1) * 10 + digit_value(lb));
            assert(decimal_value(a1) == decimal_value(b1));
            assert(digit_value(la) == digit_value(lb));
            assert(la == lb);
        }
        if a1 == b1 && la == lb {
            assert forall|i: int| 0 <= i < a.len() implies a[i] == b[i] by {
                if i < a.len() - 1 {
                    assert(a[i] == a1[i] && b[i] == b1[i]);
                }
            }
            assert(a =~= b);
        }
    } else {
        assert(a =~= b);
    }
}

proof fn lemma_lex_irreflexive(a: Seq<char>)
    ensures
        !lex_less_back(a, a),
    decreases a.len(),
{
    if a.len() > 0 {
        lemma_lex_irreflexive(a.drop_last());
    }
}

/// The four numbers of a time code, each as printed.
pub open spec fn time_code_pieces(ms: int) -> Seq<Seq<char>> {
    let secs = trunc_div(ms, 1000);
    let mins = trunc_div(secs, 60);
    seq![
        padded_int(trunc_div(mins, 60), 2),
        padded_int(trunc_rem(mins, 60), 2),
        padded_int(trunc_rem(secs, 60), 2),
        padded_int(trunc_rem(ms, 1000), 3),
    ]
}

/// Four pieces joined as a time code is.
pub open spec fn join_time_code(p: Seq<Seq<char>>) -> Seq<char> {
    p[0] + seq![':'] + p[1] + seq![':'] + p[2] + seq![','] + p[3]
}

proof fn lemma_time_code_pieces(ms: int)
    requires
        0 <= ms < 360_000_000,
    ensures
        srt_time_text(ms) == join_time_code(time_code_pieces(ms)),
        forall|k: int| 0 <= k < 4 ==> all_digits(#[trigger] time_code_pieces(ms)[k]),
        time_code_pieces(ms)[0].len() == 2,
        time_code_pieces(ms)[1].len() == 2,
        time_code_pieces(ms)[2].len() == 2,
        time_code_pieces(ms)[3].len() == 3,
        decimal_value(time_code_pieces(ms)[0]) * 3_600_000 + decimal_value(time_code_pieces(ms)[1])
            * 60_000 + decimal_value(time_code_pieces(ms)[2]) * 1000 + decimal_value(
            time_code_pieces(ms)[3],
        ) == ms,
        0 <= decimal_value(time_code_pieces(ms)[0]),
        0 <= decimal_value(time_code_pieces(ms)[1]) < 60,
        0 <= decimal_value(time_code_pieces(ms)[2]) < 60,
        0 <= decimal_value(time_code_pieces(ms)[3]) < 1000,
{
    lemma_time_fields_recompose(ms);
    let secs = trunc_div(ms, 1000);
    let mins = trunc_div(secs, 60);
    let v = seq![trunc_div(mins, 60), trunc_rem(mins, 60), trunc_rem(secs, 60), trunc_rem(ms, 1000)];
    assert(v[0] < 100);
    let p = time_code_pieces(ms);
    assert forall|k: int| 0 <= k < 4 implies {
        &&& all_digits(#[trigger] p[k])
        &&& decimal_value(p[k]) == v[k]
        &&& p[k].len() == if k == 3 { 3int } else { 2int }
    } by {
        let w: nat = if k == 3 { 3 } else { 2 };
        lemma_decimal_digits(v[k] as nat);
        lemma_zero_padded(decimal_digits(v[k] as nat), w);
    }
    assert(p[0].len() == 2);
    assert(p[3].len() == 3);
}

/// For pieces of digits of equal lengths, joined as time codes, the order of
/// the joined strings is the order of the pieces' numbers taken in turn.
proof fn lemma_join_order(pa: Seq<Seq<char>>, pb: Seq<Seq<char>>)
    requires
        pa.len() == 4,
        pb.len() == 4,
        forall|k: int| 0 <= k < 4 ==> all_digits(#[trigger] pa[k]) && all_digits(pb[k]) && pa[k].len() == pb[k].len(),
    ensures
        lex_less_back(join_time_code(pa), join_time_code(pb)) == ({
            let (a0, a1, a2, a3) = (decimal_value(pa[0]), decimal_value(pa[1]), decimal_value(pa[2]), decimal_value(pa[3]));
            let (b0, b1, b2, b3) = (decimal_value(pb[0]), decimal_value(pb[1]), decimal_value(pb[2]), decimal_value(pb[3]));
            ||| a0 < b0
            ||| a0 == b0 && a1 < b1
            ||| a0 == b0 && a1 == b1 && a2 < b2
            ||| a0 == b0 && a1 == b1 && a2 == b2 && a3 < b3
        }),
        (join_time_code(pa) == join_time_code(pb)) == (decimal_value(pa[0]) == decimal_value(pb[0])
            && decimal_value(pa[1]) == decimal_value(pb[1]) && decimal_value(pa[2]) == decimal_value(
            pb[2]) && decimal_value(pa[3]) == decimal_value(pb[3])),
{
    let c1 = seq![':'];
    let c3 = seq![','];
    assert(all_digits(pa[0]) && all_digits(pb[0]) && pa[0].len() == pb[0].len());
    assert(all_digits(pa[1]) && all_digits(pb[1]) && pa[1].len() == pb[1].len());
    assert(all_digits(pa[2]) && all_digits(pb[2]) && pa[2].len() == pb[2].len());
    assert(all_digits(pa[3]) && all_digits(pb[3]) && pa[3].len() == pb[3].len());
    lemma_lex_digits(pa[0], pb[0]);
    lemma_lex_digits(pa[1], pb[1]);
    lemma_lex_digits(pa[2], pb[2]);
    lemma_lex_digits(pa[3], pb[3]);
    lemma_lex_irreflexive(c1);
    lemma_lex_irreflexive(c3);
    lemma_lex_concat(pa[0], pb[0], c1, c1);
    lemma_lex_concat(pa[0] + c1, pb[0] + c1, pa[1], pb[1]);
    lemma_lex_concat(pa[0] + c1 + pa[1], pb[0] + c1 + pb[1], c1, c1);
    lemma_lex_concat(pa[0] + c1 + pa[1] + c1, pb[0] + c1 + pb[1] + c1, pa[2], pb[2]);
    lemma_lex_concat(pa[0] + c1 + pa[1] + c1 + pa[2], pb[0] + c1 + pb[1] + c1 + pb[2], c3, c3);
    lemma_lex_concat(
        pa[0] + c1 + pa[1] + c1 + pa[2] + c3,
        pb[0] + c1 + pb[1] + c1 + pb[2] + c3,
        pa[3],
        pb[3],
    );
}

proof fn lemma_mixed_radix_order(
    a0: int,
    a1: int,
    a2: int,
    a3: int,
    b0: int,
    b1: int,
    b2: int,
    b3: int,
)
    requires
        a0 >= 0,
        b0 >= 0,
        0 <= a1 < 60,
        0 <= b1 < 60,
        0 <= a2 < 60,
        0 <= b2 < 60,
        0 <= a3 < 1000,
        0 <= b3 < 1000,
    ensures
        ({
            ||| a0 < b0
            ||| a0 == b0 && a1 < b1
            ||| a0 == b0 && a1 == b1 && a2 < b2
            ||| a0 == b0 && a1 == b1 && a2 == b2 && a3 < b3
        }) == (a0 * 3_600_000 + a1 * 60_000 + a2 * 1000 + a3 < b0 * 3_600_000 + b1 * 60_000 + b2
            * 1000 + b3),
        (a0 == b0 && a1 == b1 && a2 == b2 && a3 == b3) == (a0 * 3_600_000 + a1 * 60_000 + a2 * 1000
            + a3 == b0 * 3_600_000 + b1 * 60_000 + b2 * 1000 + b3),
{
    let ra = a1 * 60_000 + a2 * 1000 + a3;
    let rb = b1 * 60_000 + b2 * 1000 + b3;
    assert(0 <= ra < 3_600_000 && 0 <= rb < 3_600_000);
    if a0 < b0 {
        assert(a0 * 3_600_000 + 3_600_000 <= b0 * 3_600_000);
    } else if b0 < a0 {
        assert(b0 * 3_600_000 + 3_600_000 <= a0 * 3_600_000);
    } else {
        let qa = a2 * 1000 + a3;
        let qb = b2 * 1000 + b3;
        assert(0 <= qa < 60_000 && 0 <= qb < 60_000);
        if a1 < b1 {
            assert(a1 * 60_000 + 60_000 <= b1 * 60_000);
        } else if b1 < a1 {
            assert(b1 * 60_000 + 60_000 <= a1 * 60_000);
        } else {
            if a2 < b2 {
                assert(a2 * 1000 + 1000 <= b2 * 1000);
            } else if b2 < a2 {
                assert(b2 * 1000 + 1000 <= a2 * 1000);
            }
        }
    }
}

/// Below 100 hours, time codes order as the times do, so different times
/// get different time codes.
pub proof fn lemma_time_code_order(a: int, b: int)
    requires
        0 <= a < 360_000_000,
        0 <= b < 360_000_000,
    ensures
        lex_less(srt_time_text(a), srt_time_text(b)) == (a < b),
        (srt_time_text(a) == srt_time_text(b)) == (a == b),
{
    lemma_time_code_pieces(a);
    lemma_time_code_pieces(b);
    let pa = time_code_pieces(a);
    let pb = time_code_pieces(b);
    assert forall|k: int| 0 <= k < 4 implies all_digits(#[trigger] pa[k]) && all_digits(pb[k])
        && pa[k].len() == pb[k].len() by {
        assert(all_digits(pa[k]) && all_digits(pb[k]));
    }
    lemma_join_order(pa, pb);
    lemma_mixed_radix_order(
        decimal_value(pa[0]),
        decimal_value(pa[1]),
        decimal_value(pa[2]),
        decimal_value(pa[3]),
        decimal_value(pb[0]),
        decimal_value(pb[1]),
        decimal_value(pb[2]),
        decimal_value(pb[3]),
    );
    lemma_lex_less_back(srt_time_text(a), srt_time_text(b));
}

/// Appends the time code of `ms`.
pub(crate) fn push_srt_time(out: &mut String, ms: i128)
    requires
        ms > i128::MIN,
    ensures
        final(out)@ == old(out)@ + srt_time_text(ms as int),
{
    let negative = ms < 0;
    let a: u128 = if negative { (-ms) as u128 } else { ms as u128 };
    let secs = a / 1000;
    let msecs = a % 1000;
    let mins = secs / 60;
    let hours = mins / 60;
    let ghost start = out@;
    push_padded(out, negative, hours, 2);
    proof { reveal_strlit(":"); }
    out.append(":");
    push_padded(out, negative, mins % 60, 2);
    out.append(":");
    push_padded(out, negative, secs % 60, 2);
    proof { reveal_strlit(","); }
    out.append(",");
    push_padded(out, negative, msecs, 3);
    proof {
        let m = ms as int;
        let sv = trunc_div(m, 1000);
        let mv = trunc_div(sv, 60);
        if negative {
            assert(sv == -(secs as int));
            assert(trunc_rem(m, 1000) == -(msecs as int));
            assert(mv == -(mins as int));
            assert(trunc_div(mv, 60) == -(hours as int));
            assert(trunc_rem(mv, 60) == -((mins % 60) as int));
            assert(trunc_rem(sv, 60) == -((secs % 60) as int));
        } else {
            assert(sv == secs as int);
            assert(mv == mins as int);
        }
        assert(out@ =~= start + srt_time_text(m));
    }
}

/// The SRT time code (`HH:MM:SS,mmm`) of `ms` milliseconds.
pub fn format_srt_time(ms: i64) -> (s: String)
    ensures
        s@ == srt_time_text(ms as int),
{
    let mut s = String::new();
    push_srt_time(&mut s, ms as i128);
    s
}

/// One SRT entry: its number, its time codes and its text.
pub open spec fn srt_entry(number: nat, t0: int, t1: int, line: Seq<char>) -> Seq<char> {
    decimal_digits(number) + seq!['\n'] + srt_time_text(t0) + seq![' ', '-', '-', '>', ' ']
        + srt_time_text(t1) + seq!['\n'] + line + seq!['\n', '\n']
}

/// The SRT document of the first `count` lines, numbered from 1.
pub open spec fn srt_document(lines: Seq<Seq<char>>, times: Seq<(int, int)>, count: nat) -> Seq<
    char,
>
    decreases count,
{
    if count == 0 {
        seq![]
    } else {
        srt_document(lines, times, (count - 1) as nat) + srt_entry(
            count,
            times[count - 1].0,
            times[count - 1].1,
            lines[count - 1],
        )
    }
}

/// The text of each line.
pub open spec fn lines_view(text_lines: Seq<&str>) -> Seq<Seq<char>> {
    text_lines.map_values(|l: &str| l@)
}

/// The SRT document that `build_srt` produces: one entry per text line, in
/// order, timed by `line_times`.
pub open spec fn srt_of(
    text_lines: Seq<&str>,
    segments: Seq<(i64, i64, String)>,
    mapping: Seq<usize>,
) -> Seq<char> {
    srt_document(
        lines_view(text_lines),
        line_times(line_spans(segments, mapping, text_lines.len(), mapping.len())),
        text_lines.len(),
    )
}

/// An entry reads as: digits that read as its number, a newline, the two
/// time codes joined by ` --> `, a newline, the line's text and an empty line.
pub proof fn lemma_entry_parts(number: nat, t0: int, t1: int, line: Seq<char>)
    ensures
        ({
            let e = srt_entry(number, t0, t1, line);
            let d = decimal_digits(number).len() as int;
            let n = e.len() as int;
            let l = line.len() as int;
            &&& all_digits(e.take(d))
            &&& decimal_value(e.take(d)) == number
            &&& e[d] == '\n'
            &&& e.subrange(d + 1, n - 3 - l) == srt_time_text(t0) + seq![' ', '-', '-', '>', ' ']
                + srt_time_text(t1)
            &&& e[n - 3 - l] == '\n'
            &&& e.subrange(n - 2 - l, n - 2) == line
            &&& e.skip(n - 2) == seq!['\n', '\n']
        }),
{
    lemma_decimal_digits(number);
    let e = srt_entry(number, t0, t1, line);
    let dd = decimal_digits(number);
    let mid = srt_time_text(t0) + seq![' ', '-', '-', '>', ' '] + srt_time_text(t1);
    assert(e =~= dd + seq!['\n'] + mid + seq!['\n'] + line + seq!['\n', '\n']);
    let d = dd.len() as int;
    let n = e.len() as int;
    let l = line.len() as int;
    assert(e.take(d) =~= dd);
    assert(e.subrange(d + 1, n - 3 - l) =~= mid);
    assert(e.subrange(n - 2 - l, n - 2) =~= line);
    assert(e.skip(n - 2) =~= seq!['\n', '\n']);
}

/// The document of `count` lines is their entries, numbered from 1, put one
/// after another in the order of the lines.
pub proof fn lemma_document_is_entries(lines: Seq<Seq<char>>, times: Seq<(int, int)>, count: nat)
    ensures
        srt_document(lines, times, count) == Seq::new(
            count,
            |k: int| srt_entry((k + 1) as nat, times[k].0, times[k].1, lines[k]),
        ).flatten(),
    decreases count,
{
    let es = Seq::new(count, |k: int| srt_entry((k + 1) as nat, times[k].0, times[k].1, lines[k]));
    es.lemma_flatten_and_flatten_alt_are_equivalent();
    if count > 0 {
        lemma_document_is_entries(lines, times, (count - 1) as nat);
        let prev = Seq::new(
            (count - 1) as nat,
            |k: int| srt_entry((k + 1) as nat, times[k].0, times[k].1, lines[k]),
        );
        prev.lemma_flatten_and_flatten_alt_are_equivalent();
        assert(es.drop_last() =~= prev);
    }
}

/// A negative time prints each field of its distance from 0, with a minus
/// sign before the fields that are not 0 (the sign taking a place of the
/// field's width).
pub proof fn lemma_time_code_negative(ms: int)
    requires
        ms < 0,
    ensures
        ({
            let a = -ms;
            let field = |v: int, w: nat|
                if v == 0 {
                    zero_padded(decimal_digits(0), w)
                } else {
                    seq!['-'] + zero_padded(decimal_digits(v as nat), (w - 1) as nat)
                };
            srt_time_text(ms) == field(a / 3_600_000, 2) + seq![':'] + field((a / 60_000) % 60, 2)
                + seq![':'] + field((a / 1000) % 60, 2) + seq![','] + field(a % 1000, 3)
        }),
{
    let a = -ms;
    let secs = trunc_div(ms, 1000);
    let mins = trunc_div(secs, 60);
    assert(secs == -(a / 1000));
    assert(trunc_rem(ms, 1000) == -(a % 1000));
    assert(mins == -((a / 1000) / 60));
    assert((a / 1000) / 60 == a / 60_000) by {
        vstd::arithmetic::div_mod::lemma_div_denominator(a, 1000, 60);
    }
    assert((a / 60_000) / 60 == a / 3_600_000) by {
        vstd::arithmetic::div_mod::lemma_div_denominator(a, 60_000, 60);
    }
    assert(trunc_div(mins, 60) == -(a / 3_600_000));
    assert(trunc_rem(mins, 60) == -((a / 60_000) % 60));
    assert(trunc_rem(secs, 60) == -((a / 1000) % 60));
}

fn push_entry(out: &mut String, number: usize, t0: i128, t1: i128, line: &str)
    requires
        bounded_time(t0 as int),
        bounded_time(t1 as int),
    ensures
        final(out)@ == old(out)@ + srt_entry(number as nat, t0 as int, t1 as int, line@),
{
    proof {
        reveal_strlit("\n");
        reveal_strlit(" --> ");
        reveal_strlit("\n\n");
    }
    let ghost before = out@;
    push_decimal(out, number as u128);
    out.append("\n");
    push_srt_time(out, t0);
    out.append(" --> ");
    push_srt_time(out, t1);
    out.append("\n");
    out.append(line);
    out.append("\n\n");
    assert(out@ =~= before + srt_entry(number as nat, t0 as int, t1 as int, line@));
}

fn render_srt(text_lines: &[&str], times: &Vec<(i128, i128)>) -> (s: String)
    requires
        times@.len() == text_lines@.len(),
        times_bounded(times@, times@.len() as int),
    ensures
        s@ == srt_document(lines_view(text_lines@), times_view(times@), text_lines@.len()),
{
    let mut out = String::new();
    let m = text_lines.len();
    for idx in 0..m
        invariant
            m == text_lines@.len(),
            times@.len() == m,
            times_bounded(times@, m as int),
            out@ == srt_document(lines_view(text_lines@), times_view(times@), idx as nat),
    {
        let (t0, t1) = times[idx];
        assert(bounded_time(times@[idx as int].0 as int));
        push_entry(&mut out, idx + 1, t0, t1, text_lines[idx]);
    }
    out
}

/// Builds the SRT document: every text line exactly once, in order, numbered
/// from 1. Segment `i` is assigned to line `mapping[i]`; a line with segments
/// spans from their earliest start to their latest end, the others are timed
/// from their neighbours (see `gap_time`).
pub fn build_srt(text_lines: &[&str], segments: &[(i64, i64, String)], mapping: &[usize]) -> (s:
    String)
    requires
        mapping@.len() <= segments@.len(),
        forall|i: int| 0 <= i < mapping@.len() ==> mapping@[i] < text_lines@.len(),
    ensures
        s@ == srt_of(text_lines@, segments@, mapping@),
{
    let spans = collect_spans(segments, mapping, text_lines.len());
    let times = fill_line_times(&spans);
    proof {
        crate::timeline::lemma_line_spans_len(
            segments@,
            mapping@,
            text_lines@.len(),
            mapping@.len(),
        );
        assert(times_view(times@).len() == times@.len());
    }
    render_srt(text_lines, &times)
}

/// Builds the SRT document used when no segment was recognised: every text
/// line, in order and numbered from 1, with both time codes at 0.
pub fn build_untimed_srt(text_lines: &[&str]) -> (s: String)
    ensures
        s@ == srt_document(
            lines_view(text_lines@),
            Seq::new(text_lines@.len(), |_k: int| (0int, 0int)),
            text_lines@.len(),
        ),
{
    let mut times: Vec<(i128, i128)> = Vec::new();
    for k in 0..text_lines.len()
        invariant
            times@ =~= Seq::new(k as nat, |_k: int| (0i128, 0i128)),
    {
        times.push((0, 0));
    }
    assert(times_view(times@) =~= Seq::new(text_lines@.len(), |_k: int| (0int, 0int)));
    render_srt(text_lines, &times)
}

} // verus!

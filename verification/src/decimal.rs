//! Decimal rendering of integers, as Rust's `{}` and `{:0w}` print them.

use vstd::prelude::*;

verus! {

/// The character of a decimal digit.
pub open spec fn digit_char(d: nat) -> char {
    seq!['0', '1', '2', '3', '4', '5', '6', '7', '8', '9'][d as int]
}

/// The decimal digits of `n`, most significant first, without leading zeros
/// (`0` is the single digit `0`).
pub open spec fn decimal_digits(n: nat) -> Seq<char>
    decreases n,
{
    if n < 10 {
        seq![digit_char(n)]
    } else {
        decimal_digits(n / 10).push(digit_char(n % 10))
    }
}

/// `digits` with zeros in front up to `width` characters.
pub open spec fn zero_padded(digits: Seq<char>, width: nat) -> Seq<char> {
    if digits.len() < width {
        Seq::new((width - digits.len()) as nat, |_i: int| '0') + digits
    } else {
        digits
    }
}

/// An integer printed with a zero-padded width: the sign counts towards the
/// width and the zeros stand between the sign and the digits.
pub open spec fn padded_int(v: int, width: nat) -> Seq<char> {
    if v >= 0 {
        zero_padded(decimal_digits(v as nat), width)
    } else {
        seq!['-'] + zero_padded(
            decimal_digits((-v) as nat),
            if width > 0 {
                (width - 1) as nat
            } else {
                0
            },
        )
    }
}

/// Whether `c` is one of the digits `0` to `9`.
pub open spec fn is_digit(c: char) -> bool {
    '0' <= c <= '9'
}

pub open spec fn all_digits(s: Seq<char>) -> bool {
    forall|i: int| 0 <= i < s.len() ==> is_digit(#[trigger] s[i])
}

/// The number that a digit stands for.
pub open spec fn digit_value(c: char) -> int {
    (c as u32) - ('0' as u32)
}

/// The number that a string of digits reads as (0 for the empty string).
pub open spec fn decimal_value(s: Seq<char>) -> int
    decreases s.len(),
{
    if s.len() == 0 {
        0
    } else {
        decimal_value(s.drop_last()) * 10 + digit_value(s.last())
    }
}

pub proof fn lemma_digit_char(d: nat)
    requires
        d < 10,
    ensures
        is_digit(digit_char(d)),
        digit_value(digit_char(d)) == d,
{
}

/// The decimal digits of `n` are digits that read back as `n`; there is one
/// of them below 10, at most two below 100 and at most three below 1000.
pub proof fn lemma_decimal_digits(n: nat)
    ensures
        all_digits(decimal_digits(n)),
        decimal_value(decimal_digits(n)) == n,
        decimal_digits(n).len() >= 1,
        n < 10 ==> decimal_digits(n).len() == 1,
        n < 100 ==> decimal_digits(n).len() <= 2,
        n < 1000 ==> decimal_digits(n).len() <= 3,
    decreases n,
{
    lemma_digit_char(n % 10);
    let d = decimal_digits(n);
    if n < 10 {
        lemma_digit_char(n);
        assert(d.drop_last() =~= Seq::<char>::empty());
        assert(decimal_value(d) == decimal_value(d.drop_last()) * 10 + digit_value(d.last()));
    } else {
        lemma_decimal_digits(n / 10);
        assert(d.drop_last() =~= decimal_digits(n / 10));
        assert(d.last() == digit_char(n % 10));
        assert(decimal_value(d) == decimal_value(d.drop_last()) * 10 + digit_value(d.last()));
        assert(n == (n / 10) * 10 + n % 10);
    }
}

proof fn lemma_zeros_value(k: nat)
    ensures
        all_digits(Seq::new(k, |_i: int| '0')),
        decimal_value(Seq::new(k, |_i: int| '0')) == 0,
    decreases k,
{
    if k > 0 {
        lemma_zeros_value((k - 1) as nat);
        assert(Seq::new(k, |_i: int| '0').drop_last() =~= Seq::new((k - 1) as nat, |_i: int| '0'));
    }
}

proof fn lemma_value_after_zeros(z: Seq<char>, d: Seq<char>)
    requires
        decimal_value(z) == 0,
    ensures
        decimal_value(z + d) == decimal_value(d),
    decreases d.len(),
{
    if d.len() == 0 {
        assert(z + d =~= z);
    } else {
        lemma_value_after_zeros(z, d.drop_last());
        assert((z + d).drop_last() =~= z + d.drop_last());
    }
}

/// Padding digits with zeros keeps them digits and keeps their value; the
/// result has `width` characters, or more if the digits are more.
pub proof fn lemma_zero_padded(d: Seq<char>, width: nat)
    requires
        all_digits(d),
    ensures
        all_digits(zero_padded(d, width)),
        decimal_value(zero_padded(d, width)) == decimal_value(d),
        zero_padded(d, width).len() == if d.len() < width { width } else { d.len() },
{
    if d.len() < width {
        let z = Seq::new((width - d.len()) as nat, |_i: int| '0');
        lemma_zeros_value((width - d.len()) as nat);
        lemma_value_after_zeros(z, d);
        assert forall|i: int| 0 <= i < (z + d).len() implies is_digit(#[trigger] (z + d)[i]) by {
            if i >= z.len() {
                assert((z + d)[i] == d[i - z.len()]);
            }
        }
    }
}

fn digit_str(d: u128) -> (s: &'static str)
    requires
        d < 10,
    ensures
        s@ == seq![digit_char(d as nat)],
{
    if d == 0 {
        proof { reveal_strlit("0"); }
        "0"
    } else if d == 1 {
        proof { reveal_strlit("1"); }
        "1"
    } else if d == 2 {
        proof { reveal_strlit("2"); }
        "2"
    } else if d == 3 {
        proof { reveal_strlit("3"); }
        "3"
    } else if d == 4 {
        proof { reveal_strlit("4"); }
        "4"
    } else if d == 5 {
        proof { reveal_strlit("5"); }
        "5"
    } else if d == 6 {
        proof { reveal_strlit("6"); }
        "6"
    } else if d == 7 {
        proof { reveal_strlit("7"); }
        "7"
    } else if d == 8 {
        proof { reveal_strlit("8"); }
        "8"
    } else {
        proof { reveal_strlit("9"); }
        "9"
    }
}

/// Appends the decimal digits of `v`.
pub(crate) fn push_decimal(out: &mut String, v: u128)
    ensures
        final(out)@ == old(out)@ + decimal_digits(v as nat),
    decreases v,
{
    if v >= 10 {
        push_decimal(out, v / 10);
        out.append(digit_str(v % 10));
    } else {
        out.append(digit_str(v));
    }
}

/// Appends `padded_int(v, width)` where `v` is `mag`, negated when `negative`.
pub(crate) fn push_padded(out: &mut String, negative: bool, mag: u128, width: usize)
    ensures
        final(out)@ == old(out)@ + padded_int(
            if negative {
                -(mag as int)
            } else {
                mag as int
            },
            width as nat,
        ),
{
    let mut digits = String::new();
    push_decimal(&mut digits, mag);
    let n = digits.as_str().unicode_len();
    let target: usize = if negative && mag > 0 {
        proof { reveal_strlit("-"); }
        out.append("-");
        if width > 0 { width - 1 } else { 0 }
    } else {
        width
    };
    let ghost before = out@;
    let mut k: usize = n;
    while k < target
        invariant
            n <= k <= target || (k == n && target <= n),
            out@ == before + Seq::new((k - n) as nat, |_i: int| '0'),
        decreases target - k,
    {
        proof { reveal_strlit("0"); }
        out.append("0");
        k = k + 1;
        assert(out@ =~= before + Seq::new((k - n) as nat, |_i: int| '0'));
    }
    out.append(digits.as_str());
    assert(out@ =~= before + zero_padded(decimal_digits(mag as nat), target as nat));
}

} // verus!

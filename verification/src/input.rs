//! Reading the program's inputs: which file is the audio, and the lines of the
//! text to be subtitled.

use vstd::prelude::*;

verus! {

broadcast use vstd::string::group_string_axioms;

/// Whether `c` is white space, as Unicode's White_Space property (and
/// `char::is_whitespace`) has it: tab to carriage return, space, next line,
/// no-break space, Ogham space mark, the spaces from en quad to hair space,
/// the line and paragraph separators, narrow no-break space, medium
/// mathematical space and ideographic space.
pub open spec fn unicode_white_space(c: char) -> bool {
    let u = c as u32;
    ||| 0x09 <= u <= 0x0D
    ||| u == 0x20
    ||| u == 0x85
    ||| u == 0xA0
    ||| u == 0x1680
    ||| 0x2000 <= u <= 0x200A
    ||| u == 0x2028
    ||| u == 0x2029
    ||| u == 0x202F
    ||| u == 0x205F
    ||| u == 0x3000
}

fn is_white_space(c: char) -> (r: bool)
    ensures
        r == unicode_white_space(c),
{
    let u = c as u32;
    (0x09 <= u && u <= 0x0D) || u == 0x20 || u == 0x85 || u == 0xA0 || u == 0x1680 || (0x2000
        <= u && u <= 0x200A) || u == 0x2028 || u == 0x2029 || u == 0x202F || u == 0x205F || u
        == 0x3000
}

/// Calls `String::push`, which appends one character.
#[verifier::external_body]
fn push_char(s: &mut String, c: char)
    ensures
        final(s)@ == old(s)@.push(c),
{
    s.push(c)
}

/// The pieces of `s` between newline characters (one more than there are
/// newlines).
pub open spec fn split_newlines(s: Seq<char>) -> Seq<Seq<char>>
    decreases s.len(),
{
    if s.len() == 0 {
        seq![Seq::<char>::empty()]
    } else {
        let prev = split_newlines(s.drop_last());
        if s.last() == '\n' {
            prev.push(Seq::<char>::empty())
        } else {
            prev.update(prev.len() - 1, prev.last().push(s.last()))
        }
    }
}

/// `s` without white space at its start.
pub open spec fn trim_start(s: Seq<char>) -> Seq<char>
    decreases s.len(),
{
    if s.len() > 0 && unicode_white_space(s[0]) {
        trim_start(s.drop_first())
    } else {
        s
    }
}

/// `s` without white space at its end.
pub open spec fn trim_end(s: Seq<char>) -> Seq<char>
    decreases s.len(),
{
    if s.len() > 0 && unicode_white_space(s.last()) {
        trim_end(s.drop_last())
    } else {
        s
    }
}

/// `s` without white space at either end.
pub open spec fn trim(s: Seq<char>) -> Seq<char> {
    trim_end(trim_start(s))
}

/// The trimmed pieces that are not empty, in order.
pub open spec fn kept_lines(pieces: Seq<Seq<char>>) -> Seq<Seq<char>>
    decreases pieces.len(),
{
    if pieces.len() == 0 {
        seq![]
    } else {
        let rest = kept_lines(pieces.drop_last());
        let t = trim(pieces.last());
        if t.len() > 0 {
            rest.push(t)
        } else {
            rest
        }
    }
}

/// The lines of a text to be subtitled: its lines, trimmed, without the
/// empty ones.
pub open spec fn text_lines_spec(text: Seq<char>) -> Seq<Seq<char>> {
    kept_lines(split_newlines(text))
}

pub open spec fn strings_view(v: Seq<String>) -> Seq<Seq<char>> {
    v.map_values(|s: String| s@)
}

proof fn lemma_trim_start(s: Seq<char>)
    ensures
        trim_start(s).len() > 0 ==> !unicode_white_space(trim_start(s)[0]),
    decreases s.len(),
{
    if s.len() > 0 && unicode_white_space(s[0]) {
        lemma_trim_start(s.drop_first());
    }
}

proof fn lemma_trim_end(s: Seq<char>)
    ensures
        trim_end(s).len() <= s.len(),
        trim_end(s) == s.take(trim_end(s).len() as int),
        trim_end(s).len() > 0 ==> !unicode_white_space(trim_end(s).last()),
    decreases s.len(),
{
    if s.len() > 0 && unicode_white_space(s.last()) {
        lemma_trim_end(s.drop_last());
        assert(s.drop_last().take(trim_end(s).len() as int) =~= s.take(trim_end(s).len() as int));
    } else {
        assert(s.take(s.len() as int) =~= s);
    }
}

proof fn lemma_trim(s: Seq<char>)
    ensures
        trim(s).len() > 0 ==> !unicode_white_space(trim(s)[0]) && !unicode_white_space(trim(s).last()),
{
    lemma_trim_start(s);
    lemma_trim_end(trim_start(s));
}

proof fn lemma_kept_lines_trimmed(pieces: Seq<Seq<char>>)
    ensures
        forall|k: int|
            0 <= k < kept_lines(pieces).len() ==> {
                let l = #[trigger] kept_lines(pieces)[k];
                &&& l.len() > 0
                &&& !unicode_white_space(l[0])
                &&& !unicode_white_space(l.last())
            },
    decreases pieces.len(),
{
    if pieces.len() > 0 {
        let rest = kept_lines(pieces.drop_last());
        lemma_kept_lines_trimmed(pieces.drop_last());
        lemma_trim(pieces.last());
        assert forall|k: int| 0 <= k < kept_lines(pieces).len() implies {
            let l = #[trigger] kept_lines(pieces)[k];
            &&& l.len() > 0
            &&& !unicode_white_space(l[0])
            &&& !unicode_white_space(l.last())
        } by {
            if k < rest.len() {
                assert(kept_lines(pieces)[k] == rest[k]);
            }
        }
    }
}

/// Every line given for subtitling is non-empty and has no white space at
/// either end.
pub proof fn lemma_text_lines_trimmed(text: Seq<char>)
    ensures
        forall|k: int|
            0 <= k < text_lines_spec(text).len() ==> {
                let l = #[trigger] text_lines_spec(text)[k];
                &&& l.len() > 0
                &&& !unicode_white_space(l[0])
                &&& !unicode_white_space(l.last())
            },
{
    lemma_kept_lines_trimmed(split_newlines(text));
}

/// The pieces joined back together, with a newline between each two.
pub open spec fn join_with_newlines(pieces: Seq<Seq<char>>) -> Seq<char>
    decreases pieces.len(),
{
    if pieces.len() == 0 {
        seq![]
    } else if pieces.len() == 1 {
        pieces[0]
    } else {
        join_with_newlines(pieces.drop_last()) + seq!['\n'] + pieces.last()
    }
}

/// Splitting at newlines loses nothing and cuts at every newline: no piece
/// holds a newline, and joining the pieces with newlines gives the text back.
pub proof fn lemma_split_newlines_pieces(s: Seq<char>)
    ensures
        split_newlines(s).len() >= 1,
        forall|k: int, x: int|
            0 <= k < split_newlines(s).len() && 0 <= x < split_newlines(s)[k].len() ==> #[trigger] split_newlines(s)[k][x] != '\n',
        join_with_newlines(split_newlines(s)) == s,
    decreases s.len(),
{
    if s.len() == 0 {
        assert(join_with_newlines(split_newlines(s)) =~= s);
    } else {
        let t = s.drop_last();
        lemma_split_newlines_pieces(t);
        let prev = split_newlines(t);
        let cur = split_newlines(s);
        let c = s.last();
        assert(s =~= t.push(c));
        if c == '\n' {
            assert(cur == prev.push(Seq::<char>::empty()));
            assert(cur.drop_last() =~= prev);
            assert(join_with_newlines(cur) =~= s);
        } else {
            let l = prev.len() - 1;
            assert(cur == prev.update(l, prev.last().push(c)));
            assert forall|k: int, x: int| 0 <= k < cur.len() && 0 <= x < cur[k].len() implies #[trigger] cur[k][x] != '\n' by {
                if k < l {
                    assert(cur[k] == prev[k]);
                } else if x < prev[l].len() {
                    assert(cur[k][x] == prev[l][x]);
                }
            }
            if prev.len() == 1 {
                assert(join_with_newlines(cur) =~= s);
            } else {
                assert(cur.drop_last() =~= prev.drop_last());
                assert(join_with_newlines(prev) == join_with_newlines(prev.drop_last()) + seq!['\n'] + prev.last());
                assert(join_with_newlines(cur) =~= s);
            }
        }
    }
}

/// The kept lines are the trims of the pieces, in order, with the empty ones
/// left out, and nothing else.
pub proof fn lemma_kept_lines_filter(pieces: Seq<Seq<char>>)
    ensures
        kept_lines(pieces) == pieces.map_values(|p: Seq<char>| trim(p)).filter(|t: Seq<char>| t.len() > 0),
    decreases pieces.len(),
{
    reveal_with_fuel(Seq::filter, 1);
    if pieces.len() > 0 {
        lemma_kept_lines_filter(pieces.drop_last());
        let f = |p: Seq<char>| trim(p);
        assert(pieces.map_values(f).drop_last() =~= pieces.drop_last().map_values(f));
        assert(pieces.map_values(f).last() == trim(pieces.last()));
    }
}

/// The lines for subtitling are the trims of the text's newline-separated
/// pieces, in order, leaving out exactly those that trim to nothing.
pub proof fn lemma_text_lines_are_trimmed_pieces(text: Seq<char>)
    ensures
        text_lines_spec(text) == split_newlines(text).map_values(|p: Seq<char>| trim(p)).filter(
            |t: Seq<char>| t.len() > 0,
        ),
{
    lemma_kept_lines_filter(split_newlines(text));
}

/// Trimming takes away white space at both ends and nothing else: the result
/// is a stretch `s[i..j]` with only white space before and after it, and, if
/// not empty, with no white space at its ends.
pub proof fn lemma_trim_cuts_white_ends(s: Seq<char>)
    ensures
        exists|i: int, j: int|
            0 <= i <= j <= s.len() && trim(s) == s.subrange(i, j) && (forall|x: int|
                0 <= x < i ==> unicode_white_space(#[trigger] s[x])) && (forall|x: int|
                j <= x < s.len() ==> unicode_white_space(#[trigger] s[x])) && (i < j
                ==> !unicode_white_space(s[i]) && !unicode_white_space(s[j - 1])),
{
    let i = lemma_trim_start_skip(s);
    let u = s.skip(i);
    let e = lemma_trim_end_take(u);
    let j = i + e;
    assert(trim(s) =~= s.subrange(i, j));
    assert forall|x: int| j <= x < s.len() implies unicode_white_space(#[trigger] s[x]) by {
        assert(s[x] == u[x - i]);
    }
    if i < j {
        assert(s[i] == u[0]);
        assert(s[j - 1] == u[e - 1]);
    }
}

proof fn lemma_trim_start_skip(s: Seq<char>) -> (i: int)
    ensures
        0 <= i <= s.len(),
        trim_start(s) == s.skip(i),
        forall|x: int| 0 <= x < i ==> unicode_white_space(#[trigger] s[x]),
        i < s.len() ==> !unicode_white_space(s[i]),
    decreases s.len(),
{
    if s.len() > 0 && unicode_white_space(s[0]) {
        let r = lemma_trim_start_skip(s.drop_first());
        assert(s.drop_first().skip(r) =~= s.skip(r + 1));
        assert forall|x: int| 0 <= x < r + 1 implies unicode_white_space(#[trigger] s[x]) by {
            if x > 0 {
                assert(s[x] == s.drop_first()[x - 1]);
            }
        }
        assert(r + 1 < s.len() ==> s[r + 1] == s.drop_first()[r]);
        r + 1
    } else {
        assert(s.skip(0) =~= s);
        0
    }
}

proof fn lemma_trim_end_take(s: Seq<char>) -> (e: int)
    ensures
        0 <= e <= s.len(),
        trim_end(s) == s.take(e),
        forall|x: int| e <= x < s.len() ==> unicode_white_space(#[trigger] s[x]),
        e > 0 ==> !unicode_white_space(s[e - 1]),
    decreases s.len(),
{
    if s.len() > 0 && unicode_white_space(s.last()) {
        let r = lemma_trim_end_take(s.drop_last());
        assert(s.drop_last().take(r) =~= s.take(r));
        assert forall|x: int| r <= x < s.len() implies unicode_white_space(#[trigger] s[x]) by {
            if x < s.len() - 1 {
                assert(s[x] == s.drop_last()[x]);
            }
        }
        assert(r > 0 ==> s[r - 1] == s.drop_last()[r - 1]);
        r
    } else {
        assert(s.take(s.len() as int) =~= s);
        s.len() as int
    }
}

proof fn lemma_split_newlines_nonempty(s: Seq<char>)
    ensures
        split_newlines(s).len() >= 1,
    decreases s.len(),
{
    if s.len() > 0 {
        lemma_split_newlines_nonempty(s.drop_last());
    }
}

/// Index of the first non-white character of `s`, or its length.
fn first_kept(s: &Vec<char>) -> (k: usize)
    ensures
        k <= s@.len(),
        trim_start(s@) == s@.skip(k as int),
{
    let mut k: usize = 0;
    assert(s@.skip(0) =~= s@);
    while k < s.len() && is_white_space(s[k])
        invariant
            k <= s@.len(),
            trim_start(s@) == trim_start(s@.skip(k as int)),
        decreases s@.len() - k,
    {
        assert(s@.skip(k as int).drop_first() =~= s@.skip(k + 1));
        k = k + 1;
    }
    k
}

/// One past the last non-white character of `s[from..]`, or `from`.
fn last_kept(s: &Vec<char>, from: usize) -> (e: usize)
    requires
        from <= s@.len(),
    ensures
        from <= e <= s@.len(),
        trim_end(s@.subrange(from as int, s@.len() as int)) == s@.subrange(from as int, e as int),
{
    let mut e: usize = s.len();
    while e > from && is_white_space(s[e - 1])
        invariant
            from <= e <= s@.len(),
            trim_end(s@.subrange(from as int, s@.len() as int)) == trim_end(
                s@.subrange(from as int, e as int),
            ),
        decreases e,
    {
        assert(s@.subrange(from as int, e as int).drop_last() =~= s@.subrange(
            from as int,
            e - 1,
        ));
        e = e - 1;
    }
    e
}

/// The trimmed text of `raw`, as a new string.
fn trimmed(raw: &Vec<char>) -> (t: String)
    ensures
        t@ == trim(raw@),
{
    let k = first_kept(raw);
    let e = last_kept(raw, k);
    assert(raw@.skip(k as int) =~= raw@.subrange(k as int, raw@.len() as int));
    let mut t = String::new();
    let mut x = k;
    while x < e
        invariant
            k <= x <= e <= raw@.len(),
            t@ == raw@.subrange(k as int, x as int),
        decreases e - x,
    {
        push_char(&mut t, raw[x]);
        x = x + 1;
        assert(t@ =~= raw@.subrange(k as int, x as int));
    }
    t
}

/// The lines of `text`, each trimmed of white space, without the empty ones.
pub fn text_lines(text: &str) -> (lines: Vec<String>)
    ensures
        strings_view(lines@) == text_lines_spec(text@),
{
    let mut lines: Vec<String> = Vec::new();
    let mut cur: Vec<char> = Vec::new();
    let ghost mut seen: Seq<char> = Seq::empty();
    for c in it: text.chars()
        invariant
            seen.len() == it.index(),
            forall|i: int| 0 <= i < seen.len() ==> seen[i] == it.seq()[i],
            split_newlines(seen).len() >= 1,
            cur@ == split_newlines(seen).last(),
            strings_view(lines@) == kept_lines(split_newlines(seen).drop_last()),
    {
        let ghost before = seen;
        proof {
            seen = seen.push(c);
            assert(seen.drop_last() =~= before);
        }
        if c == '\n' {
            let t = trimmed(&cur);
            let ghost pieces = split_newlines(before);
            assert(pieces == split_newlines(seen).drop_last());
            if t.unicode_len() > 0 {
                lines.push(t);
            }
            assert(strings_view(lines@) =~= kept_lines(pieces));
            cur = Vec::new();
            proof { lemma_split_newlines_nonempty(seen); }
        } else {
            cur.push(c);
            proof {
                lemma_split_newlines_nonempty(before);
                let pieces = split_newlines(before);
                assert(split_newlines(seen).drop_last() =~= pieces.drop_last());
            }
        }
    }
    assert(seen =~= text@);
    let t = trimmed(&cur);
    let ghost pieces = split_newlines(seen);
    if t.unicode_len() > 0 {
        lines.push(t);
    }
    assert(pieces.drop_last().push(pieces.last()) =~= pieces);
    assert(strings_view(lines@) =~= kept_lines(pieces));
    lines
}

/// `c` with ASCII capital letters made small.
pub open spec fn ascii_lower(c: char) -> char {
    if 'A' <= c <= 'Z' {
        ((c as u32) + 32) as char
    } else {
        c
    }
}

/// Whether `ext`, in small letters, is `target` (which is in small letters).
pub open spec fn lower_equals(ext: Seq<char>, target: Seq<char>) -> bool {
    ext.len() == target.len() && forall|i: int| 0 <= i < ext.len() ==> ascii_lower(#[trigger] ext[i]) == target[i]
}

/// Whether a file with extension `ext` is taken as audio: `mp3` or `wav` in
/// any mix of small and capital letters.
pub open spec fn is_audio_extension_spec(ext: Seq<char>) -> bool {
    lower_equals(ext, seq!['m', 'p', '3']) || lower_equals(ext, seq!['w', 'a', 'v'])
}

fn lower_is(c: char, small: char) -> (r: bool)
    requires
        !('A' <= small <= 'Z'),
    ensures
        r == (ascii_lower(c) == small),
{
    c == small || ('A' <= c && c <= 'Z' && (c as u32) + 32 == small as u32)
}

fn lower_matches(ext: &Vec<char>, a: char, b: char, c: char) -> (r: bool)
    requires
        !('A' <= a <= 'Z'),
        !('A' <= b <= 'Z'),
        !('A' <= c <= 'Z'),
    ensures
        r == lower_equals(ext@, seq![a, b, c]),
{
    if ext.len() != 3 {
        return false;
    }
    let r = lower_is(ext[0], a) && lower_is(ext[1], b) && lower_is(ext[2], c);
    assert(r ==> forall|i: int| 0 <= i < 3 ==> ascii_lower(#[trigger] ext@[i]) == seq![a, b, c][i]);
    r
}

/// Whether a file with extension `ext` is the audio input.
pub fn is_audio_extension(ext: &str) -> (r: bool)
    ensures
        r == is_audio_extension_spec(ext@),
{
    let mut cs: Vec<char> = Vec::new();
    for c in it: ext.chars()
        invariant
            cs.len() == it.index(),
            forall|i: int| 0 <= i < cs.len() ==> cs@[i] == it.seq()[i],
    {
        cs.push(c);
    }
    assert(cs@ =~= ext@);
    lower_matches(&cs, 'm', 'p', '3') || lower_matches(&cs, 'w', 'a', 'v')
}

} // verus!

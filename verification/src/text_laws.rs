//! What holds of the operations on strings.

use crate::text;
use vstd::prelude::*;

verus! {

/// A prefix is taken off exactly the texts that start with it, and the rest is
/// all that followed it.
pub proof fn law_prefix_taken_off(s: Seq<char>, pat: Seq<char>, rest: Seq<char>)
    ensures
        text::strip_prefix(s, pat) == Some(rest) <==> s == pat + rest,
        text::strip_prefix(s, pat) is None <==> !(pat.len() <= s.len() && s.take(
            pat.len() as int,
        ) == pat),
{
    let n = pat.len() as int;
    if pat.is_prefix_of(s) {
        assert(s =~= pat + s.skip(n));
        assert(s.take(n) =~= s.subrange(0, n));
    }
    if n <= s.len() {
        assert(s.take(n) =~= s.subrange(0, n));
    }
    if s == pat + rest {
        assert(pat =~= s.subrange(0, n));
        assert(s.skip(n) =~= rest);
    }
}

/// A suffix is taken off exactly the texts that end with it, and the rest is all
/// that stood before it.
pub proof fn law_suffix_taken_off(s: Seq<char>, pat: Seq<char>, front: Seq<char>)
    ensures
        text::strip_suffix(s, pat) == Some(front) <==> s == front + pat,
        text::strip_suffix(s, pat) is None <==> !(pat.len() <= s.len() && s.skip(
            s.len() - pat.len(),
        ) == pat),
{
    let n = s.len() - pat.len();
    if n >= 0 {
        assert(s.skip(n) =~= s.subrange(n, s.len() as int));
    }
    if pat.is_suffix_of(s) {
        assert(s =~= s.take(n) + pat);
    }
    if s == front + pat {
        assert(pat =~= s.subrange(n, s.len() as int));
        assert(s.take(n) =~= front);
    }
}

/// All of a character at the end of a text is taken away, and nothing else.
pub proof fn law_run_at_end(s: Seq<char>, c: char, n: nat)
    requires
        s.len() > 0 ==> s.last() != c,
    ensures
        text::trim_end_char(s + Seq::new(n, |i: int| c), c) == s,
{
    let run = Seq::new(n, |i: int| c);
    let whole = s + run;
    let p = text::is_char(c);
    assert forall|i: int| whole.len() - n <= i < whole.len() implies p(#[trigger] whole[i]) by {
        assert(whole[i] == run[i - s.len()]);
    }
    if s.len() > 0 {
        assert(whole[whole.len() - n - 1] == s.last());
    }
    text::lemma_back_run(whole, p, n as int);
    assert(whole.take(s.len() as int) =~= s);
}

/// All of a character at the front of a text is taken away, and nothing else.
pub proof fn law_run_at_front(s: Seq<char>, c: char, n: nat)
    requires
        s.len() > 0 ==> s[0] != c,
    ensures
        text::trim_start_char(Seq::new(n, |i: int| c) + s, c) == s,
{
    text::lemma_leading_run(c, n, s);
}

/// Trimming takes away white space around a text and nothing else, and leaves
/// none there.
pub proof fn law_trim_keeps_the_rest(s: Seq<char>) -> (r: (Seq<char>, Seq<char>))
    ensures
        s == r.0 + text::trim(s) + r.1,
        text::trim_start(s) == text::trim(s) + r.1,
        text::is_blank(r.0),
        text::is_blank(r.1),
        text::trim(s).len() > 0 ==> !text::is_whitespace(text::trim(s)[0])
            && !text::is_whitespace(text::trim(s).last()),
{
    let p = |c: char| text::is_whitespace(c);
    text::lemma_front_run(s, p, 0);
    let a = text::front_run(s, p) as int;
    let t = text::trim_start(s);
    text::lemma_back_run(t, p, 0);
    let b = t.len() - text::back_run(t, p);
    text::law_trim_is_trimmed(s);
    let (front, back) = (s.take(a), t.skip(b));
    assert forall|i: int| 0 <= i < front.len() implies text::is_whitespace(#[trigger] front[i]) by {
        assert(p(s[i]));
    }
    assert forall|i: int| 0 <= i < back.len() implies text::is_whitespace(#[trigger] back[i]) by {
        assert(p(t[b + i]));
    }
    assert(t =~= text::trim(s) + back);
    assert(s =~= front + t);
    assert(s =~= front + text::trim(s) + back);
    (front, back)
}

/// What is found is the first place at which a pattern stands, and something is
/// found whenever it stands anywhere.
pub proof fn law_first_place_found(s: Seq<char>, pat: Seq<char>)
    ensures
        match text::find_from(s, pat, 0) {
            Some(k) => 0 <= k <= s.len() - pat.len() && s.subrange(k, k + pat.len()) == pat
                && forall|i: int|
                0 <= i < k ==> #[trigger] s.subrange(i, i + pat.len()) != pat,
            None => forall|i: int|
                0 <= i <= s.len() - pat.len() ==> #[trigger] s.subrange(i, i + pat.len()) != pat,
        },
{
    lemma_first_place(s, pat, 0);
}

proof fn lemma_first_place(s: Seq<char>, pat: Seq<char>, from: int)
    requires
        0 <= from,
    ensures
        match text::find_from(s, pat, from) {
            Some(k) => from <= k <= s.len() - pat.len() && s.subrange(k, k + pat.len()) == pat
                && forall|i: int|
                from <= i < k ==> #[trigger] s.subrange(i, i + pat.len()) != pat,
            None => forall|i: int|
                from <= i <= s.len() - pat.len() ==> #[trigger] s.subrange(i, i + pat.len()) != pat,
        },
    decreases s.len() + 1 - from,
{
    if from + pat.len() <= s.len() && !text::occurs_at(s, pat, from) {
        lemma_first_place(s, pat, from + 1);
    }
}

/// A newline ends a line, with or without a carriage return before it, and what
/// follows is cut into lines in the same way.
pub proof fn law_line_ended(line: Seq<char>, rest: Seq<char>)
    requires
        !line.contains('\n'),
    ensures
        line.len() == 0 || line.last() != '\r' ==> text::lines(line + seq!['\n'] + rest)
            == seq![line] + text::lines(rest),
        text::lines(line + seq!['\r', '\n'] + rest) == seq![line] + text::lines(rest),
{
    lemma_line_cut(line, rest);
    let long = line.push('\r');
    assert forall|i: int| 0 <= i < long.len() implies long[i] != '\n' by {
        if i < line.len() {
            assert(line.contains(line[i]));
        }
    }
    lemma_line_cut(long, rest);
    assert(long + seq!['\n'] + rest =~= line + seq!['\r', '\n'] + rest);
    assert(long.drop_last() =~= line);
}

proof fn lemma_line_cut(line: Seq<char>, rest: Seq<char>)
    requires
        !line.contains('\n'),
    ensures
        text::lines(line + seq!['\n'] + rest) == seq![text::without_return(line)] + text::lines(
            rest,
        ),
{
    let s = line + seq!['\n'] + rest;
    let p = |c: char| c != '\n';
    let n = line.len() as int;
    assert forall|i: int| 0 <= i < n implies p(#[trigger] s[i]) by {
        assert(line.contains(line[i]));
        assert(s[i] == line[i]);
    }
    assert(s[n] == '\n');
    text::lemma_front_run(s, p, n);
    assert(text::line_length(s) == n);
    assert(s.take(n) =~= line);
    assert(s.skip(n + 1) =~= rest);
}

/// A text without a newline is one line, and an empty text none.
pub proof fn law_last_line(line: Seq<char>)
    requires
        !line.contains('\n'),
    ensures
        text::lines(line) == (if line.len() > 0 {
            seq![line]
        } else {
            Seq::<Seq<char>>::empty()
        }),
{
    let p = |c: char| c != '\n';
    assert forall|i: int| 0 <= i < line.len() implies p(#[trigger] line[i]) by {
        assert(line.contains(line[i]));
    }
    text::lemma_front_run(line, p, line.len() as int);
}

/// Joining puts a separator between each two parts and leaves the parts as they
/// are.
pub proof fn law_joined(parts: Seq<Seq<char>>, last: Seq<char>, sep: Seq<char>)
    ensures
        text::join(Seq::empty(), sep) == Seq::<char>::empty(),
        text::join(seq![last], sep) == last,
        parts.len() > 0 ==> text::join(parts.push(last), sep) == text::join(parts, sep) + sep
            + last,
{
    assert(parts.push(last).drop_last() =~= parts);
}

} // verus!

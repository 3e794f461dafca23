//! Strings as sequences of characters: the white space, line and pattern
//! operations that the parsers of this crate are made of.

use vstd::prelude::*;
use vstd::slice::slice_subrange;

verus! {

/// What [`String::push`] does: the character is appended and nothing else
/// changes.
pub assume_specification[ String::push ](s: &mut String, c: char)
    ensures
        final(s)@ == old(s)@.push(c),
;

/// The characters with the Unicode property `White_Space`.
pub open spec fn is_whitespace(c: char) -> bool {
    let n = c as u32;
    ||| 0x09 <= n <= 0x0d
    ||| n == 0x20
    ||| n == 0x85
    ||| n == 0xa0
    ||| n == 0x1680
    ||| 0x2000 <= n <= 0x200a
    ||| n == 0x2028
    ||| n == 0x2029
    ||| n == 0x202f
    ||| n == 0x205f
    ||| n == 0x3000
}

/// The length of the longest prefix of `s` whose elements all satisfy `p`.
pub open spec fn front_run<T>(s: Seq<T>, p: spec_fn(T) -> bool) -> nat
    decreases s.len(),
{
    if s.len() > 0 && p(s[0]) {
        1 + front_run(s.skip(1), p)
    } else {
        0
    }
}

/// The length of the longest suffix of `s` whose elements all satisfy `p`.
pub open spec fn back_run<T>(s: Seq<T>, p: spec_fn(T) -> bool) -> nat
    decreases s.len(),
{
    if s.len() > 0 && p(s.last()) {
        1 + back_run(s.drop_last(), p)
    } else {
        0
    }
}

/// `s` without its leading white space.
pub open spec fn trim_start(s: Seq<char>) -> Seq<char> {
    s.skip(front_run(s, |c: char| is_whitespace(c)) as int)
}

/// `s` without its trailing white space.
pub open spec fn trim_end(s: Seq<char>) -> Seq<char> {
    s.take(s.len() - back_run(s, |c: char| is_whitespace(c)))
}

/// `s` without its leading and its trailing white space.
pub open spec fn trim(s: Seq<char>) -> Seq<char> {
    trim_end(trim_start(s))
}

/// The test for the character `c`.
pub open spec fn is_char(c: char) -> spec_fn(char) -> bool {
    |x: char| x == c
}

/// How many times `c` stands at the front of `s`.
pub open spec fn leading_count(s: Seq<char>, c: char) -> nat {
    front_run(s, is_char(c))
}

/// `s` without the run of `c` at its front.
pub open spec fn trim_start_char(s: Seq<char>, c: char) -> Seq<char> {
    s.skip(leading_count(s, c) as int)
}

/// `s` without the run of `c` at its end.
pub open spec fn trim_end_char(s: Seq<char>, c: char) -> Seq<char> {
    s.take(s.len() - back_run(s, is_char(c)))
}

/// Whether `pat` stands in `s` at position `i`.
pub open spec fn occurs_at(s: Seq<char>, pat: Seq<char>, i: int) -> bool {
    &&& 0 <= i
    &&& i + pat.len() <= s.len()
    &&& s.subrange(i, i + pat.len()) == pat
}

/// The first position at or after `i` at which `pat` stands in `s`.
pub open spec fn find_from(s: Seq<char>, pat: Seq<char>, i: int) -> Option<int>
    decreases s.len() + 1 - i,
{
    if i < 0 || i + pat.len() > s.len() {
        None
    } else if occurs_at(s, pat, i) {
        Some(i)
    } else {
        find_from(s, pat, i + 1)
    }
}

/// The rest of `s` after the prefix `pat`, if `s` starts with it.
pub open spec fn strip_prefix(s: Seq<char>, pat: Seq<char>) -> Option<Seq<char>> {
    if pat.is_prefix_of(s) {
        Some(s.skip(pat.len() as int))
    } else {
        None
    }
}

/// What stands before the suffix `pat` of `s`, if `s` ends with it.
pub open spec fn strip_suffix(s: Seq<char>, pat: Seq<char>) -> Option<Seq<char>> {
    if pat.is_suffix_of(s) {
        Some(s.take(s.len() - pat.len()))
    } else {
        None
    }
}

/// A line without the carriage return that may stand before its newline.
pub open spec fn without_return(line: Seq<char>) -> Seq<char> {
    if line.len() > 0 && line.last() == '\r' {
        line.drop_last()
    } else {
        line
    }
}

/// The position of the first newline of `s`, or its length.
pub open spec fn line_length(s: Seq<char>) -> nat {
    front_run(s, |c: char| c != '\n')
}

/// The lines of `s`. A newline, or a carriage return and a newline, ends a
/// line and is not part of it; the last line need not be ended.
pub open spec fn lines(s: Seq<char>) -> Seq<Seq<char>>
    decreases s.len(),
{
    if s.len() == 0 {
        Seq::empty()
    } else if line_length(s) >= s.len() {
        seq![s]
    } else {
        seq![without_return(s.take(line_length(s) as int))] + lines(
            s.skip(line_length(s) as int + 1),
        )
    }
}

/// The views of a list of slices.
pub open spec fn slices(v: Seq<&[char]>) -> Seq<Seq<char>> {
    v.map_values(|l: &[char]| l@)
}

/// The views of a list of strings.
pub open spec fn string_views(v: Seq<String>) -> Seq<Seq<char>> {
    v.map_values(|s: String| s@)
}

/// `parts` with `sep` between each two of them.
pub open spec fn join(parts: Seq<Seq<char>>, sep: Seq<char>) -> Seq<char>
    decreases parts.len(),
{
    if parts.len() == 0 {
        Seq::empty()
    } else if parts.len() == 1 {
        parts[0]
    } else {
        join(parts.drop_last(), sep) + sep + parts.last()
    }
}

/// The run at the front is within the sequence, satisfies `p`, and ends where
/// the sequence ends or `p` fails; no other length does so.
pub proof fn lemma_front_run<T>(s: Seq<T>, p: spec_fn(T) -> bool, n: int)
    ensures
        front_run(s, p) <= s.len(),
        forall|i: int| 0 <= i < front_run(s, p) ==> p(#[trigger] s[i]),
        front_run(s, p) < s.len() ==> !p(s[front_run(s, p) as int]),
        (0 <= n <= s.len() && (forall|i: int| 0 <= i < n ==> p(#[trigger] s[i])) && (n < s.len()
            ==> !p(s[n]))) ==> n == front_run(s, p),
    decreases s.len(),
{
    if s.len() > 0 && p(s[0]) {
        lemma_front_run(s.skip(1), p, n - 1);
        assert forall|i: int| 0 <= i < front_run(s, p) implies p(#[trigger] s[i]) by {
            if i > 0 {
                assert(s[i] == s.skip(1)[i - 1]);
            }
        }
        if front_run(s, p) < s.len() {
            assert(s[front_run(s, p) as int] == s.skip(1)[front_run(s, p) - 1]);
        }
        if 0 <= n <= s.len() && (forall|i: int| 0 <= i < n ==> p(#[trigger] s[i])) && (n < s.len()
            ==> !p(s[n])) {
            assert(n > 0);
            assert forall|i: int| 0 <= i < n - 1 implies p(#[trigger] s.skip(1)[i]) by {
                assert(s.skip(1)[i] == s[i + 1]);
            }
            if n < s.len() {
                assert(s.skip(1)[n - 1] == s[n]);
            }
        }
    } else if s.len() > 0 {
        if 0 < n <= s.len() && (forall|i: int| 0 <= i < n ==> p(#[trigger] s[i])) {
            assert(p(s[0]));
        }
    }
}

/// The same of the run at the end.
pub proof fn lemma_back_run<T>(s: Seq<T>, p: spec_fn(T) -> bool, n: int)
    ensures
        back_run(s, p) <= s.len(),
        forall|i: int| s.len() - back_run(s, p) <= i < s.len() ==> p(#[trigger] s[i]),
        back_run(s, p) < s.len() ==> !p(s[s.len() - back_run(s, p) - 1]),
        (0 <= n <= s.len() && (forall|i: int| s.len() - n <= i < s.len() ==> p(#[trigger] s[i]))
            && (n < s.len() ==> !p(s[s.len() - n - 1]))) ==> n == back_run(s, p),
    decreases s.len(),
{
    if s.len() > 0 && p(s.last()) {
        let t = s.drop_last();
        lemma_back_run(t, p, n - 1);
        assert forall|i: int| s.len() - back_run(s, p) <= i < s.len() implies p(
            #[trigger] s[i],
        ) by {
            if i < t.len() {
                assert(s[i] == t[i]);
            }
        }
        if 0 <= n <= s.len() && (forall|i: int|
            s.len() - n <= i < s.len() ==> p(#[trigger] s[i])) && (n < s.len() ==> !p(
            s[s.len() - n - 1],
        )) {
            if n == 0 {
                assert(p(s[s.len() - n - 1]));
            }
            assert forall|i: int| t.len() - (n - 1) <= i < t.len() implies p(#[trigger] t[i]) by {
                assert(t[i] == s[i]);
            }
        }
    } else if s.len() > 0 {
        if 0 < n <= s.len() && (forall|i: int| s.len() - n <= i < s.len() ==> p(#[trigger] s[i])) {
            assert(p(s[s.len() - 1]));
        }
    }
}

/// Whether a text is not empty and has no white space around it.
pub open spec fn is_trimmed(s: Seq<char>) -> bool {
    s.len() > 0 && !is_whitespace(s[0]) && !is_whitespace(s.last())
}

/// Whether all of a text is white space.
pub open spec fn is_blank(s: Seq<char>) -> bool {
    forall|i: int| 0 <= i < s.len() ==> is_whitespace(#[trigger] s[i])
}

/// Trimming takes away white space around a text and nothing else.
pub proof fn law_trim_padded(front: Seq<char>, s: Seq<char>, back: Seq<char>)
    requires
        is_blank(front),
        is_trimmed(s),
        is_blank(back),
    ensures
        trim(front + s + back) == s,
        trim_start(front + s + back) == s + back,
{
    let p = |c: char| is_whitespace(c);
    let whole = front + s + back;
    assert forall|i: int| 0 <= i < front.len() implies p(#[trigger] whole[i]) by {
        assert(whole[i] == front[i]);
    }
    assert(whole[front.len() as int] == s[0]);
    lemma_front_run(whole, p, front.len() as int);
    let t = trim_start(whole);
    assert(t =~= s + back);
    assert forall|i: int| s.len() <= i < t.len() implies p(#[trigger] t[i]) by {
        assert(t[i] == back[i - s.len()]);
    }
    assert(t[s.len() - 1] == s.last());
    lemma_back_run(t, p, back.len() as int);
    assert(trim(whole) =~= s);
}

/// What trimming leaves is trimmed, or nothing.
pub proof fn law_trim_is_trimmed(s: Seq<char>)
    ensures
        trim(s).len() == 0 || is_trimmed(trim(s)),
        trim(s).len() == 0 <==> is_blank(s),
        trim(trim(s)) == trim(s),
{
    let p = |c: char| is_whitespace(c);
    lemma_front_run(s, p, s.len() as int);
    let t = trim_start(s);
    lemma_back_run(t, p, t.len() as int);
    let n = front_run(s, p) as int;
    let u = trim(s);
    if n < s.len() {
        assert(t[0] == s[n]);
        assert(!p(t[0]));
        assert(back_run(t, p) < t.len());
        assert(u[0] == t[0]);
        assert(u.last() == t[u.len() - 1]);
        assert(!p(t[t.len() - back_run(t, p) - 1]));
        law_trim_padded(Seq::empty(), u, Seq::empty());
        assert(Seq::<char>::empty() + u + Seq::<char>::empty() =~= u);
        assert(!is_whitespace(s[n]));
    } else {
        assert(t.len() == 0);
        assert(u.len() == 0);
        assert(trim(u) =~= u) by {
            lemma_front_run(u, p, 0);
            lemma_back_run(trim_start(u), p, 0);
        }
        assert forall|i: int| 0 <= i < s.len() implies is_whitespace(#[trigger] s[i]) by {
            assert(p(s[i]));
        }
    }
}

/// The run of a character at the front of a text, when another follows it.
pub proof fn lemma_leading_run(c: char, n: nat, rest: Seq<char>)
    requires
        rest.len() > 0 ==> rest[0] != c,
    ensures
        leading_count(Seq::new(n, |i: int| c) + rest, c) == n,
        trim_start_char(Seq::new(n, |i: int| c) + rest, c) == rest,
{
    let run = Seq::new(n, |i: int| c);
    let whole = run + rest;
    let p = is_char(c);
    assert forall|i: int| 0 <= i < n implies p(#[trigger] whole[i]) by {
        assert(whole[i] == run[i]);
    }
    if rest.len() > 0 {
        assert(whole[n as int] == rest[0]);
    }
    lemma_front_run(whole, p, n as int);
    assert(whole.skip(n as int) =~= rest);
}

/// Whether `c` is white space.
pub fn is_whitespace_char(c: char) -> (r: bool)
    ensures
        r == is_whitespace(c),
{
    let n: u32 = c as u32;
    (0x09 <= n && n <= 0x0d) || n == 0x20 || n == 0x85 || n == 0xa0 || n == 0x1680 || (0x2000 <= n
        && n <= 0x200a) || n == 0x2028 || n == 0x2029 || n == 0x202f || n == 0x205f || n == 0x3000
}

/// The characters of a string.
pub fn chars_of(s: &str) -> (r: Vec<char>)
    ensures
        r@ == s@,
{
    let mut out: Vec<char> = Vec::new();
    for c in it: s.chars()
        invariant
            out@ == it.seq().take(it.index()),
            it.seq() == s@,
    {
        out.push(c);
    }
    out
}

/// The string of some characters.
pub fn string_of(s: &[char]) -> (r: String)
    ensures
        r@ == s@,
{
    let mut out: String = String::new();
    for i in 0..s.len()
        invariant
            out@ == s@.take(i as int),
    {
        out.push(s[i]);
    }
    out
}

/// The length of the white space at the front of `s`.
fn whitespace_at_front(s: &[char]) -> (n: usize)
    ensures
        n == front_run(s@, |c: char| is_whitespace(c)),
        n <= s@.len(),
{
    let ghost p = |c: char| is_whitespace(c);
    let mut n: usize = 0;
    while n < s.len() && is_whitespace_char(s[n])
        invariant
            n <= s@.len(),
            forall|i: int| 0 <= i < n ==> is_whitespace(#[trigger] s@[i]),
        decreases s@.len() - n,
    {
        n = n + 1;
    }
    proof {
        lemma_front_run(s@, p, n as int);
        assert(n < s@.len() ==> !p(s@[n as int]));
        assert forall|i: int| 0 <= i < n implies p(#[trigger] s@[i]) by {}
    }
    n
}

/// `s` without its leading white space.
pub fn trim_start_of(s: &[char]) -> (r: &[char])
    ensures
        r@ == trim_start(s@),
{
    let n: usize = whitespace_at_front(s);
    slice_subrange(s, n, s.len())
}

/// `s` without its trailing white space.
pub fn trim_end_of(s: &[char]) -> (r: &[char])
    ensures
        r@ == trim_end(s@),
{
    let ghost p = |c: char| is_whitespace(c);
    let mut end: usize = s.len();
    while end > 0 && is_whitespace_char(s[end - 1])
        invariant
            end <= s@.len(),
            forall|i: int| end <= i < s@.len() ==> is_whitespace(#[trigger] s@[i]),
        decreases end,
    {
        end = end - 1;
    }
    proof {
        lemma_back_run(s@, p, s@.len() - end);
        assert forall|i: int| end <= i < s@.len() implies p(#[trigger] s@[i]) by {}
        assert(end > 0 ==> !p(s@[end - 1]));
    }
    slice_subrange(s, 0, end)
}

/// `s` without its leading and its trailing white space.
pub fn trim_of(s: &[char]) -> (r: &[char])
    ensures
        r@ == trim(s@),
{
    trim_end_of(trim_start_of(s))
}

/// How many times `c` stands at the front of `s`.
pub fn count_leading(s: &[char], c: char) -> (n: usize)
    ensures
        n == leading_count(s@, c),
        n <= s@.len(),
{
    let ghost p = is_char(c);
    let mut n: usize = 0;
    while n < s.len() && s[n] == c
        invariant
            n <= s@.len(),
            forall|i: int| 0 <= i < n ==> #[trigger] s@[i] == c,
        decreases s@.len() - n,
    {
        n = n + 1;
    }
    proof {
        lemma_front_run(s@, p, n as int);
        assert(n < s@.len() ==> !p(s@[n as int]));
        assert forall|i: int| 0 <= i < n implies p(#[trigger] s@[i]) by {}
    }
    n
}

/// `s` without the run of `c` at its front.
pub fn trim_start_char_of(s: &[char], c: char) -> (r: &[char])
    ensures
        r@ == trim_start_char(s@, c),
{
    let n: usize = count_leading(s, c);
    slice_subrange(s, n, s.len())
}

/// `s` without the run of `c` at its end.
pub fn trim_end_char_of(s: &[char], c: char) -> (r: &[char])
    ensures
        r@ == trim_end_char(s@, c),
{
    let ghost p = is_char(c);
    let mut end: usize = s.len();
    while end > 0 && s[end - 1] == c
        invariant
            end <= s@.len(),
            forall|i: int| end <= i < s@.len() ==> #[trigger] s@[i] == c,
        decreases end,
    {
        end = end - 1;
    }
    proof {
        lemma_back_run(s@, p, s@.len() - end);
        assert forall|i: int| end <= i < s@.len() implies p(#[trigger] s@[i]) by {}
        assert(end > 0 ==> !p(s@[end - 1]));
    }
    slice_subrange(s, 0, end)
}

/// Whether `pat` stands in `s` at position `i`.
fn stands_at(s: &[char], pat: &[char], i: usize) -> (r: bool)
    requires
        i + pat@.len() <= s@.len(),
    ensures
        r == occurs_at(s@, pat@, i as int),
{
    let n: usize = s.len();
    for k in 0..pat.len()
        invariant
            n == s@.len(),
            i + pat@.len() <= n,
            forall|j: int| 0 <= j < k ==> s@[i + j] == #[trigger] pat@[j],
    {
        if s[i + k] != pat[k] {
            assert(s@.subrange(i as int, i + pat@.len())[k as int] != pat@[k as int]);
            return false;
        }
    }
    assert(s@.subrange(i as int, i + pat@.len()) =~= pat@);
    true
}

/// Whether `s` starts with `pat`.
pub fn has_prefix(s: &[char], pat: &[char]) -> (r: bool)
    ensures
        r == pat@.is_prefix_of(s@),
{
    pat.len() <= s.len() && stands_at(s, pat, 0)
}

/// Whether `s` ends with `pat`.
pub fn has_suffix(s: &[char], pat: &[char]) -> (r: bool)
    ensures
        r == pat@.is_suffix_of(s@),
{
    pat.len() <= s.len() && stands_at(s, pat, s.len() - pat.len())
}

/// The rest of `s` after the prefix `pat`, if `s` starts with it.
pub fn after_prefix<'a>(s: &'a [char], pat: &[char]) -> (r: Option<&'a [char]>)
    ensures
        strip_prefix(s@, pat@) == (match r {
            Some(rest) => Some(rest@),
            None => None,
        }),
{
    if has_prefix(s, pat) {
        Some(slice_subrange(s, pat.len(), s.len()))
    } else {
        None
    }
}

/// What stands before the suffix `pat` of `s`, if `s` ends with it.
pub fn before_suffix<'a>(s: &'a [char], pat: &[char]) -> (r: Option<&'a [char]>)
    ensures
        strip_suffix(s@, pat@) == (match r {
            Some(front) => Some(front@),
            None => None,
        }),
{
    if has_suffix(s, pat) {
        Some(slice_subrange(s, 0, s.len() - pat.len()))
    } else {
        None
    }
}

/// The first position at which `pat` stands in `s`.
pub fn find(s: &[char], pat: &[char]) -> (r: Option<usize>)
    ensures
        find_from(s@, pat@, 0) == (match r {
            Some(i) => Some(i as int),
            None => None,
        }),
        r matches Some(i) ==> occurs_at(s@, pat@, i as int),
{
    if pat.len() > s.len() {
        return None;
    }
    let mut i: usize = 0;
    while i <= s.len() - pat.len()
        invariant
            pat@.len() <= s@.len(),
            i <= s@.len() - pat@.len() + 1,
            find_from(s@, pat@, 0) == find_from(s@, pat@, i as int),
        decreases s@.len() + 1 - i,
    {
        if stands_at(s, pat, i) {
            return Some(i);
        }
        if i == s.len() - pat.len() {
            assert(find_from(s@, pat@, i + 1) is None);
            return None;
        }
        i = i + 1;
    }
    None
}

/// The lines of `s`.
pub fn lines_of<'a>(s: &'a [char]) -> (r: Vec<&'a [char]>)
    ensures
        slices(r@) == lines(s@),
{
    let ghost p = |c: char| c != '\n';
    let mut out: Vec<&'a [char]> = Vec::new();
    let mut start: usize = 0;
    assert(s@.skip(0) =~= s@);
    while start < s.len()
        invariant
            start <= s@.len(),
            slices(out@) + lines(s@.skip(start as int)) == lines(s@),
            p == |c: char| c != '\n',
        decreases s@.len() - start,
    {
        let ghost rest = s@.skip(start as int);
        let mut end: usize = start;
        while end < s.len() && s[end] != '\n'
            invariant
                start <= end <= s@.len(),
                forall|i: int| start <= i < end ==> #[trigger] s@[i] != '\n',
            decreases s@.len() - end,
        {
            end = end + 1;
        }
        proof {
            assert forall|i: int| 0 <= i < end - start implies p(#[trigger] rest[i]) by {
                assert(rest[i] == s@[start + i]);
            }
            if end < s@.len() {
                assert(rest[end - start] == s@[end as int]);
            }
            lemma_front_run(rest, p, end - start);
            assert(line_length(rest) == end - start);
        }
        let ghost before = out@;
        if end == s.len() {
            let line = slice_subrange(s, start, end);
            out.push(line);
            assert(line@ =~= rest);
            assert(slices(out@) =~= slices(before) + seq![rest]);
            start = end;
            assert(s@.skip(start as int) =~= Seq::<char>::empty());
        } else {
            let full = slice_subrange(s, start, end);
            assert(full@ =~= rest.take(end - start));
            let line = if full.len() > 0 && full[full.len() - 1] == '\r' {
                slice_subrange(full, 0, full.len() - 1)
            } else {
                full
            };
            assert(line@ =~= without_return(full@));
            out.push(line);
            assert(slices(out@) =~= slices(before) + seq![line@]);
            assert(rest.skip(end - start + 1) =~= s@.skip(end + 1));
            start = end + 1;
        }
    }
    assert(s@.skip(start as int) =~= Seq::<char>::empty());
    out
}

/// Appends the characters of `s` to `out`.
pub fn extend(out: &mut Vec<char>, s: &[char])
    ensures
        final(out)@ == old(out)@ + s@,
{
    let ghost before = out@;
    for i in 0..s.len()
        invariant
            out@ == before + s@.take(i as int),
    {
        out.push(s[i]);
        assert(s@.take(i + 1) =~= s@.take(i as int).push(s@[i as int]));
    }
    assert(s@.take(s@.len() as int) =~= s@);
}

/// What two lists hold together is what either holds.
pub proof fn lemma_contains_either<T>(a: Seq<T>, b: Seq<T>, x: T)
    ensures
        (a + b).contains(x) <==> a.contains(x) || b.contains(x),
{
    if a.contains(x) {
        let i = choose|i: int| 0 <= i < a.len() && a[i] == x;
        assert((a + b)[i] == x);
    }
    if b.contains(x) {
        let i = choose|i: int| 0 <= i < b.len() && b[i] == x;
        assert((a + b)[a.len() + i] == x);
    }
    if (a + b).contains(x) {
        let i = choose|i: int| 0 <= i < (a + b).len() && (a + b)[i] == x;
        if i < a.len() {
            assert(a[i] == x);
        } else {
            assert(b[i - a.len()] == x);
        }
    }
}

/// A position that was found is one at which the pattern stands.
pub proof fn lemma_find_from(s: Seq<char>, pat: Seq<char>, i: int)
    requires
        0 <= i,
    ensures
        find_from(s, pat, i) matches Some(k) ==> i <= k && occurs_at(s, pat, k),
    decreases s.len() + 1 - i,
{
    if i + pat.len() <= s.len() && !occurs_at(s, pat, i) {
        lemma_find_from(s, pat, i + 1);
    }
}

/// The first position at which a pattern stands is found.
pub proof fn lemma_found(s: Seq<char>, pat: Seq<char>, i: int, n: int)
    requires
        0 <= i <= n,
        occurs_at(s, pat, n),
        forall|k: int| i <= k < n ==> !#[trigger] occurs_at(s, pat, k),
    ensures
        find_from(s, pat, i) == Some(n),
    decreases n - i,
{
    if i < n {
        assert(!occurs_at(s, pat, i));
        lemma_found(s, pat, i + 1, n);
    }
}

} // verus!

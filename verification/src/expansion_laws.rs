//! What holds of inlining files, whatever the files hold.

use crate::includes;
use crate::includes::Expanded;
use crate::path_laws;
use crate::paths;
use crate::text;
use crate::text_laws;
use vstd::prelude::*;
use vstd::utf8::*;

verus! {

/// Whether everything is known: of each path, its text or that it cannot be
/// read.
pub open spec fn knows_all(files: Map<Seq<u8>, Option<Seq<char>>>) -> bool {
    forall|p: Seq<u8>| #[trigger] files.dom().contains(p)
}

/// The files whose contents a directive depends on, in the order in which they
/// are read.
pub open spec fn inclusion_reads(
    target: Seq<char>,
    dir: Seq<u8>,
    root: Option<Seq<u8>>,
    depth: nat,
    files: Map<Seq<u8>, Option<Seq<char>>>,
) -> Seq<Seq<u8>>
    decreases includes::MAX_DEPTH + 1 - depth, 0nat, 0nat,
{
    match includes::resolve(target, dir, root) {
        None => Seq::empty(),
        Some(file) => match files[file] {
            None => seq![file],
            Some(content) => if depth > includes::MAX_DEPTH {
                seq![file]
            } else {
                seq![file] + reads(content, file, root, depth + 1, files)
            },
        },
    }
}

/// The files whose contents some lines depend on.
pub open spec fn line_reads(
    lines: Seq<Seq<char>>,
    dir: Seq<u8>,
    root: Option<Seq<u8>>,
    depth: nat,
    files: Map<Seq<u8>, Option<Seq<char>>>,
) -> Seq<Seq<u8>>
    decreases includes::MAX_DEPTH + 1 - depth, 1nat, lines.len(),
{
    if lines.len() == 0 {
        Seq::empty()
    } else {
        let line = text::trim_start(lines[0]);
        proof {
            includes::lemma_after_fence(lines.skip(1), includes::fence(line));
        }
        match includes::directive(line) {
            None => line_reads(lines.skip(1), dir, root, depth, files),
            Some(target) => inclusion_reads(target, dir, root, depth, files) + line_reads(
                includes::after_fence(lines.skip(1), includes::fence(line)),
                dir,
                root,
                depth,
                files,
            ),
        }
    }
}

/// The files whose contents a text depends on.
pub open spec fn reads(
    content: Seq<char>,
    path: Seq<u8>,
    root: Option<Seq<u8>>,
    depth: nat,
    files: Map<Seq<u8>, Option<Seq<char>>>,
) -> Seq<Seq<u8>>
    decreases includes::MAX_DEPTH + 1 - depth, 2nat, 0nat,
{
    if depth > includes::MAX_DEPTH {
        Seq::empty()
    } else {
        line_reads(text::lines(content), includes::directory(path), root, depth, files)
    }
}

/// What the outcome with some knowledge says of the outcome with more: a text
/// stays the same, and a file that is asked for is not known yet and is one of
/// those that the text depends on.
pub open spec fn foretells(
    less: Expanded,
    more: Expanded,
    known: Map<Seq<u8>, Option<Seq<char>>>,
    needed: Seq<Seq<u8>>,
) -> bool {
    &&& more is Done
    &&& match less {
        Expanded::Done(s) => more == Expanded::Done(s),
        Expanded::Needs(p) => !known.dom().contains(p) && needed.contains(p),
    }
}

proof fn lemma_inclusion(
    target: Seq<char>,
    dir: Seq<u8>,
    root: Option<Seq<u8>>,
    depth: nat,
    known: Map<Seq<u8>, Option<Seq<char>>>,
    files: Map<Seq<u8>, Option<Seq<char>>>,
)
    requires
        knows_all(files),
        known.submap_of(files),
    ensures
        foretells(
            includes::inclusion(target, dir, root, depth, known),
            includes::inclusion(target, dir, root, depth, files),
            known,
            inclusion_reads(target, dir, root, depth, files),
        ),
    decreases includes::MAX_DEPTH + 1 - depth, 0nat, 0nat,
{
    match includes::resolve(target, dir, root) {
        None => {},
        Some(file) => {
            let needed = inclusion_reads(target, dir, root, depth, files);
            assert(files.dom().contains(file));
            assert(needed[0] == file);
            if known.dom().contains(file) {
                assert(known[file] == files[file]);
            }
            match files[file] {
                None => {},
                Some(content) => {
                    if depth <= includes::MAX_DEPTH {
                        law_expansion(content, file, root, depth + 1, known, files);
                        let inner = reads(content, file, root, depth + 1, files);
                        assert(needed == seq![file] + inner);
                        assert forall|p: Seq<u8>| inner.contains(p) implies needed.contains(p) by {
                            text::lemma_contains_either(seq![file], inner, p);
                        }
                    }
                },
            }
        },
    }
}

proof fn lemma_lines(
    lines: Seq<Seq<char>>,
    dir: Seq<u8>,
    root: Option<Seq<u8>>,
    depth: nat,
    known: Map<Seq<u8>, Option<Seq<char>>>,
    files: Map<Seq<u8>, Option<Seq<char>>>,
)
    requires
        knows_all(files),
        known.submap_of(files),
    ensures
        foretells(
            includes::expand_lines(lines, dir, root, depth, known),
            includes::expand_lines(lines, dir, root, depth, files),
            known,
            line_reads(lines, dir, root, depth, files),
        ),
    decreases includes::MAX_DEPTH + 1 - depth, 1nat, lines.len(),
{
    if lines.len() > 0 {
        let line = text::trim_start(lines[0]);
        match includes::directive(line) {
            None => {
                lemma_lines(lines.skip(1), dir, root, depth, known, files);
            },
            Some(target) => {
                let tail = includes::after_fence(lines.skip(1), includes::fence(line));
                includes::lemma_after_fence(lines.skip(1), includes::fence(line));
                lemma_inclusion(target, dir, root, depth, known, files);
                lemma_lines(tail, dir, root, depth, known, files);
                let a = inclusion_reads(target, dir, root, depth, files);
                let b = line_reads(tail, dir, root, depth, files);
                assert(line_reads(lines, dir, root, depth, files) == a + b);
                assert forall|p: Seq<u8>| a.contains(p) || b.contains(p) implies (a + b).contains(
                    p,
                ) by {
                    text::lemma_contains_either(a, b, p);
                }
            },
        }
    }
}

/// Inlining with some files known agrees with inlining with all of them known.
/// With all known there is always a text. A text that was found with fewer
/// known is that text. A file that is asked for instead is not known yet and is
/// one of the finitely many that the text depends on, so asking ends.
pub proof fn law_expansion(
    content: Seq<char>,
    path: Seq<u8>,
    root: Option<Seq<u8>>,
    depth: nat,
    known: Map<Seq<u8>, Option<Seq<char>>>,
    files: Map<Seq<u8>, Option<Seq<char>>>,
)
    requires
        knows_all(files),
        known.submap_of(files),
    ensures
        foretells(
            includes::expand(content, path, root, depth, known),
            includes::expand(content, path, root, depth, files),
            known,
            reads(content, path, root, depth, files),
        ),
    decreases includes::MAX_DEPTH + 1 - depth, 2nat, 0nat,
{
    if depth <= includes::MAX_DEPTH {
        lemma_lines(
            text::lines(content),
            includes::directory(path),
            root,
            depth,
            known,
            files,
        );
    }
}

/// Some lines, each ended with a newline.
pub open spec fn ended_lines(lines: Seq<Seq<char>>) -> Seq<char>
    decreases lines.len(),
{
    if lines.len() == 0 {
        Seq::empty()
    } else {
        lines[0].push('\n') + ended_lines(lines.skip(1))
    }
}

proof fn lemma_no_directive(
    lines: Seq<Seq<char>>,
    dir: Seq<u8>,
    root: Option<Seq<u8>>,
    depth: nat,
    known: Map<Seq<u8>, Option<Seq<char>>>,
)
    requires
        forall|i: int|
            0 <= i < lines.len() ==> includes::directive(
                text::trim_start(#[trigger] lines[i]),
            ) is None,
    ensures
        includes::expand_lines(lines, dir, root, depth, known) == Expanded::Done(
            ended_lines(lines),
        ),
    decreases lines.len(),
{
    if lines.len() > 0 {
        let rest = lines.skip(1);
        assert forall|i: int| 0 <= i < rest.len() implies includes::directive(
            text::trim_start(#[trigger] rest[i]),
        ) is None by {
            assert(rest[i] == lines[i + 1]);
        }
        lemma_no_directive(rest, dir, root, depth, known);
    }
}

/// A text without a directive needs no file and keeps its lines.
pub proof fn law_text_without_directive(
    content: Seq<char>,
    path: Seq<u8>,
    root: Option<Seq<u8>>,
    depth: nat,
    known: Map<Seq<u8>, Option<Seq<char>>>,
)
    requires
        depth <= includes::MAX_DEPTH,
        forall|i: int|
            0 <= i < text::lines(content).len() ==> includes::directive(
                text::trim_start(#[trigger] text::lines(content)[i]),
            ) is None,
    ensures
        includes::expand(content, path, root, depth, known) == Expanded::Done(
            ended_lines(text::lines(content)),
        ),
{
    lemma_no_directive(text::lines(content), includes::directory(path), root, depth, known);
}

/// A directive and the lines down to the one that closes its fence are replaced
/// with what the directive stands for; the lines after them are expanded in
/// turn.
pub proof fn law_directive_replaced(
    lines: Seq<Seq<char>>,
    target: Seq<char>,
    close: int,
    dir: Seq<u8>,
    root: Option<Seq<u8>>,
    depth: nat,
    known: Map<Seq<u8>, Option<Seq<char>>>,
)
    requires
        0 < close < lines.len(),
        includes::directive(text::trim_start(lines[0])) == Some(target),
        includes::fence(text::trim_start(lines[0])).is_prefix_of(text::trim(lines[close])),
        forall|i: int|
            0 < i < close ==> !includes::fence(text::trim_start(lines[0])).is_prefix_of(
                text::trim(#[trigger] lines[i]),
            ),
    ensures
        includes::expand_lines(lines, dir, root, depth, known) == (match includes::inclusion(
            target,
            dir,
            root,
            depth,
            known,
        ) {
            Expanded::Needs(p) => Expanded::Needs(p),
            Expanded::Done(s) => includes::prepend(
                s,
                includes::expand_lines(lines.skip(close + 1), dir, root, depth, known),
            ),
        }),
{
    let fence = includes::fence(text::trim_start(lines[0]));
    lemma_first_close(lines, 1, close, fence);
}

proof fn lemma_first_close(lines: Seq<Seq<char>>, from: int, close: int, fence: Seq<char>)
    requires
        0 <= from <= close < lines.len(),
        fence.is_prefix_of(text::trim(lines[close])),
        forall|i: int|
            from <= i < close ==> !fence.is_prefix_of(text::trim(#[trigger] lines[i])),
    ensures
        includes::after_fence(lines.skip(from), fence) == lines.skip(close + 1),
    decreases close - from,
{
    let rest = lines.skip(from);
    assert(rest[0] == lines[from]);
    assert(rest.skip(1) =~= lines.skip(from + 1));
    if from < close {
        lemma_first_close(lines, from + 1, close, fence);
    }
}

/// A line is a directive if it is a fence of at least three backticks or colons,
/// `{include}` and a path, whatever white space stands between and behind them;
/// the path and the fence are read as they stand.
pub proof fn law_directive_recognised(
    mark: char,
    size: nat,
    pad: Seq<char>,
    gap: Seq<char>,
    target: Seq<char>,
    back: Seq<char>,
)
    requires
        mark == '`' || mark == ':',
        size >= 3,
        text::is_blank(pad),
        text::is_blank(gap),
        text::is_blank(back),
        text::is_trimmed(target),
    ensures
        ({
            let run = Seq::new(size, |i: int| mark);
            let line = run + pad + "{include}"@ + gap + target + back;
            includes::directive(line) == Some(target) && includes::fence(line) == run
        }),
{
    let run = Seq::new(size, |i: int| mark);
    let line = run + pad + "{include}"@ + gap + target + back;
    let none = Seq::<char>::empty();
    reveal_strlit("{include}");
    reveal_strlit("```");
    reveal_strlit(":::");
    let body = "{include}"@ + gap + target;
    let rest = pad + body + back;
    assert(line =~= run + rest);
    assert(rest[0] != mark) by {
        if pad.len() > 0 {
            assert(rest[0] == pad[0]);
            assert(text::is_whitespace(pad[0]));
        } else {
            assert(rest[0] == '{');
        }
    }
    text::lemma_leading_run(mark, size, rest);
    assert(line[0] == mark && line[1] == mark && line[2] == mark);
    if mark == '`' {
        assert("```"@ =~= line.subrange(0, 3));
    } else {
        assert(":::"@ =~= line.subrange(0, 3));
        assert("```"@[0] != line.subrange(0, 3)[0]);
    }
    assert(body.last() == target.last());
    assert(text::is_trimmed(body));
    text::law_trim_padded(pad, body, back);
    assert("{include}"@ =~= body.subrange(0, 9));
    assert(body.skip(9) =~= gap + target + none);
    text::law_trim_padded(gap, target, none);
    assert(includes::fence(line) =~= run);
}

/// No other line is a directive: one that names a path is made of a fence of at
/// least three backticks or colons, `{include}` and the path, with nothing but
/// white space between and behind them. The parts are handed out.
pub proof fn law_nothing_else_is_a_directive(line: Seq<char>) -> (r: (
    char,
    nat,
    Seq<char>,
    Seq<char>,
    Seq<char>,
))
    ensures
        includes::directive(line) matches Some(target) ==> {
            let (mark, size, pad, gap, back) = r;
            &&& mark == '`' || mark == ':'
            &&& size >= 3
            &&& text::is_blank(pad) && text::is_blank(gap) && text::is_blank(back)
            &&& text::is_trimmed(target)
            &&& line == Seq::new(size, |i: int| mark) + pad + "{include}"@ + gap + target + back
        },
{
    if includes::directive(line) is None {
        ('`', 0, Seq::empty(), Seq::empty(), Seq::empty())
    } else {
        let target = includes::directive(line)->0;
        let mark = if "```"@.is_prefix_of(line) {
            '`'
        } else {
            ':'
        };
        reveal_strlit("```");
        reveal_strlit(":::");
        let p = text::is_char(mark);
        let size = text::leading_count(line, mark);
        text::lemma_front_run(line, p, 0);
        let front = if mark == '`' {
            "```"@
        } else {
            ":::"@
        };
        assert(front.is_prefix_of(line));
        assert(forall|i: int| 0 <= i < 3 ==> line[i] == #[trigger] line.subrange(0, 3)[i]);
        assert(line[0] == mark && line[1] == mark && line[2] == mark) by {
            assert(line.subrange(0, 3) == front);
            assert(line[0] == line.subrange(0, 3)[0]);
            assert(line[1] == line.subrange(0, 3)[1]);
            assert(line[2] == line.subrange(0, 3)[2]);
        }
        assert(size >= 3);
        let run = Seq::new(size, |i: int| mark);
        let rest = text::trim_start_char(line, mark);
        assert(line =~= run + rest) by {
            assert forall|i: int| 0 <= i < size implies line[i] == run[i] by {
                assert(p(line[i]));
            }
        }
        let (pad, back1) = text_laws::law_trim_keeps_the_rest(rest);
        let body = text::trim(rest);
        let after = body.skip("{include}"@.len() as int);
        text_laws::law_prefix_taken_off(body, "{include}"@, after);
        let (gap, back2) = text_laws::law_trim_keeps_the_rest(after);
        text::law_trim_is_trimmed(after);
        let back = back2 + back1;
        assert forall|i: int| 0 <= i < back.len() implies text::is_whitespace(#[trigger] back[i]) by {
            if i < back2.len() {
                assert(back[i] == back2[i]);
            } else {
                assert(back[i] == back1[i - back2.len()]);
            }
        }
        assert(line =~= run + pad + "{include}"@ + gap + target + back);
        (mark, size, pad, gap, back)
    }
}

/// A path that does not start with a slash is looked for from the directory of
/// the page, as it stands: the file's path starts with that directory and ends
/// with the whole of the path named. Its components are those of the two, parent
/// directories with them, unless it starts at the current directory.
pub proof fn law_relative_target(target: Seq<char>, dir: Seq<u8>, root: Option<Seq<u8>>)
    requires
        target.len() > 0,
        target[0] != '/',
    ensures
        includes::resolve(target, dir, root) matches Some(file) && {
            let rel = encode_utf8(target);
            &&& dir.is_prefix_of(file)
            &&& rel.is_suffix_of(file)
            &&& dir.len() == 0 || dir.last() == 0x2f ==> file.len() == dir.len() + rel.len()
            &&& dir.len() > 0 && dir.last() != 0x2f ==> file.len() == dir.len() + 1 + rel.len()
                && file[dir.len() as int] == 0x2f
            &&& !paths::starts_at_dot(rel) ==> paths::components(file) == paths::components(dir)
                + paths::components(rel)
        },
{
    let rel = encode_utf8(target);
    path_laws::lemma_first_byte(target);
    path_laws::law_joined_path(dir, rel);
    if !paths::starts_at_dot(rel) {
        path_laws::law_join_components(dir, rel);
    }
}

/// A path that starts with slashes is looked for from the documentation root,
/// without them and wherever the page lies, and nowhere if there is no root.
pub proof fn law_rooted_target(slashes: nat, rest: Seq<char>, dir: Seq<u8>, root: Seq<u8>)
    requires
        slashes > 0,
        rest.len() > 0 ==> rest[0] != '/',
    ensures
        ({
            let target = Seq::new(slashes, |i: int| '/') + rest;
            &&& includes::resolve(target, dir, None) is None
            &&& includes::resolve(target, dir, Some(root)) matches Some(file) && {
                let rel = encode_utf8(rest);
                &&& root.is_prefix_of(file)
                &&& rel.is_suffix_of(file)
                &&& root.len() == 0 || root.last() == 0x2f ==> file.len() == root.len() + rel.len()
                &&& root.len() > 0 && root.last() != 0x2f ==> file.len() == root.len() + 1
                    + rel.len() && file[root.len() as int] == 0x2f
            }
        }),
{
    let target = Seq::new(slashes, |i: int| '/') + rest;
    assert(target[0] == '/');
    text::lemma_leading_run('/', slashes, rest);
    let rel = encode_utf8(rest);
    if rest.len() > 0 {
        path_laws::lemma_first_byte(rest);
    } else {
        assert(rel =~= Seq::<u8>::empty());
    }
    path_laws::law_joined_path(root, rel);
}

/// The directory of a page is the one that it lies in; a page without one lies
/// in the current directory, under an empty path.
pub proof fn law_directory_of_page(base: Seq<u8>, dir_name: Seq<u8>, name: Seq<u8>)
    requires
        path_laws::is_plain_name(dir_name),
        path_laws::is_plain_name(name),
    ensures
        ({
            let dir = paths::join_paths(base, dir_name);
            includes::directory(paths::join_paths(dir, name)) == dir
        }),
        includes::directory(name) == Seq::<u8>::empty(),
{
    path_laws::law_parent_of_entry(base, dir_name, name);
}

/// What a directive is replaced with. A file that cannot be read leaves a mark
/// with the path as it was named, and a path without a place nothing. The text
/// of a file that can be read is inlined with the files that it names itself,
/// and ends with a newline.
pub proof fn law_what_replaces_a_directive(
    target: Seq<char>,
    dir: Seq<u8>,
    root: Option<Seq<u8>>,
    depth: nat,
    known: Map<Seq<u8>, Option<Seq<char>>>,
)
    requires
        depth <= 8,
    ensures
        ({
            let outcome = includes::inclusion(target, dir, root, depth, known);
            match includes::resolve(target, dir, root) {
                None => outcome == Expanded::Done(Seq::empty()),
                Some(file) => {
                    &&& !known.dom().contains(file) ==> outcome == Expanded::Needs(file)
                    &&& known.dom().contains(file) && known[file] is None ==> outcome
                        == Expanded::Done("[included file: "@ + target + "]\n"@)
                    &&& known.dom().contains(file) ==> (known[file] matches Some(content) ==> (
                    match includes::expand(content, file, root, depth + 1, known) {
                        Expanded::Needs(p) => outcome == Expanded::Needs(p),
                        Expanded::Done(s) => {
                            &&& s.len() > 0 && s.last() == '\n' ==> outcome == Expanded::Done(s)
                            &&& s.len() == 0 || s.last() != '\n' ==> outcome == Expanded::Done(
                                s + seq!['\n'],
                            )
                        },
                    }))
                },
            }
        }),
{
    match includes::resolve(target, dir, root) {
        None => {},
        Some(file) => {
            if known.dom().contains(file) && known[file] is Some {
                let content = known[file]->0;
                match includes::expand(content, file, root, depth + 1, known) {
                    Expanded::Needs(_) => {},
                    Expanded::Done(s) => {
                        assert(s.push('\n') =~= s + seq!['\n']);
                    },
                }
            }
        },
    }
}

/// Files are inlined line by line into a page and into those inlined into it,
/// down to eight below the page; further down a text is left as it is.
pub proof fn law_how_deep(
    content: Seq<char>,
    path: Seq<u8>,
    root: Option<Seq<u8>>,
    depth: nat,
    known: Map<Seq<u8>, Option<Seq<char>>>,
)
    ensures
        depth > 8 ==> includes::expand(content, path, root, depth, known) == Expanded::Done(content),
        depth <= 8 ==> includes::expand(content, path, root, depth, known)
            == includes::expand_lines(
            text::lines(content),
            includes::directory(path),
            root,
            depth,
            known,
        ),
{
}

/// Lines in front of the first directive are kept, each ended with a newline,
/// and do not change what follows them.
pub proof fn law_lines_in_front(
    front: Seq<Seq<char>>,
    rest: Seq<Seq<char>>,
    dir: Seq<u8>,
    root: Option<Seq<u8>>,
    depth: nat,
    known: Map<Seq<u8>, Option<Seq<char>>>,
)
    requires
        forall|i: int|
            0 <= i < front.len() ==> includes::directive(
                text::trim_start(#[trigger] front[i]),
            ) is None,
    ensures
        match includes::expand_lines(rest, dir, root, depth, known) {
            Expanded::Done(s) => includes::expand_lines(front + rest, dir, root, depth, known)
                == Expanded::Done(ended_lines(front) + s),
            Expanded::Needs(p) => includes::expand_lines(front + rest, dir, root, depth, known)
                == Expanded::Needs(p),
        },
    decreases front.len(),
{
    let all = front + rest;
    if front.len() == 0 {
        assert(all =~= rest);
        match includes::expand_lines(rest, dir, root, depth, known) {
            Expanded::Done(s) => {
                assert(Seq::<char>::empty() + s =~= s);
            },
            Expanded::Needs(_) => {},
        }
    } else {
        let tail = front.skip(1);
        assert forall|i: int| 0 <= i < tail.len() implies includes::directive(
            text::trim_start(#[trigger] tail[i]),
        ) is None by {
            assert(tail[i] == front[i + 1]);
        }
        law_lines_in_front(tail, rest, dir, root, depth, known);
        assert(all[0] == front[0]);
        assert(all.skip(1) =~= tail + rest);
        let own = front[0].push('\n');
        match includes::expand_lines(rest, dir, root, depth, known) {
            Expanded::Done(s) => {
                assert(own + (ended_lines(tail) + s) =~= own + ended_lines(tail) + s);
            },
            Expanded::Needs(_) => {},
        }
    }
}

/// A directive whose fence is never closed takes all that follows it away.
pub proof fn law_unclosed_fence(
    lines: Seq<Seq<char>>,
    target: Seq<char>,
    dir: Seq<u8>,
    root: Option<Seq<u8>>,
    depth: nat,
    known: Map<Seq<u8>, Option<Seq<char>>>,
)
    requires
        lines.len() > 0,
        includes::directive(text::trim_start(lines[0])) == Some(target),
        forall|i: int|
            0 < i < lines.len() ==> !includes::fence(text::trim_start(lines[0])).is_prefix_of(
                text::trim(#[trigger] lines[i]),
            ),
    ensures
        includes::expand_lines(lines, dir, root, depth, known) == includes::inclusion(
            target,
            dir,
            root,
            depth,
            known,
        ),
{
    let fence = includes::fence(text::trim_start(lines[0]));
    let rest = lines.skip(1);
    assert forall|i: int| 0 <= i < rest.len() implies !fence.is_prefix_of(
        text::trim(#[trigger] rest[i]),
    ) by {
        assert(rest[i] == lines[i + 1]);
    }
    lemma_never_closed(rest, fence);
    let none = Seq::<Seq<char>>::empty();
    assert(includes::expand_lines(none, dir, root, depth, known) == Expanded::Done(Seq::empty()));
    match includes::inclusion(target, dir, root, depth, known) {
        Expanded::Done(s) => {
            assert(s + Seq::<char>::empty() =~= s);
        },
        Expanded::Needs(_) => {},
    }
}

proof fn lemma_never_closed(lines: Seq<Seq<char>>, fence: Seq<char>)
    requires
        forall|i: int|
            0 <= i < lines.len() ==> !fence.is_prefix_of(text::trim(#[trigger] lines[i])),
    ensures
        includes::after_fence(lines, fence) == Seq::<Seq<char>>::empty(),
    decreases lines.len(),
{
    if lines.len() > 0 {
        let rest = lines.skip(1);
        assert forall|i: int| 0 <= i < rest.len() implies !fence.is_prefix_of(
            text::trim(#[trigger] rest[i]),
        ) by {
            assert(rest[i] == lines[i + 1]);
        }
        lemma_never_closed(rest, fence);
    }
}

} // verus!

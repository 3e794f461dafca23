//! MyST directives that inline one file into another.

use crate::paths;
use crate::paths::DocPath;
use crate::snapshot::{Known, Snapshot};
use crate::text;
use vstd::prelude::*;
use vstd::utf8::*;

verus! {

/// How deep files may be inlined into one another.
pub const MAX_DEPTH: usize = 8;

/// The path that a line names, if the line opens a directive that inlines a
/// file: a fence of at least three backticks or colons, the directive's name
/// and a path.
pub open spec fn directive(line: Seq<char>) -> Option<Seq<char>> {
    let info = if "```"@.is_prefix_of(line) {
        Some(text::trim_start_char(line, '`'))
    } else if ":::"@.is_prefix_of(line) {
        Some(text::trim_start_char(line, ':'))
    } else {
        None
    };
    match info {
        None => None,
        Some(s) => match text::strip_prefix(text::trim(s), "{include}"@) {
            None => None,
            Some(rest) => if text::trim(rest).len() == 0 {
                None
            } else {
                Some(text::trim(rest))
            },
        },
    }
}

/// The fence at the front of a line: its first character, as often as the line
/// starts with it.
pub open spec fn fence(line: Seq<char>) -> Seq<char> {
    line.take(text::leading_count(line, line[0]) as int)
}

/// The lines after the first one that closes a fence, or none if no line does.
pub open spec fn after_fence(lines: Seq<Seq<char>>, fence: Seq<char>) -> Seq<Seq<char>>
    decreases lines.len(),
{
    if lines.len() == 0 {
        Seq::empty()
    } else if fence.is_prefix_of(text::trim(lines[0])) {
        lines.skip(1)
    } else {
        after_fence(lines.skip(1), fence)
    }
}

/// The lines after a fence are the last ones of the lines given.
pub proof fn lemma_after_fence(lines: Seq<Seq<char>>, fence: Seq<char>)
    ensures
        after_fence(lines, fence).len() <= lines.len(),
        after_fence(lines, fence) == lines.skip(lines.len() - after_fence(lines, fence).len()),
    decreases lines.len(),
{
    if lines.len() > 0 && !fence.is_prefix_of(text::trim(lines[0])) {
        lemma_after_fence(lines.skip(1), fence);
    }
    assert(after_fence(lines, fence) =~= lines.skip(
        lines.len() - after_fence(lines, fence).len(),
    ));
}

/// The last position of `name` among some components.
pub open spec fn last_position(components: Seq<Seq<u8>>, name: Seq<u8>) -> Option<int>
    decreases components.len(),
{
    if components.len() == 0 {
        None
    } else if components.last() == name {
        Some(components.len() - 1)
    } else {
        last_position(components.drop_last(), name)
    }
}

/// The name `docs`.
pub open spec fn docs_name() -> Seq<u8> {
    seq![0x64u8, 0x6fu8, 0x63u8, 0x73u8]
}

/// The innermost directory named `docs` on the way to a file, or the path
/// itself if that is its name.
pub open spec fn docs_root(path: Seq<u8>) -> Option<Seq<u8>> {
    match last_position(paths::components(path), docs_name()) {
        None => None,
        Some(k) => if k == paths::components(path).len() - 1 {
            Some(path)
        } else {
            Some(path.take(paths::spans(path)[k].1))
        },
    }
}

/// The directory of a file.
pub open spec fn directory(path: Seq<u8>) -> Seq<u8> {
    match paths::parent(path) {
        Some(dir) => dir,
        None => seq![paths::DOT],
    }
}

/// The file that a directive names. A path that starts with a slash is taken
/// from the documentation root, any other from the directory of the file in
/// which the directive stands.
pub open spec fn resolve(target: Seq<char>, dir: Seq<u8>, root: Option<Seq<u8>>) -> Option<Seq<u8>> {
    if target.len() > 0 && target[0] == '/' {
        match root {
            None => None,
            Some(r) => Some(
                paths::join_paths(r, encode_utf8(text::trim_start_char(target, '/'))),
            ),
        }
    } else {
        Some(paths::join_paths(dir, encode_utf8(target)))
    }
}

/// The outcome of inlining: the text, or a file whose contents it depends on
/// and that is not known.
pub enum Expanded {
    Done(Seq<char>),
    Needs(Seq<u8>),
}

/// The outcome with some text before it.
pub open spec fn prepend(front: Seq<char>, rest: Expanded) -> Expanded {
    match rest {
        Expanded::Done(s) => Expanded::Done(front + s),
        Expanded::Needs(p) => Expanded::Needs(p),
    }
}

/// A text with a newline at its end.
pub open spec fn end_line(s: Seq<char>) -> Seq<char> {
    if s.len() > 0 && s.last() == '\n' {
        s
    } else {
        s.push('\n')
    }
}

/// What stands in place of a file that cannot be read.
pub open spec fn placeholder(target: Seq<char>) -> Seq<char> {
    "[included file: "@ + target + "]\n"@
}

/// What a directive is replaced with: the named file, with the files that it
/// names inlined in turn; a placeholder if it cannot be read; nothing if there
/// is no documentation root to find it from.
pub open spec fn inclusion(
    target: Seq<char>,
    dir: Seq<u8>,
    root: Option<Seq<u8>>,
    depth: nat,
    known: Map<Seq<u8>, Option<Seq<char>>>,
) -> Expanded
    decreases MAX_DEPTH + 1 - depth, 0nat, 0nat,
{
    match resolve(target, dir, root) {
        None => Expanded::Done(Seq::empty()),
        Some(file) => if !known.dom().contains(file) {
            Expanded::Needs(file)
        } else {
            match known[file] {
                None => Expanded::Done(placeholder(target)),
                Some(content) => if depth > MAX_DEPTH {
                    Expanded::Done(end_line(content))
                } else {
                    match expand(content, file, root, depth + 1, known) {
                        Expanded::Done(s) => Expanded::Done(end_line(s)),
                        Expanded::Needs(p) => Expanded::Needs(p),
                    }
                },
            }
        },
    }
}

/// Some lines of a file with the files that they name inlined.
pub open spec fn expand_lines(
    lines: Seq<Seq<char>>,
    dir: Seq<u8>,
    root: Option<Seq<u8>>,
    depth: nat,
    known: Map<Seq<u8>, Option<Seq<char>>>,
) -> Expanded
    decreases MAX_DEPTH + 1 - depth, 1nat, lines.len(),
{
    if lines.len() == 0 {
        Expanded::Done(Seq::empty())
    } else {
        let line = text::trim_start(lines[0]);
        proof {
            lemma_after_fence(lines.skip(1), fence(line));
        }
        match directive(line) {
            None => prepend(
                lines[0].push('\n'),
                expand_lines(lines.skip(1), dir, root, depth, known),
            ),
            Some(target) => match inclusion(target, dir, root, depth, known) {
                Expanded::Needs(p) => Expanded::Needs(p),
                Expanded::Done(s) => prepend(
                    s,
                    expand_lines(after_fence(lines.skip(1), fence(line)), dir, root, depth, known),
                ),
            },
        }
    }
}

/// A file's text with the files that it names inlined. Below the greatest depth
/// the text is left as it is.
pub open spec fn expand(
    content: Seq<char>,
    path: Seq<u8>,
    root: Option<Seq<u8>>,
    depth: nat,
    known: Map<Seq<u8>, Option<Seq<char>>>,
) -> Expanded
    decreases MAX_DEPTH + 1 - depth, 2nat, 0nat,
{
    if depth > MAX_DEPTH {
        Expanded::Done(content)
    } else {
        expand_lines(text::lines(content), directory(path), root, depth, known)
    }
}

/// The outcome of inlining files into a text.
pub enum Expansion {
    /// The text.
    Done(String),
    /// A file whose contents have to be known first.
    Needs(DocPath),
}

impl View for Expansion {
    type V = Expanded;

    open spec fn view(&self) -> Expanded {
        match self {
            Expansion::Done(s) => Expanded::Done(s@),
            Expansion::Needs(p) => Expanded::Needs(p@),
        }
    }
}

/// The view of an optional path.
pub open spec fn path_view(p: Option<DocPath>) -> Option<Seq<u8>> {
    match p {
        Some(q) => Some(q@),
        None => None,
    }
}

/// The path that a line names, if the line opens a directive that inlines a
/// file.
fn directive_of(line: &[char]) -> (r: Option<&[char]>)
    ensures
        directive(line@) == (match r {
            Some(target) => Some(target@),
            None => None,
        }),
        r is Some ==> line@.len() > 0,
{
    let ticks: Vec<char> = text::chars_of("```");
    let colons: Vec<char> = text::chars_of(":::");
    proof {
        reveal_strlit("```");
        reveal_strlit(":::");
    }
    let info = if text::has_prefix(line, ticks.as_slice()) {
        text::trim_start_char_of(line, '`')
    } else if text::has_prefix(line, colons.as_slice()) {
        text::trim_start_char_of(line, ':')
    } else {
        return None;
    };
    let name: Vec<char> = text::chars_of("{include}");
    match text::after_prefix(text::trim_of(info), name.as_slice()) {
        None => None,
        Some(rest) => {
            let target = text::trim_of(rest);
            if target.len() == 0 {
                None
            } else {
                Some(target)
            }
        },
    }
}

/// The path that a line names, if the line opens a directive that inlines a
/// file.
pub fn parse_include_directive(line: &str) -> (r: Option<String>)
    ensures
        directive(line@) == (match r {
            Some(target) => Some(target@),
            None => None,
        }),
{
    let chars: Vec<char> = text::chars_of(line);
    match directive_of(chars.as_slice()) {
        Some(target) => Some(text::string_of(target)),
        None => None,
    }
}

/// The number of the line after the one that closes a fence.
fn line_after_fence(lines: &Vec<&[char]>, from: usize, fence: &[char]) -> (n: usize)
    requires
        from <= lines@.len(),
    ensures
        from <= n <= lines@.len(),
        text::slices(lines@).skip(n as int) == after_fence(
            text::slices(lines@).skip(from as int),
            fence@,
        ),
{
    let ghost all = text::slices(lines@);
    let mut n: usize = from;
    while n < lines.len()
        invariant
            from <= n <= lines@.len(),
            all == text::slices(lines@),
            after_fence(all.skip(from as int), fence@) == after_fence(all.skip(n as int), fence@),
        decreases lines@.len() - n,
    {
        assert(all.skip(n as int)[0] == lines@[n as int]@);
        assert(all.skip(n as int).skip(1) =~= all.skip(n + 1));
        if text::has_prefix(text::trim_of(lines[n]), fence) {
            return n + 1;
        }
        n = n + 1;
    }
    assert(all.skip(n as int) =~= Seq::<Seq<char>>::empty());
    n
}

/// The innermost directory named `docs` on the way to a file.
pub fn find_docs_root(path: &DocPath) -> (r: Option<DocPath>)
    ensures
        path_view(r) == docs_root(path@),
{
    let p = path.bytes.as_slice();
    let found: Vec<(usize, usize)> = paths::spans_of(p);
    let docs: [u8; 4] = [0x64, 0x6f, 0x63, 0x73];
    assert(docs@ =~= docs_name());
    proof {
        paths::lemma_spans(p@);
    }
    let mut k: usize = found.len();
    let ghost all = paths::components(p@);
    assert(all.take(k as int) =~= all);
    while k > 0
        invariant
            p@ == path@,
            k <= found@.len(),
            paths::span_view(found@) == paths::spans(p@),
            forall|j: int|
                0 <= j < paths::spans(p@).len() ==> 0 <= (#[trigger] paths::spans(p@)[j]).0
                    < paths::spans(p@)[j].1 <= p@.len(),
            all == paths::components(p@),
            docs@ == docs_name(),
            last_position(all, docs_name()) == last_position(all.take(k as int), docs_name()),
        decreases k,
    {
        assert(paths::span_view(found@)[k - 1] == (found[k - 1].0 as int, found[k - 1].1 as int));
        assert(all.take(k as int).last() == all[k - 1]);
        assert(all.take(k as int).drop_last() =~= all.take(k - 1));
        let component = vstd::slice::slice_subrange(p, found[k - 1].0, found[k - 1].1);
        if paths::same_bytes(component, docs.as_slice()) {
            if k == found.len() {
                return Some(path.copy());
            }
            let front = paths::copy_bytes(vstd::slice::slice_subrange(p, 0, found[k - 1].1));
            assert(front@ =~= p@.take(found[k - 1].1 as int));
            return Some(DocPath::from_bytes(front));
        }
        k = k - 1;
    }
    None
}

/// The directory of a file.
fn directory_of(path: &DocPath) -> (r: DocPath)
    ensures
        r@ == directory(path@),
{
    match path.parent_of() {
        Some(dir) => dir,
        None => {
            let mut bytes: Vec<u8> = Vec::new();
            bytes.push(paths::DOT);
            assert(bytes@ =~= seq![paths::DOT]);
            DocPath::from_bytes(bytes)
        },
    }
}

/// The file that a directive names.
fn resolve_target(target: &[char], dir: &DocPath, root: &Option<DocPath>) -> (r: Option<DocPath>)
    ensures
        path_view(r) == resolve(target@, dir@, path_view(*root)),
{
    if target.len() > 0 && target[0] == '/' {
        match root {
            None => None,
            Some(from) => {
                let rel: String = text::string_of(text::trim_start_char_of(target, '/'));
                Some(from.join(rel.as_str().as_bytes()))
            },
        }
    } else {
        let rel: String = text::string_of(target);
        Some(dir.join(rel.as_str().as_bytes()))
    }
}

/// Appends a text and, unless it ends with one, a newline.
fn push_ended(out: &mut Vec<char>, s: &[char])
    ensures
        final(out)@ == old(out)@ + end_line(s@),
{
    let ghost before = out@;
    text::extend(out, s);
    if s.len() == 0 || s[s.len() - 1] != '\n' {
        out.push('\n');
    }
    assert(out@ =~= before + end_line(s@));
}

/// Appends what stands in place of a file that cannot be read.
fn push_placeholder(out: &mut Vec<char>, target: &[char])
    ensures
        final(out)@ == old(out)@ + placeholder(target@),
{
    let ghost before = out@;
    text::extend(out, text::chars_of("[included file: ").as_slice());
    text::extend(out, target);
    text::extend(out, text::chars_of("]\n").as_slice());
    assert(out@ =~= before + placeholder(target@));
}

/// A file's text with the files that it names inlined, at some depth.
pub fn expand_includes_inner(
    content: &str,
    file_path: &DocPath,
    docs_root: &Option<DocPath>,
    depth: usize,
    known: &Snapshot,
) -> (r: Expansion)
    ensures
        r@ == expand(content@, file_path@, path_view(*docs_root), depth as nat, known@),
    decreases MAX_DEPTH + 1 - depth,
{
    if depth > MAX_DEPTH {
        return Expansion::Done(content.to_owned());
    }
    let dir: DocPath = directory_of(file_path);
    let ghost root = path_view(*docs_root);
    let chars: Vec<char> = text::chars_of(content);
    let lines: Vec<&[char]> = text::lines_of(chars.as_slice());
    let ghost all = text::slices(lines@);
    let mut out: Vec<char> = Vec::new();
    let mut i: usize = 0;
    assert(all.skip(0) =~= all);
    proof {
        lemma_prepend_empty(expand_lines(all, dir@, root, depth as nat, known@));
    }
    assert(out@ =~= Seq::<char>::empty());
    while i < lines.len()
        invariant
            depth <= MAX_DEPTH,
            i <= lines@.len(),
            all == text::slices(lines@),
            root == path_view(*docs_root),
            prepend(out@, expand_lines(all.skip(i as int), dir@, root, depth as nat, known@))
                == expand_lines(all, dir@, root, depth as nat, known@),
            expand_lines(all, dir@, root, depth as nat, known@) == expand(
                content@,
                file_path@,
                root,
                depth as nat,
                known@,
            ),
        decreases lines@.len() - i,
    {
        let ghost rest = all.skip(i as int);
        let ghost before = out@;
        assert(rest[0] == lines@[i as int]@);
        assert(rest.skip(1) =~= all.skip(i + 1));
        let line = text::trim_start_of(lines[i]);
        match directive_of(line) {
            None => {
                text::extend(&mut out, lines[i]);
                out.push('\n');
                i = i + 1;
                proof {
                    assert(out@ =~= before + rest[0].push('\n'));
                    lemma_prepend(
                        before,
                        rest[0].push('\n'),
                        expand_lines(all.skip(i as int), dir@, root, depth as nat, known@),
                    );
                }
            },
            Some(target) => {
                let size: usize = text::count_leading(line, line[0]);
                let mark = vstd::slice::slice_subrange(line, 0, size);
                assert(mark@ =~= fence(line@));
                let ghost tail = after_fence(rest.skip(1), fence(line@));
                i = line_after_fence(&lines, i + 1, mark);
                match resolve_target(target, &dir, docs_root) {
                    None => {
                        proof {
                            assert(out@ =~= before + Seq::<char>::empty());
                            lemma_prepend(
                                before,
                                Seq::empty(),
                                expand_lines(tail, dir@, root, depth as nat, known@),
                            );
                        }
                    },
                    Some(file) => {
                        match known.lookup(&file) {
                            Known::Unknown => {
                                assert(inclusion(target@, dir@, root, depth as nat, known@)
                                    == Expanded::Needs(file@));
                                assert(expand_lines(rest, dir@, root, depth as nat, known@)
                                    == Expanded::Needs(file@));
                                return Expansion::Needs(file);
                            },
                            Known::Unreadable => {
                                push_placeholder(&mut out, target);
                                proof {
                                    lemma_prepend(
                                        before,
                                        placeholder(target@),
                                        expand_lines(tail, dir@, root, depth as nat, known@),
                                    );
                                }
                            },
                            Known::Text(inner) => {
                                match expand_includes_inner(
                                    inner,
                                    &file,
                                    docs_root,
                                    depth + 1,
                                    known,
                                ) {
                                    Expansion::Needs(p) => {
                                        assert(inclusion(
                                            target@,
                                            dir@,
                                            root,
                                            depth as nat,
                                            known@,
                                        ) == Expanded::Needs(p@));
                                        assert(expand_lines(rest, dir@, root, depth as nat, known@)
                                            == Expanded::Needs(p@));
                                        return Expansion::Needs(p);
                                    },
                                    Expansion::Done(s) => {
                                        let ended: Vec<char> = text::chars_of(s.as_str());
                                        push_ended(&mut out, ended.as_slice());
                                        proof {
                                            lemma_prepend(
                                                before,
                                                end_line(s@),
                                                expand_lines(
                                                    tail,
                                                    dir@,
                                                    root,
                                                    depth as nat,
                                                    known@,
                                                ),
                                            );
                                        }
                                    },
                                }
                            },
                        }
                    },
                }
            },
        }
    }
    assert(all.skip(i as int) =~= Seq::<Seq<char>>::empty());
    let done: String = text::string_of(out.as_slice());
    assert(out@ + Seq::<char>::empty() =~= out@);
    Expansion::Done(done)
}

/// A file's text with the files that it names inlined, as far as the contents
/// of those files are known.
pub fn expand_includes(content: &str, file_path: &DocPath, known: &Snapshot) -> (r: Expansion)
    ensures
        r@ == expand(content@, file_path@, docs_root(file_path@), 0, known@),
{
    let root: Option<DocPath> = find_docs_root(file_path);
    expand_includes_inner(content, file_path, &root, 0, known)
}

/// A path is read back from the directive that names it: behind a fence of at
/// least three backticks or colons and the directive's name.
pub proof fn law_directive_read_back(mark: char, size: nat, target: Seq<char>)
    requires
        mark == '`' || mark == ':',
        size >= 3,
        text::is_trimmed(target),
    ensures
        directive(Seq::new(size, |i: int| mark) + "{include} "@ + target) == Some(target),
        fence(Seq::new(size, |i: int| mark) + "{include} "@ + target) == Seq::new(
            size,
            |i: int| mark,
        ),
{
    let run = Seq::new(size, |i: int| mark);
    let rest = "{include} "@ + target;
    let line = run + "{include} "@ + target;
    reveal_strlit("{include} ");
    reveal_strlit("{include}");
    reveal_strlit("```");
    reveal_strlit(":::");
    assert(line =~= run + rest);
    text::lemma_leading_run(mark, size, rest);
    assert(line[0] == mark && line[1] == mark && line[2] == mark);
    if mark == '`' {
        assert("```"@ =~= line.subrange(0, 3));
    } else {
        assert(":::"@ =~= line.subrange(0, 3));
        assert("```"@[0] != line.subrange(0, 3)[0]);
    }
    let none = Seq::<char>::empty();
    assert(text::is_trimmed(rest));
    text::law_trim_padded(none, rest, none);
    assert(none + rest + none =~= rest);
    assert("{include}"@ =~= rest.subrange(0, 9));
    let after = rest.skip(9);
    assert(after =~= seq![' '] + target + none);
    text::law_trim_padded(seq![' '], target, none);
    assert(fence(line) =~= run);
}

/// A path that a directive names is not empty and has no white space around it.
pub proof fn law_directive_target(line: Seq<char>)
    ensures
        directive(line) matches Some(target) ==> text::is_trimmed(target),
{
    let info = if "```"@.is_prefix_of(line) {
        text::trim_start_char(line, '`')
    } else {
        text::trim_start_char(line, ':')
    };
    match text::strip_prefix(text::trim(info), "{include}"@) {
        None => {},
        Some(rest) => {
            text::law_trim_is_trimmed(rest);
        },
    }
}

proof fn lemma_prepend(a: Seq<char>, b: Seq<char>, rest: Expanded)
    ensures
        prepend(a, prepend(b, rest)) == prepend(a + b, rest),
{
    match rest {
        Expanded::Done(s) => {
            assert(a + (b + s) =~= (a + b) + s);
        },
        Expanded::Needs(_) => {},
    }
}

proof fn lemma_prepend_empty(rest: Expanded)
    ensures
        prepend(Seq::empty(), rest) == rest,
{
    match rest {
        Expanded::Done(s) => {
            assert(Seq::<char>::empty() + s =~= s);
        },
        Expanded::Needs(_) => {},
    }
}

} // verus!

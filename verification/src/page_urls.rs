//! The published address of a documentation page.

use crate::base_urls::BaseUrls;
use crate::includes;
use crate::path_laws;
use crate::paths;
use crate::paths::DocPath;
use crate::text;
use vstd::prelude::*;
use vstd::utf8::*;

verus! {

/// The text of a component of a path, or nothing if it is not UTF-8.
pub open spec fn component_text(component: Seq<u8>) -> Seq<char> {
    if valid_utf8(component) {
        decode_utf8(component)
    } else {
        Seq::empty()
    }
}

/// The components below a repository without the `docs` that they may start
/// with.
pub open spec fn below_docs(components: Seq<Seq<u8>>) -> Seq<Seq<u8>> {
    if components.len() > 0 && components[0] == includes::docs_name() {
        components.skip(1)
    } else {
        components
    }
}

/// A file's name without the suffix `.md`.
pub open spec fn without_md(name: Seq<char>) -> Seq<char> {
    match text::strip_suffix(name, ".md"@) {
        Some(stem) => stem,
        None => name,
    }
}

/// The parts of a page's address that come from its path below the repository.
pub open spec fn page_parts(components: Seq<Seq<u8>>) -> Seq<Seq<char>> {
    let names = below_docs(components).map_values(|c: Seq<u8>| component_text(c));
    if names.len() > 0 {
        names.update(names.len() - 1, without_md(names.last()))
    } else {
        names
    }
}

/// The published address of a page: the address of the repository in whose
/// directory below `docs_dir` the file lies, and the file's path there.
pub open spec fn page_url(
    path: Seq<u8>,
    docs_dir: Seq<u8>,
    urls: Map<Seq<char>, Seq<char>>,
) -> Option<Seq<char>> {
    match paths::components_below(path, docs_dir) {
        None => None,
        Some(rest) => if rest.len() > 0 && valid_utf8(rest[0]) && urls.dom().contains(
            decode_utf8(rest[0]),
        ) {
            Some(
                text::trim_end_char(urls[decode_utf8(rest[0])], '/') + seq!['/'] + text::join(
                    page_parts(rest.skip(1)),
                    seq!['/'],
                ) + seq!['/'],
            )
        } else {
            None
        },
    }
}

/// Appends `parts` with slashes between them.
fn push_joined(out: &mut Vec<char>, parts: &Vec<Vec<char>>)
    ensures
        final(out)@ == old(out)@ + text::join(char_views(parts@), seq!['/']),
{
    let ghost before = out@;
    let ghost all = char_views(parts@);
    for i in 0..parts.len()
        invariant
            all == char_views(parts@),
            out@ == before + text::join(all.take(i as int), seq!['/']),
    {
        let ghost sofar = out@;
        assert(all.take(i + 1).drop_last() =~= all.take(i as int));
        assert(all.take(i + 1).last() == parts@[i as int]@);
        if i > 0 {
            out.push('/');
        }
        text::extend(out, parts[i].as_slice());
        assert(out@ =~= before + text::join(all.take(i + 1), seq!['/']));
    }
    assert(all.take(parts@.len() as int) =~= all);
}

/// The views of a list of character strings.
pub open spec fn char_views(v: Seq<Vec<char>>) -> Seq<Seq<char>> {
    v.map_values(|s: Vec<char>| s@)
}

/// The parts of a page's address that come from its path.
fn page_parts_of(components: &Vec<Vec<u8>>, from: usize) -> (r: Vec<Vec<char>>)
    requires
        from <= components@.len(),
    ensures
        char_views(r@) == page_parts(paths::byte_views(components@).skip(from as int)),
{
    let docs: [u8; 4] = [0x64, 0x6f, 0x63, 0x73];
    assert(docs@ =~= includes::docs_name());
    let ghost all = paths::byte_views(components@);
    let ghost rest = all.skip(from as int);
    let mut first: usize = from;
    if from < components.len() && paths::same_bytes(components[from].as_slice(), docs.as_slice()) {
        first = from + 1;
    }
    assert(below_docs(rest) =~= all.skip(first as int));
    let ghost names = below_docs(rest).map_values(|c: Seq<u8>| component_text(c));
    let suffix: Vec<char> = text::chars_of(".md");
    let mut out: Vec<Vec<char>> = Vec::new();
    let n: usize = components.len();
    for i in first..n
        invariant
            n == components@.len(),
            all == paths::byte_views(components@),
            first <= n,
            names.len() == n - first,
            names == all.skip(first as int).map_values(|c: Seq<u8>| component_text(c)),
            suffix@ == ".md"@,
            out@.len() == i - first,
            forall|k: int|
                0 <= k < out@.len() ==> (#[trigger] out@[k])@ == (if k == names.len() - 1 {
                    without_md(names[k])
                } else {
                    names[k]
                }),
    {
        assert(names[i - first] == component_text(components@[i as int]@));
        let name: Vec<char> = match paths::utf8_text(components[i].as_slice()) {
            Some(s) => text::chars_of(s),
            None => Vec::new(),
        };
        assert(name@ =~= names[i - first]);
        if i == n - 1 {
            match text::before_suffix(name.as_slice(), suffix.as_slice()) {
                Some(stem) => {
                    let mut short: Vec<char> = Vec::new();
                    text::extend(&mut short, stem);
                    assert(short@ =~= stem@);
                    out.push(short);
                },
                None => {
                    out.push(name);
                },
            }
        } else {
            out.push(name);
        }
    }
    assert(char_views(out@) =~= page_parts(rest));
    out
}

/// The published address of the page in a file.
pub fn file_path_to_url(path: &DocPath, docs_dir: &DocPath, base_urls: &BaseUrls) -> (r: Option<
    String,
>)
    ensures
        page_url(path@, docs_dir@, base_urls@) == (match r {
            Some(url) => Some(url@),
            None => None,
        }),
{
    let parts: Vec<Vec<u8>> = path.component_list();
    let base: Vec<Vec<u8>> = docs_dir.component_list();
    let ghost pc = paths::byte_views(parts@);
    let ghost bc = paths::byte_views(base@);
    if base.len() > parts.len() {
        return None;
    }
    for i in 0..base.len()
        invariant
            pc == paths::byte_views(parts@),
            bc == paths::byte_views(base@),
            pc == paths::components(path@),
            bc == paths::components(docs_dir@),
            base@.len() <= parts@.len(),
            forall|k: int| 0 <= k < i ==> pc[k] == #[trigger] bc[k],
    {
        if !paths::same_bytes(parts[i].as_slice(), base[i].as_slice()) {
            assert(pc[i as int] != bc[i as int]);
            assert(pc.subrange(0, bc.len() as int)[i as int] != bc[i as int]);
            return None;
        }
        assert(pc[i as int] == bc[i as int]);
    }
    assert(bc =~= pc.subrange(0, bc.len() as int));
    let n: usize = base.len();
    let ghost rest = pc.skip(n as int);
    if n == parts.len() {
        return None;
    }
    assert(rest[0] == parts@[n as int]@);
    let repo: &str = match paths::utf8_text(parts[n].as_slice()) {
        Some(s) => s,
        None => {
            return None;
        },
    };
    let address: &str = match base_urls.get(repo) {
        Some(s) => s,
        None => {
            return None;
        },
    };
    let chars: Vec<char> = text::chars_of(address);
    let mut out: Vec<char> = Vec::new();
    text::extend(&mut out, text::trim_end_char_of(chars.as_slice(), '/'));
    out.push('/');
    let names: Vec<Vec<char>> = page_parts_of(&parts, n + 1);
    assert(rest.skip(1) =~= pc.skip(n + 1));
    push_joined(&mut out, &names);
    out.push('/');
    assert(out@ =~= text::trim_end_char(base_urls@[repo@], '/') + seq!['/'] + text::join(
        page_parts(rest.skip(1)),
        seq!['/'],
    ) + seq!['/']);
    Some(text::string_of(out.as_slice()))
}

/// The page in a file of a repository is published below the address of that
/// repository, whichever directory the repositories lie in, and nowhere if the
/// repository has no address.
pub proof fn law_page_of_repository(
    docs_dir: Seq<u8>,
    repo: Seq<char>,
    rel: Seq<u8>,
    urls: Map<Seq<char>, Seq<char>>,
)
    requires
        repo.len() > 0,
        !repo.contains('/'),
        repo != "."@,
        !paths::is_absolute(rel),
        !paths::starts_at_dot(rel),
    ensures
        ({
            let checkout = paths::join_paths(docs_dir, encode_utf8(repo));
            let path = paths::join_paths(checkout, rel);
            page_url(path, docs_dir, urls) == (if urls.dom().contains(repo) {
                Some(
                    text::trim_end_char(urls[repo], '/') + seq!['/'] + text::join(
                        page_parts(paths::components(rel)),
                        seq!['/'],
                    ) + seq!['/'],
                )
            } else {
                None
            })
        }),
{
    let name = encode_utf8(repo);
    let checkout = paths::join_paths(docs_dir, name);
    let path = paths::join_paths(checkout, rel);
    path_laws::law_encoding_without_slash(repo);
    path_laws::law_name_is_one_component(name);
    encode_utf8_valid_utf8(repo);
    encode_utf8_decode_utf8(repo);
    assert(!paths::is_absolute(name)) by {
        assert(name.contains(name[0]));
    }
    assert(!paths::starts_at_dot(name)) by {
        if paths::starts_at_dot(name) {
            if name.len() > 1 {
                assert(name.contains(name[1]));
            }
            assert(name =~= seq![paths::DOT]);
            lemma_dot_encoding();
            encode_utf8_decode_utf8("."@);
        }
    }
    path_laws::law_join_components(docs_dir, name);
    path_laws::law_join_components(checkout, rel);
    let (pc, dc, rc) = (
        paths::components(path),
        paths::components(docs_dir),
        paths::components(rel),
    );
    assert(pc == dc + seq![name] + rc);
    assert(dc =~= pc.subrange(0, dc.len() as int));
    let rest = pc.skip(dc.len() as int);
    assert(rest =~= seq![name] + rc);
    assert(rest.skip(1) =~= rc);
}

proof fn lemma_dot_encoding()
    ensures
        encode_utf8("."@) == seq![paths::DOT],
{
    reveal_strlit(".");
    let s = "."@;
    assert(s =~= seq!['.']);
    assert(s.drop_first() =~= Seq::<char>::empty());
    assert(encode_utf8(s.drop_first()) =~= Seq::<u8>::empty());
    assert((0x2eu32 & 0x7f) as u8 == 0x2eu8) by (bit_vector);
    assert(encode_scalar('.' as u32) =~= seq![paths::DOT]);
    assert(encode_utf8(s) =~= seq![paths::DOT]);
}

} // verus!

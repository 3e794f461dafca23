//! Which files of a repository are documentation pages.

use crate::includes;
use crate::path_laws;
use crate::paths;
use crate::paths::DocPath;
use crate::text;
use vstd::prelude::*;
use vstd::utf8::*;

verus! {

/// An entry of a directory.
pub enum Entry {
    /// A file.
    File(DocPath),
    /// A directory with its own entries.
    Dir(Vec<Entry>),
}

/// The bytes of `.md`.
pub open spec fn md_suffix() -> Seq<u8> {
    seq![0x2eu8, 0x6du8, 0x64u8]
}

/// Whether a file is a page: its extension is `md`.
pub open spec fn is_page(path: Seq<u8>) -> bool {
    match paths::file_name(path) {
        None => false,
        Some(name) => name.len() > 3 && md_suffix().is_suffix_of(name),
    }
}

/// The pages among some entries and below them, in the order in which they
/// stand.
pub open spec fn pages(entries: Seq<Entry>) -> Seq<Seq<u8>>
    decreases entries,
{
    if entries.len() == 0 {
        Seq::empty()
    } else {
        pages(entries.drop_last()) + entry_pages(entries.last())
    }
}

/// The pages that one entry stands for.
pub open spec fn entry_pages(entry: Entry) -> Seq<Seq<u8>>
    decreases entry,
{
    match entry {
        Entry::File(path) => if is_page(path@) {
            seq![path@]
        } else {
            Seq::empty()
        },
        Entry::Dir(inner) => pages(inner@),
    }
}

/// The views of a list of paths.
pub open spec fn path_views(v: Seq<DocPath>) -> Seq<Seq<u8>> {
    v.map_values(|p: DocPath| p@)
}

/// Whether a file is a page.
pub fn is_page_file(path: &DocPath) -> (r: bool)
    ensures
        r == is_page(path@),
{
    let name: Vec<u8> = match path.file_name_of() {
        Some(name) => name,
        None => {
            return false;
        },
    };
    let n: usize = name.len();
    if n <= 3 {
        return false;
    }
    let ends: bool = name[n - 3] == 0x2e && name[n - 2] == 0x6d && name[n - 1] == 0x64;
    proof {
        let tail = name@.subrange(n - 3, n as int);
        assert(tail[0] == name@[n - 3] && tail[1] == name@[n - 2] && tail[2] == name@[n - 1]);
        assert(md_suffix()[0] == 0x2e && md_suffix()[1] == 0x6d && md_suffix()[2] == 0x64);
        if ends {
            assert(tail =~= md_suffix());
        }
        assert(ends == md_suffix().is_suffix_of(name@));
    }
    ends
}

/// Appends the pages among some entries and below them.
pub fn collect_md_files(entries: &Vec<Entry>, out: &mut Vec<DocPath>)
    ensures
        path_views(final(out)@) == path_views(old(out)@) + pages(entries@),
    decreases entries@,
{
    let ghost before = path_views(out@);
    for i in 0..entries.len()
        invariant
            path_views(out@) == before + pages(entries@.take(i as int)),
    {
        assert(entries@.take(i + 1).drop_last() =~= entries@.take(i as int));
        assert(entries@.take(i + 1).last() == entries@[i as int]);
        let ghost sofar = path_views(out@);
        match &entries[i] {
            Entry::File(path) => {
                if is_page_file(path) {
                    out.push(path.copy());
                    assert(path_views(out@) =~= sofar + seq![path@]);
                } else {
                    assert(path_views(out@) =~= sofar + Seq::<Seq<u8>>::empty());
                }
            },
            Entry::Dir(inner) => {
                collect_md_files(inner, out);
            },
        }
        assert(path_views(out@) == sofar + entry_pages(entries@[i as int]));
        assert(pages(entries@.take(i + 1)) == pages(entries@.take(i as int)) + entry_pages(
            entries@[i as int],
        ));
        assert(path_views(out@) =~= before + pages(entries@.take(i + 1)));
    }
    assert(entries@.take(entries@.len() as int) =~= entries@);
}

/// Where the pages of a repository are looked for: in its directory `docs` if
/// it has one, else in all of it.
pub open spec fn root_of(repo: Seq<u8>, has_docs: bool) -> Seq<u8> {
    if has_docs {
        paths::join_paths(repo, includes::docs_name())
    } else {
        repo
    }
}

/// Where the pages of a repository are looked for.
pub fn walk_root(repo: &DocPath, has_docs: bool) -> (r: DocPath)
    ensures
        r@ == root_of(repo@, has_docs),
{
    if has_docs {
        let docs: [u8; 4] = [0x64, 0x6f, 0x63, 0x73];
        assert(docs@ =~= includes::docs_name());
        repo.join(docs.as_slice())
    } else {
        repo.copy()
    }
}

/// What lies in a repository.
pub struct RepoListing {
    /// The entries of its directory `docs`, if it has one.
    pub docs: Option<Vec<Entry>>,
    /// The entries of all of it. They count only if it has no such directory.
    pub whole: Vec<Entry>,
}

/// The entries of a repository among which its pages are looked for.
pub open spec fn walked(repo: RepoListing) -> Seq<Entry> {
    match repo.docs {
        Some(entries) => entries@,
        None => repo.whole@,
    }
}

/// The pages of some repositories, one repository after the other.
pub open spec fn repo_pages(repos: Seq<RepoListing>) -> Seq<Seq<u8>>
    decreases repos.len(),
{
    if repos.len() == 0 {
        Seq::empty()
    } else {
        repo_pages(repos.drop_last()) + pages(walked(repos.last()))
    }
}

/// The pages of some repositories.
pub fn collect_repo_pages(repos: &Vec<RepoListing>) -> (r: Vec<DocPath>)
    ensures
        path_views(r@) == repo_pages(repos@),
{
    let mut out: Vec<DocPath> = Vec::new();
    assert(path_views(out@) =~= Seq::<Seq<u8>>::empty());
    for i in 0..repos.len()
        invariant
            path_views(out@) == repo_pages(repos@.take(i as int)),
    {
        assert(repos@.take(i + 1).drop_last() =~= repos@.take(i as int));
        match &repos[i].docs {
            Some(entries) => {
                collect_md_files(entries, &mut out);
            },
            None => {
                collect_md_files(&repos[i].whole, &mut out);
            },
        }
    }
    assert(repos@.take(repos@.len() as int) =~= repos@);
    out
}

/// Whether a file stands among some entries or below them.
pub open spec fn has_file(entries: Seq<Entry>, path: Seq<u8>) -> bool
    decreases entries,
{
    entries.len() > 0 && (has_file(entries.drop_last(), path) || is_or_has_file(
        entries.last(),
        path,
    ))
}

/// Whether a file is an entry or stands below it.
pub open spec fn is_or_has_file(entry: Entry, path: Seq<u8>) -> bool
    decreases entry,
{
    match entry {
        Entry::File(p) => path == p@,
        Entry::Dir(inner) => has_file(inner@, path),
    }
}

/// The pages that are collected are exactly the files that are pages, however
/// deep they lie.
pub proof fn law_pages_are_the_page_files(entries: Seq<Entry>, path: Seq<u8>)
    ensures
        pages(entries).contains(path) <==> is_page(path) && has_file(entries, path),
    decreases entries,
{
    if entries.len() > 0 {
        law_pages_are_the_page_files(entries.drop_last(), path);
        lemma_entry_pages(entries.last(), path);
        text::lemma_contains_either(
            pages(entries.drop_last()),
            entry_pages(entries.last()),
            path,
        );
    }
}

proof fn lemma_entry_pages(entry: Entry, path: Seq<u8>)
    ensures
        entry_pages(entry).contains(path) <==> is_page(path) && is_or_has_file(entry, path),
    decreases entry,
{
    match entry {
        Entry::File(p) => {
            let own = seq![p@];
            assert(own[0] == p@);
            assert(own.contains(path) <==> path == p@);
        },
        Entry::Dir(inner) => {
            law_pages_are_the_page_files(inner@, path);
        },
    }
}

/// The pages of some repositories are exactly the page files below their
/// directories `docs`, and for a repository without one those anywhere in it.
pub proof fn law_pages_of_repositories(repos: Seq<RepoListing>, path: Seq<u8>)
    ensures
        repo_pages(repos).contains(path) <==> is_page(path) && exists|i: int|
            0 <= i < repos.len() && match (#[trigger] repos[i]).docs {
                Some(entries) => has_file(entries@, path),
                None => has_file(repos[i].whole@, path),
            },
{
    lemma_pages_of_repositories(repos, path);
    assert forall|i: int| 0 <= i < repos.len() implies has_file(walked(#[trigger] repos[i]), path)
        == (match repos[i].docs {
        Some(entries) => has_file(entries@, path),
        None => has_file(repos[i].whole@, path),
    }) by {}
    if exists|i: int| 0 <= i < repos.len() && has_file(walked(#[trigger] repos[i]), path) {
        let i = choose|i: int| 0 <= i < repos.len() && has_file(walked(#[trigger] repos[i]), path);
        assert(match repos[i].docs {
            Some(entries) => has_file(entries@, path),
            None => has_file(repos[i].whole@, path),
        });
    }
}

proof fn lemma_pages_of_repositories(repos: Seq<RepoListing>, path: Seq<u8>)
    ensures
        repo_pages(repos).contains(path) <==> is_page(path) && exists|i: int|
            0 <= i < repos.len() && has_file(walked(#[trigger] repos[i]), path),
    decreases repos.len(),
{
    if repos.len() > 0 {
        let front = repos.drop_last();
        let last = repos.len() - 1;
        lemma_pages_of_repositories(front, path);
        law_pages_are_the_page_files(walked(repos[last]), path);
        text::lemma_contains_either(repo_pages(front), pages(walked(repos[last])), path);
        assert(forall|i: int| 0 <= i < front.len() ==> #[trigger] repos[i] == front[i]);
        if exists|i: int| 0 <= i < repos.len() && has_file(walked(#[trigger] repos[i]), path) {
            let i = choose|i: int|
                0 <= i < repos.len() && has_file(walked(#[trigger] repos[i]), path);
            if i < last {
                assert(has_file(walked(front[i]), path));
            }
        }
        if exists|i: int| 0 <= i < front.len() && has_file(walked(#[trigger] front[i]), path) {
            let i = choose|i: int|
                0 <= i < front.len() && has_file(walked(#[trigger] front[i]), path);
            assert(has_file(walked(repos[i]), path));
        }
    }
}

/// A file is a page exactly if it has a name and something stands in that before
/// the ending `.md`.
pub proof fn law_page_names(path: Seq<u8>)
    ensures
        is_page(path) <==> exists|stem: Seq<u8>|
            stem.len() > 0 && paths::file_name(path) == Some(
                #[trigger] (stem + encode_utf8(".md"@)),
            ),
{
    let md = md_suffix();
    reveal_strlit(".md");
    path_laws::lemma_ascii(".md"@, md);
    if is_page(path) {
        let name = paths::file_name(path)->0;
        let n = name.len() - 3;
        assert(name =~= name.take(n) + md);
        assert(paths::file_name(path) == Some(name.take(n) + encode_utf8(".md"@)));
    }
    if exists|stem: Seq<u8>|
        stem.len() > 0 && paths::file_name(path) == Some(
            #[trigger] (stem + encode_utf8(".md"@)),
        ) {
        let stem = choose|stem: Seq<u8>|
            stem.len() > 0 && paths::file_name(path) == Some(
                #[trigger] (stem + encode_utf8(".md"@)),
            );
        let name = stem + md;
        assert(md =~= name.subrange(name.len() - 3, name.len() as int));
    }
}

/// An entry of a directory is a page if its name goes on to the ending `.md`
/// from something else.
pub proof fn law_page_in_directory(dir: Seq<u8>, stem: Seq<u8>)
    requires
        stem.len() > 0,
        !stem.contains(0x2f),
    ensures
        is_page(paths::join_paths(dir, stem + encode_utf8(".md"@))),
{
    let md = md_suffix();
    reveal_strlit(".md");
    path_laws::lemma_ascii(".md"@, md);
    let name = stem + md;
    assert forall|i: int| 0 <= i < name.len() implies name[i] != 0x2f by {
        if i < stem.len() {
            assert(stem.contains(stem[i]));
        }
    }
    assert(name.len() > 3);
    path_laws::law_file_name_of_entry(dir, name);
    law_page_names(paths::join_paths(dir, name));
}

/// The pages of a repository are looked for in its entry `docs`, or in all of
/// it.
pub proof fn law_where_pages_are(repo: Seq<u8>)
    ensures
        root_of(repo, false) == repo,
        root_of(repo, true) == paths::join_paths(repo, encode_utf8("docs"@)),
        paths::components(root_of(repo, true)) == paths::components(repo).push(
            encode_utf8("docs"@),
        ),
{
    let name = includes::docs_name();
    reveal_strlit("docs");
    path_laws::lemma_ascii("docs"@, name);
    assert(name[0] == 0x64);
    assert(name.len() == 4);
    assert forall|i: int| 0 <= i < 4 implies name[i] != 0x2f by {}
    path_laws::law_name_is_one_component(name);
    path_laws::law_join_components(repo, name);
    assert(paths::components(repo) + seq![name] =~= paths::components(repo).push(name));
}

} // verus!

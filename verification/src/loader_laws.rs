//! What holds of turning pages into chunks, whatever the files hold and in
//! whatever order they are listed.

use crate::chunks;
use crate::chunks::{LoaderState, PageOutcome, Passage};
use crate::expansion_laws;
use crate::includes;
use crate::includes::Expanded;
use crate::path_order;
use crate::paths;
use crate::text;
use vstd::prelude::*;

verus! {

/// The chunks of the page in a file when the contents of all files are known.
pub open spec fn chunks_of_page(
    path: Seq<u8>,
    docs_dir: Seq<u8>,
    urls: Map<Seq<char>, Seq<char>>,
    files: Map<Seq<u8>, Option<Seq<char>>>,
) -> Seq<Passage> {
    match chunks::page_outcome(path, docs_dir, urls, files) {
        PageOutcome::Done(passages) => passages,
        PageOutcome::Needs(_) => Seq::empty(),
    }
}

/// The chunks of some pages, one page after the other.
pub open spec fn chunks_of_pages(
    paths: Seq<Seq<u8>>,
    docs_dir: Seq<u8>,
    urls: Map<Seq<char>, Seq<char>>,
    files: Map<Seq<u8>, Option<Seq<char>>>,
) -> Seq<Passage>
    decreases paths.len(),
{
    if paths.len() == 0 {
        Seq::empty()
    } else {
        chunks_of_page(paths[0], docs_dir, urls, files) + chunks_of_pages(
            paths.skip(1),
            docs_dir,
            urls,
            files,
        )
    }
}

/// The chunks that a loader ends with when the files hold what `files` says:
/// those that it has, and those of the pages that are left.
pub open spec fn final_chunks(
    s: LoaderState,
    files: Map<Seq<u8>, Option<Seq<char>>>,
) -> Seq<Passage> {
    s.chunks + chunks_of_pages(s.files.skip(s.next as int), s.docs_dir, s.urls, files)
}

/// The files whose contents a page depends on: its own, and those that are
/// inlined into it.
pub open spec fn page_reads(
    path: Seq<u8>,
    files: Map<Seq<u8>, Option<Seq<char>>>,
) -> Seq<Seq<u8>> {
    match files[path] {
        None => seq![path],
        Some(raw) => seq![path] + expansion_laws::reads(
            raw,
            path,
            includes::docs_root(path),
            0,
            files,
        ),
    }
}

/// What is known of some files agrees with what all files hold, for one page:
/// chunks that were found stay, and a file that is asked for is not known yet
/// and is one of those that the page depends on.
pub proof fn law_page(
    path: Seq<u8>,
    docs_dir: Seq<u8>,
    urls: Map<Seq<char>, Seq<char>>,
    known: Map<Seq<u8>, Option<Seq<char>>>,
    files: Map<Seq<u8>, Option<Seq<char>>>,
)
    requires
        expansion_laws::knows_all(files),
        known.submap_of(files),
    ensures
        chunks::page_outcome(path, docs_dir, urls, files) is Done,
        match chunks::page_outcome(path, docs_dir, urls, known) {
            PageOutcome::Done(passages) => passages == chunks_of_page(path, docs_dir, urls, files),
            PageOutcome::Needs(p) => !known.dom().contains(p) && page_reads(path, files).contains(
                p,
            ),
        },
{
    assert(files.dom().contains(path));
    if known.dom().contains(path) {
        assert(known[path] == files[path]);
    }
    let needed = page_reads(path, files);
    assert(needed[0] == path);
    match files[path] {
        None => {},
        Some(raw) => {
            let root = includes::docs_root(path);
            expansion_laws::law_expansion(raw, path, root, 0, known, files);
            let inner = expansion_laws::reads(raw, path, root, 0, files);
            assert forall|p: Seq<u8>| inner.contains(p) implies needed.contains(p) by {
                text::lemma_contains_either(seq![path], inner, p);
            }
        },
    }
}

/// The chunks of some pages depend on the files that the pages depend on, and on
/// no others.
pub proof fn law_chunks_depend_on_reads(
    paths: Seq<Seq<u8>>,
    docs_dir: Seq<u8>,
    urls: Map<Seq<char>, Seq<char>>,
    a: Map<Seq<u8>, Option<Seq<char>>>,
    b: Map<Seq<u8>, Option<Seq<char>>>,
)
    requires
        expansion_laws::knows_all(a),
        expansion_laws::knows_all(b),
        forall|i: int, p: Seq<u8>|
            0 <= i < paths.len() && #[trigger] page_reads(paths[i], a).contains(p) ==> a[p] == b[p],
    ensures
        chunks_of_pages(paths, docs_dir, urls, a) == chunks_of_pages(paths, docs_dir, urls, b),
    decreases paths.len(),
{
    if paths.len() > 0 {
        let path = paths[0];
        let needed = page_reads(path, a);
        let known = Map::new(|p: Seq<u8>| needed.contains(p), |p: Seq<u8>| a[p]);
        assert(known.submap_of(a)) by {
            assert(forall|p: Seq<u8>| #[trigger] a.dom().contains(p));
        }
        assert(known.submap_of(b)) by {
            assert forall|p: Seq<u8>| #[trigger] known.dom().contains(p) implies b.dom().contains(p)
                && known[p] == b[p] by {
                assert(page_reads(paths[0], a).contains(p));
            }
        }
        law_page(path, docs_dir, urls, known, a);
        law_page(path, docs_dir, urls, known, b);
        let rest = paths.skip(1);
        assert forall|i: int, p: Seq<u8>|
            0 <= i < rest.len() && #[trigger] page_reads(rest[i], a).contains(p) implies a[p]
            == b[p] by {
            assert(rest[i] == paths[i + 1]);
        }
        law_chunks_depend_on_reads(rest, docs_dir, urls, a, b);
    }
}

/// A loader whose files hold what `files` says keeps the chunks that it will
/// end with, and has them when no file is asked for any more. A file that it
/// asks for is not known yet and is one of the finitely many that the current
/// page depends on.
pub proof fn law_loader(s: LoaderState, files: Map<Seq<u8>, Option<Seq<char>>>)
    requires
        expansion_laws::knows_all(files),
        s.known.submap_of(files),
        s.next <= s.files.len(),
    ensures
        ({
            let (t, request) = chunks::settle(s);
            &&& t.known.submap_of(files)
            &&& t.next <= t.files.len()
            &&& final_chunks(t, files) == final_chunks(s, files)
            &&& request is None ==> t.chunks == final_chunks(s, files)
            &&& request matches Some(p) ==> {
                &&& t.next < t.files.len()
                &&& !t.known.dom().contains(p)
                &&& page_reads(t.files[t.next as int], files).contains(p)
            }
        }),
    decreases s.files.len() - s.next,
{
    let left = s.files.skip(s.next as int);
    if s.next >= s.files.len() {
        assert(left =~= Seq::<Seq<u8>>::empty());
        assert(s.chunks + Seq::<Passage>::empty() =~= s.chunks);
    } else {
        let path = s.files[s.next as int];
        law_page(path, s.docs_dir, s.urls, s.known, files);
        match chunks::page_outcome(path, s.docs_dir, s.urls, s.known) {
            PageOutcome::Needs(_) => {},
            PageOutcome::Done(passages) => {
                let next = chunks::page_done(s, passages);
                assert(left[0] == path);
                assert(left.skip(1) =~= s.files.skip(s.next as int + 1));
                law_loader(next, files);
                assert(final_chunks(next, files) =~= final_chunks(s, files));
            },
        }
    }
}

/// A loader that has just been made will end with the chunks of the pages that
/// it was given, in the order of their paths.
pub proof fn law_new_loader(
    docs_dir: Seq<u8>,
    urls: Map<Seq<char>, Seq<char>>,
    md_files: Seq<Seq<u8>>,
    files: Map<Seq<u8>, Option<Seq<char>>>,
)
    ensures
        final_chunks(
            (LoaderState {
                docs_dir,
                urls,
                files: path_order::sorted(md_files),
                next: 0,
                known: Map::empty(),
                chunks: Seq::empty(),
            }),
            files,
        ) == chunks_of_pages(path_order::sorted(md_files), docs_dir, urls, files),
{
    let all = path_order::sorted(md_files);
    assert(all.skip(0) =~= all);
    let found = chunks_of_pages(all, docs_dir, urls, files);
    assert(Seq::<Passage>::empty() + found =~= found);
}

/// Recording what a file holds keeps the chunks that a loader will end with.
pub proof fn law_reply_keeps_chunks(
    s: LoaderState,
    p: Seq<u8>,
    files: Map<Seq<u8>, Option<Seq<char>>>,
)
    requires
        expansion_laws::knows_all(files),
        s.known.submap_of(files),
    ensures
        ({
            let t = LoaderState { known: s.known.insert(p, files[p]), ..s };
            &&& t.known.submap_of(files)
            &&& final_chunks(t, files) == final_chunks(s, files)
        }),
{
    assert(files.dom().contains(p));
}

/// The chunks do not depend on the order in which the pages were listed, as
/// long as no two different paths among them have the same components.
pub proof fn law_chunks_whatever_the_listing(
    a: Seq<Seq<u8>>,
    b: Seq<Seq<u8>>,
    docs_dir: Seq<u8>,
    urls: Map<Seq<char>, Seq<char>>,
    files: Map<Seq<u8>, Option<Seq<char>>>,
)
    requires
        a.to_multiset() == b.to_multiset(),
        forall|i: int, j: int|
            0 <= i < a.len() && 0 <= j < a.len() && paths::components(#[trigger] a[i])
                == paths::components(#[trigger] a[j]) ==> a[i] == a[j],
    ensures
        chunks_of_pages(path_order::sorted(a), docs_dir, urls, files) == chunks_of_pages(
            path_order::sorted(b),
            docs_dir,
            urls,
            files,
        ),
{
    path_order::law_sorted_whatever_the_listing(a, b);
}

} // verus!

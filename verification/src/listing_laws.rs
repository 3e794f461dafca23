//! What holds of directory listings, in whatever order they give their entries.

use crate::base_urls;
use crate::base_urls::RepoConf;
use crate::expansion_laws;
use crate::includes;
use crate::loader_laws;
use crate::path_laws;
use crate::path_order;
use crate::paths;
use crate::walk;
use crate::walk::{Entry, RepoListing};
use vstd::prelude::*;

verus! {

/// The files among some entries and below them, in the order in which they
/// stand.
pub open spec fn files(entries: Seq<Entry>) -> Seq<Seq<u8>>
    decreases entries,
{
    if entries.len() == 0 {
        Seq::empty()
    } else {
        files(entries.drop_last()) + entry_files(entries.last())
    }
}

/// The files that one entry stands for.
pub open spec fn entry_files(entry: Entry) -> Seq<Seq<u8>>
    decreases entry,
{
    match entry {
        Entry::File(path) => seq![path@],
        Entry::Dir(inner) => files(inner@),
    }
}

/// The files of some repositories among which pages are looked for.
pub open spec fn repo_files(repos: Seq<RepoListing>) -> Seq<Seq<u8>>
    decreases repos.len(),
{
    if repos.len() == 0 {
        Seq::empty()
    } else {
        repo_files(repos.drop_last()) + files(
            match repos.last().docs {
                Some(entries) => entries@,
                None => repos.last().whole@,
            },
        )
    }
}

/// The test for a page.
pub open spec fn page_test() -> spec_fn(Seq<u8>) -> bool {
    |path: Seq<u8>| walk::is_page(path)
}

/// The pages among some entries are those files that are pages, in the same
/// order.
pub proof fn law_pages_among_files(entries: Seq<Entry>)
    ensures
        walk::pages(entries) == files(entries).filter(page_test()),
    decreases entries,
{
    reveal(Seq::filter);
    if entries.len() > 0 {
        law_pages_among_files(entries.drop_last());
        lemma_entry_pages(entries.last());
        Seq::filter_distributes_over_add(
            files(entries.drop_last()),
            entry_files(entries.last()),
            page_test(),
        );
    }
}

proof fn lemma_entry_pages(entry: Entry)
    ensures
        walk::entry_pages(entry) == entry_files(entry).filter(page_test()),
    decreases entry,
{
    match entry {
        Entry::File(path) => {
            let own = seq![path@];
            reveal(Seq::filter);
            assert(own.drop_last() =~= Seq::<Seq<u8>>::empty());
            assert(own.drop_last().filter(page_test()) =~= Seq::<Seq<u8>>::empty());
            assert(walk::entry_pages(entry) =~= own.filter(page_test()));
        },
        Entry::Dir(inner) => {
            law_pages_among_files(inner@);
        },
    }
}

/// The pages of some repositories are those of their files that are pages.
pub proof fn law_pages_among_repo_files(repos: Seq<RepoListing>)
    ensures
        walk::repo_pages(repos) == repo_files(repos).filter(page_test()),
    decreases repos.len(),
{
    reveal(Seq::filter);
    if repos.len() > 0 {
        law_pages_among_repo_files(repos.drop_last());
        law_pages_among_files(walk::walked(repos.last()));
        Seq::filter_distributes_over_add(
            repo_files(repos.drop_last()),
            files(walk::walked(repos.last())),
            page_test(),
        );
    }
}

/// How often a list holds what a test keeps is how often it held it before.
proof fn lemma_filter_count<T>(s: Seq<T>, f: spec_fn(T) -> bool, x: T)
    ensures
        s.filter(f).to_multiset().count(x) == (if f(x) {
            s.to_multiset().count(x)
        } else {
            0
        }),
    decreases s.len(),
{
    broadcast use vstd::seq_lib::group_to_multiset_ensures;
    broadcast use vstd::multiset::group_multiset_axioms;

    reveal(Seq::filter);
    if s.len() > 0 {
        lemma_filter_count(s.drop_last(), f, x);
        assert(s =~= s.drop_last().push(s.last()));
    } else {
        assert(s.filter(f) =~= s);
        assert(!s.contains(x));
    }
}

proof fn lemma_filter_multiset<T>(a: Seq<T>, b: Seq<T>, f: spec_fn(T) -> bool)
    requires
        a.to_multiset() == b.to_multiset(),
    ensures
        a.filter(f).to_multiset() == b.filter(f).to_multiset(),
{
    broadcast use vstd::multiset::group_multiset_axioms;

    assert forall|x: T|
        #[trigger] a.filter(f).to_multiset().count(x) == b.filter(f).to_multiset().count(x) by {
        lemma_filter_count(a, f, x);
        lemma_filter_count(b, f, x);
    }
    assert(a.filter(f).to_multiset() =~= b.filter(f).to_multiset());
}

/// Entries that hold the same files, each as often, hold the same pages, each as
/// often.
pub proof fn law_same_files_same_pages(a: Seq<Entry>, b: Seq<Entry>)
    requires
        files(a).to_multiset() == files(b).to_multiset(),
    ensures
        walk::pages(a).to_multiset() == walk::pages(b).to_multiset(),
{
    law_pages_among_files(a);
    law_pages_among_files(b);
    lemma_filter_multiset(files(a), files(b), page_test());
}

/// Whether two listings of a directory give the same entries in some order, and
/// so do the listings of each directory in it.
pub open spec fn reordered(a: Seq<Entry>, b: Seq<Entry>) -> bool
    decreases a,
{
    &&& a.len() == b.len()
    &&& a.len() > 0 ==> exists|j: int|
        0 <= j < b.len() && same_entry(a.last(), #[trigger] b[j]) && reordered(
            a.drop_last(),
            b.remove(j),
        )
}

/// Whether two entries are the same but for the order of listings.
pub open spec fn same_entry(x: Entry, y: Entry) -> bool
    decreases x,
{
    match (x, y) {
        (Entry::File(p), Entry::File(q)) => p@ == q@,
        (Entry::Dir(inner), Entry::Dir(other)) => reordered(inner@, other@),
        _ => false,
    }
}

proof fn lemma_files_remove(b: Seq<Entry>, j: int)
    requires
        0 <= j < b.len(),
    ensures
        files(b).to_multiset() == files(b.remove(j)).to_multiset().add(
            entry_files(b[j]).to_multiset(),
        ),
    decreases b.len(),
{
    broadcast use vstd::multiset::group_multiset_axioms;

    let last = b.len() - 1;
    vstd::seq_lib::lemma_multiset_commutative(files(b.drop_last()), entry_files(b.last()));
    if j == last {
        assert(b.remove(j) =~= b.drop_last());
    } else {
        let c = b.remove(j);
        assert(c.drop_last() =~= b.drop_last().remove(j));
        assert(c.last() == b.last());
        lemma_files_remove(b.drop_last(), j);
        vstd::seq_lib::lemma_multiset_commutative(files(c.drop_last()), entry_files(c.last()));
    }
    assert(files(b).to_multiset() =~= files(b.remove(j)).to_multiset().add(
        entry_files(b[j]).to_multiset(),
    ));
}

/// Two listings of a directory that differ in their order hold the same files,
/// each as often.
pub proof fn law_reordered_files(a: Seq<Entry>, b: Seq<Entry>)
    requires
        reordered(a, b),
    ensures
        files(a).to_multiset() == files(b).to_multiset(),
    decreases a,
{
    if a.len() > 0 {
        let j = choose|j: int|
            0 <= j < b.len() && same_entry(a.last(), #[trigger] b[j]) && reordered(
                a.drop_last(),
                b.remove(j),
            );
        law_reordered_files(a.drop_last(), b.remove(j));
        lemma_same_entry(a.last(), b[j]);
        lemma_files_remove(b, j);
        vstd::seq_lib::lemma_multiset_commutative(files(a.drop_last()), entry_files(a.last()));
    } else {
        assert(a =~= b);
    }
}

proof fn lemma_same_entry(x: Entry, y: Entry)
    requires
        same_entry(x, y),
    ensures
        entry_files(x).to_multiset() == entry_files(y).to_multiset(),
    decreases x,
{
    match (x, y) {
        (Entry::Dir(inner), Entry::Dir(other)) => {
            law_reordered_files(inner@, other@);
        },
        _ => {},
    }
}

/// A listing with its entries in any other order is such a listing.
pub proof fn law_permuted_is_reordered(a: Seq<Entry>, b: Seq<Entry>)
    requires
        a.to_multiset() == b.to_multiset(),
    ensures
        reordered(a, b),
    decreases a,
{
    broadcast use vstd::seq_lib::group_to_multiset_ensures;
    broadcast use vstd::multiset::group_multiset_axioms;

    assert(a.to_multiset().len() == a.len() && b.to_multiset().len() == b.len());
    if a.len() > 0 {
        let last = a.len() - 1;
        assert(a.contains(a[last]));
        assert(a.to_multiset().count(a.last()) > 0);
        assert(b.contains(a.last()));
        let j = choose|j: int| 0 <= j < b.len() && b[j] == a.last();
        assert(a.drop_last() =~= a.remove(last));
        assert(a.drop_last().to_multiset() =~= b.remove(j).to_multiset());
        law_permuted_is_reordered(a.drop_last(), b.remove(j));
        lemma_same_as_itself(a.last());
        assert(same_entry(a.last(), b[j]));
    }
}

proof fn lemma_same_as_itself(x: Entry)
    ensures
        same_entry(x, x),
    decreases x,
{
    match x {
        Entry::File(_) => {},
        Entry::Dir(inner) => {
            law_permuted_is_reordered(inner@, inner@);
        },
    }
}

/// Whether two listings of the repositories give the same repositories in some
/// order, each with the same entries in some order.
pub open spec fn reordered_repos(a: Seq<RepoListing>, b: Seq<RepoListing>) -> bool
    decreases a.len(),
{
    &&& a.len() == b.len()
    &&& a.len() > 0 ==> exists|j: int|
        0 <= j < b.len() && #[trigger] reordered(walk::walked(a.last()), walk::walked(b[j]))
            && reordered_repos(a.drop_last(), b.remove(j))
}

proof fn lemma_repo_files_remove(b: Seq<RepoListing>, j: int)
    requires
        0 <= j < b.len(),
    ensures
        repo_files(b).to_multiset() == repo_files(b.remove(j)).to_multiset().add(
            files(walk::walked(b[j])).to_multiset(),
        ),
    decreases b.len(),
{
    broadcast use vstd::multiset::group_multiset_axioms;

    let own = files(walk::walked(b.last()));
    vstd::seq_lib::lemma_multiset_commutative(repo_files(b.drop_last()), own);
    if j == b.len() - 1 {
        assert(b.remove(j) =~= b.drop_last());
    } else {
        let c = b.remove(j);
        assert(c.drop_last() =~= b.drop_last().remove(j));
        assert(c.last() == b.last());
        lemma_repo_files_remove(b.drop_last(), j);
        vstd::seq_lib::lemma_multiset_commutative(repo_files(c.drop_last()), own);
    }
    assert(repo_files(b).to_multiset() =~= repo_files(b.remove(j)).to_multiset().add(
        files(walk::walked(b[j])).to_multiset(),
    ));
}

/// Two listings of the repositories that differ in their order hold the same
/// files, each as often.
pub proof fn law_reordered_repo_files(a: Seq<RepoListing>, b: Seq<RepoListing>)
    requires
        reordered_repos(a, b),
    ensures
        repo_files(a).to_multiset() == repo_files(b).to_multiset(),
    decreases a.len(),
{
    if a.len() > 0 {
        let j = choose|j: int|
            0 <= j < b.len() && #[trigger] reordered(walk::walked(a.last()), walk::walked(b[j]))
                && reordered_repos(a.drop_last(), b.remove(j));
        law_reordered_repo_files(a.drop_last(), b.remove(j));
        law_reordered_files(walk::walked(a.last()), walk::walked(b[j]));
        lemma_repo_files_remove(b, j);
        vstd::seq_lib::lemma_multiset_commutative(
            repo_files(a.drop_last()),
            files(walk::walked(a.last())),
        );
    } else {
        assert(a =~= b);
    }
}

/// Whether an entry of a directory can have this name.
pub open spec fn is_entry_name(name: Seq<u8>) -> bool {
    name.len() > 0 && !name.contains(paths::SLASH) && paths::is_name(name)
}

/// An entry of a directory has the directory's components and its own name.
pub proof fn law_entry_components(dir: Seq<u8>, name: Seq<u8>)
    requires
        is_entry_name(name),
    ensures
        paths::components(paths::join_paths(dir, name)) == paths::components(dir).push(name),
{
    assert(name.contains(name[0]));
    if paths::starts_at_dot(name) {
        if name.len() > 1 {
            assert(name.contains(name[1]));
        }
        assert(name =~= seq![paths::DOT]);
    }
    path_laws::law_name_is_one_component(name);
    path_laws::law_join_components(dir, name);
    assert(paths::components(dir) + seq![name] =~= paths::components(dir).push(name));
}

/// Entries of one directory with different names differ in their components.
pub proof fn law_entries_differ(dir: Seq<u8>, a: Seq<u8>, b: Seq<u8>)
    requires
        is_entry_name(a),
        is_entry_name(b),
        a != b,
    ensures
        paths::components(paths::join_paths(dir, a)) != paths::components(
            paths::join_paths(dir, b),
        ),
{
    law_entry_components(dir, a);
    law_entry_components(dir, b);
    assert(paths::components(dir).push(a).last() == a);
    assert(paths::components(dir).push(b).last() == b);
}

/// Whether some entries are those of a directory, under the given names.
pub open spec fn lists(dir: Seq<u8>, entries: Seq<Entry>, names: Seq<Seq<u8>>) -> bool
    decreases entries, 0nat,
{
    &&& names.len() == entries.len()
    &&& forall|i: int|
        0 <= i < entries.len() ==> is_entry_name(#[trigger] names[i]) && is_entry_at(
            paths::join_paths(dir, names[i]),
            entries[i],
        )
}

/// Whether an entry is the one at a path.
pub open spec fn is_entry_at(path: Seq<u8>, entry: Entry) -> bool
    decreases entry, 2nat,
{
    match entry {
        Entry::File(p) => p@ == path,
        Entry::Dir(inner) => is_listing(path, inner@),
    }
}

/// Whether some entries are those of a directory: no two have the same name, and
/// the same holds of each directory among them.
pub open spec fn is_listing(dir: Seq<u8>, entries: Seq<Entry>) -> bool
    decreases entries, 1nat,
{
    exists|names: Seq<Seq<u8>>| #[trigger] names.no_duplicates() && lists(dir, entries, names)
}

/// Whether some repositories are those of a directory, under the given names.
pub open spec fn lists_repos(docs_dir: Seq<u8>, repos: Seq<RepoListing>, names: Seq<Seq<u8>>) -> bool {
    &&& names.len() == repos.len()
    &&& names.no_duplicates()
    &&& forall|i: int|
        0 <= i < repos.len() ==> is_entry_name(#[trigger] names[i]) && is_listing(
            walk::root_of(paths::join_paths(docs_dir, names[i]), repos[i].docs is Some),
            walk::walked(repos[i]),
        )
}

/// Whether no two paths of a list have the same components.
pub open spec fn apart(list: Seq<Seq<u8>>) -> bool {
    forall|i: int, j: int|
        0 <= i < j < list.len() ==> paths::components(#[trigger] list[i]) != paths::components(
            #[trigger] list[j],
        )
}

/// Whether all paths of a list start with the given components.
pub open spec fn below(list: Seq<Seq<u8>>, front: Seq<Seq<u8>>) -> bool {
    forall|i: int|
        0 <= i < list.len() ==> front.is_prefix_of(paths::components(#[trigger] list[i]))
}

/// Whether each path of a list goes on from the given components with one of
/// some names.
pub open spec fn below_some(list: Seq<Seq<u8>>, front: Seq<Seq<u8>>, names: Seq<Seq<u8>>) -> bool {
    forall|i: int|
        0 <= i < list.len() ==> exists|k: int|
            0 <= k < names.len() && front.push(#[trigger] names[k]).is_prefix_of(
                paths::components(#[trigger] list[i]),
            )
}

proof fn lemma_below_longer(list: Seq<Seq<u8>>, front: Seq<Seq<u8>>, longer: Seq<Seq<u8>>)
    requires
        below(list, longer),
        front.is_prefix_of(longer),
    ensures
        below(list, front),
{
    assert forall|i: int| 0 <= i < list.len() implies front.is_prefix_of(
        paths::components(#[trigger] list[i]),
    ) by {
        let c = paths::components(list[i]);
        assert(longer.is_prefix_of(c));
        assert(c.subrange(0, front.len() as int) =~= c.subrange(0, longer.len() as int).subrange(
            0,
            front.len() as int,
        ));
    }
}

/// Lists that go on with different names are apart.
proof fn lemma_apart_joined(
    a: Seq<Seq<u8>>,
    b: Seq<Seq<u8>>,
    front: Seq<Seq<u8>>,
    names: Seq<Seq<u8>>,
)
    requires
        names.len() > 0,
        names.no_duplicates(),
        apart(a),
        below_some(a, front, names.drop_last()),
        apart(b),
        below(b, front.push(names.last())),
    ensures
        apart(a + b),
        below_some(a + b, front, names),
{
    let n = front.len() as int;
    let last = names.len() - 1;
    let all = a + b;
    assert forall|i: int| 0 <= i < all.len() implies exists|k: int|
        0 <= k < names.len() && front.push(#[trigger] names[k]).is_prefix_of(
            paths::components(#[trigger] all[i]),
        ) && (k < last <==> i < a.len()) by {
        if i < a.len() {
            assert(all[i] == a[i]);
            let k = choose|k: int|
                0 <= k < names.drop_last().len() && front.push(
                    #[trigger] names.drop_last()[k],
                ).is_prefix_of(paths::components(a[i]));
            assert(names[k] == names.drop_last()[k]);
            assert(front.push(names[k]).is_prefix_of(paths::components(all[i])));
        } else {
            assert(all[i] == b[i - a.len()]);
            assert(front.push(names[last]).is_prefix_of(paths::components(all[i])));
        }
    }
    assert forall|i: int, j: int| 0 <= i < j < all.len() implies paths::components(
        #[trigger] all[i],
    ) != paths::components(#[trigger] all[j]) by {
        if j < a.len() {
            assert(all[i] == a[i] && all[j] == a[j]);
        } else if i >= a.len() {
            assert(all[i] == b[i - a.len()] && all[j] == b[j - a.len()]);
        } else {
            let k = choose|k: int|
                0 <= k < names.len() && front.push(#[trigger] names[k]).is_prefix_of(
                    paths::components(all[i]),
                ) && (k < last <==> i < a.len());
            assert(all[j] == b[j - a.len()]);
            let (x, y) = (paths::components(all[i]), paths::components(all[j]));
            assert(x.subrange(0, n + 1)[n] == names[k]);
            assert(y.subrange(0, n + 1)[n] == names[last]);
            assert(names[k] != names[last]);
        }
    }
}

proof fn lemma_below_some_is_below(
    list: Seq<Seq<u8>>,
    front: Seq<Seq<u8>>,
    names: Seq<Seq<u8>>,
)
    requires
        below_some(list, front, names),
    ensures
        below(list, front),
{
    assert forall|i: int| 0 <= i < list.len() implies front.is_prefix_of(
        paths::components(#[trigger] list[i]),
    ) by {
        let c = paths::components(list[i]);
        let k = choose|k: int|
            0 <= k < names.len() && front.push(#[trigger] names[k]).is_prefix_of(c);
        assert(c.subrange(0, front.len() as int) =~= c.subrange(
            0,
            front.len() as int + 1,
        ).subrange(0, front.len() as int));
        assert(front.push(names[k]).subrange(0, front.len() as int) =~= front);
    }
}

proof fn lemma_listed_files(dir: Seq<u8>, entries: Seq<Entry>, names: Seq<Seq<u8>>)
    requires
        names.no_duplicates(),
        lists(dir, entries, names),
    ensures
        apart(files(entries)),
        below_some(files(entries), paths::components(dir), names),
    decreases entries, 0nat,
{
    if entries.len() > 0 {
        let (front, front_names) = (entries.drop_last(), names.drop_last());
        let last = entries.len() - 1;
        assert forall|i: int| 0 <= i < front.len() implies is_entry_name(
            #[trigger] front_names[i],
        ) && is_entry_at(paths::join_paths(dir, front_names[i]), front[i]) by {
            assert(front_names[i] == names[i]);
        }
        lemma_listed_files(dir, front, front_names);
        assert(is_entry_name(names[last]));
        let path = paths::join_paths(dir, names[last]);
        law_entry_components(dir, names[last]);
        lemma_entry_files(path, entries.last());
        lemma_apart_joined(
            files(front),
            entry_files(entries.last()),
            paths::components(dir),
            names,
        );
    }
}

proof fn lemma_entry_files(path: Seq<u8>, entry: Entry)
    requires
        is_entry_at(path, entry),
    ensures
        apart(entry_files(entry)),
        below(entry_files(entry), paths::components(path)),
    decreases entry, 2nat,
{
    match entry {
        Entry::File(p) => {
            let c = paths::components(path);
            assert(c =~= c.subrange(0, c.len() as int));
        },
        Entry::Dir(inner) => {
            law_listed_paths_differ(path, inner@);
        },
    }
}

/// The files of a directory, however deep they lie, differ in their components,
/// and each has those of the directory in front.
pub proof fn law_listed_paths_differ(dir: Seq<u8>, entries: Seq<Entry>)
    requires
        is_listing(dir, entries),
    ensures
        apart(files(entries)),
        below(files(entries), paths::components(dir)),
    decreases entries, 1nat,
{
    let names = choose|names: Seq<Seq<u8>>| #[trigger]
        names.no_duplicates() && lists(dir, entries, names);
    lemma_listed_files(dir, entries, names);
    lemma_below_some_is_below(files(entries), paths::components(dir), names);
}

/// The files of the repositories in a directory differ in their components.
pub proof fn law_repo_paths_differ(
    docs_dir: Seq<u8>,
    repos: Seq<RepoListing>,
    names: Seq<Seq<u8>>,
)
    requires
        lists_repos(docs_dir, repos, names),
    ensures
        apart(repo_files(repos)),
        below_some(repo_files(repos), paths::components(docs_dir), names),
    decreases repos.len(),
{
    if repos.len() > 0 {
        let (front, front_names) = (repos.drop_last(), names.drop_last());
        let last = repos.len() - 1;
        assert forall|i: int| 0 <= i < front.len() implies is_entry_name(
            #[trigger] front_names[i],
        ) && is_listing(
            walk::root_of(paths::join_paths(docs_dir, front_names[i]), front[i].docs is Some),
            walk::walked(front[i]),
        ) by {
            assert(front_names[i] == names[i]);
        }
        law_repo_paths_differ(docs_dir, front, front_names);
        assert(is_entry_name(names[last]));
        let path = paths::join_paths(docs_dir, names[last]);
        let has_docs = repos[last].docs is Some;
        let own = files(walk::walked(repos[last]));
        law_entry_components(docs_dir, names[last]);
        law_listed_paths_differ(walk::root_of(path, has_docs), walk::walked(repos[last]));
        lemma_root_below(path, has_docs);
        lemma_below_longer(
            own,
            paths::components(path),
            paths::components(walk::root_of(path, has_docs)),
        );
        lemma_apart_joined(repo_files(front), own, paths::components(docs_dir), names);
    }
}

proof fn lemma_root_below(repo: Seq<u8>, has_docs: bool)
    ensures
        paths::components(repo).is_prefix_of(paths::components(walk::root_of(repo, has_docs))),
{
    let c = paths::components(repo);
    if has_docs {
        let name = includes::docs_name();
        assert(name.len() == 4);
        assert forall|i: int| 0 <= i < 4 implies name[i] != 0x2f by {}
        law_entry_components(repo, name);
        assert(c =~= c.push(name).subrange(0, c.len() as int));
    } else {
        assert(c =~= c.subrange(0, c.len() as int));
    }
}

/// The pages of the repositories, in the order of their paths, do not depend on
/// the order in which any directory gives its entries.
pub proof fn law_pages_whatever_the_listing(
    docs_dir: Seq<u8>,
    a: Seq<RepoListing>,
    b: Seq<RepoListing>,
    names: Seq<Seq<u8>>,
)
    requires
        lists_repos(docs_dir, a, names),
        reordered_repos(a, b),
    ensures
        path_order::sorted(walk::repo_pages(a)) == path_order::sorted(walk::repo_pages(b)),
{
    let found = walk::repo_pages(a);
    let all = repo_files(a);
    law_repo_paths_differ(docs_dir, a, names);
    law_reordered_repo_files(a, b);
    law_pages_among_repo_files(a);
    law_pages_among_repo_files(b);
    lemma_filter_multiset(all, repo_files(b), page_test());
    assert forall|i: int, j: int|
        0 <= i < found.len() && 0 <= j < found.len() && paths::components(#[trigger] found[i])
            == paths::components(#[trigger] found[j]) implies found[i] == found[j] by {
        assert(found.contains(found[i]) && found.contains(found[j]));
        all.lemma_filter_contains_rev(page_test(), found[i]);
        all.lemma_filter_contains_rev(page_test(), found[j]);
        let k = choose|k: int| 0 <= k < all.len() && all[k] == found[i];
        let n = choose|n: int| 0 <= n < all.len() && all[n] == found[j];
        if k < n {
            assert(paths::components(all[k]) != paths::components(all[n]));
        } else if n < k {
            assert(paths::components(all[n]) != paths::components(all[k]));
        }
    }
    path_order::law_sorted_whatever_the_listing(found, walk::repo_pages(b));
}

/// The chunks of all pages do not depend on the order in which any directory
/// gives its entries: neither those below the repositories, nor that of the
/// repositories themselves when their pages and their configurations are read.
pub proof fn law_load_whatever_the_listing(
    docs_dir: Seq<u8>,
    a: Seq<RepoListing>,
    b: Seq<RepoListing>,
    names: Seq<Seq<u8>>,
    confs_a: Seq<RepoConf>,
    confs_b: Seq<RepoConf>,
    files: Map<Seq<u8>, Option<Seq<char>>>,
)
    requires
        lists_repos(docs_dir, a, names),
        reordered_repos(a, b),
        forall|i: int, j: int|
            0 <= i < j < confs_a.len() ==> (#[trigger] confs_a[i]).repo@ != (
            #[trigger] confs_a[j]).repo@,
        base_urls::conf_views(confs_a).to_multiset() == base_urls::conf_views(
            confs_b,
        ).to_multiset(),
    ensures
        loader_laws::chunks_of_pages(
            path_order::sorted(walk::repo_pages(a)),
            docs_dir,
            base_urls::base_urls_of(confs_a),
            files,
        ) == loader_laws::chunks_of_pages(
            path_order::sorted(walk::repo_pages(b)),
            docs_dir,
            base_urls::base_urls_of(confs_b),
            files,
        ),
{
    law_pages_whatever_the_listing(docs_dir, a, b, names);
    base_urls::law_addresses_whatever_the_listing(confs_a, confs_b);
}

/// Whether two repositories differ at most in what lies outside the directory
/// `docs` that both have.
pub open spec fn same_but_outside_docs(a: RepoListing, b: RepoListing) -> bool {
    match (a.docs, b.docs) {
        (Some(x), Some(y)) => x@ == y@,
        (None, None) => a.whole@ == b.whole@,
        _ => false,
    }
}

/// What lies in a repository outside its directory `docs` gives no pages.
pub proof fn law_pages_only_from_docs(a: Seq<RepoListing>, b: Seq<RepoListing>)
    requires
        a.len() == b.len(),
        forall|i: int| 0 <= i < a.len() ==> same_but_outside_docs(#[trigger] a[i], b[i]),
    ensures
        walk::repo_pages(a) == walk::repo_pages(b),
    decreases a.len(),
{
    if a.len() > 0 {
        let (x, y) = (a.drop_last(), b.drop_last());
        assert forall|i: int| 0 <= i < x.len() implies same_but_outside_docs(
            #[trigger] x[i],
            y[i],
        ) by {
            assert(x[i] == a[i]);
        }
        law_pages_only_from_docs(x, y);
        assert(same_but_outside_docs(a[a.len() - 1], b[a.len() - 1]));
    }
}

/// What lies in a repository outside its directory `docs` changes no chunks,
/// unless a page depends on a file there. So files may be added to such a
/// repository, as long as those that the pages depend on stay as they are.
pub proof fn law_chunks_only_from_docs(
    a: Seq<RepoListing>,
    b: Seq<RepoListing>,
    docs_dir: Seq<u8>,
    urls: Map<Seq<char>, Seq<char>>,
    files_a: Map<Seq<u8>, Option<Seq<char>>>,
    files_b: Map<Seq<u8>, Option<Seq<char>>>,
)
    requires
        a.len() == b.len(),
        forall|i: int| 0 <= i < a.len() ==> same_but_outside_docs(#[trigger] a[i], b[i]),
        expansion_laws::knows_all(files_a),
        expansion_laws::knows_all(files_b),
        forall|page: Seq<u8>, p: Seq<u8>|
            walk::repo_pages(a).contains(page) && #[trigger] loader_laws::page_reads(
                page,
                files_a,
            ).contains(p) ==> files_a[p] == files_b[p],
    ensures
        loader_laws::chunks_of_pages(
            path_order::sorted(walk::repo_pages(a)),
            docs_dir,
            urls,
            files_a,
        ) == loader_laws::chunks_of_pages(
            path_order::sorted(walk::repo_pages(b)),
            docs_dir,
            urls,
            files_b,
        ),
{
    broadcast use vstd::seq_lib::group_to_multiset_ensures;

    law_pages_only_from_docs(a, b);
    let found = walk::repo_pages(a);
    let list = path_order::sorted(found);
    path_order::law_sorted(found);
    assert forall|i: int, p: Seq<u8>|
        0 <= i < list.len() && #[trigger] loader_laws::page_reads(list[i], files_a).contains(
            p,
        ) implies files_a[p] == files_b[p] by {
        assert(list.contains(list[i]));
        assert(list.to_multiset().count(list[i]) > 0);
        assert(found.contains(list[i]));
    }
    loader_laws::law_chunks_depend_on_reads(list, docs_dir, urls, files_a, files_b);
}

} // verus!

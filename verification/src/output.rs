//! What is done with the finished index: its table, the permissions of its
//! files, and its archive.

use crate::chunks::Chunk;
use crate::paths;
use crate::paths::DocPath;
use crate::text;
use vstd::prelude::*;

verus! {

/// The mode of a directory of the index: everyone may read and enter it.
pub const DIR_MODE: u32 = 0o755;

/// The mode of a file of the index: everyone may read it.
pub const FILE_MODE: u32 = 0o644;

/// The columns of the table that come from the chunks, and whether a full-text
/// index is made of them.
pub struct TableRows {
    pub sources: Vec<String>,
    pub texts: Vec<String>,
    pub fulltext: bool,
}

/// The rows of the table: one for each chunk, in order. A table without rows
/// gets no full-text index.
pub fn table_rows(chunks: &Vec<Chunk>) -> (r: TableRows)
    ensures
        r.sources@.len() == chunks@.len(),
        r.texts@.len() == chunks@.len(),
        forall|i: int|
            0 <= i < chunks@.len() ==> (#[trigger] r.sources@[i])@ == chunks@[i].source@,
        forall|i: int| 0 <= i < chunks@.len() ==> (#[trigger] r.texts@[i])@ == chunks@[i].text@,
        r.fulltext == (chunks@.len() > 0),
{
    let mut sources: Vec<String> = Vec::new();
    let mut texts: Vec<String> = Vec::new();
    for i in 0..chunks.len()
        invariant
            sources@.len() == i,
            texts@.len() == i,
            forall|k: int| 0 <= k < i ==> (#[trigger] sources@[k])@ == chunks@[k].source@,
            forall|k: int| 0 <= k < i ==> (#[trigger] texts@[k])@ == chunks@[k].text@,
    {
        sources.push(chunks[i].source.clone());
        texts.push(chunks[i].text.clone());
    }
    TableRows { sources, texts, fulltext: chunks.len() > 0 }
}

/// The test for a byte other than a full stop.
pub open spec fn not_dot() -> spec_fn(u8) -> bool {
    |b: u8| b != paths::DOT
}

/// The length of a file's name without its extension. The extension follows
/// the last full stop, unless the name starts with that one.
pub open spec fn stem_length(name: Seq<u8>) -> int {
    let tail = text::back_run(name, not_dot());
    if tail + 1 < name.len() {
        name.len() - tail - 1
    } else {
        name.len() as int
    }
}

/// A path with the extension of its file's name replaced, or the path itself
/// if it does not end with a name.
pub open spec fn with_extension(p: Seq<u8>, extension: Seq<u8>) -> Seq<u8> {
    match paths::file_name(p) {
        None => p,
        Some(name) => p.take(paths::spans(p).last().0 + stem_length(name)).push(paths::DOT)
            + extension,
    }
}

/// The bytes of `lance.tar.gz`.
pub open spec fn archive_extension() -> Seq<u8> {
    seq![
        0x6cu8,
        0x61u8,
        0x6eu8,
        0x63u8,
        0x65u8,
        0x2eu8,
        0x74u8,
        0x61u8,
        0x72u8,
        0x2eu8,
        0x67u8,
        0x7au8,
    ]
}

/// The length of a file's name without its extension.
fn stem_length_of(name: &[u8]) -> (n: usize)
    ensures
        n == stem_length(name@),
        n <= name@.len(),
{
    let ghost f = not_dot();
    let mut start: usize = name.len();
    while start > 0 && name[start - 1] != paths::DOT
        invariant
            start <= name@.len(),
            forall|i: int| start <= i < name@.len() ==> #[trigger] name@[i] != paths::DOT,
        decreases start,
    {
        start = start - 1;
    }
    proof {
        text::lemma_back_run(name@, f, name@.len() - start);
        assert forall|i: int| start <= i < name@.len() implies f(#[trigger] name@[i]) by {}
        assert(start > 0 ==> !f(name@[start - 1]));
    }
    if start > 1 {
        start - 1
    } else {
        name.len()
    }
}

/// Where the archive of an index goes: beside it, under its name with the
/// extension `lance.tar.gz`.
pub fn tarball_path(output: &DocPath) -> (r: DocPath)
    ensures
        r@ == with_extension(output@, archive_extension()),
{
    let extension: [u8; 12] = [
        0x6c,
        0x61,
        0x6e,
        0x63,
        0x65,
        0x2e,
        0x74,
        0x61,
        0x72,
        0x2e,
        0x67,
        0x7a,
    ];
    assert(extension@ =~= archive_extension());
    let name: Vec<u8> = match output.file_name_of() {
        None => {
            return output.copy();
        },
        Some(name) => name,
    };
    let p = output.bytes.as_slice();
    let found: Vec<(usize, usize)> = paths::spans_of(p);
    let n: usize = found.len();
    proof {
        paths::lemma_spans(p@);
        assert(paths::span_view(found@).last() == (found[n - 1].0 as int, found[n - 1].1 as int));
        assert(name@ == p@.subrange(found[n - 1].0 as int, found[n - 1].1 as int));
    }
    let size: usize = stem_length_of(name.as_slice());
    let mut out: Vec<u8> = paths::copy_bytes(
        vstd::slice::slice_subrange(p, 0, found[n - 1].0 + size),
    );
    assert(out@ =~= p@.take(found[n - 1].0 + size));
    out.push(paths::DOT);
    paths::push_bytes(&mut out, extension.as_slice());
    DocPath::from_bytes(out)
}

/// An entry of a directory of the index.
pub struct IndexEntry {
    pub path: DocPath,
    pub is_dir: bool,
}

/// One step of setting permissions.
pub enum PermissionStep {
    /// The entries of this directory are needed.
    List(DocPath),
    /// This path gets this mode.
    SetMode(DocPath, u32),
}

/// A [`PermissionStep`] as a mathematical value.
pub enum Step {
    List(Seq<u8>),
    SetMode(Seq<u8>, u32),
}

impl View for PermissionStep {
    type V = Step;

    open spec fn view(&self) -> Step {
        match self {
            PermissionStep::List(p) => Step::List(p@),
            PermissionStep::SetMode(p, mode) => Step::SetMode(p@, *mode),
        }
    }
}

/// The steps for one entry: its mode is set, and a directory is then walked.
pub open spec fn entry_steps(path: Seq<u8>, is_dir: bool) -> Seq<Step> {
    if is_dir {
        seq![Step::SetMode(path, DIR_MODE), Step::List(path)]
    } else {
        seq![Step::SetMode(path, FILE_MODE)]
    }
}

/// The steps for some entries in turn: of each its path, and whether it is a
/// directory.
pub open spec fn entries_steps(entries: Seq<(Seq<u8>, bool)>) -> Seq<Step>
    decreases entries.len(),
{
    if entries.len() == 0 {
        Seq::empty()
    } else {
        entry_steps(entries[0].0, entries[0].1) + entries_steps(entries.skip(1))
    }
}

/// The views of a list of entries.
pub open spec fn entry_views(entries: Seq<IndexEntry>) -> Seq<(Seq<u8>, bool)> {
    entries.map_values(|e: IndexEntry| (e.path@, e.is_dir))
}

/// The steps that are left of setting the permissions of an index.
pub struct PermissionWalk {
    // The step to be taken first stands last.
    pending: Vec<PermissionStep>,
}

impl View for PermissionWalk {
    type V = Seq<Step>;

    closed spec fn view(&self) -> Seq<Step> {
        Seq::new(self.pending@.len(), |i: int| self.pending@[self.pending@.len() - 1 - i]@)
    }
}

impl PermissionWalk {
    /// The start of setting the permissions of the index in a directory.
    pub fn new(dir: DocPath) -> (r: PermissionWalk)
        ensures
            r@ == seq![Step::List(dir@)],
    {
        let mut pending: Vec<PermissionStep> = Vec::new();
        pending.push(PermissionStep::List(dir));
        let r = PermissionWalk { pending };
        assert(r@ =~= seq![Step::List(dir@)]);
        r
    }

    /// The next step, which is then no longer left.
    pub fn next_step(&mut self) -> (r: Option<PermissionStep>)
        ensures
            match r {
                None => old(self)@.len() == 0 && final(self)@ == old(self)@,
                Some(step) => old(self)@.len() > 0 && step@ == old(self)@[0] && final(self)@
                    == old(self)@.skip(1),
            },
    {
        let ghost before = self@;
        let r = self.pending.pop();
        proof {
            if before.len() > 0 {
                assert(self@ =~= before.skip(1));
            } else {
                assert(self@ =~= before);
            }
        }
        r
    }

    /// Takes in the entries of a directory: their steps come next, and after
    /// them the directory's own mode is set.
    pub fn listed(&mut self, dir: DocPath, entries: Vec<IndexEntry>)
        ensures
            final(self)@ == entries_steps(entry_views(entries@)).push(
                Step::SetMode(dir@, DIR_MODE),
            ) + old(self)@,
    {
        let ghost before = self@;
        let ghost own = Step::SetMode(dir@, DIR_MODE);
        let ghost all = entry_views(entries@);
        self.pending.push(PermissionStep::SetMode(dir, DIR_MODE));
        assert(self@ =~= seq![own] + before);
        let mut n: usize = entries.len();
        assert(all.skip(n as int) =~= Seq::<(Seq<u8>, bool)>::empty());
        assert(self@ =~= entries_steps(all.skip(n as int)) + (seq![own] + before));
        while n > 0
            invariant
                n <= entries@.len(),
                all == entry_views(entries@),
                self@ == entries_steps(all.skip(n as int)) + (seq![own] + before),
            decreases n,
        {
            let ghost sofar = self@;
            let ghost rest = all.skip(n - 1);
            assert(rest[0] == (entries@[n - 1].path@, entries@[n - 1].is_dir));
            assert(rest.skip(1) =~= all.skip(n as int));
            n = n - 1;
            let path: DocPath = entries[n].path.copy();
            if entries[n].is_dir {
                self.pending.push(PermissionStep::List(path.copy()));
                assert(self@ =~= seq![Step::List(path@)] + sofar);
                self.pending.push(PermissionStep::SetMode(path, DIR_MODE));
                assert(self@ =~= entry_steps(path@, true) + sofar);
            } else {
                self.pending.push(PermissionStep::SetMode(path, FILE_MODE));
                assert(self@ =~= entry_steps(path@, false) + sofar);
            }
            assert(self@ =~= entries_steps(rest) + (seq![own] + before));
        }
        assert(all.skip(0) =~= all);
        assert(self@ =~= entries_steps(all).push(own) + before);
    }
}

/// What lies in a directory of an index.
pub enum IndexTree {
    /// A file.
    File(Seq<u8>),
    /// A directory and what lies in it.
    Dir(Seq<u8>, Seq<IndexTree>),
}

/// The path of an entry, and whether it is a directory.
pub open spec fn tree_entry(tree: IndexTree) -> (Seq<u8>, bool) {
    match tree {
        IndexTree::File(path) => (path, false),
        IndexTree::Dir(path, _) => (path, true),
    }
}

/// The entries of a directory as they are listed.
pub open spec fn tree_entries(trees: Seq<IndexTree>) -> Seq<(Seq<u8>, bool)> {
    trees.map_values(|t: IndexTree| tree_entry(t))
}

/// The modes that are set for what lies in a directory, in order.
pub open spec fn tree_modes(trees: Seq<IndexTree>) -> Seq<(Seq<u8>, u32)>
    decreases trees,
{
    if trees.len() == 0 {
        Seq::empty()
    } else {
        one_tree_modes(trees[0]) + tree_modes(trees.skip(1))
    }
}

/// The modes that are set for one entry and what lies in it.
pub open spec fn one_tree_modes(tree: IndexTree) -> Seq<(Seq<u8>, u32)>
    decreases tree,
{
    match tree {
        IndexTree::File(path) => seq![(path, FILE_MODE)],
        IndexTree::Dir(path, inner) => (seq![(path, DIR_MODE)] + tree_modes(inner)).push(
            (path, DIR_MODE),
        ),
    }
}

/// A step that is left, with what lies in the directory that it walks.
pub enum Task {
    SetMode(Seq<u8>, u32),
    Walk(Seq<u8>, Seq<IndexTree>),
}

/// A task as the step that it is.
pub open spec fn task_step(task: Task) -> Step {
    match task {
        Task::SetMode(path, mode) => Step::SetMode(path, mode),
        Task::Walk(path, _) => Step::List(path),
    }
}

/// The tasks for what lies in a directory.
pub open spec fn tree_tasks(trees: Seq<IndexTree>) -> Seq<Task>
    decreases trees.len(),
{
    if trees.len() == 0 {
        Seq::empty()
    } else {
        (match trees[0] {
            IndexTree::File(path) => seq![Task::SetMode(path, FILE_MODE)],
            IndexTree::Dir(path, inner) => seq![
                Task::SetMode(path, DIR_MODE),
                Task::Walk(path, inner),
            ],
        }) + tree_tasks(trees.skip(1))
    }
}

/// The modes that are still to be set by some tasks.
pub open spec fn task_modes(tasks: Seq<Task>) -> Seq<(Seq<u8>, u32)>
    decreases tasks.len(),
{
    if tasks.len() == 0 {
        Seq::empty()
    } else {
        (match tasks[0] {
            Task::SetMode(path, mode) => seq![(path, mode)],
            Task::Walk(path, trees) => tree_modes(trees).push((path, DIR_MODE)),
        }) + task_modes(tasks.skip(1))
    }
}

proof fn lemma_task_modes(a: Seq<Task>, b: Seq<Task>)
    ensures
        task_modes(a + b) == task_modes(a) + task_modes(b),
    decreases a.len(),
{
    if a.len() == 0 {
        assert(a + b =~= b);
        assert(task_modes(a) + task_modes(b) =~= task_modes(b));
    } else {
        lemma_task_modes(a.skip(1), b);
        assert((a + b).skip(1) =~= a.skip(1) + b);
        assert((a + b)[0] == a[0]);
        assert(task_modes(a + b) =~= task_modes(a) + task_modes(b));
    }
}

proof fn lemma_one_task(task: Task)
    ensures
        task_modes(seq![task]) == (match task {
            Task::SetMode(path, mode) => seq![(path, mode)],
            Task::Walk(path, trees) => tree_modes(trees).push((path, DIR_MODE)),
        }),
{
    let list = seq![task];
    assert(list.skip(1) =~= Seq::<Task>::empty());
    let none = task_modes(list.skip(1));
    assert(none =~= Seq::<(Seq<u8>, u32)>::empty());
    match task {
        Task::SetMode(path, mode) => {
            assert(seq![(path, mode)] + none =~= seq![(path, mode)]);
        },
        Task::Walk(path, trees) => {
            let modes = tree_modes(trees).push((path, DIR_MODE));
            assert(modes + none =~= modes);
        },
    }
}

proof fn lemma_tree_tasks(trees: Seq<IndexTree>)
    ensures
        tree_tasks(trees).map_values(|t: Task| task_step(t)) == entries_steps(tree_entries(trees)),
        task_modes(tree_tasks(trees)) == tree_modes(trees),
    decreases trees.len(),
{
    let f = |t: Task| task_step(t);
    if trees.len() == 0 {
        assert(tree_tasks(trees).map_values(f) =~= entries_steps(tree_entries(trees)));
    } else {
        let rest = trees.skip(1);
        lemma_tree_tasks(rest);
        let own = match trees[0] {
            IndexTree::File(path) => seq![Task::SetMode(path, FILE_MODE)],
            IndexTree::Dir(path, inner) => seq![
                Task::SetMode(path, DIR_MODE),
                Task::Walk(path, inner),
            ],
        };
        assert(tree_tasks(trees) == own + tree_tasks(rest));
        assert(tree_entries(trees).skip(1) =~= tree_entries(rest));
        assert(tree_entries(trees)[0] == tree_entry(trees[0]));
        assert(own.map_values(f) =~= entry_steps(tree_entry(trees[0]).0, tree_entry(trees[0]).1));
        assert((own + tree_tasks(rest)).map_values(f) =~= own.map_values(f) + tree_tasks(
            rest,
        ).map_values(f));
        lemma_task_modes(own, tree_tasks(rest));
        match trees[0] {
            IndexTree::File(path) => {
                lemma_one_task(Task::SetMode(path, FILE_MODE));
                assert(task_modes(own) =~= one_tree_modes(trees[0]));
            },
            IndexTree::Dir(path, inner) => {
                lemma_one_task(Task::SetMode(path, DIR_MODE));
                lemma_one_task(Task::Walk(path, inner));
                assert(own =~= seq![Task::SetMode(path, DIR_MODE)] + seq![Task::Walk(path, inner)]);
                lemma_task_modes(
                    seq![Task::SetMode(path, DIR_MODE)],
                    seq![Task::Walk(path, inner)],
                );
                assert(task_modes(own) =~= one_tree_modes(trees[0]));
            },
        }
        assert(tree_modes(trees) == one_tree_modes(trees[0]) + tree_modes(rest));
    }
}

/// Walking a directory keeps to the plan. The steps that its entries bring are
/// those of the tasks for what lies in it, and the modes that are still to be
/// set do not change.
pub proof fn law_walk_keeps_plan(dir: Seq<u8>, trees: Seq<IndexTree>, left: Seq<Task>)
    ensures
        ({
            let after = tree_tasks(trees).push(Task::SetMode(dir, DIR_MODE)) + left;
            &&& after.map_values(|t: Task| task_step(t)) == entries_steps(
                tree_entries(trees),
            ).push(Step::SetMode(dir, DIR_MODE)) + left.map_values(|t: Task| task_step(t))
            &&& task_modes(after) == task_modes(seq![Task::Walk(dir, trees)] + left)
        }),
{
    let f = |t: Task| task_step(t);
    let own = Task::SetMode(dir, DIR_MODE);
    let first = tree_tasks(trees);
    let after = first.push(own) + left;
    lemma_tree_tasks(trees);
    assert(after.map_values(f) =~= first.map_values(f).push(task_step(own)) + left.map_values(f));
    assert(first.push(own) =~= first + seq![own]);
    lemma_task_modes(first.push(own), left);
    lemma_task_modes(first, seq![own]);
    lemma_task_modes(seq![Task::Walk(dir, trees)], left);
    let walk = seq![Task::Walk(dir, trees)];
    lemma_one_task(own);
    lemma_one_task(Task::Walk(dir, trees));
    assert(task_modes(after) =~= task_modes(walk) + task_modes(left));
}

/// The plan of a walk of an index is to set the modes of all that lies in it,
/// and last its own.
pub proof fn law_plan_of_walk(dir: Seq<u8>, trees: Seq<IndexTree>)
    ensures
        seq![Task::Walk(dir, trees)].map_values(|t: Task| task_step(t)) == seq![Step::List(dir)],
        task_modes(seq![Task::Walk(dir, trees)]) == tree_modes(trees).push((dir, DIR_MODE)),
{
    let walk = seq![Task::Walk(dir, trees)];
    assert(walk.map_values(|t: Task| task_step(t)) =~= seq![Step::List(dir)]);
    lemma_one_task(Task::Walk(dir, trees));
}

/// Setting a mode takes the first of the modes off the plan, and nothing else.
pub proof fn law_mode_taken_off_plan(path: Seq<u8>, mode: u32, left: Seq<Task>)
    ensures
        task_modes(seq![Task::SetMode(path, mode)] + left) == seq![(path, mode)] + task_modes(left),
{
    lemma_task_modes(seq![Task::SetMode(path, mode)], left);
    lemma_one_task(Task::SetMode(path, mode));
}

/// Whether a path lies somewhere in a directory, as a directory or as a file.
pub open spec fn lies_in(path: Seq<u8>, is_dir: bool, trees: Seq<IndexTree>) -> bool
    decreases trees,
{
    trees.len() > 0 && (is_or_lies_in(path, is_dir, trees[0]) || lies_in(
        path,
        is_dir,
        trees.skip(1),
    ))
}

/// Whether a path is an entry or lies somewhere in it.
pub open spec fn is_or_lies_in(path: Seq<u8>, is_dir: bool, tree: IndexTree) -> bool
    decreases tree,
{
    match tree {
        IndexTree::File(p) => !is_dir && path == p,
        IndexTree::Dir(p, inner) => (is_dir && path == p) || lies_in(path, is_dir, inner),
    }
}

/// The modes that a walk sets are exactly these: that of directories for each
/// directory in the index, and that of files for each file.
pub proof fn law_every_entry_gets_its_mode(path: Seq<u8>, mode: u32, trees: Seq<IndexTree>)
    ensures
        tree_modes(trees).contains((path, mode)) <==> (mode == 0o755 && lies_in(
            path,
            true,
            trees,
        )) || (mode == 0o644 && lies_in(path, false, trees)),
    decreases trees,
{
    if trees.len() > 0 {
        lemma_one_tree_modes(path, mode, trees[0]);
        law_every_entry_gets_its_mode(path, mode, trees.skip(1));
        text::lemma_contains_either(
            one_tree_modes(trees[0]),
            tree_modes(trees.skip(1)),
            (path, mode),
        );
    }
}

proof fn lemma_one_tree_modes(path: Seq<u8>, mode: u32, tree: IndexTree)
    ensures
        one_tree_modes(tree).contains((path, mode)) <==> (mode == DIR_MODE && is_or_lies_in(
            path,
            true,
            tree,
        )) || (mode == FILE_MODE && is_or_lies_in(path, false, tree)),
    decreases tree,
{
    match tree {
        IndexTree::File(p) => {
            let s = seq![(p, FILE_MODE)];
            assert(s[0] == (p, FILE_MODE));
            assert(s.contains((path, mode)) <==> (path, mode) == (p, FILE_MODE));
        },
        IndexTree::Dir(p, inner) => {
            law_every_entry_gets_its_mode(path, mode, inner);
            let own = seq![(p, DIR_MODE)];
            assert(own[0] == (p, DIR_MODE));
            assert(own.contains((path, mode)) <==> (path, mode) == (p, DIR_MODE));
            text::lemma_contains_either(own, tree_modes(inner), (path, mode));
            text::lemma_contains_either(own + tree_modes(inner), own, (path, mode));
            assert((own + tree_modes(inner)).push((p, DIR_MODE)) =~= own + tree_modes(inner) + own);
        },
    }
}

/// A path that ends with no name gets no extension.
pub proof fn law_no_name_no_extension(p: Seq<u8>, extension: Seq<u8>)
    requires
        paths::file_name(p) is None,
    ensures
        with_extension(p, extension) == p,
{
}

/// The steps for some entries are those of each in turn: its mode is set, and a
/// directory is walked after that.
pub proof fn law_steps_of_entries(
    front: Seq<(Seq<u8>, bool)>,
    path: Seq<u8>,
    back: Seq<(Seq<u8>, bool)>,
)
    ensures
        entries_steps(front + seq![(path, true)] + back) == entries_steps(front) + seq![
            Step::SetMode(path, 0o755),
            Step::List(path),
        ] + entries_steps(back),
        entries_steps(front + seq![(path, false)] + back) == entries_steps(front) + seq![
            Step::SetMode(path, 0o644),
        ] + entries_steps(back),
        entries_steps(Seq::empty()) == Seq::<Step>::empty(),
    decreases front.len(),
{
    let (dir, file) = (front + seq![(path, true)] + back, front + seq![(path, false)] + back);
    if front.len() == 0 {
        assert(dir.skip(1) =~= back);
        assert(file.skip(1) =~= back);
        assert(entries_steps(front) =~= Seq::<Step>::empty());
        assert(entries_steps(dir) =~= entries_steps(front) + seq![
            Step::SetMode(path, 0o755),
            Step::List(path),
        ] + entries_steps(back));
        assert(entries_steps(file) =~= entries_steps(front) + seq![Step::SetMode(path, 0o644)]
            + entries_steps(back));
    } else {
        let rest = front.skip(1);
        law_steps_of_entries(rest, path, back);
        assert(dir.skip(1) =~= rest + seq![(path, true)] + back);
        assert(file.skip(1) =~= rest + seq![(path, false)] + back);
        assert(dir[0] == front[0] && file[0] == front[0]);
        assert(entries_steps(dir) =~= entries_steps(front) + seq![
            Step::SetMode(path, 0o755),
            Step::List(path),
        ] + entries_steps(back));
        assert(entries_steps(file) =~= entries_steps(front) + seq![Step::SetMode(path, 0o644)]
            + entries_steps(back));
    }
}

} // verus!

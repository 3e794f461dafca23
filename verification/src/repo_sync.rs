//! How the local copies of the repositories are brought up to date with git.

use crate::paths;
use crate::paths::DocPath;
use crate::text;
use vstd::prelude::*;
use vstd::utf8::*;

verus! {

/// What comes of bringing one repository up to date.
pub enum SyncOutcome {
    /// The repository is there, as new as it can be.
    Ready,
    /// The update failed, and the copy that was there is used.
    KeptOld,
    /// There is no copy.
    Failed,
}

/// Where the copy of a repository lies.
pub fn checkout_dir(docs_dir: &DocPath, name: &str) -> (r: DocPath)
    ensures
        r@ == paths::join_paths(docs_dir@, encode_utf8(name@)),
{
    docs_dir.join(name.as_bytes())
}

/// The arguments of git: an existing copy is updated if that needs no merge, a
/// missing one is cloned with its latest revision only.
pub open spec fn git_arguments(url: Seq<char>, dest: Seq<char>, checked_out: bool) -> Seq<
    Seq<char>,
> {
    if checked_out {
        seq!["-C"@, dest, "pull"@, "--ff-only"@, "--quiet"@]
    } else {
        seq!["clone"@, "--depth"@, "1"@, "--quiet"@, url, dest]
    }
}

/// The arguments of git for a repository whose copy lies at `dest`.
pub fn git_args(url: &str, dest: &DocPath, checked_out: bool) -> (r: Vec<String>)
    requires
        valid_utf8(dest@),
    ensures
        text::string_views(r@) == git_arguments(url@, decode_utf8(dest@), checked_out),
{
    let place: String = match paths::utf8_text(dest.bytes.as_slice()) {
        Some(s) => s.to_owned(),
        None => String::new(),
    };
    let mut out: Vec<String> = Vec::new();
    if checked_out {
        out.push("-C".to_owned());
        out.push(place);
        out.push("pull".to_owned());
        out.push("--ff-only".to_owned());
        out.push("--quiet".to_owned());
    } else {
        out.push("clone".to_owned());
        out.push("--depth".to_owned());
        out.push("1".to_owned());
        out.push("--quiet".to_owned());
        out.push(url.to_owned());
        out.push(place);
    }
    assert(text::string_views(out@) =~= git_arguments(url@, decode_utf8(dest@), checked_out));
    out
}

/// What comes of a run of git: only a clone that fails leaves the repository
/// missing.
pub fn sync_outcome(checked_out: bool, success: bool) -> (r: SyncOutcome)
    ensures
        r is Ready <==> success,
        r is KeptOld <==> !success && checked_out,
        r is Failed <==> !success && !checked_out,
{
    if success {
        SyncOutcome::Ready
    } else if checked_out {
        SyncOutcome::KeptOld
    } else {
        SyncOutcome::Failed
    }
}

/// How far the repositories have been brought up to date.
pub struct RepoSync {
    docs_dir: DocPath,
    repos: Vec<(String, String)>,
    next: usize,
    failed: bool,
}

/// A [`RepoSync`] as a mathematical value: the address and name of each
/// repository, how many are done, and whether a clone failed.
pub struct SyncState {
    pub docs_dir: Seq<u8>,
    pub repos: Seq<(Seq<char>, Seq<char>)>,
    pub next: nat,
    pub failed: bool,
}

/// The views of a list of pairs of strings.
pub open spec fn pair_views(v: Seq<(String, String)>) -> Seq<(Seq<char>, Seq<char>)> {
    v.map_values(|p: (String, String)| (p.0@, p.1@))
}

impl View for RepoSync {
    type V = SyncState;

    closed spec fn view(&self) -> SyncState {
        SyncState {
            docs_dir: self.docs_dir@,
            repos: pair_views(self.repos@),
            next: self.next as nat,
            failed: self.failed,
        }
    }
}

/// A repository to be brought up to date: its address and name, and where its
/// copy lies.
pub struct RepoTask {
    pub url: String,
    pub name: String,
    pub dest: DocPath,
}

/// Whether there is a repository left to bring up to date.
pub open spec fn has_task(s: SyncState) -> bool {
    !s.failed && s.next < s.repos.len()
}

/// The state after git was run for the next repository.
pub open spec fn after_run(s: SyncState, checked_out: bool, success: bool) -> SyncState {
    if !has_task(s) {
        s
    } else if success || checked_out {
        SyncState { next: s.next + 1, ..s }
    } else {
        SyncState { failed: true, ..s }
    }
}

/// The state after git was run for some repositories in turn: of each, whether
/// there was a copy and whether git succeeded.
pub open spec fn after_runs(s: SyncState, runs: Seq<(bool, bool)>) -> SyncState
    decreases runs.len(),
{
    if runs.len() == 0 {
        s
    } else {
        let earlier = after_runs(s, runs.drop_last());
        after_run(earlier, runs.last().0, runs.last().1)
    }
}

impl RepoSync {
    /// The start of bringing the given repositories up to date.
    pub fn new(docs_dir: DocPath, repos: Vec<(String, String)>) -> (r: RepoSync)
        ensures
            r@ == (SyncState {
                docs_dir: docs_dir@,
                repos: pair_views(repos@),
                next: 0,
                failed: false,
            }),
    {
        RepoSync { docs_dir, repos, next: 0, failed: false }
    }

    /// The next repository to bring up to date.
    pub fn task(&self) -> (r: Option<RepoTask>)
        ensures
            r is Some <==> has_task(self@),
            r matches Some(t) ==> {
                let repo = self@.repos[self@.next as int];
                &&& t.url@ == repo.0
                &&& t.name@ == repo.1
                &&& t.dest@ == paths::join_paths(self@.docs_dir, encode_utf8(repo.1))
            },
    {
        if self.failed || self.next >= self.repos.len() {
            return None;
        }
        let ghost repo = self@.repos[self@.next as int];
        assert(repo == (self.repos@[self.next as int].0@, self.repos@[self.next as int].1@));
        let url: String = self.repos[self.next].0.clone();
        let name: String = self.repos[self.next].1.clone();
        let dest: DocPath = checkout_dir(&self.docs_dir, name.as_str());
        Some(RepoTask { url, name, dest })
    }

    /// Takes in how git ended for the next repository. A clone that fails ends
    /// the run.
    pub fn git_ended(&mut self, checked_out: bool, success: bool) -> (r: SyncOutcome)
        requires
            has_task(old(self)@),
        ensures
            final(self)@ == after_run(old(self)@, checked_out, success),
            r is Ready <==> success,
            r is KeptOld <==> !success && checked_out,
            r is Failed <==> !success && !checked_out,
    {
        let outcome: SyncOutcome = sync_outcome(checked_out, success);
        let total: usize = self.repos.len();
        assert(self.next < total);
        match &outcome {
            SyncOutcome::Failed => {
                self.failed = true;
            },
            SyncOutcome::Ready | SyncOutcome::KeptOld => {
                self.next = self.next + 1;
            },
        }
        outcome
    }
}

/// A run that comes to the end of the list without a failure leaves every
/// repository present: of each, there was a copy or git made one.
pub proof fn law_every_repo_present(s: SyncState, runs: Seq<(bool, bool)>)
    requires
        s.next == 0,
        !s.failed,
        runs.len() <= s.repos.len(),
    ensures
        after_runs(s, runs).failed <==> exists|i: int|
            0 <= i < runs.len() && !(#[trigger] runs[i]).0 && !runs[i].1,
        !after_runs(s, runs).failed ==> after_runs(s, runs).next == runs.len(),
        after_runs(s, runs).repos == s.repos,
        after_runs(s, runs).docs_dir == s.docs_dir,
        has_task(after_runs(s, runs)) <==> !after_runs(s, runs).failed && runs.len()
            < s.repos.len(),
    decreases runs.len(),
{
    if runs.len() > 0 {
        let front = runs.drop_last();
        law_every_repo_present(s, front);
        let last = runs.len() - 1;
        assert(runs[last] == runs.last());
        assert(forall|i: int| 0 <= i < front.len() ==> #[trigger] runs[i] == front[i]);
        if after_runs(s, front).failed {
            let i = choose|i: int| 0 <= i < front.len() && !(#[trigger] front[i]).0 && !front[i].1;
            assert(runs[i] == front[i]);
        }
    }
}

/// A copy is pulled without regard to where it came from, in place and without a
/// merge. A clone takes the latest revision only, from the address to the place
/// given.
pub proof fn law_git_arguments(url: Seq<char>, other: Seq<char>, dest: Seq<char>)
    ensures
        git_arguments(url, dest, true) == git_arguments(other, dest, true),
        git_arguments(url, dest, true).len() == 5,
        git_arguments(url, dest, true).take(2) == seq!["-C"@, dest],
        git_arguments(url, dest, true).skip(2) == seq!["pull"@, "--ff-only"@, "--quiet"@],
        git_arguments(url, dest, false).len() == 6,
        git_arguments(url, dest, false).take(4) == seq![
            "clone"@,
            "--depth"@,
            "1"@,
            "--quiet"@,
        ],
        git_arguments(url, dest, false).skip(4) == seq![url, dest],
{
    let (pull, clone) = (git_arguments(url, dest, true), git_arguments(url, dest, false));
    assert(pull.take(2) =~= seq!["-C"@, dest]);
    assert(pull.skip(2) =~= seq!["pull"@, "--ff-only"@, "--quiet"@]);
    assert(clone.take(4) =~= seq!["clone"@, "--depth"@, "1"@, "--quiet"@]);
    assert(clone.skip(4) =~= seq![url, dest]);
}

} // verus!

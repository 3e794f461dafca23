//! The list of documentation repositories.

use crate::text;
use vstd::prelude::*;

verus! {

/// The configuration: the addresses that the repositories are cloned from.
pub struct DocsConfig {
    pub repos: Vec<String>,
}

/// Why a configuration is refused.
pub enum ConfigError {
    /// No name for the repository can be taken from this address.
    NoRepoName(String),
}

/// The test for a character other than a slash.
pub open spec fn not_slash() -> spec_fn(char) -> bool {
    |c: char| c != '/'
}

/// The name of a repository: what follows the last slash of its address, the
/// slashes at the end of the address left aside.
pub open spec fn repo_name(url: Seq<char>) -> Option<Seq<char>> {
    let path = text::trim_end_char(url, '/');
    let size = text::back_run(path, not_slash());
    if size == 0 {
        None
    } else {
        Some(path.skip(path.len() - size))
    }
}

/// The name of a repository, if one can be taken from its address.
pub fn infer_repo_name(url: &str) -> (r: Option<String>)
    ensures
        repo_name(url@) == (match r {
            Some(name) => Some(name@),
            None => None,
        }),
{
    let chars: Vec<char> = text::chars_of(url);
    let path = text::trim_end_char_of(chars.as_slice(), '/');
    let ghost p = not_slash();
    let mut start: usize = path.len();
    while start > 0 && path[start - 1] != '/'
        invariant
            start <= path@.len(),
            forall|i: int| start <= i < path@.len() ==> #[trigger] path@[i] != '/',
        decreases start,
    {
        start = start - 1;
    }
    proof {
        text::lemma_back_run(path@, p, path@.len() - start);
        assert forall|i: int| start <= i < path@.len() implies p(#[trigger] path@[i]) by {}
        assert(start > 0 ==> !p(path@[start - 1]));
    }
    if start == path.len() {
        None
    } else {
        let name = vstd::slice::slice_subrange(path, start, path.len());
        assert(name@ =~= path@.skip(start as int));
        Some(text::string_of(name))
    }
}

/// The repositories of a configuration, each address with the name that is
/// taken from it.
pub fn load_docs_config(config: DocsConfig) -> (r: Result<Vec<(String, String)>, ConfigError>)
    ensures
        match r {
            Ok(repos) => {
                &&& repos@.len() == config.repos@.len()
                &&& forall|i: int|
                    0 <= i < repos@.len() ==> (#[trigger] repos@[i]).0@ == config.repos@[i]@
                        && repo_name(config.repos@[i]@) == Some(repos@[i].1@)
            },
            Err(ConfigError::NoRepoName(url)) => exists|i: int|
                {
                    &&& 0 <= i < config.repos@.len()
                    &&& url@ == (#[trigger] config.repos@[i])@
                    &&& repo_name(url@) is None
                    &&& forall|j: int|
                        0 <= j < i ==> repo_name((#[trigger] config.repos@[j])@) is Some
                },
        },
{
    let mut out: Vec<(String, String)> = Vec::new();
    for i in 0..config.repos.len()
        invariant
            out@.len() == i,
            forall|k: int|
                0 <= k < i ==> (#[trigger] out@[k]).0@ == config.repos@[k]@ && repo_name(
                    config.repos@[k]@,
                ) == Some(out@[k].1@),
            forall|j: int| 0 <= j < i ==> repo_name((#[trigger] config.repos@[j])@) is Some,
    {
        match infer_repo_name(config.repos[i].as_str()) {
            Some(name) => {
                out.push((config.repos[i].clone(), name));
            },
            None => {
                return Err(ConfigError::NoRepoName(config.repos[i].clone()));
            },
        }
    }
    Ok(out)
}

impl ConfigError {
    /// The error as a message.
    pub fn message(&self) -> (r: String)
        ensures
            match self {
                ConfigError::NoRepoName(url) => r@ == "cannot infer repo name from URL: "@ + url@,
            },
    {
        match self {
            ConfigError::NoRepoName(url) => {
                let mut out: Vec<char> = text::chars_of("cannot infer repo name from URL: ");
                let rest: Vec<char> = text::chars_of(url.as_str());
                text::extend(&mut out, rest.as_slice());
                text::string_of(out.as_slice())
            },
        }
    }
}

/// A name is found for exactly the addresses that hold something other than
/// slashes.
pub proof fn law_name_unless_all_slashes(url: Seq<char>)
    ensures
        repo_name(url) is None <==> forall|i: int| 0 <= i < url.len() ==> #[trigger] url[i] == '/',
{
    let p = text::is_char('/');
    let path = text::trim_end_char(url, '/');
    text::lemma_back_run(url, p, url.len() as int);
    text::lemma_back_run(path, not_slash(), 0);
    let cut = text::back_run(url, p) as int;
    if cut < url.len() {
        assert(path.last() == url[url.len() - cut - 1]);
        assert(not_slash()(path.last()));
    } else {
        assert forall|i: int| 0 <= i < url.len() implies #[trigger] url[i] == '/' by {
            assert(p(url[i]));
        }
    }
}

/// A name is not empty, holds no slash, and stands in the address between a
/// slash, or the start, and the slashes at the end.
pub proof fn law_name_is_last_segment(url: Seq<char>)
    requires
        repo_name(url) is Some,
    ensures
        repo_name(url)->0.len() > 0,
        !repo_name(url)->0.contains('/'),
        exists|a: int, b: int|
            0 <= a < b <= url.len() && #[trigger] url.subrange(a, b) == repo_name(url)->0 && (a > 0
                ==> url[a - 1] == '/') && (forall|i: int| b <= i < url.len() ==> url[i] == '/'),
{
    let p = text::is_char('/');
    let q = not_slash();
    let path = text::trim_end_char(url, '/');
    text::lemma_back_run(url, p, 0);
    text::lemma_back_run(path, q, 0);
    let b = path.len() as int;
    let a = b - text::back_run(path, q);
    let name = repo_name(url)->0;
    assert(url.subrange(a, b) =~= name);
    assert forall|i: int| 0 <= i < name.len() implies name[i] != '/' by {
        assert(q(path[a + i]));
    }
    if a > 0 {
        assert(!q(path[a - 1]));
    }
    assert forall|i: int| b <= i < url.len() implies url[i] == '/' by {
        assert(p(url[i]));
    }
}

} // verus!

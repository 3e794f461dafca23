use ubuntu_docs_indexer::config::{infer_repo_name, load_docs_config, ConfigError, DocsConfig};
use ubuntu_docs_indexer::paths::DocPath;
use ubuntu_docs_indexer::repo_sync::{
    checkout_dir, git_args, sync_outcome, RepoSync, SyncOutcome,
};

fn config(urls: &[&str]) -> DocsConfig {
    DocsConfig { repos: urls.iter().map(|s| s.to_string()).collect() }
}

#[test]
fn a_repository_is_named_after_its_address() {
    let name = |s: &str| infer_repo_name(s);
    assert_eq!(name("https://github.com/canonical/ubuntu-docs"), Some("ubuntu-docs".to_string()));
    assert_eq!(name("https://github.com/canonical/x//"), Some("x".to_string()));
    assert_eq!(name("plain"), Some("plain".to_string()));
    assert_eq!(name("a/b.git"), Some("b.git".to_string()));
    assert_eq!(name(""), None);
    assert_eq!(name("///"), None);
}

#[test]
fn a_configuration_lists_addresses_with_names() {
    let Ok(repos) = load_docs_config(config(&["h/a", "h/b/"])) else {
        panic!("the configuration is fine");
    };
    let expected: Vec<(String, String)> =
        vec![("h/a".to_string(), "a".to_string()), ("h/b/".to_string(), "b".to_string())];
    assert_eq!(repos, expected);
    assert!(matches!(load_docs_config(config(&[])), Ok(v) if v.is_empty()));
}

#[test]
fn the_first_address_without_a_name_is_reported() {
    match load_docs_config(config(&["h/a", "//", "/"])) {
        Ok(_) => panic!("there is no name for the second address"),
        Err(e) => {
            assert_eq!(e.message(), "cannot infer repo name from URL: //");
            let ConfigError::NoRepoName(url) = e;
            assert_eq!(url, "//");
        }
    }
}

#[test]
fn copies_lie_side_by_side() {
    assert_eq!(checkout_dir(&DocPath::from_text("docs"), "a").bytes, b"docs/a");
    assert_eq!(checkout_dir(&DocPath::from_text("docs/"), "a").bytes, b"docs/a");
}

#[test]
fn an_existing_copy_is_pulled_and_a_missing_one_cloned() {
    let dest = DocPath::from_text("docs/a");
    assert_eq!(
        git_args("h/a", &dest, true),
        ["-C", "docs/a", "pull", "--ff-only", "--quiet"]
    );
    assert_eq!(
        git_args("h/a", &dest, false),
        ["clone", "--depth", "1", "--quiet", "h/a", "docs/a"]
    );
}

#[test]
fn only_a_failed_clone_is_fatal() {
    assert!(matches!(sync_outcome(true, true), SyncOutcome::Ready));
    assert!(matches!(sync_outcome(false, true), SyncOutcome::Ready));
    assert!(matches!(sync_outcome(true, false), SyncOutcome::KeptOld));
    assert!(matches!(sync_outcome(false, false), SyncOutcome::Failed));
}

#[test]
fn repositories_are_taken_in_turn_up_to_a_failure() {
    let repos = ["a", "b", "c"];
    let pairs: Vec<(String, String)> =
        repos.iter().map(|n| (format!("h/{}", n), n.to_string())).collect();
    let mut sync = RepoSync::new(DocPath::from_text("docs"), pairs);
    let task = sync.task().unwrap();
    assert_eq!((task.url.as_str(), task.name.as_str()), ("h/a", "a"));
    assert_eq!(task.dest.bytes, b"docs/a");
    assert!(matches!(sync.git_ended(true, false), SyncOutcome::KeptOld));
    assert_eq!(sync.task().unwrap().name, "b");
    assert!(matches!(sync.git_ended(false, false), SyncOutcome::Failed));
    assert!(sync.task().is_none());
}

#[test]
fn a_run_without_a_failure_comes_to_the_end() {
    let pairs = vec![("h/a".to_string(), "a".to_string()), ("h/b".to_string(), "b".to_string())];
    let mut sync = RepoSync::new(DocPath::from_text("docs"), pairs);
    assert!(matches!(sync.git_ended(false, true), SyncOutcome::Ready));
    assert!(matches!(sync.git_ended(true, false), SyncOutcome::KeptOld));
    assert!(sync.task().is_none());
}

use ubuntu_docs_indexer::base_urls::BaseUrls;
use ubuntu_docs_indexer::chunks::{
    chunks_of_pieces, chunks_of_text, page_chunks, Chunk, ChunkLoader, PageResult, CHUNK_SIZE,
};
use ubuntu_docs_indexer::paths::DocPath;
use ubuntu_docs_indexer::snapshot::Snapshot;
use ubuntu_docs_indexer::walk::{
    collect_md_files, collect_repo_pages, is_page_file, walk_root, Entry, RepoListing,
};

fn doc(s: &str) -> DocPath {
    DocPath::from_text(s)
}

fn pairs(chunks: &[Chunk]) -> Vec<(String, String)> {
    chunks.iter().map(|c| (c.source.clone(), c.text.clone())).collect()
}

fn urls() -> BaseUrls {
    let mut urls = BaseUrls::new();
    urls.insert("r".to_string(), "https://r/".to_string());
    urls
}

/// Runs a loader over files that are held in memory.
fn load(pages: &[&str], files: &[(&str, &str)]) -> (Vec<(String, String)>, Vec<String>) {
    let list: Vec<DocPath> = pages.iter().map(|p| doc(p)).collect();
    let mut loader = ChunkLoader::new(doc("docs"), urls(), &list);
    let mut asked = Vec::new();
    while let Some(path) = loader.poll() {
        let name = String::from_utf8(path.bytes.clone()).unwrap();
        let reply = files.iter().find(|f| f.0 == name).map(|f| f.1.to_string());
        asked.push(name);
        loader.file_read(path, reply);
    }
    (pairs(&loader.into_chunks()), asked)
}

#[test]
fn pages_are_markdown_files() {
    for name in ["a.md", "x/a.md", "..md", "a.b.md", "README.md", "x/CONTRIBUTING.md"] {
        assert!(is_page_file(&doc(name)), "{:?}", name);
    }
    for name in ["", "/", "a", "a.txt", "a.MD", ".md", "x/.md", "md", "a.md/..", "README"] {
        assert!(!is_page_file(&doc(name)), "{:?}", name);
    }
    assert!(is_page_file(&DocPath::from_bytes(vec![0xff, 0x2e, 0x6d, 0x64])));
}

#[test]
fn directories_are_walked() {
    let file = |s: &str| Entry::File(doc(s));
    let entries = vec![
        file("r/b.md"),
        Entry::Dir(vec![file("r/x/README.md"), file("r/x/c.md"), Entry::Dir(vec![file("r/x/y/d.md")])]),
        file("r/notes.txt"),
        file("r/a.md"),
    ];
    let mut out = vec![doc("before.md")];
    collect_md_files(&entries, &mut out);
    let names: Vec<String> = out.iter().map(|p| p.display()).collect();
    assert_eq!(names, ["before.md", "r/b.md", "r/x/README.md", "r/x/c.md", "r/x/y/d.md", "r/a.md"]);
}

#[test]
fn all_markdown_files_are_pages() {
    let entries = vec![Entry::File(doc("d/README.md")), Entry::File(doc("d/a.md"))];
    let mut out = Vec::new();
    collect_md_files(&entries, &mut out);
    let names: Vec<String> = out.iter().map(|p| p.display()).collect();
    assert_eq!(names, ["d/README.md", "d/a.md"]);
}

fn repo_names(repos: Vec<RepoListing>) -> Vec<String> {
    collect_repo_pages(&repos).iter().map(|p| p.display()).collect()
}

#[test]
fn a_repository_with_docs_is_indexed_from_there_only() {
    let file = |s: &str| Entry::File(doc(s));
    let r = |whole: Vec<Entry>| RepoListing { docs: Some(vec![file("d/r/docs/a.md")]), whole };
    let s = || RepoListing {
        docs: None,
        whole: vec![file("d/s/b.md"), Entry::Dir(vec![file("d/s/x/c.md")])],
    };
    let expected = ["d/r/docs/a.md", "d/s/b.md", "d/s/x/c.md"];
    assert_eq!(repo_names(vec![r(vec![]), s()]), expected);
    let other = vec![file("d/r/x.md"), Entry::Dir(vec![file("d/r/other/x.md")])];
    assert_eq!(repo_names(vec![r(other), s()]), expected);
}

#[test]
fn reordered_listings_give_the_same_chunks() {
    let file = |s: &str| Entry::File(doc(s));
    let whole = |whole: Vec<Entry>| RepoListing { docs: None, whole };
    let one = repo_names(vec![
        whole(vec![file("docs/r/b.md"), Entry::Dir(vec![file("docs/r/x/d.md"), file("docs/r/x/c.md")])]),
        whole(vec![file("docs/q/a.md")]),
    ]);
    let two = repo_names(vec![
        whole(vec![file("docs/q/a.md")]),
        whole(vec![Entry::Dir(vec![file("docs/r/x/c.md"), file("docs/r/x/d.md")]), file("docs/r/b.md")]),
    ]);
    assert_ne!(one, two);
    let files = [
        ("docs/q/a.md", "A"),
        ("docs/r/b.md", "B"),
        ("docs/r/x/c.md", "C"),
        ("docs/r/x/d.md", "D"),
    ];
    let names = |list: &Vec<String>| -> Vec<(String, String)> {
        let list: Vec<&str> = list.iter().map(|s| s.as_str()).collect();
        load(&list, &files).0
    };
    assert_eq!(names(&one), names(&two));
    assert_eq!(names(&one).len(), 4);
}

#[test]
fn a_repository_is_walked_from_its_docs_if_it_has_them() {
    assert_eq!(walk_root(&doc("docs/r"), true).bytes, b"docs/r/docs");
    assert_eq!(walk_root(&doc("docs/r"), false).bytes, b"docs/r");
}

#[test]
fn blank_pieces_give_no_chunk() {
    let pieces: Vec<String> = [" a b ", " \n", "", "c"].iter().map(|s| s.to_string()).collect();
    let found = pairs(&chunks_of_pieces("s", &pieces));
    let expected: Vec<(String, String)> =
        vec![("s".to_string(), "a b".to_string()), ("s".to_string(), "c".to_string())];
    assert_eq!(found, expected);
}

#[test]
fn chunks_are_bounded_passages() {
    let sentence = "A sentence that is one of very many. ";
    let long = "x".repeat(2000);
    for text in [sentence.repeat(100), long, "word ".repeat(700), "\u{e9}\n\n".repeat(900)] {
        let chunks = chunks_of_text("s", &text);
        assert!(chunks.len() > 1);
        for c in &chunks {
            let n = c.text.chars().count();
            assert!(0 < n && n <= CHUNK_SIZE);
            assert!(text.contains(&c.text));
            assert_eq!(c.text.trim(), c.text);
            assert_eq!(c.source, "s");
        }
    }
}

#[test]
fn a_short_text_is_one_chunk() {
    let found = pairs(&chunks_of_text("s", " Some text.\n\nMore of it. "));
    assert_eq!(found, [("s".to_string(), "Some text.\n\nMore of it.".to_string())]);
    assert!(chunks_of_text("s", " \n ").is_empty());
}

#[test]
fn a_page_asks_for_its_file_first() {
    let path = doc("docs/r/a.md");
    let mut known = Snapshot::new();
    match page_chunks(&path, &doc("docs"), &urls(), &known) {
        PageResult::Needs(p) => assert_eq!(p.bytes, path.bytes),
        PageResult::Done(_) => panic!("the file is not known"),
    }
    known.record(path.copy(), Some("# A\n".to_string()));
    match page_chunks(&path, &doc("docs"), &urls(), &known) {
        PageResult::Needs(_) => panic!("the file is known"),
        PageResult::Done(c) => {
            assert_eq!(pairs(&c), [("https://r/a/".to_string(), "A".to_string())]);
        }
    }
}

#[test]
fn pages_are_loaded_in_order_with_what_they_name() {
    let files = [
        ("docs/r/docs/b.md", "---\nx: 1\n---\n# B\n\n```{include} part.txt\n```\n"),
        ("docs/r/docs/part.txt", "shared *part*"),
        ("docs/r/docs/a.md", "(label)=\n# A\n"),
        ("docs/other/c.md", "C"),
    ];
    let pages = ["docs/r/docs/b.md", "docs/r/docs/gone.md", "docs/other/c.md", "docs/r/docs/a.md"];
    let (chunks, asked) = load(&pages, &files);
    let expected: Vec<(String, String)> = vec![
        ("docs/other/c.md".to_string(), "C".to_string()),
        ("https://r/a/".to_string(), "A".to_string()),
        ("https://r/b/".to_string(), "B \nshared part".to_string()),
    ];
    assert_eq!(chunks, expected);
    assert_eq!(
        asked,
        [
            "docs/other/c.md",
            "docs/r/docs/a.md",
            "docs/r/docs/b.md",
            "docs/r/docs/part.txt",
            "docs/r/docs/gone.md",
        ]
    );
}

#[test]
fn the_order_of_the_listing_does_not_matter() {
    let files = [("docs/r/a.md", "A"), ("docs/r/b.md", "B"), ("docs/r/a/c.md", "C")];
    let one = load(&["docs/r/a.md", "docs/r/b.md", "docs/r/a/c.md"], &files);
    let two = load(&["docs/r/a/c.md", "docs/r/b.md", "docs/r/a.md"], &files);
    assert_eq!(one, two);
}

#[test]
fn no_pages_give_no_chunks() {
    assert_eq!(load(&[], &[]), (vec![], vec![]));
}

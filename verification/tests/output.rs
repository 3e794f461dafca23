use std::path::PathBuf;

use ubuntu_docs_indexer::chunks::Chunk;
use ubuntu_docs_indexer::output::{
    table_rows, tarball_path, IndexEntry, PermissionStep, PermissionWalk,
};
use ubuntu_docs_indexer::paths::DocPath;

fn doc(s: &str) -> DocPath {
    DocPath::from_text(s)
}

fn chunk(source: &str, text: &str) -> Chunk {
    Chunk { source: source.to_string(), text: text.to_string() }
}

#[test]
fn the_archive_lies_beside_the_index() {
    assert_eq!(tarball_path(&doc("target/index.lance")).bytes, b"target/index.lance.tar.gz");
    assert_eq!(tarball_path(&doc("target/out")).bytes, b"target/out.lance.tar.gz");
}

#[test]
fn the_archive_path_agrees_with_std() {
    for s in ["", "/", "..", "a", "a/", "a.b", "a.b/.", ".a", "x/.a.b", "a.b.c", "a..", "..a", "x/a."] {
        let mut expected = PathBuf::from(s);
        expected.set_extension("lance.tar.gz");
        assert_eq!(tarball_path(&doc(s)).display(), expected.to_str().unwrap(), "{:?}", s);
    }
}

#[test]
fn every_chunk_is_a_row() {
    let rows = table_rows(&vec![chunk("s", "a"), chunk("t", "b")]);
    assert_eq!(rows.sources, ["s", "t"]);
    assert_eq!(rows.texts, ["a", "b"]);
    assert!(rows.fulltext);
}

#[test]
fn an_empty_table_has_no_full_text_index() {
    let rows = table_rows(&vec![]);
    assert!(rows.sources.is_empty());
    assert!(rows.texts.is_empty());
    assert!(!rows.fulltext);
}

#[test]
fn permissions_are_set_on_all_that_lies_in_the_index() {
    let entries = |dir: &str| -> Vec<IndexEntry> {
        let entry = |s: &str, is_dir: bool| IndexEntry { path: doc(s), is_dir };
        match dir {
            "i" => vec![entry("i/a", false), entry("i/d", true), entry("i/b", false)],
            "i/d" => vec![entry("i/d/e", true)],
            _ => vec![],
        }
    };
    let mut walk = PermissionWalk::new(doc("i"));
    let mut set = Vec::new();
    while let Some(step) = walk.next_step() {
        match step {
            PermissionStep::List(dir) => {
                let found = entries(&dir.display());
                walk.listed(dir, found);
            }
            PermissionStep::SetMode(path, mode) => set.push((path.display(), mode)),
        }
    }
    let expected: Vec<(String, u32)> = [
        ("i/a", 0o644),
        ("i/d", 0o755),
        ("i/d/e", 0o755),
        ("i/d/e", 0o755),
        ("i/d", 0o755),
        ("i/b", 0o644),
        ("i", 0o755),
    ]
    .iter()
    .map(|(p, m)| (p.to_string(), *m))
    .collect();
    assert_eq!(set, expected);
}

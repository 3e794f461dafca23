use std::path::{Component, Path, PathBuf};

use ubuntu_docs_indexer::includes::find_docs_root;
use ubuntu_docs_indexer::path_order::{path_before, sort_paths};
use ubuntu_docs_indexer::paths::DocPath;

const SAMPLES: [&str; 40] = [
    "",
    "/",
    "//",
    ".",
    "./",
    "..",
    "../",
    "/.",
    "/..",
    "a",
    "a/",
    "a//",
    "a/.",
    "a/./",
    "./a",
    ".//a",
    "././a",
    "/a",
    "//a",
    "/./a",
    "a/b",
    "a//b",
    "a/./b",
    "a/../b",
    "a/b/..",
    ".a",
    ".a/b",
    "..a",
    "a.md",
    "x/docs",
    "x/docs/",
    "x/docs/.",
    "x/docs/y.md",
    "docs/repo/docs/how-to/page.md",
    "docs/repo/page.md",
    "/srv/docs/repo/docs",
    "a/b.c/d.e.f",
    "a/.hidden",
    "a/.hidden.md",
    "a b/c d.md",
];

fn doc(s: &str) -> DocPath {
    DocPath::from_text(s)
}

fn text(p: &DocPath) -> String {
    String::from_utf8(p.bytes.clone()).unwrap()
}

fn name_of(c: Component<'_>) -> String {
    c.as_os_str().to_str().unwrap().to_string()
}

#[test]
fn components_agree_with_std() {
    for s in SAMPLES {
        let found: Vec<String> = doc(s)
            .component_list()
            .into_iter()
            .map(|c| String::from_utf8(c).unwrap())
            .collect();
        let expected: Vec<String> = Path::new(s).components().map(name_of).collect();
        assert_eq!(found, expected, "{:?}", s);
    }
}

#[test]
fn parents_agree_with_std() {
    for s in SAMPLES {
        let found = doc(s).parent_of().map(|p| text(&p));
        let expected = Path::new(s).parent().map(|p| p.to_str().unwrap().to_string());
        assert_eq!(found, expected, "{:?}", s);
    }
}

#[test]
fn file_names_agree_with_std() {
    for s in SAMPLES {
        let found = doc(s).file_name_of().map(|n| String::from_utf8(n).unwrap());
        let expected = Path::new(s).file_name().map(|n| n.to_str().unwrap().to_string());
        assert_eq!(found, expected, "{:?}", s);
    }
}

#[test]
fn joined_paths_agree_with_std() {
    for s in SAMPLES {
        for t in SAMPLES {
            let found = text(&doc(s).join(t.as_bytes()));
            let expected = Path::new(s).join(t).to_str().unwrap().to_string();
            assert_eq!(found, expected, "{:?} {:?}", s, t);
        }
    }
}

#[test]
fn the_order_agrees_with_std() {
    for s in SAMPLES {
        for t in SAMPLES {
            assert_eq!(path_before(&doc(s), &doc(t)), Path::new(s) < Path::new(t), "{:?} {:?}", s, t);
        }
    }
}

#[test]
fn sorting_agrees_with_std() {
    let mut expected: Vec<PathBuf> = SAMPLES.iter().rev().map(PathBuf::from).collect();
    let list: Vec<DocPath> = SAMPLES.iter().rev().map(|s| doc(s)).collect();
    expected.sort();
    let found: Vec<String> = sort_paths(&list).iter().map(text).collect();
    let expected: Vec<String> = expected.iter().map(|p| p.to_str().unwrap().to_string()).collect();
    assert_eq!(found, expected);
}

#[test]
fn sorting_does_not_depend_on_the_listing() {
    let names = ["d/r/b.md", "d/r/a/z.md", "d/q/a.md", "d/r/a.md", "d/r/a-b.md"];
    let forwards: Vec<DocPath> = names.iter().map(|s| doc(s)).collect();
    let backwards: Vec<DocPath> = names.iter().rev().map(|s| doc(s)).collect();
    let one: Vec<String> = sort_paths(&forwards).iter().map(text).collect();
    let two: Vec<String> = sort_paths(&backwards).iter().map(text).collect();
    assert_eq!(one, two);
    assert_eq!(one, ["d/q/a.md", "d/r/a/z.md", "d/r/a-b.md", "d/r/a.md", "d/r/b.md"]);
}

#[test]
fn paths_with_the_same_components_keep_their_order() {
    let list = vec![doc("b"), doc("a//c"), doc("a/c"), doc("a/./c")];
    let found: Vec<String> = sort_paths(&list).iter().map(text).collect();
    assert_eq!(found, ["a//c", "a/c", "a/./c", "b"]);
}

#[test]
fn the_documentation_root_is_the_innermost_docs() {
    for s in SAMPLES {
        let expected = Path::new(s)
            .ancestors()
            .find(|a| a.file_name().and_then(|n| n.to_str()) == Some("docs"))
            .map(|p| p.to_str().unwrap().to_string());
        assert_eq!(find_docs_root(&doc(s)).map(|p| text(&p)), expected, "{:?}", s);
    }
}

#[test]
fn paths_are_displayed_with_ill_formed_parts_replaced() {
    assert_eq!(doc("a/\u{e9}.md").display(), "a/\u{e9}.md");
    let p = DocPath::from_bytes(vec![0x61, 0xff, 0x62]);
    assert_eq!(p.display(), "a\u{fffd}b");
}

#[test]
fn copies_are_the_same_path() {
    let p = doc("a/b");
    assert!(p.same(&p.copy()));
    assert!(!p.same(&doc("a/c")));
    assert!(!p.same(&doc("a//b")));
}

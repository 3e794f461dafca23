use ubuntu_docs_indexer::includes::{
    expand_includes, expand_includes_inner, parse_include_directive, Expansion,
};
use ubuntu_docs_indexer::paths::DocPath;
use ubuntu_docs_indexer::snapshot::{Known, Snapshot};

fn doc(s: &str) -> DocPath {
    DocPath::from_text(s)
}

/// Inlines with the given files, and lists the files that were asked for.
fn expand(content: &str, path: &str, files: &[(&str, &str)]) -> (String, Vec<String>) {
    let mut known = Snapshot::new();
    let mut asked = Vec::new();
    loop {
        match expand_includes(content, &doc(path), &known) {
            Expansion::Done(s) => return (s, asked),
            Expansion::Needs(p) => {
                let name = String::from_utf8(p.bytes.clone()).unwrap();
                let found = files.iter().find(|f| f.0 == name).map(|f| f.1.to_string());
                assert!(!asked.contains(&name));
                asked.push(name);
                known.record(p, found);
            }
        }
    }
}

#[test]
fn directives_name_a_path() {
    let some = |s: &str| Some(s.to_string());
    assert_eq!(parse_include_directive("```{include} a.md"), some("a.md"));
    assert_eq!(parse_include_directive("````{include} a.md"), some("a.md"));
    assert_eq!(parse_include_directive(":::{include} /reuse/a b.md  "), some("/reuse/a b.md"));
    assert_eq!(parse_include_directive("::::{include}x"), some("x"));
    assert_eq!(parse_include_directive("```  {include}\t../a.md"), some("../a.md"));
}

#[test]
fn other_lines_are_no_directives() {
    assert_eq!(parse_include_directive(""), None);
    assert_eq!(parse_include_directive("``{include} a.md"), None);
    assert_eq!(parse_include_directive("::{include} a.md"), None);
    assert_eq!(parse_include_directive(" ```{include} a.md"), None);
    assert_eq!(parse_include_directive("```{include}"), None);
    assert_eq!(parse_include_directive("```{include}   "), None);
    assert_eq!(parse_include_directive("```{note} a"), None);
    assert_eq!(parse_include_directive("```rust"), None);
    assert_eq!(parse_include_directive("{include} a.md"), None);
}

#[test]
fn a_text_without_directives_keeps_its_lines() {
    assert_eq!(expand("a\r\nb\n\nc", "d/p.md", &[]), ("a\nb\n\nc\n".to_string(), vec![]));
    assert_eq!(expand("", "d/p.md", &[]), (String::new(), vec![]));
}

#[test]
fn a_file_is_inlined_from_the_directory_of_the_page() {
    let (s, asked) = expand(
        "before\n```{include} sub/x.md\n:option: y\n```\nafter\n",
        "docs/r/p.md",
        &[("docs/r/sub/x.md", "inner")],
    );
    assert_eq!(s, "before\ninner\nafter\n");
    assert_eq!(asked, ["docs/r/sub/x.md"]);
}

#[test]
fn a_rooted_path_starts_at_the_documentation_root() {
    let page = "  :::{include} //reuse/x.md\n  :::\nafter";
    let (s, asked) = expand(page, "docs/r/docs/a/p.md", &[("docs/r/docs/reuse/x.md", "inner\n")]);
    assert_eq!(s, "inner\nafter\n");
    assert_eq!(asked, ["docs/r/docs/reuse/x.md"]);
    // Without a directory named `docs` nothing stands in its place.
    assert_eq!(expand(page, "r/a/p.md", &[]), ("after\n".to_string(), vec![]));
}

#[test]
fn an_unreadable_file_leaves_a_placeholder() {
    let (s, _) = expand("```{include} gone.md\n```\nafter\n", "d/p.md", &[]);
    assert_eq!(s, "[included file: gone.md]\nafter\n");
}

#[test]
fn a_fence_is_closed_by_at_least_as_many_marks() {
    let files = [("d/x.md", "X\n")];
    assert_eq!(expand("````{include} x.md\n```\n`````\nb\n", "d/p.md", &files).0, "X\nb\n");
    // A fence that is never closed takes the rest of the page with it.
    assert_eq!(expand("```{include} x.md\na\nb\n", "d/p.md", &files).0, "X\n");
    assert_eq!(expand(":::{include} x.md\n```\n:::\nb\n", "d/p.md", &files).0, "X\nb\n");
}

#[test]
fn inlined_files_name_further_files() {
    let files = [
        ("d/x/one.md", "1\n```{include} two.md\n```\n"),
        ("d/x/two.md", "2"),
    ];
    let (s, asked) = expand("```{include} x/one.md\n```\n", "d/p.md", &files);
    assert_eq!(s, "1\n2\n");
    assert_eq!(asked, ["d/x/one.md", "d/x/two.md"]);
}

#[test]
fn a_file_that_names_itself_is_inlined_up_to_the_greatest_depth() {
    let own = "x\n```{include} p.md\n```\n";
    let (s, asked) = expand(own, "d/p.md", &[("d/p.md", own)]);
    assert_eq!(s, "x\n".repeat(9) + own);
    assert_eq!(asked, ["d/p.md"]);
}

#[test]
fn below_the_greatest_depth_a_text_is_left_as_it_is() {
    let content = "```{include} x.md\n```";
    let known = Snapshot::new();
    match expand_includes_inner(content, &doc("d/p.md"), &None, 9, &known) {
        Expansion::Done(s) => assert_eq!(s, content),
        Expansion::Needs(_) => panic!("no file is needed"),
    }
    match expand_includes_inner(content, &doc("d/p.md"), &None, 8, &known) {
        Expansion::Done(_) => panic!("a file is needed"),
        Expansion::Needs(p) => assert_eq!(p.bytes, b"d/x.md"),
    }
}

#[test]
fn a_page_without_a_directory_looks_in_its_own() {
    let (s, asked) = expand("```{include} x.md\n```\n", "p.md", &[("x.md", "X")]);
    assert_eq!(s, "X\n");
    assert_eq!(asked, ["x.md"]);
    assert_eq!(expand("```{include} x.md\n```\n", "", &[]).1, ["./x.md"]);
}

#[test]
fn snapshots_know_what_was_recorded_last() {
    let mut known = Snapshot::new();
    assert!(matches!(known.lookup(&doc("a")), Known::Unknown));
    known.record(doc("a"), None);
    assert!(matches!(known.lookup(&doc("a")), Known::Unreadable));
    known.record(doc("b"), Some("B".to_string()));
    known.record(doc("a"), Some("A".to_string()));
    assert!(matches!(known.lookup(&doc("a")), Known::Text("A")));
    assert!(matches!(known.lookup(&doc("b")), Known::Text("B")));
    assert!(matches!(known.lookup(&doc("c")), Known::Unknown));
}

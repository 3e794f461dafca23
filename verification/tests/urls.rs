use ubuntu_docs_indexer::base_urls::{extract_ogp_site_url, read_base_urls, BaseUrls, RepoConf};
use ubuntu_docs_indexer::page_urls::file_path_to_url;
use ubuntu_docs_indexer::paths::DocPath;

fn doc(s: &str) -> DocPath {
    DocPath::from_text(s)
}

fn some(s: &str) -> Option<String> {
    Some(s.to_string())
}

fn base() -> BaseUrls {
    let mut urls = BaseUrls::new();
    urls.insert("desktop".to_string(), "https://documentation.ubuntu.com/desktop/".to_string());
    urls.insert("core".to_string(), "https://documentation.ubuntu.com/core".to_string());
    urls
}

#[test]
fn the_address_is_found_in_the_configuration() {
    assert_eq!(extract_ogp_site_url("ogp_site_url = \"https://x/\""), some("https://x/"));
    assert_eq!(extract_ogp_site_url("a = 1\n  ogp_site_url='u'  \r\nb = 2\n"), some("u"));
    assert_eq!(extract_ogp_site_url("ogp_site_url = base + \"x\""), some("base + \"x\""));
    assert_eq!(extract_ogp_site_url("ogp_site_url = \"a' "), some("\"a'"));
    assert_eq!(extract_ogp_site_url("ogp_site_url = \""), some("\""));
}

#[test]
fn an_empty_address_is_passed_over() {
    assert_eq!(extract_ogp_site_url("ogp_site_url = \"\"\nogp_site_url = 'u'\n"), some("u"));
    assert_eq!(extract_ogp_site_url("ogp_site_url =\n"), None);
    assert_eq!(extract_ogp_site_url("ogp_site_url = ''"), None);
}

#[test]
fn no_address_is_found() {
    assert_eq!(extract_ogp_site_url(""), None);
    assert_eq!(extract_ogp_site_url("# ogp_site_url = \"u\"\n"), None);
    assert_eq!(extract_ogp_site_url("ogp_site_url_x = 'a'\n"), None);
    assert_eq!(extract_ogp_site_url("ogp_site_url\n"), None);
}

#[test]
fn other_names_do_not_hide_the_address() {
    let url = extract_ogp_site_url("ogp_site_url_x = 'p'\nogp_site_url = \"https://a/\"\n");
    assert_eq!(url, some("https://a/"));
    assert_eq!(extract_ogp_site_url("ogp_site_url\nogp_site_url = 'u'\n"), some("u"));
    assert_eq!(extract_ogp_site_url("ogp_site_url.x = 'a'\nogp_site_url\t='u'\n"), some("u"));
}

#[test]
fn a_comment_behind_the_address_is_left_out() {
    let url = |s: &str| extract_ogp_site_url(s);
    assert_eq!(url("ogp_site_url = \"https://a/\"  # site\n"), some("https://a/"));
    assert_eq!(url("ogp_site_url = 'https://a/'# site\n"), some("https://a/"));
    assert_eq!(url("ogp_site_url = 'a#b' # \"c\"\n"), some("a#b"));
    // Nothing but a comment may follow.
    assert_eq!(url("ogp_site_url = \"a\" + b\n"), some("\"a\" + b"));
    // An empty address is passed over with its comment.
    assert_eq!(url("ogp_site_url = '' # none\nogp_site_url = 'u'\n"), some("u"));
    // A value that starts and ends with the same mark is taken as a whole.
    assert_eq!(url("ogp_site_url = 'a' # 'b'\n"), some("a' # 'b"));
}

#[test]
fn addresses_do_not_depend_on_the_order_of_the_repositories() {
    let conf = |repo: &str, url: &str| RepoConf {
        repo: repo.to_string(),
        conf: format!("ogp_site_url = '{}'\n", url),
    };
    let one = read_base_urls(&vec![conf("a", "u"), conf("b", "v"), conf("c", "")]);
    let two = read_base_urls(&vec![conf("c", ""), conf("b", "v"), conf("a", "u")]);
    for repo in ["a", "b", "c"] {
        assert_eq!(one.get(repo), two.get(repo));
    }
    assert_eq!(one.get("b"), Some("v"));
}

#[test]
fn repositories_without_an_address_are_left_out() {
    let conf = |repo: &str, conf: &str| RepoConf { repo: repo.to_string(), conf: conf.to_string() };
    let urls = read_base_urls(&vec![
        conf("a", "ogp_site_url = 'first'"),
        conf("b", "nothing"),
        conf("a", "ogp_site_url = 'second'"),
        conf("a", ""),
    ]);
    assert_eq!(urls.get("a"), Some("second"));
    assert_eq!(urls.get("b"), None);
    assert_eq!(urls.get("c"), None);
}

#[test]
fn pages_are_published_below_their_repository() {
    let url = |p: &str| file_path_to_url(&doc(p), &doc("docs"), &base());
    assert_eq!(
        url("docs/desktop/docs/how-to/wallpaper.md"),
        some("https://documentation.ubuntu.com/desktop/how-to/wallpaper/")
    );
    assert_eq!(url("docs/core/a.md"), some("https://documentation.ubuntu.com/core/a/"));
    assert_eq!(
        url("docs/core/a/docs/b.txt"),
        some("https://documentation.ubuntu.com/core/a/docs/b.txt/")
    );
    assert_eq!(url("docs/core/docs"), some("https://documentation.ubuntu.com/core//"));
    assert_eq!(url("docs/core"), some("https://documentation.ubuntu.com/core//"));
    assert_eq!(url("docs//core/./a.md"), some("https://documentation.ubuntu.com/core/a/"));
    assert_eq!(url("docs/core/a.md/b"), some("https://documentation.ubuntu.com/core/a.md/b/"));
}

#[test]
fn other_files_have_no_address() {
    let url = |p: &str| file_path_to_url(&doc(p), &doc("docs"), &base());
    assert_eq!(url("docs"), None);
    assert_eq!(url("docs/other/a.md"), None);
    assert_eq!(url("other/core/a.md"), None);
    assert_eq!(url("/docs/core/a.md"), None);
    assert_eq!(url("docs2/core/a.md"), None);
    let mut bytes = b"docs/".to_vec();
    bytes.push(0xff);
    assert_eq!(file_path_to_url(&DocPath::from_bytes(bytes), &doc("docs"), &base()), None);
}

#[test]
fn a_component_that_is_not_text_is_left_empty() {
    let mut bytes = b"docs/core/".to_vec();
    bytes.push(0xff);
    bytes.extend(b"/b.md");
    assert_eq!(
        file_path_to_url(&DocPath::from_bytes(bytes), &doc("docs"), &base()),
        some("https://documentation.ubuntu.com/core//b/")
    );
}

#[test]
fn the_directory_of_the_repositories_does_not_matter() {
    for dir in ["docs", "/srv/docs/", "", ".", "./x/../docs", "a//b"] {
        let page = doc(dir).join(b"core").join(b"docs/a/b.md");
        assert_eq!(
            file_path_to_url(&page, &doc(dir), &base()),
            some("https://documentation.ubuntu.com/core/a/b/"),
            "{:?}",
            dir
        );
    }
}

#[test]
fn pages_are_found_as_std_strips_prefixes() {
    let paths = [
        "", "/", ".", "./a", "a", "a/", "a/b.md", "a//b/./c.md", "./a/docs/b.md", "/a/docs", "/a/b",
        "../a/b", "a/../b", "docs/a/docs/docs/x.md", "docs//a/.md", "docs/./a/x.md.md", "docs/a/..",
    ];
    let dirs = ["", "/", ".", "./", "a", "a/", "./a", "..", "docs", "docs/", "docs/.", "/a", "x"];
    let names = ["a", "b", "b.md", ".", "..", "docs", "/"];
    let mut urls = BaseUrls::new();
    for name in names {
        urls.insert(name.to_string(), format!("u{}//", name));
    }
    for p in paths {
        for d in dirs {
            let expected = std::path::Path::new(p).strip_prefix(d).ok().and_then(|rel| {
                let mut parts: Vec<String> =
                    rel.components().map(|c| c.as_os_str().to_str().unwrap().to_string()).collect();
                if parts.is_empty() {
                    return None;
                }
                let repo = parts.remove(0);
                if !names.contains(&repo.as_str()) {
                    return None;
                }
                if parts.first().map(|s| s.as_str()) == Some("docs") {
                    parts.remove(0);
                }
                if let Some(last) = parts.pop() {
                    parts.push(last.strip_suffix(".md").unwrap_or(&last).to_string());
                }
                let base = format!("u{}", repo);
                Some(format!("{}/{}/", base.trim_end_matches('/'), parts.join("/")))
            });
            assert_eq!(file_path_to_url(&doc(p), &doc(d), &urls), expected, "{:?} {:?}", p, d);
        }
    }
}

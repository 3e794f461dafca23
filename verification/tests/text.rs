use ubuntu_docs_indexer::text;

fn chars(s: &str) -> Vec<char> {
    s.chars().collect()
}

fn back(s: &[char]) -> String {
    s.iter().collect()
}

const SAMPLES: [&str; 16] = [
    "",
    " ",
    "a",
    " a ",
    "\t\u{a0}x y\u{3000}\n",
    "\u{200b}zero width",
    "one\ntwo",
    "one\ntwo\n",
    "one\r\ntwo\r\n",
    "one\rtwo\r",
    "\n",
    "\n\n",
    "\r\n",
    "a\n\nb\r\r\n",
    "///a//b///",
    "````x``",
];

#[test]
fn white_space_is_that_of_unicode() {
    for n in 0..0x11_0000u32 {
        if let Some(c) = char::from_u32(n) {
            assert_eq!(text::is_whitespace_char(c), c.is_whitespace(), "U+{:04X}", n);
        }
    }
}

#[test]
fn trimming_agrees_with_std() {
    for s in SAMPLES {
        let c = chars(s);
        assert_eq!(back(text::trim_of(&c)), s.trim());
        assert_eq!(back(text::trim_start_of(&c)), s.trim_start());
        assert_eq!(back(text::trim_end_of(&c)), s.trim_end());
        assert_eq!(back(text::trim_start_char_of(&c, '`')), s.trim_start_matches('`'));
        assert_eq!(back(text::trim_end_char_of(&c, '/')), s.trim_end_matches('/'));
    }
}

#[test]
fn lines_agree_with_std() {
    for s in SAMPLES {
        let c = chars(s);
        let found: Vec<String> = text::lines_of(&c).iter().map(|l| back(l)).collect();
        let expected: Vec<String> = s.lines().map(|l| l.to_string()).collect();
        assert_eq!(found, expected);
    }
}

#[test]
fn patterns_agree_with_std() {
    for s in SAMPLES {
        for pat in ["", "a", "\n", "one", "//", "two\n", "b///"] {
            let (c, p) = (chars(s), chars(pat));
            let at = s.find(pat).map(|i| s[..i].chars().count());
            assert_eq!(text::find(&c, &p), at);
            assert_eq!(text::has_prefix(&c, &p), s.starts_with(pat));
            assert_eq!(text::has_suffix(&c, &p), s.ends_with(pat));
            assert_eq!(
                text::after_prefix(&c, &p).map(back),
                s.strip_prefix(pat).map(|r| r.to_string())
            );
            assert_eq!(
                text::before_suffix(&c, &p).map(back),
                s.strip_suffix(pat).map(|r| r.to_string())
            );
        }
    }
}

#[test]
fn strings_and_characters_convert_both_ways() {
    let s = "d\u{e9}j\u{e0} vu \u{1f600}";
    assert_eq!(text::chars_of(s), chars(s));
    assert_eq!(text::string_of(&chars(s)), s);
}

#[test]
fn a_run_at_the_front_is_counted() {
    assert_eq!(text::count_leading(&chars("```a`"), '`'), 3);
    assert_eq!(text::count_leading(&chars("a"), '`'), 0);
    assert_eq!(text::count_leading(&chars("::::"), ':'), 4);
}

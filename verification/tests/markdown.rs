use ubuntu_docs_indexer::markdown::{
    events_to_plain_text, markdown_to_plain_text, strip_myst_noise, MarkdownEvent, PAGE_OPTIONS,
};

#[test]
fn metadata_is_taken_away() {
    assert_eq!(strip_myst_noise("---\nmyst: 1\n---\n# Title\n"), "# Title\n");
    assert_eq!(strip_myst_noise("---\na\n---\nb\n---\nc"), "b\n---\nc");
    assert_eq!(strip_myst_noise("---\na: \u{e9}\n---\n\u{e9}"), "\u{e9}");
}

#[test]
fn metadata_may_end_with_the_page() {
    assert_eq!(strip_myst_noise("---\na\n---"), "");
    assert_eq!(strip_myst_noise("---\na\n---  \n "), "  \n ");
}

#[test]
fn other_pages_are_left_as_they_are() {
    assert_eq!(strip_myst_noise(""), "");
    assert_eq!(strip_myst_noise("# Title\n---\n"), "# Title\n---\n");
    assert_eq!(strip_myst_noise("---\nno end\n"), "---\nno end\n");
    assert_eq!(strip_myst_noise("---\na\n----b"), "---\na\n----b");
    assert_eq!(strip_myst_noise("---\n---\nb\n"), "---\n---\nb\n");
    assert_eq!(strip_myst_noise(" ---\na\n---\nb"), " ---\na\n---\nb");
}

#[test]
fn headings_paragraphs_and_code_become_plain_text() {
    assert_eq!(markdown_to_plain_text("# A\n\nb `c`\n"), "A \nb c\n");
    assert_eq!(markdown_to_plain_text("one\ntwo  \nthree\n"), "one  two  three \n");
    assert_eq!(markdown_to_plain_text("```bash\nls\n```\n"), "\nls \n");
    assert_eq!(markdown_to_plain_text("- a\n- b\n"), "a \nb \n");
}

#[test]
fn labels_are_left_out() {
    assert_eq!(markdown_to_plain_text("(how-to)=\n# Title\n"), "\nTitle \n");
}

#[test]
fn metadata_does_not_reach_the_plain_text() {
    assert_eq!(markdown_to_plain_text("---\nmyst: 1\n---\nbody\n"), "body \n");
}

#[test]
fn tables_and_struck_text_are_read_as_such() {
    let options = pulldown_cmark::Options::ENABLE_TABLES | pulldown_cmark::Options::ENABLE_STRIKETHROUGH;
    assert_eq!(PAGE_OPTIONS, options.bits());
    assert_eq!(markdown_to_plain_text("|a|b|\n|-|-|\n|c|d|\n"), "a b c d ");
    assert_eq!(markdown_to_plain_text("~~x~~\n"), "x \n");
}

#[test]
fn each_event_adds_its_text() {
    let text = |s: &str| MarkdownEvent::Text(s.to_string());
    let events = vec![
        text("  a "),
        text("(label)="),
        text("(not a label)"),
        text(" "),
        MarkdownEvent::Code(" c ".to_string()),
        MarkdownEvent::SoftBreak,
        MarkdownEvent::HardBreak,
        MarkdownEvent::EndParagraph,
        MarkdownEvent::EndHeading,
        MarkdownEvent::EndItem,
        MarkdownEvent::StartCodeBlock,
        MarkdownEvent::EndCodeBlock,
        MarkdownEvent::Other,
    ];
    assert_eq!(events_to_plain_text(&events), "a (not a label)   c   \n\n\n\n\n");
    assert_eq!(events_to_plain_text(&vec![]), "");
}

#[test]
fn the_text_of_a_page_is_that_of_its_parts() {
    let part = |s: &str| vec![MarkdownEvent::Text(s.to_string()), MarkdownEvent::EndParagraph];
    let mut whole = part("a");
    whole.extend(part("b"));
    let parts = events_to_plain_text(&part("a")) + &events_to_plain_text(&part("b"));
    assert_eq!(events_to_plain_text(&whole), parts);
}

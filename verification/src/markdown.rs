//! Markdown pages as plain text.

use crate::text;
use pulldown_cmark::{Event, Options, Parser, Tag, TagEnd};
use vstd::prelude::*;

verus! {

/// The parser option for tables.
pub const TABLES: u32 = 2;

/// The parser option for text that is struck through.
pub const STRIKETHROUGH: u32 = 8;

/// The parser options that pages are read with.
pub const PAGE_OPTIONS: u32 = TABLES | STRIKETHROUGH;

/// A page without the metadata block that it starts with. The block opens with
/// a line of three hyphens. It ends with the next such line or, if there is
/// none, at three hyphens that only white space follows.
pub open spec fn without_metadata(page: Seq<char>) -> Seq<char> {
    match text::strip_prefix(page, "---\n"@) {
        None => page,
        Some(rest) => match text::find_from(rest, "\n---\n"@, 0) {
            Some(end) => rest.skip(end + 5),
            None => match text::find_from(rest, "\n---"@, 0) {
                Some(end) => if text::trim(rest.skip(end + 4)).len() == 0 {
                    rest.skip(end + 4)
                } else {
                    page
                },
                None => page,
            },
        },
    }
}

/// A page without the metadata block that it starts with.
pub fn strip_myst_noise(markdown: &str) -> (r: &str)
    ensures
        r@ == without_metadata(markdown@),
{
    let chars: Vec<char> = text::chars_of(markdown);
    let page = chars.as_slice();
    let size: usize = chars.len();
    let open: Vec<char> = text::chars_of("---\n");
    let close: Vec<char> = text::chars_of("\n---\n");
    let last: Vec<char> = text::chars_of("\n---");
    proof {
        reveal_strlit("---\n");
        reveal_strlit("\n---\n");
        reveal_strlit("\n---");
    }
    match text::after_prefix(page, open.as_slice()) {
        None => markdown,
        Some(rest) => {
            match text::find(rest, close.as_slice()) {
                Some(end) => {
                    let r = markdown.substring_char(4 + end + 5, size);
                    assert(r@ =~= rest@.skip(end + 5));
                    r
                },
                None => {
                    match text::find(rest, last.as_slice()) {
                        Some(end) => {
                            let after = vstd::slice::slice_subrange(rest, end + 4, rest.len());
                            assert(after@ =~= rest@.skip(end + 4));
                            if text::trim_of(after).len() == 0 {
                                let r = markdown.substring_char(4 + end + 4, size);
                                assert(r@ =~= rest@.skip(end + 4));
                                r
                            } else {
                                markdown
                            }
                        },
                        None => markdown,
                    }
                },
            }
        },
    }
}

/// One step of reading a page: what was found next.
pub enum MarkdownEvent {
    /// Some text.
    Text(String),
    /// Some code in a line of text.
    Code(String),
    /// The end of a line within a paragraph.
    SoftBreak,
    /// The end of a line that is to be kept.
    HardBreak,
    /// The end of a paragraph.
    EndParagraph,
    /// The end of a heading.
    EndHeading,
    /// The end of an item of a list.
    EndItem,
    /// The end of a block of code.
    EndCodeBlock,
    /// The start of a block of code.
    StartCodeBlock,
    /// Anything else.
    Other,
}

/// A [`MarkdownEvent`] as a mathematical value.
pub enum MarkdownToken {
    Text(Seq<char>),
    Code(Seq<char>),
    SoftBreak,
    HardBreak,
    EndParagraph,
    EndHeading,
    EndItem,
    EndCodeBlock,
    StartCodeBlock,
    Other,
}

impl View for MarkdownEvent {
    type V = MarkdownToken;

    open spec fn view(&self) -> MarkdownToken {
        match self {
            MarkdownEvent::Text(s) => MarkdownToken::Text(s@),
            MarkdownEvent::Code(s) => MarkdownToken::Code(s@),
            MarkdownEvent::SoftBreak => MarkdownToken::SoftBreak,
            MarkdownEvent::HardBreak => MarkdownToken::HardBreak,
            MarkdownEvent::EndParagraph => MarkdownToken::EndParagraph,
            MarkdownEvent::EndHeading => MarkdownToken::EndHeading,
            MarkdownEvent::EndItem => MarkdownToken::EndItem,
            MarkdownEvent::EndCodeBlock => MarkdownToken::EndCodeBlock,
            MarkdownEvent::StartCodeBlock => MarkdownToken::StartCodeBlock,
            MarkdownEvent::Other => MarkdownToken::Other,
        }
    }
}

/// The views of a list of events.
pub open spec fn tokens(events: Seq<MarkdownEvent>) -> Seq<MarkdownToken> {
    events.map_values(|e: MarkdownEvent| e@)
}

/// Whether a text is the label that a cross-reference points to.
pub open spec fn is_label(s: Seq<char>) -> bool {
    s.len() > 0 && s[0] == '(' && ")="@.is_suffix_of(s)
}

/// What one event adds to the plain text of a page.
pub open spec fn token_text(token: MarkdownToken) -> Seq<char> {
    match token {
        MarkdownToken::Text(s) => if is_label(text::trim(s)) {
            Seq::empty()
        } else {
            text::trim(s).push(' ')
        },
        MarkdownToken::Code(s) => s,
        MarkdownToken::SoftBreak => seq![' '],
        MarkdownToken::HardBreak => seq![' '],
        MarkdownToken::EndParagraph => seq!['\n'],
        MarkdownToken::EndHeading => seq!['\n'],
        MarkdownToken::EndItem => seq!['\n'],
        MarkdownToken::EndCodeBlock => seq!['\n'],
        MarkdownToken::StartCodeBlock => seq!['\n'],
        MarkdownToken::Other => Seq::empty(),
    }
}

/// The plain text of a page with the given events.
pub open spec fn render(tokens: Seq<MarkdownToken>) -> Seq<char>
    decreases tokens.len(),
{
    if tokens.len() == 0 {
        Seq::empty()
    } else {
        render(tokens.drop_last()) + token_text(tokens.last())
    }
}

/// The events that [`pulldown_cmark::Parser::new_ext`] finds in a page under
/// the options with the given bits.
pub uninterp spec fn markdown_tokens(page: Seq<char>, options: u32) -> Seq<MarkdownToken>;

/// The plain text of a page.
pub open spec fn plain_text(page: Seq<char>) -> Seq<char> {
    render(markdown_tokens(without_metadata(page), PAGE_OPTIONS))
}

/// The events of a page. It iterates over [`pulldown_cmark::Parser::new_ext`],
/// of which it says that the events depend on the page and the options alone.
#[verifier::external_body]
fn parse_events(page: &str, options: u32) -> (r: Vec<MarkdownEvent>)
    ensures
        tokens(r@) == markdown_tokens(page@, options),
{
    let found = Parser::new_ext(page, Options::from_bits_truncate(options));
    found.map(|event| match event {
        Event::Text(s) => MarkdownEvent::Text(s.into_string()),
        Event::Code(s) => MarkdownEvent::Code(s.into_string()),
        Event::SoftBreak => MarkdownEvent::SoftBreak,
        Event::HardBreak => MarkdownEvent::HardBreak,
        Event::End(TagEnd::Paragraph) => MarkdownEvent::EndParagraph,
        Event::End(TagEnd::Heading(_)) => MarkdownEvent::EndHeading,
        Event::End(TagEnd::Item) => MarkdownEvent::EndItem,
        Event::End(TagEnd::CodeBlock) => MarkdownEvent::EndCodeBlock,
        Event::Start(Tag::CodeBlock(_)) => MarkdownEvent::StartCodeBlock,
        _ => MarkdownEvent::Other,
    }).collect()
}

/// Appends what one event adds to the plain text of a page.
fn push_event(out: &mut Vec<char>, event: &MarkdownEvent)
    ensures
        final(out)@ == old(out)@ + token_text(event@),
{
    let ghost before = out@;
    match event {
        MarkdownEvent::Text(s) => {
            let chars: Vec<char> = text::chars_of(s.as_str());
            let trimmed = text::trim_of(chars.as_slice());
            let end: Vec<char> = text::chars_of(")=");
            if trimmed.len() > 0 && trimmed[0] == '(' && text::has_suffix(trimmed, end.as_slice()) {
                assert(token_text(event@) =~= Seq::<char>::empty());
            } else {
                text::extend(out, trimmed);
                out.push(' ');
            }
        },
        MarkdownEvent::Code(s) => {
            let chars: Vec<char> = text::chars_of(s.as_str());
            text::extend(out, chars.as_slice());
        },
        MarkdownEvent::SoftBreak | MarkdownEvent::HardBreak => {
            out.push(' ');
        },
        MarkdownEvent::EndParagraph
        | MarkdownEvent::EndHeading
        | MarkdownEvent::EndItem
        | MarkdownEvent::EndCodeBlock
        | MarkdownEvent::StartCodeBlock => {
            out.push('\n');
        },
        MarkdownEvent::Other => {},
    }
    assert(out@ =~= before + token_text(event@));
}

/// The plain text of a page with the given events.
pub fn events_to_plain_text(events: &Vec<MarkdownEvent>) -> (r: String)
    ensures
        r@ == render(tokens(events@)),
{
    let mut out: Vec<char> = Vec::new();
    let ghost all = tokens(events@);
    for i in 0..events.len()
        invariant
            all == tokens(events@),
            out@ == render(all.take(i as int)),
    {
        push_event(&mut out, &events[i]);
        assert(all.take(i + 1).drop_last() =~= all.take(i as int));
        assert(all.take(i + 1).last() == events[i as int]@);
    }
    assert(all.take(events@.len() as int) =~= all);
    text::string_of(out.as_slice())
}

/// The plain text of a page.
pub fn markdown_to_plain_text(markdown: &str) -> (r: String)
    ensures
        r@ == plain_text(markdown@),
{
    let page: &str = strip_myst_noise(markdown);
    let events: Vec<MarkdownEvent> = parse_events(page, PAGE_OPTIONS);
    events_to_plain_text(&events)
}

/// The plain text of a page is that of its parts one after the other.
pub proof fn law_render_parts(a: Seq<MarkdownToken>, b: Seq<MarkdownToken>)
    ensures
        render(a + b) == render(a) + render(b),
    decreases b.len(),
{
    if b.len() == 0 {
        assert(a + b =~= a);
        assert(render(a) + Seq::<char>::empty() =~= render(a));
    } else {
        law_render_parts(a, b.drop_last());
        assert((a + b).drop_last() =~= a + b.drop_last());
        assert(render(a + b) =~= render(a) + render(b));
    }
}

/// Nothing but the front of a page is ever taken away, and nothing at all
/// unless the page starts with a line of three hyphens.
pub proof fn law_metadata_is_at_front(page: Seq<char>)
    ensures
        without_metadata(page).is_suffix_of(page),
        !"---\n"@.is_prefix_of(page) ==> without_metadata(page) == page,
{
    reveal_strlit("---\n");
    reveal_strlit("\n---\n");
    reveal_strlit("\n---");
    match text::strip_prefix(page, "---\n"@) {
        None => {},
        Some(rest) => {
            text::lemma_find_from(rest, "\n---\n"@, 0);
            text::lemma_find_from(rest, "\n---"@, 0);
        },
    }
    let r = without_metadata(page);
    assert(r =~= page.subrange(page.len() - r.len(), page.len() as int));
}

/// What follows the metadata block of a page is left as it is.
pub proof fn law_metadata_removed(metadata: Seq<char>, body: Seq<char>)
    requires
        forall|i: int|
            0 <= i < metadata.len() ==> !#[trigger] text::occurs_at(
                metadata + "\n---\n"@ + body,
                "\n---\n"@,
                i,
            ),
    ensures
        without_metadata("---\n"@ + metadata + "\n---\n"@ + body) == body,
{
    reveal_strlit("---\n");
    reveal_strlit("\n---\n");
    let rest = metadata + "\n---\n"@ + body;
    let page = "---\n"@ + metadata + "\n---\n"@ + body;
    assert(page =~= "---\n"@ + rest);
    assert("---\n"@ =~= page.subrange(0, 4));
    assert(page.skip(4) =~= rest);
    let n = metadata.len() as int;
    assert(rest.subrange(n, n + 5) =~= "\n---\n"@);
    assert(text::occurs_at(rest, "\n---\n"@, n));
    text::lemma_found(rest, "\n---\n"@, 0, n);
    assert(rest.skip(n + 5) =~= body);
}

} // verus!

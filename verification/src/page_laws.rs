//! What holds of the plain text of a page and of its chunks.

use crate::chunks;
use crate::chunks::{PageOutcome, Passage};
use crate::includes;
use crate::includes::Expanded;
use crate::markdown;
use crate::markdown::MarkdownToken;
use crate::page_urls;
use crate::paths;
use crate::text;
use crate::text_laws;
use vstd::prelude::*;

verus! {

/// What an event adds to the plain text stands there between what the events
/// before it and those after it add.
proof fn lemma_one_event(a: Seq<MarkdownToken>, token: MarkdownToken, b: Seq<MarkdownToken>)
    ensures
        markdown::render(a + seq![token] + b) == markdown::render(a) + markdown::token_text(token)
            + markdown::render(b),
{
    let one = seq![token];
    markdown::law_render_parts(a + one, b);
    markdown::law_render_parts(a, one);
    assert(one.drop_last() =~= Seq::<MarkdownToken>::empty());
    assert(markdown::render(one.drop_last()) =~= Seq::<char>::empty());
    assert(markdown::render(one) =~= markdown::token_text(token));
}

/// No text is lost: whatever its length, a text stands in the plain text without
/// the white space around it and with a space behind it, between what the events
/// before it and those after it add. Only a label, which starts with a bracket
/// and ends with a bracket and an equals sign, is left out.
pub proof fn law_text_is_kept(
    a: Seq<MarkdownToken>,
    front: Seq<char>,
    t: Seq<char>,
    back: Seq<char>,
    b: Seq<MarkdownToken>,
)
    requires
        text::is_blank(front),
        text::is_blank(back),
        text::is_trimmed(t),
    ensures
        ({
            let all = a + seq![MarkdownToken::Text(front + t + back)] + b;
            let label = t[0] == '(' && t.len() > 1 && t[t.len() - 2] == ')' && t.last() == '=';
            &&& !label ==> markdown::render(all) == markdown::render(a) + t + seq![' ']
                + markdown::render(b)
            &&& label ==> markdown::render(all) == markdown::render(a) + markdown::render(b)
        }),
{
    let token = MarkdownToken::Text(front + t + back);
    reveal_strlit(")=");
    text::law_trim_padded(front, t, back);
    lemma_one_event(a, token, b);
    let label = t[0] == '(' && t.len() > 1 && t[t.len() - 2] == ')' && t.last() == '=';
    assert(label == markdown::is_label(t)) by {
        if t.len() > 1 {
            let end = t.subrange(t.len() - 2, t.len() as int);
            assert(end[0] == t[t.len() - 2] && end[1] == t.last());
            if label {
                assert(end =~= ")="@);
            }
        }
    }
    let (x, y) = (markdown::render(a), markdown::render(b));
    if label {
        assert(x + Seq::<char>::empty() + y =~= x + y);
    } else {
        assert(x + t.push(' ') + y =~= x + t + seq![' '] + y);
    }
}

/// A text of white space alone adds one space.
pub proof fn law_blank_text(a: Seq<MarkdownToken>, blank: Seq<char>, b: Seq<MarkdownToken>)
    requires
        text::is_blank(blank),
    ensures
        markdown::render(a + seq![MarkdownToken::Text(blank)] + b) == markdown::render(a) + seq![' ']
            + markdown::render(b),
{
    text::law_trim_is_trimmed(blank);
    lemma_one_event(a, MarkdownToken::Text(blank), b);
    assert(text::trim(blank).push(' ') =~= seq![' ']);
}

/// Code is kept as it is. The ends of lines add a space. The ends of paragraphs,
/// headings, items and blocks of code, and the starts of the last, add a
/// newline. Nothing else adds anything.
pub proof fn law_other_events(a: Seq<MarkdownToken>, code: Seq<char>, b: Seq<MarkdownToken>)
    ensures
        markdown::render(a + seq![MarkdownToken::Code(code)] + b) == markdown::render(a) + code
            + markdown::render(b),
        markdown::render(a + seq![MarkdownToken::SoftBreak] + b) == markdown::render(a) + seq![' ']
            + markdown::render(b),
        markdown::render(a + seq![MarkdownToken::HardBreak] + b) == markdown::render(a) + seq![' ']
            + markdown::render(b),
        markdown::render(a + seq![MarkdownToken::EndParagraph] + b) == markdown::render(a)
            + seq!['\n'] + markdown::render(b),
        markdown::render(a + seq![MarkdownToken::EndHeading] + b) == markdown::render(a)
            + seq!['\n'] + markdown::render(b),
        markdown::render(a + seq![MarkdownToken::EndItem] + b) == markdown::render(a) + seq!['\n']
            + markdown::render(b),
        markdown::render(a + seq![MarkdownToken::EndCodeBlock] + b) == markdown::render(a)
            + seq!['\n'] + markdown::render(b),
        markdown::render(a + seq![MarkdownToken::StartCodeBlock] + b) == markdown::render(a)
            + seq!['\n'] + markdown::render(b),
        markdown::render(a + seq![MarkdownToken::Other] + b) == markdown::render(a)
            + markdown::render(b),
        markdown::render(Seq::empty()) == Seq::<char>::empty(),
{
    lemma_one_event(a, MarkdownToken::Code(code), b);
    lemma_one_event(a, MarkdownToken::SoftBreak, b);
    lemma_one_event(a, MarkdownToken::HardBreak, b);
    lemma_one_event(a, MarkdownToken::EndParagraph, b);
    lemma_one_event(a, MarkdownToken::EndHeading, b);
    lemma_one_event(a, MarkdownToken::EndItem, b);
    lemma_one_event(a, MarkdownToken::EndCodeBlock, b);
    lemma_one_event(a, MarkdownToken::StartCodeBlock, b);
    lemma_one_event(a, MarkdownToken::Other, b);
    let (x, y) = (markdown::render(a), markdown::render(b));
    assert(x + Seq::<char>::empty() + y =~= x + y);
}

/// A page that starts with three hyphens, and on which no such line ends a
/// metadata block, loses nothing: it has no later line that starts with three
/// hyphens, or something follows the hyphens of the first and none stands alone
/// on its line.
pub proof fn law_unclosed_metadata_stays(rest: Seq<char>, before: Seq<char>, after: Seq<char>)
    requires
        forall|i: int| !#[trigger] text::occurs_at(rest, "\n---"@, i),
        forall|i: int|
            0 <= i < before.len() ==> !#[trigger] text::occurs_at(
                before + "\n---"@ + after,
                "\n---"@,
                i,
            ),
        forall|i: int| !#[trigger] text::occurs_at(before + "\n---"@ + after, "\n---\n"@, i),
        !text::is_blank(after),
    ensures
        markdown::without_metadata("---\n"@ + rest) == "---\n"@ + rest,
        markdown::without_metadata("---\n"@ + before + "\n---"@ + after) == "---\n"@ + before
            + "\n---"@ + after,
{
    lemma_unclosed(rest);
    let tail = before + "\n---"@ + after;
    let page = "---\n"@ + before + "\n---"@ + after;
    assert(page =~= "---\n"@ + tail);
    text_laws::law_prefix_taken_off(page, "---\n"@, tail);
    text_laws::law_first_place_found(tail, "\n---\n"@);
    if text::find_from(tail, "\n---\n"@, 0) is Some {
        let k = text::find_from(tail, "\n---\n"@, 0)->0;
        assert(text::occurs_at(tail, "\n---\n"@, k));
    }
    lemma_first_hyphens(before, after);
    text::law_trim_is_trimmed(after);
}

proof fn lemma_first_hyphens(before: Seq<char>, after: Seq<char>)
    requires
        forall|i: int|
            0 <= i < before.len() ==> !#[trigger] text::occurs_at(
                before + "\n---"@ + after,
                "\n---"@,
                i,
            ),
    ensures
        text::find_from(before + "\n---"@ + after, "\n---"@, 0) == Some(before.len() as int),
        (before + "\n---"@ + after).skip(before.len() as int + 4) == after,
{
    reveal_strlit("\n---");
    let tail = before + "\n---"@ + after;
    let n = before.len() as int;
    assert(tail.subrange(n, n + 4) =~= "\n---"@);
    assert(text::occurs_at(tail, "\n---"@, n));
    text::lemma_found(tail, "\n---"@, 0, n);
    assert(tail.skip(n + 4) =~= after);
}

proof fn lemma_unclosed(rest: Seq<char>)
    requires
        forall|i: int| !#[trigger] text::occurs_at(rest, "\n---"@, i),
    ensures
        markdown::without_metadata("---\n"@ + rest) == "---\n"@ + rest,
{
    reveal_strlit("\n---");
    reveal_strlit("\n---\n");
    let page = "---\n"@ + rest;
    text_laws::law_prefix_taken_off(page, "---\n"@, rest);
    text_laws::law_first_place_found(rest, "\n---\n"@);
    text_laws::law_first_place_found(rest, "\n---"@);
    if text::find_from(rest, "\n---\n"@, 0) is Some {
        let k = text::find_from(rest, "\n---\n"@, 0)->0;
        assert(rest.subrange(k, k + 4) =~= rest.subrange(k, k + 5).subrange(0, 4));
        assert("\n---\n"@.subrange(0, 4) =~= "\n---"@);
        assert(text::occurs_at(rest, "\n---"@, k));
    }
    if text::find_from(rest, "\n---"@, 0) is Some {
        let k = text::find_from(rest, "\n---"@, 0)->0;
        assert(text::occurs_at(rest, "\n---"@, k));
    }
}

/// A metadata block may end with the page: three hyphens with nothing but white
/// space behind them close it, and that white space is all that is left.
pub proof fn law_metadata_ends_the_page(metadata: Seq<char>, blank: Seq<char>)
    requires
        forall|i: int|
            0 <= i < metadata.len() ==> !#[trigger] text::occurs_at(
                metadata + "\n---"@ + blank,
                "\n---"@,
                i,
            ),
        text::is_blank(blank),
        blank.len() > 0 ==> blank[0] != '\n',
    ensures
        markdown::without_metadata("---\n"@ + metadata + "\n---"@ + blank) == blank,
{
    let tail = metadata + "\n---"@ + blank;
    let page = "---\n"@ + metadata + "\n---"@ + blank;
    assert(page =~= "---\n"@ + tail);
    text_laws::law_prefix_taken_off(page, "---\n"@, tail);
    lemma_no_line_of_hyphens(metadata, blank);
    lemma_first_hyphens(metadata, blank);
    text::law_trim_is_trimmed(blank);
}

proof fn lemma_no_line_of_hyphens(metadata: Seq<char>, blank: Seq<char>)
    requires
        forall|i: int|
            0 <= i < metadata.len() ==> !#[trigger] text::occurs_at(
                metadata + "\n---"@ + blank,
                "\n---"@,
                i,
            ),
        text::is_blank(blank),
        blank.len() > 0 ==> blank[0] != '\n',
    ensures
        text::find_from(metadata + "\n---"@ + blank, "\n---\n"@, 0) is None,
{
    reveal_strlit("\n---");
    reveal_strlit("\n---\n");
    let tail = metadata + "\n---"@ + blank;
    let n = metadata.len() as int;
    text::lemma_find_from(tail, "\n---\n"@, 0);
    if text::find_from(tail, "\n---\n"@, 0) is Some {
        let k = text::find_from(tail, "\n---\n"@, 0)->0;
        let found = tail.subrange(k, k + 5);
        assert(found == "\n---\n"@);
        assert(tail[k] == found[0] && tail[k + 1] == found[1] && tail[k + 4] == found[4]);
        if k < n {
            assert(tail.subrange(k, k + 4) =~= found.subrange(0, 4));
            assert("\n---\n"@.subrange(0, 4) =~= "\n---"@);
            assert(text::occurs_at(tail, "\n---"@, k));
        } else if k == n {
            assert(tail[n + 4] == blank[0]);
        } else if k < n + 3 {
            assert(tail[k] == "\n---"@[k - n]);
        } else {
            let i = k + 1 - n - 4;
            assert(tail[k + 1] == blank[i]);
            assert(text::is_whitespace(blank[i]));
        }
        assert(false);
    }
}

/// Metadata makes no difference to the plain text: it is that of what follows
/// the block, read with tables and struck text.
pub proof fn law_plain_text(metadata: Seq<char>, body: Seq<char>)
    requires
        forall|i: int|
            0 <= i < metadata.len() ==> !#[trigger] text::occurs_at(
                metadata + "\n---\n"@ + body,
                "\n---\n"@,
                i,
            ),
        !"---\n"@.is_prefix_of(body),
    ensures
        markdown::plain_text(body) == markdown::render(markdown::markdown_tokens(body, 2u32 | 8u32)),
        markdown::plain_text("---\n"@ + metadata + "\n---\n"@ + body) == markdown::plain_text(body),
{
    markdown::law_metadata_removed(metadata, body);
    markdown::law_metadata_is_at_front(body);
}

/// The plain text of any page is all that the events of the page, without its
/// metadata, add one after the other.
pub proof fn law_plain_text_of_any_page(page: Seq<char>)
    ensures
        markdown::plain_text(page) == markdown::render(
            markdown::markdown_tokens(markdown::without_metadata(page), 2u32 | 8u32),
        ),
{
}

/// The test for a text that is not empty.
pub open spec fn not_empty() -> spec_fn(Seq<char>) -> bool {
    |s: Seq<char>| s.len() > 0
}

/// The chunks of a page are its pieces without the white space around them, in
/// order and without those that hold nothing else; each has the address of the
/// page. So none is lost, and there are as many as pieces that are not blank.
pub proof fn law_chunks_are_the_pieces(source: Seq<char>, pieces: Seq<Seq<char>>)
    ensures
        chunks::piece_chunks(source, pieces).map_values(|p: Passage| p.text) == pieces.map_values(
            |s: Seq<char>| text::trim(s),
        ).filter(not_empty()),
        forall|i: int|
            0 <= i < chunks::piece_chunks(source, pieces).len() ==> (
            #[trigger] chunks::piece_chunks(source, pieces)[i]).source == source,
    decreases pieces.len(),
{
    reveal(Seq::filter);
    let trim = |s: Seq<char>| text::trim(s);
    let own = |p: Passage| p.text;
    let all = chunks::piece_chunks(source, pieces);
    if pieces.len() > 0 {
        let front = pieces.drop_last();
        law_chunks_are_the_pieces(source, front);
        assert(pieces.map_values(trim).drop_last() =~= front.map_values(trim));
        assert(pieces.map_values(trim).last() == text::trim(pieces.last()));
        let earlier = chunks::piece_chunks(source, front);
        let t = text::trim(pieces.last());
        if t.len() > 0 {
            assert(all.map_values(own) =~= earlier.map_values(own).push(t));
        }
    } else {
        assert(all.map_values(own) =~= pieces.map_values(trim));
    }
}

/// The chunks of some pieces and then others are those of the first and then
/// those of the others.
pub proof fn law_chunks_of_parts(source: Seq<char>, a: Seq<Seq<char>>, b: Seq<Seq<char>>)
    ensures
        chunks::piece_chunks(source, a + b) == chunks::piece_chunks(source, a)
            + chunks::piece_chunks(source, b),
    decreases b.len(),
{
    let front = chunks::piece_chunks(source, a);
    if b.len() == 0 {
        assert(a + b =~= a);
        assert(front + chunks::piece_chunks(source, b) =~= front);
    } else {
        law_chunks_of_parts(source, a, b.drop_last());
        assert((a + b).drop_last() =~= a + b.drop_last());
        assert((a + b).last() == b.last());
        let own = chunks::piece_chunks(source, b.drop_last());
        let t = text::trim(b.last());
        if t.len() > 0 {
            let last = Passage { source, text: t };
            assert((front + own).push(last) =~= front + own.push(last));
        }
    }
}

/// Every piece that is not blank is a chunk, with the white space around it
/// taken away, and a blank one is none.
pub proof fn law_every_piece_counts(
    source: Seq<char>,
    a: Seq<Seq<char>>,
    front: Seq<char>,
    t: Seq<char>,
    back: Seq<char>,
    b: Seq<Seq<char>>,
)
    requires
        text::is_blank(front),
        text::is_trimmed(t),
        text::is_blank(back),
    ensures
        chunks::piece_chunks(source, a + seq![front + t + back] + b) == chunks::piece_chunks(
            source,
            a,
        ) + seq![(Passage { source, text: t })] + chunks::piece_chunks(source, b),
        chunks::piece_chunks(source, a + seq![front] + b) == chunks::piece_chunks(source, a)
            + chunks::piece_chunks(source, b),
        chunks::piece_chunks(source, Seq::empty()) == Seq::<Passage>::empty(),
{
    let piece = front + t + back;
    text::law_trim_padded(front, t, back);
    text::law_trim_is_trimmed(front);
    law_chunks_of_parts(source, a + seq![piece], b);
    law_chunks_of_parts(source, a, seq![piece]);
    law_chunks_of_parts(source, a + seq![front], b);
    law_chunks_of_parts(source, a, seq![front]);
    let none = Seq::<Passage>::empty();
    assert(seq![piece].drop_last() =~= Seq::<Seq<char>>::empty());
    assert(seq![front].drop_last() =~= Seq::<Seq<char>>::empty());
    assert(chunks::piece_chunks(source, Seq::empty()) =~= none);
    assert(chunks::piece_chunks(source, seq![piece]) =~= seq![(Passage { source, text: t })]);
    assert(chunks::piece_chunks(source, seq![front]) =~= none);
    let x = chunks::piece_chunks(source, a);
    assert(x + none =~= x);
}

/// The chunks of a page come from the pieces of at most 512 characters of the
/// plain text of the whole page, all files inlined. They have the published
/// address of the page or else the path of its file. A page that cannot be read
/// has none, and one that is not known is asked for.
pub proof fn law_chunks_of_page(
    path: Seq<u8>,
    docs_dir: Seq<u8>,
    urls: Map<Seq<char>, Seq<char>>,
    known: Map<Seq<u8>, Option<Seq<char>>>,
)
    ensures
        ({
            let outcome = chunks::page_outcome(path, docs_dir, urls, known);
            &&& !known.dom().contains(path) ==> outcome == PageOutcome::Needs(path)
            &&& known.dom().contains(path) && known[path] is None ==> outcome == PageOutcome::Done(
                Seq::empty(),
            )
            &&& known.dom().contains(path) ==> (known[path] matches Some(raw) ==> (
            match includes::expand(raw, path, includes::docs_root(path), 0, known) {
                Expanded::Needs(p) => outcome == PageOutcome::Needs(p),
                Expanded::Done(page) => outcome matches PageOutcome::Done(found) && {
                    let pieces = chunks::split_pieces(markdown::plain_text(page), 512);
                    &&& found.map_values(|p: Passage| p.text) == pieces.map_values(
                        |s: Seq<char>| text::trim(s),
                    ).filter(not_empty())
                    &&& forall|i: int|
                        0 <= i < found.len() ==> (#[trigger] found[i]).source == (
                        match page_urls::page_url(path, docs_dir, urls) {
                            Some(url) => url,
                            None => paths::lossy_text(path),
                        })
                },
            }))
        }),
{
    if known.dom().contains(path) && known[path] is Some {
        match includes::expand(known[path]->0, path, includes::docs_root(path), 0, known) {
            Expanded::Needs(_) => {},
            Expanded::Done(page) => {
                law_chunks_are_the_pieces(
                    chunks::page_source(path, docs_dir, urls),
                    chunks::split_pieces(markdown::plain_text(page), 512),
                );
            },
        }
    }
}

/// Chunks are bounded if each has at least one character and at most 512, and a
/// text is a passage of another if that is made of it and what stands around it.
pub proof fn law_bounds_and_passages(
    list: Seq<Passage>,
    front: Seq<char>,
    part: Seq<char>,
    back: Seq<char>,
    whole: Seq<char>,
)
    ensures
        chunks::is_bounded(list) <==> forall|i: int|
            0 <= i < list.len() ==> 1 <= (#[trigger] list[i]).text.len() <= 512,
        chunks::is_passage(part, front + part + back),
        chunks::is_passage(part, whole) ==> exists|a: Seq<char>, b: Seq<char>|
            whole == #[trigger] (a + part + b),
{
    let all = front + part + back;
    let n = front.len() as int;
    assert(all.subrange(n, n + part.len()) =~= part);
    assert(text::occurs_at(all, part, n));
    if chunks::is_passage(part, whole) {
        let i = choose|i: int| text::occurs_at(whole, part, i);
        let (a, b) = (whole.take(i), whole.skip(i + part.len()));
        assert forall|k: int| i <= k < i + part.len() implies whole[k] == part[k - i] by {
            assert(whole.subrange(i, i + part.len())[k - i] == whole[k]);
        }
        assert(whole =~= a + part + b);
    }
}

} // verus!

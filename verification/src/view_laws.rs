//! What the views of values show: all that the values hold, in the same order.

use crate::base_urls;
use crate::base_urls::RepoConf;
use crate::chunks;
use crate::chunks::{Chunk, PageOutcome, PageResult};
use crate::includes;
use crate::includes::{Expanded, Expansion};
use crate::markdown;
use crate::markdown::{MarkdownEvent, MarkdownToken};
use crate::output;
use crate::output::{IndexEntry, PermissionStep, Step};
use crate::page_urls;
use crate::paths;
use crate::paths::DocPath;
use crate::repo_sync;
use crate::snapshot;
use crate::text;
use crate::walk;
use vstd::prelude::*;

verus! {

/// The views of lists of texts are the texts, one for one.
pub proof fn law_texts_seen(
    slices: Seq<&[char]>,
    strings: Seq<String>,
    chars: Seq<Vec<char>>,
    pairs: Seq<(String, String)>,
    confs: Seq<RepoConf>,
)
    ensures
        text::slices(slices).len() == slices.len(),
        forall|i: int| 0 <= i < slices.len() ==> text::slices(slices)[i] == #[trigger] slices[i]@,
        text::string_views(strings).len() == strings.len(),
        forall|i: int|
            0 <= i < strings.len() ==> text::string_views(strings)[i] == #[trigger] strings[i]@,
        page_urls::char_views(chars).len() == chars.len(),
        forall|i: int|
            0 <= i < chars.len() ==> page_urls::char_views(chars)[i] == #[trigger] chars[i]@,
        repo_sync::pair_views(pairs).len() == pairs.len(),
        forall|i: int|
            0 <= i < pairs.len() ==> repo_sync::pair_views(pairs)[i] == ((#[trigger] pairs[i]).0@,
            pairs[i].1@),
        base_urls::conf_views(confs).len() == confs.len(),
        forall|i: int|
            0 <= i < confs.len() ==> base_urls::conf_views(confs)[i] == (
            (#[trigger] confs[i]).repo@, confs[i].conf@),
{
}

/// The views of lists of paths are the bytes of the paths, one for one.
pub proof fn law_paths_seen(
    bytes: Seq<Vec<u8>>,
    list: Seq<DocPath>,
    spans: Seq<(usize, usize)>,
    entries: Seq<IndexEntry>,
)
    ensures
        paths::byte_views(bytes).len() == bytes.len(),
        forall|i: int|
            0 <= i < bytes.len() ==> paths::byte_views(bytes)[i] == #[trigger] bytes[i]@,
        walk::path_views(list).len() == list.len(),
        forall|i: int|
            0 <= i < list.len() ==> walk::path_views(list)[i] == (#[trigger] list[i]).bytes@,
        paths::span_view(spans).len() == spans.len(),
        forall|i: int|
            0 <= i < spans.len() ==> paths::span_view(spans)[i] == ((
            #[trigger] spans[i]).0 as int, spans[i].1 as int),
        output::entry_views(entries).len() == entries.len(),
        forall|i: int|
            0 <= i < entries.len() ==> output::entry_views(entries)[i] == ((
            #[trigger] entries[i]).path.bytes@, entries[i].is_dir),
{
}

/// The views of lists of chunks and of events are theirs, one for one.
pub proof fn law_pages_seen(list: Seq<Chunk>, events: Seq<MarkdownEvent>)
    ensures
        chunks::passages(list).len() == list.len(),
        forall|i: int|
            0 <= i < list.len() ==> chunks::passages(list)[i].source == (
            #[trigger] list[i]).source@,
        forall|i: int|
            0 <= i < list.len() ==> chunks::passages(list)[i].text == (#[trigger] list[i]).text@,
        markdown::tokens(events).len() == events.len(),
        forall|i: int|
            0 <= i < events.len() ==> markdown::tokens(events)[i] == (match #[trigger] events[i] {
                MarkdownEvent::Text(s) => MarkdownToken::Text(s@),
                MarkdownEvent::Code(s) => MarkdownToken::Code(s@),
                MarkdownEvent::SoftBreak => MarkdownToken::SoftBreak,
                MarkdownEvent::HardBreak => MarkdownToken::HardBreak,
                MarkdownEvent::EndParagraph => MarkdownToken::EndParagraph,
                MarkdownEvent::EndHeading => MarkdownToken::EndHeading,
                MarkdownEvent::EndItem => MarkdownToken::EndItem,
                MarkdownEvent::EndCodeBlock => MarkdownToken::EndCodeBlock,
                MarkdownEvent::StartCodeBlock => MarkdownToken::StartCodeBlock,
                MarkdownEvent::Other => MarkdownToken::Other,
            }),
{
}

/// The views of outcomes tell them apart and show what they hold.
pub proof fn law_outcomes_seen(
    expansion: Expansion,
    result: PageResult,
    step: PermissionStep,
    path: Option<DocPath>,
    reply: Option<String>,
)
    ensures
        match expansion {
            Expansion::Done(s) => expansion@ == Expanded::Done(s@),
            Expansion::Needs(p) => expansion@ == Expanded::Needs(p.bytes@),
        },
        match result {
            PageResult::Done(list) => result@ == PageOutcome::Done(chunks::passages(list@)),
            PageResult::Needs(p) => result@ == PageOutcome::Needs(p.bytes@),
        },
        match step {
            PermissionStep::List(p) => step@ == Step::List(p.bytes@),
            PermissionStep::SetMode(p, mode) => step@ == Step::SetMode(p.bytes@, mode),
        },
        match path {
            Some(p) => includes::path_view(path) == Some(p.bytes@),
            None => includes::path_view(path) is None,
        },
        match reply {
            Some(s) => snapshot::reply_view(reply) == Some(s@),
            None => snapshot::reply_view(reply) is None,
        },
{
}

} // verus!

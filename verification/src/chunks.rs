//! The chunks of text that go into the index.

use crate::base_urls::BaseUrls;
use crate::includes;
use crate::includes::Expansion;
use crate::markdown;
use crate::page_urls;
use crate::path_order;
use crate::paths;
use crate::paths::DocPath;
use crate::snapshot;
use crate::snapshot::{Known, Snapshot};
use crate::text;
use crate::walk;
use text_splitter::TextSplitter;
use vstd::prelude::*;

verus! {

/// The greatest number of characters in a chunk.
pub const CHUNK_SIZE: usize = 512;

/// A passage of a page and the address of the page.
pub struct Chunk {
    pub source: String,
    pub text: String,
}

/// A [`Chunk`] as a mathematical value.
pub struct Passage {
    pub source: Seq<char>,
    pub text: Seq<char>,
}

impl View for Chunk {
    type V = Passage;

    open spec fn view(&self) -> Passage {
        Passage { source: self.source@, text: self.text@ }
    }
}

/// The views of a list of chunks.
pub open spec fn passages(chunks: Seq<Chunk>) -> Seq<Passage> {
    chunks.map_values(|c: Chunk| c@)
}

/// The pieces that [`text_splitter::TextSplitter::chunks`] cuts a text into,
/// none longer than `size` characters.
pub uninterp spec fn split_pieces(text: Seq<char>, size: usize) -> Seq<Seq<char>>;

/// Whether `part` stands somewhere in `whole`.
pub open spec fn is_passage(part: Seq<char>, whole: Seq<char>) -> bool {
    exists|i: int| #[trigger] text::occurs_at(whole, part, i)
}

/// The pieces of a text. It calls [`text_splitter::TextSplitter::chunks`], of
/// which it says that the pieces depend on the text and the size alone, that
/// each stands in the text, and that none is empty or longer than `size`
/// characters.
#[verifier::external_body]
fn split_text(text: &str, size: usize) -> (r: Vec<String>)
    requires
        size > 0,
    ensures
        text::string_views(r@) == split_pieces(text@, size),
        forall|i: int|
            0 <= i < r@.len() ==> 0 < (#[trigger] r@[i])@.len() <= size && is_passage(
                r@[i]@,
                text@,
            ),
{
    TextSplitter::new(size).chunks(text).map(|piece| piece.to_string()).collect()
}

/// The chunks of a page: its pieces without the white space around them, where
/// anything is left.
pub open spec fn piece_chunks(source: Seq<char>, pieces: Seq<Seq<char>>) -> Seq<Passage>
    decreases pieces.len(),
{
    if pieces.len() == 0 {
        Seq::empty()
    } else {
        let earlier = piece_chunks(source, pieces.drop_last());
        let text = text::trim(pieces.last());
        if text.len() > 0 {
            earlier.push(Passage { source, text })
        } else {
            earlier
        }
    }
}

/// The address that a page's chunks are given: the published one, or else the
/// path of its file.
pub open spec fn page_source(
    path: Seq<u8>,
    docs_dir: Seq<u8>,
    urls: Map<Seq<char>, Seq<char>>,
) -> Seq<char> {
    match page_urls::page_url(path, docs_dir, urls) {
        Some(url) => url,
        None => paths::lossy_text(path),
    }
}

/// What comes of a page: its chunks, or a file that has to be read first.
pub enum PageOutcome {
    Done(Seq<Passage>),
    Needs(Seq<u8>),
}

/// What comes of the page in a file. A file that cannot be read has no chunks.
pub open spec fn page_outcome(
    path: Seq<u8>,
    docs_dir: Seq<u8>,
    urls: Map<Seq<char>, Seq<char>>,
    known: Map<Seq<u8>, Option<Seq<char>>>,
) -> PageOutcome {
    if !known.dom().contains(path) {
        PageOutcome::Needs(path)
    } else {
        match known[path] {
            None => PageOutcome::Done(Seq::empty()),
            Some(raw) => match includes::expand(raw, path, includes::docs_root(path), 0, known) {
                includes::Expanded::Needs(p) => PageOutcome::Needs(p),
                includes::Expanded::Done(page) => PageOutcome::Done(
                    piece_chunks(
                        page_source(path, docs_dir, urls),
                        split_pieces(markdown::plain_text(page), CHUNK_SIZE),
                    ),
                ),
            },
        }
    }
}

/// Whether every chunk holds something and is no longer than allowed.
pub open spec fn is_bounded(chunks: Seq<Passage>) -> bool {
    forall|i: int| 0 <= i < chunks.len() ==> 0 < (#[trigger] chunks[i]).text.len() <= CHUNK_SIZE
}

/// What trimming leaves is a passage of the text.
proof fn lemma_trim_is_passage(s: Seq<char>)
    ensures
        is_passage(text::trim(s), s),
        text::trim(s).len() <= s.len(),
{
    let p = |c: char| text::is_whitespace(c);
    text::lemma_front_run(s, p, 0);
    let a = text::front_run(s, p) as int;
    let t = text::trim_start(s);
    text::lemma_back_run(t, p, 0);
    assert(s.subrange(a, a + text::trim(s).len()) =~= text::trim(s));
    assert(text::occurs_at(s, text::trim(s), a));
}

/// A passage of a passage is a passage.
proof fn lemma_passage_of_passage(a: Seq<char>, b: Seq<char>, c: Seq<char>)
    requires
        is_passage(a, b),
        is_passage(b, c),
    ensures
        is_passage(a, c),
{
    let i = choose|i: int| text::occurs_at(b, a, i);
    let j = choose|j: int| text::occurs_at(c, b, j);
    assert(c.subrange(i + j, i + j + a.len()) =~= c.subrange(j, j + b.len()).subrange(
        i,
        i + a.len(),
    ));
    assert(text::occurs_at(c, a, i + j));
}

/// The chunks of a page with the given address and pieces.
pub fn chunks_of_pieces(source: &str, pieces: &Vec<String>) -> (r: Vec<Chunk>)
    ensures
        passages(r@) == piece_chunks(source@, text::string_views(pieces@)),
{
    let mut out: Vec<Chunk> = Vec::new();
    let ghost all = text::string_views(pieces@);
    for i in 0..pieces.len()
        invariant
            all == text::string_views(pieces@),
            passages(out@) == piece_chunks(source@, all.take(i as int)),
    {
        assert(all.take(i + 1).drop_last() =~= all.take(i as int));
        assert(all.take(i + 1).last() == pieces@[i as int]@);
        let ghost before = out@;
        let chars: Vec<char> = text::chars_of(pieces[i].as_str());
        let trimmed = text::trim_of(chars.as_slice());
        if trimmed.len() > 0 {
            let chunk = Chunk { source: source.to_owned(), text: text::string_of(trimmed) };
            out.push(chunk);
            assert(passages(out@) =~= passages(before).push(chunk@));
        }
    }
    assert(all.take(pieces@.len() as int) =~= all);
    out
}

/// The chunks of a page with the given address and plain text.
pub fn chunks_of_text(source: &str, plain: &str) -> (r: Vec<Chunk>)
    ensures
        passages(r@) == piece_chunks(source@, split_pieces(plain@, CHUNK_SIZE)),
        is_bounded(passages(r@)),
        forall|i: int|
            0 <= i < r@.len() ==> (#[trigger] r@[i]).source@ == source@ && text::is_trimmed(
                r@[i].text@,
            ) && is_passage(r@[i].text@, plain@),
{
    let pieces: Vec<String> = split_text(plain, CHUNK_SIZE);
    let out: Vec<Chunk> = chunks_of_pieces(source, &pieces);
    proof {
        let all = text::string_views(pieces@);
        assert forall|i: int| 0 <= i < all.len() implies 0 < (#[trigger] all[i]).len() <= CHUNK_SIZE
            && is_passage(all[i], plain@) by {
            assert(all[i] == pieces@[i]@);
        }
        lemma_piece_chunks(source@, all, plain@);
        assert forall|i: int| 0 <= i < out@.len() implies (#[trigger] out@[i]).source@ == source@
            && text::is_trimmed(out@[i].text@) && is_passage(out@[i].text@, plain@) by {
            assert(passages(out@)[i] == out@[i]@);
        }
    }
    out
}

/// The chunks of bounded pieces of a text are bounded passages of it.
proof fn lemma_piece_chunks(source: Seq<char>, pieces: Seq<Seq<char>>, whole: Seq<char>)
    requires
        forall|i: int|
            0 <= i < pieces.len() ==> (#[trigger] pieces[i]).len() <= CHUNK_SIZE && is_passage(
                pieces[i],
                whole,
            ),
    ensures
        is_bounded(piece_chunks(source, pieces)),
        forall|i: int|
            0 <= i < piece_chunks(source, pieces).len() ==> (#[trigger] piece_chunks(
                source,
                pieces,
            )[i]).source == source && text::is_trimmed(piece_chunks(source, pieces)[i].text)
                && is_passage(piece_chunks(source, pieces)[i].text, whole),
    decreases pieces.len(),
{
    if pieces.len() > 0 {
        let front = pieces.drop_last();
        assert forall|i: int| 0 <= i < front.len() implies (#[trigger] front[i]).len() <= CHUNK_SIZE
            && is_passage(front[i], whole) by {
            assert(front[i] == pieces[i]);
        }
        lemma_piece_chunks(source, front, whole);
        let last = pieces[pieces.len() - 1];
        lemma_trim_is_passage(last);
        text::law_trim_is_trimmed(last);
        lemma_passage_of_passage(text::trim(last), last, whole);
    }
}

/// What comes of a page: its chunks, or a file that has to be read first.
pub enum PageResult {
    Done(Vec<Chunk>),
    Needs(DocPath),
}

impl View for PageResult {
    type V = PageOutcome;

    open spec fn view(&self) -> PageOutcome {
        match self {
            PageResult::Done(chunks) => PageOutcome::Done(passages(chunks@)),
            PageResult::Needs(path) => PageOutcome::Needs(path@),
        }
    }
}

/// What comes of the page in a file, as far as the contents of files are known.
pub fn page_chunks(
    path: &DocPath,
    docs_dir: &DocPath,
    base_urls: &BaseUrls,
    known: &Snapshot,
) -> (r: PageResult)
    ensures
        r@ == page_outcome(path@, docs_dir@, base_urls@, known@),
        r matches PageResult::Done(chunks) ==> is_bounded(passages(chunks@)),
{
    match known.lookup(path) {
        Known::Unknown => PageResult::Needs(path.copy()),
        Known::Unreadable => {
            let none: Vec<Chunk> = Vec::new();
            assert(passages(none@) =~= Seq::<Passage>::empty());
            PageResult::Done(none)
        },
        Known::Text(raw) => match includes::expand_includes(raw, path, known) {
            Expansion::Needs(file) => PageResult::Needs(file),
            Expansion::Done(page) => {
                let plain: String = markdown::markdown_to_plain_text(page.as_str());
                let source: String = match page_urls::file_path_to_url(path, docs_dir, base_urls) {
                    Some(url) => url,
                    None => path.display(),
                };
                PageResult::Done(chunks_of_text(source.as_str(), plain.as_str()))
            },
        },
    }
}

/// How far the pages of the repositories have been turned into chunks.
pub struct ChunkLoader {
    docs_dir: DocPath,
    base_urls: BaseUrls,
    files: Vec<DocPath>,
    next: usize,
    known: Snapshot,
    chunks: Vec<Chunk>,
}

/// A [`ChunkLoader`] as a mathematical value: what it was made with, the number
/// of files that are done, what is known of the files that the current page
/// depends on, and the chunks so far.
pub struct LoaderState {
    pub docs_dir: Seq<u8>,
    pub urls: Map<Seq<char>, Seq<char>>,
    pub files: Seq<Seq<u8>>,
    pub next: nat,
    pub known: Map<Seq<u8>, Option<Seq<char>>>,
    pub chunks: Seq<Passage>,
}

impl View for ChunkLoader {
    type V = LoaderState;

    closed spec fn view(&self) -> LoaderState {
        LoaderState {
            docs_dir: self.docs_dir@,
            urls: self.base_urls@,
            files: walk::path_views(self.files@),
            next: self.next as nat,
            known: self.known@,
            chunks: passages(self.chunks@),
        }
    }
}

/// A state in which the current page is done, with the given chunks.
pub open spec fn page_done(s: LoaderState, chunks: Seq<Passage>) -> LoaderState {
    LoaderState { next: s.next + 1, known: Map::empty(), chunks: s.chunks + chunks, ..s }
}

/// The state after doing as many pages as can be done with what is known, and
/// the file that has to be read next, if any.
pub open spec fn settle(s: LoaderState) -> (LoaderState, Option<Seq<u8>>)
    decreases s.files.len() - s.next,
{
    if s.next >= s.files.len() {
        (s, None)
    } else {
        match page_outcome(s.files[s.next as int], s.docs_dir, s.urls, s.known) {
            PageOutcome::Needs(p) => (s, Some(p)),
            PageOutcome::Done(chunks) => settle(page_done(s, chunks)),
        }
    }
}

impl ChunkLoader {
    /// A loader for the given pages, which it takes in the order of their
    /// paths.
    pub fn new(docs_dir: DocPath, base_urls: BaseUrls, md_files: &Vec<DocPath>) -> (r: ChunkLoader)
        ensures
            r@ == (LoaderState {
                docs_dir: docs_dir@,
                urls: base_urls@,
                files: path_order::sorted(walk::path_views(md_files@)),
                next: 0,
                known: Map::empty(),
                chunks: Seq::empty(),
            }),
            is_bounded(r@.chunks),
    {
        let files: Vec<DocPath> = path_order::sort_paths(md_files);
        let chunks: Vec<Chunk> = Vec::new();
        assert(passages(chunks@) =~= Seq::<Passage>::empty());
        ChunkLoader { docs_dir, base_urls, files, next: 0, known: Snapshot::new(), chunks }
    }

    /// Does as many pages as can be done, and returns the file that has to be
    /// read next, if any.
    pub fn poll(&mut self) -> (r: Option<DocPath>)
        ensures
            final(self)@ == settle(old(self)@).0,
            includes::path_view(r) == settle(old(self)@).1,
            is_bounded(old(self)@.chunks) ==> is_bounded(final(self)@.chunks),
    {
        let ghost start = self@;
        while self.next < self.files.len()
            invariant
                settle(self@) == settle(start),
                is_bounded(start.chunks) ==> is_bounded(self@.chunks),
                start == old(self)@,
            decreases self.files@.len() - self.next,
        {
            let ghost before = self@;
            assert(before.files[before.next as int] == self.files@[self.next as int]@);
            match page_chunks(
                &self.files[self.next],
                &self.docs_dir,
                &self.base_urls,
                &self.known,
            ) {
                PageResult::Needs(file) => {
                    return Some(file);
                },
                PageResult::Done(mut more) => {
                    let ghost added = passages(more@);
                    self.chunks.append(&mut more);
                    self.next = self.next + 1;
                    self.known = Snapshot::new();
                    assert(self@.chunks =~= before.chunks + added);
                    assert(self@ == page_done(before, added));
                    assert(is_bounded(before.chunks) ==> is_bounded(self@.chunks));
                },
            }
        }
        None
    }

    /// Records what reading a file gave: its text, or `None` if it failed.
    pub fn file_read(&mut self, path: DocPath, reply: Option<String>)
        ensures
            final(self)@ == (LoaderState {
                known: old(self)@.known.insert(path@, snapshot::reply_view(reply)),
                ..old(self)@
            }),
    {
        self.known.record(path, reply);
    }

    /// The chunks.
    pub fn into_chunks(self) -> (r: Vec<Chunk>)
        ensures
            passages(r@) == self@.chunks,
    {
        self.chunks
    }
}

} // verus!

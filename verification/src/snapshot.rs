//! What is known so far about the contents of files.

use crate::paths::DocPath;
use vstd::prelude::*;

verus! {

/// The contents of the files that were read, and which files could not be.
pub struct Snapshot {
    entries: Vec<(DocPath, Option<String>)>,
}

/// What a snapshot says of one file.
pub enum Known<'a> {
    /// Nothing: the file was not asked for.
    Unknown,
    /// The file could not be read.
    Unreadable,
    /// The file's text.
    Text(&'a str),
}

/// The outcome of reading a file, as a mathematical value.
pub open spec fn reply_view(reply: Option<String>) -> Option<Seq<char>> {
    match reply {
        Some(s) => Some(s@),
        None => None,
    }
}

/// The replies of a list of them by path; a later one replaces an earlier one.
pub open spec fn replies(entries: Seq<(DocPath, Option<String>)>) -> Map<
    Seq<u8>,
    Option<Seq<char>>,
>
    decreases entries.len(),
{
    if entries.len() == 0 {
        Map::empty()
    } else {
        replies(entries.drop_last()).insert(entries.last().0@, reply_view(entries.last().1))
    }
}

impl View for Snapshot {
    type V = Map<Seq<u8>, Option<Seq<char>>>;

    closed spec fn view(&self) -> Map<Seq<u8>, Option<Seq<char>>> {
        replies(self.entries@)
    }
}

impl Snapshot {
    /// A snapshot that knows of no file.
    pub fn new() -> (r: Snapshot)
        ensures
            r@ == Map::<Seq<u8>, Option<Seq<char>>>::empty(),
    {
        Snapshot { entries: Vec::new() }
    }

    /// Records what reading a file gave: its text, or `None` if it failed.
    pub fn record(&mut self, path: DocPath, reply: Option<String>)
        ensures
            final(self)@ == old(self)@.insert(path@, reply_view(reply)),
    {
        let ghost before = self.entries@;
        self.entries.push((path, reply));
        assert(self.entries@.drop_last() =~= before);
    }

    /// What is known of a file.
    pub fn lookup(&self, path: &DocPath) -> (r: Known<'_>)
        ensures
            match r {
                Known::Unknown => !self@.dom().contains(path@),
                Known::Unreadable => self@.dom().contains(path@) && self@[path@] is None,
                Known::Text(s) => self@.dom().contains(path@) && self@[path@] == Some(s@),
            },
    {
        let mut n: usize = self.entries.len();
        assert(self.entries@.take(n as int) =~= self.entries@);
        while n > 0
            invariant
                n <= self.entries@.len(),
                self@.dom().contains(path@) == replies(
                    self.entries@.take(n as int),
                ).dom().contains(path@),
                self@.dom().contains(path@) ==> self@[path@] == replies(
                    self.entries@.take(n as int),
                )[path@],
            decreases n,
        {
            let ghost front = self.entries@.take(n as int);
            assert(front.drop_last() =~= self.entries@.take(n - 1));
            assert(front.last() == self.entries@[n - 1]);
            if self.entries[n - 1].0.same(path) {
                return match &self.entries[n - 1].1 {
                    Some(s) => Known::Text(s.as_str()),
                    None => Known::Unreadable,
                };
            }
            n = n - 1;
        }
        Known::Unknown
    }
}

} // verus!

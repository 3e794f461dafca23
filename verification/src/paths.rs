//! File paths as the bytes that the operating system knows them by.
//!
//! A path is cut at its slashes. Empty segments and `.` segments are skipped,
//! except that a leading `/` and a leading `.` count as components.

use crate::text;
use vstd::prelude::*;
use vstd::slice::slice_subrange;
use vstd::utf8::*;

verus! {

/// The byte that separates the segments of a path.
pub const SLASH: u8 = 0x2f;

/// The byte of a full stop.
pub const DOT: u8 = 0x2e;

/// A path to a file or a directory.
pub struct DocPath {
    pub bytes: Vec<u8>,
}

impl View for DocPath {
    type V = Seq<u8>;

    open spec fn view(&self) -> Seq<u8> {
        self.bytes@
    }
}

/// The test for a byte other than a slash.
pub open spec fn not_slash() -> spec_fn(u8) -> bool {
    |b: u8| b != SLASH
}

/// Where the segment of `p` that starts at `i` ends.
pub open spec fn segment_end(p: Seq<u8>, i: int) -> int {
    i + text::front_run(p.skip(i), not_slash())
}

/// Whether a segment is no component of its own.
pub open spec fn is_skipped(segment: Seq<u8>) -> bool {
    segment.len() == 0 || segment == seq![DOT]
}

/// The segments of `p` from position `i` on that are components, each with
/// where it starts and where it ends.
pub open spec fn body_spans(p: Seq<u8>, i: int) -> Seq<(int, int)>
    decreases p.len() + 1 - i,
{
    if i < 0 || i >= p.len() {
        Seq::empty()
    } else {
        proof {
            text::lemma_front_run(p.skip(i), not_slash(), 0);
        }
        let e = segment_end(p, i);
        let rest = body_spans(p, e + 1);
        if is_skipped(p.subrange(i, e)) {
            rest
        } else {
            seq![(i, e)] + rest
        }
    }
}

/// Whether a path starts at the root of the file system.
pub open spec fn is_absolute(p: Seq<u8>) -> bool {
    p.len() > 0 && p[0] == SLASH
}

/// Whether the first segment of a path is a single full stop.
pub open spec fn starts_at_dot(p: Seq<u8>) -> bool {
    p.len() > 0 && p[0] == DOT && (p.len() > 1 ==> p[1] == SLASH)
}

/// Where the components of a path start and end.
pub open spec fn spans(p: Seq<u8>) -> Seq<(int, int)> {
    if is_absolute(p) || starts_at_dot(p) {
        seq![(0int, 1int)] + body_spans(p, 0)
    } else {
        body_spans(p, 0)
    }
}

/// The component of `p` at a span.
pub open spec fn component_at(p: Seq<u8>, span: (int, int)) -> Seq<u8> {
    p.subrange(span.0, span.1)
}

/// The components of a path.
pub open spec fn components(p: Seq<u8>) -> Seq<Seq<u8>> {
    Seq::new(spans(p).len(), |k: int| component_at(p, spans(p)[k]))
}

/// Whether a component names an entry of a directory.
pub open spec fn is_name(component: Seq<u8>) -> bool {
    &&& component != seq![SLASH]
    &&& component != seq![DOT]
    &&& component != seq![DOT, DOT]
}

/// The last component of a path, if it names an entry of a directory.
pub open spec fn file_name(p: Seq<u8>) -> Option<Seq<u8>> {
    if components(p).len() > 0 && is_name(components(p).last()) {
        Some(components(p).last())
    } else {
        None
    }
}

/// The path up to its last component, if it has one other than the root.
pub open spec fn parent(p: Seq<u8>) -> Option<Seq<u8>> {
    let n = spans(p).len();
    if n == 0 || components(p).last() == seq![SLASH] {
        None
    } else if n == 1 {
        Some(Seq::empty())
    } else {
        Some(p.take(spans(p)[n - 2].1))
    }
}

/// The path `rel` as seen from `base`: an absolute path stands for itself.
pub open spec fn join_paths(base: Seq<u8>, rel: Seq<u8>) -> Seq<u8> {
    if is_absolute(rel) {
        rel
    } else if base.len() == 0 || base.last() == SLASH {
        base + rel
    } else {
        base.push(SLASH) + rel
    }
}

/// What is left of the components of `p` after those of `base`.
pub open spec fn components_below(p: Seq<u8>, base: Seq<u8>) -> Option<Seq<Seq<u8>>> {
    if components(base).is_prefix_of(components(p)) {
        Some(components(p).skip(components(base).len() as int))
    } else {
        None
    }
}

/// Spans as mathematical integers.
pub open spec fn span_view(v: Seq<(usize, usize)>) -> Seq<(int, int)> {
    v.map_values(|s: (usize, usize)| (s.0 as int, s.1 as int))
}

/// The end of a segment is within the path, and a slash stands there or the
/// path ends.
pub proof fn lemma_segment_end(p: Seq<u8>, i: int, e: int)
    requires
        0 <= i <= p.len(),
    ensures
        i <= segment_end(p, i) <= p.len(),
        forall|k: int| i <= k < segment_end(p, i) ==> #[trigger] p[k] != SLASH,
        segment_end(p, i) < p.len() ==> p[segment_end(p, i)] == SLASH,
        (i <= e <= p.len() && (forall|k: int| i <= k < e ==> #[trigger] p[k] != SLASH) && (e
            < p.len() ==> p[e] == SLASH)) ==> e == segment_end(p, i),
{
    let q = p.skip(i);
    let f = not_slash();
    text::lemma_front_run(q, f, e - i);
    let n = text::front_run(q, f) as int;
    assert forall|k: int| i <= k < i + n implies #[trigger] p[k] != SLASH by {
        assert(f(q[k - i]));
    }
    if i + n < p.len() {
        assert(!f(q[n]));
    }
    if i <= e <= p.len() && (forall|k: int| i <= k < e ==> #[trigger] p[k] != SLASH) && (e < p.len()
        ==> p[e] == SLASH) {
        assert forall|k: int| 0 <= k < e - i implies f(#[trigger] q[k]) by {
            assert(q[k] == p[i + k]);
        }
        if e < p.len() {
            assert(q[e - i] == p[e]);
        }
    }
}

/// The spans from `i` on lie within the path, in order, and are no empty ones.
pub proof fn lemma_body_spans(p: Seq<u8>, i: int)
    requires
        0 <= i,
    ensures
        forall|k: int|
            0 <= k < body_spans(p, i).len() ==> i <= (#[trigger] body_spans(p, i)[k]).0
                < body_spans(p, i)[k].1 <= p.len(),
        forall|j: int, k: int|
            0 <= j < k < body_spans(p, i).len() ==> (#[trigger] body_spans(p, i)[j]).1 < (
            #[trigger] body_spans(p, i)[k]).0,
    decreases p.len() + 1 - i,
{
    if i < p.len() {
        lemma_segment_end(p, i, i);
        let e = segment_end(p, i);
        let rest = body_spans(p, e + 1);
        lemma_body_spans(p, e + 1);
        if !is_skipped(p.subrange(i, e)) {
            assert(body_spans(p, i) == seq![(i, e)] + rest);
            assert(forall|k: int|
                0 < k < body_spans(p, i).len() ==> #[trigger] body_spans(p, i)[k] == rest[k - 1]);
        }
    }
}

/// The spans of a path lie within it, in order, and are no empty ones.
pub proof fn lemma_spans(p: Seq<u8>)
    ensures
        forall|k: int|
            0 <= k < spans(p).len() ==> 0 <= (#[trigger] spans(p)[k]).0 < spans(p)[k].1 <= p.len(),
        forall|j: int, k: int|
            0 <= j < k < spans(p).len() ==> (#[trigger] spans(p)[j]).1 <= (#[trigger] spans(p)[k]).0,
{
    lemma_body_spans(p, 0);
    if is_absolute(p) || starts_at_dot(p) {
        lemma_segment_end(p, 0, 0);
        lemma_segment_end(p, 0, 1);
        let e = segment_end(p, 0);
        if is_absolute(p) {
            assert(e == 0);
            assert(p.subrange(0, e) =~= Seq::<u8>::empty());
        } else {
            assert(e == 1);
            assert(p.subrange(0, e) =~= seq![DOT]);
        }
        assert(is_skipped(p.subrange(0, e)));
        assert(body_spans(p, 0) == body_spans(p, e + 1));
        lemma_body_spans(p, e + 1);
    }
}

/// The text of some bytes, if they are UTF-8. It calls
/// [`std::str::from_utf8`], of which it says that it succeeds on exactly the
/// well-formed encodings and gives the characters that they encode.
#[verifier::external_body]
pub(crate) fn utf8_text(bytes: &[u8]) -> (r: Option<&str>)
    ensures
        r is Some <==> valid_utf8(bytes@),
        r matches Some(s) ==> s@ == decode_utf8(bytes@),
{
    std::str::from_utf8(bytes).ok()
}

/// The characters that [`String::from_utf8_lossy`] makes of some bytes.
pub uninterp spec fn lossy_text(bytes: Seq<u8>) -> Seq<char>;

/// The text of some bytes with each ill-formed part replaced. It calls
/// [`String::from_utf8_lossy`], of which it says that the result depends on the
/// bytes alone, and that a well-formed encoding gives the characters it encodes.
#[verifier::external_body]
pub(crate) fn replacing_text(bytes: &[u8]) -> (r: String)
    ensures
        r@ == lossy_text(bytes@),
        valid_utf8(bytes@) ==> r@ == decode_utf8(bytes@),
{
    String::from_utf8_lossy(bytes).into_owned()
}

/// Whether two byte strings are the same.
pub fn same_bytes(a: &[u8], b: &[u8]) -> (r: bool)
    ensures
        r == (a@ == b@),
{
    if a.len() != b.len() {
        return false;
    }
    for i in 0..a.len()
        invariant
            a@.len() == b@.len(),
            forall|k: int| 0 <= k < i ==> #[trigger] a@[k] == b@[k],
    {
        if a[i] != b[i] {
            return false;
        }
    }
    assert(a@ =~= b@);
    true
}

/// A copy of some bytes.
pub fn copy_bytes(s: &[u8]) -> (r: Vec<u8>)
    ensures
        r@ == s@,
{
    let mut out: Vec<u8> = Vec::new();
    push_bytes(&mut out, s);
    assert(out@ =~= s@);
    out
}

/// Appends some bytes.
pub fn push_bytes(out: &mut Vec<u8>, s: &[u8])
    ensures
        final(out)@ == old(out)@ + s@,
{
    let ghost before = out@;
    for i in 0..s.len()
        invariant
            out@ == before + s@.take(i as int),
    {
        out.push(s[i]);
        assert(s@.take(i + 1) =~= s@.take(i as int).push(s@[i as int]));
    }
    assert(s@.take(s@.len() as int) =~= s@);
}

/// Where the components of a path start and end.
pub fn spans_of(p: &[u8]) -> (r: Vec<(usize, usize)>)
    ensures
        span_view(r@) == spans(p@),
{
    let n: usize = p.len();
    let mut out: Vec<(usize, usize)> = Vec::new();
    if n > 0 && (p[0] == SLASH || (p[0] == DOT && (n == 1 || p[1] == SLASH))) {
        out.push((0, 1));
        assert(span_view(out@) =~= seq![(0int, 1int)]);
    }
    let ghost front = span_view(out@);
    assert(front + body_spans(p@, 0) =~= spans(p@));
    let mut start: usize = 0;
    while start < n
        invariant
            n == p@.len(),
            start <= n,
            span_view(out@) + body_spans(p@, start as int) == spans(p@),
        decreases n - start,
    {
        let mut end: usize = start;
        while end < n && p[end] != SLASH
            invariant
                n == p@.len(),
                start <= end <= n,
                forall|k: int| start <= k < end ==> #[trigger] p@[k] != SLASH,
            decreases n - end,
        {
            end = end + 1;
        }
        proof {
            lemma_segment_end(p@, start as int, end as int);
        }
        let ghost segment = p@.subrange(start as int, end as int);
        let ghost before = out@;
        if end == start || (end == start + 1 && p[start] == DOT) {
            assert(end == start + 1 ==> segment =~= seq![DOT]);
            assert(is_skipped(segment));
        } else {
            assert(segment.len() == end - start);
            assert(end == start + 1 ==> segment[0] != DOT);
            assert(!is_skipped(segment));
            out.push((start, end));
            assert(span_view(out@) =~= span_view(before) + seq![(start as int, end as int)]);
        }
        if end == n {
            start = n;
        } else {
            start = end + 1;
        }
        assert(body_spans(p@, end + 1) =~= body_spans(p@, start as int));
        assert(span_view(out@) + body_spans(p@, start as int) =~= spans(p@));
    }
    assert(span_view(out@) =~= spans(p@));
    out
}

impl DocPath {
    /// A path of the given bytes.
    pub fn from_bytes(bytes: Vec<u8>) -> (r: DocPath)
        ensures
            r@ == bytes@,
    {
        DocPath { bytes }
    }

    /// A path of the given text.
    pub fn from_text(text: &str) -> (r: DocPath)
        ensures
            r@ == encode_utf8(text@),
    {
        DocPath { bytes: copy_bytes(text.as_bytes()) }
    }

    /// A copy of the path.
    pub fn copy(&self) -> (r: DocPath)
        ensures
            r@ == self@,
    {
        DocPath { bytes: copy_bytes(self.bytes.as_slice()) }
    }

    /// Whether two paths are the same bytes.
    pub fn same(&self, other: &DocPath) -> (r: bool)
        ensures
            r == (self@ == other@),
    {
        same_bytes(self.bytes.as_slice(), other.bytes.as_slice())
    }

    /// The path as text, with each ill-formed part replaced.
    pub fn display(&self) -> (r: String)
        ensures
            r@ == lossy_text(self@),
            valid_utf8(self@) ==> r@ == decode_utf8(self@),
    {
        replacing_text(self.bytes.as_slice())
    }

    /// The components of the path.
    pub fn component_list(&self) -> (r: Vec<Vec<u8>>)
        ensures
            byte_views(r@) == components(self@),
    {
        let p = self.bytes.as_slice();
        let found: Vec<(usize, usize)> = spans_of(p);
        let mut out: Vec<Vec<u8>> = Vec::new();
        proof {
            lemma_spans(p@);
        }
        for k in 0..found.len()
            invariant
                p@ == self@,
                span_view(found@) == spans(p@),
                forall|j: int|
                    0 <= j < spans(p@).len() ==> 0 <= (#[trigger] spans(p@)[j]).0 < spans(p@)[j].1
                        <= p@.len(),
                byte_views(out@) == components(p@).take(k as int),
        {
            assert(span_view(found@)[k as int] == (found[k as int].0 as int, found[
                k as int
            ].1 as int));
            let ghost before = out@;
            let piece = copy_bytes(slice_subrange(p, found[k].0, found[k].1));
            out.push(piece);
            assert(byte_views(out@) =~= byte_views(before).push(piece@));
            assert(components(p@).take(k + 1) =~= components(p@).take(k as int).push(
                components(p@)[k as int],
            ));
        }
        assert(components(p@).take(found@.len() as int) =~= components(p@));
        out
    }

    /// The last component, if it names an entry of a directory.
    pub fn file_name_of(&self) -> (r: Option<Vec<u8>>)
        ensures
            file_name(self@) == (match r {
                Some(name) => Some(name@),
                None => None,
            }),
    {
        let parts: Vec<Vec<u8>> = self.component_list();
        let ghost views = byte_views(parts@);
        if parts.len() == 0 {
            return None;
        }
        let last = parts[parts.len() - 1].as_slice();
        assert(views.last() == last@);
        proof {
            assert(last@.len() == 1 ==> last@ =~= seq![last@[0]]);
            assert(last@.len() == 2 ==> last@ =~= seq![last@[0], last@[1]]);
            assert(seq![SLASH][0] == SLASH);
            assert(seq![DOT][0] == DOT);
            assert(seq![DOT, DOT][0] == DOT);
            assert(seq![DOT, DOT][1] == DOT);
            assert(is_name(last@) <==> !((last@.len() == 1 && (last@[0] == SLASH || last@[0]
                == DOT)) || (last@.len() == 2 && last@[0] == DOT && last@[1] == DOT)));
        }
        if (last.len() == 1 && (last[0] == SLASH || last[0] == DOT)) || (last.len() == 2 && last[0]
            == DOT && last[1] == DOT) {
            None
        } else {
            Some(copy_bytes(last))
        }
    }

    /// The path up to its last component.
    pub fn parent_of(&self) -> (r: Option<DocPath>)
        ensures
            parent(self@) == (match r {
                Some(q) => Some(q@),
                None => None,
            }),
    {
        let p = self.bytes.as_slice();
        let found: Vec<(usize, usize)> = spans_of(p);
        let n: usize = found.len();
        proof {
            lemma_spans(p@);
        }
        if n == 0 {
            return None;
        }
        assert(span_view(found@)[n - 1] == (found[n - 1].0 as int, found[n - 1].1 as int));
        let ghost last = components(p@).last();
        assert(last == p@.subrange(found[n - 1].0 as int, found[n - 1].1 as int));
        proof {
            assert(last.len() == 1 ==> last =~= seq![last[0]]);
            assert(seq![SLASH][0] == SLASH);
        }
        if found[n - 1].1 - found[n - 1].0 == 1 && p[found[n - 1].0] == SLASH {
            return None;
        }
        if n == 1 {
            return Some(DocPath { bytes: Vec::new() });
        }
        assert(span_view(found@)[n - 2] == (found[n - 2].0 as int, found[n - 2].1 as int));
        let q = copy_bytes(slice_subrange(p, 0, found[n - 2].1));
        assert(q@ =~= p@.take(found[n - 2].1 as int));
        Some(DocPath { bytes: q })
    }

    /// The path `rel` as seen from this one.
    pub fn join(&self, rel: &[u8]) -> (r: DocPath)
        ensures
            r@ == join_paths(self@, rel@),
    {
        let mut out: Vec<u8> = Vec::new();
        let n: usize = self.bytes.len();
        if !(rel.len() > 0 && rel[0] == SLASH) {
            push_bytes(&mut out, self.bytes.as_slice());
            if n > 0 && self.bytes[n - 1] != SLASH {
                out.push(SLASH);
            }
        }
        let ghost front = out@;
        push_bytes(&mut out, rel);
        assert(out@ =~= join_paths(self@, rel@));
        DocPath { bytes: out }
    }
}

/// The views of a list of byte strings.
pub open spec fn byte_views(v: Seq<Vec<u8>>) -> Seq<Seq<u8>> {
    v.map_values(|b: Vec<u8>| b@)
}

} // verus!

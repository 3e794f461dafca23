//! What holds of every path.

use crate::includes;
use crate::output;
use crate::paths;
use crate::text;
use vstd::prelude::*;
use vstd::utf8::*;

verus! {

/// The end of the segment at `i` does not change when the path is cut at or
/// after that end.
proof fn lemma_segment_end_of_prefix(p: Seq<u8>, i: int, n: int)
    requires
        0 <= i <= paths::segment_end(p, i) <= n <= p.len(),
    ensures
        paths::segment_end(p.take(n), i) == paths::segment_end(p, i),
{
    paths::lemma_segment_end(p, i, i);
    let e = paths::segment_end(p, i);
    let q = p.take(n);
    assert forall|k: int| i <= k < e implies #[trigger] q[k] != paths::SLASH by {
        assert(q[k] == p[k]);
    }
    if e < q.len() {
        assert(q[e] == p[e]);
    }
    paths::lemma_segment_end(q, i, e);
}

/// A path cut at the end of one of its components keeps the components up to
/// there.
proof fn lemma_body_spans_of_prefix(p: Seq<u8>, i: int, k: int)
    requires
        0 <= i,
        0 <= k < paths::body_spans(p, i).len(),
    ensures
        paths::body_spans(p.take(paths::body_spans(p, i)[k].1), i) == paths::body_spans(p, i).take(
            k + 1,
        ),
    decreases p.len() + 1 - i,
{
    let all = paths::body_spans(p, i);
    let n = all[k].1;
    let q = p.take(n);
    paths::lemma_body_spans(p, i);
    paths::lemma_segment_end(p, i, i);
    let e = paths::segment_end(p, i);
    let rest = paths::body_spans(p, e + 1);
    paths::lemma_body_spans(p, e + 1);
    if paths::is_skipped(p.subrange(i, e)) {
        assert(rest[k] == all[k]);
        lemma_segment_end_of_prefix(p, i, n);
        assert(q.subrange(i, e) =~= p.subrange(i, e));
        lemma_body_spans_of_prefix(p, e + 1, k);
    } else {
        assert(all == seq![(i, e)] + rest);
        if k == 0 {
            assert(n == e);
            lemma_segment_end_of_prefix(p, i, n);
            assert(q.subrange(i, e) =~= p.subrange(i, e));
            assert(paths::body_spans(q, e + 1) =~= Seq::<(int, int)>::empty());
            assert(all.take(1) =~= seq![(i, e)]);
            assert(paths::body_spans(q, i) =~= seq![(i, e)]);
        } else {
            assert(rest[k - 1] == all[k]);
            lemma_segment_end_of_prefix(p, i, n);
            assert(q.subrange(i, e) =~= p.subrange(i, e));
            lemma_body_spans_of_prefix(p, e + 1, k - 1);
            assert(all.take(k + 1) =~= seq![(i, e)] + rest.take(k));
        }
    }
}

/// A path cut at the end of one of its components keeps the components up to
/// there.
pub proof fn law_prefix_components(p: Seq<u8>, k: int)
    requires
        0 <= k < paths::spans(p).len(),
    ensures
        paths::spans(p.take(paths::spans(p)[k].1)) == paths::spans(p).take(k + 1),
        paths::components(p.take(paths::spans(p)[k].1)) == paths::components(p).take(k + 1),
{
    let all = paths::spans(p);
    let body = paths::body_spans(p, 0);
    let n = all[k].1;
    let q = p.take(n);
    paths::lemma_spans(p);
    let rooted = paths::is_absolute(p) || paths::starts_at_dot(p);
    assert(q[0] == p[0]);
    if rooted {
        assert(all == seq![(0int, 1int)] + body);
        if k == 0 {
            assert(n == 1);
            paths::lemma_segment_end(q, 0, 0);
            paths::lemma_segment_end(q, 0, 1);
            let e = paths::segment_end(q, 0);
            assert(q.subrange(0, e) =~= Seq::<u8>::empty() || q.subrange(0, e) =~= seq![
                paths::DOT,
            ]);
            assert(paths::body_spans(q, 0) =~= Seq::<(int, int)>::empty()) by {
                assert(paths::body_spans(q, e + 1) =~= Seq::<(int, int)>::empty());
            }
        } else {
            assert(body[k - 1] == all[k]);
            lemma_body_spans_of_prefix(p, 0, k - 1);
            assert(all.take(k + 1) =~= seq![(0int, 1int)] + body.take(k));
            assert(n > 1);
            assert(q[1] == p[1]);
        }
        assert(paths::is_absolute(q) || paths::starts_at_dot(q));
    } else {
        lemma_body_spans_of_prefix(p, 0, k);
        if q.len() > 1 {
            assert(q[1] == p[1]);
        } else if p[0] == paths::DOT {
            // A first segment that is longer than the full stop does not end after it.
            paths::lemma_segment_end(p, 0, 1);
            let e = paths::segment_end(p, 0);
            paths::lemma_body_spans(p, e + 1);
            assert(e > 1);
            assert(!paths::is_skipped(p.subrange(0, e)));
            assert(body[0] == (0int, e));
            if k > 0 {
                assert(all[0].1 <= all[k].0);
            }
        }
        assert(!paths::is_absolute(q) && !paths::starts_at_dot(q));
    }
    assert(paths::spans(q) =~= all.take(k + 1));
    assert forall|j: int| 0 <= j < k + 1 implies #[trigger] paths::components(q)[j]
        == paths::components(p)[j] by {
        assert(paths::spans(q)[j] == all[j]);
        if j < k {
            assert(all[j].1 <= all[k].0);
        }
        assert(q.subrange(all[j].0, all[j].1) =~= p.subrange(all[j].0, all[j].1));
    }
    assert(paths::components(q) =~= paths::components(p).take(k + 1));
}

/// The parent of a path has the same components without the last.
pub proof fn law_parent_components(p: Seq<u8>)
    ensures
        paths::parent(p) matches Some(q) ==> paths::components(q) == paths::components(
            p,
        ).drop_last() && q.is_prefix_of(p),
{
    let n = paths::spans(p).len();
    if paths::parent(p) is Some {
        paths::lemma_spans(p);
        if n == 1 {
            assert(paths::components(Seq::<u8>::empty()) =~= paths::components(p).drop_last());
            assert(Seq::<u8>::empty() =~= p.subrange(0, 0));
        } else {
            law_prefix_components(p, n - 2);
            assert(paths::components(p).take(n - 1) =~= paths::components(p).drop_last());
            let e = paths::spans(p)[n - 2].1;
            assert(p.take(e) =~= p.subrange(0, e));
        }
    }
}

/// The documentation root of a file is the file's path or a path above it, is
/// itself named `docs`, and nothing between the two is.
pub proof fn law_docs_root(p: Seq<u8>)
    ensures
        includes::docs_root(p) is None ==> !paths::components(p).contains(includes::docs_name()),
        includes::docs_root(p) matches Some(root) ==> {
            let n = paths::components(root).len();
            &&& root.is_prefix_of(p)
            &&& n > 0
            &&& paths::components(root) == paths::components(p).take(n as int)
            &&& paths::components(root).last() == includes::docs_name()
            &&& forall|k: int|
                n <= k < paths::components(p).len() ==> #[trigger] paths::components(p)[k]
                    != includes::docs_name()
            &&& root == p || includes::docs_name().is_suffix_of(root)
        },
{
    let all = paths::components(p);
    lemma_last_position(all, includes::docs_name());
    match includes::last_position(all, includes::docs_name()) {
        None => {},
        Some(k) => {
            paths::lemma_spans(p);
            if k == all.len() - 1 {
                assert(p =~= p.subrange(0, p.len() as int));
                assert(all.take(all.len() as int) =~= all);
            } else {
                law_prefix_components(p, k);
                let (b, e) = paths::spans(p)[k];
                assert(p.take(e) =~= p.subrange(0, e));
                assert(all[k] == p.subrange(b, e));
                assert(p.take(e).subrange(e - (e - b), e) =~= p.subrange(b, e));
            }
        },
    }
}

proof fn lemma_last_position(list: Seq<Seq<u8>>, name: Seq<u8>)
    ensures
        includes::last_position(list, name) is None ==> !list.contains(name),
        includes::last_position(list, name) matches Some(k) ==> 0 <= k < list.len() && list[k]
            == name && forall|j: int| k < j < list.len() ==> #[trigger] list[j] != name,
    decreases list.len(),
{
    if list.len() > 0 && list.last() != name {
        let front = list.drop_last();
        lemma_last_position(front, name);
        assert(forall|j: int| 0 <= j < front.len() ==> #[trigger] list[j] == front[j]);
        if list.contains(name) {
            let j = choose|j: int| 0 <= j < list.len() && list[j] == name;
            assert(front[j] == name);
        }
    }
}

/// Spans moved by a distance.
pub open spec fn shifted(spans: Seq<(int, int)>, by: int) -> Seq<(int, int)> {
    spans.map_values(|s: (int, int)| (s.0 + by, s.1 + by))
}

/// The spans of the end of a path are those of that end alone, moved.
proof fn lemma_body_spans_of_suffix(p: Seq<u8>, r: Seq<u8>, by: int, j: int)
    requires
        0 <= by <= p.len(),
        p.skip(by) == r,
        0 <= j,
    ensures
        paths::body_spans(p, by + j) == shifted(paths::body_spans(r, j), by),
    decreases r.len() + 1 - j,
{
    if j < r.len() {
        paths::lemma_segment_end(r, j, j);
        let e = paths::segment_end(r, j);
        assert forall|k: int| by + j <= k < by + e implies #[trigger] p[k] != paths::SLASH by {
            assert(r[k - by] == p[k]);
        }
        if by + e < p.len() {
            assert(r[e] == p[by + e]);
        }
        paths::lemma_segment_end(p, by + j, by + e);
        assert(p.subrange(by + j, by + e) =~= r.subrange(j, e));
        lemma_body_spans_of_suffix(p, r, by, e + 1);
        assert(by + e + 1 == by + (e + 1));
        assert(paths::body_spans(p, by + j) =~= shifted(paths::body_spans(r, j), by));
    } else {
        assert(paths::body_spans(p, by + j) =~= shifted(paths::body_spans(r, j), by));
    }
}

/// The spans of two paths with a slash between them.
proof fn lemma_body_spans_joined(b: Seq<u8>, r: Seq<u8>, i: int)
    requires
        0 <= i <= b.len(),
    ensures
        paths::body_spans(b.push(paths::SLASH) + r, i) == paths::body_spans(b, i) + shifted(
            paths::body_spans(r, 0),
            b.len() as int + 1,
        ),
    decreases b.len() - i,
{
    let p = b.push(paths::SLASH) + r;
    let m = b.len() as int;
    let tail = shifted(paths::body_spans(r, 0), m + 1);
    paths::lemma_segment_end(b, i, i);
    let e = paths::segment_end(b, i);
    assert forall|k: int| i <= k < e implies #[trigger] p[k] != paths::SLASH by {
        assert(p[k] == b[k]);
    }
    assert(p[e] == paths::SLASH) by {
        if e < m {
            assert(p[e] == b[e]);
        }
    }
    paths::lemma_segment_end(p, i, e);
    assert(p.subrange(i, e) =~= b.subrange(i, e));
    if e < m {
        lemma_body_spans_joined(b, r, e + 1);
    } else {
        assert(p.skip(m + 1) =~= r);
        lemma_body_spans_of_suffix(p, r, m + 1, 0);
        assert(paths::body_spans(b, e + 1) =~= Seq::<(int, int)>::empty());
    }
    if i == m {
        assert(paths::body_spans(b, i) =~= Seq::<(int, int)>::empty());
        assert(p.subrange(i, e) =~= Seq::<u8>::empty());
    }
    assert(paths::body_spans(p, i) =~= paths::body_spans(b, i) + tail);
}

/// A relative path seen from another has the components of the two, unless it
/// starts with a full stop for the current directory.
pub proof fn law_join_components(base: Seq<u8>, rel: Seq<u8>)
    requires
        !paths::is_absolute(rel),
        !paths::starts_at_dot(rel),
    ensures
        paths::components(paths::join_paths(base, rel)) == paths::components(base)
            + paths::components(rel),
        paths::components_below(paths::join_paths(base, rel), base) == Some(
            paths::components(rel),
        ),
{
    let p = paths::join_paths(base, rel);
    let (pc, bc, rc) = (paths::components(p), paths::components(base), paths::components(rel));
    if base.len() == 0 {
        assert(p =~= rel);
        assert(pc =~= bc + rc);
    } else {
        let ended = base.last() == paths::SLASH;
        let b = if ended {
            base.drop_last()
        } else {
            base
        };
        let by = b.len() as int + 1;
        assert(p =~= b.push(paths::SLASH) + rel);
        lemma_body_spans_joined(b, rel, 0);
        if ended {
            let none = Seq::<u8>::empty();
            lemma_body_spans_joined(b, none, 0);
            assert(base =~= b.push(paths::SLASH) + none);
            assert(paths::body_spans(none, 0) =~= Seq::<(int, int)>::empty());
            assert(paths::body_spans(base, 0) =~= paths::body_spans(b, 0));
        }
        assert(p[0] == base[0]);
        if base.len() > 1 {
            assert(p[1] == base[1]);
        }
        assert(paths::is_absolute(p) == paths::is_absolute(base));
        assert(paths::starts_at_dot(p) == paths::starts_at_dot(base));
        assert(paths::spans(p) =~= paths::spans(base) + shifted(paths::spans(rel), by));
        paths::lemma_spans(base);
        paths::lemma_spans(rel);
        let n = bc.len() as int;
        assert forall|k: int| 0 <= k < pc.len() implies #[trigger] pc[k] == (bc + rc)[k] by {
            if k < n {
                let s = paths::spans(base)[k];
                assert(paths::spans(p)[k] == s);
                assert(p.subrange(s.0, s.1) =~= base.subrange(s.0, s.1));
            } else {
                let s = paths::spans(rel)[k - n];
                assert(paths::spans(p)[k] == (s.0 + by, s.1 + by));
                assert(p.subrange(s.0 + by, s.1 + by) =~= rel.subrange(s.0, s.1));
            }
        }
        assert(pc =~= bc + rc);
    }
    assert(bc =~= pc.subrange(0, bc.len() as int));
    assert(pc.skip(bc.len() as int) =~= rc);
}

/// A name without a slash is a path of one component.
pub proof fn law_name_is_one_component(name: Seq<u8>)
    requires
        name.len() > 0,
        !name.contains(paths::SLASH),
    ensures
        paths::components(name) == seq![name],
{
    assert forall|k: int| 0 <= k < name.len() implies #[trigger] name[k] != paths::SLASH by {
        assert(name.contains(name[k]));
    }
    paths::lemma_segment_end(name, 0, name.len() as int);
    let n = name.len() as int;
    assert(name.subrange(0, n) =~= name);
    assert(paths::body_spans(name, n + 1) =~= Seq::<(int, int)>::empty());
    if name == seq![paths::DOT] {
        assert(paths::starts_at_dot(name));
        assert(paths::body_spans(name, 0) =~= Seq::<(int, int)>::empty());
        assert(paths::spans(name) =~= seq![(0int, 1int)]);
    } else {
        if paths::starts_at_dot(name) {
            assert(name.len() == 1);
            assert(name =~= seq![paths::DOT]);
        }
        assert(paths::body_spans(name, 0) =~= seq![(0int, n)]);
        assert(paths::spans(name) =~= seq![(0int, n)]);
    }
    assert(paths::components(name) =~= seq![name]);
}

/// The encoding of a character other than a slash holds no slash.
proof fn lemma_scalar_without_slash(c: char, i: int)
    requires
        c != '/',
        0 <= i < encode_scalar(c as u32).len(),
    ensures
        encode_scalar(c as u32)[i] != paths::SLASH,
{
    let n = c as u32;
    char_is_scalar(c);
    assert(n <= 0x7f ==> (n & 0x7f) as u8 == n) by (bit_vector);
    let x = ((n >> 6) & 0x1f) as u8;
    assert(0xc0u8 | x >= 0xc0u8) by (bit_vector);
    let y = ((n >> 12) & 0x0f) as u8;
    assert(0xe0u8 | y >= 0xe0u8) by (bit_vector);
    let z = ((n >> 18) & 0x7) as u8;
    assert(0xf0u8 | z >= 0xf0u8) by (bit_vector);
    let u = (n & 0x3f) as u8;
    assert(0x80u8 | u >= 0x80u8) by (bit_vector);
    let v = ((n >> 6) & 0x3f) as u8;
    assert(0x80u8 | v >= 0x80u8) by (bit_vector);
    let w = ((n >> 12) & 0x3f) as u8;
    assert(0x80u8 | w >= 0x80u8) by (bit_vector);
}

/// The encoding of a text that does not start with a slash does not either.
pub proof fn lemma_first_byte(s: Seq<char>)
    requires
        s.len() > 0,
        s[0] != '/',
    ensures
        encode_utf8(s).len() > 0,
        encode_utf8(s)[0] != paths::SLASH,
{
    char_is_scalar(s[0]);
    let first = encode_scalar(s[0] as u32);
    assert(encode_utf8(s) == first + encode_utf8(s.drop_first()));
    assert(first.len() > 0);
    lemma_scalar_without_slash(s[0], 0);
}

/// The encoding of a text without a slash holds no slash, and that of a text
/// that is not empty is not empty.
pub proof fn law_encoding_without_slash(s: Seq<char>)
    requires
        !s.contains('/'),
    ensures
        !encode_utf8(s).contains(paths::SLASH),
        s.len() > 0 ==> encode_utf8(s).len() > 0,
    decreases s.len(),
{
    if s.len() > 0 {
        let rest = s.drop_first();
        assert(s.contains(s[0]));
        assert forall|i: int| 0 <= i < rest.len() implies rest[i] != '/' by {
            assert(s.contains(s[i + 1]));
        }
        law_encoding_without_slash(rest);
        let first = encode_scalar(s[0] as u32);
        let bytes = encode_utf8(s);
        assert(bytes == first + encode_utf8(rest));
        assert forall|i: int| 0 <= i < bytes.len() implies bytes[i] != paths::SLASH by {
            if i < first.len() {
                lemma_scalar_without_slash(s[0], i);
            } else {
                assert(encode_utf8(rest).contains(encode_utf8(rest)[i - first.len()]));
            }
        }
    }
}

/// A component behind the first follows a slash, and no component but the root
/// holds one.
proof fn lemma_span_edges(p: Seq<u8>, i: int, k: int)
    requires
        0 <= i,
        0 <= k < paths::body_spans(p, i).len(),
    ensures
        paths::body_spans(p, i)[k].0 > i ==> p[paths::body_spans(p, i)[k].0 - 1] == paths::SLASH,
        forall|j: int|
            paths::body_spans(p, i)[k].0 <= j < paths::body_spans(p, i)[k].1 ==> #[trigger] p[j]
                != paths::SLASH,
    decreases p.len() + 1 - i,
{
    let all = paths::body_spans(p, i);
    paths::lemma_segment_end(p, i, i);
    let e = paths::segment_end(p, i);
    let rest = paths::body_spans(p, e + 1);
    paths::lemma_body_spans(p, e + 1);
    if paths::is_skipped(p.subrange(i, e)) {
        lemma_span_edges(p, e + 1, k);
    } else {
        assert(all == seq![(i, e)] + rest);
        if k > 0 {
            assert(all[k] == rest[k - 1]);
            lemma_span_edges(p, e + 1, k - 1);
        }
    }
}

/// A path cut at the start of one of its components keeps the components before
/// that one.
proof fn lemma_body_spans_before(p: Seq<u8>, i: int, k: int)
    requires
        0 <= i,
        0 <= k < paths::body_spans(p, i).len(),
    ensures
        paths::body_spans(p.take(paths::body_spans(p, i)[k].0), i) == paths::body_spans(p, i).take(
            k,
        ),
    decreases p.len() + 1 - i,
{
    let all = paths::body_spans(p, i);
    let n = all[k].0;
    let q = p.take(n);
    paths::lemma_body_spans(p, i);
    paths::lemma_segment_end(p, i, i);
    let e = paths::segment_end(p, i);
    let rest = paths::body_spans(p, e + 1);
    paths::lemma_body_spans(p, e + 1);
    if paths::is_skipped(p.subrange(i, e)) {
        assert(rest[k] == all[k]);
        lemma_segment_end_of_prefix(p, i, n);
        assert(q.subrange(i, e) =~= p.subrange(i, e));
        lemma_body_spans_before(p, e + 1, k);
    } else {
        assert(all == seq![(i, e)] + rest);
        if k == 0 {
            assert(paths::body_spans(q, i) =~= all.take(0));
        } else {
            assert(rest[k - 1] == all[k]);
            lemma_segment_end_of_prefix(p, i, n);
            assert(q.subrange(i, e) =~= p.subrange(i, e));
            lemma_body_spans_before(p, e + 1, k - 1);
            assert(paths::body_spans(q, i) =~= all.take(k));
        }
    }
}

/// A path with another extension differs from it in its last component alone,
/// which has the new extension behind the stem of the old one.
pub proof fn law_extension_components(p: Seq<u8>, extension: Seq<u8>)
    requires
        paths::file_name(p) is Some,
        !extension.contains(paths::SLASH),
    ensures
        ({
            let name = paths::file_name(p)->0;
            paths::components(output::with_extension(p, extension)) == paths::components(
                p,
            ).drop_last().push(name.take(output::stem_length(name)).push(paths::DOT) + extension)
        }),
{
    let name = paths::file_name(p)->0;
    let all = paths::spans(p);
    let body = paths::body_spans(p, 0);
    let start = all.last().0;
    let q = p.take(start);
    let stem = name.take(output::stem_length(name));
    let new_name = stem.push(paths::DOT) + extension;
    paths::lemma_spans(p);
    let rooted = paths::is_absolute(p) || paths::starts_at_dot(p);
    if body.len() == 0 {
        assert(all =~= seq![(0int, 1int)]);
        assert(name =~= seq![p[0]]);
    }
    let last = body.len() - 1;
    assert(all.last() == body[last]);
    lemma_span_edges(p, 0, last);
    lemma_body_spans_before(p, 0, last);
    if rooted {
        assert(all[0] == (0int, 1int));
        assert(q[0] == p[0]);
    } else if start == 1 {
        assert(p[0] == paths::SLASH);
    }
    assert(paths::spans(q) =~= all.drop_last());
    assert(paths::components(q) =~= paths::components(p).drop_last()) by {
        assert forall|k: int| 0 <= k < all.len() - 1 implies #[trigger] paths::components(q)[k]
            == paths::components(p)[k] by {
            assert(paths::spans(q)[k] == all[k]);
            assert(all[k].1 <= all[all.len() - 1].0);
            assert(q.subrange(all[k].0, all[k].1) =~= p.subrange(all[k].0, all[k].1));
        }
    }
    assert forall|k: int| 0 <= k < new_name.len() implies #[trigger] new_name[k] != paths::SLASH by {
        if k < stem.len() {
            assert(new_name[k] == p[start + k]);
        } else if k > stem.len() {
            assert(extension.contains(extension[k - stem.len() - 1]));
        }
    }
    law_name_is_one_component(new_name);
    assert(output::with_extension(p, extension) =~= q + new_name);
    assert(paths::join_paths(q, new_name) =~= q + new_name);
    law_join_components(q, new_name);
    assert(paths::components(q) + seq![new_name] =~= paths::components(p).drop_last().push(
        new_name,
    ));
}

/// A path seen from another starts with that one and ends with itself, and one
/// slash stands between the two unless there is one or nothing to part.
pub proof fn law_joined_path(base: Seq<u8>, rel: Seq<u8>)
    ensures
        rel.len() > 0 && rel[0] == 0x2f ==> paths::join_paths(base, rel) == rel,
        rel.len() == 0 || rel[0] != 0x2f ==> {
            let p = paths::join_paths(base, rel);
            &&& base.is_prefix_of(p)
            &&& rel.is_suffix_of(p)
            &&& base.len() == 0 || base.last() == 0x2f ==> p.len() == base.len() + rel.len()
            &&& base.len() > 0 && base.last() != 0x2f ==> p.len() == base.len() + 1 + rel.len()
                && p[base.len() as int] == 0x2f
        },
{
    let p = paths::join_paths(base, rel);
    if !(rel.len() > 0 && rel[0] == 0x2f) {
        assert(base =~= p.subrange(0, base.len() as int));
        assert(rel =~= p.subrange(p.len() - rel.len(), p.len() as int));
    }
}

/// The components of a path behind a slash follow the root.
pub proof fn law_absolute_components(rel: Seq<u8>)
    requires
        rel.len() > 0 ==> rel[0] != 0x2f,
        !paths::starts_at_dot(rel),
    ensures
        paths::components(seq![0x2fu8] + rel) == seq![seq![0x2fu8]] + paths::components(rel),
{
    let root = seq![0x2fu8];
    law_join_components(root, rel);
    assert(paths::join_paths(root, rel) =~= root + rel);
    lemma_root();
}

proof fn lemma_root()
    ensures
        paths::components(seq![0x2fu8]) == seq![seq![0x2fu8]],
{
    let root = seq![0x2fu8];
    paths::lemma_segment_end(root, 0, 0);
    assert(root.subrange(0, 0) =~= Seq::<u8>::empty());
    assert(paths::body_spans(root, 1) =~= Seq::<(int, int)>::empty());
    assert(paths::body_spans(root, 0) =~= Seq::<(int, int)>::empty());
    assert(paths::spans(root) =~= seq![(0int, 1int)]);
    assert(paths::components(root)[0] =~= root);
    assert(paths::components(root) =~= seq![root]);
}

/// Slashes one after the other, and single full stops between slashes, name
/// nothing.
pub proof fn law_idle_segments(base: Seq<u8>, rel: Seq<u8>)
    requires
        base.len() > 0,
        rel.len() > 0 ==> rel[0] != 0x2f,
        !paths::starts_at_dot(rel),
    ensures
        paths::components(base.push(0x2f)) == paths::components(base),
        paths::components(base.push(0x2f).push(0x2f) + rel) == paths::components(base)
            + paths::components(rel),
        paths::components(base.push(0x2f).push(0x2e)) == paths::components(base),
        paths::components(base.push(0x2f).push(0x2e).push(0x2f) + rel) == paths::components(base)
            + paths::components(rel),
{
    let none = Seq::<u8>::empty();
    let one = base.push(0x2f);
    lemma_idle_end(base, none);
    assert(one + none =~= one);
    law_join_components(one, rel);
    let two = one.push(0x2f);
    lemma_idle_end(one, none);
    assert(two + none =~= two);
    law_join_components(two, rel);
    assert(paths::join_paths(two, rel) =~= two + rel);
    let dot = seq![0x2eu8];
    lemma_idle_end(base, dot);
    let dotted = one.push(0x2e);
    assert(one + dot =~= dotted);
    law_join_components(dotted, rel);
    assert(paths::join_paths(dotted, rel) =~= dotted.push(0x2f) + rel);
}

proof fn lemma_idle_end(base: Seq<u8>, end: Seq<u8>)
    requires
        base.len() > 0,
        end == Seq::<u8>::empty() || end == seq![0x2eu8],
    ensures
        paths::components(base.push(0x2f) + end) == paths::components(base),
{
    let p = base.push(0x2f) + end;
    lemma_body_spans_joined(base, end, 0);
    assert(paths::body_spans(end, 0) =~= Seq::<(int, int)>::empty()) by {
        if end.len() > 0 {
            paths::lemma_segment_end(end, 0, 1);
            assert(end.subrange(0, 1) =~= seq![paths::DOT]);
            assert(paths::body_spans(end, 2) =~= Seq::<(int, int)>::empty());
        }
    }
    assert(p[0] == base[0]);
    if base.len() > 1 {
        assert(p[1] == base[1]);
    }
    assert(paths::spans(p) =~= paths::spans(base));
    paths::lemma_spans(base);
    assert forall|k: int| 0 <= k < paths::components(base).len() implies #[trigger] paths::components(
        p,
    )[k] == paths::components(base)[k] by {
        let s = paths::spans(base)[k];
        assert(p.subrange(s.0, s.1) =~= base.subrange(s.0, s.1));
    }
    assert(paths::components(p) =~= paths::components(base));
}

/// Whether a text is the name of an entry of a directory: it is not empty, holds
/// no slash and stands for no other directory.
pub open spec fn is_plain_name(name: Seq<u8>) -> bool {
    &&& name.len() > 0
    &&& !name.contains(0x2f)
    &&& name != seq![0x2eu8]
    &&& name != seq![0x2eu8, 0x2eu8]
}

proof fn lemma_plain_name(name: Seq<u8>)
    requires
        is_plain_name(name),
    ensures
        !paths::is_absolute(name),
        !paths::starts_at_dot(name),
        paths::is_name(name),
        paths::spans(name) == seq![(0int, name.len() as int)],
        paths::body_spans(name, 0) == seq![(0int, name.len() as int)],
        paths::components(name) == seq![name],
{
    let n = name.len() as int;
    assert(name.contains(name[0]));
    if paths::starts_at_dot(name) {
        if name.len() > 1 {
            assert(name.contains(name[1]));
        }
        assert(name =~= seq![paths::DOT]);
    }
    assert(seq![paths::SLASH][0] == paths::SLASH);
    assert forall|k: int| 0 <= k < n implies #[trigger] name[k] != paths::SLASH by {
        assert(name.contains(name[k]));
    }
    paths::lemma_segment_end(name, 0, n);
    assert(name.subrange(0, n) =~= name);
    assert(paths::body_spans(name, n + 1) =~= Seq::<(int, int)>::empty());
    assert(paths::body_spans(name, 0) =~= seq![(0int, n)]);
    law_name_is_one_component(name);
}

/// An entry of a directory has its own name as its file name.
pub proof fn law_file_name_of_entry(dir: Seq<u8>, name: Seq<u8>)
    requires
        is_plain_name(name),
    ensures
        paths::file_name(paths::join_paths(dir, name)) == Some(name),
{
    lemma_plain_name(name);
    law_join_components(dir, name);
    assert((paths::components(dir) + seq![name]).last() == name);
}

/// A path has a file name only if its last component is one: nothing, the root,
/// and the current and the parent directory are none.
pub proof fn law_no_file_name(p: Seq<u8>)
    ensures
        paths::file_name(p) is None <==> {
            let c = paths::components(p);
            ||| c.len() == 0
            ||| c.last() == seq![0x2fu8]
            ||| c.last() == seq![0x2eu8]
            ||| c.last() == seq![0x2eu8, 0x2eu8]
        },
        paths::file_name(p) matches Some(name) ==> name == paths::components(p).last(),
{
}

/// The parent of an entry is the directory that it lies in.
pub proof fn law_parent_of_entry(base: Seq<u8>, dir_name: Seq<u8>, name: Seq<u8>)
    requires
        is_plain_name(dir_name),
        is_plain_name(name),
    ensures
        ({
            let dir = paths::join_paths(base, dir_name);
            paths::parent(paths::join_paths(dir, name)) == Some(dir)
        }),
        paths::parent(name) == Some(Seq::<u8>::empty()),
        paths::parent(paths::join_paths(dir_name, name)) == Some(dir_name),
{
    let none = Seq::<u8>::empty();
    lemma_plain_name(dir_name);
    lemma_plain_name(name);
    assert(paths::components(name).last() == name);
    lemma_parent_of_entry(base, dir_name, name);
    lemma_parent_of_entry(none, dir_name, name);
    assert(paths::join_paths(none, dir_name) =~= dir_name);
}

proof fn lemma_parent_of_entry(base: Seq<u8>, dir_name: Seq<u8>, name: Seq<u8>)
    requires
        is_plain_name(dir_name),
        is_plain_name(name),
    ensures
        ({
            let dir = paths::join_paths(base, dir_name);
            paths::parent(paths::join_paths(dir, name)) == Some(dir)
        }),
{
    let dir = paths::join_paths(base, dir_name);
    let p = paths::join_paths(dir, name);
    lemma_plain_name(dir_name);
    lemma_plain_name(name);
    assert(dir.last() == dir_name.last());
    assert(dir_name.contains(dir_name.last()));
    assert(p =~= dir.push(paths::SLASH) + name);
    lemma_body_spans_joined(dir, name, 0);
    let inner = paths::body_spans(dir, 0);
    assert(inner.len() > 0 && inner.last().1 == dir.len()) by {
        if base.len() == 0 {
            assert(dir =~= dir_name);
        } else {
            let b = if base.last() == paths::SLASH {
                base.drop_last()
            } else {
                base
            };
            assert(dir =~= b.push(paths::SLASH) + dir_name);
            lemma_body_spans_joined(b, dir_name, 0);
        }
    }
    let body = paths::body_spans(p, 0);
    assert(body[inner.len() - 1] == inner.last());
    assert(body.len() == inner.len() + 1);
    let all = paths::spans(p);
    assert(all[all.len() - 2] == inner.last());
    law_join_components(dir, name);
    assert(paths::components(p).last() == name);
    assert(p.take(dir.len() as int) =~= dir);
}

/// Every path has a parent but the empty one and the root.
pub proof fn law_parent_exists(p: Seq<u8>)
    ensures
        paths::parent(p) is None <==> {
            let c = paths::components(p);
            c.len() == 0 || c == seq![seq![0x2fu8]]
        },
{
    paths::lemma_spans(p);
    let c = paths::components(p);
    let n = c.len() as int;
    if n > 0 && c.last() == seq![paths::SLASH] {
        // No component but the root holds a slash.
        if n > 1 || !paths::is_absolute(p) {
            let body = paths::body_spans(p, 0);
            let k = body.len() - 1;
            if body.len() == 0 {
                assert(paths::spans(p) =~= seq![(0int, 1int)]);
                assert(c.last()[0] == p[0]);
                assert(seq![paths::SLASH][0] == paths::SLASH);
            } else {
                assert(paths::spans(p).last() == body[k]);
                lemma_span_edges(p, 0, k);
                paths::lemma_body_spans(p, 0);
                assert(p[body[k].0] == c.last()[0]);
                assert(seq![paths::SLASH][0] == paths::SLASH);
            }
        } else {
            assert(c =~= seq![seq![0x2fu8]]);
        }
    }
    if c == seq![seq![0x2fu8]] {
        assert(c.last() == seq![paths::SLASH]);
    }
}

/// The extension of a name is what follows its last full stop, unless nothing
/// stands before that one; it is replaced and all before it is kept.
pub proof fn law_extension_replaced(
    dir: Seq<u8>,
    stem: Seq<u8>,
    old_extension: Seq<u8>,
    extension: Seq<u8>,
)
    requires
        stem.len() > 0,
        !stem.contains(0x2f),
        !old_extension.contains(0x2f),
        !old_extension.contains(0x2e),
        !extension.contains(0x2f),
        stem + seq![0x2eu8] + old_extension != seq![0x2eu8, 0x2eu8],
    ensures
        output::with_extension(
            paths::join_paths(dir, stem + seq![0x2eu8] + old_extension),
            extension,
        ) == paths::join_paths(dir, stem + seq![0x2eu8] + extension),
{
    let dot = seq![0x2eu8];
    let name = stem + dot + old_extension;
    assert(dot[0] == 0x2e);
    assert forall|i: int| 0 <= i < name.len() implies name[i] != 0x2f by {
        if i < stem.len() {
            assert(stem.contains(stem[i]));
        } else if i > stem.len() {
            assert(old_extension.contains(old_extension[i - stem.len() - 1]));
        }
    }
    assert(name.len() > 1);
    let f = output::not_dot();
    let n = old_extension.len() as int;
    assert forall|i: int| name.len() - n <= i < name.len() implies f(#[trigger] name[i]) by {
        assert(old_extension.contains(old_extension[i - stem.len() - 1]));
    }
    assert(name[name.len() - n - 1] == 0x2e);
    text::lemma_back_run(name, f, n);
    assert(output::stem_length(name) == stem.len());
    lemma_with_extension(dir, name, extension);
    assert(name.take(stem.len() as int).push(0x2e) + extension =~= stem + dot + extension);
}

/// A name without an extension gets one, and is kept as it is in front of it.
pub proof fn law_extension_added(dir: Seq<u8>, name: Seq<u8>, extension: Seq<u8>)
    requires
        is_plain_name(name),
        !name.skip(1).contains(0x2e),
        !extension.contains(0x2f),
    ensures
        output::with_extension(paths::join_paths(dir, name), extension) == paths::join_paths(
            dir,
            name + seq![0x2eu8] + extension,
        ),
{
    let f = output::not_dot();
    let n = if name[0] == 0x2e {
        name.len() - 1
    } else {
        name.len() as int
    };
    assert forall|i: int| name.len() - n <= i < name.len() implies f(#[trigger] name[i]) by {
        if i > 0 {
            assert(name.skip(1)[i - 1] == name[i]);
            assert(name.skip(1).contains(name[i]));
        }
    }
    text::lemma_back_run(name, f, n);
    assert(output::stem_length(name) == name.len());
    lemma_with_extension(dir, name, extension);
    assert(name.take(name.len() as int).push(0x2e) + extension =~= name + seq![0x2eu8] + extension);
}

proof fn lemma_with_extension(dir: Seq<u8>, name: Seq<u8>, extension: Seq<u8>)
    requires
        is_plain_name(name),
        !extension.contains(0x2f),
    ensures
        output::with_extension(paths::join_paths(dir, name), extension) == paths::join_paths(
            dir,
            name.take(output::stem_length(name)).push(0x2e) + extension,
        ),
{
    let p = paths::join_paths(dir, name);
    let new_name = name.take(output::stem_length(name)).push(0x2e) + extension;
    law_file_name_of_entry(dir, name);
    lemma_plain_name(name);
    let start = p.len() - name.len();
    assert(paths::spans(p).last() == (start as int, p.len() as int)) by {
        if dir.len() == 0 {
            assert(p =~= name);
        } else {
            let b = if dir.last() == paths::SLASH {
                dir.drop_last()
            } else {
                dir
            };
            assert(p =~= b.push(paths::SLASH) + name);
            lemma_body_spans_joined(b, name, 0);
            assert(shifted(seq![(0int, name.len() as int)], b.len() as int + 1).last() == (
                b.len() as int + 1,
                b.len() as int + 1 + name.len(),
            ));
            assert(paths::spans(p).last() == paths::body_spans(p, 0).last());
        }
    }
    let k = output::stem_length(name);
    assert(!paths::is_absolute(new_name)) by {
        assert(new_name[0] == name[0]);
        assert(name.contains(name[0]));
    }
    assert(p.take(start + k).push(0x2e) + extension =~= paths::join_paths(dir, new_name));
}

/// The archive of an index is named after it: `.tar.gz` follows the name of an
/// index that ends in `.lance`, and `.lance.tar.gz` any name without an
/// extension.
pub proof fn law_archive_named_after_index(dir: Seq<u8>, stem: Seq<u8>)
    requires
        stem.len() > 0,
        !stem.contains(0x2f),
    ensures
        output::archive_extension() == encode_utf8("lance.tar.gz"@),
        output::with_extension(
            paths::join_paths(dir, stem + encode_utf8(".lance"@)),
            output::archive_extension(),
        ) == paths::join_paths(dir, stem + encode_utf8(".lance.tar.gz"@)),
{
    let old = seq![0x6cu8, 0x61u8, 0x6eu8, 0x63u8, 0x65u8];
    let dot = seq![0x2eu8];
    let ext = output::archive_extension();
    reveal_strlit("lance.tar.gz");
    reveal_strlit(".lance");
    reveal_strlit(".lance.tar.gz");
    lemma_ascii("lance.tar.gz"@, ext);
    lemma_ascii(".lance"@, dot + old);
    lemma_ascii(".lance.tar.gz"@, dot + ext);
    assert((stem + dot + old).len() > 2);
    law_extension_replaced(dir, stem, old, ext);
    assert(stem + (dot + old) =~= stem + dot + old);
    assert(stem + (dot + ext) =~= stem + dot + ext);
}

/// The encoding of a text of one-byte characters is those bytes.
pub proof fn lemma_ascii(s: Seq<char>, bytes: Seq<u8>)
    requires
        s.len() == bytes.len(),
        forall|i: int|
            0 <= i < s.len() ==> bytes[i] < 0x80 && (#[trigger] s[i]) as int == bytes[i] as int,
    ensures
        encode_utf8(s) == bytes,
    decreases s.len(),
{
    if s.len() > 0 {
        let (t, b) = (s.drop_first(), bytes.drop_first());
        assert forall|i: int| 0 <= i < t.len() implies b[i] < 0x80 by {
            assert(s[i + 1] as int == bytes[i + 1] as int);
        }
        assert forall|i: int| 0 <= i < t.len() implies (#[trigger] t[i]) as int == b[i] as int by {
            assert(t[i] == s[i + 1] && b[i] == bytes[i + 1]);
        }
        lemma_ascii(t, b);
        let n = s[0] as u32;
        char_is_scalar(s[0]);
        assert(s[0] as int == bytes[0] as int);
        assert(n < 0x80);
        assert((n & 0x7f) as u8 == n) by (bit_vector)
            requires
                n < 0x80,
        ;
        assert(encode_scalar(n) =~= seq![bytes[0]]);
        assert(encode_utf8(s) == encode_scalar(n) + encode_utf8(t));
        assert(encode_utf8(s) =~= bytes);
    } else {
        assert(encode_utf8(s) =~= bytes);
    }
}

} // verus!

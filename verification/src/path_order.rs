//! The order of paths: component by component, then byte by byte.

use crate::paths;
use crate::paths::DocPath;
use crate::text;
use crate::walk;
use vstd::prelude::*;
use vstd::slice::slice_subrange;

verus! {

/// Whether `a` stands before `b` in the order of the first byte in which they
/// differ; a prefix stands first.
pub open spec fn bytes_lt(a: Seq<u8>, b: Seq<u8>) -> bool
    decreases b.len(),
{
    if b.len() == 0 {
        false
    } else if a.len() == 0 {
        true
    } else if a[0] != b[0] {
        a[0] < b[0]
    } else {
        bytes_lt(a.skip(1), b.skip(1))
    }
}

/// The kinds of components in order: the root, the current directory, the
/// parent directory, a name.
pub open spec fn rank(component: Seq<u8>) -> int {
    if component == seq![paths::SLASH] {
        0
    } else if component == seq![paths::DOT] {
        1
    } else if component == seq![paths::DOT, paths::DOT] {
        2
    } else {
        3
    }
}

/// Whether one component stands before another.
pub open spec fn component_lt(a: Seq<u8>, b: Seq<u8>) -> bool {
    rank(a) < rank(b) || (rank(a) == rank(b) && bytes_lt(a, b))
}

/// Whether one list of components stands before another.
pub open spec fn components_lt(a: Seq<Seq<u8>>, b: Seq<Seq<u8>>) -> bool
    decreases b.len(),
{
    if b.len() == 0 {
        false
    } else if a.len() == 0 {
        true
    } else if a[0] != b[0] {
        component_lt(a[0], b[0])
    } else {
        components_lt(a.skip(1), b.skip(1))
    }
}

/// Whether one path stands before another.
pub open spec fn path_lt(p: Seq<u8>, q: Seq<u8>) -> bool {
    components_lt(paths::components(p), paths::components(q))
}

/// The test for a path that does not stand after `x`.
pub open spec fn not_after(x: Seq<u8>) -> spec_fn(Seq<u8>) -> bool {
    |y: Seq<u8>| !path_lt(x, y)
}

/// A list of paths with one more, placed before the first that stands after it.
pub open spec fn insert_path(sorted: Seq<Seq<u8>>, x: Seq<u8>) -> Seq<Seq<u8>> {
    sorted.insert(text::front_run(sorted, not_after(x)) as int, x)
}

/// A list of paths in order. Paths with the same components stay in the order
/// in which they stood.
pub open spec fn sorted(list: Seq<Seq<u8>>) -> Seq<Seq<u8>>
    decreases list.len(),
{
    if list.len() == 0 {
        Seq::empty()
    } else {
        insert_path(sorted(list.drop_last()), list.last())
    }
}

/// Whether no path of a list stands before an earlier one.
pub open spec fn in_order(list: Seq<Seq<u8>>) -> bool {
    forall|i: int, j: int| 0 <= i < j < list.len() ==> !path_lt(#[trigger] list[j], #[trigger] list[i])
}

proof fn lemma_bytes_lt(a: Seq<u8>, b: Seq<u8>, c: Seq<u8>)
    ensures
        !bytes_lt(a, a),
        a == b || bytes_lt(a, b) || bytes_lt(b, a),
        bytes_lt(a, b) && bytes_lt(b, c) ==> bytes_lt(a, c),
    decreases a.len() + b.len() + c.len(),
{
    if a.len() > 0 {
        lemma_bytes_lt(a.skip(1), Seq::empty(), Seq::empty());
    }
    if a.len() > 0 && b.len() > 0 && a[0] == b[0] {
        lemma_bytes_lt(a.skip(1), b.skip(1), if c.len() > 0 {
            c.skip(1)
        } else {
            c
        });
        if a.skip(1) == b.skip(1) {
            assert(a =~= seq![a[0]] + a.skip(1));
            assert(b =~= seq![b[0]] + b.skip(1));
        }
    } else if a.len() == 0 && b.len() == 0 {
        assert(a =~= b);
    }
}

proof fn lemma_component_lt(a: Seq<u8>, b: Seq<u8>, c: Seq<u8>)
    ensures
        !component_lt(a, a),
        a == b || component_lt(a, b) || component_lt(b, a),
        component_lt(a, b) && component_lt(b, c) ==> component_lt(a, c),
{
    lemma_bytes_lt(a, b, c);
}

/// The order of components is a strict total order.
pub proof fn lemma_components_lt(a: Seq<Seq<u8>>, b: Seq<Seq<u8>>, c: Seq<Seq<u8>>)
    ensures
        !components_lt(a, a),
        a == b || components_lt(a, b) || components_lt(b, a),
        components_lt(a, b) && components_lt(b, c) ==> components_lt(a, c),
    decreases a.len() + b.len() + c.len(),
{
    if a.len() > 0 {
        lemma_components_lt(a.skip(1), Seq::empty(), Seq::empty());
    }
    if a.len() > 0 && b.len() > 0 {
        if a[0] == b[0] {
            lemma_components_lt(a.skip(1), b.skip(1), if c.len() > 0 {
                c.skip(1)
            } else {
                c
            });
            if a.skip(1) == b.skip(1) {
                assert(a =~= seq![a[0]] + a.skip(1));
                assert(b =~= seq![b[0]] + b.skip(1));
            }
        } else {
            lemma_component_lt(a[0], b[0], if c.len() > 0 {
                c[0]
            } else {
                a[0]
            });
            lemma_component_lt(b[0], a[0], b[0]);
        }
    } else if a.len() == 0 && b.len() == 0 {
        assert(a =~= b);
    }
}

/// The order of paths is a strict weak order: two paths that stand in neither
/// order have the same components.
pub proof fn lemma_path_lt(p: Seq<u8>, q: Seq<u8>, r: Seq<u8>)
    ensures
        !path_lt(p, p),
        !path_lt(p, q) && !path_lt(q, p) ==> paths::components(p) == paths::components(q),
        path_lt(p, q) && path_lt(q, r) ==> path_lt(p, r),
        path_lt(p, q) && !path_lt(r, q) ==> path_lt(p, r),
        !path_lt(q, p) && path_lt(q, r) ==> path_lt(p, r),
        path_lt(p, q) ==> !path_lt(q, p),
{
    let (a, b, c) = (paths::components(p), paths::components(q), paths::components(r));
    lemma_components_lt(a, b, c);
    lemma_components_lt(b, c, a);
    lemma_components_lt(c, b, a);
    lemma_components_lt(a, b, a);
}

/// Inserting keeps a list in order.
proof fn lemma_insert_path(list: Seq<Seq<u8>>, x: Seq<u8>)
    requires
        in_order(list),
    ensures
        in_order(insert_path(list, x)),
        insert_path(list, x).len() == list.len() + 1,
        insert_path(list, x).to_multiset() == list.to_multiset().insert(x),
{
    broadcast use vstd::seq_lib::group_to_multiset_ensures;

    let f = not_after(x);
    let n = text::front_run(list, f) as int;
    text::lemma_front_run(list, f, n);
    let out = insert_path(list, x);
    assert forall|i: int, j: int| 0 <= i < j < out.len() implies !path_lt(
        #[trigger] out[j],
        #[trigger] out[i],
    ) by {
        if i == n {
            // The element at `n` of the list stands after `x`, and so do the later ones.
            assert(out[j] == list[j - 1]);
            assert(!f(list[n]));
            if j - 1 > n {
                assert(!path_lt(list[j - 1], list[n]));
                lemma_path_lt(x, list[n], list[j - 1]);
            }
            lemma_path_lt(x, out[j], x);
        } else if j == n {
            assert(out[i] == list[i]);
            assert(f(list[i]));
        } else {
            let i0 = if i < n {
                i
            } else {
                i - 1
            };
            let j0 = if j < n {
                j
            } else {
                j - 1
            };
            assert(out[i] == list[i0]);
            assert(out[j] == list[j0]);
        }
    }
}

/// Sorting puts a list in order and keeps its elements.
pub proof fn law_sorted(list: Seq<Seq<u8>>)
    ensures
        in_order(sorted(list)),
        sorted(list).to_multiset() == list.to_multiset(),
        sorted(list).len() == list.len(),
    decreases list.len(),
{
    broadcast use vstd::seq_lib::group_to_multiset_ensures;

    if list.len() > 0 {
        law_sorted(list.drop_last());
        lemma_insert_path(sorted(list.drop_last()), list.last());
        assert(list =~= list.drop_last().push(list.last()));
    }
}

/// The test for a path with the given components.
pub open spec fn has_components(c: Seq<Seq<u8>>) -> spec_fn(Seq<u8>) -> bool {
    |p: Seq<u8>| paths::components(p) == c
}

/// Sorting keeps paths with the same components in the order in which they
/// stood.
pub proof fn law_sorted_is_stable(list: Seq<Seq<u8>>, c: Seq<Seq<u8>>)
    ensures
        sorted(list).filter(has_components(c)) == list.filter(has_components(c)),
    decreases list.len(),
{
    let h = has_components(c);
    if list.len() > 0 {
        let x = list.last();
        let front = sorted(list.drop_last());
        let f = not_after(x);
        let n = text::front_run(front, f) as int;
        law_sorted_is_stable(list.drop_last(), c);
        law_sorted(list.drop_last());
        text::lemma_front_run(front, f, n);
        let (a, b) = (front.take(n), front.skip(n));
        assert(front =~= a + b);
        assert(sorted(list) =~= a.push(x) + b);
        Seq::filter_distributes_over_add(a, b, h);
        Seq::filter_distributes_over_add(a.push(x), b, h);
        a.lemma_filter_push(x, h);
        assert(list =~= list.drop_last().push(x));
        list.drop_last().lemma_filter_push(x, h);
        if h(x) {
            assert forall|i: int| 0 <= i < b.len() implies !h(#[trigger] b[i]) by {
                assert(b[i] == front[n + i]);
                assert(!f(front[n]));
                if i > 0 {
                    assert(!path_lt(front[n + i], front[n]));
                    lemma_path_lt(x, front[n], front[n + i]);
                }
                lemma_path_lt(x, b[i], x);
                lemma_components_lt(c, c, c);
            }
            b.lemma_all_neg_filter_empty(h);
            assert(b.filter(h) =~= Seq::empty());
        }
        assert(sorted(list).filter(h) =~= list.filter(h));
    }
}

/// Whether `a` stands before `b`.
fn bytes_before(a: &[u8], b: &[u8]) -> (r: bool)
    ensures
        r == bytes_lt(a@, b@),
{
    let mut i: usize = 0;
    assert(a@.skip(0) =~= a@);
    assert(b@.skip(0) =~= b@);
    while i < a.len() && i < b.len()
        invariant
            i <= a@.len(),
            i <= b@.len(),
            bytes_lt(a@, b@) == bytes_lt(a@.skip(i as int), b@.skip(i as int)),
        decreases a@.len() - i,
    {
        assert(a@.skip(i as int).skip(1) =~= a@.skip(i + 1));
        assert(b@.skip(i as int).skip(1) =~= b@.skip(i + 1));
        if a[i] != b[i] {
            return a[i] < b[i];
        }
        i = i + 1;
    }
    i < b.len()
}

/// The rank of a component.
fn rank_of(component: &[u8]) -> (r: u8)
    ensures
        r == rank(component@),
{
    let n: usize = component.len();
    proof {
        assert(n == 1 ==> component@ =~= seq![component@[0]]);
        assert(n == 2 ==> component@ =~= seq![component@[0], component@[1]]);
        assert(seq![paths::SLASH][0] == paths::SLASH);
        assert(seq![paths::DOT][0] == paths::DOT);
        assert(seq![paths::DOT, paths::DOT][0] == paths::DOT);
        assert(seq![paths::DOT, paths::DOT][1] == paths::DOT);
    }
    if n == 1 && component[0] == paths::SLASH {
        0
    } else if n == 1 && component[0] == paths::DOT {
        1
    } else if n == 2 && component[0] == paths::DOT && component[1] == paths::DOT {
        2
    } else {
        3
    }
}

/// Whether the path `p` stands before `q`.
pub fn path_before(p: &DocPath, q: &DocPath) -> (r: bool)
    ensures
        r == path_lt(p@, q@),
{
    let a = p.bytes.as_slice();
    let b = q.bytes.as_slice();
    let left: Vec<(usize, usize)> = paths::spans_of(a);
    let right: Vec<(usize, usize)> = paths::spans_of(b);
    let ghost ac = paths::components(a@);
    let ghost bc = paths::components(b@);
    proof {
        paths::lemma_spans(a@);
        paths::lemma_spans(b@);
    }
    let mut i: usize = 0;
    assert(ac.skip(0) =~= ac);
    assert(bc.skip(0) =~= bc);
    while i < left.len() && i < right.len()
        invariant
            i <= left@.len(),
            i <= right@.len(),
            a@ == p@,
            b@ == q@,
            ac == paths::components(a@),
            bc == paths::components(b@),
            paths::span_view(left@) == paths::spans(a@),
            paths::span_view(right@) == paths::spans(b@),
            forall|j: int|
                0 <= j < paths::spans(a@).len() ==> 0 <= (#[trigger] paths::spans(a@)[j]).0
                    < paths::spans(a@)[j].1 <= a@.len(),
            forall|j: int|
                0 <= j < paths::spans(b@).len() ==> 0 <= (#[trigger] paths::spans(b@)[j]).0
                    < paths::spans(b@)[j].1 <= b@.len(),
            components_lt(ac, bc) == components_lt(ac.skip(i as int), bc.skip(i as int)),
        decreases left@.len() - i,
    {
        assert(ac.skip(i as int).skip(1) =~= ac.skip(i + 1));
        assert(bc.skip(i as int).skip(1) =~= bc.skip(i + 1));
        assert(paths::span_view(left@)[i as int] == (left[i as int].0 as int, left[
            i as int
        ].1 as int));
        assert(paths::span_view(right@)[i as int] == (right[i as int].0 as int, right[
            i as int
        ].1 as int));
        let x = slice_subrange(a, left[i].0, left[i].1);
        let y = slice_subrange(b, right[i].0, right[i].1);
        assert(x@ == ac[i as int]);
        assert(y@ == bc[i as int]);
        if !paths::same_bytes(x, y) {
            let first: u8 = rank_of(x);
            let second: u8 = rank_of(y);
            return first < second || (first == second && bytes_before(x, y));
        }
        i = i + 1;
    }
    assert(bc.skip(i as int).len() == right@.len() - i);
    assert(ac.skip(i as int).len() == left@.len() - i);
    i < right.len()
}

/// The paths of a list in order.
pub fn sort_paths(list: &Vec<DocPath>) -> (r: Vec<DocPath>)
    ensures
        walk::path_views(r@) == sorted(walk::path_views(list@)),
{
    let mut out: Vec<DocPath> = Vec::new();
    let ghost all = walk::path_views(list@);
    assert(walk::path_views(out@) =~= sorted(all.take(0)));
    for i in 0..list.len()
        invariant
            all == walk::path_views(list@),
            walk::path_views(out@) == sorted(all.take(i as int)),
    {
        let ghost before = walk::path_views(out@);
        let ghost x = list@[i as int]@;
        let ghost f = not_after(x);
        proof {
            law_sorted(all.take(i as int));
            assert(all.take(i + 1).drop_last() =~= all.take(i as int));
            assert(all.take(i + 1).last() == x);
        }
        let mut low: usize = 0;
        let mut high: usize = out.len();
        while low < high
            invariant
                low <= high <= out@.len(),
                before == walk::path_views(out@),
                in_order(before),
                x == list@[i as int]@,
                i < list@.len(),
                forall|k: int| 0 <= k < low ==> !path_lt(x, #[trigger] before[k]),
                forall|k: int| high <= k < before.len() ==> path_lt(x, #[trigger] before[k]),
            decreases high - low,
        {
            let mid: usize = low + (high - low) / 2;
            assert(before[mid as int] == out@[mid as int]@);
            if path_before(&list[i], &out[mid]) {
                assert forall|k: int| mid <= k < before.len() implies path_lt(
                    x,
                    #[trigger] before[k],
                ) by {
                    if k > mid {
                        assert(!path_lt(before[k], before[mid as int]));
                        lemma_path_lt(x, before[mid as int], before[k]);
                    }
                }
                high = mid;
            } else {
                assert forall|k: int| 0 <= k <= mid implies !path_lt(x, #[trigger] before[k]) by {
                    if k < mid && path_lt(x, before[k]) {
                        assert(!path_lt(before[mid as int], before[k]));
                        lemma_path_lt(x, before[k], before[mid as int]);
                    }
                }
                low = mid + 1;
            }
        }
        proof {
            assert forall|k: int| 0 <= k < low implies f(#[trigger] before[k]) by {}
            if low < before.len() {
                assert(!f(before[low as int]));
            }
            text::lemma_front_run(before, f, low as int);
        }
        out.insert(low, list[i].copy());
        assert(walk::path_views(out@) =~= insert_path(before, x));
    }
    assert(all.take(list@.len() as int) =~= all);
    out
}

/// The order of paths made total by the bytes of paths with the same
/// components.
pub open spec fn path_le() -> spec_fn(Seq<u8>, Seq<u8>) -> bool {
    |p: Seq<u8>, q: Seq<u8>|
        path_lt(p, q) || (paths::components(p) == paths::components(q) && (p == q || bytes_lt(p, q)))
}

proof fn lemma_path_le()
    ensures
        vstd::relations::total_ordering(path_le()),
{
    let le = path_le();
    assert forall|p: Seq<u8>| #[trigger] le(p, p) by {}
    assert forall|p: Seq<u8>, q: Seq<u8>| #[trigger] le(p, q) && #[trigger] le(q, p) implies p
        == q by {
        lemma_path_lt(p, q, p);
        lemma_bytes_lt(p, q, p);
    }
    assert forall|p: Seq<u8>, q: Seq<u8>, r: Seq<u8>| #[trigger]
        le(p, q) && #[trigger] le(q, r) implies le(p, r) by {
        lemma_path_lt(p, q, r);
        lemma_bytes_lt(p, q, r);
    }
    assert forall|p: Seq<u8>, q: Seq<u8>| #[trigger] le(p, q) || #[trigger] le(q, p) by {
        lemma_path_lt(p, q, p);
        lemma_bytes_lt(p, q, p);
    }
}

/// The order in which files are listed does not matter: two listings of the
/// same files sort to the same list, as long as no two different paths among
/// them have the same components.
pub proof fn law_sorted_whatever_the_listing(a: Seq<Seq<u8>>, b: Seq<Seq<u8>>)
    requires
        a.to_multiset() == b.to_multiset(),
        forall|i: int, j: int|
            0 <= i < a.len() && 0 <= j < a.len() && paths::components(#[trigger] a[i])
                == paths::components(#[trigger] a[j]) ==> a[i] == a[j],
    ensures
        sorted(a) == sorted(b),
{
    broadcast use vstd::seq_lib::group_to_multiset_ensures;

    law_sorted(a);
    law_sorted(b);
    lemma_path_le();
    let le = path_le();
    assert forall|s: Seq<Seq<u8>>|
        in_order(s) && #[trigger] s.to_multiset() == a.to_multiset() implies
        vstd::relations::sorted_by(s, le) by {
        assert forall|i: int, j: int| 0 <= i < j < s.len() implies #[trigger] le(s[i], s[j]) by {
            assert(!path_lt(s[j], s[i]));
            lemma_path_lt(s[i], s[j], s[i]);
            assert(s.contains(s[i]) && s.contains(s[j]));
            assert(a.to_multiset().contains(s[i]) && a.to_multiset().contains(s[j]));
            assert(a.contains(s[i]) && a.contains(s[j]));
        }
    }
    vstd::seq_lib::lemma_sorted_unique(sorted(a), sorted(b), le);
}

/// Byte strings are ordered by the first byte in which they differ, and one that
/// the other starts with stands first.
pub proof fn law_order_of_bytes(same: Seq<u8>, a: Seq<u8>, b: Seq<u8>)
    requires
        b.len() > 0,
        a.len() > 0 ==> a[0] < b[0],
    ensures
        bytes_lt(same + a, same + b),
        !bytes_lt(same + b, same + a),
        !bytes_lt(same, same),
    decreases same.len(),
{
    if same.len() == 0 {
        assert(same + a =~= a);
        assert(same + b =~= b);
    } else {
        law_order_of_bytes(same.skip(1), a, b);
        assert((same + a).skip(1) =~= same.skip(1) + a);
        assert((same + b).skip(1) =~= same.skip(1) + b);
        lemma_bytes_lt(same, same, same);
    }
}

/// Paths are ordered by the first component in which they differ, and one whose
/// components the other starts with stands first. Names are ordered by their
/// bytes; the root, the current directory and the parent directory stand before
/// them in this order.
pub proof fn law_order_of_paths(p: Seq<u8>, q: Seq<u8>, k: int)
    requires
        0 <= k < paths::components(q).len(),
        k <= paths::components(p).len(),
        paths::components(p).take(k) == paths::components(q).take(k),
        k < paths::components(p).len() ==> {
            let (a, b) = (paths::components(p)[k], paths::components(q)[k]);
            ||| a == seq![0x2fu8] && b != a
            ||| a == seq![0x2eu8] && b != a && b != seq![0x2fu8]
            ||| a == seq![0x2eu8, 0x2eu8] && paths::is_name(b)
            ||| paths::is_name(a) && paths::is_name(b) && bytes_lt(a, b)
        },
    ensures
        path_lt(p, q),
        !path_lt(q, p),
{
    let (a, b) = (paths::components(p), paths::components(q));
    if k < a.len() {
        lemma_bytes_lt(a[k], b[k], a[k]);
        assert(seq![0x2fu8][0] == 0x2f && seq![0x2eu8][0] == 0x2e);
        assert(seq![0x2eu8, 0x2eu8].len() == 2);
    }
    lemma_first_difference(a, b, k);
    lemma_path_lt(p, q, p);
}

proof fn lemma_first_difference(a: Seq<Seq<u8>>, b: Seq<Seq<u8>>, k: int)
    requires
        0 <= k < b.len(),
        k <= a.len(),
        a.take(k) == b.take(k),
        k < a.len() ==> a[k] != b[k] && component_lt(a[k], b[k]),
    ensures
        components_lt(a, b),
    decreases k,
{
    if k > 0 {
        assert(a.take(k)[0] == b.take(k)[0]);
        assert(a.skip(1).take(k - 1) =~= a.take(k).skip(1));
        assert(b.skip(1).take(k - 1) =~= b.take(k).skip(1));
        lemma_first_difference(a.skip(1), b.skip(1), k - 1);
    }
}

} // verus!

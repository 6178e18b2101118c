//! Paths as the harness gives them, and as they stand below the root.
use vstd::prelude::*;
use crate::text;
use crate::hook;

verus! {

/// Spans that stand further on by `n` characters.
pub open spec fn moved(v: Seq<(int, int)>, n: int) -> Seq<(int, int)> {
    Seq::new(v.len(), |i: int| (v[i].0 + n, v[i].1 + n))
}

/// The segments of two paths with a slash between them, from a place in the
/// first one on: those of the first, and then those of the second.
proof fn lemma_spans_across(a: Seq<char>, b: Seq<char>, i: int)
    requires
        0 <= i <= a.len(),
    ensures
        hook::spans_from(a + seq!['/'] + b, i) == hook::spans_from(a, i) + hook::spans_from(
            a + seq!['/'] + b,
            a.len() as int + 1,
        ),
    decreases a.len() - i,
{
    let s = a + seq!['/'] + b;
    let e = text::next_of(a, '/', i);
    text::lemma_next_in_both(a, '/', b, i);
    text::lemma_next_of(a, '/', i);
    assert(s.subrange(i, e) =~= a.subrange(i, e));
    if e < a.len() {
        lemma_spans_across(a, b, e + 1);
    }
    assert(hook::spans_from(s, i) =~= hook::spans_from(a, i) + hook::spans_from(
        s,
        a.len() as int + 1,
    ));
}

/// What stands before the start does not matter to the segments but for their
/// places.
proof fn lemma_spans_moved(front: Seq<char>, s: Seq<char>, i: int)
    requires
        0 <= i <= s.len(),
    ensures
        hook::spans_from(front + s, front.len() + i) == moved(
            hook::spans_from(s, i),
            front.len() as int,
        ),
    decreases s.len() - i,
{
    let w = front + s;
    let n = front.len() as int;
    let e = text::next_of(s, '/', i);
    text::lemma_next_moved(front, s, '/', i);
    text::lemma_next_of(s, '/', i);
    assert(w.subrange(n + i, n + e) =~= s.subrange(i, e));
    if e < s.len() {
        lemma_spans_moved(front, s, e + 1);
    }
    assert(hook::spans_from(w, n + i) =~= moved(hook::spans_from(s, i), n));
}

/// The segments of a path lie within it.
proof fn lemma_spans_within(s: Seq<char>, i: int)
    requires
        0 <= i <= s.len(),
    ensures
        forall|k: int|
            0 <= k < hook::spans_from(s, i).len() ==> i <= (#[trigger] hook::spans_from(s, i)[k]).0
                <= hook::spans_from(s, i)[k].1 <= s.len(),
    decreases s.len() - i,
{
    let e = text::next_of(s, '/', i);
    text::lemma_next_of(s, '/', i);
    if e < s.len() {
        lemma_spans_within(s, e + 1);
        let rest = hook::spans_from(s, e + 1);
        let all = hook::spans_from(s, i);
        assert forall|k: int| 0 <= k < all.len() implies i <= (#[trigger] all[k]).0 <= all[k].1
            <= s.len() by {
            if all.len() > rest.len() {
                if k > 0 {
                    assert(all[k] == rest[k - 1]);
                }
            } else {
                assert(all[k] == rest[k]);
            }
        }
    }
}

/// A path that does not start at the top stands below the root already; one
/// that starts with the root stands below it as what follows.
pub proof fn law_a_path_below_the_root_is_what_follows(root: Seq<char>, rel: Seq<char>)
    requires
        root.len() > 0,
        root[0] == '/',
        rel.len() > 0,
        hook::spans_from(rel, 0).len() > 0,
        hook::spans_from(rel, 0)[0].0 == 0,
        hook::spans_from(rel, 0).last().1 == rel.len(),
    ensures
        hook::below_root(root, root + seq!['/'] + rel) == Some(rel),
        rel[0] != '/' ==> hook::below_root(root, rel) == Some(rel),
{
    let raw = root + seq!['/'] + rel;
    let front = root + seq!['/'];
    lemma_spans_across(root, rel, 0);
    lemma_spans_moved(front, rel, 0);
    lemma_spans_within(root, 0);
    assert(front + rel =~= raw);
    let a = hook::spans_from(root, 0);
    let b = hook::spans_from(rel, 0);
    let all = hook::spans_from(raw, 0);
    let n = front.len() as int;
    assert(all == a + moved(b, n));
    assert(raw[0] == root[0]);
    let dirs = hook::parts(root);
    let own = hook::parts(raw);
    assert(own.take(dirs.len() as int) =~= dirs) by {
        assert forall|k: int| 0 <= k < dirs.len() implies own[k] == dirs[k] by {
            assert(all[k] == a[k]);
            assert(raw.subrange(a[k].0, a[k].1) =~= root.subrange(a[k].0, a[k].1));
        }
    }
    assert(all[a.len() as int] == (n, b[0].1 + n));
    assert(all.last() == (b.last().0 + n, rel.len() + n));
    assert(raw.subrange(n, raw.len() as int) =~= rel);
}

/// A path that starts at the top and not with the root does not stand below
/// it.
pub proof fn law_a_path_elsewhere_is_not_below_the_root(root: Seq<char>, raw: Seq<char>, k: int)
    requires
        root.len() > 0,
        root[0] == '/',
        raw.len() > 0,
        raw[0] == '/',
        0 <= k < hook::parts(root).len(),
        k < hook::parts(raw).len(),
        hook::parts(root)[k] != hook::parts(raw)[k],
    ensures
        hook::below_root(root, raw) is None,
{
    let dirs = hook::parts(root);
    let own = hook::parts(raw);
    if dirs.len() <= own.len() && own.take(dirs.len() as int) == dirs {
        assert(own.take(dirs.len() as int)[k] == own[k]);
    }
}

} // verus!

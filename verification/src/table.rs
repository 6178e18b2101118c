//! Tables: lists of entries kept in the order of their keys, each key once.
//!
//! Walking such a list visits the keys in order, and a key is found by
//! halving. The specifications read a table as the sequence of its entries.
use vstd::prelude::*;
use crate::text;

verus! {

/// The keys of a list of entries.
pub open spec fn keys<W>(e: Seq<(Seq<char>, W)>) -> Seq<Seq<char>> {
    Seq::new(e.len(), |i: int| e[i].0)
}

/// The keys of a list of entries, as they are stored.
pub open spec fn stored_keys<V>(e: Seq<(String, V)>) -> Seq<Seq<char>> {
    Seq::new(e.len(), |i: int| e[i].0@)
}

/// Are the keys in order, each once?
pub open spec fn ordered(ks: Seq<Seq<char>>) -> bool {
    forall|i: int, j: int| 0 <= i < j < ks.len() ==> text::before(#[trigger] ks[i], #[trigger] ks[j])
}

/// The first place from `i` on whose key does not come before `key`.
pub open spec fn seat_from(ks: Seq<Seq<char>>, key: Seq<char>, i: int) -> int
    decreases ks.len() - i,
{
    if i >= ks.len() {
        ks.len() as int
    } else if text::before(ks[i], key) {
        seat_from(ks, key, i + 1)
    } else {
        i
    }
}

/// Where `key` stands, or would stand.
pub open spec fn seat(ks: Seq<Seq<char>>, key: Seq<char>) -> int {
    seat_from(ks, key, 0)
}

/// Does the table hold `key`?
pub open spec fn holds(ks: Seq<Seq<char>>, key: Seq<char>) -> bool {
    seat(ks, key) < ks.len() && ks[seat(ks, key)] == key
}

/// The value of `key`, where the table holds it.
pub open spec fn value<W>(e: Seq<(Seq<char>, W)>, key: Seq<char>) -> Option<W> {
    if holds(keys(e), key) {
        Some(e[seat(keys(e), key)].1)
    } else {
        None
    }
}

/// The table with `key` set to `w`.
pub open spec fn put<W>(e: Seq<(Seq<char>, W)>, key: Seq<char>, w: W) -> Seq<(Seq<char>, W)> {
    let p = seat(keys(e), key);
    if holds(keys(e), key) {
        e.update(p, (key, w))
    } else {
        e.insert(p, (key, w))
    }
}

/// The seat is within the list; every key before it comes before `key`, and
/// it itself does not.
pub proof fn lemma_seat(ks: Seq<Seq<char>>, key: Seq<char>, i: int)
    requires
        0 <= i <= ks.len(),
    ensures
        i <= seat_from(ks, key, i) <= ks.len(),
        forall|j: int| i <= j < seat_from(ks, key, i) ==> text::before(#[trigger] ks[j], key),
        seat_from(ks, key, i) < ks.len() ==> !text::before(ks[seat_from(ks, key, i)], key),
    decreases ks.len() - i,
{
    if i < ks.len() && text::before(ks[i], key) {
        lemma_seat(ks, key, i + 1);
    }
}

/// In an ordered list, `key` stands at its seat if anywhere.
pub proof fn lemma_holds(ks: Seq<Seq<char>>, key: Seq<char>)
    requires
        ordered(ks),
    ensures
        holds(ks, key) <==> text::listed(ks, key),
        forall|j: int| seat(ks, key) < j < ks.len() ==> text::before(key, #[trigger] ks[j]),
{
    lemma_seat(ks, key, 0);
    let p = seat(ks, key);
    if text::listed(ks, key) {
        let i = choose|i: int| 0 <= i < ks.len() && #[trigger] ks[i] == key;
        text::lemma_before_total(key, key, 0);
        assert(i >= p);
        if i > p {
            assert(text::before(ks[p], ks[i]));
        }
    }
    assert forall|j: int| p < j < ks.len() implies text::before(key, #[trigger] ks[j]) by {
        text::lemma_before_total(ks[p], key, 0);
        assert(text::before(ks[p], ks[j]));
        if ks[p] != key {
            text::lemma_before_trans(key, ks[p], ks[j], 0);
        }
    }
}

/// Setting a key keeps the order, and changes what that key alone holds.
pub proof fn lemma_put<W>(e: Seq<(Seq<char>, W)>, key: Seq<char>, w: W)
    requires
        ordered(keys(e)),
    ensures
        ordered(keys(put(e, key, w))),
        value(put(e, key, w), key) == Some(w),
        forall|k: Seq<char>| k != key ==> #[trigger] value(put(e, key, w), k) == value(e, k),
        forall|k: Seq<char>|
            text::listed(keys(put(e, key, w)), k) <==> (k == key || #[trigger] text::listed(keys(e), k)),
{
    let ks = keys(e);
    let p = seat(ks, key);
    let out = put(e, key, w);
    let os = keys(out);
    lemma_seat(ks, key, 0);
    lemma_holds(ks, key);
    if holds(ks, key) {
        assert(os =~= ks);
    } else {
        assert(os =~= ks.insert(p, key));
        assert forall|i: int, j: int| 0 <= i < j < os.len() implies text::before(
            #[trigger] os[i],
            #[trigger] os[j],
        ) by {
            if j < p {
            } else if j == p {
            } else if i == p {
                let jj = j - 1;
                text::lemma_before_total(ks[p], key, 0);
                if jj > p {
                    assert(text::before(ks[p], ks[jj]));
                    text::lemma_before_trans(key, ks[p], ks[jj], 0);
                }
            } else if i < p {
                assert(text::before(ks[i], ks[j - 1]));
            } else {
                assert(text::before(ks[i - 1], ks[j - 1]));
            }
        }
    }
    assert(os[p] == key);
    assert forall|k: Seq<char>|
        text::listed(os, k) <==> (k == key || #[trigger] text::listed(ks, k)) by {
        if text::listed(os, k) && k != key {
            let i = choose|i: int| 0 <= i < os.len() && #[trigger] os[i] == k;
            if holds(ks, key) {
                assert(ks[i] == k);
            } else if i < p {
                assert(ks[i] == k);
            } else {
                assert(ks[i - 1] == k);
            }
        }
        if text::listed(ks, k) {
            let i = choose|i: int| 0 <= i < ks.len() && #[trigger] ks[i] == k;
            if holds(ks, key) || i < p {
                assert(os[i] == k);
            } else {
                assert(os[i + 1] == k);
            }
        }
    }
    lemma_place(os, key, p);
    assert(value(out, key) == Some(w));
    assert forall|k: Seq<char>| k != key implies #[trigger] value(out, k) == value(e, k) by {
        lemma_holds(ks, k);
        lemma_holds(os, k);
        assert(text::listed(os, k) <==> text::listed(ks, k));
        if text::listed(ks, k) {
            let i = choose|i: int| 0 <= i < ks.len() && #[trigger] ks[i] == k;
            lemma_place(ks, k, i);
            if holds(ks, key) || i < p {
                assert(os[i] == k);
                lemma_place(os, k, i);
            } else {
                assert(os[i + 1] == k);
                lemma_place(os, k, i + 1);
            }
        }
    }
}

/// In an ordered list a key's seat is where it stands.
pub proof fn lemma_place(ks: Seq<Seq<char>>, key: Seq<char>, i: int)
    requires
        ordered(ks),
        0 <= i < ks.len(),
        ks[i] == key,
    ensures
        seat(ks, key) == i,
        holds(ks, key),
{
    lemma_seat(ks, key, 0);
    text::lemma_before_total(key, key, 0);
    let p = seat(ks, key);
    if p < i {
        assert(text::before(ks[p], ks[i]));
    }
}

/// In a table a key that stands somewhere has the value that stands with it.
pub proof fn lemma_value<W>(e: Seq<(Seq<char>, W)>, i: int)
    requires
        ordered(keys(e)),
        0 <= i < e.len(),
    ensures
        value(e, e[i].0) == Some(e[i].1),
{
    assert(keys(e)[i] == e[i].0);
    lemma_place(keys(e), e[i].0, i);
}

/// A table without its first entry lacks that key alone.
proof fn lemma_drop_first<W>(e: Seq<(Seq<char>, W)>, key: Seq<char>)
    requires
        ordered(keys(e)),
        e.len() > 0,
    ensures
        ordered(keys(e.drop_first())),
        value(e.drop_first(), key) == if key == e[0].0 {
            None
        } else {
            value(e, key)
        },
{
    let rest = e.drop_first();
    let ks = keys(e);
    let rs = keys(rest);
    assert forall|i: int, j: int| 0 <= i < j < rs.len() implies text::before(
        #[trigger] rs[i],
        #[trigger] rs[j],
    ) by {
        assert(text::before(ks[i + 1], ks[j + 1]));
    }
    lemma_holds(ks, key);
    lemma_holds(rs, key);
    if holds(rs, key) {
        let p = seat(rs, key);
        lemma_seat(rs, key, 0);
        assert(ks[p + 1] == key);
        lemma_place(ks, key, p + 1);
        if key == e[0].0 {
            assert(text::before(ks[0], ks[p + 1]));
            text::lemma_before_total(key, key, 0);
        }
    } else if holds(ks, key) && key != e[0].0 {
        let p = seat(ks, key);
        lemma_seat(ks, key, 0);
        assert(p > 0);
        assert(rs[p - 1] == key);
        lemma_place(rs, key, p - 1);
    }
}

/// Two tables that hold the same values are the same.
pub proof fn lemma_same_table<W>(a: Seq<(Seq<char>, W)>, b: Seq<(Seq<char>, W)>)
    requires
        ordered(keys(a)),
        ordered(keys(b)),
        forall|k: Seq<char>| #[trigger] value(a, k) == value(b, k),
    ensures
        a == b,
    decreases a.len(),
{
    if a.len() == 0 {
        if b.len() > 0 {
            lemma_value(b, 0);
            assert(value(a, b[0].0) == value(b, b[0].0));
        }
        assert(a =~= b);
    } else {
        lemma_value(a, 0);
        let x = a[0].0;
        assert(value(a, x) == value(b, x));
        assert(b.len() > 0);
        lemma_value(b, 0);
        let y = b[0].0;
        assert(value(a, y) == value(b, y));
        let p = seat(keys(b), x);
        let q = seat(keys(a), y);
        lemma_seat(keys(b), x, 0);
        lemma_seat(keys(a), y, 0);
        if x != y {
            assert(keys(b)[p] == x);
            assert(keys(a)[q] == y);
            assert(p > 0 && q > 0);
            assert(text::before(keys(b)[0], keys(b)[p]));
            assert(text::before(keys(a)[0], keys(a)[q]));
            text::lemma_before_trans(x, y, x, 0);
            text::lemma_before_total(x, x, 0);
        }
        assert(a[0] == b[0]);
        lemma_drop_first(a, x);
        lemma_drop_first(b, x);
        assert forall|k: Seq<char>| #[trigger] value(a.drop_first(), k) == value(
            b.drop_first(),
            k,
        ) by {
            lemma_drop_first(a, k);
            lemma_drop_first(b, k);
            assert(value(a, k) == value(b, k));
        }
        lemma_same_table(a.drop_first(), b.drop_first());
        assert(a =~= seq![a[0]] + a.drop_first());
        assert(b =~= seq![b[0]] + b.drop_first());
    }
}

/// Where `key` stands, or would stand.
pub fn find_seat<V>(e: &Vec<(String, V)>, key: &str) -> (r: usize)
    requires
        ordered(stored_keys(e@)),
    ensures
        r == seat(stored_keys(e@), key@),
        r <= e.len(),
{
    let ghost ks = stored_keys(e@);
    let mut lo: usize = 0;
    let mut hi: usize = e.len();
    while lo < hi
        invariant
            lo <= hi <= e.len(),
            ks == stored_keys(e@),
            ordered(ks),
            forall|j: int| 0 <= j < lo ==> text::before(#[trigger] ks[j], key@),
            forall|j: int| hi <= j < ks.len() ==> !text::before(#[trigger] ks[j], key@),
        decreases hi - lo,
    {
        let mid: usize = lo + (hi - lo) / 2;
        assert(ks[mid as int] == e@[mid as int].0@);
        if text::comes_before(e[mid].0.as_str(), key) {
            assert forall|j: int| 0 <= j < mid + 1 implies text::before(#[trigger] ks[j], key@) by {
                if j < mid {
                    assert(text::before(ks[j], ks[mid as int]));
                    text::lemma_before_trans(ks[j], ks[mid as int], key@, 0);
                }
            }
            lo = mid + 1;
        } else {
            assert forall|j: int| mid <= j < ks.len() implies !text::before(#[trigger] ks[j], key@) by {
                if j > mid && text::before(ks[j], key@) {
                    assert(text::before(ks[mid as int], ks[j]));
                    text::lemma_before_trans(ks[mid as int], ks[j], key@, 0);
                }
            }
            hi = mid;
        }
    }
    proof {
        lemma_seat(ks, key@, 0);
        let p = seat(ks, key@);
        if p < lo {
            assert(text::before(ks[p], key@));
        }
        if p > lo {
            assert(text::before(ks[lo as int], key@));
        }
    }
    lo
}

/// Where `key` stands, where the table holds it.
pub fn find<V>(e: &Vec<(String, V)>, key: &str) -> (r: Option<usize>)
    requires
        ordered(stored_keys(e@)),
    ensures
        match r {
            Some(i) => holds(stored_keys(e@), key@) && i == seat(stored_keys(e@), key@) && i
                < e.len() && e@[i as int].0@ == key@,
            None => !holds(stored_keys(e@), key@),
        },
{
    let p: usize = find_seat(e, key);
    if p < e.len() {
        assert(stored_keys(e@)[p as int] == e@[p as int].0@);
        if text::same(e[p].0.as_str(), key) {
            return Some(p);
        }
    }
    None
}

/// Sets the value of `key`.
pub fn set<V>(e: &mut Vec<(String, V)>, key: String, v: V)
    requires
        ordered(stored_keys(old(e)@)),
    ensures
        holds(stored_keys(old(e)@), key@) ==> final(e)@ == old(e)@.update(
            seat(stored_keys(old(e)@), key@),
            (key, v),
        ),
        !holds(stored_keys(old(e)@), key@) ==> final(e)@ == old(e)@.insert(
            seat(stored_keys(old(e)@), key@),
            (key, v),
        ),
        ordered(stored_keys(final(e)@)),
{
    let p: usize = find_seat(e, key.as_str());
    let ghost before_set = e@;
    let ghost ks = stored_keys(e@);
    let ghost old_pairs: Seq<(Seq<char>, int)> = Seq::new(ks.len(), |i: int| (ks[i], 0int));
    let ghost k = key@;
    let here: bool = if p < e.len() {
        assert(ks[p as int] == e@[p as int].0@);
        text::same(e[p].0.as_str(), key.as_str())
    } else {
        false
    };
    proof {
        assert(keys(old_pairs) =~= ks);
        lemma_put(old_pairs, k, 0int);
    }
    if here {
        e.set(p, (key, v));
        assert(stored_keys(e@) =~= keys(put(old_pairs, k, 0int)));
    } else {
        e.insert(p, (key, v));
        assert(stored_keys(e@) =~= keys(put(old_pairs, k, 0int)));
    }
}

/// Sets the text of `key` in a table of texts.
pub fn set_text(e: &mut Vec<(String, String)>, key: String, v: String)
    requires
        ordered(stored_keys(old(e)@)),
    ensures
        text::text_pairs(final(e)@) == put(text::text_pairs(old(e)@), key@, v@),
        ordered(stored_keys(final(e)@)),
{
    let ghost pairs = text::text_pairs(e@);
    let ghost k = key@;
    let ghost w = v@;
    assert(stored_keys(e@) =~= keys(pairs));
    proof {
        lemma_seat(keys(pairs), k, 0);
    }
    set(e, key, v);
    assert(text::text_pairs(e@) =~= put(pairs, k, w));
}

/// The text of `key` in a table of texts.
pub fn get_text<'a>(e: &'a Vec<(String, String)>, key: &str) -> (r: Option<&'a String>)
    requires
        ordered(stored_keys(e@)),
    ensures
        match r {
            Some(s) => value(text::text_pairs(e@), key@) == Some(s@),
            None => value(text::text_pairs(e@), key@) is None,
        },
{
    assert(stored_keys(e@) =~= keys(text::text_pairs(e@)));
    match find(e, key) {
        Some(i) => Some(&e[i].1),
        None => None,
    }
}

} // verus!

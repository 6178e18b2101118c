//! Putting things in order: sets of texts, and sorting by rank.
use vstd::prelude::*;
use crate::text;
use crate::table;

verus! {

// ------------------------------------------------------------ sets of texts

/// The texts with `s` among them, at its place in the order.
pub open spec fn with_text(v: Seq<Seq<char>>, s: Seq<char>) -> Seq<Seq<char>> {
    if table::holds(v, s) {
        v
    } else {
        v.insert(table::seat(v, s), s)
    }
}

/// The first `n` texts in order, each once.
pub open spec fn text_set(v: Seq<Seq<char>>, n: nat) -> Seq<Seq<char>>
    decreases n,
{
    if n == 0 {
        Seq::empty()
    } else {
        with_text(text_set(v, (n - 1) as nat), v[n - 1])
    }
}

/// Adding a text keeps the order, and adds that text alone.
pub proof fn lemma_with_text(v: Seq<Seq<char>>, s: Seq<char>)
    requires
        table::ordered(v),
    ensures
        table::ordered(with_text(v, s)),
        forall|x: Seq<char>| #[trigger] text::listed(with_text(v, s), x) <==> (x == s || text::listed(v, x)),
{
    let p = table::seat(v, s);
    table::lemma_seat(v, s, 0);
    table::lemma_holds(v, s);
    let out = with_text(v, s);
    if table::holds(v, s) {
        assert(v[p] == s);
        assert forall|x: Seq<char>| #[trigger] text::listed(out, x) <==> (x == s || text::listed(v, x)) by {}
    } else {
        assert forall|i: int, j: int| 0 <= i < j < out.len() implies text::before(
            #[trigger] out[i],
            #[trigger] out[j],
        ) by {
            if j < p {
                assert(text::before(v[i], v[j]));
            } else if j == p {
            } else if i < p {
                assert(text::before(v[i], v[j - 1]));
            } else if i == p {
                text::lemma_before_total(v[p], s, 0);
                if j - 1 > p {
                    assert(text::before(v[p], v[j - 1]));
                    text::lemma_before_trans(s, v[p], v[j - 1], 0);
                }
            } else {
                assert(text::before(v[i - 1], v[j - 1]));
            }
        }
        assert forall|x: Seq<char>| #[trigger] text::listed(out, x) <==> (x == s || text::listed(v, x)) by {
            if text::listed(v, x) {
                let k = choose|k: int| 0 <= k < v.len() && #[trigger] v[k] == x;
                if k < p {
                    assert(out[k] == x);
                } else {
                    assert(out[k + 1] == x);
                }
            }
            if x == s {
                assert(out[p] == s);
            }
            if text::listed(out, x) && x != s {
                let k = choose|k: int| 0 <= k < out.len() && #[trigger] out[k] == x;
                if k < p {
                    assert(v[k] == x);
                } else {
                    assert(v[k - 1] == x);
                }
            }
        }
    }
}

/// A set of texts is in order, each once, and holds what it was made of.
pub proof fn lemma_text_set(v: Seq<Seq<char>>, n: nat)
    requires
        n <= v.len(),
    ensures
        table::ordered(text_set(v, n)),
        forall|x: Seq<char>| #[trigger] text::listed(text_set(v, n), x) <==> text::listed(v.take(n as int), x),
    decreases n,
{
    if n > 0 {
        lemma_text_set(v, (n - 1) as nat);
        lemma_with_text(text_set(v, (n - 1) as nat), v[n - 1]);
        let rest = v.take(n - 1);
        let all = v.take(n as int);
        assert forall|x: Seq<char>| #[trigger] text::listed(text_set(v, n), x) <==> text::listed(all, x) by {
            if text::listed(rest, x) {
                let k = choose|k: int| 0 <= k < rest.len() && #[trigger] rest[k] == x;
                assert(all[k] == x);
            }
            if x == v[n - 1] {
                assert(all[n - 1] == x);
            }
            if text::listed(all, x) && x != v[n - 1] {
                let k = choose|k: int| 0 <= k < all.len() && #[trigger] all[k] == x;
                assert(rest[k] == x);
            }
        }
    }
}

/// Where a text stands among texts in order, or would stand.
pub fn find_text(v: &Vec<String>, s: &str) -> (r: usize)
    requires
        table::ordered(text::texts(v@)),
    ensures
        r == table::seat(text::texts(v@), s@),
        r <= v.len(),
{
    let ghost all = text::texts(v@);
    let mut lo: usize = 0;
    let mut hi: usize = v.len();
    while lo < hi
        invariant
            lo <= hi <= v.len(),
            all == text::texts(v@),
            table::ordered(all),
            forall|j: int| 0 <= j < lo ==> text::before(#[trigger] all[j], s@),
            forall|j: int| hi <= j < all.len() ==> !text::before(#[trigger] all[j], s@),
        decreases hi - lo,
    {
        let mid: usize = lo + (hi - lo) / 2;
        assert(all[mid as int] == v@[mid as int]@);
        if text::comes_before(v[mid].as_str(), s) {
            assert forall|j: int| 0 <= j < mid + 1 implies text::before(#[trigger] all[j], s@) by {
                if j < mid {
                    assert(text::before(all[j], all[mid as int]));
                    text::lemma_before_trans(all[j], all[mid as int], s@, 0);
                }
            }
            lo = mid + 1;
        } else {
            assert forall|j: int| mid <= j < all.len() implies !text::before(
                #[trigger] all[j],
                s@,
            ) by {
                if j > mid && text::before(all[j], s@) {
                    assert(text::before(all[mid as int], all[j]));
                    text::lemma_before_trans(all[mid as int], all[j], s@, 0);
                }
            }
            hi = mid;
        }
    }
    proof {
        table::lemma_seat(all, s@, 0);
        let p = table::seat(all, s@);
        if p < lo {
            assert(text::before(all[p], s@));
        }
        if p > lo {
            assert(text::before(all[lo as int], s@));
        }
    }
    lo
}

/// Adds a text at its place in the order, unless it is there. Tells whether
/// it is new.
pub fn add_text(v: &mut Vec<String>, s: String) -> (r: bool)
    requires
        table::ordered(text::texts(old(v)@)),
    ensures
        text::texts(final(v)@) == with_text(text::texts(old(v)@), s@),
        table::ordered(text::texts(final(v)@)),
        r == !text::listed(text::texts(old(v)@), s@),
{
    let ghost all = text::texts(v@);
    proof {
        lemma_with_text(all, s@);
        table::lemma_holds(all, s@);
    }
    let p = find_text(v, s.as_str());
    assert(p < v.len() ==> all[p as int] == v@[p as int]@);
    assert(all.len() == v@.len());
    if p < v.len() && text::same(v[p].as_str(), s.as_str()) {
        return false;
    }
    v.insert(p, s);
    assert(text::texts(v@) =~= all.insert(p as int, s@));
    true
}

/// The texts in order, each once.
pub fn set_of(v: &Vec<String>) -> (r: Vec<String>)
    ensures
        text::texts(r@) == text_set(text::texts(v@), v@.len()),
        table::ordered(text::texts(r@)),
{
    let mut out: Vec<String> = Vec::new();
    let mut k: usize = 0;
    assert(text::texts(out@) =~= Seq::<Seq<char>>::empty());
    while k < v.len()
        invariant
            k <= v.len(),
            text::texts(out@) == text_set(text::texts(v@), k as nat),
            table::ordered(text::texts(out@)),
        decreases v.len() - k,
    {
        assert(text::texts(v@)[k as int] == v@[k as int]@);
        let _ = add_text(&mut out, v[k].clone());
        k += 1;
    }
    out
}

// ------------------------------------------------------------------ sorting

/// Something that has a rank among its like.
pub trait Ranked: Sized {
    /// What it says.
    type Text;

    spec fn says(self) -> Self::Text;

    /// Does `a` come before `b`?
    spec fn below(a: Self::Text, b: Self::Text) -> bool;

    fn is_below(&self, other: &Self) -> (r: bool)
        ensures
            r == Self::below(self.says(), other.says()),
    ;
}

/// Texts rank by their characters.
impl Ranked for String {
    type Text = Seq<char>;

    open spec fn says(self) -> Seq<char> {
        self@
    }

    open spec fn below(a: Seq<char>, b: Seq<char>) -> bool {
        text::before(a, b)
    }

    fn is_below(&self, other: &Self) -> (r: bool) {
        text::comes_before(self.as_str(), other.as_str())
    }
}

/// What a list of ranked things says.
pub open spec fn all_say<R: Ranked>(v: Seq<R>) -> Seq<R::Text> {
    Seq::new(v.len(), |i: int| v[i].says())
}

/// The first place from `i` on that `x` comes before.
pub open spec fn place_for<R: Ranked>(v: Seq<R::Text>, x: R::Text, i: int) -> int
    decreases v.len() - i,
{
    if i >= v.len() {
        v.len() as int
    } else if R::below(x, v[i]) {
        i
    } else {
        place_for::<R>(v, x, i + 1)
    }
}

/// The first `n` things in order; those of the same rank stay as they were.
pub open spec fn sorted_upto<R: Ranked>(v: Seq<R::Text>, n: nat) -> Seq<R::Text>
    decreases n,
{
    if n == 0 {
        Seq::empty()
    } else {
        let rest = sorted_upto::<R>(v, (n - 1) as nat);
        rest.insert(place_for::<R>(rest, v[n - 1], 0), v[n - 1])
    }
}

/// The things in order; those of the same rank stay as they were.
pub open spec fn sorted<R: Ranked>(v: Seq<R::Text>) -> Seq<R::Text> {
    sorted_upto::<R>(v, v.len())
}

/// The place for a thing is within the list.
pub proof fn lemma_place_for<R: Ranked>(v: Seq<R::Text>, x: R::Text, i: int)
    requires
        0 <= i <= v.len(),
    ensures
        i <= place_for::<R>(v, x, i) <= v.len(),
        forall|j: int| i <= j < place_for::<R>(v, x, i) ==> !R::below(x, #[trigger] v[j]),
        place_for::<R>(v, x, i) < v.len() ==> R::below(x, v[place_for::<R>(v, x, i)]),
    decreases v.len() - i,
{
    if i < v.len() && !R::below(x, v[i]) {
        lemma_place_for::<R>(v, x, i + 1);
    }
}

/// Sorting keeps what there is, as often as it is there.
pub proof fn lemma_sorted_keeps<R: Ranked>(v: Seq<R::Text>, n: nat)
    requires
        n <= v.len(),
    ensures
        sorted_upto::<R>(v, n).len() == n,
        sorted_upto::<R>(v, n).to_multiset() =~= v.take(n as int).to_multiset(),
    decreases n,
{
    broadcast use vstd::seq_lib::group_to_multiset_ensures;

    if n == 0 {
        assert(v.take(0) =~= Seq::<R::Text>::empty());
    } else {
        lemma_sorted_keeps::<R>(v, (n - 1) as nat);
        let rest = sorted_upto::<R>(v, (n - 1) as nat);
        lemma_place_for::<R>(rest, v[n - 1], 0);
        let p = place_for::<R>(rest, v[n - 1], 0);
        vstd::seq_lib::to_multiset_insert(rest, p, v[n - 1]);
        assert(v.take(n as int) =~= v.take(n - 1).push(v[n - 1]));
    }
}

/// Sorting keeps what is in a list.
pub proof fn lemma_sorted_contains<R: Ranked>(v: Seq<R::Text>, x: R::Text)
    ensures
        sorted::<R>(v).contains(x) <==> v.contains(x),
{
    lemma_sorted_keeps::<R>(v, v.len());
    assert(v.take(v.len() as int) =~= v);
    vstd::seq_lib::to_multiset_contains(sorted::<R>(v), x);
    vstd::seq_lib::to_multiset_contains(v, x);
}

/// Sorting puts nothing after what it comes before.
pub proof fn lemma_sorted_order<R: Ranked>(v: Seq<R::Text>, n: nat)
    requires
        n <= v.len(),
        forall|a: R::Text, b: R::Text| #[trigger] R::below(a, b) ==> !R::below(b, a),
        forall|a: R::Text, b: R::Text, c: R::Text|
            !#[trigger] R::below(a, b) && !#[trigger] R::below(b, c) ==> !R::below(a, c),
    ensures
        sorted_upto::<R>(v, n).len() == n,
        forall|i: int, j: int|
            0 <= i < j < n ==> !R::below(
                #[trigger] sorted_upto::<R>(v, n)[j],
                #[trigger] sorted_upto::<R>(v, n)[i],
            ),
    decreases n,
{
    if n > 0 {
        let rest = sorted_upto::<R>(v, (n - 1) as nat);
        let x = v[n - 1];
        lemma_sorted_order::<R>(v, (n - 1) as nat);
        lemma_place_for::<R>(rest, x, 0);
        let p = place_for::<R>(rest, x, 0);
        let out = sorted_upto::<R>(v, n);
        assert forall|i: int, j: int| 0 <= i < j < n implies !R::below(
            #[trigger] out[j],
            #[trigger] out[i],
        ) by {
            if j < p {
                assert(!R::below(rest[j], rest[i]));
            } else if j == p {
                assert(!R::below(x, rest[i]));
            } else if i > p {
                assert(!R::below(rest[j - 1], rest[i - 1]));
            } else if i == p {
                assert(R::below(x, rest[p]));
                if j - 1 > p {
                    assert(!R::below(rest[j - 1], rest[p]));
                }
                assert(!R::below(rest[j - 1], x));
            } else {
                assert(!R::below(rest[j - 1], rest[i]));
            }
        }
    }
}

/// Two lists of the same texts are the same once sorted.
pub proof fn lemma_sorted_texts(a: Seq<Seq<char>>, b: Seq<Seq<char>>)
    requires
        a.to_multiset() == b.to_multiset(),
    ensures
        sorted::<String>(a) == sorted::<String>(b),
{
    assert forall|x: Seq<char>, y: Seq<char>| #[trigger] String::below(
        x,
        y,
    ) implies !String::below(y, x) by {
        text::lemma_before_total(x, y, 0);
    }
    assert forall|x: Seq<char>, y: Seq<char>, z: Seq<char>|
        !#[trigger] String::below(x, y) && !#[trigger] String::below(y, z) implies !String::below(
        x,
        z,
    ) by {
        lemma_not_before(x, y, z);
    }
    lemma_sorted_order::<String>(a, a.len());
    lemma_sorted_order::<String>(b, b.len());
    lemma_sorted_keeps::<String>(a, a.len());
    lemma_sorted_keeps::<String>(b, b.len());
    assert(a.take(a.len() as int) =~= a);
    assert(b.take(b.len() as int) =~= b);
    let leq = |x: Seq<char>, y: Seq<char>| !text::before(y, x);
    let sa = sorted::<String>(a);
    let sb = sorted::<String>(b);
    assert forall|i: int, j: int| 0 <= i < j < sa.len() implies #[trigger] leq(sa[i], sa[j]) by {
        assert(!String::below(sa[j], sa[i]));
    }
    assert forall|i: int, j: int| 0 <= i < j < sb.len() implies #[trigger] leq(sb[i], sb[j]) by {
        assert(!String::below(sb[j], sb[i]));
    }
    assert(vstd::relations::total_ordering(leq)) by {
        assert forall|x: Seq<char>| #[trigger] leq(x, x) by {
            text::lemma_before_total(x, x, 0);
        }
        assert forall|x: Seq<char>, y: Seq<char>| #[trigger] leq(x, y) && #[trigger] leq(
            y,
            x,
        ) implies x == y by {
            text::lemma_before_total(x, y, 0);
        }
        assert forall|x: Seq<char>, y: Seq<char>, z: Seq<char>| #[trigger] leq(x, y)
            && #[trigger] leq(y, z) implies leq(x, z) by {
            lemma_not_before(z, y, x);
        }
        assert forall|x: Seq<char>, y: Seq<char>| #[trigger] leq(x, y) || #[trigger] leq(y, x) by {
            text::lemma_before_total(x, y, 0);
        }
    }
    vstd::seq_lib::lemma_sorted_unique(sa, sb, leq);
}

/// What does not come before another does not come before what that does not
/// come before.
proof fn lemma_not_before(x: Seq<char>, y: Seq<char>, z: Seq<char>)
    requires
        !text::before(x, y),
        !text::before(y, z),
    ensures
        !text::before(x, z),
{
    text::lemma_before_total(x, y, 0);
    text::lemma_before_total(y, z, 0);
    text::lemma_before_total(x, z, 0);
    if text::before(x, z) && text::before(y, x) {
        text::lemma_before_trans(y, x, z, 0);
    }
}

/// The things in order; those of the same rank stay as they were.
pub fn sort<R: Ranked>(v: Vec<R>) -> (r: Vec<R>)
    ensures
        all_say(r@) == sorted::<R>(all_say(v@)),
{
    let mut rest = v;
    let ghost all = all_say(rest@);
    let mut out: Vec<R> = Vec::new();
    assert(all_say(out@) =~= Seq::<R::Text>::empty());
    let ghost mut n: nat = 0;
    while rest.len() > 0
        invariant
            n + rest@.len() == all.len(),
            forall|j: int| 0 <= j < rest@.len() ==> (#[trigger] rest@[j]).says() == all[n + j],
            all_say(out@) == sorted_upto::<R>(all, n),
        decreases rest.len(),
    {
        let ghost before = rest@;
        let x = rest.remove(0);
        assert(x.says() == all[n as int]);
        let ghost done = all_say(out@);
        let mut p: usize = 0;
        while p < out.len() && !x.is_below(&out[p])
            invariant
                p <= out.len(),
                done == all_say(out@),
                place_for::<R>(done, x.says(), 0) == place_for::<R>(done, x.says(), p as int),
            decreases out.len() - p,
        {
            assert(done[p as int] == out@[p as int].says());
            p += 1;
        }
        assert(p < out.len() ==> done[p as int] == out@[p as int].says());
        let ghost said = x.says();
        out.insert(p, x);
        assert(all_say(out@) =~= done.insert(p as int, said));
        proof {
            n = n + 1;
            assert forall|j: int| 0 <= j < rest@.len() implies (#[trigger] rest@[j]).says()
                == all[n + j] by {
                assert(rest@[j] == before[j + 1]);
            }
        }
    }
    out
}

} // verus!

//! Communities: the parts of clustering a graph that need no weights.
//!
//! Clustering moves nodes between communities, collapses each community into
//! one node, and repeats. Here stand the order in which nodes are visited,
//! the relabelling between levels, the numbering of names, and the partition
//! that comes out. Node visiting order is shuffled with a seeded generator so
//! a given seed always yields the same partition: a clustering that jitters
//! between calls would be unreadable.
use vstd::prelude::*;
use crate::order;
use crate::text;
use crate::table;
use crate::order::Ranked;
use std::collections::HashMap;

verus! {

// -------------------------------------------------------------- the shuffle

/// xorshift64*: deterministic, tiny, and good enough to break the order bias
/// that makes naive clustering unstable.
pub struct Rng(pub u64);

/// The state after one draw.
pub open spec fn stirred(state: u64) -> u64 {
    let a = state ^ (state >> 12u64);
    let b = a ^ (a << 25u64);
    b ^ (b >> 27u64)
}

/// The number that a state gives.
pub open spec fn drawn(state: u64) -> u64 {
    vstd::wrapping::u64_specs::wrapping_mul(state, 0x2545_F491_4F6C_DD1D)
}

/// The items with those at `i` and `j` changed over.
pub open spec fn crossed<T>(s: Seq<T>, i: int, j: int) -> Seq<T> {
    s.update(i, s[j]).update(j, s[i])
}

/// The state and the items after a shuffle of the items up to place `i`: from
/// the last place down, each is changed over with a drawn one up to it.
pub open spec fn shuffled<T>(state: u64, s: Seq<T>, i: int) -> (u64, Seq<T>)
    decreases i,
{
    if i <= 0 {
        (state, s)
    } else {
        let next = stirred(state);
        shuffled(next, crossed(s, i, drawn(next) as int % (i + 1)), i - 1)
    }
}

impl Rng {
    /// A generator for a seed; the seed 0 counts as 1.
    pub fn new(seed: u64) -> (r: Rng)
        ensures
            r.0 == if seed == 0 {
                1
            } else {
                seed
            },
    {
        if seed == 0 {
            Rng(1)
        } else {
            Rng(seed)
        }
    }

    /// The next number.
    pub fn next(&mut self) -> (r: u64)
        ensures
            final(self).0 == stirred(old(self).0),
            r == drawn(stirred(old(self).0)),
    {
        let state: u64 = self.0;
        let a: u64 = state ^ (state >> 12u64);
        let b: u64 = a ^ (a << 25u64);
        let c: u64 = b ^ (b >> 27u64);
        self.0 = c;
        c.wrapping_mul(0x2545_F491_4F6C_DD1D)
    }

    /// Shuffles the items.
    pub fn shuffle(&mut self, items: &mut Vec<usize>)
        ensures
            (final(self).0, final(items)@) == shuffled(
                old(self).0,
                old(items)@,
                old(items)@.len() - 1,
            ),
    {
        let ghost first = self.0;
        let ghost all = items@;
        let mut n: usize = items.len();
        while n > 1
            invariant
                items@.len() == all.len(),
                n <= items@.len(),
                shuffled(self.0, items@, n - 1) == shuffled(first, all, all.len() - 1),
            decreases n,
        {
            let i: usize = n - 1;
            let j: usize = (self.next() % (i as u64 + 1)) as usize;
            let a: usize = items[i];
            let b: usize = items[j];
            items.set(i, b);
            items.set(j, a);
            n -= 1;
        }
    }
}

/// Shuffling keeps the items.
pub proof fn law_shuffling_keeps_the_items<T>(state: u64, s: Seq<T>, i: int)
    requires
        i < s.len(),
    ensures
        shuffled(state, s, i).1.to_multiset() =~= s.to_multiset(),
        shuffled(state, s, i).1.len() == s.len(),
    decreases i,
{
    if i > 0 {
        let next = stirred(state);
        let j = drawn(next) as int % (i + 1);
        assert(0 <= j <= i) by {
            vstd::arithmetic::div_mod::lemma_mod_bound(drawn(next) as int, i + 1);
        }
        let out = crossed(s, i, j);
        law_shuffling_keeps_the_items(next, out, i - 1);
        let half = s.update(i, s[j]);
        vstd::seq_lib::to_multiset_update(s, i, s[j]);
        vstd::seq_lib::to_multiset_update(half, j, s[i]);
        vstd::seq_lib::to_multiset_contains(s, s[i]);
        assert(s.contains(s[i]) && s.contains(s[j]));
        vstd::seq_lib::to_multiset_contains(s, s[j]);
        assert(out.to_multiset() =~= s.to_multiset());
    }
}

/// The generator never sticks at 0.
pub proof fn law_the_generator_never_sticks(state: u64)
    requires
        state != 0,
    ensures
        stirred(state) != 0,
{
    let a = state ^ (state >> 12u64);
    let b = a ^ (a << 25u64);
    assert(state ^ (state >> 12u64) != 0) by (bit_vector)
        requires
            state != 0,
    ;
    assert(a ^ (a << 25u64) != 0) by (bit_vector)
        requires
            a != 0,
    ;
    assert(b ^ (b >> 27u64) != 0) by (bit_vector)
        requires
            b != 0,
    ;
}

// --------------------------------------------------------------- the labels

/// The distinct labels among the first `n`, as they are first seen.
pub open spec fn seen_upto(labels: Seq<usize>, n: nat) -> Seq<usize>
    decreases n,
{
    if n == 0 {
        Seq::empty()
    } else {
        let rest = seen_upto(labels, (n - 1) as nat);
        if rest.contains(labels[n - 1]) {
            rest
        } else {
            rest.push(labels[n - 1])
        }
    }
}

/// The distinct labels, as they are first seen.
pub open spec fn seen(labels: Seq<usize>) -> Seq<usize> {
    seen_upto(labels, labels.len())
}

/// Does `dense` number the labels in the order in which they are first seen?
pub open spec fn numbers(dense: Seq<usize>, labels: Seq<usize>) -> bool {
    &&& dense.len() == labels.len()
    &&& forall|i: int|
        0 <= i < labels.len() ==> #[trigger] dense[i] < seen(labels).len() && seen(
            labels,
        )[dense[i] as int] == labels[i]
}

/// Distinct labels are seen once each.
pub proof fn lemma_seen(labels: Seq<usize>, n: nat)
    requires
        n <= labels.len(),
    ensures
        seen_upto(labels, n).no_duplicates(),
        seen_upto(labels, n).len() <= n,
        forall|i: int| 0 <= i < n ==> seen_upto(labels, n).contains(#[trigger] labels[i]),
    decreases n,
{
    if n > 0 {
        lemma_seen(labels, (n - 1) as nat);
        let rest = seen_upto(labels, (n - 1) as nat);
        let all = seen_upto(labels, n);
        assert forall|i: int| 0 <= i < n implies all.contains(#[trigger] labels[i]) by {
            if i < n - 1 {
                assert(rest.contains(labels[i]));
                let k = choose|k: int| 0 <= k < rest.len() && rest[k] == labels[i];
                assert(all[k] == labels[i]);
            } else if !rest.contains(labels[i]) {
                assert(all[rest.len() as int] == labels[i]);
            }
        }
    }
}

/// Two nodes have the same number exactly where they have the same label.
pub proof fn law_numbers_tell_labels_apart(
    dense: Seq<usize>,
    labels: Seq<usize>,
    i: int,
    j: int,
)
    requires
        numbers(dense, labels),
        0 <= i < labels.len(),
        0 <= j < labels.len(),
    ensures
        dense[i] == dense[j] <==> labels[i] == labels[j],
{
    lemma_seen(labels, labels.len());
}

/// Relabels communities to a dense range from 0, preserving first-seen order.
pub fn densify(labels: &Vec<usize>) -> (r: (Vec<usize>, usize))
    ensures
        numbers(r.0@, labels@),
        r.1 == seen(labels@).len(),
{
    broadcast use vstd::std_specs::hash::group_hash_axioms;

    let ghost all = labels@;
    let mut mapping: HashMap<usize, usize> = HashMap::new();
    let mut dense: Vec<usize> = Vec::new();
    let mut count: usize = 0;
    let mut k: usize = 0;
    while k < labels.len()
        invariant
            k <= labels.len(),
            all == labels@,
            count == seen_upto(all, k as nat).len(),
            count <= k,
            dense@.len() == k,
            forall|i: int|
                0 <= i < k ==> #[trigger] dense@[i] < count && seen_upto(
                    all,
                    k as nat,
                )[dense@[i] as int] == all[i],
            forall|l: usize|
                #[trigger] mapping@.contains_key(l) <==> seen_upto(all, k as nat).contains(l),
            forall|l: usize| #[trigger]
                mapping@.contains_key(l) ==> mapping@[l] < count && seen_upto(
                    all,
                    k as nat,
                )[mapping@[l] as int] == l,
        decreases labels.len() - k,
    {
        let label: usize = labels[k];
        let ghost rest = seen_upto(all, k as nat);
        let ghost next = seen_upto(all, (k + 1) as nat);
        assert(all[k as int] == label);
        match mapping.get(&label) {
            Some(id) => {
                assert(mapping@.contains_key(label));
                dense.push(*id);
            },
            None => {
                assert(!mapping@.contains_key(label));
                let ghost before = mapping@;
                mapping.insert(label, count);
                dense.push(count);
                count += 1;
                assert(next == rest.push(label));
                assert forall|l: usize| #[trigger] mapping@.contains_key(l) <==> next.contains(
                    l,
                ) by {
                    assert(mapping@.contains_key(l) <==> before.contains_key(l) || l == label);
                    if rest.contains(l) {
                        let p = choose|p: int| 0 <= p < rest.len() && rest[p] == l;
                        assert(next[p] == l);
                    }
                    assert(next[rest.len() as int] == label);
                    if next.contains(l) && l != label {
                        let p = choose|p: int| 0 <= p < next.len() && next[p] == l;
                        assert(rest[p] == l);
                    }
                }
                assert forall|l: usize| #[trigger] mapping@.contains_key(l) implies mapping@[l]
                    < count && next[mapping@[l] as int] == l by {
                    if l != label {
                        assert(before.contains_key(l));
                    }
                }
            },
        }
        k += 1;
    }
    (dense, count)
}

/// Where every node is after a level, given where it was and the number of
/// each community's label.
pub open spec fn carried(membership: Seq<usize>, dense: Seq<usize>) -> Seq<usize> {
    Seq::new(membership.len(), |i: int| dense[membership[i] as int])
}

/// Takes the partition one level on: where every node is now, the number of
/// each label, and how many communities there are. None where nothing merged:
/// the level before was already the best.
pub fn next_level(membership: &Vec<usize>, labels: &Vec<usize>) -> (r: Option<
    (Vec<usize>, Vec<usize>, usize),
>)
    requires
        forall|i: int| 0 <= i < membership@.len() ==> #[trigger] membership@[i] < labels@.len(),
    ensures
        r is None <==> seen(labels@).len() == labels@.len(),
        r matches Some((moved, dense, count)) ==> {
            &&& numbers(dense@, labels@)
            &&& moved@ == carried(membership@, dense@)
            &&& count == seen(labels@).len()
            &&& forall|i: int| 0 <= i < moved@.len() ==> #[trigger] moved@[i] < count
        },
{
    let (dense, count) = densify(labels);
    if count == labels.len() {
        return None;
    }
    let mut moved: Vec<usize> = Vec::new();
    let mut k: usize = 0;
    while k < membership.len()
        invariant
            k <= membership.len(),
            dense@.len() == labels@.len(),
            forall|i: int| 0 <= i < membership@.len() ==> #[trigger] membership@[i] < labels@.len(),
            moved@.len() == k,
            forall|i: int|
                0 <= i < k ==> #[trigger] moved@[i] == dense@[membership@[i] as int],
        decreases membership.len() - k,
    {
        let at: usize = membership[k];
        moved.push(dense[at]);
        k += 1;
    }
    assert(moved@ =~= carried(membership@, dense@));
    Some((moved, dense, count))
}

/// A merging level has fewer communities than the one before.
pub proof fn law_a_level_shrinks(labels: Seq<usize>)
    ensures
        seen(labels).len() <= labels.len(),
{
    lemma_seen(labels, labels.len());
}

// ---------------------------------------------------------------- the names

/// The distinct names among the first `n`, as they are first seen.
pub open spec fn names_upto(v: Seq<Seq<char>>, n: nat) -> Seq<Seq<char>>
    decreases n,
{
    if n == 0 {
        Seq::empty()
    } else {
        let rest = names_upto(v, (n - 1) as nat);
        if text::listed(rest, v[n - 1]) {
            rest
        } else {
            rest.push(v[n - 1])
        }
    }
}

/// Every name in turn: both ends of each edge, then the isolated ones.
pub open spec fn mentions(ends: Seq<(Seq<char>, Seq<char>)>, isolated: Seq<Seq<char>>) -> Seq<
    Seq<char>,
> {
    Seq::new(
        2 * ends.len() + isolated.len(),
        |i: int|
            if i >= 2 * ends.len() {
                isolated[i - 2 * ends.len()]
            } else if i % 2 == 0 {
                ends[i / 2].0
            } else {
                ends[i / 2].1
            },
    )
}

/// The numbering of names: each name at its number, and each number by its
/// name.
pub struct Names {
    pub names: Vec<String>,
    pub index: Vec<(String, usize)>,
}

impl Names {
    /// Does the index give each name its number, and no other name any?
    pub open spec fn valid(self) -> bool {
        &&& table::ordered(table::stored_keys(self.index@))
        &&& self.index@.len() == self.names@.len()
        &&& forall|i: int|
            0 <= i < self.index@.len() ==> (#[trigger] self.index@[i]).1 < self.names@.len()
                && self.names@[self.index@[i].1 as int]@ == self.index@[i].0@
        &&& forall|k: int|
            0 <= k < self.names@.len() ==> text::listed(
                table::stored_keys(self.index@),
                (#[trigger] self.names@[k])@,
            )
    }

    /// No names yet.
    pub fn new() -> (r: Names)
        ensures
            r.valid(),
            r.names@.len() == 0,
    {
        Names { names: Vec::new(), index: Vec::new() }
    }

    /// The number of a name, a new one where it has none.
    pub fn intern(&mut self, name: &str) -> (r: usize)
        requires
            old(self).valid(),
        ensures
            final(self).valid(),
            text::texts(final(self).names@) == if text::listed(text::texts(old(self).names@), name@) {
                text::texts(old(self).names@)
            } else {
                text::texts(old(self).names@).push(name@)
            },
            r < final(self).names@.len(),
            final(self).names@[r as int]@ == name@,
    {
        let ghost ks = table::stored_keys(self.index@);
        let ghost all = text::texts(self.names@);
        let ghost before = self.index@;
        let ghost named = self.names@;
        proof {
            table::lemma_holds(ks, name@);
        }
        match table::find(&self.index, name) {
            Some(i) => {
                let id: usize = self.index[i].1;
                assert(self.index@[i as int].1 == id);
                assert(all[id as int] == name@);
                id
            },
            None => {
                assert(!text::listed(all, name@)) by {
                    if text::listed(all, name@) {
                        let k = choose|k: int| 0 <= k < all.len() && #[trigger] all[k] == name@;
                        assert(text::listed(ks, self.names@[k]@));
                    }
                }
                let id: usize = self.names.len();
                let key = name.to_string();
                let own = name.to_string();
                proof {
                    text::lemma_texts_push(self.names@, own);
                    table::lemma_seat(ks, name@, 0);
                }
                self.names.push(own);
                table::set(&mut self.index, key, id);
                let ghost p = table::seat(ks, name@);
                assert(self.index@ == before.insert(p, (key, id)));
                assert forall|i: int| 0 <= i < self.index@.len() implies (
                #[trigger] self.index@[i]).1 < self.names@.len()
                    && self.names@[self.index@[i].1 as int]@ == self.index@[i].0@ by {
                    if i < p {
                        assert(self.index@[i] == before[i]);
                        assert(self.names@[before[i].1 as int] == named[before[i].1 as int]);
                    } else if i > p {
                        assert(self.index@[i] == before[i - 1]);
                        assert(self.names@[before[i - 1].1 as int] == named[before[i - 1].1 as int]);
                    }
                }
                let ghost now = table::stored_keys(self.index@);
                assert forall|k: int| 0 <= k < self.names@.len() implies text::listed(
                    now,
                    (#[trigger] self.names@[k])@,
                ) by {
                    if k < named.len() {
                        assert(self.names@[k] == named[k]);
                        assert(text::listed(ks, named[k]@));
                        let q = choose|q: int| 0 <= q < ks.len() && #[trigger] ks[q] == named[k]@;
                        if q < p {
                            assert(now[q] == ks[q]);
                        } else {
                            assert(now[q + 1] == ks[q]);
                        }
                    } else {
                        assert(now[p] == name@);
                    }
                }
                id
            },
        }
    }
}

/// Do the numbers name the ends?
pub open spec fn ends_named(
    ids: Seq<(usize, usize)>,
    ends: Seq<(Seq<char>, Seq<char>)>,
    names: Seq<Seq<char>>,
) -> bool {
    &&& ids.len() == ends.len()
    &&& forall|k: int|
        0 <= k < ids.len() ==> (#[trigger] ids[k]).0 < names.len() && ids[k].1 < names.len()
            && names[ids[k].0 as int] == ends[k].0 && names[ids[k].1 as int] == ends[k].1
}

/// Interns names to dense numbers, in the order in which they are first seen.
/// Isolated nodes carry no edges, but still appear.
pub fn intern_all(ends: &Vec<(String, String)>, isolated: &Vec<String>) -> (r: (
    Vec<String>,
    Vec<(usize, usize)>,
))
    ensures
        text::texts(r.0@) == names_upto(
            mentions(text::text_pairs(ends@), text::texts(isolated@)),
            2 * ends@.len() + isolated@.len(),
        ),
        ends_named(r.1@, text::text_pairs(ends@), text::texts(r.0@)),
{
    let ghost pairs = text::text_pairs(ends@);
    let ghost all = mentions(pairs, text::texts(isolated@));
    let mut names = Names::new();
    let mut ids: Vec<(usize, usize)> = Vec::new();
    let mut k: usize = 0;
    assert(text::texts(names.names@) =~= Seq::<Seq<char>>::empty());
    while k < ends.len()
        invariant
            k <= ends.len(),
            pairs == text::text_pairs(ends@),
            all == mentions(pairs, text::texts(isolated@)),
            names.valid(),
            text::texts(names.names@) == names_upto(all, (2 * k) as nat),
            ids@.len() == k,
            forall|j: int|
                0 <= j < k ==> (#[trigger] ids@[j]).0 < names.names@.len() && ids@[j].1
                    < names.names@.len() && text::texts(names.names@)[ids@[j].0 as int] == pairs[j].0
                    && text::texts(names.names@)[ids@[j].1 as int] == pairs[j].1,
        decreases ends.len() - k,
    {
        let ghost before = text::texts(names.names@);
        assert(all[2 * k] == ends@[k as int].0@);
        assert(all[2 * k + 1] == ends@[k as int].1@);
        let a: usize = names.intern(ends[k].0.as_str());
        let ghost between = text::texts(names.names@);
        assert(between == names_upto(all, (2 * k + 1) as nat));
        assert(between[a as int] == pairs[k as int].0);
        let b: usize = names.intern(ends[k].1.as_str());
        let ghost after = text::texts(names.names@);
        assert(after == names_upto(all, (2 * k + 2) as nat));
        assert(after[b as int] == pairs[k as int].1);
        assert(after[a as int] == between[a as int]);
        assert forall|j: int| 0 <= j < k implies (#[trigger] ids@[j]).0 < after.len() && ids@[j].1
            < after.len() && after[ids@[j].0 as int] == pairs[j].0 && after[ids@[j].1 as int]
            == pairs[j].1 by {
            assert(after[ids@[j].0 as int] == before[ids@[j].0 as int]);
            assert(after[ids@[j].1 as int] == before[ids@[j].1 as int]);
        }
        ids.push((a, b));
        k += 1;
    }
    let mut m: usize = 0;
    let ghost base = 2 * ends@.len();
    while m < isolated.len()
        invariant
            m <= isolated.len(),
            pairs == text::text_pairs(ends@),
            base == 2 * ends@.len(),
            all == mentions(pairs, text::texts(isolated@)),
            names.valid(),
            text::texts(names.names@) == names_upto(all, (base + m) as nat),
            ids@.len() == pairs.len(),
            forall|j: int|
                0 <= j < ids@.len() ==> (#[trigger] ids@[j]).0 < names.names@.len() && ids@[j].1
                    < names.names@.len() && text::texts(names.names@)[ids@[j].0 as int] == pairs[j].0
                    && text::texts(names.names@)[ids@[j].1 as int] == pairs[j].1,
        decreases isolated.len() - m,
    {
        let ghost before = text::texts(names.names@);
        assert(all[base + m] == isolated@[m as int]@);
        let _ = names.intern(isolated[m].as_str());
        let ghost after = text::texts(names.names@);
        assert forall|j: int| 0 <= j < ids@.len() implies (#[trigger] ids@[j]).0 < after.len()
            && ids@[j].1 < after.len() && after[ids@[j].0 as int] == pairs[j].0
            && after[ids@[j].1 as int] == pairs[j].1 by {
            assert(after[ids@[j].0 as int] == before[ids@[j].0 as int]);
            assert(after[ids@[j].1 as int] == before[ids@[j].1 as int]);
        }
        m += 1;
    }
    (names.names, ids)
}

// ------------------------------------------------------------ the partition

/// One more than the greatest of the first `n` labels.
pub open spec fn count_upto(labels: Seq<usize>, n: nat) -> nat
    decreases n,
{
    if n == 0 {
        0
    } else {
        let rest = count_upto(labels, (n - 1) as nat);
        if labels[n - 1] < rest {
            rest
        } else {
            labels[n - 1] as nat + 1
        }
    }
}

/// One more than the greatest label; 0 where there is none.
pub fn community_count(labels: &Vec<usize>) -> (r: usize)
    requires
        forall|i: int| 0 <= i < labels@.len() ==> #[trigger] labels@[i] < usize::MAX,
    ensures
        r == count_upto(labels@, labels@.len()),
{
    let mut count: usize = 0;
    let mut k: usize = 0;
    while k < labels.len()
        invariant
            k <= labels.len(),
            forall|i: int| 0 <= i < labels@.len() ==> #[trigger] labels@[i] < usize::MAX,
            count == count_upto(labels@, k as nat),
        decreases labels.len() - k,
    {
        if labels[k] >= count {
            count = labels[k] + 1;
        }
        k += 1;
    }
    count
}

/// The names of the first `n` nodes that are in community `c`.
pub open spec fn members(
    names: Seq<Seq<char>>,
    membership: Seq<usize>,
    c: int,
    n: nat,
) -> Seq<Seq<char>>
    decreases n,
{
    if n == 0 {
        Seq::empty()
    } else {
        let rest = members(names, membership, c, (n - 1) as nat);
        if membership[n - 1] == c {
            rest.push(names[n - 1])
        } else {
            rest
        }
    }
}

/// A community, as the names in it.
pub struct Bucket {
    pub names: Vec<String>,
}

impl Ranked for Bucket {
    type Text = Seq<Seq<char>>;

    open spec fn says(self) -> Seq<Seq<char>> {
        text::texts(self.names@)
    }

    /// The larger comes first; of two of one size, the one whose first name
    /// comes first.
    open spec fn below(a: Seq<Seq<char>>, b: Seq<Seq<char>>) -> bool {
        a.len() > b.len() || (a.len() == b.len() && a.len() > 0 && text::before(a[0], b[0]))
    }

    fn is_below(&self, other: &Self) -> (r: bool) {
        assert(text::texts(self.names@).len() == self.names@.len());
        assert(text::texts(other.names@).len() == other.names@.len());
        if self.names.len() == other.names.len() && self.names.len() > 0 {
            assert(text::texts(self.names@)[0] == self.names@[0]@);
            assert(text::texts(other.names@)[0] == other.names@[0]@);
            text::comes_before(self.names[0].as_str(), other.names[0].as_str())
        } else {
            self.names.len() > other.names.len()
        }
    }
}

/// The first `c` communities that hold anyone, each with its names in order.
pub open spec fn filled_communities(
    names: Seq<Seq<char>>,
    membership: Seq<usize>,
    c: nat,
) -> Seq<Seq<Seq<char>>>
    decreases c,
{
    if c == 0 {
        Seq::empty()
    } else {
        let rest = filled_communities(names, membership, (c - 1) as nat);
        let here = members(names, membership, c - 1, membership.len());
        if here.len() == 0 {
            rest
        } else {
            rest.push(order::sorted::<String>(here))
        }
    }
}

/// The partition: one list of names for each community, each sorted, the
/// largest community first.
pub open spec fn partition(names: Seq<Seq<char>>, membership: Seq<usize>) -> Seq<Seq<Seq<char>>> {
    order::sorted::<Bucket>(
        filled_communities(names, membership, count_upto(membership, membership.len())),
    )
}

/// What a list of lists of texts says.
pub open spec fn text_lists(v: Seq<Vec<String>>) -> Seq<Seq<Seq<char>>> {
    Seq::new(v.len(), |i: int| text::texts(v[i]@))
}

/// The names of each community, in the order of the nodes.
fn gather(names: &Vec<String>, membership: &Vec<usize>, count: usize) -> (r: Vec<Vec<String>>)
    requires
        names@.len() == membership@.len(),
        count == count_upto(membership@, membership@.len()),
    ensures
        r@.len() == count,
        forall|c: int|
            0 <= c < count ==> text::texts((#[trigger] r@[c])@) == members(
                text::texts(names@),
                membership@,
                c,
                membership@.len(),
            ),
{
    let ghost all = text::texts(names@);
    let mut out: Vec<Vec<String>> = Vec::new();
    while out.len() < count
        invariant
            out@.len() <= count,
            forall|c: int| 0 <= c < out@.len() ==> (#[trigger] out@[c])@.len() == 0,
        decreases count - out.len(),
    {
        out.push(Vec::new());
    }
    let mut k: usize = 0;
    assert forall|c: int| 0 <= c < count implies text::texts((#[trigger] out@[c])@) == members(
        all,
        membership@,
        c,
        0,
    ) by {
        assert(text::texts(out@[c]@) =~= Seq::<Seq<char>>::empty());
    }
    while k < membership.len()
        invariant
            k <= membership.len(),
            names@.len() == membership@.len(),
            count == count_upto(membership@, membership@.len()),
            all == text::texts(names@),
            out@.len() == count,
            forall|c: int|
                0 <= c < count ==> text::texts((#[trigger] out@[c])@) == members(
                    all,
                    membership@,
                    c,
                    k as nat,
                ),
        decreases membership.len() - k,
    {
        let c: usize = membership[k];
        proof {
            lemma_count(membership@, membership@.len(), k as int);
        }
        assert(all[k as int] == names@[k as int]@);
        let name = names[k].clone();
        let ghost before = out@;
        proof {
            text::lemma_texts_push(out@[c as int]@, name);
        }
        out[c].push(name);
        assert forall|d: int| 0 <= d < count implies text::texts((#[trigger] out@[d])@) == members(
            all,
            membership@,
            d,
            (k + 1) as nat,
        ) by {
            if d != c {
                assert(out@[d] == before[d]);
            }
        }
        k += 1;
    }
    out
}

/// Every label is below the count.
pub proof fn lemma_count(labels: Seq<usize>, n: nat, i: int)
    requires
        0 <= i < n <= labels.len(),
    ensures
        labels[i] < count_upto(labels, n),
    decreases n,
{
    if i < n - 1 {
        lemma_count(labels, (n - 1) as nat, i);
    }
}

/// The partition: one list of names for each community, each sorted, the
/// largest community first.
pub fn communities(names: &Vec<String>, membership: &Vec<usize>) -> (r: Vec<Vec<String>>)
    requires
        names@.len() == membership@.len(),
        forall|i: int| 0 <= i < membership@.len() ==> #[trigger] membership@[i] < usize::MAX,
    ensures
        text_lists(r@) == partition(text::texts(names@), membership@),
{
    let ghost all = text::texts(names@);
    let count = community_count(membership);
    let gathered = gather(names, membership, count);
    let mut filled: Vec<Bucket> = Vec::new();
    let mut c: usize = 0;
    assert(order::all_say(filled@) =~= Seq::<Seq<Seq<char>>>::empty());
    while c < count
        invariant
            c <= count,
            gathered@.len() == count,
            all == text::texts(names@),
            forall|d: int|
                0 <= d < count ==> text::texts((#[trigger] gathered@[d])@) == members(
                    all,
                    membership@,
                    d,
                    membership@.len(),
                ),
            order::all_say(filled@) == filled_communities(all, membership@, c as nat),
        decreases count - c,
    {
        let ghost here = members(all, membership@, c as int, membership@.len());
        assert(text::texts(gathered@[c as int]@) == here);
        assert(here.len() == gathered@[c as int]@.len());
        if gathered[c].len() > 0 {
            let own = text::copy_texts(&gathered[c]);
            assert(order::all_say(own@) =~= text::texts(own@));
            let list = order::sort(own);
            assert(order::all_say(list@) =~= text::texts(list@));
            let ghost before = order::all_say(filled@);
            filled.push(Bucket { names: list });
            assert(order::all_say(filled@) =~= before.push(order::sorted::<String>(here)));
        }
        c += 1;
    }
    let ranked = order::sort(filled);
    let ghost wanted = order::all_say(ranked@);
    let mut r: Vec<Vec<String>> = Vec::new();
    let mut k: usize = 0;
    while k < ranked.len()
        invariant
            k <= ranked.len(),
            wanted == order::all_say(ranked@),
            r@.len() == k,
            forall|j: int| 0 <= j < k ==> text::texts((#[trigger] r@[j])@) == wanted[j],
        decreases ranked.len() - k,
    {
        assert(wanted[k as int] == text::texts(ranked@[k as int].names@));
        r.push(text::copy_texts(&ranked[k].names));
        k += 1;
    }
    assert(text_lists(r@) =~= wanted);
    r
}

/// Whoever is in a community stands among its members, and its members are
/// in it.
proof fn lemma_members(names: Seq<Seq<char>>, membership: Seq<usize>, c: int, n: nat)
    requires
        n <= membership.len(),
    ensures
        forall|i: int|
            0 <= i < n && membership[i] == c ==> members(names, membership, c, n).contains(
                #[trigger] names[i],
            ),
        forall|x: Seq<char>| #[trigger]
            members(names, membership, c, n).contains(x) ==> exists|i: int|
                0 <= i < n && membership[i] == c && #[trigger] names[i] == x,
    decreases n,
{
    if n > 0 {
        lemma_members(names, membership, c, (n - 1) as nat);
        let rest = members(names, membership, c, (n - 1) as nat);
        let all = members(names, membership, c, n);
        assert forall|i: int| 0 <= i < n && membership[i] == c implies all.contains(
            #[trigger] names[i],
        ) by {
            if i < n - 1 {
                assert(rest.contains(names[i]));
                let k = choose|k: int| 0 <= k < rest.len() && rest[k] == names[i];
                assert(all[k] == names[i]);
            } else {
                assert(all[rest.len() as int] == names[i]);
            }
        }
        assert forall|x: Seq<char>| #[trigger] all.contains(x) implies exists|i: int|
            0 <= i < n && membership[i] == c && #[trigger] names[i] == x by {
            let k = choose|k: int| 0 <= k < all.len() && all[k] == x;
            if k < rest.len() {
                assert(rest[k] == x);
                assert(rest.contains(x));
            } else {
                assert(names[n - 1] == x);
            }
        }
    }
}

/// The communities that hold anyone are those of the first `c` with members.
proof fn lemma_filled_communities(names: Seq<Seq<char>>, membership: Seq<usize>, c: nat)
    ensures
        forall|d: int|
            0 <= d < c && #[trigger] members(names, membership, d, membership.len()).len() > 0
                ==> filled_communities(names, membership, c).contains(
                order::sorted::<String>(members(names, membership, d, membership.len())),
            ),
        forall|list: Seq<Seq<char>>| #[trigger]
            filled_communities(names, membership, c).contains(list) ==> exists|d: int|
                0 <= d < c && list == order::sorted::<String>(
                    #[trigger] members(names, membership, d, membership.len()),
                ),
    decreases c,
{
    if c > 0 {
        lemma_filled_communities(names, membership, (c - 1) as nat);
        let rest = filled_communities(names, membership, (c - 1) as nat);
        let all = filled_communities(names, membership, c);
        let here = members(names, membership, c - 1, membership.len());
        assert forall|d: int|
            0 <= d < c && #[trigger] members(names, membership, d, membership.len()).len()
                > 0 implies all.contains(
            order::sorted::<String>(members(names, membership, d, membership.len())),
        ) by {
            let list = order::sorted::<String>(members(names, membership, d, membership.len()));
            if d < c - 1 {
                assert(rest.contains(list));
                let k = choose|k: int| 0 <= k < rest.len() && rest[k] == list;
                assert(all[k] == list);
            } else {
                assert(all[rest.len() as int] == list);
            }
        }
        assert forall|list: Seq<Seq<char>>| #[trigger] all.contains(list) implies exists|d: int|
            0 <= d < c && list == order::sorted::<String>(
                #[trigger] members(names, membership, d, membership.len()),
            ) by {
            let k = choose|k: int| 0 <= k < all.len() && all[k] == list;
            if k < rest.len() {
                assert(rest[k] == list);
                assert(rest.contains(list));
            } else {
                assert(list == order::sorted::<String>(
                    members(names, membership, c - 1, membership.len()),
                ));
            }
        }
    }
}

/// Every node appears in the partition, in a community that holds exactly the
/// names of the nodes with its membership.
pub proof fn law_every_node_is_placed(names: Seq<Seq<char>>, membership: Seq<usize>, i: int)
    requires
        names.len() == membership.len(),
        0 <= i < names.len(),
    ensures
        exists|list: Seq<Seq<char>>| #[trigger]
            partition(names, membership).contains(list) && list.contains(names[i]) && forall|
                x: Seq<char>,
            |
                list.contains(x) <==> exists|j: int|
                    0 <= j < names.len() && membership[j] == membership[i] && #[trigger] names[j]
                        == x,
{
    let n = membership.len();
    let count = count_upto(membership, n);
    let c = membership[i] as int;
    lemma_count(membership, n, i);
    lemma_members(names, membership, c, n);
    lemma_filled_communities(names, membership, count);
    let here = members(names, membership, c, n);
    assert(here.contains(names[i]));
    let list = order::sorted::<String>(here);
    order::lemma_sorted_contains::<Bucket>(filled_communities(names, membership, count), list);
    order::lemma_sorted_contains::<String>(here, names[i]);
    assert forall|x: Seq<char>|
        list.contains(x) <==> exists|j: int|
            0 <= j < names.len() && membership[j] == membership[i] && #[trigger] names[j] == x by {
        order::lemma_sorted_contains::<String>(here, x);
        if exists|j: int|
            0 <= j < names.len() && membership[j] == membership[i] && #[trigger] names[j] == x {
            let j = choose|j: int|
                0 <= j < names.len() && membership[j] == membership[i] && #[trigger] names[j] == x;
            assert(here.contains(names[j]));
        }
    }
    assert(partition(names, membership).contains(list) && list.contains(names[i]));
}

/// Nobody is in the partition but the nodes.
pub proof fn law_only_nodes_are_placed(
    names: Seq<Seq<char>>,
    membership: Seq<usize>,
    list: Seq<Seq<char>>,
    x: Seq<char>,
)
    requires
        names.len() == membership.len(),
        partition(names, membership).contains(list),
        list.contains(x),
    ensures
        text::listed(names, x),
{
    let n = membership.len();
    let count = count_upto(membership, n);
    lemma_filled_communities(names, membership, count);
    order::lemma_sorted_contains::<Bucket>(filled_communities(names, membership, count), list);
    let d = choose|d: int|
        0 <= d < count && list == order::sorted::<String>(#[trigger] members(names, membership, d, n));
    order::lemma_sorted_contains::<String>(members(names, membership, d, n), x);
    lemma_members(names, membership, d, n);
}

/// The largest community comes first.
pub proof fn law_largest_first(names: Seq<Seq<char>>, membership: Seq<usize>, i: int, j: int)
    requires
        0 <= i < j < partition(names, membership).len(),
    ensures
        partition(names, membership)[i].len() >= partition(names, membership)[j].len(),
{
    let all = filled_communities(names, membership, count_upto(membership, membership.len()));
    assert forall|a: Seq<Seq<char>>, b: Seq<Seq<char>>| #[trigger] Bucket::below(
        a,
        b,
    ) implies !Bucket::below(b, a) by {
        if a.len() == b.len() {
            text::lemma_before_total(a[0], b[0], 0);
        }
    }
    assert forall|a: Seq<Seq<char>>, b: Seq<Seq<char>>, c: Seq<Seq<char>>|
        !#[trigger] Bucket::below(a, b) && !#[trigger] Bucket::below(b, c) implies !Bucket::below(
        a,
        c,
    ) by {
        if a.len() == b.len() && b.len() == c.len() && a.len() > 0 {
            text::lemma_before_total(a[0], b[0], 0);
            text::lemma_before_total(b[0], c[0], 0);
            text::lemma_before_total(a[0], c[0], 0);
            if text::before(a[0], c[0]) {
                if text::before(b[0], a[0]) {
                    text::lemma_before_trans(b[0], a[0], c[0], 0);
                }
            }
        }
    }
    order::lemma_sorted_order::<Bucket>(all, all.len());
    let out = order::sorted::<Bucket>(all);
    assert(!Bucket::below(out[j], out[i]));
}

// ----------------------------------------------------- a partition by names

/// The label of every member, community after community: the first `n`
/// communities.
pub open spec fn labels_upto(lists: Seq<Seq<Seq<char>>>, n: nat) -> Seq<usize>
    decreases n,
{
    if n == 0 {
        Seq::empty()
    } else {
        labels_upto(lists, (n - 1) as nat) + Seq::new(
            lists[n - 1].len(),
            |i: int| (n - 1) as usize,
        )
    }
}

/// The members, community after community: the first `n` communities.
pub open spec fn flat_upto(lists: Seq<Seq<Seq<char>>>, n: nat) -> Seq<Seq<char>>
    decreases n,
{
    if n == 0 {
        Seq::empty()
    } else {
        flat_upto(lists, (n - 1) as nat) + lists[n - 1]
    }
}

/// The last of the first `n` places where the name stands.
pub open spec fn last_place(v: Seq<Seq<char>>, x: Seq<char>, n: nat) -> Option<int>
    decreases n,
{
    if n == 0 {
        None
    } else if v[n - 1] == x {
        Some(n - 1)
    } else {
        last_place(v, x, (n - 1) as nat)
    }
}

/// The places of both ends of an edge, where both are members.
pub open spec fn ends_at(flat: Seq<Seq<char>>, a: Seq<char>, b: Seq<char>) -> Option<(int, int)> {
    match (last_place(flat, a, flat.len()), last_place(flat, b, flat.len())) {
        (Some(x), Some(y)) => Some((x, y)),
        _ => None,
    }
}

/// A pair of places, as numbers.
pub open spec fn opt_ends(o: Option<(usize, usize)>) -> Option<(int, int)> {
    match o {
        Some((a, b)) => Some((a as int, b as int)),
        None => None,
    }
}

/// Does the table give each name the last place where it stands?
spec fn gives_places(table: Seq<(String, usize)>, flat: Seq<Seq<char>>) -> bool {
    &&& table::ordered(table::stored_keys(table))
    &&& forall|i: int|
        0 <= i < table.len() ==> last_place(flat, (#[trigger] table[i]).0@, flat.len()) == Some(
            table[i].1 as int,
        )
    &&& forall|x: Seq<char>|
        last_place(flat, x, flat.len()) is Some <==> #[trigger] text::listed(table::stored_keys(table), x)
}

/// The last place in a longer list.
proof fn lemma_last_place(flat: Seq<Seq<char>>, x: Seq<char>, y: Seq<char>, n: nat)
    requires
        n <= flat.len(),
    ensures
        last_place(flat.push(y), x, n) == last_place(flat, x, n),
    decreases n,
{
    if n > 0 {
        lemma_last_place(flat, x, y, (n - 1) as nat);
    }
}

/// Puts one more name into the table of places.
fn add_place(table: &mut Vec<(String, usize)>, name: &str, at: usize, Ghost(flat): Ghost<
    Seq<Seq<char>>,
>)
    requires
        gives_places(old(table)@, flat),
        at == flat.len(),
    ensures
        gives_places(final(table)@, flat.push(name@)),
{
    let ghost ks = table::stored_keys(table@);
    let ghost before = table@;
    let ghost longer = flat.push(name@);
    let ghost p = table::seat(ks, name@);
    proof {
        table::lemma_seat(ks, name@, 0);
        table::lemma_holds(ks, name@);
    }
    let key = name.to_string();
    table::set(table, key, at);
    let ghost now = table::stored_keys(table@);
    proof {
        assert forall|x: Seq<char>| x != name@ implies #[trigger] last_place(
            longer,
            x,
            longer.len(),
        ) == last_place(flat, x, flat.len()) by {
            lemma_last_place(flat, x, name@, flat.len());
        }
        assert forall|i: int| 0 <= i < table@.len() implies last_place(
            longer,
            (#[trigger] table@[i]).0@,
            longer.len(),
        ) == Some(table@[i].1 as int) by {
            if i != p {
                let b = if i < p || table::holds(ks, name@) {
                    i
                } else {
                    i - 1
                };
                assert(table@[i] == before[b]);
                assert(ks[b] == before[b].0@);
                if ks[b] == name@ {
                    table::lemma_place(ks, name@, b);
                }
            }
        }
        assert forall|x: Seq<char>|
            last_place(longer, x, longer.len()) is Some <==> #[trigger] text::listed(now, x) by {
            assert(now[p] == name@);
            if x != name@ {
                assert(last_place(flat, x, flat.len()) is Some <==> text::listed(ks, x));
                if text::listed(ks, x) {
                    let k = choose|k: int| 0 <= k < ks.len() && #[trigger] ks[k] == x;
                    if k < p || table::holds(ks, name@) {
                        assert(now[k] == ks[k]);
                    } else {
                        assert(now[k + 1] == ks[k]);
                    }
                }
                if text::listed(now, x) {
                    let k = choose|k: int| 0 <= k < now.len() && #[trigger] now[k] == x;
                    if k < p || table::holds(ks, name@) {
                        assert(ks[k] == now[k]);
                    } else {
                        assert(ks[k - 1] == now[k]);
                    }
                }
            }
        }
    }
}

/// The label of every member, and for each edge the places of its ends among
/// the members, where both are there.
pub fn place_names(ends: &Vec<(String, String)>, lists: &Vec<Vec<String>>) -> (r: (
    Vec<usize>,
    Vec<Option<(usize, usize)>>,
))
    ensures
        r.0@ == labels_upto(text_lists(lists@), lists@.len()),
        r.1@.len() == ends@.len(),
        forall|k: int|
            0 <= k < ends@.len() ==> opt_ends(#[trigger] r.1@[k]) == ends_at(
                flat_upto(text_lists(lists@), lists@.len()),
                ends@[k].0@,
                ends@[k].1@,
            ),
{
    let ghost all = text_lists(lists@);
    let mut labels: Vec<usize> = Vec::new();
    let mut places: Vec<(String, usize)> = Vec::new();
    let ghost mut flat: Seq<Seq<char>> = Seq::empty();
    let mut c: usize = 0;
    assert(labels@ =~= Seq::<usize>::empty());
    while c < lists.len()
        invariant
            c <= lists.len(),
            all == text_lists(lists@),
            labels@ == labels_upto(all, c as nat),
            flat == flat_upto(all, c as nat),
            labels@.len() == flat.len(),
            gives_places(places@, flat),
        decreases lists.len() - c,
    {
        let ghost here = all[c as int];
        let ghost old_labels = labels@;
        let ghost old_flat = flat;
        assert(here == text::texts(lists@[c as int]@));
        let mut k: usize = 0;
        assert(labels@ =~= old_labels + Seq::new(0nat, |i: int| c));
        assert(flat =~= old_flat + here.take(0));
        while k < lists[c].len()
            invariant
                c < lists.len(),
                k <= lists@[c as int]@.len(),
                here == text::texts(lists@[c as int]@),
                labels@ == old_labels + Seq::new(k as nat, |i: int| c),
                flat == old_flat + here.take(k as int),
                labels@.len() == flat.len(),
                gives_places(places@, flat),
            decreases lists@[c as int]@.len() - k,
        {
            assert(here[k as int] == lists@[c as int]@[k as int]@);
            let at: usize = labels.len();
            add_place(&mut places, lists[c][k].as_str(), at, Ghost(flat));
            labels.push(c);
            proof {
                flat = flat.push(here[k as int]);
            }
            assert(labels@ =~= old_labels + Seq::new((k + 1) as nat, |i: int| c));
            assert(flat =~= old_flat + here.take(k + 1));
            k += 1;
        }
        assert(here.take(here.len() as int) =~= here);
        c += 1;
    }
    let mut out: Vec<Option<(usize, usize)>> = Vec::new();
    let mut k: usize = 0;
    while k < ends.len()
        invariant
            k <= ends.len(),
            gives_places(places@, flat),
            out@.len() == k,
            forall|j: int|
                0 <= j < k ==> opt_ends(#[trigger] out@[j]) == ends_at(
                    flat,
                    ends@[j].0@,
                    ends@[j].1@,
                ),
        decreases ends.len() - k,
    {
        proof {
            table::lemma_holds(table::stored_keys(places@), ends@[k as int].0@);
            table::lemma_holds(table::stored_keys(places@), ends@[k as int].1@);
            assert(last_place(flat, ends@[k as int].0@, flat.len()) is Some <==> text::listed(
                table::stored_keys(places@),
                ends@[k as int].0@,
            ));
            assert(last_place(flat, ends@[k as int].1@, flat.len()) is Some <==> text::listed(
                table::stored_keys(places@),
                ends@[k as int].1@,
            ));
        }
        let a = table::find(&places, ends[k].0.as_str());
        let b = table::find(&places, ends[k].1.as_str());
        match (a, b) {
            (Some(x), Some(y)) => {
                assert(places@[x as int].0@ == ends@[k as int].0@);
                assert(places@[y as int].0@ == ends@[k as int].1@);
                out.push(Some((places[x].1, places[y].1)));
            },
            _ => {
                out.push(None);
            },
        }
        k += 1;
    }
    (labels, out)
}

} // verus!

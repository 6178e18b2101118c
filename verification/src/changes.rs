//! Changes to one file: what a file binds to a symbol, where the symbol is
//! defined, and the byte ranges that an edit touches.
use vstd::prelude::*;
use crate::tree;
use crate::text;
use crate::order;
use crate::langs;
use crate::imports;
use crate::engine;
use crate::graph::ImportText;
use crate::imports::Import;
use crate::order::Ranked;
use crate::tree::{NodeText, Source, SyntaxTree};

verus! {

// ----------------------------------------------------------------- changes

/// A byte range of a source, and the text to put in its place.
#[derive(Debug, Clone)]
pub struct Change {
    pub start: usize,
    pub end: usize,
    pub text: String,
}

/// What a change says.
pub struct ChangeText {
    pub start: nat,
    pub end: nat,
    pub text: Seq<char>,
}

impl View for Change {
    type V = ChangeText;

    open spec fn view(&self) -> ChangeText {
        ChangeText { start: self.start as nat, end: self.end as nat, text: self.text@ }
    }
}

/// What a list of changes says.
pub open spec fn change_texts(v: Seq<Change>) -> Seq<ChangeText> {
    Seq::new(v.len(), |i: int| v[i]@)
}

impl Ranked for Change {
    type Text = ChangeText;

    open spec fn says(self) -> ChangeText {
        self@
    }

    /// The change that starts further on comes first.
    open spec fn below(a: ChangeText, b: ChangeText) -> bool {
        a.start > b.start
    }

    fn is_below(&self, other: &Self) -> (r: bool) {
        self.start > other.start
    }
}

/// A text with one change made, where its range is one of whole characters.
pub open spec fn changed(s: Seq<char>, c: ChangeText) -> Option<Seq<char>> {
    match (text::char_pos(s, c.start), text::char_pos(s, c.end)) {
        (Some(a), Some(b)) => if a <= b {
            Some(s.take(a as int) + c.text + s.skip(b as int))
        } else {
            None
        },
        _ => None,
    }
}

/// A text with the first `n` changes made, one after the other.
pub open spec fn changed_upto(s: Seq<char>, v: Seq<ChangeText>, n: nat) -> Option<Seq<char>>
    decreases n,
{
    if n == 0 {
        Some(s)
    } else {
        match changed_upto(s, v, (n - 1) as nat) {
            Some(t) => changed(t, v[n - 1]),
            None => None,
        }
    }
}

/// Does a range lie inside another? A place where something is only put in
/// lies inside a range that has text on both sides of it.
pub open spec fn lies_inside(a: ChangeText, b: ChangeText) -> bool {
    &&& b.start <= a.start
    &&& a.end <= b.end
    &&& a.end - a.start < b.end - b.start
    &&& a.start == a.end ==> b.start < a.start < b.end
}

/// Is a change made by another one of the list, whose range it lies inside, or
/// that replaces the same text before it?
pub open spec fn swallowed(v: Seq<ChangeText>, i: int) -> bool {
    exists|j: int|
        0 <= j < v.len() && (lies_inside(v[i], #[trigger] v[j]) || j < i && v[i].start < v[i].end
            && v[j].start == v[i].start && v[j].end == v[i].end)
}

/// Those of the first `n` changes that no other makes.
pub open spec fn kept_upto(v: Seq<ChangeText>, n: nat) -> Seq<ChangeText>
    decreases n,
{
    if n == 0 {
        Seq::empty()
    } else {
        let rest = kept_upto(v, (n - 1) as nat);
        if swallowed(v, n - 1) {
            rest
        } else {
            rest.push(v[n - 1])
        }
    }
}

/// The changes that are made, the one that starts furthest on first.
pub open spec fn ranked(v: Seq<ChangeText>) -> Seq<ChangeText> {
    order::sorted::<Change>(kept_upto(v, v.len()))
}

/// Are these changes to ranges of whole characters of a text, each before the
/// one in front of it in the list?
pub open spec fn apart(s: Seq<char>, v: Seq<ChangeText>) -> bool {
    &&& forall|i: int|
        0 <= i < v.len() ==> (#[trigger] v[i]).start <= v[i].end && text::char_pos(s, v[i].start)
            is Some && text::char_pos(s, v[i].end) is Some
    &&& forall|i: int, j: int|
        0 <= i < j < v.len() ==> (#[trigger] v[j]).end <= (#[trigger] v[i]).start
}

/// Where in the text the first `n` changes begin.
pub open spec fn front(s: Seq<char>, v: Seq<ChangeText>, n: nat) -> int {
    if n == 0 {
        s.len() as int
    } else {
        text::char_pos(s, v[n - 1].start)->0 as int
    }
}

/// What stands from where the first `n` changes begin: the new texts, with
/// what stood between their ranges between them.
pub open spec fn woven(s: Seq<char>, v: Seq<ChangeText>, n: nat) -> Seq<char>
    decreases n,
{
    if n == 0 {
        Seq::empty()
    } else {
        v[n - 1].text + s.subrange(
            text::char_pos(s, v[n - 1].end)->0 as int,
            front(s, v, (n - 1) as nat),
        ) + woven(s, v, (n - 1) as nat)
    }
}

/// A text with ranked changes made, each where the text has its range. There
/// is none where they do not lie apart.
pub open spec fn remade(s: Seq<char>, w: Seq<ChangeText>) -> Option<Seq<char>> {
    if apart(s, w) {
        Some(s.take(front(s, w, w.len())) + woven(s, w, w.len()))
    } else {
        None
    }
}

/// A text with the changes made. There is none where two ranges overlap and
/// neither lies inside the other, or one is not a range of the text.
pub open spec fn spliced(s: Seq<char>, v: Seq<ChangeText>) -> Option<Seq<char>> {
    remade(s, ranked(v))
}

/// A text with one change made.
fn make_change(s: &str, c: &Change) -> (r: Option<String>)
    ensures
        text::opt_text(r) == changed(s@, c@),
{
    let cs = text::chars(s);
    match (text::char_position(&cs, c.start), text::char_position(&cs, c.end)) {
        (Some(a), Some(b)) => {
            proof {
                text::lemma_char_pos(s@, c.start as nat, 0);
                text::lemma_char_pos(s@, c.end as nat, 0);
            }
            if a <= b {
                let front = text::piece(&cs, 0, a);
                let back = text::piece(&cs, b, cs.len());
                assert(front@ =~= s@.take(a as int));
                assert(back@ =~= s@.skip(b as int));
                Some(text::cat3(front.as_str(), c.text.as_str(), back.as_str()))
            } else {
                None
            }
        },
        _ => None,
    }
}

/// The bytes of a prefix do not depend on what follows.
proof fn lemma_bytes_prefix(s: Seq<char>, t: Seq<char>, p: nat, n: nat)
    requires
        n <= p <= s.len(),
        p <= t.len(),
        t.take(p as int) == s.take(p as int),
    ensures
        text::bytes_upto(t, n) == text::bytes_upto(s, n),
    decreases n,
{
    if n > 0 {
        lemma_bytes_prefix(s, t, p, (n - 1) as nat);
        assert(t[n - 1] == t.take(p as int)[n - 1]);
        assert(s[n - 1] == s.take(p as int)[n - 1]);
    }
}

/// A place in a prefix is found where it is in the whole text.
proof fn lemma_place_in_prefix(s: Seq<char>, t: Seq<char>, p: nat, at: nat)
    requires
        p <= s.len(),
        p <= t.len(),
        t.take(p as int) == s.take(p as int),
        text::char_pos(s, at) is Some,
        text::char_pos(s, at)->0 <= p,
    ensures
        text::char_pos(t, at) == text::char_pos(s, at),
{
    let k = text::char_pos(s, at)->0;
    text::lemma_char_pos(s, at, 0);
    lemma_bytes_prefix(s, t, p, k);
    text::lemma_char_pos_at(t, k, 0);
}

/// The first `n` changes leave what stands before them as it was.
proof fn lemma_woven(s: Seq<char>, v: Seq<ChangeText>, n: nat)
    requires
        apart(s, v),
        n <= v.len(),
    ensures
        changed_upto(s, v, n) == Some(s.take(front(s, v, n)) + woven(s, v, n)),
        0 <= front(s, v, n) <= s.len(),
    decreases n,
{
    if n == 0 {
        assert(s.take(s.len() as int) + Seq::<char>::empty() =~= s);
    } else {
        lemma_woven(s, v, (n - 1) as nat);
        let c = v[n - 1];
        let p = front(s, v, (n - 1) as nat);
        let rest = woven(s, v, (n - 1) as nat);
        let t = s.take(p) + rest;
        let a = text::char_pos(s, c.start)->0;
        let b = text::char_pos(s, c.end)->0;
        text::lemma_char_pos(s, c.start, 0);
        text::lemma_char_pos(s, c.end, 0);
        text::lemma_char_pos_order(s, c.start, c.end);
        if n > 1 {
            assert(v[n - 1].end <= v[n - 2].start);
            text::lemma_char_pos_order(s, c.end, v[n - 2].start);
        }
        assert(t.take(p) =~= s.take(p));
        lemma_place_in_prefix(s, t, p as nat, c.start);
        lemma_place_in_prefix(s, t, p as nat, c.end);
        assert(t.take(a as int) =~= s.take(a as int));
        assert(t.skip(b as int) =~= s.subrange(b as int, p) + rest);
        assert(t.take(a as int) + c.text + t.skip(b as int) =~= s.take(a as int) + (c.text
            + s.subrange(b as int, p) + rest));
    }
}

/// No offset moves under a later change: whatever the changes are, a text that
/// comes out has every change that is made where the given text has its range,
/// and everything between the ranges as it was. Those that are not made lie
/// inside a range that is replaced as a whole.
pub proof fn law_no_offset_moves(s: Seq<char>, v: Seq<ChangeText>)
    requires
        spliced(s, v) is Some,
    ensures
        apart(s, ranked(v)),
        changed_upto(s, ranked(v), ranked(v).len()) == spliced(s, v),
{
    lemma_woven(s, ranked(v), ranked(v).len());
}

/// Is the change made by another one of the list?
fn is_swallowed(v: &Vec<Change>, i: usize) -> (r: bool)
    requires
        i < v.len(),
    ensures
        r == swallowed(change_texts(v@), i as int),
{
    let ghost all = change_texts(v@);
    let (start, end) = (v[i].start, v[i].end);
    let mut j: usize = 0;
    while j < v.len()
        invariant
            j <= v.len() == all.len(),
            i < v.len(),
            all == change_texts(v@),
            start == all[i as int].start,
            end == all[i as int].end,
            forall|k: int|
                0 <= k < j ==> !(lies_inside(all[i as int], #[trigger] all[k]) || k < i
                    && all[i as int].start < all[i as int].end && all[k].start
                    == all[i as int].start && all[k].end == all[i as int].end),
        decreases v.len() - j,
    {
        assert(all[j as int] == v@[j as int]@);
        let (from, to) = (v[j].start, v[j].end);
        let shorter = (end as i128 - start as i128) < (to as i128 - from as i128);
        let inside = from <= start && end <= to && shorter && (start != end || from < start
            && start < to);
        if inside || j < i && start < end && from == start && to == end {
            assert(lies_inside(all[i as int], all[j as int]) || j < i && all[i as int].start
                < all[i as int].end && all[j as int].start == all[i as int].start
                && all[j as int].end == all[i as int].end);
            return true;
        }
        j += 1;
    }
    false
}

/// The changes that are made, the one that starts furthest on first.
pub fn rank(changes: Vec<Change>) -> (r: Vec<Change>)
    ensures
        change_texts(r@) == ranked(change_texts(changes@)),
{
    let ghost all = change_texts(changes@);
    let mut kept: Vec<Change> = Vec::new();
    let mut k: usize = 0;
    assert(change_texts(kept@) =~= Seq::<ChangeText>::empty());
    while k < changes.len()
        invariant
            k <= changes.len() == all.len(),
            all == change_texts(changes@),
            change_texts(kept@) == kept_upto(all, k as nat),
        decreases changes.len() - k,
    {
        assert(all[k as int] == changes@[k as int]@);
        if !is_swallowed(&changes, k) {
            let c = Change {
                start: changes[k].start,
                end: changes[k].end,
                text: changes[k].text.clone(),
            };
            let ghost before = change_texts(kept@);
            kept.push(c);
            assert(change_texts(kept@) =~= before.push(all[k as int]));
        }
        k += 1;
    }
    assert(order::all_say(kept@) =~= change_texts(kept@));
    let r = order::sort(kept);
    assert(order::all_say(r@) =~= change_texts(r@));
    r
}

/// Do ranked changes lie apart, on whole characters of the text?
pub fn lie_apart(cs: &Vec<char>, w: &Vec<Change>) -> (r: bool)
    ensures
        r == apart(cs@, change_texts(w@)),
{
    let ghost all = change_texts(w@);
    let mut k: usize = 0;
    while k < w.len()
        invariant
            k <= w.len() == all.len(),
            all == change_texts(w@),
            forall|i: int|
                0 <= i < k ==> (#[trigger] all[i]).start <= all[i].end && text::char_pos(
                    cs@,
                    all[i].start,
                ) is Some && text::char_pos(cs@, all[i].end) is Some,
            forall|i: int, j: int|
                0 <= i < j < k ==> (#[trigger] all[j]).end <= (#[trigger] all[i]).start,
        decreases w.len() - k,
    {
        assert(all[k as int] == w@[k as int]@);
        if w[k].start > w[k].end || text::char_position(cs, w[k].start).is_none()
            || text::char_position(cs, w[k].end).is_none() {
            assert(!(all[k as int].start <= all[k as int].end && text::char_pos(
                cs@,
                all[k as int].start,
            ) is Some && text::char_pos(cs@, all[k as int].end) is Some));
            return false;
        }
        if k > 0 {
            assert(all[k - 1] == w@[k - 1]@);
            if w[k].end > w[k - 1].start {
                assert(!(all[k as int].end <= all[k - 1].start));
                return false;
            }
        }
        assert forall|i: int, j: int| 0 <= i < j < k + 1 implies (#[trigger] all[j]).end <= (
        #[trigger] all[i]).start by {
            if j == k && i < k - 1 {
                assert(all[k - 1].end <= all[i].start);
            }
        }
        k += 1;
    }
    true
}

/// A text with ranked changes made, each where the text has its range.
pub fn remake(content: &str, w: &Vec<Change>) -> (r: Option<String>)
    ensures
        text::opt_text(r) == remade(content@, change_texts(w@)),
{
    let cs = text::chars(content);
    if !lie_apart(&cs, w) {
        return None;
    }
    let ghost all = change_texts(w@);
    let mut out = content.to_string();
    let mut k: usize = 0;
    while k < w.len()
        invariant
            k <= w.len() == all.len(),
            all == change_texts(w@),
            apart(content@, all),
            changed_upto(content@, all, k as nat) == Some(out@),
        decreases w.len() - k,
    {
        assert(all[k as int] == w@[k as int]@);
        proof {
            lemma_woven(content@, all, (k + 1) as nat);
        }
        match make_change(out.as_str(), &w[k]) {
            Some(next) => {
                out = next;
            },
            None => {
                return None;
            },
        }
        k += 1;
    }
    proof {
        lemma_woven(content@, all, all.len());
    }
    Some(out)
}

/// A text with the changes made.
pub fn splice(content: &str, changes: Vec<Change>) -> (r: Option<String>)
    ensures
        text::opt_text(r) == spliced(content@, change_texts(changes@)),
{
    let w = rank(changes);
    remake(content, &w)
}

// ------------------------------------------------------------------ places

/// Where a character of a text stands once one change is made; nowhere, where
/// it was replaced.
pub open spec fn place_after(s: Seq<char>, c: ChangeText, p: nat) -> Option<nat> {
    let a = text::char_pos(s, c.start)->0;
    let b = text::char_pos(s, c.end)->0;
    if p < a {
        Some(p)
    } else if p < b {
        None
    } else {
        Some((p - b + a + c.text.len()) as nat)
    }
}

/// Where a character of a text stands once the first `n` changes are made, one
/// after the other.
pub open spec fn place_upto(s: Seq<char>, w: Seq<ChangeText>, p: nat, n: nat) -> Option<nat>
    decreases n,
{
    if n == 0 {
        Some(p)
    } else {
        match place_upto(s, w, p, (n - 1) as nat) {
            Some(q) => place_after(changed_upto(s, w, (n - 1) as nat)->0, w[n - 1], q),
            None => None,
        }
    }
}

/// What stood at a place of a text still stands there once it is made anew: a
/// character that no range covers is found where it is said to be.
pub proof fn law_places_are_kept(s: Seq<char>, w: Seq<ChangeText>, p: nat, n: nat)
    requires
        apart(s, w),
        n <= w.len(),
        p < s.len(),
        place_upto(s, w, p, n) is Some,
    ensures
        changed_upto(s, w, n) is Some,
        place_upto(s, w, p, n)->0 < changed_upto(s, w, n)->0.len(),
        changed_upto(s, w, n)->0[place_upto(s, w, p, n)->0 as int] == s[p as int],
    decreases n,
{
    if n > 0 {
        law_places_are_kept(s, w, p, (n - 1) as nat);
        lemma_woven(s, w, n);
        let t = changed_upto(s, w, (n - 1) as nat)->0;
        let c = w[n - 1];
        text::lemma_char_pos(t, c.start, 0);
        text::lemma_char_pos(t, c.end, 0);
    }
}

/// Where a character of a text stands once ranked changes are made; nowhere,
/// where it was replaced. The changes lie apart.
pub fn follow_place(content: &str, w: &Vec<Change>, place: usize) -> (r: Option<usize>)
    requires
        apart(content@, change_texts(w@)),
        place <= content@.len(),
    ensures
        tree::place_text(r) == place_upto(content@, change_texts(w@), place as nat, w@.len()),
{
    let ghost all = change_texts(w@);
    let mut at: Option<usize> = Some(place);
    let mut now = content.to_string();
    let mut k: usize = 0;
    while k < w.len()
        invariant
            k <= w.len() == all.len(),
            all == change_texts(w@),
            apart(content@, all),
            changed_upto(content@, all, k as nat) == Some(now@),
            tree::place_text(at) == place_upto(content@, all, place as nat, k as nat),
            at is Some ==> at->0 <= now@.len(),
        decreases w.len() - k,
    {
        assert(all[k as int] == w@[k as int]@);
        proof {
            lemma_woven(content@, all, (k + 1) as nat);
            text::lemma_char_pos(now@, all[k as int].start, 0);
            text::lemma_char_pos(now@, all[k as int].end, 0);
        }
        let cs = text::chars(now.as_str());
        match (
            text::char_position(&cs, w[k].start),
            text::char_position(&cs, w[k].end),
            make_change(now.as_str(), &w[k]),
        ) {
            (Some(a), Some(b), Some(next)) => {
                let room: usize = text::chars(next.as_str()).len();
                let fresh: usize = text::chars(w[k].text.as_str()).len();
                assert(room == a + fresh + (cs@.len() - b));
                at = match at {
                    Some(q) => if q < a {
                        Some(q)
                    } else if q < b {
                        None
                    } else {
                        Some(a + fresh + (q - b))
                    },
                    None => None,
                };
                now = next;
            },
            _ => {},
        }
        k += 1;
    }
    at
}

// ---------------------------------------------------------------- families

/// The grammars that typed edits know.
#[derive(Clone, Copy, PartialEq, Eq, Structural)]
pub enum Family {
    Python,
    Ts,
}

/// The family of grammars that a file's language belongs to, where ops can
/// be applied to it.
pub open spec fn family(path: Seq<char>) -> Option<Family> {
    match langs::lang_of_ext(engine::extension(path)) {
        Some(l) => if l.name == "python"@ {
            Some(Family::Python)
        } else if l.name == "typescript"@ || l.name == "tsx"@ || l.name == "javascript"@ {
            Some(Family::Ts)
        } else {
            None
        },
        None => None,
    }
}

/// The family of grammars that a file's language belongs to.
pub fn family_of(path: &str) -> (r: Option<Family>)
    ensures
        r == family(path@),
{
    let ext = engine::extension_of(path);
    match langs::spec_for_ext(ext.as_str()) {
        Some(spec) => {
            if text::same(spec.name, "python") {
                Some(Family::Python)
            } else if text::same(spec.name, "typescript") || text::same(spec.name, "tsx") || text::same(
                spec.name,
                "javascript",
            ) {
                Some(Family::Ts)
            } else {
                None
            }
        },
        None => None,
    }
}

/// The tree of a file, where a language takes it and the parser makes one.
pub open spec fn tree_of(path: Seq<char>, content: Seq<char>) -> Option<Seq<NodeText>> {
    match langs::lang_of_ext(engine::extension(path)) {
        Some(l) => tree::syntax_of(langs::grammar_slot(l.name)->0, content),
        None => None,
    }
}

/// The tree of a file.
pub fn tree_in(path: &str, content: &str) -> (r: Option<SyntaxTree>)
    ensures
        match r {
            Some(t) => tree_of(path@, content@) == Some(t@) && t@.len() > 0,
            None => tree_of(path@, content@) is None,
        },
{
    let ext = engine::extension_of(path);
    match langs::spec_for_ext(ext.as_str()) {
        Some(spec) => {
            proof {
                langs::lemma_lang_of_ext(ext@);
            }
            tree::syntax(langs::language_of(spec.name), content)
        },
        None => None,
    }
}

/// Is a node of this kind an identifier?
pub open spec fn names_something(k: Seq<char>, f: Family) -> bool {
    match f {
        Family::Python => k == "identifier"@,
        Family::Ts => k == "identifier"@ || k == "property_identifier"@ || k
            == "shorthand_property_identifier"@,
    }
}

/// Does a node of this kind define a function?
pub open spec fn defines_function(k: Seq<char>, f: Family) -> bool {
    match f {
        Family::Python => k == "function_definition"@,
        Family::Ts => k == "function_declaration"@ || k == "method_definition"@ || k
            == "generator_function_declaration"@,
    }
}

/// Is a node of this kind a call?
pub open spec fn calls_function(k: Seq<char>, f: Family) -> bool {
    match f {
        Family::Python => k == "call"@,
        Family::Ts => k == "call_expression"@,
    }
}

/// Is a node of this kind an identifier?
pub fn is_identifier(k: &str, f: Family) -> (r: bool)
    ensures
        r == names_something(k@, f),
{
    match f {
        Family::Python => text::same(k, "identifier"),
        Family::Ts => text::same(k, "identifier") || text::same(k, "property_identifier") || text::same(
            k,
            "shorthand_property_identifier",
        ),
    }
}

/// Does a node of this kind define a function?
pub fn is_def(k: &str, f: Family) -> (r: bool)
    ensures
        r == defines_function(k@, f),
{
    match f {
        Family::Python => text::same(k, "function_definition"),
        Family::Ts => text::same(k, "function_declaration") || text::same(k, "method_definition") || text::same(
            k,
            "generator_function_declaration",
        ),
    }
}

/// Is a node of this kind a call?
pub fn is_call(k: &str, f: Family) -> (r: bool)
    ensures
        r == calls_function(k@, f),
{
    match f {
        Family::Python => text::same(k, "call"),
        Family::Ts => text::same(k, "call_expression"),
    }
}

// ---------------------------------------------------------------- bindings

/// A path without its extension.
pub open spec fn stem(path: Seq<char>) -> Seq<char> {
    match text::cut_last(path, '.') {
        Some((front, _)) => front,
        None => path,
    }
}

/// What stands before the last slash; nothing where there is none.
pub open spec fn parent_dir(path: Seq<char>) -> Seq<char> {
    match text::cut_last(path, '/') {
        Some((front, _)) => front,
        None => text::no_text(),
    }
}

/// The directory `n` levels up.
pub open spec fn parent_up(path: Seq<char>, n: nat) -> Seq<char>
    decreases n,
{
    if n == 0 {
        path
    } else {
        parent_dir(parent_up(path, (n - 1) as nat))
    }
}

/// The first `n` steps of a path, followed.
pub open spec fn steps_upto(parts: Seq<Seq<char>>, n: nat) -> Seq<Seq<char>>
    decreases n,
{
    if n == 0 {
        Seq::empty()
    } else {
        let rest = steps_upto(parts, (n - 1) as nat);
        let part = parts[n - 1];
        if part.len() == 0 || part == "."@ {
            rest
        } else if part == ".."@ {
            if rest.len() > 0 {
                rest.drop_last()
            } else {
                rest
            }
        } else {
            rest.push(part)
        }
    }
}

/// A path with its steps followed.
pub open spec fn followed(path: Seq<char>) -> Seq<char> {
    text::joined(steps_upto(text::split_on(path, '/'), text::split_on(path, '/').len()), "/"@)
}

/// Does an import's module string name the file that a symbol is defined in?
/// Python dotted modules against the path, relative imports against the
/// importing file's package; TypeScript relative specifiers against the
/// importing file's directory.
pub open spec fn names_module(def_path: Seq<char>, importing: Seq<char>, module: Seq<char>) -> bool {
    let def_stem = stem(def_path);
    let dir = parent_dir(importing);
    if text::has_prefix(module, "./"@) || text::has_prefix(module, "../"@) {
        let resolved = followed(dir + "/"@ + module);
        resolved == def_stem || resolved + "/index"@ == def_stem
    } else {
        match text::without_prefix(module, "."@) {
            Some(rest) => {
                // one dot is the package itself, each further dot one up
                let ups = text::out_from(rest, "."@, 0);
                let inner = text::swapped(rest.skip(ups), '.', '/');
                let base = parent_up(dir, ups as nat);
                let joined = if inner.len() == 0 {
                    base
                } else if base.len() == 0 {
                    inner
                } else {
                    base + "/"@ + inner
                };
                joined == def_stem
            },
            None => {
                let dotted = text::swapped(def_stem, '/', '.');
                module == dotted || text::has_suffix(dotted, "."@ + module) || text::has_suffix(
                    module,
                    "."@ + dotted,
                )
            },
        }
    }
}

/// What stands before the last slash; nothing where there is none.
fn dir_of(path: &str) -> (r: String)
    ensures
        r@ == parent_dir(path@),
{
    match text::rsplit_once(path, '/') {
        Some((front, _)) => front,
        None => String::new(),
    }
}

/// A path with its steps followed.
fn follow(path: &str) -> (r: String)
    ensures
        r@ == followed(path@),
{
    let parts = text::split(path, '/');
    let ghost all = text::texts(parts@);
    let mut out: Vec<String> = Vec::new();
    let mut k: usize = 0;
    assert(text::texts(out@) =~= Seq::<Seq<char>>::empty());
    while k < parts.len()
        invariant
            k <= parts.len(),
            all == text::texts(parts@),
            text::texts(out@) == steps_upto(all, k as nat),
        decreases parts.len() - k,
    {
        assert(all[k as int] == parts@[k as int]@);
        assert(text::texts(out@).len() == out@.len());
        let part = parts[k].as_str();
        if text::chars(part).len() == 0 || text::same(part, ".") {
        } else if text::same(part, "..") {
            if out.len() > 0 {
                let ghost before = text::texts(out@);
                let _ = out.pop();
                assert(text::texts(out@) =~= before.drop_last());
            }
        } else {
            let part = parts[k].clone();
            proof {
                text::lemma_texts_push(out@, part);
            }
            out.push(part);
        }
        k += 1;
    }
    text::join(&out, "/")
}

/// Does an import's module string name the file that a symbol is defined in?
pub fn module_matches(def_path: &str, importing: &str, module: &str) -> (r: bool)
    ensures
        r == names_module(def_path@, importing@, module@),
{
    let def_stem = match text::rsplit_once(def_path, '.') {
        Some((front, _)) => front,
        None => def_path.to_string(),
    };
    let dir = dir_of(importing);
    if text::starts_with(module, "./") || text::starts_with(module, "../") {
        let path = text::cat3(dir.as_str(), "/", module);
        let resolved = follow(path.as_str());
        if text::same(resolved.as_str(), def_stem.as_str()) {
            return true;
        }
        let index = text::cat2(resolved.as_str(), "/index");
        return text::same(index.as_str(), def_stem.as_str());
    }
    match text::strip_prefix(module, ".") {
        Some(rest) => {
            let cs = text::chars(rest.as_str());
            let dot = text::chars(".");
            let ups = text::next_out(&cs, &dot, 0);
            let tail = text::piece(&cs, ups, cs.len());
            assert(tail@ =~= rest@.skip(ups as int));
            let inner = text::swap(tail.as_str(), '.', '/');
            let ghost start = dir@;
            let mut base = dir;
            let mut n: usize = 0;
            while n < ups
                invariant
                    n <= ups,
                    base@ == parent_up(start, n as nat),
                decreases ups - n,
            {
                base = dir_of(base.as_str());
                n += 1;
            }
            let joined = if text::chars(inner.as_str()).len() == 0 {
                base
            } else if text::chars(base.as_str()).len() == 0 {
                inner
            } else {
                text::cat3(base.as_str(), "/", inner.as_str())
            };
            text::same(joined.as_str(), def_stem.as_str())
        },
        None => {
            let dotted = text::swap(def_stem.as_str(), '/', '.');
            let below = text::cat2(".", module);
            let above = text::cat2(".", dotted.as_str());
            text::same(module, dotted.as_str()) || text::ends_with(dotted.as_str(), below.as_str())
                || text::ends_with(module, above.as_str())
        },
    }
}

/// The names that a file binds to a symbol itself, and those that it binds to
/// the whole module that the symbol is defined in. Such a name may be a dotted
/// path.
pub struct Bound {
    pub direct: Seq<Seq<char>>,
    pub modules: Seq<Seq<char>>,
}

/// The modules that the first `n` nodes of an import statement name without
/// another name for them.
pub open spec fn plain_in_statement(t: Seq<NodeText>, s: Seq<char>, list: Seq<int>, n: nat) -> Seq<
    Seq<char>,
>
    decreases n,
{
    if n == 0 {
        Seq::empty()
    } else {
        let rest = plain_in_statement(t, s, list, (n - 1) as nat);
        if t[list[n - 1]].kind == "dotted_name"@ {
            rest.push(tree::node_text(s, t[list[n - 1]]))
        } else {
            rest
        }
    }
}

/// The modules that the first `n` statements of a file import plainly, such as
/// `import services.svc0`.
pub open spec fn plain_upto(t: Seq<NodeText>, s: Seq<char>, list: Seq<int>, n: nat) -> Seq<
    Seq<char>,
>
    decreases n,
{
    if n == 0 {
        Seq::empty()
    } else {
        let rest = plain_upto(t, s, list, (n - 1) as nat);
        let names = tree::named_kids(t, list[n - 1]);
        if t[list[n - 1]].kind == "import_statement"@ {
            rest + plain_in_statement(t, s, names, names.len())
        } else {
            rest
        }
    }
}

/// The modules that a file imports plainly; none where it cannot be parsed.
pub open spec fn plain_imports(path: Seq<char>, content: Seq<char>) -> Seq<Seq<char>> {
    match tree_of(path, content) {
        Some(t) => plain_upto(t, content, tree::named_kids(t, 0), tree::named_kids(t, 0).len()),
        None => Seq::empty(),
    }
}

/// The modules that an import statement names without another name for them.
fn plain_of_statement(t: &SyntaxTree, src: &Source, i: usize) -> (r: Vec<String>)
    requires
        i < t@.len(),
        src.valid(),
    ensures
        text::texts(r@) == plain_in_statement(
            t@,
            src@,
            tree::named_kids(t@, i as int),
            tree::named_kids(t@, i as int).len(),
        ),
{
    let list = t.named_children(i);
    let ghost all = tree::named_kids(t@, i as int);
    let mut out: Vec<String> = Vec::new();
    let mut k: usize = 0;
    assert(text::texts(out@) =~= Seq::<Seq<char>>::empty());
    assert(all.len() == list@.len());
    while k < list.len()
        invariant
            k <= list.len() == all.len(),
            src.valid(),
            tree::ints(list@) == all,
            forall|a: int| 0 <= a < list@.len() ==> i < #[trigger] list@[a] < t@.len(),
            text::texts(out@) == plain_in_statement(t@, src@, all, k as nat),
        decreases list.len() - k,
    {
        assert(all[k as int] == list@[k as int]);
        if text::same(t.nodes[list[k]].kind, "dotted_name") {
            let module = t.text(list[k], src);
            proof {
                text::lemma_texts_push(out@, module);
            }
            out.push(module);
        }
        k += 1;
    }
    out
}

/// The modules that a file imports plainly.
pub fn plainly_imported(path: &str, content: &str) -> (r: Vec<String>)
    ensures
        text::texts(r@) == plain_imports(path@, content@),
{
    let mut out: Vec<String> = Vec::new();
    assert(text::texts(out@) =~= Seq::<Seq<char>>::empty());
    match tree_in(path, content) {
        Some(t) => {
            let src = Source::new(content);
            let list = t.named_children(0);
            let ghost all = tree::named_kids(t@, 0);
            let mut k: usize = 0;
            assert(all.len() == list@.len());
            while k < list.len()
                invariant
                    k <= list.len() == all.len(),
                    src.valid(),
                    src@ == content@,
                    tree::ints(list@) == all,
                    forall|a: int| 0 <= a < list@.len() ==> 0 < #[trigger] list@[a] < t@.len(),
                    text::texts(out@) == plain_upto(t@, content@, all, k as nat),
                decreases list.len() - k,
            {
                assert(all[k as int] == list@[k as int]);
                if text::same(t.nodes[list[k]].kind, "import_statement") {
                    let mut more = plain_of_statement(&t, &src, list[k]);
                    let ghost before = text::texts(out@);
                    let ghost added = text::texts(more@);
                    out.append(&mut more);
                    assert(text::texts(out@) =~= before + added);
                }
                k += 1;
            }
        },
        None => {},
    }
    out
}

/// Does an import that binds this name to a module leave what the module holds
/// to be written with the whole path before it? So does a plain import of a
/// dotted path, which binds the first part of it.
pub open spec fn is_spelled_out(plain: Seq<Seq<char>>, module: Seq<char>, local: Seq<char>) -> bool {
    local != module && local == imports::first_part(module) && text::listed(plain, module)
}

/// The names bound so far, and those that the first `n` names of an import
/// of the symbol's module bind.
pub open spec fn bind_names(
    b: Bound,
    plain: Seq<Seq<char>>,
    module: Seq<char>,
    names: Seq<(Seq<char>, Seq<char>)>,
    symbol: Seq<char>,
    n: nat,
) -> Bound
    decreases n,
{
    if n == 0 {
        b
    } else {
        let rest = bind_names(b, plain, module, names, symbol, (n - 1) as nat);
        let (local, name) = names[n - 1];
        if name == symbol {
            Bound { direct: rest.direct.push(local), modules: rest.modules }
        } else if name == "*"@ {
            if local == "*"@ {
                Bound { direct: rest.direct.push(symbol), modules: rest.modules }
            } else {
                Bound {
                    direct: rest.direct,
                    modules: if is_spelled_out(plain, module, local) {
                        rest.modules.push(local).push(module)
                    } else {
                        rest.modules.push(local)
                    },
                }
            }
        } else {
            rest
        }
    }
}

/// The module that a name imported from a module would be, were it one: in
/// `from services import svc0`, `services.svc0`.
pub open spec fn within_module(module: Seq<char>, name: Seq<char>) -> Seq<char> {
    if text::has_suffix(module, "."@) {
        module + name
    } else {
        module + "."@ + name
    }
}

/// The names bound so far, and those among the first `n` names of a Python
/// import that are the symbol's module.
pub open spec fn bind_submodules(
    b: Bound,
    file: Seq<char>,
    def_path: Seq<char>,
    module: Seq<char>,
    names: Seq<(Seq<char>, Seq<char>)>,
    n: nat,
) -> Bound
    decreases n,
{
    if n == 0 || family(file) != Some(Family::Python) {
        b
    } else {
        let rest = bind_submodules(b, file, def_path, module, names, (n - 1) as nat);
        let (local, name) = names[n - 1];
        if name != "*"@ && names_module(def_path, file, within_module(module, name)) {
            Bound { direct: rest.direct, modules: rest.modules.push(local) }
        } else {
            rest
        }
    }
}

/// The names that a file binds by its first `n` imports, beyond those that
/// are bound already.
pub open spec fn bind_imports(
    b: Bound,
    plain: Seq<Seq<char>>,
    imports: Seq<ImportText>,
    file: Seq<char>,
    def_path: Seq<char>,
    symbol: Seq<char>,
    n: nat,
) -> Bound
    decreases n,
{
    if n == 0 {
        b
    } else {
        let rest = bind_imports(b, plain, imports, file, def_path, symbol, (n - 1) as nat);
        let import = imports[n - 1];
        let own = if names_module(def_path, file, import.module) {
            bind_names(rest, plain, import.module, import.names, symbol, import.names.len())
        } else {
            rest
        };
        bind_submodules(own, file, def_path, import.module, import.names, import.names.len())
    }
}

/// The names that a file binds to a symbol, given what it imports: a call
/// site is recognised the way the language resolves it rather than by
/// spelling.
pub open spec fn bound_by(
    imports: Seq<ImportText>,
    plain: Seq<Seq<char>>,
    file: Seq<char>,
    def_path: Seq<char>,
    symbol: Seq<char>,
) -> Bound {
    let own = Bound {
        direct: if file == def_path {
            seq![symbol]
        } else {
            Seq::empty()
        },
        modules: Seq::empty(),
    };
    bind_imports(own, plain, imports, file, def_path, symbol, imports.len())
}

/// What a file imports; nothing where it cannot be parsed.
pub open spec fn imports_in(path: Seq<char>, content: Seq<char>) -> Seq<ImportText> {
    match engine::parsed(path, content) {
        Some(facts) => facts.imports,
        None => Seq::empty(),
    }
}

/// The names that a file binds to a symbol.
pub open spec fn bound_in(
    file: Seq<char>,
    content: Seq<char>,
    def_path: Seq<char>,
    symbol: Seq<char>,
) -> Bound {
    bound_by(imports_in(file, content), plain_imports(file, content), file, def_path, symbol)
}

/// The module that a name imported from a module would be, were it one.
fn name_within(module: &str, name: &str) -> (r: String)
    ensures
        r@ == within_module(module@, name@),
{
    if text::ends_with(module, ".") {
        text::cat2(module, name)
    } else {
        text::cat3(module, ".", name)
    }
}

/// The names that a file binds to a symbol, given what it imports: names
/// bound to the symbol itself, and names bound to the whole module, usable as
/// `<name>.symbol`.
pub fn bindings_from(
    imports: &Vec<Import>,
    plain: &Vec<String>,
    file: &str,
    def_path: &str,
    symbol: &str,
) -> (r: (Vec<String>, Vec<String>))
    ensures
        (Bound { direct: text::texts(r.0@), modules: text::texts(r.1@) }) == bound_by(
            imports::imports_text(imports@),
            text::texts(plain@),
            file@,
            def_path@,
            symbol@,
        ),
{
    let ghost all = imports::imports_text(imports@);
    let mut direct: Vec<String> = Vec::new();
    let mut modules: Vec<String> = Vec::new();
    assert(text::texts(modules@) =~= Seq::<Seq<char>>::empty());
    if text::same(file, def_path) {
        direct.push(symbol.to_string());
        assert(text::texts(direct@) =~= seq![symbol@]);
    } else {
        assert(text::texts(direct@) =~= Seq::<Seq<char>>::empty());
    }
    let ghost own = Bound { direct: text::texts(direct@), modules: text::texts(modules@) };
    let python = match family_of(file) {
        Some(Family::Python) => true,
        _ => false,
    };
    let mut k: usize = 0;
    while k < imports.len()
        invariant
            k <= imports.len(),
            all == imports::imports_text(imports@),
            python == (family(file@) == Some(Family::Python)),
            (Bound { direct: text::texts(direct@), modules: text::texts(modules@) }) == bind_imports(
                own,
                text::texts(plain@),
                all,
                file@,
                def_path@,
                symbol@,
                k as nat,
            ),
        decreases imports.len() - k,
    {
        assert(all[k as int] == imports@[k as int]@);
        if module_matches(def_path, file, imports[k].module.as_str()) {
            let names = &imports[k].names;
            let ghost pairs = text::text_pairs(names@);
            let ghost sofar = Bound { direct: text::texts(direct@), modules: text::texts(modules@) };
            let mut j: usize = 0;
            while j < names.len()
                invariant
                    j <= names.len(),
                    k < imports.len(),
                    pairs == text::text_pairs(names@),
                    (Bound { direct: text::texts(direct@), modules: text::texts(modules@) }) == bind_names(
                        sofar,
                        text::texts(plain@),
                        imports@[k as int].module@,
                        pairs,
                        symbol@,
                        j as nat,
                    ),
                decreases names.len() - j,
            {
                assert(pairs[j as int] == (names@[j as int].0@, names@[j as int].1@));
                let local = names[j].0.clone();
                if text::same(names[j].1.as_str(), symbol) {
                    proof {
                        text::lemma_texts_push(direct@, local);
                    }
                    direct.push(local);
                } else if text::same(names[j].1.as_str(), "*") {
                    if text::same(local.as_str(), "*") {
                        let name = symbol.to_string();
                        proof {
                            text::lemma_texts_push(direct@, name);
                        }
                        direct.push(name);
                    } else {
                        let first = imports::before_dot(imports[k].module.as_str());
                        let spelled = text::same(local.as_str(), first.as_str()) && !text::same(
                            local.as_str(),
                            imports[k].module.as_str(),
                        ) && text::is_listed(plain, imports[k].module.as_str());
                        proof {
                            text::lemma_texts_push(modules@, local);
                        }
                        modules.push(local);
                        if spelled {
                            let module = imports[k].module.clone();
                            proof {
                                text::lemma_texts_push(modules@, module);
                            }
                            modules.push(module);
                        }
                    }
                }
                j += 1;
            }
        }
        if python {
            let names = &imports[k].names;
            let ghost pairs = text::text_pairs(names@);
            let ghost sofar = Bound { direct: text::texts(direct@), modules: text::texts(modules@) };
            let mut j: usize = 0;
            while j < names.len()
                invariant
                    j <= names.len(),
                    k < imports.len(),
                    family(file@) == Some(Family::Python),
                    pairs == text::text_pairs(names@),
                    (Bound { direct: text::texts(direct@), modules: text::texts(modules@) })
                        == bind_submodules(
                        sofar,
                        file@,
                        def_path@,
                        imports@[k as int].module@,
                        pairs,
                        j as nat,
                    ),
                decreases names.len() - j,
            {
                assert(pairs[j as int] == (names@[j as int].0@, names@[j as int].1@));
                if !text::same(names[j].1.as_str(), "*") {
                    let inner = name_within(imports[k].module.as_str(), names[j].1.as_str());
                    if module_matches(def_path, file, inner.as_str()) {
                        let local = names[j].0.clone();
                        proof {
                            text::lemma_texts_push(modules@, local);
                        }
                        modules.push(local);
                    }
                }
                j += 1;
            }
        }
        k += 1;
    }
    (direct, modules)
}

/// The names that a file binds to a symbol.
pub fn bindings(file: &str, content: &str, def_path: &str, symbol: &str) -> (r: (
    Vec<String>,
    Vec<String>,
))
    ensures
        (Bound { direct: text::texts(r.0@), modules: text::texts(r.1@) }) == bound_in(
            file@,
            content@,
            def_path@,
            symbol@,
        ),
{
    let plain = plainly_imported(file, content);
    match engine::parse(file, content) {
        Some(out) => bindings_from(&out.imports, &plain, file, def_path, symbol),
        None => {
            let none: Vec<Import> = Vec::new();
            assert(imports::imports_text(none@) =~= Seq::<ImportText>::empty());
            bindings_from(&none, &plain, file, def_path, symbol)
        },
    }
}

/// Does a call of what has this name reach the symbol?
pub open spec fn calls_symbol(name: Seq<char>, symbol: Seq<char>, b: Bound) -> bool {
    text::listed(b.direct, name) || match text::cut_last(name, '.') {
        Some((object, part)) => part == symbol && text::listed(b.modules, object),
        None => false,
    }
}

/// Does a call of what has this name reach the symbol?
pub fn is_call_of(name: &str, symbol: &str, direct: &Vec<String>, modules: &Vec<String>) -> (r: bool)
    ensures
        r == calls_symbol(
            name@,
            symbol@,
            (Bound { direct: text::texts(direct@), modules: text::texts(modules@) }),
        ),
{
    if text::is_listed(direct, name) {
        return true;
    }
    match text::rsplit_once(name, '.') {
        Some((object, part)) => text::same(part.as_str(), symbol) && text::is_listed(
            modules,
            object.as_str(),
        ),
        None => false,
    }
}

// ------------------------------------------------------------- definitions

/// The definition at a node: the function's name matches, and the field
/// holds something.
pub open spec fn defined_at(
    t: Seq<NodeText>,
    s: Seq<char>,
    f: Family,
    symbol: Seq<char>,
    part: Seq<char>,
    j: int,
) -> Option<int> {
    if defines_function(t[j].kind, f) && tree::opt_node_text(s, t, tree::field(t, j, "name"@)) == Some(
        symbol,
    ) {
        tree::field(t, j, part)
    } else {
        None
    }
}

/// The first definition of a function from place `j` on whose field holds
/// something: the definition, and what the field holds.
pub open spec fn definition_from(
    t: Seq<NodeText>,
    s: Seq<char>,
    f: Family,
    symbol: Seq<char>,
    part: Seq<char>,
    j: int,
) -> Option<(int, int)>
    decreases t.len() - j,
{
    if j >= t.len() {
        None
    } else {
        match defined_at(t, s, f, symbol, part, j) {
            Some(k) => Some((j, k)),
            None => definition_from(t, s, f, symbol, part, j + 1),
        }
    }
}

/// The definition at a node.
fn find_defined(t: &SyntaxTree, src: &Source, f: Family, symbol: &str, part: &str, j: usize) -> (r:
    Option<usize>)
    requires
        j < t@.len(),
        src.valid(),
    ensures
        tree::opt_int(r) == defined_at(t@, src@, f, symbol@, part@, j as int),
        r is Some ==> r->0 < t@.len(),
{
    if !is_def(t.nodes[j].kind, f) {
        return None;
    }
    match t.field(j, "name") {
        Some(name) => {
            let name = t.text(name, src);
            if text::same(name.as_str(), symbol) {
                t.field(j, part)
            } else {
                None
            }
        },
        None => None,
    }
}

/// The first definition of a function whose field holds something: the
/// definition, and what the field holds.
pub fn find_definition(t: &SyntaxTree, src: &Source, f: Family, symbol: &str, part: &str) -> (r:
    Option<(usize, usize)>)
    requires
        src.valid(),
    ensures
        match r {
            Some((j, k)) => definition_from(t@, src@, f, symbol@, part@, 0) == Some(
                (j as int, k as int),
            ) && j < t@.len() && k < t@.len(),
            None => definition_from(t@, src@, f, symbol@, part@, 0) is None,
        },
{
    let mut j: usize = 0;
    assert(t@.len() == t.nodes@.len());
    while j < t.nodes.len()
        invariant
            j <= t.nodes.len() == t@.len(),
            src.valid(),
            definition_from(t@, src@, f, symbol@, part@, 0) == definition_from(
                t@,
                src@,
                f,
                symbol@,
                part@,
                j as int,
            ),
        decreases t.nodes.len() - j,
    {
        match find_defined(t, src, f, symbol, part, j) {
            Some(k) => {
                return Some((j, k));
            },
            None => {},
        }
        j += 1;
    }
    None
}

/// The change that puts one more item at the end of a bracketed list.
pub open spec fn appended(t: Seq<NodeText>, list: int, item: Seq<char>) -> ChangeText {
    let all = tree::kids(t, list);
    let close = if all.len() > 0 {
        all[all.len() - 1]
    } else {
        list
    };
    ChangeText {
        start: t[close].start,
        end: t[close].start,
        text: if tree::named_kids(t, list).len() == 0 {
            item
        } else {
            ", "@ + item
        },
    }
}

/// The change that puts one more item at the end of a bracketed list.
pub fn append_item(t: &SyntaxTree, list: usize, item: &str) -> (r: Change)
    requires
        list < t@.len(),
    ensures
        r@ == appended(t@, list as int, item@),
{
    let all = t.children(list);
    let named = t.named_children(list);
    let ghost ks = tree::kids(t@, list as int);
    assert(ks.len() == all@.len());
    assert(tree::named_kids(t@, list as int).len() == named@.len());
    let close = if all.len() > 0 {
        assert(ks[ks.len() - 1] == all@[all@.len() - 1]);
        all[all.len() - 1]
    } else {
        list
    };
    let at = t.nodes[close].start;
    let text = if named.len() == 0 {
        item.to_string()
    } else {
        text::cat2(", ", item)
    };
    Change { start: at, end: at, text }
}

/// Does a node of this kind take all further arguments?
pub open spec fn splat_kind(k: Seq<char>) -> bool {
    ||| k == "list_splat_pattern"@
    ||| k == "dictionary_splat_pattern"@
    ||| k == "keyword_separator"@
    ||| k == "rest_pattern"@
}

/// Does a node of this kind take all further arguments?
fn is_splat_kind(k: &str) -> (r: bool)
    ensures
        r == splat_kind(k@),
{
    text::same(k, "list_splat_pattern") || text::same(k, "dictionary_splat_pattern") || text::same(
        k,
        "keyword_separator",
    ) || text::same(k, "rest_pattern")
}

/// Does a node of this kind wrap the parameter it declares, with its type?
pub open spec fn wrapper_kind(k: Seq<char>) -> bool {
    k == "typed_parameter"@ || k == "required_parameter"@ || k == "optional_parameter"@
}

/// Does the parameter at a node take all further arguments, whatever wrapper
/// it wears?
pub open spec fn takes_rest(t: Seq<NodeText>, i: int) -> bool {
    splat_kind(t[i].kind) || wrapper_kind(t[i].kind) && tree::named_kids(t, i).len() > 0 && splat_kind(
        t[tree::named_kids(t, i)[0]].kind,
    )
}

/// The first of the parameters, from the `k`th on, that takes all further
/// arguments.
pub open spec fn rest_from(t: Seq<NodeText>, list: Seq<int>, k: nat) -> Option<int>
    decreases list.len() - k,
{
    if k >= list.len() {
        None
    } else if takes_rest(t, list[k as int]) {
        Some(list[k as int])
    } else {
        rest_from(t, list, k + 1)
    }
}

/// Does the parameter at a node take all further arguments?
fn is_rest(t: &SyntaxTree, i: usize) -> (r: bool)
    requires
        i < t@.len(),
    ensures
        r == takes_rest(t@, i as int),
{
    let kind = t.nodes[i].kind;
    if is_splat_kind(kind) {
        return true;
    }
    if !(text::same(kind, "typed_parameter") || text::same(kind, "required_parameter") || text::same(
        kind,
        "optional_parameter",
    )) {
        return false;
    }
    let kids = t.named_children(i);
    let ghost all = tree::named_kids(t@, i as int);
    assert(all.len() == kids@.len());
    if kids.len() == 0 {
        return false;
    }
    assert(all[0] == kids@[0]);
    is_splat_kind(t.nodes[kids[0]].kind)
}

/// The first of the parameters that takes all further arguments.
fn find_rest(t: &SyntaxTree, list: usize) -> (r: Option<usize>)
    requires
        list < t@.len(),
    ensures
        tree::opt_int(r) == rest_from(t@, tree::named_kids(t@, list as int), 0),
        r is Some ==> r->0 < t@.len(),
{
    let kids = t.named_children(list);
    let ghost all = tree::named_kids(t@, list as int);
    let mut k: usize = 0;
    assert(all.len() == kids@.len());
    while k < kids.len()
        invariant
            k <= kids.len() == all.len(),
            tree::ints(kids@) == all,
            all == tree::named_kids(t@, list as int),
            forall|a: int| 0 <= a < kids@.len() ==> list < #[trigger] kids@[a] < t@.len(),
            rest_from(t@, all, 0) == rest_from(t@, all, k as nat),
        decreases kids.len() - k,
    {
        assert(all[k as int] == kids@[k as int]);
        if is_rest(t, kids[k]) {
            return Some(kids[k]);
        }
        k += 1;
    }
    None
}

/// A parameter as it is written.
pub open spec fn param_text(
    name: Seq<char>,
    type_: Option<Seq<char>>,
    default: Option<Seq<char>>,
) -> Seq<char> {
    let typed = match type_ {
        Some(t) => name + (": "@ + t),
        None => name,
    };
    match default {
        Some(d) => typed + (" = "@ + d),
        None => typed,
    }
}

/// The change that adds a parameter to a definition: it goes last, before
/// anything that takes all further arguments.
pub open spec fn param_added(t: Seq<NodeText>, list: int, param: Seq<char>) -> ChangeText {
    match rest_from(t, tree::named_kids(t, list), 0) {
        Some(p) => ChangeText { start: t[p].start, end: t[p].start, text: param + ", "@ },
        None => appended(t, list, param),
    }
}

/// A parameter as it is written.
pub fn write_param(name: &str, type_: &Option<String>, default: &Option<String>) -> (r: String)
    ensures
        r@ == param_text(name@, text::opt_text(*type_), text::opt_text(*default)),
{
    let typed = match type_ {
        Some(t) => {
            let tail = text::cat2(": ", t.as_str());
            text::cat2(name, tail.as_str())
        },
        None => name.to_string(),
    };
    match default {
        Some(d) => {
            let tail = text::cat2(" = ", d.as_str());
            text::cat2(typed.as_str(), tail.as_str())
        },
        None => typed,
    }
}

/// The change that adds a parameter to a definition.
pub fn add_to_params(t: &SyntaxTree, list: usize, param: &str) -> (r: Change)
    requires
        list < t@.len(),
    ensures
        r@ == param_added(t@, list as int, param@),
{
    match find_rest(t, list) {
        Some(p) => {
            let at = t.nodes[p].start;
            Change { start: at, end: at, text: text::cat2(param, ", ") }
        },
        None => append_item(t, list, param),
    }
}

/// The name a parameter node declares, whatever wrapper it wears.
pub open spec fn param_named(t: Seq<NodeText>, s: Seq<char>, f: Family, i: int) -> Option<
    Seq<char>,
> {
    let k = t[i].kind;
    if k == "identifier"@ {
        Some(tree::node_text(s, t[i]))
    } else {
        match f {
            Family::Python => if k == "typed_parameter"@ {
                if tree::named_kids(t, i).len() > 0 {
                    Some(tree::node_text(s, t[tree::named_kids(t, i)[0]]))
                } else {
                    None
                }
            } else if k == "default_parameter"@ || k == "typed_default_parameter"@ {
                tree::opt_node_text(s, t, tree::field(t, i, "name"@))
            } else {
                None
            },
            Family::Ts => if k == "required_parameter"@ || k == "optional_parameter"@ {
                tree::opt_node_text(s, t, tree::field(t, i, "pattern"@))
            } else {
                None
            },
        }
    }
}

/// The name a parameter node declares, whatever wrapper it wears.
fn param_name(t: &SyntaxTree, src: &Source, f: Family, i: usize) -> (r: Option<String>)
    requires
        i < t@.len(),
        src.valid(),
    ensures
        text::opt_text(r) == param_named(t@, src@, f, i as int),
{
    let kind = t.nodes[i].kind;
    if text::same(kind, "identifier") {
        return Some(t.text(i, src));
    }
    match f {
        Family::Python => {
            if text::same(kind, "typed_parameter") {
                let list = t.named_children(i);
                assert(tree::named_kids(t@, i as int).len() == list@.len());
                if list.len() > 0 {
                    assert(tree::named_kids(t@, i as int)[0] == list@[0]);
                    Some(t.text(list[0], src))
                } else {
                    None
                }
            } else if text::same(kind, "default_parameter") || text::same(kind, "typed_default_parameter") {
                match t.field(i, "name") {
                    Some(k) => Some(t.text(k, src)),
                    None => None,
                }
            } else {
                None
            }
        },
        Family::Ts => {
            if text::same(kind, "required_parameter") || text::same(kind, "optional_parameter") {
                match t.field(i, "pattern") {
                    Some(k) => Some(t.text(k, src)),
                    None => None,
                }
            } else {
                None
            }
        },
    }
}

/// The place of the first of the parameters, from the `k`th on, that has the
/// name.
pub open spec fn param_place(
    t: Seq<NodeText>,
    s: Seq<char>,
    f: Family,
    list: Seq<int>,
    name: Seq<char>,
    k: nat,
) -> Option<nat>
    decreases list.len() - k,
{
    if k >= list.len() {
        None
    } else if param_named(t, s, f, list[k as int]) == Some(name) {
        Some(k)
    } else {
        param_place(t, s, f, list, name, k + 1)
    }
}

/// The first definition of the symbol, from place `j` on, that has a
/// parameter of the name: its parameter list, and the parameter's place.
pub open spec fn param_from(
    t: Seq<NodeText>,
    s: Seq<char>,
    f: Family,
    symbol: Seq<char>,
    name: Seq<char>,
    j: int,
) -> Option<(int, nat)>
    decreases t.len() - j,
{
    if j >= t.len() {
        None
    } else {
        match defined_at(t, s, f, symbol, "parameters"@, j) {
            Some(list) => match param_place(t, s, f, tree::named_kids(t, list), name, 0) {
                Some(k) => Some((list, k)),
                None => param_from(t, s, f, symbol, name, j + 1),
            },
            None => param_from(t, s, f, symbol, name, j + 1),
        }
    }
}

/// The place of the parameter that has the name.
fn find_place(t: &SyntaxTree, src: &Source, f: Family, list: usize, name: &str) -> (r: Option<
    usize,
>)
    requires
        list < t@.len(),
        src.valid(),
    ensures
        match r {
            Some(k) => param_place(t@, src@, f, tree::named_kids(t@, list as int), name@, 0) == Some(
                k as nat,
            ) && k < tree::named_kids(t@, list as int).len(),
            None => param_place(t@, src@, f, tree::named_kids(t@, list as int), name@, 0) is None,
        },
{
    let all = t.named_children(list);
    let ghost ks = tree::named_kids(t@, list as int);
    let mut k: usize = 0;
    assert(ks.len() == all@.len());
    while k < all.len()
        invariant
            k <= all.len() == ks.len(),
            src.valid(),
            tree::ints(all@) == ks,
            ks == tree::named_kids(t@, list as int),
            forall|a: int| 0 <= a < all@.len() ==> list < #[trigger] all@[a] < t@.len(),
            param_place(t@, src@, f, ks, name@, 0) == param_place(
                t@,
                src@,
                f,
                ks,
                name@,
                k as nat,
            ),
        decreases all.len() - k,
    {
        assert(ks[k as int] == all@[k as int]);
        match param_name(t, src, f, all[k]) {
            Some(found) => {
                if text::same(found.as_str(), name) {
                    return Some(k);
                }
            },
            None => {},
        }
        k += 1;
    }
    None
}

/// The first definition of the symbol that has a parameter of the name: its
/// parameter list, and the parameter's place.
pub fn find_param(t: &SyntaxTree, src: &Source, f: Family, symbol: &str, name: &str) -> (r: Option<
    (usize, usize),
>)
    requires
        src.valid(),
    ensures
        match r {
            Some((list, k)) => param_from(t@, src@, f, symbol@, name@, 0) == Some(
                (list as int, k as nat),
            ) && list < t@.len() && k < tree::named_kids(t@, list as int).len(),
            None => param_from(t@, src@, f, symbol@, name@, 0) is None,
        },
{
    let mut j: usize = 0;
    assert(t@.len() == t.nodes@.len());
    while j < t.nodes.len()
        invariant
            j <= t.nodes.len() == t@.len(),
            src.valid(),
            param_from(t@, src@, f, symbol@, name@, 0) == param_from(
                t@,
                src@,
                f,
                symbol@,
                name@,
                j as int,
            ),
        decreases t.nodes.len() - j,
    {
        match find_defined(t, src, f, symbol, "parameters", j) {
            Some(list) => match find_place(t, src, f, list, name) {
                Some(k) => {
                    return Some((list, k));
                },
                None => {},
            },
            None => {},
        }
        j += 1;
    }
    None
}

// ---------------------------------------------------------- taking items out

/// How many blanks stand from position `p` on.
pub open spec fn blanks_from(s: Seq<char>, p: int) -> nat
    decreases s.len() - p,
{
    if p >= s.len() || s[p] != ' ' {
        0
    } else {
        1 + blanks_from(s, p + 1)
    }
}

/// The byte behind the blanks that stand from a byte on.
pub open spec fn behind_blanks(s: Seq<char>, at: nat) -> nat {
    match text::char_pos(s, at) {
        Some(p) => at + blanks_from(s, p as int),
        None => at,
    }
}

/// The place of a node among others; the first where it is none of them.
pub open spec fn place_among(list: Seq<int>, x: int, k: nat) -> nat
    decreases list.len() - k,
{
    if k >= list.len() {
        0
    } else if list[k as int] == x {
        k
    } else {
        place_among(list, x, k + 1)
    }
}

/// The byte range to remove for one item of a list, taking a neighbouring
/// comma with it so that the list stays well-formed: the comma before it, or
/// for the first item the comma behind it and the blanks behind that.
pub open spec fn removal(t: Seq<NodeText>, s: Seq<char>, list: int, victim: int) -> ChangeText {
    let all = tree::kids(t, list);
    let k = place_among(all, victim, 0) as int;
    if 0 < k <= all.len() && tree::node_text(s, t[all[k - 1]]) == ","@ {
        ChangeText { start: t[all[k - 1]].start, end: t[victim].end, text: text::no_text() }
    } else if k + 1 < all.len() && tree::node_text(s, t[all[k + 1]]) == ","@ {
        ChangeText {
            start: t[victim].start,
            end: behind_blanks(s, t[all[k + 1]].end),
            text: text::no_text(),
        }
    } else {
        ChangeText { start: t[victim].start, end: t[victim].end, text: text::no_text() }
    }
}

/// Blanks are one byte wide.
proof fn lemma_blanks(s: Seq<char>, p: nat)
    requires
        p <= s.len(),
    ensures
        p + blanks_from(s, p as int) <= s.len(),
        text::bytes_upto(s, p + blanks_from(s, p as int)) == text::bytes_upto(s, p) + blanks_from(s, p as int),
    decreases s.len() - p,
{
    if p < s.len() && s[p as int] == ' ' {
        lemma_blanks(s, p + 1);
        assert(text::bytes_upto(s, p + 1) == text::bytes_upto(s, p) + text::width(' '));
    }
}

/// The byte behind the blanks that stand from a byte on.
fn skip_blanks(src: &Source, at: usize) -> (r: usize)
    requires
        src.valid(),
    ensures
        r == behind_blanks(src@, at as nat),
{
    match src.place(at) {
        None => at,
        Some(p) => {
            let mut k: usize = p;
            proof {
                text::lemma_char_pos(src@, at as nat, 0);
                lemma_blanks(src@, p as nat);
                text::lemma_bytes_grow(
                    src@,
                    (p + blanks_from(src@, p as int)) as nat,
                    src@.len(),
                );
            }
            while k < src.chars.len() && src.chars[k] == ' '
                invariant
                    p <= k <= src@.len(),
                    src@ == src.chars@,
                    blanks_from(src@, p as int) == (k - p) + blanks_from(src@, k as int),
                decreases src.chars.len() - k,
            {
                k += 1;
            }
            assert(at + (k - p) < src.places.len());
            at + (k - p)
        },
    }
}

/// The byte range to remove for one item of a list.
pub fn removal_range(t: &SyntaxTree, src: &Source, list: usize, victim: usize) -> (r: Change)
    requires
        list < t@.len(),
        victim < t@.len(),
        src.valid(),
    ensures
        r@ == removal(t@, src@, list as int, victim as int),
{
    let all = t.children(list);
    let ghost ks = tree::kids(t@, list as int);
    let mut k: usize = 0;
    assert(ks.len() == all@.len());
    let mut i: usize = 0;
    let mut going = true;
    while going && i < all.len()
        invariant
            i <= all.len() == ks.len(),
            k <= i,
            tree::ints(all@) == ks,
            going ==> k == 0 && place_among(ks, victim as int, 0) == place_among(
                ks,
                victim as int,
                i as nat,
            ),
            !going ==> place_among(ks, victim as int, 0) == k,
        decreases (if going { 1int } else { 0int }), all.len() - i,
    {
        assert(ks[i as int] == all@[i as int]);
        if all[i] == victim {
            k = i;
            going = false;
        } else {
            i += 1;
        }
    }
    let start = t.nodes[victim].start;
    let end = t.nodes[victim].end;
    let none = String::new();
    assert(none@ =~= text::no_text());
    if k > 0 && k <= all.len() {
        assert(ks[k - 1] == all@[k - 1]);
        let before = t.text(all[k - 1], src);
        if text::same(before.as_str(), ",") {
            return Change { start: t.nodes[all[k - 1]].start, end, text: none };
        }
    }
    if k < all.len() && k + 1 < all.len() {
        assert(ks[k + 1] == all@[k + 1]);
        let behind = t.text(all[k + 1], src);
        if text::same(behind.as_str(), ",") {
            let to = skip_blanks(src, t.nodes[all[k + 1]].end);
            return Change { start, end: to, text: none };
        }
    }
    Change { start, end, text: none }
}

} // verus!

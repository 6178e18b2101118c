//! What a declaration touches: the names it calls, inherits from, types with
//! and mentions, and every call it makes.
use vstd::prelude::*;
use crate::tree;
use crate::text;
use crate::kinds;
use crate::graph;
use crate::langs::LangSpec;
use crate::tree::{NodeText, Source, SyntaxTree};

verus! {

/// An edge of a declaration to what it inherits from.
pub const INHERITS: &'static str = "inherits";

/// An edge of a declaration to what it calls.
pub const CALLS: &'static str = "calls";

/// An edge of a declaration to a type it names.
pub const USES_TYPE: &'static str = "uses_type";

/// An edge of a declaration to anything else it names.
pub const REFERENCES: &'static str = "references";

// ------------------------------------------------------- names in a chain

/// The last of the places, where there is one.
pub open spec fn last_place(list: Seq<int>) -> Option<int> {
    if list.len() > 0 {
        Some(list[list.len() - 1])
    } else {
        None
    }
}

/// The first of the places, where there is one.
pub open spec fn first_place(list: Seq<int>) -> Option<int> {
    if list.len() > 0 {
        Some(list[0])
    } else {
        None
    }
}

/// What a field holds, where the field has a name and holds something.
pub open spec fn named_field(t: Seq<NodeText>, i: int, name: Seq<char>) -> Option<int> {
    if name.len() == 0 {
        None
    } else {
        tree::field(t, i, name)
    }
}

/// The name that a chain of member accesses starts from, and the member that
/// it ends in: `(a, d)` for `a.b.c.d`. The chain is followed for `n` links;
/// a chain that starts from no name, or is longer, has neither.
pub open spec fn leftmost(
    t: Seq<NodeText>,
    s: Seq<char>,
    at: Option<int>,
    member: Seq<char>,
    n: nat,
) -> (Seq<char>, Seq<char>)
    decreases n,
{
    if n == 0 || at is None {
        (text::no_text(), text::no_text())
    } else {
        let i = at->0;
        let list = tree::named_kids(t, i);
        if kinds::ident_kind(t[i].kind) {
            (tree::node_text(s, t[i]), member)
        } else {
            match kinds::member_text(t[i].kind) {
                Some((object, part)) => {
                    let end = tree::either(named_field(t, i, part), last_place(list));
                    let reached = if member.len() == 0 {
                        tree::text_or_none(s, t, end)
                    } else {
                        member
                    };
                    leftmost(
                        t,
                        s,
                        tree::either(named_field(t, i, object), first_place(list)),
                        reached,
                        (n - 1) as nat,
                    )
                },
                None => if kinds::wrapper_kind(t[i].kind) {
                    leftmost(t, s, first_place(list), member, (n - 1) as nat)
                } else {
                    (text::no_text(), text::no_text())
                },
            }
        }
    }
}

/// The name that a chain of at most twelve links starts from, and the member
/// that it ends in.
pub open spec fn chain_names(t: Seq<NodeText>, s: Seq<char>, i: int) -> (Seq<char>, Seq<char>) {
    leftmost(t, s, Some(i), text::no_text(), 12)
}

/// Is there no text?
fn is_empty(s: &str) -> (r: bool)
    ensures
        r == (s@.len() == 0),
{
    let none = String::new();
    proof {
        assert(s@.len() == 0 ==> s@ =~= none@);
    }
    text::same(s, none.as_str())
}

/// What a field holds, where the field has a name and holds something.
fn held(t: &SyntaxTree, i: usize, name: &str) -> (r: Option<usize>)
    requires
        i < t@.len(),
    ensures
        tree::opt_int(r) == named_field(t@, i as int, name@),
        r is Some ==> r->0 < t@.len(),
{
    if is_empty(name) {
        None
    } else {
        t.field(i, name)
    }
}

/// The name that a chain of at most twelve links starts from, and the member
/// that it ends in.
pub fn leftmost_name(t: &SyntaxTree, src: &Source, i: usize) -> (r: (String, String))
    requires
        i < t@.len(),
        src.valid(),
    ensures
        (r.0@, r.1@) == chain_names(t@, src@, i as int),
{
    let mut member = String::new();
    let mut at: usize = i;
    let mut left: u32 = 12;
    assert(member@ =~= text::no_text());
    while left > 0
        invariant
            left <= 12,
            at < t@.len(),
            src.valid(),
            chain_names(t@, src@, i as int) == leftmost(
                t@,
                src@,
                Some(at as int),
                member@,
                left as nat,
            ),
        decreases left,
    {
        let kind = t.nodes[at].kind;
        if kinds::is_ident_kind(kind) {
            return (t.text(at, src), member);
        }
        let list = t.named_children(at);
        let ghost all = tree::named_kids(t@, at as int);
        assert(all.len() == list@.len());
        let first = if list.len() > 0 {
            assert(all[0] == list@[0]);
            Some(list[0])
        } else {
            None
        };
        let last = if list.len() > 0 {
            assert(all[all.len() - 1] == list@[list@.len() - 1]);
            Some(list[list.len() - 1])
        } else {
            None
        };
        left -= 1;
        let next = match kinds::member_fields(kind) {
            Some((object, part)) => {
                let end = match held(t, at, part) {
                    Some(k) => Some(k),
                    None => last,
                };
                if is_empty(member.as_str()) {
                    member = t.text_of(end, src);
                }
                match held(t, at, object) {
                    Some(k) => Some(k),
                    None => first,
                }
            },
            None => {
                if !kinds::is_wrapper_kind(kind) {
                    return (String::new(), String::new());
                }
                first
            },
        };
        match next {
            Some(k) => {
                at = k;
            },
            None => {
                proof {
                    reveal_with_fuel(leftmost, 2);
                }
                return (String::new(), String::new());
            },
        }
    }
    (String::new(), String::new())
}

// --------------------------------------------------------------- one call

/// What a call calls.
pub open spec fn callee(t: Seq<NodeText>, i: int) -> Option<int> {
    tree::either(
        tree::field(t, i, "function"@),
        tree::either(
            tree::field(t, i, "name"@),
            tree::either(
                tree::field(t, i, "constructor"@),
                tree::either(
                    tree::field(t, i, "type"@),
                    tree::either(tree::field(t, i, "macro"@), first_place(tree::named_kids(t, i))),
                ),
            ),
        ),
    )
}

/// What a call calls.
fn callee_of(t: &SyntaxTree, i: usize) -> (r: Option<usize>)
    requires
        i < t@.len(),
    ensures
        tree::opt_int(r) == callee(t@, i as int),
        r is Some ==> r->0 < t@.len(),
{
    match t.field(i, "function") {
        Some(k) => {
            return Some(k);
        },
        None => {},
    }
    match t.field(i, "name") {
        Some(k) => {
            return Some(k);
        },
        None => {},
    }
    match t.field(i, "constructor") {
        Some(k) => {
            return Some(k);
        },
        None => {},
    }
    match t.field(i, "type") {
        Some(k) => {
            return Some(k);
        },
        None => {},
    }
    match t.field(i, "macro") {
        Some(k) => {
            return Some(k);
        },
        None => {},
    }
    let list = t.named_children(i);
    let ghost all = tree::named_kids(t@, i as int);
    assert(all.len() == list@.len());
    if list.len() > 0 {
        assert(all[0] == list@[0]);
        Some(list[0])
    } else {
        None
    }
}

/// A list without the brackets around it, where it has them.
pub open spec fn unbracketed(s: Seq<char>) -> Seq<char> {
    if s.len() >= 2 && s[0] == '(' && s.last() == ')' {
        s.subrange(1, s.len() - 1)
    } else {
        s
    }
}

/// A list without the brackets around it, where it has them.
fn unbracket(s: &str) -> (r: String)
    ensures
        r@ == unbracketed(s@),
{
    let cs = text::chars(s);
    if cs.len() >= 2 && cs[0] == '(' && cs[cs.len() - 1] == ')' {
        text::piece(&cs, 1, cs.len() - 1)
    } else {
        s.to_string()
    }
}

/// The arguments of a call as written, without the brackets around them, and
/// cut so that a call with a function in it stays short.
pub open spec fn arguments(t: Seq<NodeText>, s: Seq<char>, i: int) -> Seq<char> {
    match tree::either(tree::field(t, i, "arguments"@), last_place(tree::named_kids(t, i))) {
        None => text::no_text(),
        Some(a) => {
            let inner = text::trimmed(unbracketed(text::trimmed(tree::node_text(s, t[a]))));
            if inner.len() > 120 {
                text::first_chars(inner, 120).push('\u{2026}')
            } else {
                inner
            }
        },
    }
}

/// The arguments of a call as written.
fn args_text(t: &SyntaxTree, src: &Source, i: usize) -> (r: String)
    requires
        i < t@.len(),
        src.valid(),
    ensures
        r@ == arguments(t@, src@, i as int),
{
    let args = match t.field(i, "arguments") {
        Some(k) => Some(k),
        None => {
            let list = t.named_children(i);
            let ghost all = tree::named_kids(t@, i as int);
            assert(all.len() == list@.len());
            if list.len() > 0 {
                assert(all[all.len() - 1] == list@[list@.len() - 1]);
                Some(list[list.len() - 1])
            } else {
                None
            }
        },
    };
    match args {
        None => String::new(),
        Some(a) => {
            let raw = t.text(a, src);
            let inner = text::trim(raw.as_str());
            let inner = unbracket(inner.as_str());
            let inner = text::trim(inner.as_str());
            if text::chars(inner.as_str()).len() > 120 {
                let mut out = text::take_chars(inner.as_str(), 120);
                out.push('\u{2026}');
                out
            } else {
                inner
            }
        },
    }
}

// --------------------------------------------------------- one declaration

/// A declaration whose edges are looked for: where it stands, what it is
/// called, and the span of the field that says what it inherits from.
pub struct Scope {
    pub top: int,
    pub own: Seq<char>,
    pub heritage: Option<(nat, nat)>,
}

/// The scope of a declaration.
pub open spec fn scope_of(
    t: Seq<NodeText>,
    i: int,
    own: Seq<char>,
    heritage_field: Option<Seq<char>>,
) -> Scope {
    let held = match heritage_field {
        Some(name) => tree::field(t, i, name),
        None => None,
    };
    Scope {
        top: i,
        own,
        heritage: match held {
            Some(k) => Some((t[k].start, t[k].end)),
            None => None,
        },
    }
}

/// Does the node say what the declaration inherits from?
pub open spec fn is_heritage(t: Seq<NodeText>, c: Scope, k: int) -> bool {
    kinds::heritage_kind(t[k].kind) || c.heritage == Some((t[k].start, t[k].end))
}

/// Does the node stand in what the declaration inherits from?
pub open spec fn in_heritage(t: Seq<NodeText>, c: Scope, j: int) -> bool {
    exists|k: int| c.top <= k <= j && #[trigger] is_heritage(t, c, k) && j < tree::after(t, k)
}

/// The node that a call, or a member access, takes its names from.
pub open spec fn named_by(t: Seq<NodeText>, j: int) -> Option<int> {
    if kinds::member_text(t[j].kind) is Some {
        Some(j)
    } else {
        callee(t, j)
    }
}

/// What a call or a member access notes: (target, member, kind).
pub open spec fn access_notes(t: Seq<NodeText>, s: Seq<char>, j: int, inherits: bool) -> Seq<
    (Seq<char>, Seq<char>, Seq<char>),
> {
    let k = t[j].kind;
    if kinds::call_kind(k) {
        match named_by(t, j) {
            None => Seq::empty(),
            Some(c) => {
                let (target, member) = chain_names(t, s, c);
                seq![(target, member, if inherits { INHERITS@ } else { CALLS@ })]
            },
        }
    } else if kinds::member_text(k) is Some && !inherits {
        let (target, member) = chain_names(t, s, j);
        seq![(target, member, REFERENCES@)]
    } else {
        Seq::empty()
    }
}

/// What a name notes.
pub open spec fn name_notes(t: Seq<NodeText>, s: Seq<char>, j: int, inherits: bool) -> Seq<
    (Seq<char>, Seq<char>, Seq<char>),
> {
    let k = t[j].kind;
    if !kinds::ident_kind(k) {
        Seq::empty()
    } else if inherits {
        seq![(tree::node_text(s, t[j]), text::no_text(), INHERITS@)]
    } else if k == "type_identifier"@ || k == "scoped_type_identifier"@ {
        seq![(tree::node_text(s, t[j]), text::no_text(), USES_TYPE@)]
    } else {
        seq![(tree::node_text(s, t[j]), text::no_text(), REFERENCES@)]
    }
}

/// Does a note come before another?
pub open spec fn note_before(
    a: (Seq<char>, Seq<char>, Seq<char>),
    b: (Seq<char>, Seq<char>, Seq<char>),
) -> bool {
    text::before(a.0, b.0) || (a.0 == b.0 && text::before(a.1, b.1))
}

/// The first place from `i` on whose note does not come before `x`.
pub open spec fn note_seat(
    v: Seq<(Seq<char>, Seq<char>, Seq<char>)>,
    x: (Seq<char>, Seq<char>, Seq<char>),
    i: int,
) -> int
    decreases v.len() - i,
{
    if i >= v.len() {
        v.len() as int
    } else if note_before(v[i], x) {
        note_seat(v, x, i + 1)
    } else {
        i
    }
}

/// The notes with one more. Of two notes on the same target and member the
/// more telling kind stays. A note on nothing, or on the declaration itself,
/// is none.
pub open spec fn with_note(
    v: Seq<(Seq<char>, Seq<char>, Seq<char>)>,
    x: (Seq<char>, Seq<char>, Seq<char>),
    own: Seq<char>,
) -> Seq<(Seq<char>, Seq<char>, Seq<char>)> {
    let p = note_seat(v, x, 0);
    if x.0.len() == 0 || x.0 == own {
        v
    } else if p < v.len() && v[p].0 == x.0 && v[p].1 == x.1 {
        if graph::kind_rank(x.2) < graph::kind_rank(v[p].2) {
            v.update(p, x)
        } else {
            v
        }
    } else {
        v.insert(p, x)
    }
}

/// The notes with the first `n` of the others.
pub open spec fn with_notes(
    v: Seq<(Seq<char>, Seq<char>, Seq<char>)>,
    more: Seq<(Seq<char>, Seq<char>, Seq<char>)>,
    own: Seq<char>,
    n: nat,
) -> Seq<(Seq<char>, Seq<char>, Seq<char>)>
    decreases n,
{
    if n == 0 {
        v
    } else {
        with_note(with_notes(v, more, own, (n - 1) as nat), more[n - 1], own)
    }
}

/// What one node notes.
pub open spec fn notes_at(t: Seq<NodeText>, s: Seq<char>, c: Scope, j: int) -> Seq<
    (Seq<char>, Seq<char>, Seq<char>),
> {
    let inherits = in_heritage(t, c, j);
    access_notes(t, s, j, inherits) + name_notes(t, s, j, inherits)
}

/// What the nodes of a declaration before place `n` note.
pub open spec fn notes_upto(t: Seq<NodeText>, s: Seq<char>, c: Scope, n: int) -> Seq<
    (Seq<char>, Seq<char>, Seq<char>),
>
    decreases n - c.top,
{
    if n <= c.top {
        Seq::empty()
    } else {
        let more = notes_at(t, s, c, n - 1);
        with_notes(notes_upto(t, s, c, n - 1), more, c.own, more.len())
    }
}

/// The number of a line, counted from one.
pub open spec fn line_number(row: nat) -> nat {
    ((row + 1) % 0x1_0000_0000) as nat
}

/// The call that a node makes to something else: (target, line, arguments).
pub open spec fn site_at(t: Seq<NodeText>, s: Seq<char>, c: Scope, j: int) -> Option<
    (Seq<char>, nat, Seq<char>),
> {
    if kinds::call_kind(t[j].kind) && named_by(t, j) is Some && !in_heritage(t, c, j) {
        let target = chain_names(t, s, named_by(t, j)->0).0;
        if target.len() > 0 && target != c.own {
            Some((target, line_number(t[j].start_row), arguments(t, s, j)))
        } else {
            None
        }
    } else {
        None
    }
}

/// The calls that the nodes of a declaration before place `n` make.
pub open spec fn sites_upto(t: Seq<NodeText>, s: Seq<char>, c: Scope, n: int) -> Seq<
    (Seq<char>, nat, Seq<char>),
>
    decreases n - c.top,
{
    if n <= c.top {
        Seq::empty()
    } else {
        let rest = sites_upto(t, s, c, n - 1);
        match site_at(t, s, c, n - 1) {
            Some(x) => rest.push(x),
            None => rest,
        }
    }
}

/// The texts of a list of call sites.
pub open spec fn site_texts(v: Seq<(String, u32, String)>) -> Seq<(Seq<char>, nat, Seq<char>)> {
    Seq::new(v.len(), |i: int| (v[i].0@, v[i].1 as nat, v[i].2@))
}

/// Adds a note.
fn note(
    found: &mut Vec<(String, String, String)>,
    own: &str,
    name: String,
    member: String,
    kind: &str,
)
    ensures
        graph::triples(final(found)@) == with_note(
            graph::triples(old(found)@),
            (name@, member@, kind@),
            own@,
        ),
{
    if is_empty(name.as_str()) || text::same(name.as_str(), own) {
        return;
    }
    let ghost done = graph::triples(found@);
    let ghost x = (name@, member@, kind@);
    let mut p: usize = 0;
    while p < found.len() && (text::comes_before(found[p].0.as_str(), name.as_str()) || (text::same(
        found[p].0.as_str(),
        name.as_str(),
    ) && text::comes_before(found[p].1.as_str(), member.as_str())))
        invariant
            p <= found.len(),
            done == graph::triples(found@),
            x == (name@, member@, kind@),
            note_seat(done, x, 0) == note_seat(done, x, p as int),
        decreases found.len() - p,
    {
        assert(done[p as int] == (
            found@[p as int].0@,
            found@[p as int].1@,
            found@[p as int].2@,
        ));
        p += 1;
    }
    assert(p < found.len() ==> done[p as int] == (
        found@[p as int].0@,
        found@[p as int].1@,
        found@[p as int].2@,
    ));
    assert(done.len() == found@.len());
    if p < found.len() && text::same(found[p].0.as_str(), name.as_str()) && text::same(
        found[p].1.as_str(),
        member.as_str(),
    ) {
        if graph::rank(kind) < graph::rank(found[p].2.as_str()) {
            found.set(p, (name, member, kind.to_string()));
            assert(graph::triples(found@) =~= done.update(p as int, x));
        }
    } else {
        found.insert(p, (name, member, kind.to_string()));
        assert(graph::triples(found@) =~= done.insert(p as int, x));
    }
}

/// Does the node say what the declaration inherits from?
fn says_heritage(
    t: &SyntaxTree,
    k: usize,
    heritage: Option<(usize, usize)>,
    Ghost(c): Ghost<Scope>,
) -> (r: bool)
    requires
        k < t@.len(),
        c.heritage == match heritage {
            Some((a, b)) => Some((a as nat, b as nat)),
            None => None,
        },
    ensures
        r == is_heritage(t@, c, k as int),
{
    let n = &t.nodes[k];
    kinds::is_heritage_kind(n.kind) || match heritage {
        Some((a, b)) => a == n.start && b == n.end,
        None => false,
    }
}

/// What one node notes, and the call that it makes.
fn look_at(
    t: &SyntaxTree,
    src: &Source,
    own: &str,
    j: usize,
    inherits: bool,
    found: &mut Vec<(String, String, String)>,
    sites: &mut Vec<(String, u32, String)>,
    Ghost(c): Ghost<Scope>,
)
    requires
        j < t@.len(),
        src.valid(),
        own@ == c.own,
        inherits == in_heritage(t@, c, j as int),
    ensures
        graph::triples(final(found)@) == with_notes(
            graph::triples(old(found)@),
            notes_at(t@, src@, c, j as int),
            c.own,
            notes_at(t@, src@, c, j as int).len(),
        ),
        site_texts(final(sites)@) == match site_at(t@, src@, c, j as int) {
            Some(x) => site_texts(old(sites)@).push(x),
            None => site_texts(old(sites)@),
        },
{
    let kind = t.nodes[j].kind;
    let ghost notes = notes_at(t@, src@, c, j as int);
    let ghost first = access_notes(t@, src@, j as int, inherits);
    let ghost second = name_notes(t@, src@, j as int, inherits);
    let ghost done = graph::triples(found@);
    proof {
        reveal_with_fuel(with_notes, 3);
        if first.len() > 0 {
            assert(notes[0] == first[0]);
        }
        if second.len() > 0 {
            assert(notes[first.len() as int] == second[0]);
        }
    }
    if kinds::is_call_kind(kind) {
        let at = if kinds::member_fields(kind).is_some() {
            Some(j)
        } else {
            callee_of(t, j)
        };
        match at {
            Some(at) => {
                let (target, member) = leftmost_name(t, src, at);
                if !inherits && !is_empty(target.as_str()) && !text::same(target.as_str(), own) {
                    let line = t.nodes[j].start_row.wrapping_add(1);
                    let args = args_text(t, src, j);
                    let ghost before = site_texts(sites@);
                    let ghost x = (target@, line as nat, args@);
                    sites.push((target.clone(), line, args));
                    assert(site_texts(sites@) =~= before.push(x));
                }
                if inherits {
                    note(found, own, target, member, INHERITS);
                } else {
                    note(found, own, target, member, CALLS);
                }
            },
            None => {},
        }
    } else if kinds::member_fields(kind).is_some() && !inherits {
        let (target, member) = leftmost_name(t, src, j);
        note(found, own, target, member, REFERENCES);
    }
    assert(graph::triples(found@) == with_notes(done, notes, c.own, first.len()));
    if kinds::is_ident_kind(kind) {
        let name = t.text(j, src);
        let none = String::new();
        assert(none@ =~= text::no_text());
        if inherits {
            note(found, own, name, none, INHERITS);
        } else if text::same(kind, "type_identifier") || text::same(kind, "scoped_type_identifier") {
            note(found, own, name, none, USES_TYPE);
        } else {
            note(found, own, name, none, REFERENCES);
        }
    }
    assert(notes.len() == first.len() + second.len());
}

/// What a declaration touches, and the calls that it makes.
pub fn edges_in(t: &SyntaxTree, src: &Source, i: usize, spec: &LangSpec, own: &str) -> (r: (
    Vec<(String, String, String)>,
    Vec<(String, u32, String)>,
))
    requires
        i < t@.len(),
        src.valid(),
    ensures
        graph::triples(r.0@) == notes_upto(
            t@,
            src@,
            scope_of(t@, i as int, own@, spec@.heritage_field),
            tree::after(t@, i as int),
        ),
        site_texts(r.1@) == sites_upto(
            t@,
            src@,
            scope_of(t@, i as int, own@, spec@.heritage_field),
            tree::after(t@, i as int),
        ),
{
    let ghost c = scope_of(t@, i as int, own@, spec@.heritage_field);
    let held = match spec.heritage_field {
        Some(name) => t.field(i, name),
        None => None,
    };
    let heritage = match held {
        Some(k) => Some((t.nodes[k].start, t.nodes[k].end)),
        None => None,
    };
    let end = t.after(i);
    let mut found: Vec<(String, String, String)> = Vec::new();
    let mut sites: Vec<(String, u32, String)> = Vec::new();
    let mut until: usize = i;
    let mut j: usize = i;
    assert(graph::triples(found@) =~= Seq::<(Seq<char>, Seq<char>, Seq<char>)>::empty());
    assert(site_texts(sites@) =~= Seq::<(Seq<char>, nat, Seq<char>)>::empty());
    while j < end
        invariant
            i <= j <= end <= t@.len(),
            src.valid(),
            c.top == i,
            c.own == own@,
            c.heritage == match heritage {
                Some((a, b)) => Some((a as nat, b as nat)),
                None => None,
            },
            forall|k: int|
                i <= k < j && #[trigger] is_heritage(t@, c, k) ==> tree::after(t@, k) <= until,
            until > i ==> exists|k: int|
                i <= k < j && #[trigger] is_heritage(t@, c, k) && tree::after(t@, k) == until,
            graph::triples(found@) == notes_upto(t@, src@, c, j as int),
            site_texts(sites@) == sites_upto(t@, src@, c, j as int),
        decreases end - j,
    {
        if says_heritage(t, j, heritage, Ghost(c)) {
            let to = t.after(j);
            if to > until {
                until = to;
            }
        }
        let inherits = j < until;
        proof {
            assert(until > i ==> exists|k: int|
                i <= k <= j && #[trigger] is_heritage(t@, c, k) && tree::after(t@, k) == until);
            if inherits {
                let k = choose|k: int|
                    i <= k <= j && #[trigger] is_heritage(t@, c, k) && tree::after(t@, k) == until;
                assert(is_heritage(t@, c, k) && j < tree::after(t@, k));
            }
            assert(in_heritage(t@, c, j as int) == inherits);
        }
        look_at(t, src, own, j, inherits, &mut found, &mut sites, Ghost(c));
        j += 1;
    }
    (found, sites)
}

} // verus!

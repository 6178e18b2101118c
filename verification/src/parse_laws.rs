//! What a file says, said of the tree that a parser makes of it: what it
//! declares, what that calls, and with what.
use vstd::prelude::*;
use crate::tree;
use crate::text;
use crate::calls;
use crate::graph;
use crate::engine;
use crate::langs;
use crate::names;
use crate::calls::Scope;
use crate::engine::Reach;
use crate::graph::ImportText;
use crate::langs::{LangText, NameStyle};
use crate::tree::NodeText;

verus! {

// ------------------------------------------------------------------- names

/// Does a node of this kind reach for a member, with the object in the one
/// field and the member in the other?
pub open spec fn reaches_for(kind: Seq<char>, object: Seq<char>, member: Seq<char>) -> bool {
    ||| kind == "attribute"@ && object == "object"@ && member == "attribute"@
    ||| kind == "member_expression"@ && object == "object"@ && member == "property"@
    ||| kind == "selector_expression"@ && object == "operand"@ && member == "field"@
    ||| kind == "field_access"@ && object == "object"@ && member == "field"@
    ||| kind == "member_access_expression"@ && object == "expression"@ && member == "name"@
    ||| kind == "scoped_identifier"@ && object == "path"@ && member == "name"@
    ||| kind == "field_expression"@ && object == "argument"@ && member == "field"@
}

/// The kinds that reach for a member, and their fields, are told apart by
/// their spelling.
proof fn lemma_member_kinds(kind: Seq<char>, object: Seq<char>, member: Seq<char>)
    requires
        reaches_for(kind, object, member),
    ensures
        crate::kinds::member_text(kind) == Some((object, member)),
        !crate::kinds::ident_kind(kind),
        object.len() > 0,
        member.len() > 0,
{
    reveal_strlit("attribute");
    reveal_strlit("member_expression");
    reveal_strlit("selector_expression");
    reveal_strlit("field_access");
    reveal_strlit("member_access_expression");
    reveal_strlit("scoped_identifier");
    reveal_strlit("field_expression");
    reveal_strlit("qualified_name");
    reveal_strlit("scoped_call_expression");
    reveal_strlit("class_constant_access_expression");
    reveal_strlit("member_call_expression");
    reveal_strlit("scope_resolution");
    reveal_strlit("qualified_identifier");
    reveal_strlit("object");
    reveal_strlit("property");
    reveal_strlit("operand");
    reveal_strlit("field");
    reveal_strlit("expression");
    reveal_strlit("name");
    reveal_strlit("path");
    reveal_strlit("argument");
    reveal_strlit("identifier");
    reveal_strlit("type_identifier");
    reveal_strlit("constant");
    reveal_strlit("field_identifier");
    reveal_strlit("package_identifier");
    reveal_strlit("namespace_identifier");
    reveal_strlit("scoped_type_identifier");
    assert("attribute"@.len() == 9 && "member_expression"@.len() == 17);
    assert("selector_expression"@.len() == 19 && "field_access"@.len() == 12);
    assert("member_access_expression"@.len() == 24 && "scoped_identifier"@.len() == 17);
    assert("field_expression"@.len() == 16 && "qualified_name"@.len() == 14);
    assert("scoped_call_expression"@.len() == 22 && "scope_resolution"@.len() == 16);
    assert("member_call_expression"@.len() == 22 && "qualified_identifier"@.len() == 20);
    assert("class_constant_access_expression"@.len() == 32);
    assert("identifier"@.len() == 10 && "type_identifier"@.len() == 15);
    assert("constant"@.len() == 8 && "name"@.len() == 4 && "field_identifier"@.len() == 16);
    assert("package_identifier"@.len() == 18 && "namespace_identifier"@.len() == 20);
    assert("scoped_type_identifier"@.len() == 22);
    assert("member_expression"@[0] == 'm' && "scoped_identifier"@[0] == 's');
    assert("field_expression"@[6] == 'e' && "field_identifier"@[6] == 'i');
}

/// A name alone leads to itself, with no member.
pub proof fn law_a_name_leads_to_itself(t: Seq<NodeText>, s: Seq<char>, i: int)
    requires
        t[i].kind == "identifier"@ || t[i].kind == "type_identifier"@ || t[i].kind == "constant"@
            || t[i].kind == "name"@,
    ensures
        calls::chain_names(t, s, i) == (tree::node_text(s, t[i]), text::no_text()),
{
    reveal_with_fuel(calls::leftmost, 2);
}

/// An access to a member of a name leads to the name it starts from, with the
/// member it ends in.
pub proof fn law_a_member_access_names_both_ends(
    t: Seq<NodeText>,
    s: Seq<char>,
    i: int,
    object: Seq<char>,
    member: Seq<char>,
    o: int,
    m: int,
)
    requires
        reaches_for(t[i].kind, object, member),
        tree::field(t, i, object) == Some(o),
        tree::field(t, i, member) == Some(m),
        t[o].kind == "identifier"@,
    ensures
        calls::chain_names(t, s, i) == (tree::node_text(s, t[o]), tree::node_text(s, t[m])),
{
    lemma_member_kinds(t[i].kind, object, member);
    reveal_with_fuel(calls::leftmost, 3);
}

/// A longer chain still starts from its first name and ends in its last
/// member: what is reached for in between does not matter.
pub proof fn law_a_chain_keeps_its_last_member(
    t: Seq<NodeText>,
    s: Seq<char>,
    i: int,
    object: Seq<char>,
    member: Seq<char>,
    o: int,
    n: nat,
    last: Seq<char>,
)
    requires
        reaches_for(t[i].kind, object, member),
        tree::field(t, i, object) == Some(o),
        last.len() > 0,
        n > 0,
    ensures
        calls::leftmost(t, s, Some(i), last, n) == calls::leftmost(
            t,
            s,
            Some(o),
            last,
            (n - 1) as nat,
        ),
{
    lemma_member_kinds(t[i].kind, object, member);
}

// ------------------------------------------------------------------- calls

/// Is the node a call, in the words of one of the languages?
pub open spec fn is_call(kind: Seq<char>) -> bool {
    ||| kind == "call"@
    ||| kind == "call_expression"@
    ||| kind == "method_invocation"@
    ||| kind == "invocation_expression"@
    ||| kind == "function_call_expression"@
    ||| kind == "macro_invocation"@
    ||| kind == "object_creation_expression"@
    ||| kind == "new_expression"@
}

/// A call is no access to a member.
proof fn lemma_call_kinds(kind: Seq<char>)
    requires
        is_call(kind),
    ensures
        crate::kinds::call_kind(kind),
        crate::kinds::member_text(kind) is None,
{
    reveal_strlit("call");
    reveal_strlit("call_expression");
    reveal_strlit("method_invocation");
    reveal_strlit("invocation_expression");
    reveal_strlit("function_call_expression");
    reveal_strlit("macro_invocation");
    reveal_strlit("object_creation_expression");
    reveal_strlit("new_expression");
    reveal_strlit("attribute");
    reveal_strlit("member_expression");
    reveal_strlit("selector_expression");
    reveal_strlit("field_access");
    reveal_strlit("member_access_expression");
    reveal_strlit("scoped_identifier");
    reveal_strlit("field_expression");
    reveal_strlit("qualified_name");
    reveal_strlit("scoped_call_expression");
    reveal_strlit("class_constant_access_expression");
    reveal_strlit("member_call_expression");
    reveal_strlit("scope_resolution");
    reveal_strlit("qualified_identifier");
    assert("call"@.len() == 4 && "call_expression"@.len() == 15);
    assert("method_invocation"@.len() == 17 && "method_invocation"@[2] == 't');
    assert("invocation_expression"@.len() == 21 && "function_call_expression"@.len() == 24);
    assert("function_call_expression"@[0] == 'f' && "member_access_expression"@[0] == 'm');
    assert("macro_invocation"@.len() == 16 && "macro_invocation"@[0] == 'm');
    assert("object_creation_expression"@.len() == 26 && "new_expression"@.len() == 14);
    assert("new_expression"@[0] == 'n' && "qualified_name"@[0] == 'q');
    assert("attribute"@.len() == 9 && "member_expression"@.len() == 17);
    assert("member_expression"@[2] == 'm' && "scoped_identifier"@[2] == 'o');
    assert("selector_expression"@.len() == 19 && "field_access"@.len() == 12);
    assert("member_access_expression"@.len() == 24 && "scoped_identifier"@.len() == 17);
    assert("field_expression"@.len() == 16 && "field_expression"@[0] == 'f');
    assert("qualified_name"@.len() == 14 && "scoped_call_expression"@.len() == 22);
    assert("scope_resolution"@.len() == 16 && "scope_resolution"@[0] == 's');
    assert("member_call_expression"@.len() == 22 && "qualified_identifier"@.len() == 20);
    assert("class_constant_access_expression"@.len() == 32);
}

/// The arguments of a call are told as they are written, without the brackets
/// around them.
pub proof fn law_arguments_are_told_as_written(
    t: Seq<NodeText>,
    s: Seq<char>,
    i: int,
    a: int,
    inner: Seq<char>,
)
    requires
        tree::field(t, i, "arguments"@) == Some(a),
        tree::node_text(s, t[a]) == seq!['('] + inner + seq![')'],
        inner.len() <= 120,
        inner.len() > 0 ==> !text::is_white(inner[0]) && !text::is_white(inner.last()),
    ensures
        calls::arguments(t, s, i) == inner,
{
    let none = text::no_text();
    let whole = seq!['('] + inner + seq![')'];
    text::law_trimming_takes_the_margins(none, whole, none);
    assert(none + whole + none =~= whole);
    assert(whole.subrange(1, whole.len() - 1) =~= inner);
    text::law_trimming_takes_the_margins(none, inner, none);
    assert(none + inner + none =~= inner);
}

/// A call within a declaration, of something else that its callee names, is
/// one of the declaration's call sites: the name, the line counted from one,
/// and the arguments.
pub proof fn law_a_call_is_a_call_site(
    t: Seq<NodeText>,
    s: Seq<char>,
    c: Scope,
    n: int,
    j: int,
    func: int,
)
    requires
        c.top <= j < n,
        is_call(t[j].kind),
        tree::field(t, j, "function"@) == Some(func),
        !calls::in_heritage(t, c, j),
        calls::chain_names(t, s, func).0.len() > 0,
        calls::chain_names(t, s, func).0 != c.own,
        t[j].start_row + 1 < 0x1_0000_0000,
    ensures
        calls::sites_upto(t, s, c, n).contains(
            (calls::chain_names(t, s, func).0, t[j].start_row + 1, calls::arguments(t, s, j)),
        ),
    decreases n - c.top,
{
    let x = (calls::chain_names(t, s, func).0, t[j].start_row + 1, calls::arguments(t, s, j));
    lemma_call_kinds(t[j].kind);
    let rest = calls::sites_upto(t, s, c, n - 1);
    let all = calls::sites_upto(t, s, c, n);
    if j == n - 1 {
        assert(all[rest.len() as int] == x);
    } else {
        law_a_call_is_a_call_site(t, s, c, n - 1, j, func);
        let k = choose|k: int| 0 <= k < rest.len() && rest[k] == x;
        assert(all[k] == x);
    }
}

/// Is there a note on the target and the member, of a kind that tells at least
/// as much as this one?
pub open spec fn has_note(
    v: Seq<(Seq<char>, Seq<char>, Seq<char>)>,
    target: Seq<char>,
    member: Seq<char>,
    kind: Seq<char>,
) -> bool {
    exists|k: int|
        0 <= k < v.len() && (#[trigger] v[k]).0 == target && v[k].1 == member && graph::kind_rank(
            v[k].2,
        ) <= graph::kind_rank(kind)
}

/// A note's seat is within the list.
proof fn lemma_note_seat(
    v: Seq<(Seq<char>, Seq<char>, Seq<char>)>,
    x: (Seq<char>, Seq<char>, Seq<char>),
    i: int,
)
    requires
        0 <= i <= v.len(),
    ensures
        i <= calls::note_seat(v, x, i) <= v.len(),
    decreases v.len() - i,
{
    if i < v.len() && calls::note_before(v[i], x) {
        lemma_note_seat(v, x, i + 1);
    }
}

/// A note that is added is there, and so are those that there were.
proof fn lemma_note_added(
    v: Seq<(Seq<char>, Seq<char>, Seq<char>)>,
    x: (Seq<char>, Seq<char>, Seq<char>),
    own: Seq<char>,
    target: Seq<char>,
    member: Seq<char>,
    kind: Seq<char>,
)
    ensures
        x.0.len() > 0 && x.0 != own ==> has_note(calls::with_note(v, x, own), x.0, x.1, x.2),
        has_note(v, target, member, kind) ==> has_note(
            calls::with_note(v, x, own),
            target,
            member,
            kind,
        ),
{
    let p = calls::note_seat(v, x, 0);
    lemma_note_seat(v, x, 0);
    let out = calls::with_note(v, x, own);
    if x.0.len() > 0 && x.0 != own {
        if p < v.len() && v[p].0 == x.0 && v[p].1 == x.1 {
            assert(out[p].0 == x.0 && out[p].1 == x.1);
            if has_note(v, target, member, kind) {
                let k = choose|k: int|
                    0 <= k < v.len() && (#[trigger] v[k]).0 == target && v[k].1 == member
                        && graph::kind_rank(v[k].2) <= graph::kind_rank(kind);
                assert(out[k].0 == target && out[k].1 == member);
            }
        } else {
            assert(out[p] == x);
            if has_note(v, target, member, kind) {
                let k = choose|k: int|
                    0 <= k < v.len() && (#[trigger] v[k]).0 == target && v[k].1 == member
                        && graph::kind_rank(v[k].2) <= graph::kind_rank(kind);
                if k < p {
                    assert(out[k] == v[k]);
                } else {
                    assert(out[k + 1] == v[k]);
                }
            }
        }
    }
}

/// Notes that are added are there, and so are those that there were.
proof fn lemma_notes_added(
    v: Seq<(Seq<char>, Seq<char>, Seq<char>)>,
    more: Seq<(Seq<char>, Seq<char>, Seq<char>)>,
    own: Seq<char>,
    n: nat,
    a: int,
    target: Seq<char>,
    member: Seq<char>,
    kind: Seq<char>,
)
    requires
        n <= more.len(),
    ensures
        0 <= a < n && more[a].0.len() > 0 && more[a].0 != own ==> has_note(
            calls::with_notes(v, more, own, n),
            more[a].0,
            more[a].1,
            more[a].2,
        ),
        has_note(v, target, member, kind) ==> has_note(
            calls::with_notes(v, more, own, n),
            target,
            member,
            kind,
        ),
    decreases n,
{
    if n > 0 {
        lemma_notes_added(v, more, own, (n - 1) as nat, a, target, member, kind);
        let rest = calls::with_notes(v, more, own, (n - 1) as nat);
        lemma_note_added(rest, more[n - 1], own, target, member, kind);
        if 0 <= a < n {
            lemma_note_added(rest, more[n - 1], own, more[a].0, more[a].1, more[a].2);
        }
    }
}

/// What a node of a declaration notes is noted.
proof fn lemma_node_is_noted(t: Seq<NodeText>, s: Seq<char>, c: Scope, n: int, j: int, a: int)
    requires
        c.top <= j < n,
        0 <= a < calls::notes_at(t, s, c, j).len(),
        calls::notes_at(t, s, c, j)[a].0.len() > 0,
        calls::notes_at(t, s, c, j)[a].0 != c.own,
    ensures
        has_note(
            calls::notes_upto(t, s, c, n),
            calls::notes_at(t, s, c, j)[a].0,
            calls::notes_at(t, s, c, j)[a].1,
            calls::notes_at(t, s, c, j)[a].2,
        ),
    decreases n - c.top,
{
    let x = calls::notes_at(t, s, c, j)[a];
    let rest = calls::notes_upto(t, s, c, n - 1);
    let more = calls::notes_at(t, s, c, n - 1);
    if j < n - 1 {
        lemma_node_is_noted(t, s, c, n - 1, j, a);
    }
    lemma_notes_added(rest, more, c.own, more.len(), a, x.0, x.1, x.2);
}

/// A call within a declaration, of something else that its callee names, is
/// noted: from the name it starts from, with the member it ends in, as a call
/// or something that tells more.
pub proof fn law_a_call_is_noted(
    t: Seq<NodeText>,
    s: Seq<char>,
    c: Scope,
    n: int,
    j: int,
    func: int,
)
    requires
        c.top <= j < n,
        is_call(t[j].kind),
        tree::field(t, j, "function"@) == Some(func),
        !calls::in_heritage(t, c, j),
        calls::chain_names(t, s, func).0.len() > 0,
        calls::chain_names(t, s, func).0 != c.own,
    ensures
        has_note(
            calls::notes_upto(t, s, c, n),
            calls::chain_names(t, s, func).0,
            calls::chain_names(t, s, func).1,
            "calls"@,
        ),
{
    lemma_call_kinds(t[j].kind);
    let (target, member) = calls::chain_names(t, s, func);
    assert(calls::notes_at(t, s, c, j)[0] == (target, member, "calls"@));
    lemma_node_is_noted(t, s, c, n, j, 0);
}

/// A name within what a declaration inherits from is noted as inherited from.
pub proof fn law_a_base_is_noted(t: Seq<NodeText>, s: Seq<char>, c: Scope, n: int, j: int)
    requires
        c.top <= j < n,
        t[j].kind == "identifier"@ || t[j].kind == "type_identifier"@,
        calls::in_heritage(t, c, j),
        tree::node_text(s, t[j]).len() > 0,
        tree::node_text(s, t[j]) != c.own,
    ensures
        has_note(
            calls::notes_upto(t, s, c, n),
            tree::node_text(s, t[j]),
            text::no_text(),
            "inherits"@,
        ),
{
    let at = calls::access_notes(t, s, j, true).len();
    let x = (tree::node_text(s, t[j]), text::no_text(), "inherits"@);
    assert(calls::notes_at(t, s, c, j)[at as int] == x);
    lemma_node_is_noted(t, s, c, n, j, at as int);
}

/// A type named within a declaration is noted as used.
pub proof fn law_a_type_is_noted(t: Seq<NodeText>, s: Seq<char>, c: Scope, n: int, j: int)
    requires
        c.top <= j < n,
        t[j].kind == "type_identifier"@,
        !calls::in_heritage(t, c, j),
        tree::node_text(s, t[j]).len() > 0,
        tree::node_text(s, t[j]) != c.own,
    ensures
        has_note(
            calls::notes_upto(t, s, c, n),
            tree::node_text(s, t[j]),
            text::no_text(),
            "uses_type"@,
        ),
{
    let at = calls::access_notes(t, s, j, false).len();
    let x = (tree::node_text(s, t[j]), text::no_text(), "uses_type"@);
    assert(calls::notes_at(t, s, c, j)[at as int] == x);
    lemma_node_is_noted(t, s, c, n, j, at as int);
}

// ------------------------------------------------------------------- edges

/// A note whose target the file declares or brings in is an edge, and no
/// other is.
pub proof fn law_edges_lead_to_what_is_known(
    notes: Seq<(Seq<char>, Seq<char>, Seq<char>)>,
    r: Reach,
    n: nat,
    x: (Seq<char>, Seq<char>, Seq<char>),
)
    requires
        n <= notes.len(),
    ensures
        engine::edges_upto(notes, r, n).contains(x) <==> notes.take(n as int).contains(x) && (
        text::listed(r.declared, x.0) || text::listed(r.imported, x.0)),
    decreases n,
{
    let all = engine::edges_upto(notes, r, n);
    if n == 0 {
        assert(!all.contains(x));
    } else {
        law_edges_lead_to_what_is_known(notes, r, (n - 1) as nat, x);
        let rest = engine::edges_upto(notes, r, (n - 1) as nat);
        let less = notes.take(n - 1);
        let part = notes.take(n as int);
        if all.contains(x) {
            let k = choose|k: int| 0 <= k < all.len() && all[k] == x;
            if k < rest.len() {
                assert(rest[k] == x);
                let m = choose|m: int| 0 <= m < less.len() && less[m] == x;
                assert(part[m] == x);
            } else {
                assert(part[n - 1] == x);
            }
        }
        if part.contains(x) && (text::listed(r.declared, x.0) || text::listed(r.imported, x.0)) {
            let m = choose|m: int| 0 <= m < part.len() && part[m] == x;
            if m < n - 1 {
                assert(less[m] == x);
                let k = choose|k: int| 0 <= k < rest.len() && rest[k] == x;
                assert(all[k] == x);
            } else {
                assert(all[rest.len() as int] == x);
            }
        }
    }
}

/// Every name that an import binds, but for a star, can be led to.
pub proof fn law_imported_names_can_be_led_to(
    imports: Seq<ImportText>,
    n: nat,
    i: int,
    j: int,
)
    requires
        0 <= i < n <= imports.len(),
        0 <= j < imports[i].names.len(),
        imports[i].names[j].0 != "*"@,
    ensures
        text::listed(engine::imported_upto(imports, n), imports[i].names[j].0),
    decreases n,
{
    let local = imports[i].names[j].0;
    let rest = engine::imported_upto(imports, (n - 1) as nat);
    let names = imports[n - 1].names;
    let last = engine::locals_upto(names, names.len());
    if i == n - 1 {
        lemma_local_listed(names, names.len(), j);
        let k = choose|k: int| 0 <= k < last.len() && #[trigger] last[k] == local;
        assert((rest + last)[rest.len() + k] == local);
    } else {
        law_imported_names_can_be_led_to(imports, (n - 1) as nat, i, j);
        let k = choose|k: int| 0 <= k < rest.len() && #[trigger] rest[k] == local;
        assert((rest + last)[k] == local);
    }
}

/// A local name is among the local names.
proof fn lemma_local_listed(names: Seq<(Seq<char>, Seq<char>)>, n: nat, j: int)
    requires
        0 <= j < n <= names.len(),
        names[j].0 != "*"@,
    ensures
        text::listed(engine::locals_upto(names, n), names[j].0),
    decreases n,
{
    let rest = engine::locals_upto(names, (n - 1) as nat);
    let all = engine::locals_upto(names, n);
    if j == n - 1 {
        assert(all[rest.len() as int] == names[j].0);
    } else {
        lemma_local_listed(names, (n - 1) as nat, j);
        let k = choose|k: int| 0 <= k < rest.len() && #[trigger] rest[k] == names[j].0;
        assert(all[k] == names[j].0);
    }
}

/// A call site stays among those known, and one that leads to something known
/// is among them.
pub proof fn law_known_call_sites_are_kept(
    sites: Seq<(Seq<char>, nat, Seq<char>)>,
    r: Reach,
    n: nat,
    k: int,
)
    requires
        0 <= k < n <= sites.len(),
        text::listed(r.declared, sites[k].0) || text::listed(r.imported, sites[k].0),
    ensures
        engine::known_sites(sites, r, n).contains(sites[k]),
    decreases n,
{
    let rest = engine::known_sites(sites, r, (n - 1) as nat);
    let x = sites[n - 1];
    if k < n - 1 {
        law_known_call_sites_are_kept(sites, r, (n - 1) as nat, k);
    }
    if engine::reaches(r, x.0) {
        lemma_site_added(rest, x, sites[k]);
    }
}

/// A call site that is added is there, and so are those that there were.
proof fn lemma_site_added(
    v: Seq<(Seq<char>, nat, Seq<char>)>,
    x: (Seq<char>, nat, Seq<char>),
    y: (Seq<char>, nat, Seq<char>),
)
    ensures
        engine::with_site(v, x).contains(x),
        v.contains(y) ==> engine::with_site(v, x).contains(y),
{
    let p = engine::site_seat(v, x, 0);
    lemma_site_seat(v, x, 0);
    let out = engine::with_site(v, x);
    if p < v.len() && v[p] == x {
        assert(out[p] == x);
    } else {
        assert(out[p] == x);
        if v.contains(y) {
            let k = choose|k: int| 0 <= k < v.len() && v[k] == y;
            if k < p {
                assert(out[k] == y);
            } else {
                assert(out[k + 1] == y);
            }
        }
    }
}

/// A call site's seat is within the list.
proof fn lemma_site_seat(
    v: Seq<(Seq<char>, nat, Seq<char>)>,
    x: (Seq<char>, nat, Seq<char>),
    i: int,
)
    requires
        0 <= i <= v.len(),
    ensures
        i <= engine::site_seat(v, x, i) <= v.len(),
    decreases v.len() - i,
{
    if i < v.len() && engine::site_before(v[i], x) {
        lemma_site_seat(v, x, i + 1);
    }
}

/// A declaration that calls something the file declares or brings in has both
/// the call site, with its line and its arguments, and the edge.
pub proof fn law_a_call_of_something_known_is_told(
    t: Seq<NodeText>,
    s: Seq<char>,
    l: LangText,
    r: Reach,
    d: (Seq<char>, int, Seq<char>),
    j: int,
    func: int,
)
    requires
        d.1 <= j < tree::after(t, d.1),
        is_call(t[j].kind),
        tree::field(t, j, "function"@) == Some(func),
        ({
            let c = calls::scope_of(t, d.1, engine::bare_name(d.0), l.heritage_field);
            let target = calls::chain_names(t, s, func).0;
            &&& !calls::in_heritage(t, c, j)
            &&& target.len() > 0
            &&& target != engine::bare_name(d.0)
            &&& text::listed(r.declared, target) || text::listed(r.imported, target)
        }),
        t[j].start_row + 1 < 0x1_0000_0000,
    ensures
        engine::symbol(t, s, l, r, d).name == d.0,
        engine::symbol(t, s, l, r, d).kind == d.2,
        engine::symbol(t, s, l, r, d).sites.contains(
            (calls::chain_names(t, s, func).0, t[j].start_row + 1, calls::arguments(t, s, j)),
        ),
        has_note(
            engine::symbol(t, s, l, r, d).edges,
            calls::chain_names(t, s, func).0,
            calls::chain_names(t, s, func).1,
            "calls"@,
        ),
{
    let i = d.1;
    let c = calls::scope_of(t, i, engine::bare_name(d.0), l.heritage_field);
    let end = tree::after(t, i);
    let (target, member) = calls::chain_names(t, s, func);
    law_a_call_is_a_call_site(t, s, c, end, j, func);
    law_a_call_is_noted(t, s, c, end, j, func);
    let raw = calls::sites_upto(t, s, c, end);
    let x = (target, t[j].start_row + 1, calls::arguments(t, s, j));
    let k = choose|k: int| 0 <= k < raw.len() && raw[k] == x;
    law_known_call_sites_are_kept(raw, r, raw.len(), k);
    let notes = calls::notes_upto(t, s, c, end);
    let m = choose|m: int|
        0 <= m < notes.len() && (#[trigger] notes[m]).0 == target && notes[m].1 == member
            && graph::kind_rank(notes[m].2) <= graph::kind_rank("calls"@);
    law_edges_lead_to_what_is_known(notes, r, notes.len(), notes[m]);
    assert(notes.take(notes.len() as int) =~= notes);
    assert(notes.contains(notes[m]));
    let edges = engine::edges_upto(notes, r, notes.len());
    let e = choose|e: int| 0 <= e < edges.len() && edges[e] == notes[m];
    assert(edges[e].0 == target);
}

// ------------------------------------------------------------ declarations

/// A declaration at the top of a file, of a kind that the language declares,
/// under a name, is among the file's declarations.
proof fn lemma_declared(
    t: Seq<NodeText>,
    s: Seq<char>,
    l: LangText,
    list: Seq<int>,
    n: nat,
    k: int,
    name: Seq<char>,
    kind: Seq<char>,
)
    requires
        0 <= k < n <= list.len(),
        engine::declaration(t, s, l, list[k]) == Some((name, kind)),
    ensures
        engine::declarations(t, s, l, list, n).contains((name, list[k], kind)),
    decreases n,
{
    let rest = engine::declarations(t, s, l, list, (n - 1) as nat);
    let all = engine::declarations(t, s, l, list, n);
    let x = (name, list[k], kind);
    if k == n - 1 {
        assert(all[rest.len() as int] == x);
    } else {
        lemma_declared(t, s, l, list, (n - 1) as nat, k, name, kind);
        let m = choose|m: int| 0 <= m < rest.len() && rest[m] == x;
        assert(all[m] == x);
    }
}

/// A node at the top of a file that contains no others stands for itself.
proof fn lemma_top(t: Seq<NodeText>, l: LangText, i: int, n: nat, k: int)
    requires
        0 <= i < t.len(),
        0 <= k < n <= tree::named_kids(t, i).len(),
        !text::listed(l.containers, t[tree::named_kids(t, i)[k]].kind),
    ensures
        engine::tops_among(t, l, i, n).contains(tree::named_kids(t, i)[k]),
    decreases n,
{
    tree::lemma_kids(t, i);
    let list = tree::named_kids(t, i);
    let rest = engine::tops_among(t, l, i, (n - 1) as nat);
    let last = engine::tops_at(t, l, list[n - 1]);
    if k == n - 1 {
        assert(last[0] == list[k]);
        assert((rest + last)[rest.len() as int] == list[k]);
    } else {
        lemma_top(t, l, i, (n - 1) as nat, k);
        let m = choose|m: int| 0 <= m < rest.len() && rest[m] == list[k];
        assert((rest + last)[m] == list[k]);
    }
}

/// One more symbol is there under its name, and so are those that there were.
proof fn lemma_symbol_named(
    v: Seq<engine::SymbolFacts>,
    x: engine::SymbolFacts,
    k: nat,
    name: Seq<char>,
)
    requires
        k <= v.len(),
    ensures
        is_symbol(engine::with_symbol(v, x, k), x.name),
        is_symbol(v, name) ==> is_symbol(engine::with_symbol(v, x, k), name),
    decreases v.len() - k,
{
    let out = engine::with_symbol(v, x, k);
    if k >= v.len() {
        assert(out[v.len() as int] == x);
        if is_symbol(v, name) {
            let m = choose|m: int| 0 <= m < v.len() && (#[trigger] v[m]).name == name;
            assert(out[m] == v[m]);
        }
    } else if v[k as int].name == x.name {
        assert(out[k as int] == x);
        if is_symbol(v, name) {
            let m = choose|m: int| 0 <= m < v.len() && (#[trigger] v[m]).name == name;
            assert(out[m].name == name);
        }
    } else {
        lemma_symbol_named(v, x, k + 1, name);
    }
}

/// Is there a symbol of the name?
pub open spec fn is_symbol(v: Seq<engine::SymbolFacts>, name: Seq<char>) -> bool {
    exists|k: int| 0 <= k < v.len() && (#[trigger] v[k]).name == name
}

/// Every declaration has its symbol.
proof fn lemma_declaration_has_symbol(
    t: Seq<NodeText>,
    s: Seq<char>,
    l: LangText,
    r: Reach,
    decls: Seq<(Seq<char>, int, Seq<char>)>,
    n: nat,
    k: int,
)
    requires
        0 <= k < n <= decls.len(),
    ensures
        is_symbol(engine::symbols_upto(t, s, l, r, decls, n), decls[k].0),
    decreases n,
{
    let rest = engine::symbols_upto(t, s, l, r, decls, (n - 1) as nat);
    let x = engine::symbol(t, s, l, r, decls[n - 1]);
    if k < n - 1 {
        lemma_declaration_has_symbol(t, s, l, r, decls, (n - 1) as nat, k);
    }
    lemma_symbol_named(rest, x, 0, decls[k].0);
}

/// What a file declares at its top is one of its symbols, under its name, as
/// long as the tree is whole.
pub proof fn law_every_declaration_is_a_symbol(
    t: Seq<NodeText>,
    s: Seq<char>,
    l: LangText,
    k: int,
    name: Seq<char>,
    kind: Seq<char>,
)
    requires
        t.len() > 0,
        !t[0].error,
        !t[0].missing,
        0 <= k < tree::named_kids(t, 0).len(),
        !text::listed(l.containers, t[tree::named_kids(t, 0)[k]].kind),
        !text::listed(l.import_types, t[tree::named_kids(t, 0)[k]].kind),
        names::declared_kind(t, tree::named_kids(t, 0)[k], l) == Some(kind),
        names::declaration_name(t, s, tree::named_kids(t, 0)[k], l.names) == Some(name),
        name.len() > 0,
    ensures
        engine::outline(t, s, l).status == "clean"@,
        engine::outline(t, s, l).language == l.name,
        is_symbol(engine::outline(t, s, l).symbols, name),
{
    let i = tree::named_kids(t, 0)[k];
    let tops = engine::tops(t, l);
    lemma_top(t, l, 0, tree::named_kids(t, 0).len(), k);
    let m = choose|m: int| 0 <= m < tops.len() && tops[m] == i;
    lemma_declared(t, s, l, tops, tops.len(), m, name, kind);
    let decls = engine::file_declarations(t, s, l);
    let d = choose|d: int| 0 <= d < decls.len() && decls[d] == (name, i, kind);
    lemma_declaration_has_symbol(
        t,
        s,
        l,
        engine::file_reach(t, s, l),
        decls,
        decls.len(),
        d,
    );
}

/// A file whose tree has an error says nothing beyond its language, and that
/// it was read in part.
pub proof fn law_a_damaged_file_says_nothing(t: Seq<NodeText>, s: Seq<char>, l: LangText)
    requires
        t[0].error,
    ensures
        engine::outline(t, s, l).status == "partial"@,
        engine::outline(t, s, l).language == l.name,
        engine::outline(t, s, l).symbols.len() == 0,
        engine::outline(t, s, l).imports.len() == 0,
{
}

/// A function or class of a Python file is called by its name, and is of the
/// kind function or class, with decorators or without.
pub proof fn law_python_declarations_are_named(
    t: Seq<NodeText>,
    s: Seq<char>,
    i: int,
    inner: int,
    name: int,
)
    requires
        inner == i && t[i].kind != "decorated_definition"@ || t[i].kind == "decorated_definition"@
            && tree::field(t, i, "definition"@) == Some(inner),
        t[inner].kind == "function_definition"@ || t[inner].kind == "class_definition"@,
        tree::field(t, inner, "name"@) == Some(name),
    ensures
        names::declaration_name(t, s, i, NameStyle::Python) == Some(tree::node_text(s, t[name])),
        names::declared_kind(t, i, langs::python_text()) == Some(
            if t[inner].kind == "function_definition"@ {
                "function"@
            } else {
                "class"@
            },
        ),
{
    reveal_strlit("function_definition");
    reveal_strlit("class_definition");
    reveal_strlit("decorated_definition");
    assert("function_definition"@.len() == 19 && "class_definition"@.len() == 16
        && "decorated_definition"@.len() == 20);
    reveal_with_fuel(langs::paired_from, 4);
}

/// A Rust implementation is called by what it implements, and for what.
pub proof fn law_rust_implementations_are_named(
    t: Seq<NodeText>,
    s: Seq<char>,
    i: int,
    typ: int,
)
    requires
        t[i].kind == "impl_item"@,
        tree::field(t, i, "type"@) == Some(typ),
    ensures
        names::rust_name(t, s, i) == Some(
            match tree::field(t, i, "trait"@) {
                Some(tr) => "impl "@ + tree::node_text(s, t[tr]) + " for "@ + tree::node_text(
                    s,
                    t[typ],
                ),
                None => "impl "@ + tree::node_text(s, t[typ]),
            },
        ),
{
}

/// A variable declaration of a script is called by the first variable that it
/// declares, exported or not.
pub proof fn law_script_variables_are_named(
    t: Seq<NodeText>,
    s: Seq<char>,
    i: int,
    inner: int,
    name: int,
)
    requires
        inner == i && t[i].kind != "export_statement"@ || t[i].kind == "export_statement"@
            && tree::field(t, i, "declaration"@) == Some(inner),
        t[inner].kind == "lexical_declaration"@ || t[inner].kind == "variable_declaration"@,
        tree::named_kids(t, inner).len() > 0,
        t[tree::named_kids(t, inner)[0]].kind == "variable_declarator"@,
        tree::field(t, tree::named_kids(t, inner)[0], "name"@) == Some(name),
    ensures
        names::declaration_name(t, s, i, NameStyle::TsLike) == Some(tree::node_text(s, t[name])),
{
}

/// The name of a parameter is the name itself, or what its name field, or else
/// its pattern, reads.
pub proof fn law_parameters_are_told_by_name(
    t: Seq<NodeText>,
    s: Seq<char>,
    list: Seq<int>,
    n: nat,
    k: int,
)
    requires
        0 <= k < n <= list.len(),
        t[list[k]].kind == "identifier"@,
    ensures
        text::listed(engine::params_upto(t, s, list, n), tree::node_text(s, t[list[k]])),
    decreases n,
{
    let name = tree::node_text(s, t[list[k]]);
    let rest = engine::params_upto(t, s, list, (n - 1) as nat);
    let all = engine::params_upto(t, s, list, n);
    reveal_strlit("identifier");
    if k == n - 1 {
        assert("identifier"@.skip(0) =~= "identifier"@);
        assert(text::has_suffix(t[list[k]].kind, "identifier"@));
        assert(all[rest.len() as int] == name);
    } else {
        law_parameters_are_told_by_name(t, s, list, (n - 1) as nat, k);
        let m = choose|m: int| 0 <= m < rest.len() && #[trigger] rest[m] == name;
        assert(all[m] == name);
    }
}

/// The extension of a path is what follows the last dot of its file's name,
/// with the dot, in lower case.
pub proof fn law_an_extension_follows_the_last_dot(
    above: Seq<char>,
    base: Seq<char>,
    ext: Seq<char>,
)
    requires
        above.len() == 0 || above.last() == '/',
        base.len() > 0,
        !base.contains('/'),
        !ext.contains('/'),
        !ext.contains('.'),
    ensures
        engine::extension(above + base + seq!['.'] + ext) == text::lowercase(seq!['.'] + ext),
{
    let path = above + base + seq!['.'] + ext;
    let file = base + seq!['.'] + ext;
    let n = above.len() as int;
    text::lemma_last_below(path, '/', path.len() as int);
    assert forall|k: int| n <= k < path.len() implies path[k] != '/' by {
        if k < n + base.len() {
            assert(path[k] == base[k - n]);
        } else if k > n + base.len() {
            assert(path[k] == ext[k - n - base.len() - 1]);
        }
    }
    if n > 0 {
        assert(path[n - 1] == above.last());
        assert(text::last_of(path, '/') == Some(n - 1));
        assert(path.skip(n) =~= file);
    } else {
        assert(text::last_of(path, '/') is None);
        assert(path =~= file);
    }
    text::lemma_last_below(file, '.', file.len() as int);
    let at = base.len() as int;
    assert(file[at] == '.');
    assert forall|k: int| at < k < file.len() implies file[k] != '.' by {
        assert(file[k] == ext[k - at - 1]);
    }
    assert(text::last_of(file, '.') == Some(at));
    assert(file.skip(at) =~= seq!['.'] + ext);
}

// ---------------------------------------------------------------- heritage

/// What a call calls stands in its function field; where it has none, in the
/// one for its name, its constructor, its type or its macro, the first of them
/// that it has.
pub proof fn law_what_a_call_calls(t: Seq<NodeText>, i: int, k: int)
    ensures
        tree::field(t, i, "function"@) == Some(k) ==> calls::callee(t, i) == Some(k),
        tree::field(t, i, "function"@) is None && tree::field(t, i, "name"@) == Some(k)
            ==> calls::callee(t, i) == Some(k),
        tree::field(t, i, "function"@) is None && tree::field(t, i, "name"@) is None
            && tree::field(t, i, "constructor"@) == Some(k) ==> calls::callee(t, i) == Some(k),
        tree::field(t, i, "function"@) is None && tree::field(t, i, "name"@) is None
            && tree::field(t, i, "constructor"@) is None && tree::field(t, i, "type"@) == Some(k)
            ==> calls::callee(t, i) == Some(k),
        tree::field(t, i, "function"@) is None && tree::field(t, i, "name"@) is None
            && tree::field(t, i, "constructor"@) is None && tree::field(t, i, "type"@) is None
            && tree::field(t, i, "macro"@) == Some(k) ==> calls::callee(t, i) == Some(k),
{
}

/// What stands in the field that a language keeps a declaration's bases in,
/// stands in its heritage.
pub proof fn law_bases_stand_in_the_heritage(
    t: Seq<NodeText>,
    i: int,
    own: Seq<char>,
    field: Seq<char>,
    k: int,
    j: int,
)
    requires
        tree::field(t, i, field) == Some(k),
        k <= j < tree::after(t, k),
    ensures
        calls::in_heritage(t, calls::scope_of(t, i, own, Some(field)), j),
{
    let c = calls::scope_of(t, i, own, Some(field));
    assert(calls::is_heritage(t, c, k));
}

/// What stands in a clause that names bases, in the words of one of the
/// languages, stands in the heritage of the declaration around it.
pub proof fn law_clauses_of_bases_are_heritage(t: Seq<NodeText>, c: Scope, k: int, j: int)
    requires
        c.top <= k <= j < tree::after(t, k),
        t[k].kind == "class_heritage"@ || t[k].kind == "extends_clause"@ || t[k].kind
            == "implements_clause"@ || t[k].kind == "superclass"@ || t[k].kind
            == "super_interfaces"@ || t[k].kind == "base_list"@ || t[k].kind == "base_clause"@
            || t[k].kind == "class_interface_clause"@ || t[k].kind == "extends_type_clause"@
            || t[k].kind == "base_class_clause"@ || t[k].kind == "trait_bounds"@,
    ensures
        calls::in_heritage(t, c, j),
{
    assert(calls::is_heritage(t, c, k));
}

/// Nothing else does: a declaration without such a field or clause around a
/// node has it in no heritage.
pub proof fn law_nothing_else_is_heritage(t: Seq<NodeText>, i: int, own: Seq<char>, j: int)
    requires
        forall|k: int|
            i <= k <= j ==> !crate::kinds::heritage_kind((#[trigger] t[k]).kind),
    ensures
        !calls::in_heritage(t, calls::scope_of(t, i, own, None), j),
{
    let c = calls::scope_of(t, i, own, None);
    if calls::in_heritage(t, c, j) {
        let k = choose|k: int|
            c.top <= k <= j && #[trigger] calls::is_heritage(t, c, k) && j < tree::after(t, k);
        assert(!crate::kinds::heritage_kind(t[k].kind));
    }
}

/// A Go method is called by the type it is declared on and its own name, with
/// a dot between them.
pub proof fn law_go_methods_are_named_with_their_type(
    t: Seq<NodeText>,
    s: Seq<char>,
    i: int,
    name: int,
    list: int,
    typ: int,
)
    requires
        t[i].kind == "method_declaration"@,
        tree::field(t, i, "name"@) == Some(name),
        tree::field(t, i, "receiver"@) == Some(list),
        tree::named_kids(t, list).len() > 0,
        tree::field(t, tree::named_kids(t, list)[0], "type"@) == Some(typ),
        0 <= typ < t.len(),
        t[typ].kind == "type_identifier"@,
        tree::node_text(s, t[typ]).len() > 0,
    ensures
        names::go_name(t, s, i) == Some(
            tree::node_text(s, t[typ]) + "."@ + tree::node_text(s, t[name]),
        ),
{
    assert(names::last_type(t, typ) == Some(typ));
    assert(names::receiver_from(t, s, tree::named_kids(t, list), 0) == tree::node_text(s, t[typ]));
}

/// The children of a node are the nodes below it that are one level deeper: no
/// node between them is as high as it, and they come in order.
pub proof fn law_children_are_one_level_deeper(t: Seq<NodeText>, i: int, j: int)
    requires
        0 <= i < j < t.len(),
        t[j].depth == t[i].depth + 1,
        forall|k: int| i < k < j ==> (#[trigger] t[k]).depth > t[i].depth,
    ensures
        tree::kids(t, i).contains(j),
        t[j].named ==> tree::named_kids(t, i).contains(j),
        !t[j].named ==> !tree::named_kids(t, i).contains(j),
{
    tree::lemma_kids(t, i);
    lemma_reaches_to(t, t[i].depth, i + 1, j);
    lemma_kid_listed(t, i, false, tree::after(t, i), j);
    lemma_kid_listed(t, i, true, tree::after(t, i), j);
}

/// What lies below a node reaches to every node that is deeper without a
/// break.
proof fn lemma_reaches_to(t: Seq<NodeText>, d: int, from: int, j: int)
    requires
        0 <= from <= j < t.len(),
        forall|k: int| from <= k <= j ==> (#[trigger] t[k]).depth > d,
    ensures
        j < tree::end_from(t, d, from),
    decreases j - from,
{
    assert(t[from].depth > d);
    if from < j {
        lemma_reaches_to(t, d, from + 1, j);
    } else {
        tree::lemma_after(t, d, from + 1);
    }
}

/// A child is among the children.
proof fn lemma_kid_listed(t: Seq<NodeText>, i: int, named: bool, n: int, j: int)
    requires
        0 <= i < j < n <= t.len(),
        t[j].depth == t[i].depth + 1,
    ensures
        tree::kids_upto(t, i, named, n).contains(j) == (named ==> t[j].named),
    decreases n,
{
    let rest = tree::kids_upto(t, i, named, n - 1);
    let all = tree::kids_upto(t, i, named, n);
    if j == n - 1 {
        if named ==> t[j].named {
            assert(all[rest.len() as int] == j);
        } else {
            lemma_kids_below(t, i, named, n - 1);
            if all.contains(j) {
                let k = choose|k: int| 0 <= k < all.len() && all[k] == j;
                assert(rest[k] == j);
            }
        }
    } else {
        lemma_kid_listed(t, i, named, n - 1, j);
        if rest.contains(j) {
            let k = choose|k: int| 0 <= k < rest.len() && rest[k] == j;
            assert(all[k] == j);
        }
        if all.contains(j) {
            let k = choose|k: int| 0 <= k < all.len() && all[k] == j;
            if k < rest.len() {
                assert(rest[k] == j);
            }
        }
    }
}

/// The children before a place stand before it.
proof fn lemma_kids_below(t: Seq<NodeText>, i: int, named: bool, n: int)
    ensures
        forall|k: int|
            0 <= k < tree::kids_upto(t, i, named, n).len() ==> #[trigger] tree::kids_upto(
                t,
                i,
                named,
                n,
            )[k] < n,
    decreases n,
{
    if n > 0 && n > i + 1 {
        lemma_kids_below(t, i, named, n - 1);
        let rest = tree::kids_upto(t, i, named, n - 1);
        let all = tree::kids_upto(t, i, named, n);
        assert forall|k: int| 0 <= k < all.len() implies #[trigger] all[k] < n by {
            if k < rest.len() {
                assert(rest[k] < n - 1);
                assert(all[k] == rest[k]);
            }
        }
    }
}

} // verus!

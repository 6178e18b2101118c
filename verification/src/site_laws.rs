//! What becomes of changes that are made together, and of calls that were left
//! alone.
use vstd::prelude::*;
use crate::json;
use crate::text;
use crate::table;
use crate::edit;
use crate::order;
use crate::sites;
use crate::changes;
use crate::changes::{Change, ChangeText};
use crate::edit::AppliedText;
use crate::json::Doc;
use crate::ops::OpText;
use crate::sites::{LayerText, SiteText};

verus! {

/// Do the two ranges lie apart, each with something in it?
pub open spec fn lie_apart(a: ChangeText, b: ChangeText) -> bool {
    a.start < a.end && b.start < b.end && (a.end <= b.start || b.end <= a.start)
}

/// Changes to ranges that lie apart are all made.
pub proof fn law_changes_apart_are_all_made(v: Seq<ChangeText>, i: int)
    requires
        0 <= i < v.len(),
        forall|j: int| 0 <= j < v.len() && j != i ==> lie_apart(v[i], #[trigger] v[j]),
        v[i].start < v[i].end,
    ensures
        changes::ranked(v).contains(v[i]),
{
    lemma_kept(v, v.len(), i);
    order::lemma_sorted_contains::<Change>(changes::kept_upto(v, v.len()), v[i]);
}

/// A change that nothing swallows is kept.
proof fn lemma_kept(v: Seq<ChangeText>, n: nat, i: int)
    requires
        0 <= i < n <= v.len(),
        forall|j: int| 0 <= j < v.len() && j != i ==> lie_apart(v[i], #[trigger] v[j]),
        v[i].start < v[i].end,
    ensures
        changes::kept_upto(v, n).contains(v[i]),
    decreases n,
{
    let rest = changes::kept_upto(v, (n - 1) as nat);
    let all = changes::kept_upto(v, n);
    if i == n - 1 {
        assert(!changes::swallowed(v, i)) by {
            if changes::swallowed(v, i) {
                let j = choose|j: int|
                    0 <= j < v.len() && (changes::lies_inside(v[i], #[trigger] v[j]) || j < i
                        && v[i].start < v[i].end && v[j].start == v[i].start && v[j].end
                        == v[i].end);
                if j != i {
                    assert(lie_apart(v[i], v[j]));
                }
            }
        }
        assert(all[rest.len() as int] == v[i]);
    } else {
        lemma_kept(v, (n - 1) as nat, i);
        let k = choose|k: int| 0 <= k < rest.len() && rest[k] == v[i];
        assert(all[k] == v[i]);
    }
}

/// A change inside a range that another replaces is not made on its own: what
/// the other puts there stands.
pub proof fn law_a_change_inside_another_is_not_made(v: Seq<ChangeText>, i: int, j: int, m: int)
    requires
        0 <= i < v.len(),
        0 <= j < v.len(),
        v[j].start < v[i].start,
        v[i].end < v[j].end,
        v[i].start <= v[i].end,
        0 <= m < changes::kept_upto(v, v.len()).len(),
    ensures
        changes::kept_upto(v, v.len())[m] == v[i] ==> exists|k: int|
            0 <= k < v.len() && v[k] == v[i] && !changes::swallowed(v, k),
        changes::swallowed(v, i),
{
    assert(changes::lies_inside(v[i], v[j]));
    lemma_kept_is_free(v, v.len(), m);
}

/// What is kept is swallowed by nothing.
proof fn lemma_kept_is_free(v: Seq<ChangeText>, n: nat, m: int)
    requires
        n <= v.len(),
        0 <= m < changes::kept_upto(v, n).len(),
    ensures
        exists|k: int|
            0 <= k < v.len() && v[k] == changes::kept_upto(v, n)[m] && !changes::swallowed(v, k),
    decreases n,
{
    if n > 0 {
        let rest = changes::kept_upto(v, (n - 1) as nat);
        if m < rest.len() {
            lemma_kept_is_free(v, (n - 1) as nat, m);
        } else {
            assert(v[n - 1] == changes::kept_upto(v, n)[m] && !changes::swallowed(v, n - 1));
        }
    }
}

/// A call that was left alone stays listed, on its line, while other files are
/// edited.
pub proof fn law_calls_in_other_files_stay_listed(v: Seq<LayerText>, x: SiteText, n: nat)
    requires
        n <= v.len(),
        forall|i: int| 0 <= i < n ==> (#[trigger] v[i]).path != x.path,
    ensures
        sites::after_layers(v, x, n) == Some(x),
    decreases n,
{
    if n > 0 {
        law_calls_in_other_files_stay_listed(v, x, (n - 1) as nat);
        assert(v[n - 1].path != x.path);
    }
}

/// A call that was left alone is no longer listed once an edit changes it.
pub proof fn law_a_changed_call_is_no_longer_listed(l: LayerText, x: SiteText)
    requires
        l.path == x.path,
        l.touched.contains(x.place),
    ensures
        sites::after_layer(l, x) is None,
{
}

/// A call that was left alone stays listed on its line through an edit of its
/// file that stands before it or behind it and does not change it: behind it
/// the place stays, before it the place moves by what the edit adds.
pub proof fn law_an_untouched_call_stays_listed(l: LayerText, x: SiteText, c: ChangeText)
    requires
        l.path == x.path,
        l.changes == seq![c],
        !l.touched.contains(x.place),
        x.place <= l.content.len(),
        changes::apart(l.content, l.changes),
    ensures
        x.place < text::char_pos(l.content, c.start)->0 ==> sites::after_layer(l, x) == Some(x),
        x.place >= text::char_pos(l.content, c.end)->0 ==> (sites::after_layer(l, x) matches Some(y)
            && y.line == x.line && y.path == x.path && y.place == x.place - text::char_pos(
            l.content,
            c.end,
        )->0 + text::char_pos(l.content, c.start)->0 + c.text.len()),
{
    reveal_with_fuel(changes::place_upto, 2);
    assert(l.changes[0] == c);
    text::lemma_char_pos_order(l.content, c.start, c.end);
}

/// A report says that the ops were applied, which they were, which files they
/// changed, and every call site with its path and its line.
pub proof fn law_a_report_reads_back(a: AppliedText, ops: Seq<OpText>)
    ensures
        json::member(edit::report(a, ops), "ok"@) == Some(Doc::Bool(true)),
        json::member(edit::report(a, ops), "files_changed"@) == Some(
            Doc::List(json::text_docs(table::keys(a.files))),
        ),
        json::member(edit::report(a, ops), "call_sites"@) == Some(
            Doc::List(edit::spot_docs(a.call_sites)),
        ),
        json::member(edit::report(a, ops), "unchanged_call_sites"@) == Some(
            Doc::List(edit::spot_docs(a.unchanged_call_sites)),
        ),
        json::member(edit::report(a, ops), "notes"@) == Some(
            Doc::List(json::text_docs(a.notes)),
        ),
{
    let fields = seq![
        ("ok"@, Doc::Bool(true)),
        ("ops"@, Doc::List(json::text_docs(edit::kinds_of(ops)))),
        ("files_changed"@, Doc::List(json::text_docs(table::keys(a.files)))),
        ("call_sites"@, Doc::List(edit::spot_docs(a.call_sites))),
        ("unchanged_call_sites"@, Doc::List(edit::spot_docs(a.unchanged_call_sites))),
        ("notes"@, Doc::List(json::text_docs(a.notes))),
    ];
    reveal_strlit("ok");
    reveal_strlit("ops");
    reveal_strlit("files_changed");
    reveal_strlit("call_sites");
    reveal_strlit("unchanged_call_sites");
    reveal_strlit("notes");
    assert("ok"@.len() == 2 && "ops"@.len() == 3 && "files_changed"@.len() == 13);
    assert("call_sites"@.len() == 10 && "unchanged_call_sites"@.len() == 20 && "notes"@.len() == 5);
    json::lemma_object_member(fields, 0);
    json::lemma_object_member(fields, 2);
    json::lemma_object_member(fields, 3);
    json::lemma_object_member(fields, 4);
    json::lemma_object_member(fields, 5);
}

/// A call site in a report reads as its path and its line.
pub proof fn law_a_reported_call_site_reads_back(v: Seq<(Seq<char>, nat)>, k: int)
    requires
        0 <= k < v.len(),
    ensures
        json::member(edit::spot_docs(v)[k], "path"@) == Some(Doc::Text(v[k].0)),
        json::member(edit::spot_docs(v)[k], "line"@) == Some(Doc::Number(text::decimal(v[k].1))),
{
    let fields = seq![
        ("path"@, Doc::Text(v[k].0)),
        ("line"@, Doc::Number(text::decimal(v[k].1))),
    ];
    reveal_strlit("path");
    reveal_strlit("line");
    assert("path"@[0] == 'p' && "line"@[0] == 'l');
    json::lemma_object_member(fields, 0);
    json::lemma_object_member(fields, 1);
}

} // verus!

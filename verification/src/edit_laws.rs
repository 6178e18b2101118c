//! What the ops do to a definition and its calls, said of the tree of a file
//! and of the text that comes out.
use vstd::prelude::*;
use crate::tree;
use crate::text;
use crate::table;
use crate::order;
use crate::edit;
use crate::changes;
use crate::edit::{StepText, WishText, WorkText};
use crate::changes::{Bound, Change, ChangeText, Family};
use crate::ops::OpText;
use crate::tree::NodeText;

verus! {

// ------------------------------------------------------- one call's change

/// A node of a wanted kind is found where there is one.
proof fn lemma_first_found(
    t: Seq<NodeText>,
    list: Seq<int>,
    want: spec_fn(Seq<char>) -> bool,
    k: nat,
    a: int,
)
    requires
        k <= a < list.len(),
        want(t[list[a]].kind),
    ensures
        tree::first_from(t, list, want, k) is Some,
    decreases list.len() - k,
{
    if !want(t[list[k as int]].kind) {
        lemma_first_found(t, list, want, k + 1, a);
    }
}

/// Nothing is found where there is none of the wanted kind.
proof fn lemma_first_missing(
    t: Seq<NodeText>,
    list: Seq<int>,
    want: spec_fn(Seq<char>) -> bool,
    k: nat,
)
    requires
        forall|a: int| k <= a < list.len() ==> !want((t[#[trigger] list[a]]).kind),
    ensures
        tree::first_from(t, list, want, k) is None,
    decreases list.len() - k,
{
    if k < list.len() {
        assert(!want(t[list[k as int]].kind));
        lemma_first_missing(t, list, want, k + 1);
    }
}

/// Is this the change that puts a text before the bracket that closes a list?
pub open spec fn goes_before_bracket(t: Seq<NodeText>, list: int, c: ChangeText) -> bool {
    let all = tree::kids(t, list);
    c.start == c.end && c.start == (if all.len() > 0 {
        t[all.last()].start
    } else {
        t[list].start
    })
}

/// A call that passes an argument by name gets the new argument by the name
/// of the new parameter: a comma, that name, an equals sign, and what to pass,
/// before the closing bracket.
pub proof fn law_a_new_argument_is_named_where_others_are(
    t: Seq<NodeText>,
    s: Seq<char>,
    args: int,
    k: int,
    name: Seq<char>,
    arg: Seq<char>,
)
    requires
        0 <= k < tree::named_kids(t, args).len(),
        t[tree::named_kids(t, args)[k]].kind == "keyword_argument"@,
    ensures
        edit::wish_change(t, s, Family::Python, (WishText::PassNamed { name, arg }), args) matches Some(
            c,
        ) && goes_before_bracket(t, args, c) && c.text == ", "@ + name + "="@ + arg,
{
    let want = |x: Seq<char>| x == "keyword_argument"@;
    lemma_first_found(t, tree::named_kids(t, args), want, 0, k);
    assert(edit::has_keyword(t, args));
    assert(", "@ + (name + "="@ + arg) =~= ", "@ + name + "="@ + arg);
}

/// Reading a named argument that was added gives back the name of the
/// parameter before the first equals sign, and what to pass behind it.
pub proof fn law_a_named_argument_reads_back(
    t: Seq<NodeText>,
    s: Seq<char>,
    args: int,
    k: int,
    name: Seq<char>,
    arg: Seq<char>,
)
    requires
        0 <= k < tree::named_kids(t, args).len(),
        t[tree::named_kids(t, args)[k]].kind == "keyword_argument"@,
        !name.contains('='),
    ensures
        edit::wish_change(t, s, Family::Python, (WishText::PassNamed { name, arg }), args) matches Some(
            c,
        ) && {
            let at = text::next_of(c.text, '=', 0);
            c.text.subrange(2, at) == name && c.text.skip(at + 1) == arg
        },
{
    law_a_new_argument_is_named_where_others_are(t, s, args, k, name, arg);
    reveal_strlit(", ");
    reveal_strlit("=");
    let x = ", "@ + name + "="@ + arg;
    let at = 2 + name.len() as int;
    assert forall|j: int| 0 <= j < at implies x[j] != '=' by {
        if j >= 2 {
            assert(x[j] == name[j - 2]);
        }
    }
    text::lemma_next_of_at(x, '=', 0, at);
    assert(x.subrange(2, at) =~= name);
    assert(x.skip(at + 1) =~= arg);
}

/// A call that passes no argument by name, or one in a language that has no
/// such arguments, gets what to pass as it stands: alone in empty brackets,
/// else behind a comma.
pub proof fn law_a_new_argument_goes_last(
    t: Seq<NodeText>,
    s: Seq<char>,
    f: Family,
    args: int,
    name: Seq<char>,
    arg: Seq<char>,
)
    requires
        f == Family::Ts || forall|k: int|
            0 <= k < tree::named_kids(t, args).len() ==> (t[#[trigger] tree::named_kids(
                t,
                args,
            )[k]]).kind != "keyword_argument"@,
    ensures
        edit::wish_change(t, s, f, (WishText::PassNamed { name, arg }), args) matches Some(c)
            && goes_before_bracket(t, args, c) && c.text == (if tree::named_kids(t, args).len()
            == 0 {
            arg
        } else {
            ", "@ + arg
        }),
{
    let want = |x: Seq<char>| x == "keyword_argument"@;
    if f == Family::Python {
        lemma_first_missing(t, tree::named_kids(t, args), want, 0);
    }
}

/// Passing an argument writes it as it stands, whatever else the call passes.
pub proof fn law_a_passed_argument_goes_last(
    t: Seq<NodeText>,
    s: Seq<char>,
    f: Family,
    args: int,
    arg: Seq<char>,
)
    ensures
        edit::wish_change(t, s, f, (WishText::Pass { arg }), args) matches Some(c)
            && goes_before_bracket(t, args, c) && c.text == (if tree::named_kids(t, args).len()
            == 0 {
            arg
        } else {
            ", "@ + arg
        }),
{
}

/// A call that is only told of is not changed.
pub proof fn law_telling_changes_nothing(t: Seq<NodeText>, s: Seq<char>, f: Family, args: int)
    ensures
        edit::wish_change(t, s, f, WishText::Tell, args) is None,
{
}

/// The first argument of the name is found.
proof fn lemma_keyword_found(t: Seq<NodeText>, s: Seq<char>, list: Seq<int>, name: Seq<char>, k: nat, a: int)
    requires
        k <= a < list.len(),
        edit::is_keyword(t, s, list[a], name),
        forall|b: int| k <= b < a ==> !edit::is_keyword(t, s, #[trigger] list[b], name),
    ensures
        edit::keyword_from(t, s, list, name, k) == Some(list[a]),
    decreases a - k,
{
    if k < a {
        assert(!edit::is_keyword(t, s, list[k as int], name));
        lemma_keyword_found(t, s, list, name, k + 1, a);
    }
}

/// No argument of the name is found where there is none.
proof fn lemma_keyword_missing(t: Seq<NodeText>, s: Seq<char>, list: Seq<int>, name: Seq<char>, k: nat)
    requires
        forall|b: int| k <= b < list.len() ==> !edit::is_keyword(t, s, #[trigger] list[b], name),
    ensures
        edit::keyword_from(t, s, list, name, k) is None,
    decreases list.len() - k,
{
    if k < list.len() {
        assert(!edit::is_keyword(t, s, list[k as int], name));
        lemma_keyword_missing(t, s, list, name, k + 1);
    }
}

/// Does the argument at the node go by this name?
pub open spec fn goes_by(t: Seq<NodeText>, s: Seq<char>, i: int, name: Seq<char>) -> bool {
    t[i].kind == "keyword_argument"@ && exists|k: int|
        tree::field(t, i, "name"@) == Some(k) && tree::node_text(s, #[trigger] t[k]) == name
}

/// An argument goes by a name where its name field reads so.
proof fn lemma_goes_by(t: Seq<NodeText>, s: Seq<char>, i: int, name: Seq<char>)
    ensures
        goes_by(t, s, i, name) == edit::is_keyword(t, s, i, name),
{
    if let Some(k) = tree::field(t, i, "name"@) {
        assert(tree::node_text(s, t[k]) == tree::node_text(s, t[k]));
    }
}

/// Where a call passes the parameter by name, it is the argument of that name
/// that goes, and only where it does not, the one at the parameter's place
/// among those without a name.
pub proof fn law_a_named_argument_goes_by_name(
    t: Seq<NodeText>,
    s: Seq<char>,
    args: int,
    name: Seq<char>,
    position: nat,
    a: int,
)
    requires
        0 <= a < tree::named_kids(t, args).len(),
        goes_by(t, s, tree::named_kids(t, args)[a], name),
        forall|b: int|
            0 <= b < a ==> !goes_by(t, s, #[trigger] tree::named_kids(t, args)[b], name),
    ensures
        edit::argument_for(t, s, args, name, position) == Some(tree::named_kids(t, args)[a]),
{
    let list = tree::named_kids(t, args);
    lemma_goes_by(t, s, list[a], name);
    assert forall|b: int| 0 <= b < a implies !edit::is_keyword(t, s, #[trigger] list[b], name) by {
        lemma_goes_by(t, s, list[b], name);
    }
    lemma_keyword_found(t, s, list, name, 0, a);
}

/// Where a call passes nothing by name, the argument at the parameter's place
/// goes; none does where the call passes fewer.
pub proof fn law_a_positional_argument_goes_by_place(
    t: Seq<NodeText>,
    s: Seq<char>,
    args: int,
    name: Seq<char>,
    position: nat,
)
    requires
        forall|k: int|
            0 <= k < tree::named_kids(t, args).len() ==> (t[#[trigger] tree::named_kids(
                t,
                args,
            )[k]]).kind != "keyword_argument"@,
    ensures
        edit::argument_for(t, s, args, name, position) == (if position < tree::named_kids(
            t,
            args,
        ).len() {
            Some(tree::named_kids(t, args)[position as int])
        } else {
            None
        }),
{
    let list = tree::named_kids(t, args);
    assert forall|b: int| 0 <= b < list.len() implies !edit::is_keyword(
        t,
        s,
        #[trigger] list[b],
        name,
    ) by {}
    lemma_keyword_missing(t, s, list, name, 0);
    lemma_nameless(t, list, position, 0);
}

/// The places of arguments without names, where none has one.
proof fn lemma_nameless(t: Seq<NodeText>, list: Seq<int>, n: nat, k: nat)
    requires
        forall|a: int| 0 <= a < list.len() ==> (t[#[trigger] list[a]]).kind != "keyword_argument"@,
    ensures
        edit::nameless_from(t, list, n, k) == (if k + n < list.len() {
            Some(list[(k + n) as int])
        } else {
            None
        }),
    decreases list.len() - k,
{
    if k < list.len() {
        assert(t[list[k as int]].kind != "keyword_argument"@);
        if n > 0 {
            lemma_nameless(t, list, (n - 1) as nat, k + 1);
        }
    }
}

/// An argument passed by another name does not count towards the place: what
/// is found at a place has as many arguments without a name before it.
pub proof fn law_named_arguments_take_no_place(t: Seq<NodeText>, list: Seq<int>, n: nat, k: nat)
    requires
        k < list.len(),
        t[list[k as int]].kind == "keyword_argument"@,
    ensures
        edit::nameless_from(t, list, n, k) == edit::nameless_from(t, list, n, k + 1),
{
}

/// The place of a node in a list that holds it once.
proof fn lemma_place_among(list: Seq<int>, x: int, k: nat, a: int)
    requires
        k <= a < list.len(),
        list[a] == x,
        forall|b: int| k <= b < a ==> #[trigger] list[b] != x,
    ensures
        changes::place_among(list, x, k) == a,
    decreases a - k,
{
    if k < a {
        assert(list[k as int] != x);
        lemma_place_among(list, x, k + 1, a);
    }
}

/// Removing an item takes the comma before it along, and nothing before that
/// comma or behind the item; the first item takes the comma behind it and the
/// blanks that follow; an item alone goes alone. Nothing is put in its place.
pub proof fn law_an_item_goes_with_one_comma(t: Seq<NodeText>, s: Seq<char>, list: int, a: int)
    requires
        0 <= a < tree::kids(t, list).len(),
        forall|b: int| 0 <= b < a ==> #[trigger] tree::kids(t, list)[b] != tree::kids(t, list)[a],
    ensures
        ({
            let all = tree::kids(t, list);
            let c = changes::removal(t, s, list, all[a]);
            let before = a > 0 && tree::node_text(s, t[all[a - 1]]) == seq![','];
            let behind = a + 1 < all.len() && tree::node_text(s, t[all[a + 1]]) == seq![','];
            &&& c.text.len() == 0
            &&& before ==> c.start == t[all[a - 1]].start && c.end == t[all[a]].end
            &&& !before && behind ==> c.start == t[all[a]].start && c.end
                == changes::behind_blanks(s, t[all[a + 1]].end)
            &&& !before && !behind ==> c.start == t[all[a]].start && c.end == t[all[a]].end
        }),
{
    let all = tree::kids(t, list);
    lemma_place_among(all, all[a], 0, a);
    reveal_strlit(",");
    assert(","@ =~= seq![',']);
}

/// The blanks behind a place end at the first character that is none.
pub proof fn law_blanks_end_at_the_first_other(s: Seq<char>, p: int, n: nat)
    requires
        0 <= p,
        p + n <= s.len(),
        forall|i: int| p <= i < p + n ==> s[i] == ' ',
        p + n == s.len() || s[p + n] != ' ',
    ensures
        changes::blanks_from(s, p) == n,
    decreases n,
{
    if n > 0 {
        law_blanks_end_at_the_first_other(s, p + 1, (n - 1) as nat);
    }
}

// ------------------------------------------------------- which calls change

/// Is the node a call of what reads `name`, with these arguments?
pub open spec fn is_call_of(
    t: Seq<NodeText>,
    s: Seq<char>,
    f: Family,
    j: int,
    name: Seq<char>,
    args: int,
) -> bool {
    &&& match f {
        Family::Python => t[j].kind == "call"@,
        Family::Ts => t[j].kind == "call_expression"@,
    }
    &&& tree::field(t, j, "arguments"@) == Some(args)
    &&& exists|k: int|
        tree::field(t, j, "function"@) == Some(k) && tree::node_text(s, #[trigger] t[k]) == name
}

/// A call by a name that is bound to the symbol reaches it, and so does a call
/// of the symbol through a name that is bound to its module.
pub proof fn law_calls_by_a_bound_name_reach(
    t: Seq<NodeText>,
    s: Seq<char>,
    f: Family,
    symbol: Seq<char>,
    b: Bound,
    j: int,
    args: int,
    name: Seq<char>,
)
    requires
        text::listed(b.direct, name) && is_call_of(t, s, f, j, name, args) || text::listed(
            b.modules,
            name,
        ) && !symbol.contains('.') && is_call_of(t, s, f, j, name + seq!['.'] + symbol, args),
    ensures
        edit::reaching_at(t, s, f, symbol, b, j) == Some(args),
{
    if !(text::listed(b.direct, name) && is_call_of(t, s, f, j, name, args)) {
        let whole = name + seq!['.'] + symbol;
        lemma_cut_dotted(name, symbol);
    }
}

/// The last dot of a dotted name.
proof fn lemma_cut_dotted(name: Seq<char>, part: Seq<char>)
    requires
        !part.contains('.'),
    ensures
        text::cut_last(name + seq!['.'] + part, '.') == Some((name, part)),
{
    let whole = name + seq!['.'] + part;
    text::lemma_last_below(whole, '.', whole.len() as int);
    let at = name.len() as int;
    assert(whole[at] == '.');
    assert forall|i: int| at < i < whole.len() implies whole[i] != '.' by {
        assert(whole[i] == part[i - at - 1]);
    }
    assert(whole.take(at) =~= name);
    assert(whole.skip(at + 1) =~= part);
}

/// A call reaches the symbol by such a name alone.
pub proof fn law_no_other_call_reaches(
    t: Seq<NodeText>,
    s: Seq<char>,
    f: Family,
    symbol: Seq<char>,
    b: Bound,
    j: int,
    args: int,
)
    requires
        edit::reaching_at(t, s, f, symbol, b, j) == Some(args),
    ensures
        exists|name: Seq<char>|
            #[trigger] is_call_of(t, s, f, j, name, args) && (text::listed(b.direct, name)
                || exists|module: Seq<char>|
                name == module + seq!['.'] + symbol && #[trigger] text::listed(b.modules, module)),
{
    let k = tree::field(t, j, "function"@)->0;
    let name = tree::node_text(s, t[k]);
    assert(is_call_of(t, s, f, j, name, args));
    if !text::listed(b.direct, name) {
        let (module, part) = text::cut_last(name, '.')->0;
        text::lemma_last_below(name, '.', name.len() as int);
        assert(name =~= module + seq!['.'] + part);
        assert(text::listed(b.modules, module));
    }
}

/// Every call that reaches the symbol is among those that change.
proof fn lemma_call_listed(
    t: Seq<NodeText>,
    s: Seq<char>,
    f: Family,
    symbol: Seq<char>,
    b: Bound,
    n: nat,
    j: int,
    args: int,
) -> (a: int)
    requires
        0 <= j < n,
        edit::reaching_at(t, s, f, symbol, b, j) == Some(args),
    ensures
        0 <= a < edit::reaching_upto(t, s, f, symbol, b, n).len(),
        edit::reaching_upto(t, s, f, symbol, b, n)[a] == (j, args),
    decreases n,
{
    let rest = edit::reaching_upto(t, s, f, symbol, b, (n - 1) as nat);
    let all = edit::reaching_upto(t, s, f, symbol, b, n);
    if j == n - 1 {
        assert(all[rest.len() as int] == (j, args));
        rest.len() as int
    } else {
        let a = lemma_call_listed(t, s, f, symbol, b, (n - 1) as nat, j, args);
        assert(all[a] == rest[a]);
        a
    }
}

/// Every call that a wish changes has its change among those of the file.
proof fn lemma_change_listed(
    t: Seq<NodeText>,
    s: Seq<char>,
    f: Family,
    w: WishText,
    calls: Seq<(int, int)>,
    n: nat,
    a: int,
    c: ChangeText,
)
    requires
        0 <= a < n <= calls.len(),
        edit::wish_change(t, s, f, w, calls[a].1) == Some(c),
    ensures
        edit::wish_changes(t, s, f, w, calls, n).contains(c),
    decreases n,
{
    let rest = edit::wish_changes(t, s, f, w, calls, (n - 1) as nat);
    let all = edit::wish_changes(t, s, f, w, calls, n);
    if a == n - 1 {
        assert(all[rest.len() as int] == c);
    } else {
        lemma_change_listed(t, s, f, w, calls, (n - 1) as nat, a, c);
        let k = choose|k: int| 0 <= k < rest.len() && rest[k] == c;
        assert(all[k] == c);
    }
}

/// A change that puts something in is made, unless it stands within a range
/// that is replaced; so are all of several that only put something in.
pub proof fn law_insertions_are_all_made(v: Seq<ChangeText>, i: int)
    requires
        0 <= i < v.len(),
        forall|k: int| 0 <= k < v.len() ==> (#[trigger] v[k]).start == v[k].end,
    ensures
        changes::ranked(v).contains(v[i]),
{
    lemma_kept(v, v.len(), i);
    order::lemma_sorted_contains::<Change>(changes::kept_upto(v, v.len()), v[i]);
}

/// A change that only puts something in among others that do is kept.
proof fn lemma_kept(v: Seq<ChangeText>, n: nat, i: int)
    requires
        0 <= i < n <= v.len(),
        forall|k: int| 0 <= k < v.len() ==> (#[trigger] v[k]).start == v[k].end,
    ensures
        changes::kept_upto(v, n).contains(v[i]),
    decreases n,
{
    let rest = changes::kept_upto(v, (n - 1) as nat);
    let all = changes::kept_upto(v, n);
    if i == n - 1 {
        assert(!changes::swallowed(v, i)) by {
            if changes::swallowed(v, i) {
                let j = choose|j: int|
                    0 <= j < v.len() && (changes::lies_inside(v[i], #[trigger] v[j]) || j < i
                        && v[i].start < v[i].end && v[j].start == v[i].start && v[j].end
                        == v[i].end);
                assert(v[j].start == v[j].end);
                assert(v[i].start == v[i].end);
            }
        }
        assert(all[rest.len() as int] == v[i]);
    } else {
        lemma_kept(v, (n - 1) as nat, i);
        let k = choose|k: int| 0 <= k < rest.len() && rest[k] == v[i];
        assert(all[k] == v[i]);
    }
}

/// A single change is made: what stood in its range is replaced, and all
/// around it stays.
pub proof fn law_a_single_change_is_made(s: Seq<char>, c: ChangeText, a: nat, b: nat)
    requires
        text::char_pos(s, c.start) == Some(a),
        text::char_pos(s, c.end) == Some(b),
        c.start <= c.end,
    ensures
        changes::spliced(s, seq![c]) == Some(s.take(a as int) + c.text + s.skip(b as int)),
{
    let v = seq![c];
    assert(changes::kept_upto(v, 1) =~= v) by {
        reveal_with_fuel(changes::kept_upto, 2);
        if changes::swallowed(v, 0) {
            let j = choose|j: int|
                0 <= j < v.len() && (changes::lies_inside(v[0], #[trigger] v[j]) || j < 0
                    && v[0].start < v[0].end && v[j].start == v[0].start && v[j].end
                    == v[0].end);
            assert(v[j] == c);
        }
    }
    let w = changes::ranked(v);
    order::lemma_sorted_keeps::<Change>(v, 1);
    order::lemma_sorted_contains::<Change>(v, c);
    assert(v[0] == c);
    assert(v.contains(c));
    assert(w.len() == 1 && w.contains(c));
    assert(w =~= v);
    reveal_with_fuel(changes::woven, 2);
    text::lemma_char_pos(s, c.start, 0);
    text::lemma_char_pos(s, c.end, 0);
    assert(s.subrange(b as int, s.len() as int) =~= s.skip(b as int));
    assert(changes::apart(s, w));
    assert(changes::woven(s, w, 1) =~= c.text + s.skip(b as int));
    assert(s.take(a as int) + (c.text + s.skip(b as int)) =~= s.take(a as int) + c.text + s.skip(
        b as int,
    ));
}

// ----------------------------------------------------------- whole ops

/// Two entries of a table at different places have different keys.
pub proof fn lemma_keys_differ(files: Seq<(Seq<char>, Seq<char>)>, i: int, k: int)
    requires
        table::ordered(table::keys(files)),
        0 <= i < files.len(),
        0 <= k < files.len(),
        i != k,
    ensures
        files[i].0 != files[k].0,
{
    let ks = table::keys(files);
    assert(ks[i] == files[i].0 && ks[k] == files[k].0);
    if files[i].0 == files[k].0 {
        table::lemma_place(ks, files[i].0, i);
        table::lemma_place(ks, files[i].0, k);
    }
}

/// What steps on the first `n` files come to, given which files are passed
/// over, and what a step makes of a file that holds a content.
spec fn run_upto(
    a: WorkText,
    files: Seq<(Seq<char>, Seq<char>)>,
    passed: spec_fn(Seq<char>) -> bool,
    pick: spec_fn(Seq<char>, Seq<char>) -> Option<StepText>,
    w: WishText,
    n: nat,
) -> Option<WorkText>
    decreases n,
{
    if n == 0 {
        Some(a)
    } else {
        match run_upto(a, files, passed, pick, w, (n - 1) as nat) {
            Some(rest) => if passed(files[n - 1].0) {
                Some(rest)
            } else {
                let base = now_holds(rest.files, files[n - 1].0, files[n - 1].1);
                match pick(files[n - 1].0, base) {
                    Some(x) => Some(edit::with_step(rest, files[n - 1].0, base, w, x)),
                    None => None,
                }
            },
            None => None,
        }
    }
}

/// A wish runs over the files.
proof fn lemma_wish_runs(
    a: WorkText,
    files: Seq<(Seq<char>, Seq<char>)>,
    f: Family,
    def_path: Seq<char>,
    symbol: Seq<char>,
    within: Seq<Seq<char>>,
    w: WishText,
    n: nat,
)
    ensures
        edit::with_files(a, files, f, def_path, symbol, within, w, n) == run_upto(
            a,
            files,
            |p: Seq<char>| changes::family(p) != Some(f) || !edit::falls_within(p, within),
            |p: Seq<char>, b: Seq<char>| edit::step(p, b, f, def_path, symbol, w),
            w,
            n,
        ),
    decreases n,
{
    if n > 0 {
        lemma_wish_runs(a, files, f, def_path, symbol, within, w, (n - 1) as nat);
    }
}

/// What a step adds is in what it makes, and all that there was.
proof fn lemma_with_step(a: WorkText, path: Seq<char>, base: Seq<char>, w: WishText, x: StepText)
    requires
        table::ordered(table::keys(a.files)),
    ensures
        ({
            let r = edit::with_step(a, path, base, w, x);
            &&& table::ordered(table::keys(r.files))
            &&& a.layers.is_prefix_of(r.layers)
            &&& forall|p: Seq<char>|
                p != path ==> #[trigger] table::value(r.files, p) == table::value(a.files, p)
            &&& x.content is Some ==> table::value(r.files, path) == x.content
            &&& forall|y: (Seq<char>, nat)| #[trigger]
                a.call_sites.contains(y) ==> r.call_sites.contains(y)
            &&& forall|y: (Seq<char>, nat)| #[trigger]
                crate::sites::spots_of(a.left).contains(y) ==> crate::sites::spots_of(
                    r.left,
                ).contains(y)
            &&& forall|l: nat| #[trigger]
                x.lines.contains(l) ==> if w is Tell {
                    crate::sites::spots_of(r.left).contains((path, l))
                } else {
                    r.call_sites.contains((path, l))
                }
        }),
{
    let r = edit::with_step(a, path, base, w, x);
    if let Some(content) = x.content {
        table::lemma_put(a.files, path, content);
    }
    assert forall|y: (Seq<char>, nat)| #[trigger] a.call_sites.contains(y) implies r.call_sites.contains(
        y,
    ) by {
        let m = choose|m: int| 0 <= m < a.call_sites.len() && a.call_sites[m] == y;
        assert(r.call_sites[m] == y);
    }
    let old_left = crate::sites::spots_of(a.left);
    let new_left = crate::sites::spots_of(r.left);
    assert forall|y: (Seq<char>, nat)| #[trigger] old_left.contains(y) implies new_left.contains(
        y,
    ) by {
        let m = choose|m: int| 0 <= m < old_left.len() && old_left[m] == y;
        assert(new_left[m] == y);
    }
    assert forall|l: nat| #[trigger] x.lines.contains(l) implies if w is Tell {
        new_left.contains((path, l))
    } else {
        r.call_sites.contains((path, l))
    } by {
        let m = choose|m: int| 0 <= m < x.lines.len() && x.lines[m] == l;
        if w is Tell {
            assert(new_left[a.left.len() + m] == (path, l));
        } else {
            assert(r.call_sites[a.call_sites.len() + m] == (path, l));
        }
    }
}

/// Is what a step makes of a file in what was applied?
spec fn is_done(r: WorkText, path: Seq<char>, w: WishText, x: StepText) -> bool {
    &&& x.content is Some ==> table::value(r.files, path) == x.content
    &&& forall|l: nat| #[trigger]
        x.lines.contains(l) ==> if w is Tell {
            crate::sites::spots_of(r.left).contains((path, l))
        } else {
            r.call_sites.contains((path, l))
        }
}

/// What a step makes of one of the files is in what steps on all come to.
proof fn lemma_run_done(
    a: WorkText,
    files: Seq<(Seq<char>, Seq<char>)>,
    passed: spec_fn(Seq<char>) -> bool,
    pick: spec_fn(Seq<char>, Seq<char>) -> Option<StepText>,
    w: WishText,
    n: nat,
    i: int,
)
    requires
        n <= files.len(),
        0 <= i < files.len(),
        table::ordered(table::keys(files)),
        table::ordered(table::keys(a.files)),
        !passed(files[i].0),
    ensures
        run_upto(a, files, passed, pick, w, n) matches Some(r) ==> {
            let path = files[i].0;
            &&& table::ordered(table::keys(r.files))
            &&& a.layers.is_prefix_of(r.layers)
            &&& i >= n ==> table::value(r.files, path) == table::value(a.files, path)
            &&& i < n ==> (pick(path, now_holds(a.files, path, files[i].1)) matches Some(x)
                && is_done(r, path, w, x))
        },
    decreases n,
{
    if n > 0 {
        lemma_run_done(a, files, passed, pick, w, (n - 1) as nat, i);
        if let Some(rest) = run_upto(a, files, passed, pick, w, (n - 1) as nat) {
            let path = files[n - 1].0;
            let base = now_holds(rest.files, path, files[n - 1].1);
            if !passed(path) {
                if let Some(x) = pick(path, base) {
                    let r = edit::with_step(rest, path, base, w, x);
                    lemma_with_step(rest, path, base, w, x);
                    assert forall|k: int| 0 <= k < a.layers.len() implies r.layers[k] == a.layers[k] by {
                        assert(rest.layers[k] == a.layers[k]);
                    }
                    if i != n - 1 {
                        lemma_keys_differ(files, i, n - 1);
                    }
                }
            }
        }
    }
}

/// What a wish makes of one of the files is in what it makes of all.
proof fn lemma_file_is_done(
    a: WorkText,
    files: Seq<(Seq<char>, Seq<char>)>,
    f: Family,
    def_path: Seq<char>,
    symbol: Seq<char>,
    within: Seq<Seq<char>>,
    w: WishText,
    i: int,
    r: WorkText,
) -> (x: StepText)
    requires
        0 <= i < files.len(),
        table::ordered(table::keys(files)),
        table::ordered(table::keys(a.files)),
        changes::family(files[i].0) == Some(f),
        edit::falls_within(files[i].0, within),
        edit::with_files(a, files, f, def_path, symbol, within, w, files.len()) == Some(r),
    ensures
        table::ordered(table::keys(r.files)),
        a.layers.is_prefix_of(r.layers),
        edit::step(
            files[i].0,
            now_holds(a.files, files[i].0, files[i].1),
            f,
            def_path,
            symbol,
            w,
        ) == Some(x),
        is_done(r, files[i].0, w, x),
{
    lemma_wish_runs(a, files, f, def_path, symbol, within, w, files.len());
    let passed = |p: Seq<char>| changes::family(p) != Some(f) || !edit::falls_within(p, within);
    let pick = |p: Seq<char>, b: Seq<char>| edit::step(p, b, f, def_path, symbol, w);
    lemma_run_done(a, files, passed, pick, w, files.len(), i);
    pick(files[i].0, now_holds(a.files, files[i].0, files[i].1))->0
}

/// The line of every call that a wish changes, or tells of, is listed.
proof fn lemma_line_listed(
    t: Seq<NodeText>,
    s: Seq<char>,
    f: Family,
    w: WishText,
    calls: Seq<(int, int)>,
    n: nat,
    a: int,
)
    requires
        0 <= a < n <= calls.len(),
        w is Tell || edit::wish_change(t, s, f, w, calls[a].1) is Some,
    ensures
        edit::wish_lines(t, s, f, w, calls, n).contains(t[calls[a].0].start_row + 1),
    decreases n,
{
    let rest = edit::wish_lines(t, s, f, w, calls, (n - 1) as nat);
    let all = edit::wish_lines(t, s, f, w, calls, n);
    let l = t[calls[a].0].start_row + 1;
    if a == n - 1 {
        assert(all[rest.len() as int] == l);
    } else {
        lemma_line_listed(t, s, f, w, calls, (n - 1) as nat, a);
        let k = choose|k: int| 0 <= k < rest.len() && rest[k] == l;
        assert(all[k] == l);
    }
}

/// Every change that a wish makes to a file is the one that it makes to a call
/// that reaches the symbol.
proof fn lemma_only_calls_change(
    t: Seq<NodeText>,
    s: Seq<char>,
    f: Family,
    symbol: Seq<char>,
    b: Bound,
    w: WishText,
    n: nat,
    c: ChangeText,
)
    requires
        n <= edit::reaching_upto(t, s, f, symbol, b, t.len()).len(),
        edit::wish_changes(
            t,
            s,
            f,
            w,
            edit::reaching_upto(t, s, f, symbol, b, t.len()),
            n,
        ).contains(c),
    ensures
        is_made_to_a_call(t, s, f, symbol, b, w, c),
    decreases n,
{
    let calls = edit::reaching_upto(t, s, f, symbol, b, t.len());
    if n > 0 {
        let rest = edit::wish_changes(t, s, f, w, calls, (n - 1) as nat);
        let all = edit::wish_changes(t, s, f, w, calls, n);
        let k = choose|k: int| 0 <= k < all.len() && all[k] == c;
        if k < rest.len() {
            assert(rest[k] == c);
            lemma_only_calls_change(t, s, f, symbol, b, w, (n - 1) as nat, c);
        } else {
            reveal(is_made_to_a_call);
            lemma_calls_reach(t, s, f, symbol, b, t.len(), n - 1);
            let j = calls[n - 1].0;
            assert(edit::reaching_at(t, s, f, symbol, b, j) == Some(calls[n - 1].1));
        }
    }
}

/// What is listed as a call that reaches is one.
proof fn lemma_calls_reach(
    t: Seq<NodeText>,
    s: Seq<char>,
    f: Family,
    symbol: Seq<char>,
    b: Bound,
    n: nat,
    a: int,
)
    requires
        0 <= a < edit::reaching_upto(t, s, f, symbol, b, n).len(),
    ensures
        ({
            let call = edit::reaching_upto(t, s, f, symbol, b, n)[a];
            edit::reaching_at(t, s, f, symbol, b, call.0) == Some(call.1)
        }),
    decreases n,
{
    if n > 0 {
        let rest = edit::reaching_upto(t, s, f, symbol, b, (n - 1) as nat);
        if a < rest.len() {
            lemma_calls_reach(t, s, f, symbol, b, (n - 1) as nat, a);
        }
    }
}

/// Is the change the one that a wish makes to some call that reaches the
/// symbol?
#[verifier::opaque]
pub open spec fn is_made_to_a_call(
    t: Seq<NodeText>,
    s: Seq<char>,
    f: Family,
    symbol: Seq<char>,
    b: Bound,
    w: WishText,
    c: ChangeText,
) -> bool {
    exists|j: int|
        (#[trigger] edit::reaching_at(t, s, f, symbol, b, j)) is Some && edit::wish_change(
            t,
            s,
            f,
            w,
            edit::reaching_at(t, s, f, symbol, b, j)->0,
        ) == Some(c)
}

/// What a file holds, among files of which some have new contents.
pub open spec fn now_holds(
    done: Seq<(Seq<char>, Seq<char>)>,
    path: Seq<char>,
    given: Seq<char>,
) -> Seq<char> {
    match table::value(done, path) {
        Some(new) => new,
        None => given,
    }
}

/// Dropping the files that hold what they were given changes what none holds.
proof fn lemma_without_same(a: WorkText, files: Seq<(Seq<char>, Seq<char>)>, i: int)
    requires
        table::ordered(table::keys(files)),
        table::ordered(table::keys(a.files)),
        0 <= i < files.len(),
    ensures
        now_holds(edit::without_same(a, files).files, files[i].0, files[i].1) == now_holds(
            a.files,
            files[i].0,
            files[i].1,
        ),
{
    let n = a.files.len();
    let out = edit::changed_upto(files, a.files, n);
    edit::lemma_changed_upto(files, a.files, n);
    table::lemma_value(files, i);
    let path = files[i].0;
    if let Some(new) = table::value(a.files, path) {
        let m = table::seat(table::keys(a.files), path);
        table::lemma_seat(table::keys(a.files), path, 0);
        assert(table::keys(a.files)[m] == path);
        assert(a.files[m].0 == path);
        if new != files[i].1 {
            lemma_changed_kept(files, a.files, n, m);
            let k = choose|k: int| 0 <= k < out.len() && out[k] == a.files[m];
            table::lemma_value(out, k);
        }
    }
    if let Some(new) = table::value(out, path) {
        let m = table::seat(table::keys(out), path);
        table::lemma_seat(table::keys(out), path, 0);
        assert(table::keys(out)[m] == path);
        let k = choose|k: int| 0 <= k < n && a.files[k] == out[m];
        table::lemma_value(a.files, k);
    }
}

/// A file with another content than the given one stays.
proof fn lemma_changed_kept(
    given: Seq<(Seq<char>, Seq<char>)>,
    files: Seq<(Seq<char>, Seq<char>)>,
    n: nat,
    m: int,
)
    requires
        0 <= m < n <= files.len(),
        table::value(given, files[m].0) != Some(files[m].1),
    ensures
        edit::changed_upto(given, files, n).contains(files[m]),
    decreases n,
{
    let rest = edit::changed_upto(given, files, (n - 1) as nat);
    let all = edit::changed_upto(given, files, n);
    if m == n - 1 {
        assert(all[rest.len() as int] == files[m]);
    } else {
        lemma_changed_kept(given, files, (n - 1) as nat, m);
        let k = choose|k: int| 0 <= k < rest.len() && rest[k] == files[m];
        assert(all[k] == files[m]);
    }
}

/// Is the change made to a file: is it one of those whose outcome the file now
/// holds, all of which are made to calls that reach the symbol?
#[verifier::opaque]
pub open spec fn is_made(
    t: Seq<NodeText>,
    s: Seq<char>,
    f: Family,
    symbol: Seq<char>,
    b: Bound,
    w: WishText,
    now: Seq<char>,
    c: ChangeText,
) -> bool {
    exists|v: Seq<ChangeText>|
        (#[trigger] changes::spliced(s, v)) == Some(now) && v.contains(c) && forall|d: ChangeText| #[trigger]
            v.contains(d) ==> is_made_to_a_call(t, s, f, symbol, b, w, d)
}

/// A call that reaches the symbol has its change made in the file.
proof fn lemma_step_makes(
    path: Seq<char>,
    s: Seq<char>,
    f: Family,
    def_path: Seq<char>,
    symbol: Seq<char>,
    w: WishText,
    t: Seq<NodeText>,
    j: int,
    args: int,
    c: ChangeText,
)
    requires
        changes::tree_of(path, s) == Some(t),
        0 <= j < t.len(),
        edit::reaching_at(t, s, f, symbol, changes::bound_in(path, s, def_path, symbol), j) == Some(
            args,
        ),
        edit::wish_change(t, s, f, w, args) == Some(c),
    ensures
        edit::step(path, s, f, def_path, symbol, w) matches Some(x) ==> {
            &&& x.content matches Some(now) && is_made(
                t,
                s,
                f,
                symbol,
                changes::bound_in(path, s, def_path, symbol),
                w,
                now,
                c,
            )
            &&& x.lines.contains(t[j].start_row + 1)
        },
{
    let b = changes::bound_in(path, s, def_path, symbol);
    let calls = edit::reaching_upto(t, s, f, symbol, b, t.len());
    let v = edit::wish_changes(t, s, f, w, calls, calls.len());
    let a = lemma_call_listed(t, s, f, symbol, b, t.len(), j, args);
    lemma_change_listed(t, s, f, w, calls, calls.len(), a, c);
    lemma_line_listed(t, s, f, w, calls, calls.len(), a);
    assert(v.len() > 0);
    law_no_other_call_reaches(t, s, f, symbol, b, j, args);
    let name = choose|name: Seq<char>|
        #[trigger] is_call_of(t, s, f, j, name, args) && (text::listed(b.direct, name)
            || exists|module: Seq<char>|
            name == module + seq!['.'] + symbol && #[trigger] text::listed(b.modules, module));
    assert(b.direct.len() > 0 || b.modules.len() > 0);
    assert forall|d: ChangeText| #[trigger] v.contains(d) implies is_made_to_a_call(
        t,
        s,
        f,
        symbol,
        b,
        w,
        d,
    ) by {
        lemma_only_calls_change(t, s, f, symbol, b, w, calls.len(), d);
    }
    if let Some(x) = edit::step(path, s, f, def_path, symbol, w) {
        reveal(is_made);
        assert(changes::spliced(s, v) == x.content);
    }
}

/// Does one of the arguments have a name?
pub open spec fn passes_by_name(t: Seq<NodeText>, args: int) -> bool {
    exists|k: int|
        0 <= k < tree::named_kids(t, args).len() && (t[#[trigger] tree::named_kids(
            t,
            args,
        )[k]]).kind == "keyword_argument"@
}

/// One edited file is the only one, with one edit.
pub proof fn lemma_edited_alone(path: Seq<char>, s: Seq<char>, c: ChangeText)
    requires
        edit::edited(path, s, c) is Some,
    ensures
        ({
            let a = edit::edited(path, s, c)->0;
            &&& table::ordered(table::keys(a.files))
            &&& table::value(a.files, path) == changes::spliced(s, seq![c])
            &&& forall|p: Seq<char>| p != path ==> (#[trigger] table::value(a.files, p)) is None
            &&& a.layers.len() == 1
            &&& a.layers[0].path == path
            &&& a.layers[0].content == s
            &&& a.layers[0].changes == changes::ranked(seq![c])
        }),
{
    let none = Seq::<(Seq<char>, Seq<char>)>::empty();
    table::lemma_put(none, path, changes::spliced(s, seq![c])->0);
    let a = edit::edited(path, s, c)->0;
    assert forall|p: Seq<char>| p != path implies (#[trigger] table::value(a.files, p)) is None by {
        assert(table::value(none, p) is None);
    }
}

/// Telling of calls changes none.
proof fn lemma_told_changes(
    t: Seq<NodeText>,
    s: Seq<char>,
    f: Family,
    calls: Seq<(int, int)>,
    n: nat,
)
    ensures
        edit::wish_changes(t, s, f, WishText::Tell, calls, n).len() == 0,
    decreases n,
{
    if n > 0 {
        lemma_told_changes(t, s, f, calls, (n - 1) as nat);
    }
}

/// Is this what an op came to for a call of the given file: the file now holds
/// what comes of the change to the call, and the call's line is listed?
pub open spec fn call_is_changed(
    a: WorkText,
    path: Seq<char>,
    s: Seq<char>,
    f: Family,
    def_path: Seq<char>,
    symbol: Seq<char>,
    w: WishText,
    t: Seq<NodeText>,
    j: int,
    c: ChangeText,
) -> bool {
    &&& a.call_sites.contains((path, t[j].start_row + 1))
    &&& is_made(
        t,
        s,
        f,
        symbol,
        changes::bound_in(path, s, def_path, symbol),
        w,
        now_holds(a.files, path, s),
        c,
    )
}

/// Is this a call of a given file that reaches the symbol?
pub open spec fn is_reaching_call(
    files: Seq<(Seq<char>, Seq<char>)>,
    i: int,
    f: Family,
    def_path: Seq<char>,
    symbol: Seq<char>,
    t: Seq<NodeText>,
    j: int,
    args: int,
) -> bool {
    &&& 0 <= i < files.len()
    &&& changes::family(files[i].0) == Some(f)
    &&& changes::tree_of(files[i].0, files[i].1) == Some(t)
    &&& 0 <= j < t.len()
    &&& edit::reaching_at(
        t,
        files[i].1,
        f,
        symbol,
        changes::bound_in(files[i].0, files[i].1, def_path, symbol),
        j,
    ) == Some(args)
}

/// A wish that changes a call changes it, whichever files it runs over.
proof fn lemma_wish_changes_call(
    start: WorkText,
    files: Seq<(Seq<char>, Seq<char>)>,
    f: Family,
    def_path: Seq<char>,
    symbol: Seq<char>,
    within: Seq<Seq<char>>,
    w: WishText,
    i: int,
    t: Seq<NodeText>,
    j: int,
    args: int,
    c: ChangeText,
    a: WorkText,
)
    requires
        table::ordered(table::keys(files)),
        table::ordered(table::keys(start.files)),
        is_reaching_call(files, i, f, def_path, symbol, t, j, args),
        edit::falls_within(files[i].0, within),
        table::value(start.files, files[i].0) is None,
        !(w is Tell),
        edit::wish_change(t, files[i].1, f, w, args) == Some(c),
        edit::with_files(start, files, f, def_path, symbol, within, w, files.len()) == Some(a),
    ensures
        table::ordered(table::keys(a.files)),
        start.layers.is_prefix_of(a.layers),
        call_is_changed(a, files[i].0, files[i].1, f, def_path, symbol, w, t, j, c),
{
    let x = lemma_file_is_done(start, files, f, def_path, symbol, within, w, i, a);
    assert(now_holds(start.files, files[i].0, files[i].1) == files[i].1);
    lemma_step_makes(files[i].0, files[i].1, f, def_path, symbol, w, t, j, args, c);
}

/// Dropping the files that hold what they were given leaves a call changed.
proof fn lemma_call_stays_changed(
    a: WorkText,
    files: Seq<(Seq<char>, Seq<char>)>,
    i: int,
    f: Family,
    def_path: Seq<char>,
    symbol: Seq<char>,
    w: WishText,
    t: Seq<NodeText>,
    j: int,
    c: ChangeText,
)
    requires
        table::ordered(table::keys(files)),
        table::ordered(table::keys(a.files)),
        0 <= i < files.len(),
        call_is_changed(a, files[i].0, files[i].1, f, def_path, symbol, w, t, j, c),
    ensures
        call_is_changed(
            edit::without_same(a, files),
            files[i].0,
            files[i].1,
            f,
            def_path,
            symbol,
            w,
            t,
            j,
            c,
        ),
{
    lemma_without_same(a, files, i);
}

/// Passing an argument changes a call as wished.
proof fn lemma_pass_outcome(
    def_path: Seq<char>,
    symbol: Seq<char>,
    arg: Seq<char>,
    within: Seq<Seq<char>>,
    optional: bool,
    files: Seq<(Seq<char>, Seq<char>)>,
    f: Family,
    i: int,
    t: Seq<NodeText>,
    j: int,
    args: int,
    c: ChangeText,
)
    requires
        table::ordered(table::keys(files)),
        changes::family(def_path) == Some(f),
        is_reaching_call(files, i, f, def_path, symbol, t, j, args),
        edit::falls_within(files[i].0, within),
        edit::wish_change(t, files[i].1, f, (WishText::Pass { arg }), args) == Some(c),
    ensures
        edit::pass_outcome(files, def_path, symbol, arg, within, optional) matches Some(r) ==> (
        r matches Ok(a) && table::ordered(table::keys(a.files)) && call_is_changed(
            a,
            files[i].0,
            files[i].1,
            f,
            def_path,
            symbol,
            (WishText::Pass { arg }),
            t,
            j,
            c,
        )),
{
    let w = WishText::Pass { arg };
    let start = edit::nothing_applied();
    assert(table::value(start.files, files[i].0) is None);
    if let Some(a) = edit::with_files(
        start,
        files,
        f,
        def_path,
        symbol,
        within,
        w,
        files.len(),
    ) {
        lemma_wish_changes_call(
            start,
            files,
            f,
            def_path,
            symbol,
            within,
            w,
            i,
            t,
            j,
            args,
            c,
            a,
        );
        assert(a.call_sites.len() > 0);
    }
}

/// Passing an argument reaches every call of every file it is asked for: each
/// call by a name bound to the symbol, in a file of the definition's language
/// whose path starts as asked, has the argument put in behind those it passes,
/// its line is listed, and nothing but such calls changes.
pub proof fn law_pass_arg_reaches_every_call(
    def_path: Seq<char>,
    symbol: Seq<char>,
    arg: Seq<char>,
    within: Seq<Seq<char>>,
    optional: bool,
    files: Seq<(Seq<char>, Seq<char>)>,
    f: Family,
    i: int,
    t: Seq<NodeText>,
    j: int,
    args: int,
) -> (c: ChangeText)
    requires
        table::ordered(table::keys(files)),
        changes::family(def_path) == Some(f),
        is_reaching_call(files, i, f, def_path, symbol, t, j, args),
        within.len() == 0 || exists|k: int|
            0 <= k < within.len() && text::has_prefix(files[i].0, #[trigger] within[k]),
    ensures
        goes_before_bracket(t, args, c),
        c.text == (if tree::named_kids(t, args).len() == 0 {
            arg
        } else {
            ", "@ + arg
        }),
        edit::work_outcome(
            (OpText::PassArg { path: def_path, symbol, arg, within, optional }),
            files,
        ) matches Some(r) ==> (r matches Ok(x) && call_is_changed(
            x,
            files[i].0,
            files[i].1,
            f,
            def_path,
            symbol,
            (WishText::Pass { arg }),
            t,
            j,
            c,
        )),
{
    law_a_passed_argument_goes_last(t, files[i].1, f, args, arg);
    let w = WishText::Pass { arg };
    let c = edit::wish_change(t, files[i].1, f, w, args)->0;
    lemma_pass_outcome(def_path, symbol, arg, within, optional, files, f, i, t, j, args, c);
    if let Some(Ok(a)) = edit::pass_outcome(files, def_path, symbol, arg, within, optional) {
        lemma_call_stays_changed(a, files, i, f, def_path, symbol, w, t, j, c);
    }
    c
}

/// Adding a parameter with an argument for its calls changes a call as wished.
proof fn lemma_add_outcome(
    def_path: Seq<char>,
    symbol: Seq<char>,
    name: Seq<char>,
    type_: Option<Seq<char>>,
    default: Option<Seq<char>>,
    arg: Seq<char>,
    files: Seq<(Seq<char>, Seq<char>)>,
    f: Family,
    i: int,
    t: Seq<NodeText>,
    j: int,
    args: int,
    c: ChangeText,
)
    requires
        table::ordered(table::keys(files)),
        changes::family(def_path) == Some(f),
        is_reaching_call(files, i, f, def_path, symbol, t, j, args),
        files[i].0 != def_path,
        edit::wish_change(t, files[i].1, f, (WishText::PassNamed { name, arg }), args) == Some(c),
    ensures
        edit::add_outcome(files, def_path, symbol, name, type_, default, Some(arg)) matches Some(
            Ok(a),
        ) ==> table::ordered(table::keys(a.files)) && call_is_changed(
            a,
            files[i].0,
            files[i].1,
            f,
            def_path,
            symbol,
            (WishText::PassNamed { name, arg }),
            t,
            j,
            c,
        ),
{
    let w = WishText::PassNamed { name, arg };
    if let Ok((_, ds, dt)) = edit::defining_file(files, def_path) {
        if let Some((_, list)) = changes::definition_from(dt, ds, f, symbol, "parameters"@, 0) {
            let d = changes::param_added(dt, list, changes::param_text(name, type_, default));
            if let Some(start) = edit::edited(def_path, ds, d) {
                lemma_edited_alone(def_path, ds, d);
                if let Some(a) = edit::with_files(
                    start,
                    files,
                    f,
                    def_path,
                    symbol,
                    Seq::empty(),
                    w,
                    files.len(),
                ) {
                    lemma_wish_changes_call(
                        start,
                        files,
                        f,
                        def_path,
                        symbol,
                        Seq::empty(),
                        w,
                        i,
                        t,
                        j,
                        args,
                        c,
                        a,
                    );
                }
            }
        }
    }
}

/// Adding a parameter with an argument for its calls reaches every call: each
/// call by a name bound to the symbol, in another file of the definition's
/// language, has the argument put in before its closing bracket, by the
/// parameter's name where the call passes others by name; its line is listed,
/// and nothing but such calls changes.
pub proof fn law_add_param_reaches_every_call(
    def_path: Seq<char>,
    symbol: Seq<char>,
    name: Seq<char>,
    type_: Option<Seq<char>>,
    default: Option<Seq<char>>,
    arg: Seq<char>,
    files: Seq<(Seq<char>, Seq<char>)>,
    f: Family,
    i: int,
    t: Seq<NodeText>,
    j: int,
    args: int,
) -> (c: ChangeText)
    requires
        table::ordered(table::keys(files)),
        changes::family(def_path) == Some(f),
        is_reaching_call(files, i, f, def_path, symbol, t, j, args),
        files[i].0 != def_path,
    ensures
        goes_before_bracket(t, args, c),
        tree::named_kids(t, args).len() == 0 ==> c.text == arg,
        tree::named_kids(t, args).len() > 0 && f == Family::Python && passes_by_name(t, args)
            ==> c.text == ", "@ + name + "="@ + arg,
        tree::named_kids(t, args).len() > 0 && !(f == Family::Python && passes_by_name(t, args))
            ==> c.text == ", "@ + arg,
        edit::work_outcome(
            (OpText::AddParam {
                path: def_path,
                symbol,
                name,
                type_,
                default,
                call_arg: Some(arg),
            }),
            files,
        ) matches Some(Ok(x)) ==> call_is_changed(
            x,
            files[i].0,
            files[i].1,
            f,
            def_path,
            symbol,
            (WishText::PassNamed { name, arg }),
            t,
            j,
            c,
        ),
{
    let s = files[i].1;
    let w = WishText::PassNamed { name, arg };
    if f == Family::Python && passes_by_name(t, args) {
        let k = choose|k: int|
            0 <= k < tree::named_kids(t, args).len() && (t[#[trigger] tree::named_kids(
                t,
                args,
            )[k]]).kind == "keyword_argument"@;
        law_a_new_argument_is_named_where_others_are(t, s, args, k, name, arg);
    } else {
        law_a_new_argument_goes_last(t, s, f, args, name, arg);
    }
    let c = edit::wish_change(t, s, f, w, args)->0;
    lemma_add_outcome(def_path, symbol, name, type_, default, arg, files, f, i, t, j, args, c);
    if let Some(Ok(a)) = edit::add_outcome(
        files,
        def_path,
        symbol,
        name,
        type_,
        default,
        Some(arg),
    ) {
        lemma_call_stays_changed(a, files, i, f, def_path, symbol, w, t, j, c);
    }
    c
}

/// The edits that were made stay, in front, while a wish runs.
pub proof fn lemma_layers_stay(
    a: WorkText,
    files: Seq<(Seq<char>, Seq<char>)>,
    f: Family,
    def_path: Seq<char>,
    symbol: Seq<char>,
    within: Seq<Seq<char>>,
    w: WishText,
    n: nat,
)
    ensures
        edit::with_files(a, files, f, def_path, symbol, within, w, n) matches Some(r)
            ==> a.layers.is_prefix_of(r.layers),
    decreases n,
{
    lemma_wish_runs(a, files, f, def_path, symbol, within, w, n);
    lemma_run_stays(
        a,
        files,
        |p: Seq<char>| changes::family(p) != Some(f) || !edit::falls_within(p, within),
        |p: Seq<char>, b: Seq<char>| edit::step(p, b, f, def_path, symbol, w),
        w,
        n,
    );
}

/// The edits that were made stay, in front, while steps are made.
proof fn lemma_run_stays(
    a: WorkText,
    files: Seq<(Seq<char>, Seq<char>)>,
    passed: spec_fn(Seq<char>) -> bool,
    pick: spec_fn(Seq<char>, Seq<char>) -> Option<StepText>,
    w: WishText,
    n: nat,
)
    ensures
        run_upto(a, files, passed, pick, w, n) matches Some(r) ==> a.layers.is_prefix_of(r.layers),
    decreases n,
{
    if n > 0 {
        lemma_run_stays(a, files, passed, pick, w, (n - 1) as nat);
    }
}

/// Removing a parameter changes a call as wished.
proof fn lemma_remove_outcome(
    def_path: Seq<char>,
    symbol: Seq<char>,
    name: Seq<char>,
    files: Seq<(Seq<char>, Seq<char>)>,
    f: Family,
    i: int,
    t: Seq<NodeText>,
    j: int,
    args: int,
    ds: Seq<char>,
    dt: Seq<NodeText>,
    list: int,
    position: nat,
    c: ChangeText,
)
    requires
        table::ordered(table::keys(files)),
        changes::family(def_path) == Some(f),
        is_reaching_call(files, i, f, def_path, symbol, t, j, args),
        files[i].0 != def_path,
        table::value(files, def_path) == Some(ds),
        changes::tree_of(def_path, ds) == Some(dt),
        changes::param_from(dt, ds, f, symbol, name, 0) == Some((list, position)),
        edit::wish_change(t, files[i].1, f, (WishText::Take { name, position }), args) == Some(c),
    ensures
        edit::remove_outcome(files, def_path, symbol, name) matches Some(r) ==> (r matches Ok(a)
            && table::ordered(table::keys(a.files)) && a.layers.len() > 0 && a.layers[0].path
            == def_path && a.layers[0].changes == changes::ranked(
            seq![
                changes::removal(
                    dt,
                    ds,
                    list,
                    tree::named_kids(dt, list)[position as int],
                ),
            ],
        ) && call_is_changed(
            a,
            files[i].0,
            files[i].1,
            f,
            def_path,
            symbol,
            (WishText::Take { name, position }),
            t,
            j,
            c,
        )),
{
    let w = WishText::Take { name, position };
    let d = changes::removal(dt, ds, list, tree::named_kids(dt, list)[position as int]);
    if let Some(start) = edit::edited(def_path, ds, d) {
        lemma_edited_alone(def_path, ds, d);
        if let Some(a) = edit::with_files(
            start,
            files,
            f,
            def_path,
            symbol,
            Seq::empty(),
            w,
            files.len(),
        ) {
            lemma_wish_changes_call(
                start,
                files,
                f,
                def_path,
                symbol,
                Seq::empty(),
                w,
                i,
                t,
                j,
                args,
                c,
                a,
            );
        }
    }
}

/// Removing a parameter takes it out of the definition, and the argument for
/// it out of every call by a name bound to the symbol in another file of the
/// definition's language that passes one; the call's line is listed, and
/// nothing but such calls changes.
pub proof fn law_remove_param_reaches_every_call(
    def_path: Seq<char>,
    symbol: Seq<char>,
    name: Seq<char>,
    files: Seq<(Seq<char>, Seq<char>)>,
    f: Family,
    i: int,
    t: Seq<NodeText>,
    j: int,
    args: int,
    ds: Seq<char>,
    dt: Seq<NodeText>,
    list: int,
    position: nat,
    victim: int,
)
    requires
        table::ordered(table::keys(files)),
        changes::family(def_path) == Some(f),
        is_reaching_call(files, i, f, def_path, symbol, t, j, args),
        files[i].0 != def_path,
        table::value(files, def_path) == Some(ds),
        changes::tree_of(def_path, ds) == Some(dt),
        changes::param_from(dt, ds, f, symbol, name, 0) == Some((list, position)),
        edit::argument_for(t, files[i].1, args, name, position) == Some(victim),
    ensures
        edit::work_outcome((OpText::RemoveParam { path: def_path, symbol, name }), files) matches Some(
            r,
        ) ==> (r matches Ok(x) && x.layers.len() > 0 && x.layers[0].path == def_path
            && x.layers[0].changes == changes::ranked(
            seq![
                changes::removal(
                    dt,
                    ds,
                    list,
                    tree::named_kids(dt, list)[position as int],
                ),
            ],
        ) && call_is_changed(
            x,
            files[i].0,
            files[i].1,
            f,
            def_path,
            symbol,
            (WishText::Take { name, position }),
            t,
            j,
            changes::removal(t, files[i].1, args, victim),
        )),
{
    let w = WishText::Take { name, position };
    let c = changes::removal(t, files[i].1, args, victim);
    assert(edit::wish_change(t, files[i].1, f, w, args) == Some(c));
    lemma_remove_outcome(
        def_path,
        symbol,
        name,
        files,
        f,
        i,
        t,
        j,
        args,
        ds,
        dt,
        list,
        position,
        c,
    );
    if let Some(Ok(a)) = edit::remove_outcome(files, def_path, symbol, name) {
        lemma_call_stays_changed(a, files, i, f, def_path, symbol, w, t, j, c);
    }
}

/// A call that reaches the symbol is told of.
proof fn lemma_call_is_told(
    path: Seq<char>,
    s: Seq<char>,
    f: Family,
    def_path: Seq<char>,
    symbol: Seq<char>,
    t: Seq<NodeText>,
    j: int,
    args: int,
)
    requires
        changes::tree_of(path, s) == Some(t),
        0 <= j < t.len(),
        edit::reaching_at(t, s, f, symbol, changes::bound_in(path, s, def_path, symbol), j) == Some(
            args,
        ),
    ensures
        edit::step(path, s, f, def_path, symbol, WishText::Tell) matches Some(x)
            && x.lines.contains(t[j].start_row + 1) && x.content is None,
{
    let w = WishText::Tell;
    let b = changes::bound_in(path, s, def_path, symbol);
    let calls = edit::reaching_upto(t, s, f, symbol, b, t.len());
    let m = lemma_call_listed(t, s, f, symbol, b, t.len(), j, args);
    lemma_line_listed(t, s, f, w, calls, calls.len(), m);
    lemma_told_changes(t, s, f, calls, calls.len());
    law_no_other_call_reaches(t, s, f, symbol, b, j, args);
    let name = choose|name: Seq<char>|
        #[trigger] is_call_of(t, s, f, j, name, args) && (text::listed(b.direct, name)
            || exists|module: Seq<char>|
            name == module + seq!['.'] + symbol && #[trigger] text::listed(b.modules, module));
    assert(b.direct.len() > 0 || b.modules.len() > 0);
}

/// Adding a parameter without an argument for its calls leaves each call by a
/// name bound to the symbol in another file alone, and lists its line as left.
pub proof fn law_calls_left_alone_are_listed(
    def_path: Seq<char>,
    symbol: Seq<char>,
    name: Seq<char>,
    type_: Option<Seq<char>>,
    default: Option<Seq<char>>,
    files: Seq<(Seq<char>, Seq<char>)>,
    f: Family,
    i: int,
    t: Seq<NodeText>,
    j: int,
    args: int,
)
    requires
        table::ordered(table::keys(files)),
        changes::family(def_path) == Some(f),
        is_reaching_call(files, i, f, def_path, symbol, t, j, args),
        files[i].0 != def_path,
    ensures
        edit::add_outcome(files, def_path, symbol, name, type_, default, None) matches Some(Ok(a))
            ==> crate::sites::spots_of(a.left).contains((files[i].0, t[j].start_row + 1))
            && a.notes.len() > 0,
{
    let w = WishText::Tell;
    lemma_call_is_told(files[i].0, files[i].1, f, def_path, symbol, t, j, args);
    if let Ok((_, ds, dt)) = edit::defining_file(files, def_path) {
        if let Some((_, list)) = changes::definition_from(dt, ds, f, symbol, "parameters"@, 0) {
            let d = changes::param_added(dt, list, changes::param_text(name, type_, default));
            if let Some(start) = edit::edited(def_path, ds, d) {
                lemma_edited_alone(def_path, ds, d);
                if let Some(a) = edit::with_files(
                    start,
                    files,
                    f,
                    def_path,
                    symbol,
                    Seq::empty(),
                    w,
                    files.len(),
                ) {
                    let x = lemma_file_is_done(
                        start,
                        files,
                        f,
                        def_path,
                        symbol,
                        Seq::empty(),
                        w,
                        i,
                        a,
                    );
                    assert(x.lines.contains(t[j].start_row + 1));
                    assert(crate::sites::spots_of(a.left).contains(
                        (files[i].0, t[j].start_row + 1),
                    ));
                    assert(a.left.len() > 0);
                }
            }
        }
    }
}

} // verus!

//! Typed edit ops applied to source: the executable half of the intent
//! algebra (`rename`, `add_param`, `remove_param`, `pass_arg`,
//! `replace_body`).
//!
//! An op lands on every call site the parser can see instead of the ones the
//! model remembered. Python and the TypeScript family for now; other grammars
//! are refused, not guessed.
//!
//! Edits are computed as byte ranges from the syntax tree and applied from
//! the end of each file backwards, so no offset moves under a later edit. Two
//! ops that look at different files commute, and a call that one op leaves
//! alone is followed through what later ops do to its file.
use vstd::prelude::*;
use crate::ops;
use crate::json;
use crate::bodies;
use crate::table;
use crate::tree;
use crate::text;
use crate::changes;
use crate::sites;
use crate::changes::{Bound, Change, ChangeText, Family};
use crate::json::{Doc, Json};
use crate::ops::{Op, OpText};
use crate::sites::{Layer, LayerText, Site, SiteText};
use crate::tree::{NodeText, Source, SyntaxTree};

verus! {

// ------------------------------------------------------------------- calls

/// The arguments of the call at a node, where it is one that reaches the
/// symbol.
pub open spec fn reaching_at(
    t: Seq<NodeText>,
    s: Seq<char>,
    f: Family,
    symbol: Seq<char>,
    b: Bound,
    j: int,
) -> Option<int> {
    match tree::field(t, j, "function"@) {
        Some(func) => if changes::calls_function(t[j].kind, f) && changes::calls_symbol(
            tree::node_text(s, t[func]),
            symbol,
            b,
        ) {
            tree::field(t, j, "arguments"@)
        } else {
            None
        },
        None => None,
    }
}

/// The calls before place `n` that reach the symbol: (call, arguments).
pub open spec fn reaching_upto(
    t: Seq<NodeText>,
    s: Seq<char>,
    f: Family,
    symbol: Seq<char>,
    b: Bound,
    n: nat,
) -> Seq<(int, int)>
    decreases n,
{
    if n == 0 {
        Seq::empty()
    } else {
        let rest = reaching_upto(t, s, f, symbol, b, (n - 1) as nat);
        match reaching_at(t, s, f, symbol, b, n - 1) {
            Some(args) => rest.push((n - 1, args)),
            None => rest,
        }
    }
}

/// Pairs of places, as numbers without a bound.
pub open spec fn int_pairs(v: Seq<(usize, usize)>) -> Seq<(int, int)> {
    Seq::new(v.len(), |i: int| (v[i].0 as int, v[i].1 as int))
}

/// The calls of a file that reach the symbol: (call, arguments).
pub fn reaching_calls(
    t: &SyntaxTree,
    src: &Source,
    f: Family,
    symbol: &str,
    direct: &Vec<String>,
    modules: &Vec<String>,
) -> (r: Vec<(usize, usize)>)
    requires
        src.valid(),
    ensures
        int_pairs(r@) == reaching_upto(
            t@,
            src@,
            f,
            symbol@,
            (Bound { direct: text::texts(direct@), modules: text::texts(modules@) }),
            t@.len(),
        ),
        forall|a: int|
            0 <= a < r@.len() ==> (#[trigger] r@[a]).0 < t@.len() && r@[a].1 < t@.len(),
{
    let ghost b = Bound { direct: text::texts(direct@), modules: text::texts(modules@) };
    let mut out: Vec<(usize, usize)> = Vec::new();
    let mut j: usize = 0;
    assert(int_pairs(out@) =~= Seq::<(int, int)>::empty());
    assert(t@.len() == t.nodes@.len());
    while j < t.nodes.len()
        invariant
            j <= t.nodes.len() == t@.len(),
            src.valid(),
            b == (Bound { direct: text::texts(direct@), modules: text::texts(modules@) }),
            int_pairs(out@) == reaching_upto(t@, src@, f, symbol@, b, j as nat),
            forall|a: int|
                0 <= a < out@.len() ==> (#[trigger] out@[a]).0 < t@.len() && out@[a].1 < t@.len(),
        decreases t.nodes.len() - j,
    {
        if changes::is_call(t.nodes[j].kind, f) {
            match t.field(j, "function") {
                Some(func) => {
                    let name = t.text(func, src);
                    if changes::is_call_of(name.as_str(), symbol, direct, modules) {
                        match t.field(j, "arguments") {
                            Some(args) => {
                                let ghost before = int_pairs(out@);
                                out.push((j, args));
                                assert(int_pairs(out@) =~= before.push((j as int, args as int)));
                            },
                            None => {},
                        }
                    }
                },
                None => {},
            }
        }
        j += 1;
    }
    out
}

// ------------------------------------------------------------------ wishes

/// What is to become of the calls that reach a symbol.
pub enum Wish {
    /// they are listed
    Tell,
    /// they pass one more argument
    Pass { arg: String },
    /// they pass one more argument, by name where they pass others so
    PassNamed { name: String, arg: String },
    /// they pass one argument less: the one of the name, or at the place
    Take { name: String, position: usize },
}

/// What a wish says.
pub enum WishText {
    Tell,
    Pass { arg: Seq<char> },
    PassNamed { name: Seq<char>, arg: Seq<char> },
    Take { name: Seq<char>, position: nat },
}

impl View for Wish {
    type V = WishText;

    open spec fn view(&self) -> WishText {
        match *self {
            Wish::Tell => WishText::Tell,
            Wish::Pass { arg } => WishText::Pass { arg: arg@ },
            Wish::PassNamed { name, arg } => WishText::PassNamed { name: name@, arg: arg@ },
            Wish::Take { name, position } => WishText::Take {
                name: name@,
                position: position as nat,
            },
        }
    }
}

/// Does the argument have the name?
pub open spec fn is_keyword(t: Seq<NodeText>, s: Seq<char>, i: int, name: Seq<char>) -> bool {
    t[i].kind == "keyword_argument"@ && tree::opt_node_text(s, t, tree::field(t, i, "name"@)) == Some(name)
}

/// The first of the arguments, from the `k`th on, that has the name.
pub open spec fn keyword_from(
    t: Seq<NodeText>,
    s: Seq<char>,
    list: Seq<int>,
    name: Seq<char>,
    k: nat,
) -> Option<int>
    decreases list.len() - k,
{
    if k >= list.len() {
        None
    } else if is_keyword(t, s, list[k as int], name) {
        Some(list[k as int])
    } else {
        keyword_from(t, s, list, name, k + 1)
    }
}

/// The `n`th of the arguments, from the `k`th on, that has no name.
pub open spec fn nameless_from(t: Seq<NodeText>, list: Seq<int>, n: nat, k: nat) -> Option<int>
    decreases list.len() - k,
{
    if k >= list.len() {
        None
    } else if t[list[k as int]].kind == "keyword_argument"@ {
        nameless_from(t, list, n, k + 1)
    } else if n == 0 {
        Some(list[k as int])
    } else {
        nameless_from(t, list, (n - 1) as nat, k + 1)
    }
}

/// The argument for a parameter: the one of its name, or else the one at its
/// place.
pub open spec fn argument_for(
    t: Seq<NodeText>,
    s: Seq<char>,
    args: int,
    name: Seq<char>,
    position: nat,
) -> Option<int> {
    let list = tree::named_kids(t, args);
    tree::either(keyword_from(t, s, list, name, 0), nameless_from(t, list, position, 0))
}

/// Does one of the arguments have a name?
pub open spec fn has_keyword(t: Seq<NodeText>, args: int) -> bool {
    tree::first_kid(t, args, |k: Seq<char>| k == "keyword_argument"@) is Some
}

/// The change that a wish makes to a call, given its arguments.
pub open spec fn wish_change(t: Seq<NodeText>, s: Seq<char>, f: Family, w: WishText, args: int) -> Option<
    ChangeText,
> {
    match w {
        WishText::Tell => None,
        WishText::Pass { arg } => Some(changes::appended(t, args, arg)),
        WishText::PassNamed { name, arg } => Some(
            changes::appended(
                t,
                args,
                if f == Family::Python && has_keyword(t, args) {
                    name + "="@ + arg
                } else {
                    arg
                },
            ),
        ),
        WishText::Take { name, position } => match argument_for(t, s, args, name, position) {
            Some(victim) => Some(changes::removal(t, s, args, victim)),
            None => None,
        },
    }
}

/// The changes that a wish makes to the first `n` calls.
pub open spec fn wish_changes(
    t: Seq<NodeText>,
    s: Seq<char>,
    f: Family,
    w: WishText,
    calls: Seq<(int, int)>,
    n: nat,
) -> Seq<ChangeText>
    decreases n,
{
    if n == 0 {
        Seq::empty()
    } else {
        let rest = wish_changes(t, s, f, w, calls, (n - 1) as nat);
        match wish_change(t, s, f, w, calls[n - 1].1) {
            Some(c) => rest.push(c),
            None => rest,
        }
    }
}

/// The lines of those of the first `n` calls that a wish changes, or that it
/// only tells of.
pub open spec fn wish_lines(
    t: Seq<NodeText>,
    s: Seq<char>,
    f: Family,
    w: WishText,
    calls: Seq<(int, int)>,
    n: nat,
) -> Seq<nat>
    decreases n,
{
    if n == 0 {
        Seq::empty()
    } else {
        let rest = wish_lines(t, s, f, w, calls, (n - 1) as nat);
        if w is Tell || wish_change(t, s, f, w, calls[n - 1].1) is Some {
            rest.push(t[calls[n - 1].0].start_row + 1)
        } else {
            rest
        }
    }
}

/// The character that the arguments of a call start at, by which the call is
/// known; the end of the text where they start within one.
pub open spec fn call_place(t: Seq<NodeText>, s: Seq<char>, args: int) -> nat {
    match text::char_pos(s, t[args].start) {
        Some(p) => p,
        None => s.len(),
    }
}

/// The places of those of the first `n` calls that a wish changes, or that it
/// only tells of.
pub open spec fn wish_places(
    t: Seq<NodeText>,
    s: Seq<char>,
    f: Family,
    w: WishText,
    calls: Seq<(int, int)>,
    n: nat,
) -> Seq<nat>
    decreases n,
{
    if n == 0 {
        Seq::empty()
    } else {
        let rest = wish_places(t, s, f, w, calls, (n - 1) as nat);
        if w is Tell || wish_change(t, s, f, w, calls[n - 1].1) is Some {
            rest.push(call_place(t, s, calls[n - 1].1))
        } else {
            rest
        }
    }
}

/// Is this the kind of an argument with a name?
fn is_keyword_kind(k: &str) -> (r: bool)
    ensures
        r == (k@ == "keyword_argument"@),
{
    text::same(k, "keyword_argument")
}

/// The first of the arguments that has the name.
fn find_keyword(t: &SyntaxTree, src: &Source, args: usize, name: &str) -> (r: Option<usize>)
    requires
        args < t@.len(),
        src.valid(),
    ensures
        tree::opt_int(r) == keyword_from(t@, src@, tree::named_kids(t@, args as int), name@, 0),
        r is Some ==> r->0 < t@.len(),
{
    let list = t.named_children(args);
    let ghost all = tree::named_kids(t@, args as int);
    let mut k: usize = 0;
    assert(all.len() == list@.len());
    while k < list.len()
        invariant
            k <= list.len() == all.len(),
            src.valid(),
            tree::ints(list@) == all,
            all == tree::named_kids(t@, args as int),
            forall|a: int| 0 <= a < list@.len() ==> args < #[trigger] list@[a] < t@.len(),
            keyword_from(t@, src@, all, name@, 0) == keyword_from(
                t@,
                src@,
                all,
                name@,
                k as nat,
            ),
        decreases list.len() - k,
    {
        assert(all[k as int] == list@[k as int]);
        if is_keyword_kind(t.nodes[list[k]].kind) {
            match t.field(list[k], "name") {
                Some(at) => {
                    let found = t.text(at, src);
                    if text::same(found.as_str(), name) {
                        return Some(list[k]);
                    }
                },
                None => {},
            }
        }
        k += 1;
    }
    None
}

/// The argument at a place among those that have no name.
fn find_nameless(t: &SyntaxTree, args: usize, position: usize) -> (r: Option<usize>)
    requires
        args < t@.len(),
    ensures
        tree::opt_int(r) == nameless_from(t@, tree::named_kids(t@, args as int), position as nat, 0),
        r is Some ==> r->0 < t@.len(),
{
    let list = t.named_children(args);
    let ghost all = tree::named_kids(t@, args as int);
    let mut left: usize = position;
    let mut k: usize = 0;
    assert(all.len() == list@.len());
    while k < list.len()
        invariant
            k <= list.len() == all.len(),
            tree::ints(list@) == all,
            all == tree::named_kids(t@, args as int),
            forall|a: int| 0 <= a < list@.len() ==> args < #[trigger] list@[a] < t@.len(),
            nameless_from(t@, all, position as nat, 0) == nameless_from(
                t@,
                all,
                left as nat,
                k as nat,
            ),
        decreases list.len() - k,
    {
        assert(all[k as int] == list@[k as int]);
        if !is_keyword_kind(t.nodes[list[k]].kind) {
            if left == 0 {
                return Some(list[k]);
            }
            left -= 1;
        }
        k += 1;
    }
    None
}

/// What an optional change says.
pub open spec fn opt_change(o: Option<Change>) -> Option<ChangeText> {
    match o {
        Some(c) => Some(c@),
        None => None,
    }
}

/// The change that a wish makes to a call, given its arguments.
pub fn change_call(t: &SyntaxTree, src: &Source, f: Family, wish: &Wish, args: usize) -> (r: Option<
    Change,
>)
    requires
        args < t@.len(),
        src.valid(),
    ensures
        opt_change(r) == wish_change(t@, src@, f, wish@, args as int),
{
    match wish {
        Wish::Tell => None,
        Wish::Pass { arg } => Some(changes::append_item(t, args, arg.as_str())),
        Wish::PassNamed { name, arg } => {
            let keyworded = match f {
                Family::Python => t.first_kid(
                    args,
                    is_keyword_kind,
                    Ghost(|k: Seq<char>| k == "keyword_argument"@),
                ).is_some(),
                Family::Ts => false,
            };
            if keyworded {
                let item = text::cat3(name.as_str(), "=", arg.as_str());
                Some(changes::append_item(t, args, item.as_str()))
            } else {
                Some(changes::append_item(t, args, arg.as_str()))
            }
        },
        Wish::Take { name, position } => {
            let victim = match find_keyword(t, src, args, name.as_str()) {
                Some(k) => Some(k),
                None => find_nameless(t, args, *position),
            };
            match victim {
                Some(victim) => Some(changes::removal_range(t, src, args, victim)),
                None => None,
            }
        },
    }
}

/// Lines, as numbers without a bound.
pub open spec fn nats(v: Seq<u64>) -> Seq<nat> {
    Seq::new(v.len(), |i: int| v[i] as nat)
}

/// The changes that a wish makes to the calls of a file, and the lines and the
/// places of those that it changes or tells of.
pub fn change_calls(
    t: &SyntaxTree,
    src: &Source,
    f: Family,
    wish: &Wish,
    calls: &Vec<(usize, usize)>,
) -> (r: (Vec<Change>, Vec<u64>, Vec<usize>))
    requires
        src.valid(),
        forall|a: int|
            0 <= a < calls@.len() ==> (#[trigger] calls@[a]).0 < t@.len() && calls@[a].1 < t@.len(),
    ensures
        changes::change_texts(r.0@) == wish_changes(
            t@,
            src@,
            f,
            wish@,
            int_pairs(calls@),
            calls@.len(),
        ),
        nats(r.1@) == wish_lines(t@, src@, f, wish@, int_pairs(calls@), calls@.len()),
        sites::places(r.2@) == wish_places(t@, src@, f, wish@, int_pairs(calls@), calls@.len()),
{
    let ghost all = int_pairs(calls@);
    let mut changes: Vec<Change> = Vec::new();
    let mut lines: Vec<u64> = Vec::new();
    let mut found: Vec<usize> = Vec::new();
    let mut k: usize = 0;
    assert(changes::change_texts(changes@) =~= Seq::<ChangeText>::empty());
    assert(nats(lines@) =~= Seq::<nat>::empty());
    assert(sites::places(found@) =~= Seq::<nat>::empty());
    assert(src@.len() == src.chars@.len());
    while k < calls.len()
        invariant
            k <= calls.len(),
            src.valid(),
            all == int_pairs(calls@),
            forall|a: int|
                0 <= a < calls@.len() ==> (#[trigger] calls@[a]).0 < t@.len() && calls@[a].1
                    < t@.len(),
            changes::change_texts(changes@) == wish_changes(t@, src@, f, wish@, all, k as nat),
            nats(lines@) == wish_lines(t@, src@, f, wish@, all, k as nat),
            sites::places(found@) == wish_places(t@, src@, f, wish@, all, k as nat),
            src@.len() == src.chars@.len(),
        decreases calls.len() - k,
    {
        assert(all[k as int] == (calls@[k as int].0 as int, calls@[k as int].1 as int));
        let line: u64 = t.nodes[calls[k].0].start_row as u64 + 1;
        let tell = match wish {
            Wish::Tell => true,
            _ => false,
        };
        let made = change_call(t, src, f, wish, calls[k].1);
        if tell || made.is_some() {
            let ghost before = nats(lines@);
            lines.push(line);
            assert(nats(lines@) =~= before.push(line as nat));
            let place: usize = match src.place(t.nodes[calls[k].1].start) {
                Some(p) => p,
                None => src.chars.len(),
            };
            let ghost held = sites::places(found@);
            found.push(place);
            assert(sites::places(found@) =~= held.push(place as nat));
        }
        match made {
            Some(c) => {
                let ghost before = changes::change_texts(changes@);
                let ghost said = c@;
                changes.push(c);
                assert(changes::change_texts(changes@) =~= before.push(said));
            },
            None => {},
        }
        k += 1;
    }
    (changes, lines, found)
}

// ---------------------------------------------------------------- one file

/// What a wish makes of one file: its new content where it changes, and the
/// lines of the calls; the changes that are made, and the places of the calls.
pub struct StepText {
    pub content: Option<Seq<char>>,
    pub lines: Seq<nat>,
    pub changes: Seq<ChangeText>,
    pub places: Seq<nat>,
}

/// What a wish makes of one file.
pub struct Step {
    pub content: Option<String>,
    pub lines: Vec<u64>,
    pub changes: Vec<Change>,
    pub places: Vec<usize>,
}

impl View for Step {
    type V = StepText;

    open spec fn view(&self) -> StepText {
        StepText {
            content: text::opt_text(self.content),
            lines: nats(self.lines@),
            changes: changes::change_texts(self.changes@),
            places: sites::places(self.places@),
        }
    }
}

/// Nothing is made of the file.
pub open spec fn no_step() -> StepText {
    StepText {
        content: None,
        lines: Seq::empty(),
        changes: Seq::empty(),
        places: Seq::empty(),
    }
}

/// What a wish makes of a file, given its tree and its bindings.
pub open spec fn step_in(
    t: Seq<NodeText>,
    s: Seq<char>,
    f: Family,
    symbol: Seq<char>,
    b: Bound,
    w: WishText,
) -> Option<StepText> {
    let calls = reaching_upto(t, s, f, symbol, b, t.len());
    let changes = wish_changes(t, s, f, w, calls, calls.len());
    let lines = wish_lines(t, s, f, w, calls, calls.len());
    let places = wish_places(t, s, f, w, calls, calls.len());
    if changes.len() == 0 {
        Some(StepText { lines, places, ..no_step() })
    } else {
        match changes::spliced(s, changes) {
            Some(content) => Some(
                StepText {
                    content: Some(content),
                    lines,
                    changes: changes::ranked(changes),
                    places,
                },
            ),
            None => None,
        }
    }
}

/// What a wish makes of a file. A file that cannot be parsed, or that cannot
/// reach the symbol at all, stays as it is.
pub open spec fn step(
    path: Seq<char>,
    s: Seq<char>,
    f: Family,
    def_path: Seq<char>,
    symbol: Seq<char>,
    w: WishText,
) -> Option<StepText> {
    let b = changes::bound_in(path, s, def_path, symbol);
    match changes::tree_of(path, s) {
        Some(t) => if b.direct.len() == 0 && b.modules.len() == 0 {
            Some(no_step())
        } else {
            step_in(t, s, f, symbol, b, w)
        },
        None => Some(no_step()),
    }
}

/// What a step said.
pub open spec fn step_text(o: Option<Step>) -> Option<StepText> {
    match o {
        Some(x) => Some(x@),
        None => None,
    }
}

/// What a wish makes of a file, given its tree and its bindings. Nothing comes
/// back where the changes do not fit together.
pub fn step_from(
    t: &SyntaxTree,
    content: &str,
    f: Family,
    symbol: &str,
    direct: &Vec<String>,
    modules: &Vec<String>,
    wish: &Wish,
) -> (r: Option<Step>)
    ensures
        step_text(r) == step_in(
            t@,
            content@,
            f,
            symbol@,
            (Bound { direct: text::texts(direct@), modules: text::texts(modules@) }),
            wish@,
        ),
{
    let src = Source::new(content);
    let calls = reaching_calls(t, &src, f, symbol, direct, modules);
    assert(int_pairs(calls@).len() == calls@.len());
    let (changes, lines, places) = change_calls(t, &src, f, wish, &calls);
    assert(changes::change_texts(changes@).len() == changes@.len());
    if changes.len() == 0 {
        assert(changes::change_texts(changes@) =~= Seq::<ChangeText>::empty());
        Some(Step { content: None, lines, changes, places })
    } else {
        let changes = changes::rank(changes);
        match changes::remake(content, &changes) {
            Some(new) => Some(Step { content: Some(new), lines, changes, places }),
            None => None,
        }
    }
}

/// What a wish makes of a file.
fn step_of(path: &str, content: &str, f: Family, def_path: &str, symbol: &str, wish: &Wish) -> (r:
    Option<Step>)
    ensures
        step_text(r) == step(path@, content@, f, def_path@, symbol@, wish@),
{
    let none = Step { content: None, lines: Vec::new(), changes: Vec::new(), places: Vec::new() };
    assert(nats(none.lines@) =~= Seq::<nat>::empty());
    assert(sites::places(none.places@) =~= Seq::<nat>::empty());
    assert(changes::change_texts(none.changes@) =~= Seq::<ChangeText>::empty());
    match changes::tree_in(path, content) {
        None => Some(none),
        Some(t) => {
            let (direct, modules) = changes::bindings(path, content, def_path, symbol);
            assert(text::texts(direct@).len() == direct@.len());
            assert(text::texts(modules@).len() == modules@.len());
            if direct.len() == 0 && modules.len() == 0 {
                Some(none)
            } else {
                step_from(&t, content, f, symbol, &direct, &modules, wish)
            }
        },
    }
}

// ---------------------------------------------------------------- all files

/// What applying ops came to.
#[derive(Debug)]
pub struct Applied {
    /// path and new content, in the order of the paths, only for files that
    /// an op changed
    pub files: Vec<(String, String)>,
    pub call_sites: Vec<(String, u64)>,
    pub unchanged_call_sites: Vec<(String, u64)>,
    pub notes: Vec<String>,
}

/// What applying ops came to.
pub struct AppliedText {
    pub files: Seq<(Seq<char>, Seq<char>)>,
    pub call_sites: Seq<(Seq<char>, nat)>,
    pub unchanged_call_sites: Seq<(Seq<char>, nat)>,
    pub notes: Seq<Seq<char>>,
}

/// The texts of a list of places in files.
pub open spec fn spots(v: Seq<(String, u64)>) -> Seq<(Seq<char>, nat)> {
    Seq::new(v.len(), |i: int| (v[i].0@, v[i].1 as nat))
}

impl View for Applied {
    type V = AppliedText;

    open spec fn view(&self) -> AppliedText {
        AppliedText {
            files: text::text_pairs(self.files@),
            call_sites: spots(self.call_sites@),
            unchanged_call_sites: spots(self.unchanged_call_sites@),
            notes: text::texts(self.notes@),
        }
    }
}

/// What ops came to while they are applied: the calls left alone with their
/// places, and every edit that was made.
pub struct Work {
    pub files: Vec<(String, String)>,
    pub call_sites: Vec<(String, u64)>,
    pub left: Vec<Site>,
    pub notes: Vec<String>,
    pub layers: Vec<Layer>,
}

/// What ops came to while they are applied.
pub struct WorkText {
    pub files: Seq<(Seq<char>, Seq<char>)>,
    pub call_sites: Seq<(Seq<char>, nat)>,
    pub left: Seq<SiteText>,
    pub notes: Seq<Seq<char>>,
    pub layers: Seq<LayerText>,
}

impl View for Work {
    type V = WorkText;

    open spec fn view(&self) -> WorkText {
        WorkText {
            files: text::text_pairs(self.files@),
            call_sites: spots(self.call_sites@),
            left: sites::site_texts(self.left@),
            notes: text::texts(self.notes@),
            layers: sites::layer_texts(self.layers@),
        }
    }
}

/// Nothing was applied.
pub open spec fn nothing_applied() -> WorkText {
    WorkText {
        files: Seq::empty(),
        call_sites: Seq::empty(),
        left: Seq::empty(),
        notes: Seq::empty(),
        layers: Seq::empty(),
    }
}

/// What ops came to, as it is told.
pub open spec fn told(w: WorkText) -> AppliedText {
    AppliedText {
        files: w.files,
        call_sites: w.call_sites,
        unchanged_call_sites: sites::spots_of(w.left),
        notes: w.notes,
    }
}

/// Calls of one file, with their places.
pub open spec fn sites_in(path: Seq<char>, lines: Seq<nat>, places: Seq<nat>) -> Seq<SiteText> {
    Seq::new(lines.len(), |i: int| SiteText { path, line: lines[i], place: places[i] })
}

/// An edit of one file that changes no calls.
pub open spec fn edit_of(path: Seq<char>, content: Seq<char>, v: Seq<ChangeText>) -> LayerText {
    LayerText { path, content, changes: changes::ranked(v), touched: Seq::empty() }
}

/// Places in one file.
pub open spec fn spots_in(path: Seq<char>, lines: Seq<nat>) -> Seq<(Seq<char>, nat)> {
    Seq::new(lines.len(), |i: int| (path, lines[i]))
}

/// Does the path start with one of the prefixes, where there are any?
pub open spec fn falls_within(path: Seq<char>, within: Seq<Seq<char>>) -> bool {
    within.len() == 0 || exists|i: int|
        0 <= i < within.len() && text::has_prefix(path, #[trigger] within[i])
}

/// What was applied, with one more step on a file that held the content.
pub open spec fn with_step(
    a: WorkText,
    path: Seq<char>,
    base: Seq<char>,
    w: WishText,
    x: StepText,
) -> WorkText {
    WorkText {
        files: match x.content {
            Some(content) => table::put(a.files, path, content),
            None => a.files,
        },
        call_sites: if w is Tell {
            a.call_sites
        } else {
            a.call_sites + spots_in(path, x.lines)
        },
        left: if w is Tell {
            a.left + sites_in(path, x.lines, x.places)
        } else {
            a.left
        },
        notes: a.notes,
        layers: if x.content is Some {
            a.layers.push(
                LayerText { path, content: base, changes: x.changes, touched: x.places },
            )
        } else {
            a.layers
        },
    }
}

/// What was applied, and what a wish makes of one file more: of its new
/// content where it has one.
pub open spec fn with_file(
    a: WorkText,
    path: Seq<char>,
    content: Seq<char>,
    f: Family,
    def_path: Seq<char>,
    symbol: Seq<char>,
    within: Seq<Seq<char>>,
    w: WishText,
) -> Option<WorkText> {
    if changes::family(path) != Some(f) || !falls_within(path, within) {
        Some(a)
    } else {
        let base = match table::value(a.files, path) {
            Some(new) => new,
            None => content,
        };
        match step(path, base, f, def_path, symbol, w) {
            Some(x) => Some(with_step(a, path, base, w, x)),
            None => None,
        }
    }
}

/// What was applied, and what a wish makes of the first `n` files.
pub open spec fn with_files(
    a: WorkText,
    files: Seq<(Seq<char>, Seq<char>)>,
    f: Family,
    def_path: Seq<char>,
    symbol: Seq<char>,
    within: Seq<Seq<char>>,
    w: WishText,
    n: nat,
) -> Option<WorkText>
    decreases n,
{
    if n == 0 {
        Some(a)
    } else {
        match with_files(a, files, f, def_path, symbol, within, w, (n - 1) as nat) {
            Some(rest) => with_file(
                rest,
                files[n - 1].0,
                files[n - 1].1,
                f,
                def_path,
                symbol,
                within,
                w,
            ),
            None => None,
        }
    }
}

/// What applying came to, where it came to something.
pub open spec fn opt_applied(o: Option<Work>) -> Option<WorkText> {
    match o {
        Some(a) => Some(a@),
        None => None,
    }
}

/// Once the changes of a file do not fit together, the rest does not matter.
proof fn lemma_files_fail(
    a: WorkText,
    files: Seq<(Seq<char>, Seq<char>)>,
    f: Family,
    def_path: Seq<char>,
    symbol: Seq<char>,
    within: Seq<Seq<char>>,
    w: WishText,
    k: nat,
    n: nat,
)
    requires
        k <= n,
        with_files(a, files, f, def_path, symbol, within, w, k) is None,
    ensures
        with_files(a, files, f, def_path, symbol, within, w, n) is None,
    decreases n - k,
{
    if k < n {
        lemma_files_fail(a, files, f, def_path, symbol, within, w, k, (n - 1) as nat);
    }
}

impl Default for Applied {
    /// Nothing applied yet.
    fn default() -> (r: Applied)
        ensures
            r@ == told(nothing_applied()),
            table::ordered(table::stored_keys(r.files@)),
    {
        let r = Applied {
            files: Vec::new(),
            call_sites: Vec::new(),
            unchanged_call_sites: Vec::new(),
            notes: Vec::new(),
        };
        assert(text::text_pairs(r.files@) =~= Seq::<(Seq<char>, Seq<char>)>::empty());
        assert(spots(r.call_sites@) =~= Seq::<(Seq<char>, nat)>::empty());
        assert(spots(r.unchanged_call_sites@) =~= sites::spots_of(Seq::<SiteText>::empty()));
        assert(text::texts(r.notes@) =~= Seq::<Seq<char>>::empty());
        r
    }
}

impl Work {
    /// Nothing applied yet.
    fn new() -> (r: Work)
        ensures
            r@ == nothing_applied(),
            table::ordered(table::stored_keys(r.files@)),
    {
        let r = Work {
            files: Vec::new(),
            call_sites: Vec::new(),
            left: Vec::new(),
            notes: Vec::new(),
            layers: Vec::new(),
        };
        assert(text::text_pairs(r.files@) =~= Seq::<(Seq<char>, Seq<char>)>::empty());
        assert(spots(r.call_sites@) =~= Seq::<(Seq<char>, nat)>::empty());
        assert(sites::site_texts(r.left@) =~= Seq::<SiteText>::empty());
        assert(text::texts(r.notes@) =~= Seq::<Seq<char>>::empty());
        assert(sites::layer_texts(r.layers@) =~= Seq::<LayerText>::empty());
        r
    }

    /// What ops came to, as it is told.
    fn tell(self) -> (r: Applied)
        ensures
            r@ == told(self@),
            r.files@ == self.files@,
    {
        let mut unchanged: Vec<(String, u64)> = Vec::new();
        let ghost all = sites::spots_of(self@.left);
        let mut k: usize = 0;
        assert(spots(unchanged@) =~= all.take(0));
        while k < self.left.len()
            invariant
                k <= self.left.len() == all.len(),
                all == sites::spots_of(sites::site_texts(self.left@)),
                spots(unchanged@) == all.take(k as int),
            decreases self.left.len() - k,
        {
            let ghost before = spots(unchanged@);
            assert(sites::site_texts(self.left@)[k as int] == self.left@[k as int]@);
            unchanged.push((self.left[k].path.clone(), self.left[k].line));
            assert(spots(unchanged@) =~= before.push(all[k as int]));
            k += 1;
            assert(before.push(all[k - 1]) =~= all.take(k as int));
        }
        assert(spots(unchanged@) =~= all);
        Applied {
            files: self.files,
            call_sites: self.call_sites,
            unchanged_call_sites: unchanged,
            notes: self.notes,
        }
    }
}

/// Adds an edit.
fn add_layer(v: &mut Vec<Layer>, path: &str, content: &str, changes: Vec<Change>, touched: Vec<usize>)
    ensures
        sites::layer_texts(final(v)@) == sites::layer_texts(old(v)@).push(
            (LayerText {
                path: path@,
                content: content@,
                changes: changes::change_texts(changes@),
                touched: sites::places(touched@),
            }),
        ),
{
    let ghost before = sites::layer_texts(v@);
    let layer = Layer { path: path.to_string(), content: content.to_string(), changes, touched };
    let ghost said = layer@;
    v.push(layer);
    assert(sites::layer_texts(v@) =~= before.push(said));
}

/// Adds calls of one file that were left alone.
fn add_sites(v: &mut Vec<Site>, path: &str, lines: &Vec<u64>, places: &Vec<usize>)
    requires
        lines@.len() == places@.len(),
    ensures
        sites::site_texts(final(v)@) == sites::site_texts(old(v)@) + sites_in(
            path@,
            nats(lines@),
            sites::places(places@),
        ),
{
    let ghost done = sites::site_texts(v@);
    let ghost more = sites_in(path@, nats(lines@), sites::places(places@));
    let mut k: usize = 0;
    assert(done + more.take(0) =~= done);
    while k < lines.len()
        invariant
            k <= lines.len() == places.len(),
            more == sites_in(path@, nats(lines@), sites::places(places@)),
            sites::site_texts(v@) == done + more.take(k as int),
        decreases lines.len() - k,
    {
        let ghost before = sites::site_texts(v@);
        v.push(Site { path: path.to_string(), line: lines[k], place: places[k] });
        assert(sites::site_texts(v@) =~= before.push(more[k as int]));
        k += 1;
        assert(before.push(more[k - 1]) =~= done + more.take(k as int));
    }
    assert(more.take(more.len() as int) =~= more);
}

/// As many places of calls as lines.
proof fn lemma_places_of_lines(
    t: Seq<NodeText>,
    s: Seq<char>,
    f: Family,
    w: WishText,
    calls: Seq<(int, int)>,
    n: nat,
)
    ensures
        wish_lines(t, s, f, w, calls, n).len() == wish_places(t, s, f, w, calls, n).len(),
    decreases n,
{
    if n > 0 {
        lemma_places_of_lines(t, s, f, w, calls, (n - 1) as nat);
    }
}

/// A step has as many places as lines.
proof fn lemma_step(
    path: Seq<char>,
    s: Seq<char>,
    f: Family,
    def_path: Seq<char>,
    symbol: Seq<char>,
    w: WishText,
)
    ensures
        step(path, s, f, def_path, symbol, w) matches Some(x) ==> x.lines.len() == x.places.len(),
{
    let b = changes::bound_in(path, s, def_path, symbol);
    if let Some(t) = changes::tree_of(path, s) {
        let calls = reaching_upto(t, s, f, symbol, b, t.len());
        lemma_places_of_lines(t, s, f, w, calls, calls.len());
    }
}

/// Does the path start with one of the prefixes, where there are any?
fn is_within(path: &str, within: &Vec<String>) -> (r: bool)
    ensures
        r == falls_within(path@, text::texts(within@)),
{
    if within.len() == 0 {
        return true;
    }
    let ghost all = text::texts(within@);
    assert(all.len() == within@.len());
    let mut k: usize = 0;
    while k < within.len()
        invariant
            k <= within.len(),
            all == text::texts(within@),
            forall|i: int| 0 <= i < k ==> !text::has_prefix(path@, #[trigger] all[i]),
        decreases within.len() - k,
    {
        assert(all[k as int] == within@[k as int]@);
        if text::starts_with(path, within[k].as_str()) {
            return true;
        }
        k += 1;
    }
    false
}

/// Adds places in one file.
fn add_spots(v: &mut Vec<(String, u64)>, path: &str, lines: &Vec<u64>)
    ensures
        spots(final(v)@) == spots(old(v)@) + spots_in(path@, nats(lines@)),
{
    let ghost done = spots(v@);
    let ghost more = spots_in(path@, nats(lines@));
    let mut k: usize = 0;
    assert(done + more.take(0) =~= done);
    while k < lines.len()
        invariant
            k <= lines.len(),
            more == spots_in(path@, nats(lines@)),
            spots(v@) == done + more.take(k as int),
        decreases lines.len() - k,
    {
        let ghost before = spots(v@);
        v.push((path.to_string(), lines[k]));
        assert(more[k as int] == (path@, lines@[k as int] as nat));
        assert(spots(v@) =~= before.push(more[k as int]));
        k += 1;
        assert(before.push(more[k - 1]) =~= done + more.take(k as int));
    }
    assert(more.take(more.len() as int) =~= more);
}

/// What was applied, and what a wish makes of one file more.
fn wish_file(
    a: Work,
    path: &str,
    content: &str,
    f: Family,
    def_path: &str,
    symbol: &str,
    within: &Vec<String>,
    wish: &Wish,
) -> (r: Option<Work>)
    requires
        table::ordered(table::stored_keys(a.files@)),
    ensures
        opt_applied(r) == with_file(
            a@,
            path@,
            content@,
            f,
            def_path@,
            symbol@,
            text::texts(within@),
            wish@,
        ),
        r is Some ==> table::ordered(table::stored_keys(r->0.files@)),
{
    let ours = match changes::family_of(path) {
        Some(g) => g == f,
        None => false,
    };
    if !ours || !is_within(path, within) {
        return Some(a);
    }
    let base = match table::get_text(&a.files, path) {
        Some(new) => new.clone(),
        None => content.to_string(),
    };
    match step_of(path, base.as_str(), f, def_path, symbol, wish) {
        None => None,
        Some(x) => {
            proof {
                lemma_step(path@, base@, f, def_path@, symbol@, wish@);
                assert(x@.lines.len() == x.lines@.len());
                assert(x@.places.len() == x.places@.len());
            }
            let mut out = a;
            match wish {
                Wish::Tell => {
                    add_sites(&mut out.left, path, &x.lines, &x.places);
                },
                _ => {
                    add_spots(&mut out.call_sites, path, &x.lines);
                },
            }
            match x.content {
                Some(new) => {
                    table::set_text(&mut out.files, path.to_string(), new);
                    add_layer(&mut out.layers, path, base.as_str(), x.changes, x.places);
                },
                None => {},
            }
            Some(out)
        },
    }
}

/// What was applied, and what a wish makes of the files.
fn run_wish(
    start: Work,
    files: &Vec<(String, String)>,
    f: Family,
    def_path: &str,
    symbol: &str,
    within: &Vec<String>,
    wish: &Wish,
) -> (r: Option<Work>)
    requires
        table::ordered(table::stored_keys(start.files@)),
    ensures
        opt_applied(r) == with_files(
            start@,
            text::text_pairs(files@),
            f,
            def_path@,
            symbol@,
            text::texts(within@),
            wish@,
            files@.len(),
        ),
        r is Some ==> table::ordered(table::stored_keys(r->0.files@)),
{
    let ghost first = start@;
    let ghost all = text::text_pairs(files@);
    let mut a = start;
    let mut k: usize = 0;
    while k < files.len()
        invariant
            k <= files.len(),
            first == start@,
            all == text::text_pairs(files@),
            all.len() == files@.len(),
            table::ordered(table::stored_keys(a.files@)),
            with_files(
                first,
                all,
                f,
                def_path@,
                symbol@,
                text::texts(within@),
                wish@,
                k as nat,
            ) == Some(a@),
        decreases files.len() - k,
    {
        assert(all[k as int] == (files@[k as int].0@, files@[k as int].1@));
        match wish_file(
            a,
            files[k].0.as_str(),
            files[k].1.as_str(),
            f,
            def_path,
            symbol,
            within,
            wish,
        ) {
            Some(next) => {
                a = next;
            },
            None => {
                proof {
                    lemma_files_fail(
                        first,
                        all,
                        f,
                        def_path@,
                        symbol@,
                        text::texts(within@),
                        wish@,
                        (k + 1) as nat,
                        all.len(),
                    );
                }
                return None;
            },
        }
        k += 1;
    }
    Some(a)
}

// --------------------------------------------------------------------- ops

/// Why an op on a file is refused whose language has no typed edits.
pub open spec fn unsupported(path: Seq<char>) -> Seq<char> {
    path + ": language not supported for typed edits"@
}

/// The changes that a rename makes to a file, before place `n`.
pub open spec fn rename_changes(
    t: Seq<NodeText>,
    s: Seq<char>,
    f: Family,
    symbol: Seq<char>,
    new_name: Seq<char>,
    n: nat,
) -> Seq<ChangeText>
    decreases n,
{
    if n == 0 {
        Seq::empty()
    } else {
        let rest = rename_changes(t, s, f, symbol, new_name, (n - 1) as nat);
        if changes::names_something(t[n - 1].kind, f) && tree::node_text(s, t[n - 1]) == symbol {
            rest.push(
                ChangeText { start: t[n - 1].start, end: t[n - 1].end, text: new_name },
            )
        } else {
            rest
        }
    }
}

/// What a rename makes of one file more.
pub open spec fn rename_in(
    done: WorkText,
    path: Seq<char>,
    s: Seq<char>,
    symbol: Seq<char>,
    new_name: Seq<char>,
) -> Option<WorkText> {
    match (changes::family(path), changes::tree_of(path, s)) {
        (Some(f), Some(t)) => {
            let changes = rename_changes(t, s, f, symbol, new_name, t.len());
            if changes.len() == 0 {
                Some(done)
            } else {
                match changes::spliced(s, changes) {
                    Some(new) => Some(
                        WorkText {
                            files: table::put(done.files, path, new),
                            layers: done.layers.push(edit_of(path, s, changes)),
                            ..done
                        },
                    ),
                    None => None,
                }
            }
        },
        _ => Some(done),
    }
}

/// What a rename makes of the first `n` files.
pub open spec fn renamed_upto(
    files: Seq<(Seq<char>, Seq<char>)>,
    symbol: Seq<char>,
    new_name: Seq<char>,
    n: nat,
) -> Option<WorkText>
    decreases n,
{
    if n == 0 {
        Some(nothing_applied())
    } else {
        match renamed_upto(files, symbol, new_name, (n - 1) as nat) {
            Some(done) => rename_in(done, files[n - 1].0, files[n - 1].1, symbol, new_name),
            None => None,
        }
    }
}

/// What renaming comes to.
pub open spec fn rename_outcome(
    files: Seq<(Seq<char>, Seq<char>)>,
    symbol: Seq<char>,
    new_name: Seq<char>,
) -> Option<Result<WorkText, Seq<char>>> {
    match renamed_upto(files, symbol, new_name, files.len()) {
        None => None,
        Some(done) => Some(
            if done.files.len() == 0 {
                Err(symbol + " is not named anywhere in the given files"@)
            } else {
                Ok(
                    WorkText {
                        notes: seq![
                            "renamed every identifier with that name across the given files (strings and comments untouched)"@,
                        ],
                        ..done
                    },
                )
            },
        ),
    }
}

/// What passing an argument comes to.
pub open spec fn pass_outcome(
    files: Seq<(Seq<char>, Seq<char>)>,
    def_path: Seq<char>,
    symbol: Seq<char>,
    arg: Seq<char>,
    within: Seq<Seq<char>>,
    optional: bool,
) -> Option<Result<WorkText, Seq<char>>> {
    let place = if within.len() == 0 {
        "the repo"@
    } else {
        text::joined(within, ", "@)
    };
    match changes::family(def_path) {
        None => Some(Err(unsupported(def_path))),
        Some(f) => match with_files(
            nothing_applied(),
            files,
            f,
            def_path,
            symbol,
            within,
            (WishText::Pass { arg }),
            files.len(),
        ) {
            None => None,
            Some(a) => Some(
                if a.call_sites.len() > 0 {
                    Ok(a)
                } else if optional {
                    Ok(
                        WorkText {
                            notes: seq![
                                "pass_arg skipped: no call of "@ + symbol + " under "@ + place
                                    + " (optional)"@,
                            ],
                            ..nothing_applied()
                        },
                    )
                } else {
                    Err("no call of "@ + symbol + " under "@ + place)
                },
            ),
        },
    }
}

/// The file that a symbol is defined in: its family, its content and its
/// tree, or why there is none of them.
pub open spec fn defining_file(files: Seq<(Seq<char>, Seq<char>)>, path: Seq<char>) -> Result<
    (Family, Seq<char>, Seq<NodeText>),
    Seq<char>,
> {
    match changes::family(path) {
        None => Err(unsupported(path)),
        Some(f) => match table::value(files, path) {
            None => Err(path + " is not among the given files"@),
            Some(s) => match changes::tree_of(path, s) {
                None => Err(path + ": parse failed"@),
                Some(t) => Ok((f, s, t)),
            },
        },
    }
}

/// One file with one change made, and nothing else.
pub open spec fn edited(path: Seq<char>, s: Seq<char>, c: ChangeText) -> Option<WorkText> {
    match changes::spliced(s, seq![c]) {
        Some(new) => Some(
            WorkText {
                files: table::put(nothing_applied().files, path, new),
                layers: seq![edit_of(path, s, seq![c])],
                ..nothing_applied()
            },
        ),
        None => None,
    }
}

/// What was applied, with a note on the calls that were left alone.
pub open spec fn with_left_note(
    a: WorkText,
    default: Option<Seq<char>>,
    call_arg: Option<Seq<char>>,
) -> WorkText {
    if call_arg is None && a.left.len() > 0 {
        WorkText {
            notes: a.notes.push(
                if default is Some {
                    "call sites left as they were: the default covers them"@
                } else {
                    "call sites listed, not changed: pass call_arg to give them all one expression, or edit them one by one"@
                },
            ),
            ..a
        }
    } else {
        a
    }
}

/// What adding a parameter comes to.
pub open spec fn add_outcome(
    files: Seq<(Seq<char>, Seq<char>)>,
    def_path: Seq<char>,
    symbol: Seq<char>,
    name: Seq<char>,
    type_: Option<Seq<char>>,
    default: Option<Seq<char>>,
    call_arg: Option<Seq<char>>,
) -> Option<Result<WorkText, Seq<char>>> {
    match defining_file(files, def_path) {
        Err(e) => Some(Err(e)),
        Ok((f, s, t)) => match changes::definition_from(t, s, f, symbol, "parameters"@, 0) {
            None => Some(Err(symbol + " is not defined in "@ + def_path)),
            Some((_, list)) => match edited(
                def_path,
                s,
                changes::param_added(t, list, changes::param_text(name, type_, default)),
            ) {
                None => None,
                Some(start) => {
                    let wish = match call_arg {
                        Some(arg) => WishText::PassNamed { name, arg },
                        None => WishText::Tell,
                    };
                    match with_files(
                        start,
                        files,
                        f,
                        def_path,
                        symbol,
                        Seq::empty(),
                        wish,
                        files.len(),
                    ) {
                        None => None,
                        Some(a) => Some(Ok(with_left_note(a, default, call_arg))),
                    }
                },
            },
        },
    }
}

/// What removing a parameter comes to.
pub open spec fn remove_outcome(
    files: Seq<(Seq<char>, Seq<char>)>,
    def_path: Seq<char>,
    symbol: Seq<char>,
    name: Seq<char>,
) -> Option<Result<WorkText, Seq<char>>> {
    match defining_file(files, def_path) {
        Err(e) => Some(Err(e)),
        Ok((f, s, t)) => match changes::param_from(t, s, f, symbol, name, 0) {
            None => Some(Err(symbol + " in "@ + def_path + " has no parameter "@ + name)),
            Some((list, position)) => match edited(
                def_path,
                s,
                changes::removal(t, s, list, tree::named_kids(t, list)[position as int]),
            ) {
                None => None,
                Some(start) => match with_files(
                    start,
                    files,
                    f,
                    def_path,
                    symbol,
                    Seq::empty(),
                    (WishText::Take { name, position }),
                    files.len(),
                ) {
                    None => None,
                    Some(a) => Some(
                        Ok(
                            WorkText {
                                notes: a.notes.push(
                                    "positional call arguments were matched by position; methods called through an instance are not adjusted for self"@,
                                ),
                                ..a
                            },
                        ),
                    ),
                },
            },
        },
    }
}

/// The change that replaces the body of a definition, given the definition and
/// the body that it has.
pub open spec fn body_change(
    t: Seq<NodeText>,
    s: Seq<char>,
    f: Family,
    def: int,
    block: int,
    body: Seq<char>,
) -> Option<ChangeText> {
    match (text::char_pos(s, t[def].start), text::char_pos(s, t[block].start)) {
        (Some(a), Some(b)) => Some(
            ChangeText {
                start: t[block].start,
                end: t[block].end,
                text: bodies::fitted(s, f, a as int, b as int, body),
            },
        ),
        _ => None,
    }
}

/// What replacing a body comes to.
pub open spec fn body_outcome(
    files: Seq<(Seq<char>, Seq<char>)>,
    def_path: Seq<char>,
    symbol: Seq<char>,
    body: Seq<char>,
) -> Option<Result<WorkText, Seq<char>>> {
    match defining_file(files, def_path) {
        Err(e) => Some(Err(e)),
        Ok((f, s, t)) => if text::trimmed(body).len() == 0 {
            Some(Err("replace_body needs a non-empty body"@))
        } else {
            match changes::definition_from(t, s, f, symbol, "body"@, 0) {
                None => Some(Err(symbol + " is not defined in "@ + def_path)),
                Some((def, block)) => match body_change(t, s, f, def, block, body) {
                    None => None,
                    Some(c) => match edited(def_path, s, c) {
                        None => None,
                        Some(done) => Some(
                            Ok(
                                WorkText {
                                    notes: seq![
                                        "replaced the body of "@ + symbol + " in "@ + def_path
                                            + " ("@ + text::decimal(bodies::body_lines(body).len())
                                            + " line(s))"@,
                                    ],
                                    ..done
                                },
                            ),
                        ),
                    },
                },
            }
        },
    }
}

/// What an op makes of the files: what was applied, or why it was refused.
/// There is no outcome where the changes of a file do not fit together.
pub open spec fn op_outcome(op: OpText, files: Seq<(Seq<char>, Seq<char>)>) -> Option<
    Result<WorkText, Seq<char>>,
> {
    match op {
        OpText::Rename { symbol, new_name } => rename_outcome(files, symbol, new_name),
        OpText::AddParam { path, symbol, name, type_, default, call_arg } => add_outcome(
            files,
            path,
            symbol,
            name,
            type_,
            default,
            call_arg,
        ),
        OpText::RemoveParam { path, symbol, name } => remove_outcome(files, path, symbol, name),
        OpText::PassArg { path, symbol, arg, within, optional } => pass_outcome(
            files,
            path,
            symbol,
            arg,
            within,
            optional,
        ),
        OpText::ReplaceBody { path, symbol, body } => body_outcome(files, path, symbol, body),
    }
}

/// Those of the first `n` files whose content is not the given one.
pub open spec fn changed_upto(
    given: Seq<(Seq<char>, Seq<char>)>,
    files: Seq<(Seq<char>, Seq<char>)>,
    n: nat,
) -> Seq<(Seq<char>, Seq<char>)>
    decreases n,
{
    if n == 0 {
        Seq::empty()
    } else {
        let rest = changed_upto(given, files, (n - 1) as nat);
        if table::value(given, files[n - 1].0) == Some(files[n - 1].1) {
            rest
        } else {
            rest.push(files[n - 1])
        }
    }
}

/// What was applied, without the files that it left as they were given.
pub open spec fn without_same(a: WorkText, given: Seq<(Seq<char>, Seq<char>)>) -> WorkText {
    WorkText { files: changed_upto(given, a.files, a.files.len()), ..a }
}

/// What applying an op comes to: what was applied, with the files that
/// changed, or why it was refused. There is no outcome where the changes of a
/// file do not fit together.
pub open spec fn work_outcome(op: OpText, files: Seq<(Seq<char>, Seq<char>)>) -> Option<
    Result<WorkText, Seq<char>>,
> {
    match op_outcome(op, files) {
        Some(Ok(a)) => Some(Ok(without_same(a, files))),
        o => o,
    }
}

/// An outcome as it is told.
pub open spec fn told_result(o: Option<Result<WorkText, Seq<char>>>) -> Option<
    Result<AppliedText, Seq<char>>,
> {
    match o {
        Some(Ok(w)) => Some(Ok(told(w))),
        Some(Err(e)) => Some(Err(e)),
        None => None,
    }
}

/// What applying an op comes to, as it is told.
pub open spec fn outcome(op: OpText, files: Seq<(Seq<char>, Seq<char>)>) -> Option<
    Result<AppliedText, Seq<char>>,
> {
    told_result(work_outcome(op, files))
}

/// What came back of applying an op.
pub open spec fn applied_result(r: Result<Applied, String>) -> Result<AppliedText, Seq<char>> {
    match r {
        Ok(a) => Ok(a@),
        Err(e) => Err(e@),
    }
}

/// What came back of applying an op, where something did.
pub open spec fn opt_result(o: Option<Result<Applied, String>>) -> Option<
    Result<AppliedText, Seq<char>>,
> {
    match o {
        Some(r) => Some(applied_result(r)),
        None => None,
    }
}

/// What an op came to while it is applied, where it came to something.
pub open spec fn opt_work(o: Option<Result<Work, String>>) -> Option<
    Result<WorkText, Seq<char>>,
> {
    match o {
        Some(Ok(w)) => Some(Ok(w@)),
        Some(Err(e)) => Some(Err(e@)),
        None => None,
    }
}

/// What an op came to, as it is told.
fn tell_result(o: Option<Result<Work, String>>) -> (r: Option<Result<Applied, String>>)
    ensures
        opt_result(r) == told_result(opt_work(o)),
        o is Some && o->0 is Ok ==> r is Some && r->0 is Ok && r->0->Ok_0.files@
            == o->0->Ok_0.files@,
        r is Some && r->0 is Ok ==> o is Some && o->0 is Ok,
{
    match o {
        Some(Ok(w)) => Some(Ok(w.tell())),
        Some(Err(e)) => Some(Err(e)),
        None => None,
    }
}

/// The changes that a rename makes to a file.
pub fn change_names(t: &SyntaxTree, src: &Source, f: Family, symbol: &str, new_name: &str) -> (r:
    Vec<Change>)
    requires
        src.valid(),
    ensures
        changes::change_texts(r@) == rename_changes(t@, src@, f, symbol@, new_name@, t@.len()),
{
    let mut out: Vec<Change> = Vec::new();
    let mut j: usize = 0;
    assert(changes::change_texts(out@) =~= Seq::<ChangeText>::empty());
    assert(t@.len() == t.nodes@.len());
    while j < t.nodes.len()
        invariant
            j <= t.nodes.len() == t@.len(),
            src.valid(),
            changes::change_texts(out@) == rename_changes(t@, src@, f, symbol@, new_name@, j as nat),
        decreases t.nodes.len() - j,
    {
        if changes::is_identifier(t.nodes[j].kind, f) {
            let name = t.text(j, src);
            if text::same(name.as_str(), symbol) {
                let c = Change {
                    start: t.nodes[j].start,
                    end: t.nodes[j].end,
                    text: new_name.to_string(),
                };
                let ghost before = changes::change_texts(out@);
                let ghost said = c@;
                out.push(c);
                assert(changes::change_texts(out@) =~= before.push(said));
            }
        }
        j += 1;
    }
    out
}

/// Once the changes of a file do not fit together, a rename has no outcome.
proof fn lemma_rename_fails(
    files: Seq<(Seq<char>, Seq<char>)>,
    symbol: Seq<char>,
    new_name: Seq<char>,
    k: nat,
    n: nat,
)
    requires
        k <= n,
        renamed_upto(files, symbol, new_name, k) is None,
    ensures
        renamed_upto(files, symbol, new_name, n) is None,
    decreases n - k,
{
    if k < n {
        lemma_rename_fails(files, symbol, new_name, k, (n - 1) as nat);
    }
}

/// What a rename makes of one file more.
fn rename_file(done: Work, path: &str, content: &str, symbol: &str, new_name: &str) -> (r: Option<
    Work,
>)
    requires
        table::ordered(table::stored_keys(done.files@)),
    ensures
        opt_applied(r) == rename_in(done@, path@, content@, symbol@, new_name@),
        r is Some ==> table::ordered(table::stored_keys(r->0.files@)),
{
    match (changes::family_of(path), changes::tree_in(path, content)) {
        (Some(f), Some(t)) => {
            let src = Source::new(content);
            let changes = change_names(&t, &src, f, symbol, new_name);
            assert(changes::change_texts(changes@).len() == changes@.len());
            if changes.len() == 0 {
                return Some(done);
            }
            let changes = changes::rank(changes);
            match changes::remake(content, &changes) {
                Some(new) => {
                    let mut out = done;
                    let none: Vec<usize> = Vec::new();
                    assert(sites::places(none@) =~= Seq::<nat>::empty());
                    table::set_text(&mut out.files, path.to_string(), new);
                    add_layer(&mut out.layers, path, content, changes, none);
                    Some(out)
                },
                None => None,
            }
        },
        _ => Some(done),
    }
}

/// Renames a symbol wherever it is named.
fn rename(symbol: &str, new_name: &str, files: &Vec<(String, String)>) -> (r: Option<
    Result<Work, String>,
>)
    ensures
        opt_work(r) == rename_outcome(text::text_pairs(files@), symbol@, new_name@),
        r is Some && r->0 is Ok ==> table::ordered(table::stored_keys(r->0->Ok_0.files@)),
{
    let ghost all = text::text_pairs(files@);
    let mut done = Work::new();
    let mut k: usize = 0;
    while k < files.len()
        invariant
            k <= files.len(),
            all == text::text_pairs(files@),
            all.len() == files@.len(),
            table::ordered(table::stored_keys(done.files@)),
            renamed_upto(all, symbol@, new_name@, k as nat) == Some(done@),
        decreases files.len() - k,
    {
        assert(all[k as int] == (files@[k as int].0@, files@[k as int].1@));
        match rename_file(done, files[k].0.as_str(), files[k].1.as_str(), symbol, new_name) {
            Some(next) => {
                done = next;
            },
            None => {
                proof {
                    lemma_rename_fails(all, symbol@, new_name@, (k + 1) as nat, all.len());
                }
                return None;
            },
        }
        k += 1;
    }
    assert(text::text_pairs(done.files@).len() == done.files@.len());
    if done.files.len() == 0 {
        return Some(Err(text::cat2(symbol, " is not named anywhere in the given files")));
    }
    let mut notes: Vec<String> = Vec::new();
    notes.push(
        "renamed every identifier with that name across the given files (strings and comments untouched)".to_string(),
    );
    let a = Work { notes, ..done };
    assert(a@.notes =~= seq![
        "renamed every identifier with that name across the given files (strings and comments untouched)"@,
    ]);
    Some(Ok(a))
}

/// Appends one expression to the calls of a symbol.
fn pass_arg(
    def_path: &str,
    symbol: &str,
    arg: &String,
    within: &Vec<String>,
    optional: bool,
    files: &Vec<(String, String)>,
) -> (r: Option<Result<Work, String>>)
    ensures
        opt_work(r) == pass_outcome(
            text::text_pairs(files@),
            def_path@,
            symbol@,
            arg@,
            text::texts(within@),
            optional,
        ),
        r is Some && r->0 is Ok ==> table::ordered(table::stored_keys(r->0->Ok_0.files@)),
{
    match changes::family_of(def_path) {
        None => Some(Err(text::cat2(def_path, ": language not supported for typed edits"))),
        Some(f) => {
            let wish = Wish::Pass { arg: arg.clone() };
            assert(text::text_pairs(files@).len() == files@.len());
            match run_wish(Work::new(), files, f, def_path, symbol, within, &wish) {
                None => None,
                Some(a) => {
                    assert(a@.call_sites.len() == a.call_sites@.len());
                    if a.call_sites.len() > 0 {
                        return Some(Ok(a));
                    }
                    assert(text::texts(within@).len() == within@.len());
                    let place = if within.len() == 0 {
                        "the repo".to_string()
                    } else {
                        text::join(within, ", ")
                    };
                    if optional {
                        let head = text::cat4(
                            "pass_arg skipped: no call of ",
                            symbol,
                            " under ",
                            place.as_str(),
                        );
                        let note = text::cat2(head.as_str(), " (optional)");
                        let ghost said = note@;
                        let mut none = Work::new();
                        none.notes.push(note);
                        assert(none@.notes =~= seq![said]);
                        Some(Ok(none))
                    } else {
                        Some(Err(text::cat4("no call of ", symbol, " under ", place.as_str())))
                    }
                },
            }
        },
    }
}

/// The file that a symbol is defined in, or why there is none.
fn find_file(files: &Vec<(String, String)>, path: &str) -> (r: Result<
    (Family, String, SyntaxTree),
    String,
>)
    requires
        table::ordered(table::stored_keys(files@)),
    ensures
        match r {
            Ok((f, s, t)) => defining_file(text::text_pairs(files@), path@) == Ok::<
                (Family, Seq<char>, Seq<NodeText>),
                Seq<char>,
            >((f, s@, t@)),
            Err(e) => defining_file(text::text_pairs(files@), path@) == Err::<
                (Family, Seq<char>, Seq<NodeText>),
                Seq<char>,
            >(e@),
        },
{
    match changes::family_of(path) {
        None => Err(text::cat2(path, ": language not supported for typed edits")),
        Some(f) => match table::get_text(files, path) {
            None => Err(text::cat2(path, " is not among the given files")),
            Some(s) => match changes::tree_in(path, s.as_str()) {
                None => Err(text::cat2(path, ": parse failed")),
                Some(t) => Ok((f, s.clone(), t)),
            },
        },
    }
}

/// A list of one change.
fn only_change(c: Change) -> (r: Vec<Change>)
    ensures
        changes::change_texts(r@) == seq![c@],
{
    let mut v: Vec<Change> = Vec::new();
    v.push(c);
    assert(changes::change_texts(v@) =~= seq![c@]);
    v
}

/// One file with one change made, and nothing else.
fn edit_file(path: &str, content: &str, c: Change) -> (r: Option<Work>)
    ensures
        opt_applied(r) == edited(path@, content@, c@),
        r is Some ==> table::ordered(table::stored_keys(r->0.files@)),
{
    let changes = changes::rank(only_change(c));
    match changes::remake(content, &changes) {
        Some(new) => {
            let mut a = Work::new();
            let none: Vec<usize> = Vec::new();
            assert(sites::places(none@) =~= Seq::<nat>::empty());
            table::set_text(&mut a.files, path.to_string(), new);
            add_layer(&mut a.layers, path, content, changes, none);
            assert(a@.layers =~= seq![edit_of(path@, content@, seq![c@])]);
            Some(a)
        },
        None => None,
    }
}

/// Adds a parameter to a definition, and an argument to its calls.
fn add_param(
    def_path: &str,
    symbol: &str,
    name: &String,
    type_: &Option<String>,
    default: &Option<String>,
    call_arg: &Option<String>,
    files: &Vec<(String, String)>,
) -> (r: Option<Result<Work, String>>)
    requires
        table::ordered(table::stored_keys(files@)),
    ensures
        opt_work(r) == add_outcome(
            text::text_pairs(files@),
            def_path@,
            symbol@,
            name@,
            text::opt_text(*type_),
            text::opt_text(*default),
            text::opt_text(*call_arg),
        ),
        r is Some && r->0 is Ok ==> table::ordered(table::stored_keys(r->0->Ok_0.files@)),
{
    match find_file(files, def_path) {
        Err(e) => Some(Err(e)),
        Ok((f, content, t)) => {
            let src = Source::new(content.as_str());
            match changes::find_definition(&t, &src, f, symbol, "parameters") {
                None => Some(Err(text::cat3(symbol, " is not defined in ", def_path))),
                Some((_, list)) => {
                    let param = changes::write_param(name.as_str(), type_, default);
                    let change = changes::add_to_params(&t, list, param.as_str());
                    match edit_file(def_path, content.as_str(), change) {
                        None => None,
                        Some(start) => {
                            let wish = match call_arg {
                                Some(arg) => Wish::PassNamed {
                                    name: name.clone(),
                                    arg: arg.clone(),
                                },
                                None => Wish::Tell,
                            };
                            let within: Vec<String> = Vec::new();
                            assert(text::texts(within@) =~= Seq::<Seq<char>>::empty());
                            assert(text::text_pairs(files@).len() == files@.len());
                            match run_wish(start, files, f, def_path, symbol, &within, &wish) {
                                None => None,
                                Some(a) => Some(Ok(note_left(a, default, call_arg))),
                            }
                        },
                    }
                },
            }
        },
    }
}

/// Notes the calls that were left alone.
fn note_left(a: Work, default: &Option<String>, call_arg: &Option<String>) -> (r: Work)
    ensures
        r@ == with_left_note(a@, text::opt_text(*default), text::opt_text(*call_arg)),
        r.files@ == a.files@,
{
    let mut a = a;
    assert(a@.left.len() == a.left@.len());
    if call_arg.is_none() && a.left.len() > 0 {
        let note = if default.is_some() {
            "call sites left as they were: the default covers them".to_string()
        } else {
            "call sites listed, not changed: pass call_arg to give them all one expression, or edit them one by one".to_string()
        };
        proof {
            text::lemma_texts_push(a.notes@, note);
        }
        a.notes.push(note);
    }
    a
}

/// Removes a parameter from a definition, and its argument from the calls.
fn remove_param(def_path: &str, symbol: &str, name: &String, files: &Vec<(String, String)>) -> (r:
    Option<Result<Work, String>>)
    requires
        table::ordered(table::stored_keys(files@)),
    ensures
        opt_work(r) == remove_outcome(text::text_pairs(files@), def_path@, symbol@, name@),
        r is Some && r->0 is Ok ==> table::ordered(table::stored_keys(r->0->Ok_0.files@)),
{
    match find_file(files, def_path) {
        Err(e) => Some(Err(e)),
        Ok((f, content, t)) => {
            let src = Source::new(content.as_str());
            match changes::find_param(&t, &src, f, symbol, name.as_str()) {
                None => {
                    let head = text::cat4(symbol, " in ", def_path, " has no parameter ");
                    Some(Err(text::cat2(head.as_str(), name.as_str())))
                },
                Some((list, position)) => {
                    let all = t.named_children(list);
                    assert(tree::named_kids(t@, list as int).len() == all@.len());
                    assert(tree::named_kids(t@, list as int)[position as int] == all@[position as int]);
                    let change = changes::removal_range(&t, &src, list, all[position]);
                    match edit_file(def_path, content.as_str(), change) {
                        None => None,
                        Some(start) => {
                            let wish = Wish::Take { name: name.clone(), position };
                            let within: Vec<String> = Vec::new();
                            assert(text::texts(within@) =~= Seq::<Seq<char>>::empty());
                            assert(text::text_pairs(files@).len() == files@.len());
                            match run_wish(start, files, f, def_path, symbol, &within, &wish) {
                                None => None,
                                Some(a) => {
                                    let mut a = a;
                                    let note =
                                        "positional call arguments were matched by position; methods called through an instance are not adjusted for self".to_string();
                                    proof {
                                        text::lemma_texts_push(a.notes@, note);
                                    }
                                    a.notes.push(note);
                                    Some(Ok(a))
                                },
                            }
                        },
                    }
                },
            }
        },
    }
}

/// The change that replaces the body of a definition, given the definition and
/// the body that it has.
pub fn change_body(
    t: &SyntaxTree,
    content: &str,
    f: Family,
    def: usize,
    block: usize,
    body: &str,
) -> (r: Option<Change>)
    requires
        def < t@.len(),
        block < t@.len(),
    ensures
        opt_change(r) == body_change(t@, content@, f, def as int, block as int, body@),
{
    let cs = text::chars(content);
    match (text::char_position(&cs, t.nodes[def].start), text::char_position(&cs, t.nodes[block].start)) {
        (Some(a), Some(b)) => {
            proof {
                text::lemma_char_pos(content@, t@[def as int].start, 0);
                text::lemma_char_pos(content@, t@[block as int].start, 0);
            }
            let text = bodies::fit_body(&cs, content, f, a, b, body);
            Some(Change { start: t.nodes[block].start, end: t.nodes[block].end, text })
        },
        _ => None,
    }
}

/// Replaces the body of a function.
fn replace_body(def_path: &str, symbol: &str, body: &str, files: &Vec<(String, String)>) -> (r:
    Option<Result<Work, String>>)
    requires
        table::ordered(table::stored_keys(files@)),
    ensures
        opt_work(r) == body_outcome(text::text_pairs(files@), def_path@, symbol@, body@),
        r is Some && r->0 is Ok ==> table::ordered(table::stored_keys(r->0->Ok_0.files@)),
{
    match find_file(files, def_path) {
        Err(e) => Some(Err(e)),
        Ok((f, content, t)) => {
            let bare = text::trim(body);
            if text::chars(bare.as_str()).len() == 0 {
                return Some(Err("replace_body needs a non-empty body".to_string()));
            }
            let src = Source::new(content.as_str());
            match changes::find_definition(&t, &src, f, symbol, "body") {
                None => Some(Err(text::cat3(symbol, " is not defined in ", def_path))),
                Some((def, block)) => match change_body(
                    &t,
                    content.as_str(),
                    f,
                    def,
                    block,
                    body,
                ) {
                    None => None,
                    Some(change) => match edit_file(def_path, content.as_str(), change) {
                        None => None,
                        Some(done) => {
                            let tail = text::trim_end(body);
                            let all = text::lines(tail.as_str());
                            assert(text::texts(all@).len() == all@.len());
                            let count = text::number(all.len() as u64);
                            let head = text::cat5(
                                "replaced the body of ",
                                symbol,
                                " in ",
                                def_path,
                                " (",
                            );
                            let note = text::cat3(head.as_str(), count.as_str(), " line(s))");
                            let ghost said = note@;
                            let mut notes: Vec<String> = Vec::new();
                            notes.push(note);
                            let a = Work { notes, ..done };
                            assert(a@.notes =~= seq![said]);
                            Some(Ok(a))
                        },
                    },
                },
            }
        },
    }
}

/// What an op makes of the files, where the changes fit together.
fn make_of(op: &Op, files: &Vec<(String, String)>) -> (r: Option<Result<Work, String>>)
    requires
        table::ordered(table::stored_keys(files@)),
    ensures
        opt_work(r) == op_outcome(op@, text::text_pairs(files@)),
        r is Some && r->0 is Ok ==> table::ordered(table::stored_keys(r->0->Ok_0.files@)),
{
    match op {
        Op::Rename { symbol, new_name } => rename(symbol.as_str(), new_name.as_str(), files),
        Op::AddParam { path, symbol, name, type_, default, call_arg } => add_param(
            path.as_str(),
            symbol.as_str(),
            name,
            type_,
            default,
            call_arg,
            files,
        ),
        Op::RemoveParam { path, symbol, name } => remove_param(
            path.as_str(),
            symbol.as_str(),
            name,
            files,
        ),
        Op::PassArg { path, symbol, arg, within, optional } => pass_arg(
            path.as_str(),
            symbol.as_str(),
            arg,
            within,
            *optional,
            files,
        ),
        Op::ReplaceBody { path, symbol, body } => replace_body(
            path.as_str(),
            symbol.as_str(),
            body.as_str(),
            files,
        ),
    }
}

/// The files that stay are files that there were, in their order, and none
/// has the given content.
pub proof fn lemma_changed_upto(
    given: Seq<(Seq<char>, Seq<char>)>,
    files: Seq<(Seq<char>, Seq<char>)>,
    n: nat,
)
    requires
        n <= files.len(),
        table::ordered(table::keys(files)),
    ensures
        table::ordered(table::keys(changed_upto(given, files, n))),
        forall|i: int|
            0 <= i < changed_upto(given, files, n).len() ==> exists|j: int|
                0 <= j < n && files[j] == #[trigger] changed_upto(given, files, n)[i],
        forall|i: int|
            0 <= i < changed_upto(given, files, n).len() ==> table::value(
                given,
                (#[trigger] changed_upto(given, files, n)[i]).0,
            ) != Some(changed_upto(given, files, n)[i].1),
    decreases n,
{
    if n > 0 {
        lemma_changed_upto(given, files, (n - 1) as nat);
        let rest = changed_upto(given, files, (n - 1) as nat);
        let all = changed_upto(given, files, n);
        assert forall|i: int| 0 <= i < all.len() implies exists|j: int|
            0 <= j < n && files[j] == #[trigger] all[i] by {
            if i < rest.len() {
                let j = choose|j: int| 0 <= j < n - 1 && files[j] == rest[i];
                assert(files[j] == all[i]);
            } else {
                assert(files[n - 1] == all[i]);
            }
        }
        let ks = table::keys(all);
        assert forall|i: int, j: int| 0 <= i < j < ks.len() implies text::before(
            #[trigger] ks[i],
            #[trigger] ks[j],
        ) by {
            if j < rest.len() {
                assert(text::before(table::keys(rest)[i], table::keys(rest)[j]));
            } else {
                let k = choose|k: int| 0 <= k < n - 1 && files[k] == rest[i];
                assert(text::before(table::keys(files)[k], table::keys(files)[n - 1]));
            }
        }
    }
}

/// What was applied, without the files that it left as they were given.
fn drop_same(a: Work, given: &Vec<(String, String)>) -> (r: Work)
    requires
        table::ordered(table::stored_keys(given@)),
        table::ordered(table::stored_keys(a.files@)),
    ensures
        r@ == without_same(a@, text::text_pairs(given@)),
        table::ordered(table::stored_keys(r.files@)),
{
    let ghost all = text::text_pairs(a.files@);
    let ghost old_files = text::text_pairs(given@);
    let mut kept: Vec<(String, String)> = Vec::new();
    let mut k: usize = 0;
    assert(text::text_pairs(kept@) =~= Seq::<(Seq<char>, Seq<char>)>::empty());
    while k < a.files.len()
        invariant
            k <= a.files.len(),
            all == text::text_pairs(a.files@),
            old_files == text::text_pairs(given@),
            table::ordered(table::stored_keys(given@)),
            text::text_pairs(kept@) == changed_upto(old_files, all, k as nat),
        decreases a.files.len() - k,
    {
        assert(all[k as int] == (a.files@[k as int].0@, a.files@[k as int].1@));
        let same = match table::get_text(given, a.files[k].0.as_str()) {
            Some(was) => text::same(was.as_str(), a.files[k].1.as_str()),
            None => false,
        };
        if !same {
            let ghost before = text::text_pairs(kept@);
            kept.push((a.files[k].0.clone(), a.files[k].1.clone()));
            assert(text::text_pairs(kept@) =~= before.push(all[k as int]));
        }
        k += 1;
    }
    assert(all.len() == a.files@.len());
    proof {
        assert(table::keys(all) =~= table::stored_keys(a.files@));
        lemma_changed_upto(old_files, all, all.len());
        assert(table::keys(text::text_pairs(kept@)) =~= table::stored_keys(kept@));
    }
    Work { files: kept, ..a }
}

/// What applying an op comes to, where the changes fit together.
fn attempt(op: &Op, files: &Vec<(String, String)>) -> (r: Option<Result<Work, String>>)
    requires
        table::ordered(table::stored_keys(files@)),
    ensures
        opt_work(r) == work_outcome(op@, text::text_pairs(files@)),
        r is Some && r->0 is Ok ==> table::ordered(table::stored_keys(r->0->Ok_0.files@)),
{
    match make_of(op, files) {
        Some(Ok(a)) => Some(Ok(drop_same(a, files))),
        Some(Err(e)) => Some(Err(e)),
        None => None,
    }
}

/// Applies an op to the files, given in the order of their paths.
pub fn apply(op: &Op, files: &Vec<(String, String)>) -> (r: Result<Applied, String>)
    requires
        table::ordered(table::stored_keys(files@)),
        outcome(op@, text::text_pairs(files@)) is Some,
    ensures
        outcome(op@, text::text_pairs(files@)) == Some(applied_result(r)),
        r is Ok ==> table::ordered(table::stored_keys(r->Ok_0.files@)),
{
    match tell_result(attempt(op, files)) {
        Some(r) => r,
        None => Err(String::new()),
    }
}

/// Applies an op to the files, given in the order of their paths. Nothing
/// comes back where the changes of a file do not fit together.
pub fn try_apply(op: &Op, files: &Vec<(String, String)>) -> (r: Option<Result<Applied, String>>)
    requires
        table::ordered(table::stored_keys(files@)),
    ensures
        opt_result(r) == outcome(op@, text::text_pairs(files@)),
        r is Some && r->0 is Ok ==> table::ordered(table::stored_keys(r->0->Ok_0.files@)),
{
    match attempt(op, files) {
        Some(_) => Some(apply(op, files)),
        None => None,
    }
}

// ----------------------------------------------------------------- batches

/// The files with the first `n` of the others put in.
pub open spec fn put_all(
    files: Seq<(Seq<char>, Seq<char>)>,
    more: Seq<(Seq<char>, Seq<char>)>,
    n: nat,
) -> Seq<(Seq<char>, Seq<char>)>
    decreases n,
{
    if n == 0 {
        files
    } else {
        table::put(put_all(files, more, (n - 1) as nat), more[n - 1].0, more[n - 1].1)
    }
}

/// The notes of the `n`th op of a batch.
pub open spec fn numbered(notes: Seq<Seq<char>>, n: nat) -> Seq<Seq<char>> {
    Seq::new(notes.len(), |i: int| "op "@ + text::decimal(n) + ": "@ + notes[i])
}

/// What a batch came to so far, with what its `n`th op came to. A call site
/// that an early op left alone but a later op changed is handled, not
/// unchanged.
pub open spec fn with_op(out: WorkText, x: WorkText, n: nat) -> WorkText {
    WorkText {
        files: put_all(out.files, x.files, x.files.len()),
        call_sites: out.call_sites + x.call_sites,
        left: sites::carried(out.left, x.layers, out.left.len()) + x.left,
        notes: out.notes + numbered(x.notes, n),
        layers: out.layers + x.layers,
    }
}

/// Why the `n`th op of a batch was refused.
pub open spec fn refusal(op: OpText, n: nat, why: Seq<char>) -> Seq<char> {
    "op "@ + text::decimal(n) + " ("@ + ops::op_kind(op) + ") refused: "@ + why
}

/// What the first `n` ops of a batch come to, each seeing the files as the
/// one before it left them: those files, and what was applied; or why one was
/// refused.
pub open spec fn batch_upto(ops: Seq<OpText>, files: Seq<(Seq<char>, Seq<char>)>, n: nat) -> Option<
    Result<(Seq<(Seq<char>, Seq<char>)>, WorkText), Seq<char>>,
>
    decreases n,
{
    if n == 0 {
        Some(Ok((files, nothing_applied())))
    } else {
        match batch_upto(ops, files, (n - 1) as nat) {
            None => None,
            Some(Err(e)) => Some(Err(e)),
            Some(Ok((working, out))) => match work_outcome(ops[n - 1], working) {
                None => None,
                Some(Err(e)) => Some(Err(refusal(ops[n - 1], n, e))),
                Some(Ok(x)) => Some(
                    Ok((put_all(working, x.files, x.files.len()), with_op(out, x, n))),
                ),
            },
        }
    }
}

/// The notes among the first `n` that do not say that calls were only listed.
pub open spec fn notes_left(notes: Seq<Seq<char>>, n: nat) -> Seq<Seq<char>>
    decreases n,
{
    if n == 0 {
        Seq::empty()
    } else {
        let rest = notes_left(notes, (n - 1) as nat);
        if text::contains(notes[n - 1], "call sites listed, not changed"@) {
            rest
        } else {
            rest.push(notes[n - 1])
        }
    }
}

/// What a batch came to: where no call site is left unchanged, no note says
/// that some are.
pub open spec fn settled(a: WorkText) -> WorkText {
    WorkText {
        notes: if a.left.len() == 0 {
            notes_left(a.notes, a.notes.len())
        } else {
            a.notes
        },
        ..a
    }
}

/// What applying a batch comes to: all of it, or why one of its ops was
/// refused. There is no outcome where the changes of a file do not fit
/// together.
pub open spec fn batch_work(ops: Seq<OpText>, files: Seq<(Seq<char>, Seq<char>)>) -> Option<
    Result<WorkText, Seq<char>>,
> {
    match batch_upto(ops, files, ops.len()) {
        None => None,
        Some(Err(e)) => Some(Err(e)),
        Some(Ok((_, out))) => Some(Ok(settled(out))),
    }
}

/// What applying a batch comes to, as it is told.
pub open spec fn batch_outcome(ops: Seq<OpText>, files: Seq<(Seq<char>, Seq<char>)>) -> Option<
    Result<AppliedText, Seq<char>>,
> {
    told_result(batch_work(ops, files))
}

/// A batch ends with the first op that is refused, or whose changes do not
/// fit together.
proof fn lemma_batch_ends(ops: Seq<OpText>, files: Seq<(Seq<char>, Seq<char>)>, k: nat, n: nat)
    requires
        k <= n,
        batch_upto(ops, files, k) is None || batch_upto(ops, files, k)->0 is Err,
    ensures
        batch_upto(ops, files, n) == batch_upto(ops, files, k),
    decreases n - k,
{
    if k < n {
        lemma_batch_ends(ops, files, k, (n - 1) as nat);
    }
}

/// A refused op refuses the batch: nothing comes back to write, only which op
/// it was and why.
pub proof fn law_refused_op_refuses_batch(
    ops: Seq<OpText>,
    files: Seq<(Seq<char>, Seq<char>)>,
    k: nat,
    working: Seq<(Seq<char>, Seq<char>)>,
    out: WorkText,
    why: Seq<char>,
)
    requires
        k < ops.len(),
        batch_upto(ops, files, k) == Some(
            Ok::<(Seq<(Seq<char>, Seq<char>)>, WorkText), Seq<char>>((working, out)),
        ),
        work_outcome(ops[k as int], working) == Some(Err::<WorkText, Seq<char>>(why)),
    ensures
        batch_outcome(ops, files) == Some(
            Err::<AppliedText, Seq<char>>(refusal(ops[k as int], k + 1, why)),
        ),
{
    lemma_batch_ends(ops, files, k + 1, ops.len());
}

/// Every op of a batch sees the files as the one before it left them: an op
/// that is not the first is applied to the given files with everything put in
/// that the ops before it changed.
pub proof fn law_ops_build_on_each_other(
    ops: Seq<OpText>,
    files: Seq<(Seq<char>, Seq<char>)>,
    k: nat,
    working: Seq<(Seq<char>, Seq<char>)>,
    out: WorkText,
    x: WorkText,
)
    requires
        k < ops.len(),
        batch_upto(ops, files, k) == Some(
            Ok::<(Seq<(Seq<char>, Seq<char>)>, WorkText), Seq<char>>((working, out)),
        ),
        work_outcome(ops[k as int], working) == Some(Ok::<WorkText, Seq<char>>(x)),
    ensures
        batch_upto(ops, files, k + 1) == Some(
            Ok::<(Seq<(Seq<char>, Seq<char>)>, WorkText), Seq<char>>(
                (put_all(working, x.files, x.files.len()), with_op(out, x, k + 1)),
            ),
        ),
{
}

/// Other languages are refused, not guessed: an op on a file of one comes to
/// nothing but that refusal.
pub proof fn law_other_languages_are_refused(op: OpText, files: Seq<(Seq<char>, Seq<char>)>)
    requires
        ops::op_target(op).0 is Some,
        changes::family(ops::op_target(op).0->0) is None,
    ensures
        work_outcome(op, files) == Some(
            Err::<WorkText, Seq<char>>(unsupported(ops::op_target(op).0->0)),
        ),
{
}

/// Are these files among those?
pub open spec fn among(
    done: Seq<(Seq<char>, Seq<char>)>,
    files: Seq<(Seq<char>, Seq<char>)>,
) -> bool {
    forall|p: Seq<char>| #[trigger]
        text::listed(table::keys(done), p) ==> text::listed(table::keys(files), p)
}

/// A file put among files that are among others stays among them.
proof fn lemma_among_put(
    done: Seq<(Seq<char>, Seq<char>)>,
    files: Seq<(Seq<char>, Seq<char>)>,
    path: Seq<char>,
    content: Seq<char>,
)
    requires
        table::ordered(table::keys(done)),
        among(done, files),
        text::listed(table::keys(files), path),
    ensures
        table::ordered(table::keys(table::put(done, path, content))),
        among(table::put(done, path, content), files),
{
    table::lemma_put(done, path, content);
    let next = table::put(done, path, content);
    assert forall|p: Seq<char>| #[trigger] text::listed(table::keys(next), p) implies text::listed(
        table::keys(files),
        p,
    ) by {
        assert(p == path || text::listed(table::keys(done), p));
    }
}

/// What a wish makes of files touches no others.
proof fn lemma_with_files_among(
    a: WorkText,
    files: Seq<(Seq<char>, Seq<char>)>,
    f: Family,
    def_path: Seq<char>,
    symbol: Seq<char>,
    within: Seq<Seq<char>>,
    w: WishText,
    n: nat,
)
    requires
        n <= files.len(),
        table::ordered(table::keys(a.files)),
        among(a.files, files),
    ensures
        with_files(a, files, f, def_path, symbol, within, w, n) matches Some(x) ==> table::ordered(
            table::keys(x.files),
        ) && among(x.files, files),
    decreases n,
{
    if n > 0 {
        lemma_with_files_among(a, files, f, def_path, symbol, within, w, (n - 1) as nat);
        if let Some(rest) = with_files(a, files, f, def_path, symbol, within, w, (n - 1) as nat) {
            let path = files[n - 1].0;
            assert(table::keys(files)[n - 1] == path);
            assert(text::listed(table::keys(files), path));
            let base = match table::value(rest.files, path) {
                Some(new) => new,
                None => files[n - 1].1,
            };
            if let Some(x) = step(path, base, f, def_path, symbol, w) {
                if let Some(content) = x.content {
                    lemma_among_put(rest.files, files, path, content);
                }
            }
        }
    }
}

/// What a rename makes of files touches no others.
proof fn lemma_renamed_among(
    files: Seq<(Seq<char>, Seq<char>)>,
    symbol: Seq<char>,
    new_name: Seq<char>,
    n: nat,
)
    requires
        n <= files.len(),
    ensures
        renamed_upto(files, symbol, new_name, n) matches Some(done) ==> table::ordered(
            table::keys(done.files),
        ) && among(done.files, files),
    decreases n,
{
    assert(table::keys(nothing_applied().files) =~= Seq::<Seq<char>>::empty());
    if n > 0 {
        lemma_renamed_among(files, symbol, new_name, (n - 1) as nat);
        if let Some(done) = renamed_upto(files, symbol, new_name, (n - 1) as nat) {
            let path = files[n - 1].0;
            assert(table::keys(files)[n - 1] == path);
            assert(text::listed(table::keys(files), path));
            if let Some(next) = rename_in(done, path, files[n - 1].1, symbol, new_name) {
                if next != done {
                    let s = files[n - 1].1;
                    let t = changes::tree_of(path, s)->0;
                    let f = changes::family(path)->0;
                    let new = changes::spliced(
                        s,
                        rename_changes(t, s, f, symbol, new_name, t.len()),
                    )->0;
                    lemma_among_put(done.files, files, path, new);
                }
            }
        }
    }
}

/// What an op makes of files touches no others, and is a table.
proof fn lemma_op_files(op: OpText, files: Seq<(Seq<char>, Seq<char>)>, x: WorkText)
    requires
        table::ordered(table::keys(files)),
        op_outcome(op, files) == Some(Ok::<WorkText, Seq<char>>(x)),
    ensures
        among(x.files, files),
        table::ordered(table::keys(x.files)),
{
    let none = nothing_applied().files;
    assert(table::keys(none) =~= Seq::<Seq<char>>::empty());
    assert(among(none, files));
    if let Some(path) = ops::op_target(op).0 {
        if let Ok((f, s, t)) = defining_file(files, path) {
            table::lemma_seat(table::keys(files), path, 0);
            table::lemma_holds(table::keys(files), path);
            assert(text::listed(table::keys(files), path));
            assert forall|new: Seq<char>|
                table::ordered(table::keys(#[trigger] table::put(none, path, new))) && among(
                    table::put(none, path, new),
                    files,
                ) by {
                lemma_among_put(none, files, path, new);
            }
        }
    }
    match op {
        OpText::Rename { symbol, new_name } => {
            lemma_renamed_among(files, symbol, new_name, files.len());
        },
        OpText::AddParam { path, symbol, name, type_, default, call_arg } => {
            let (f, s, t) = defining_file(files, path)->Ok_0;
            let list = (changes::definition_from(t, s, f, symbol, "parameters"@, 0)->0).1;
            let param = changes::param_text(name, type_, default);
            let a = edited(path, s, changes::param_added(t, list, param))->0;
            let wish = match call_arg {
                Some(arg) => WishText::PassNamed { name, arg },
                None => WishText::Tell,
            };
            lemma_with_files_among(
                a,
                files,
                f,
                path,
                symbol,
                Seq::empty(),
                wish,
                files.len(),
            );
        },
        OpText::RemoveParam { path, symbol, name } => {
            let (f, s, t) = defining_file(files, path)->Ok_0;
            let (list, position) = changes::param_from(t, s, f, symbol, name, 0)->0;
            let victim = tree::named_kids(t, list)[position as int];
            let a = edited(path, s, changes::removal(t, s, list, victim))->0;
            lemma_with_files_among(
                a,
                files,
                f,
                path,
                symbol,
                Seq::empty(),
                (WishText::Take { name, position }),
                files.len(),
            );
        },
        OpText::PassArg { path, symbol, arg, within, optional } => {
            let f = changes::family(path)->0;
            lemma_with_files_among(
                nothing_applied(),
                files,
                f,
                path,
                symbol,
                within,
                (WishText::Pass { arg }),
                files.len(),
            );
        },
        OpText::ReplaceBody { path, symbol, body } => {},
    }
}

/// An op touches only the files it was given, and comes back with those alone
/// whose content it changed.
pub proof fn law_only_given_files(op: OpText, files: Seq<(Seq<char>, Seq<char>)>, x: AppliedText)
    requires
        table::ordered(table::keys(files)),
        outcome(op, files) == Some(Ok::<AppliedText, Seq<char>>(x)),
    ensures
        among(x.files, files),
        table::ordered(table::keys(x.files)),
        forall|i: int|
            0 <= i < x.files.len() ==> table::value(files, (#[trigger] x.files[i]).0) is Some
                && table::value(files, x.files[i].0) != Some(x.files[i].1),
{
    lemma_work_files(op, files, work_outcome(op, files)->0->Ok_0);
}

/// An op touches only the files it was given, and comes back with those alone
/// whose content it changed.
proof fn lemma_work_files(op: OpText, files: Seq<(Seq<char>, Seq<char>)>, x: WorkText)
    requires
        table::ordered(table::keys(files)),
        work_outcome(op, files) == Some(Ok::<WorkText, Seq<char>>(x)),
    ensures
        among(x.files, files),
        table::ordered(table::keys(x.files)),
        forall|i: int|
            0 <= i < x.files.len() ==> table::value(files, (#[trigger] x.files[i]).0) is Some
                && table::value(files, x.files[i].0) != Some(x.files[i].1),
{
    let a = op_outcome(op, files)->0->Ok_0;
    lemma_op_files(op, files, a);
    lemma_changed_upto(files, a.files, a.files.len());
    assert forall|p: Seq<char>| #[trigger] text::listed(table::keys(x.files), p) implies text::listed(
        table::keys(files),
        p,
    ) by {
        let i = choose|i: int| 0 <= i < table::keys(x.files).len() && #[trigger] table::keys(x.files)[i] == p;
        let j = choose|j: int| 0 <= j < a.files.len() && a.files[j] == x.files[i];
        assert(table::keys(a.files)[j] == p);
        assert(text::listed(table::keys(a.files), p));
    }
    assert forall|i: int| 0 <= i < x.files.len() implies table::value(
        files,
        (#[trigger] x.files[i]).0,
    ) is Some by {
        let p = x.files[i].0;
        assert(table::keys(x.files)[i] == p);
        assert(text::listed(table::keys(x.files), p));
        table::lemma_holds(table::keys(files), p);
    }
}

/// Files put into a table keep it a table; they hold what they hold, and the
/// rest holds what it held.
proof fn lemma_put_all(
    files: Seq<(Seq<char>, Seq<char>)>,
    more: Seq<(Seq<char>, Seq<char>)>,
    n: nat,
    key: Seq<char>,
)
    requires
        n <= more.len(),
        table::ordered(table::keys(files)),
        table::ordered(table::keys(more)),
    ensures
        table::ordered(table::keys(put_all(files, more, n))),
        table::value(put_all(files, more, n), key) == (if table::holds(table::keys(more), key)
            && table::seat(table::keys(more), key) < n {
            table::value(more, key)
        } else {
            table::value(files, key)
        }),
    decreases n,
{
    table::lemma_seat(table::keys(more), key, 0);
    if n > 0 {
        lemma_put_all(files, more, (n - 1) as nat, key);
        let rest = put_all(files, more, (n - 1) as nat);
        table::lemma_put(rest, more[n - 1].0, more[n - 1].1);
        table::lemma_value(more, n - 1);
        assert(table::keys(more)[n - 1] == more[n - 1].0);
        table::lemma_place(table::keys(more), more[n - 1].0, n - 1);
        let next = table::put(rest, more[n - 1].0, more[n - 1].1);
        assert(put_all(files, more, n) == next);
        if key == more[n - 1].0 {
            assert(table::seat(table::keys(more), key) == n - 1);
            assert(table::value(next, key) == table::value(more, key));
        } else {
            assert(table::value(next, key) == table::value(rest, key));
            if table::holds(table::keys(more), key) {
                assert(table::keys(more)[table::seat(table::keys(more), key)] == key);
                assert(table::seat(table::keys(more), key) != n - 1);
            }
        }
    }
}

/// It is the same to put files in and then others, and to put the others into
/// the files before all of them go in.
proof fn lemma_put_all_twice(
    files: Seq<(Seq<char>, Seq<char>)>,
    more: Seq<(Seq<char>, Seq<char>)>,
    last: Seq<(Seq<char>, Seq<char>)>,
)
    requires
        table::ordered(table::keys(files)),
        table::ordered(table::keys(more)),
        table::ordered(table::keys(last)),
    ensures
        put_all(put_all(files, more, more.len()), last, last.len()) == put_all(
            files,
            put_all(more, last, last.len()),
            put_all(more, last, last.len()).len(),
        ),
{
    let first = put_all(files, more, more.len());
    let both = put_all(more, last, last.len());
    let a = put_all(first, last, last.len());
    let b = put_all(files, both, both.len());
    lemma_put_all(files, more, more.len(), Seq::empty());
    lemma_put_all(more, last, last.len(), Seq::empty());
    lemma_put_all(first, last, last.len(), Seq::empty());
    lemma_put_all(files, both, both.len(), Seq::empty());
    assert forall|k: Seq<char>| #[trigger] table::value(a, k) == table::value(b, k) by {
        lemma_put_all(files, more, more.len(), k);
        lemma_put_all(more, last, last.len(), k);
        lemma_put_all(first, last, last.len(), k);
        lemma_put_all(files, both, both.len(), k);
    }
    table::lemma_same_table(a, b);
}

/// The files as a batch leaves them are the given ones with what it changed
/// put in.
proof fn lemma_batch_files(ops: Seq<OpText>, files: Seq<(Seq<char>, Seq<char>)>, n: nat)
    requires
        n <= ops.len(),
        table::ordered(table::keys(files)),
    ensures
        batch_upto(ops, files, n) matches Some(Ok((working, out))) ==> table::ordered(
            table::keys(working),
        ) && table::ordered(table::keys(out.files)) && working == put_all(
            files,
            out.files,
            out.files.len(),
        ),
    decreases n,
{
    if n == 0 {
        assert(table::keys(nothing_applied().files) =~= Seq::<Seq<char>>::empty());
    } else {
        lemma_batch_files(ops, files, (n - 1) as nat);
        if let Some(Ok((working, out))) = batch_upto(ops, files, (n - 1) as nat) {
            if let Some(Ok(x)) = work_outcome(ops[n - 1], working) {
                lemma_work_files(ops[n - 1], working, x);
                lemma_put_all(working, x.files, x.files.len(), Seq::empty());
                lemma_put_all(out.files, x.files, x.files.len(), Seq::empty());
                lemma_put_all_twice(files, out.files, x.files);
            }
        }
    }
}

/// A batch starts as the batch of its first ops does.
proof fn lemma_batch_starts(
    a: Seq<OpText>,
    b: Seq<OpText>,
    files: Seq<(Seq<char>, Seq<char>)>,
    n: nat,
)
    requires
        n <= a.len(),
    ensures
        batch_upto(a + b, files, n) == batch_upto(a, files, n),
    decreases n,
{
    if n > 0 {
        lemma_batch_starts(a, b, files, (n - 1) as nat);
        assert((a + b)[n - 1] == a[n - 1]);
    }
}

/// Is `z` what two batches came to, one after the other: the files, the call
/// sites and the edits of both, and the calls left alone by the first that are
/// so still after the edits of the second, with those left alone by it?
pub open spec fn both_applied(x: WorkText, y: WorkText, z: WorkText) -> bool {
    &&& z.files == put_all(x.files, y.files, y.files.len())
    &&& z.call_sites == x.call_sites + y.call_sites
    &&& z.left == sites::carried(x.left, y.layers, x.left.len()) + y.left
    &&& z.layers == x.layers + y.layers
}

/// Do the two errors name the same op, the second counting `more` ops before
/// it?
pub open spec fn same_refusal(b: Seq<OpText>, more: nat, e: Seq<char>, d: Seq<char>) -> bool {
    exists|k: nat, why: Seq<char>|
        k < b.len() && e == #[trigger] refusal(b[k as int], k + 1, why) && d == refusal(
            b[k as int],
            more + k + 1,
            why,
        )
}

/// One op more after two batches is one op more in the second.
proof fn lemma_both_applied(
    out: WorkText,
    y: WorkText,
    z: WorkText,
    x: WorkText,
    n: nat,
    m: nat,
)
    requires
        both_applied(out, y, z),
        table::ordered(table::keys(out.files)),
        table::ordered(table::keys(y.files)),
        table::ordered(table::keys(x.files)),
    ensures
        both_applied(out, with_op(y, x, n), with_op(z, x, m)),
{
    let u = out.left;
    let v = y.left;
    let kept = sites::carried(u, y.layers, u.len());
    lemma_put_all_twice(out.files, y.files, x.files);
    sites::lemma_carried_both(kept, v, x.layers, v.len());
    sites::lemma_carried_twice(u, y.layers, x.layers, u.len());
    let y2 = with_op(y, x, n);
    let z2 = with_op(z, x, m);
    assert(z2.call_sites =~= out.call_sites + y2.call_sites);
    assert(z2.layers =~= out.layers + y2.layers);
    assert(z.left.len() == kept.len() + v.len());
    assert(z2.left =~= sites::carried(u, y2.layers, u.len()) + y2.left);
}

/// The first `n` ops of a second batch do what they do after the first one.
#[verifier::spinoff_prover]
#[verifier::rlimit(60)]
proof fn lemma_batches_join(
    a: Seq<OpText>,
    b: Seq<OpText>,
    files: Seq<(Seq<char>, Seq<char>)>,
    working: Seq<(Seq<char>, Seq<char>)>,
    out: WorkText,
    n: nat,
)
    requires
        n <= b.len(),
        table::ordered(table::keys(files)),
        batch_upto(a, files, a.len()) == Some(
            Ok::<(Seq<(Seq<char>, Seq<char>)>, WorkText), Seq<char>>((working, out)),
        ),
    ensures
        match batch_upto(b, working, n) {
            None => batch_upto(a + b, files, a.len() + n) is None,
            Some(Err(e)) => batch_upto(a + b, files, a.len() + n) matches Some(Err(d))
                && same_refusal(b, a.len(), e, d),
            Some(Ok((w, y))) => batch_upto(a + b, files, a.len() + n) matches Some(Ok((v, z)))
                && v == w && both_applied(out, y, z),
        },
    decreases n,
{
    lemma_batch_files(a, files, a.len());
    if n == 0 {
        lemma_batch_starts(a, b, files, a.len());
        let y = nothing_applied();
        sites::lemma_carried_none(out.left, out.left.len());
        assert(out.call_sites + y.call_sites =~= out.call_sites);
        assert(out.layers + y.layers =~= out.layers);
        assert(out.left.take(out.left.len() as int) + y.left =~= out.left);
        assert(both_applied(out, y, out));
    } else {
        lemma_batches_join(a, b, files, working, out, (n - 1) as nat);
        let all = a + b;
        assert(all[a.len() + n - 1] == b[n - 1]);
        if let Some(Ok((w, y))) = batch_upto(b, working, (n - 1) as nat) {
            let z = (batch_upto(all, files, (a.len() + n - 1) as nat)->0->Ok_0).1;
            lemma_batch_files(b, working, (n - 1) as nat);
            match work_outcome(b[n - 1], w) {
                Some(Ok(x)) => {
                    lemma_work_files(b[n - 1], w, x);
                    lemma_both_applied(out, y, z, x, n, a.len() + n);
                },
                Some(Err(why)) => {
                    let k = (n - 1) as nat;
                    let e = refusal(b[k as int], k + 1, why);
                    let d = refusal(b[k as int], a.len() + k + 1, why);
                    assert(same_refusal(b, a.len(), e, d));
                },
                None => {},
            }
        }
    }
}

/// Two batches, the second on the files as the first left them, come to what
/// the one batch of all their ops comes to: the same files, call sites and
/// unchanged call sites, and no outcome or a refusal where one of the two has
/// none or is refused, of the same op and for the same reason.
pub proof fn law_batches_join(
    a: Seq<OpText>,
    b: Seq<OpText>,
    files: Seq<(Seq<char>, Seq<char>)>,
)
    requires
        table::ordered(table::keys(files)),
    ensures
        match batch_outcome(a, files) {
            None => batch_outcome(a + b, files) is None,
            Some(Err(e)) => batch_outcome(a + b, files) == Some(Err::<AppliedText, Seq<char>>(e)),
            Some(Ok(x)) => match batch_outcome(b, put_all(files, x.files, x.files.len())) {
                None => batch_outcome(a + b, files) is None,
                Some(Err(e)) => batch_outcome(a + b, files) matches Some(Err(d)) && same_refusal(
                    b,
                    a.len(),
                    e,
                    d,
                ),
                Some(Ok(y)) => batch_outcome(a + b, files) matches Some(Ok(z)) && z.files
                    == put_all(x.files, y.files, y.files.len()) && z.call_sites == x.call_sites
                    + y.call_sites,
            },
        },
        batch_work(a, files) matches Some(Ok(x)) ==> (batch_work(
            b,
            put_all(files, x.files, x.files.len()),
        ) matches Some(Ok(y)) ==> (batch_work(a + b, files) matches Some(Ok(z)) && both_applied(
            x,
            y,
            z,
        ))),
{
    lemma_batch_starts(a, b, files, a.len());
    lemma_batch_files(a, files, a.len());
    match batch_upto(a, files, a.len()) {
        Some(Ok((working, out))) => {
            lemma_batches_join(a, b, files, working, out, b.len());
        },
        _ => {
            lemma_batch_ends(a + b, files, a.len(), (a + b).len());
        },
    }
}

/// Does what an op comes to depend on what the file holds, or change it? A
/// rename looks at every file with typed edits, an op on a definition at the
/// files of its family of languages, `pass_arg` at those of them that it falls
/// to, and `replace_body` at the one file.
pub open spec fn looks_at(op: OpText, path: Seq<char>) -> bool {
    match op {
        OpText::Rename { .. } => changes::family(path) is Some,
        OpText::AddParam { path: def, .. } => changes::family(def) is Some && changes::family(path)
            == changes::family(def),
        OpText::RemoveParam { path: def, .. } => changes::family(def) is Some && changes::family(
            path,
        ) == changes::family(def),
        OpText::PassArg { path: def, within, .. } => changes::family(def) is Some
            && changes::family(path) == changes::family(def) && falls_within(path, within),
        OpText::ReplaceBody { path: def, .. } => path == def,
    }
}

/// Are these the same files, and does each hold the same where the op looks?
pub open spec fn same_for(
    op: OpText,
    f: Seq<(Seq<char>, Seq<char>)>,
    g: Seq<(Seq<char>, Seq<char>)>,
) -> bool {
    &&& f.len() == g.len()
    &&& forall|i: int|
        #![trigger f[i]]
        #![trigger g[i]]
        0 <= i < f.len() ==> f[i].0 == g[i].0 && (looks_at(op, f[i].0) ==> f[i].1 == g[i].1)
}

/// What a wish makes of files depends on no others than those it falls to.
proof fn lemma_with_files_same(
    a: WorkText,
    f: Seq<(Seq<char>, Seq<char>)>,
    g: Seq<(Seq<char>, Seq<char>)>,
    family: Family,
    def_path: Seq<char>,
    symbol: Seq<char>,
    within: Seq<Seq<char>>,
    w: WishText,
    n: nat,
)
    requires
        n <= f.len() == g.len(),
        forall|i: int|
            #![trigger f[i]]
            #![trigger g[i]]
            0 <= i < f.len() ==> f[i].0 == g[i].0 && (changes::family(f[i].0) == Some(family)
                && falls_within(f[i].0, within) ==> f[i].1 == g[i].1),
    ensures
        with_files(a, f, family, def_path, symbol, within, w, n) == with_files(
            a,
            g,
            family,
            def_path,
            symbol,
            within,
            w,
            n,
        ),
    decreases n,
{
    if n > 0 {
        lemma_with_files_same(a, f, g, family, def_path, symbol, within, w, (n - 1) as nat);
        assert(f[n - 1].0 == g[n - 1].0);
    }
}

/// What a rename makes of files depends on those with typed edits alone.
proof fn lemma_renamed_same(
    f: Seq<(Seq<char>, Seq<char>)>,
    g: Seq<(Seq<char>, Seq<char>)>,
    symbol: Seq<char>,
    new_name: Seq<char>,
    n: nat,
)
    requires
        n <= f.len() == g.len(),
        forall|i: int|
            #![trigger f[i]]
            #![trigger g[i]]
            0 <= i < f.len() ==> f[i].0 == g[i].0 && (changes::family(f[i].0) is Some ==> f[i].1
                == g[i].1),
    ensures
        renamed_upto(f, symbol, new_name, n) == renamed_upto(g, symbol, new_name, n),
    decreases n,
{
    if n > 0 {
        lemma_renamed_same(f, g, symbol, new_name, (n - 1) as nat);
        assert(f[n - 1].0 == g[n - 1].0);
    }
}

/// A file that an op looks at holds the same.
proof fn lemma_value_same(
    op: OpText,
    f: Seq<(Seq<char>, Seq<char>)>,
    g: Seq<(Seq<char>, Seq<char>)>,
    path: Seq<char>,
)
    requires
        same_for(op, f, g),
        looks_at(op, path),
    ensures
        table::value(f, path) == table::value(g, path),
{
    assert(table::keys(f) =~= table::keys(g));
    table::lemma_seat(table::keys(f), path, 0);
    if table::holds(table::keys(f), path) {
        let i = table::seat(table::keys(f), path);
        assert(f[i].0 == path);
    }
}

/// What an op makes of files depends on no others than those it looks at.
proof fn lemma_op_same(
    op: OpText,
    f: Seq<(Seq<char>, Seq<char>)>,
    g: Seq<(Seq<char>, Seq<char>)>,
)
    requires
        same_for(op, f, g),
    ensures
        op_outcome(op, f) == op_outcome(op, g),
{
    if let Some(def) = ops::op_target(op).0 {
        if changes::family(def) is Some && !(op is PassArg) {
            lemma_value_same(op, f, g, def);
        }
    }
    match op {
        OpText::Rename { symbol, new_name } => {
            lemma_renamed_same(f, g, symbol, new_name, f.len());
        },
        OpText::AddParam { path, symbol, name, type_, default, call_arg } => {
            let wish = match call_arg {
                Some(arg) => WishText::PassNamed { name, arg },
                None => WishText::Tell,
            };
            if let Ok((family, s, t)) = defining_file(f, path) {
                if let Some((_, list)) = changes::definition_from(
                    t,
                    s,
                    family,
                    symbol,
                    "parameters"@,
                    0,
                ) {
                    let c = changes::param_added(t, list, changes::param_text(name, type_, default));
                    if let Some(start) = edited(path, s, c) {
                        lemma_with_files_same(
                            start,
                            f,
                            g,
                            family,
                            path,
                            symbol,
                            Seq::empty(),
                            wish,
                            f.len(),
                        );
                    }
                }
            }
        },
        OpText::RemoveParam { path, symbol, name } => {
            if let Ok((family, s, t)) = defining_file(f, path) {
                if let Some((list, position)) = changes::param_from(t, s, family, symbol, name, 0) {
                    let c = changes::removal(t, s, list, tree::named_kids(t, list)[position as int]);
                    if let Some(start) = edited(path, s, c) {
                        lemma_with_files_same(
                            start,
                            f,
                            g,
                            family,
                            path,
                            symbol,
                            Seq::empty(),
                            (WishText::Take { name, position }),
                            f.len(),
                        );
                    }
                }
            }
        },
        OpText::PassArg { path, symbol, arg, within, optional } => {
            if let Some(family) = changes::family(path) {
                lemma_with_files_same(
                    nothing_applied(),
                    f,
                    g,
                    family,
                    path,
                    symbol,
                    within,
                    (WishText::Pass { arg }),
                    f.len(),
                );
            }
        },
        OpText::ReplaceBody { path, symbol, body } => {},
    }
}

/// Is the file one of the given ones that the op looks at?
pub open spec fn seen(op: OpText, files: Seq<(Seq<char>, Seq<char>)>, p: Seq<char>) -> bool {
    looks_at(op, p) && text::listed(table::keys(files), p)
}

/// Is everything that was applied in files that the op sees, and does every
/// edit change ranges that lie apart?
pub open spec fn stays_in(op: OpText, files: Seq<(Seq<char>, Seq<char>)>, w: WorkText) -> bool {
    &&& table::ordered(table::keys(w.files))
    &&& forall|p: Seq<char>| #[trigger] text::listed(table::keys(w.files), p) ==> seen(op, files, p)
    &&& forall|i: int|
        0 <= i < w.layers.len() ==> seen(op, files, (#[trigger] w.layers[i]).path)
            && changes::apart(w.layers[i].content, w.layers[i].changes)
    &&& forall|i: int| 0 <= i < w.left.len() ==> seen(op, files, (#[trigger] w.left[i]).path)
}

/// Nothing applied is in no file.
proof fn lemma_nothing_stays_in(op: OpText, files: Seq<(Seq<char>, Seq<char>)>)
    ensures
        stays_in(op, files, nothing_applied()),
{
    assert(table::keys(nothing_applied().files) =~= Seq::<Seq<char>>::empty());
}

/// One more file that the op sees, edited, with calls left alone.
proof fn lemma_stays_in_put(
    op: OpText,
    files: Seq<(Seq<char>, Seq<char>)>,
    w: WorkText,
    path: Seq<char>,
    content: Seq<char>,
)
    requires
        stays_in(op, files, w),
        seen(op, files, path),
    ensures
        stays_in(op, files, (WorkText { files: table::put(w.files, path, content), ..w })),
{
    table::lemma_put(w.files, path, content);
    let next = table::put(w.files, path, content);
    assert forall|p: Seq<char>| #[trigger] text::listed(table::keys(next), p) implies seen(
        op,
        files,
        p,
    ) by {
        assert(p == path || text::listed(table::keys(w.files), p));
    }
}

/// What a wish makes of files is in files that the op sees.
proof fn lemma_with_files_stays_in(
    op: OpText,
    a: WorkText,
    files: Seq<(Seq<char>, Seq<char>)>,
    f: Family,
    def_path: Seq<char>,
    symbol: Seq<char>,
    within: Seq<Seq<char>>,
    w: WishText,
    n: nat,
)
    requires
        n <= files.len(),
        stays_in(op, files, a),
        forall|p: Seq<char>|
            changes::family(p) == Some(f) && falls_within(p, within) ==> #[trigger] looks_at(op, p),
    ensures
        with_files(a, files, f, def_path, symbol, within, w, n) matches Some(x) ==> stays_in(
            op,
            files,
            x,
        ),
    decreases n,
{
    if n > 0 {
        lemma_with_files_stays_in(op, a, files, f, def_path, symbol, within, w, (n - 1) as nat);
        if let Some(rest) = with_files(a, files, f, def_path, symbol, within, w, (n - 1) as nat) {
            let path = files[n - 1].0;
            assert(table::keys(files)[n - 1] == path);
            assert(text::listed(table::keys(files), path));
            let base = match table::value(rest.files, path) {
                Some(new) => new,
                None => files[n - 1].1,
            };
            if changes::family(path) == Some(f) && falls_within(path, within) {
                assert(looks_at(op, path));
                if let Some(x) = step(path, base, f, def_path, symbol, w) {
                    if let Some(content) = x.content {
                        lemma_stays_in_put(op, files, rest, path, content);
                    }
                }
            }
        }
    }
}

/// What a rename makes of files is in files that the op sees.
proof fn lemma_renamed_stays_in(
    files: Seq<(Seq<char>, Seq<char>)>,
    symbol: Seq<char>,
    new_name: Seq<char>,
    n: nat,
)
    requires
        n <= files.len(),
    ensures
        renamed_upto(files, symbol, new_name, n) matches Some(done) ==> stays_in(
            (OpText::Rename { symbol, new_name }),
            files,
            done,
        ),
    decreases n,
{
    let op = OpText::Rename { symbol, new_name };
    lemma_nothing_stays_in(op, files);
    if n > 0 {
        lemma_renamed_stays_in(files, symbol, new_name, (n - 1) as nat);
        if let Some(done) = renamed_upto(files, symbol, new_name, (n - 1) as nat) {
            let path = files[n - 1].0;
            let s = files[n - 1].1;
            assert(table::keys(files)[n - 1] == path);
            assert(text::listed(table::keys(files), path));
            if let (Some(f), Some(t)) = (changes::family(path), changes::tree_of(path, s)) {
                let v = rename_changes(t, s, f, symbol, new_name, t.len());
                if let Some(new) = changes::spliced(s, v) {
                    lemma_stays_in_put(op, files, done, path, new);
                }
            }
        }
    }
}

/// One edited file that the op sees.
proof fn lemma_edited_stays_in(
    op: OpText,
    files: Seq<(Seq<char>, Seq<char>)>,
    path: Seq<char>,
    s: Seq<char>,
    c: ChangeText,
)
    requires
        seen(op, files, path),
    ensures
        edited(path, s, c) matches Some(x) ==> stays_in(op, files, x),
{
    lemma_nothing_stays_in(op, files);
    if let Some(new) = changes::spliced(s, seq![c]) {
        lemma_stays_in_put(op, files, nothing_applied(), path, new);
    }
}

/// What an op comes to is in files that it sees.
proof fn lemma_op_stays_in(op: OpText, files: Seq<(Seq<char>, Seq<char>)>)
    requires
        table::ordered(table::keys(files)),
    ensures
        op_outcome(op, files) matches Some(Ok(x)) ==> stays_in(op, files, x),
{
    lemma_nothing_stays_in(op, files);
    if let Some(def) = ops::op_target(op).0 {
        if let Ok((f, s, t)) = defining_file(files, def) {
            table::lemma_seat(table::keys(files), def, 0);
            table::lemma_holds(table::keys(files), def);
            assert(text::listed(table::keys(files), def));
        }
    }
    match op {
        OpText::Rename { symbol, new_name } => {
            lemma_renamed_stays_in(files, symbol, new_name, files.len());
        },
        OpText::AddParam { path, symbol, name, type_, default, call_arg } => {
            let wish = match call_arg {
                Some(arg) => WishText::PassNamed { name, arg },
                None => WishText::Tell,
            };
            if let Ok((f, s, t)) = defining_file(files, path) {
                if let Some((_, list)) = changes::definition_from(t, s, f, symbol, "parameters"@, 0) {
                    let c = changes::param_added(t, list, changes::param_text(name, type_, default));
                    lemma_edited_stays_in(op, files, path, s, c);
                    if let Some(start) = edited(path, s, c) {
                        lemma_with_files_stays_in(
                            op,
                            start,
                            files,
                            f,
                            path,
                            symbol,
                            Seq::empty(),
                            wish,
                            files.len(),
                        );
                    }
                }
            }
        },
        OpText::RemoveParam { path, symbol, name } => {
            if let Ok((f, s, t)) = defining_file(files, path) {
                if let Some((list, position)) = changes::param_from(t, s, f, symbol, name, 0) {
                    let c = changes::removal(t, s, list, tree::named_kids(t, list)[position as int]);
                    lemma_edited_stays_in(op, files, path, s, c);
                    if let Some(start) = edited(path, s, c) {
                        lemma_with_files_stays_in(
                            op,
                            start,
                            files,
                            f,
                            path,
                            symbol,
                            Seq::empty(),
                            (WishText::Take { name, position }),
                            files.len(),
                        );
                    }
                }
            }
        },
        OpText::PassArg { path, symbol, arg, within, optional } => {
            if let Some(f) = changes::family(path) {
                lemma_with_files_stays_in(
                    op,
                    nothing_applied(),
                    files,
                    f,
                    path,
                    symbol,
                    within,
                    (WishText::Pass { arg }),
                    files.len(),
                );
            }
        },
        OpText::ReplaceBody { path, symbol, body } => {
            if let Ok((f, s, t)) = defining_file(files, path) {
                if let Some((def, block)) = changes::definition_from(t, s, f, symbol, "body"@, 0) {
                    if let Some(c) = body_change(t, s, f, def, block, body) {
                        lemma_edited_stays_in(op, files, path, s, c);
                    }
                }
            }
        },
    }
}

/// Every op changes ranges of a file that lie apart, so each of its changes is
/// made where the file has its range: the edits of whatever an op comes to are
/// such, and in files that it was given.
pub proof fn law_every_edit_lies_apart(
    op: OpText,
    files: Seq<(Seq<char>, Seq<char>)>,
    x: WorkText,
    i: int,
)
    requires
        table::ordered(table::keys(files)),
        work_outcome(op, files) == Some(Ok::<WorkText, Seq<char>>(x)),
        0 <= i < x.layers.len(),
    ensures
        changes::apart(x.layers[i].content, x.layers[i].changes),
        text::listed(table::keys(files), x.layers[i].path),
{
    lemma_op_stays_in(op, files);
    assert(seen(op, files, x.layers[i].path));
}

/// What an op comes to, with the files that changed alone, is in files that it
/// sees.
proof fn lemma_work_stays_in(op: OpText, files: Seq<(Seq<char>, Seq<char>)>)
    requires
        table::ordered(table::keys(files)),
    ensures
        work_outcome(op, files) matches Some(Ok(x)) ==> stays_in(op, files, x),
{
    lemma_op_stays_in(op, files);
    if let Some(Ok(a)) = op_outcome(op, files) {
        let x = without_same(a, files);
        lemma_changed_upto(files, a.files, a.files.len());
        assert forall|p: Seq<char>| #[trigger] text::listed(table::keys(x.files), p) implies seen(
            op,
            files,
            p,
        ) by {
            let i = choose|i: int|
                0 <= i < table::keys(x.files).len() && #[trigger] table::keys(x.files)[i] == p;
            let j = choose|j: int| 0 <= j < a.files.len() && a.files[j] == x.files[i];
            assert(table::keys(a.files)[j] == p);
            assert(text::listed(table::keys(a.files), p));
        }
    }
}

/// Which of the files an op comes back with changed depends on what it looks
/// at alone.
proof fn lemma_changed_same(
    op: OpText,
    f: Seq<(Seq<char>, Seq<char>)>,
    g: Seq<(Seq<char>, Seq<char>)>,
    done: Seq<(Seq<char>, Seq<char>)>,
    n: nat,
)
    requires
        n <= done.len(),
        same_for(op, f, g),
        forall|p: Seq<char>| #[trigger] text::listed(table::keys(done), p) ==> looks_at(op, p),
    ensures
        changed_upto(f, done, n) == changed_upto(g, done, n),
    decreases n,
{
    if n > 0 {
        lemma_changed_same(op, f, g, done, (n - 1) as nat);
        assert(table::keys(done)[n - 1] == done[n - 1].0);
        assert(text::listed(table::keys(done), done[n - 1].0));
        lemma_value_same(op, f, g, done[n - 1].0);
    }
}

/// What an op comes to depends on no other files than those it looks at.
pub proof fn law_an_op_depends_on_what_it_looks_at(
    op: OpText,
    f: Seq<(Seq<char>, Seq<char>)>,
    g: Seq<(Seq<char>, Seq<char>)>,
)
    requires
        table::ordered(table::keys(f)),
        same_for(op, f, g),
    ensures
        work_outcome(op, f) == work_outcome(op, g),
        outcome(op, f) == outcome(op, g),
{
    lemma_op_same(op, f, g);
    lemma_op_stays_in(op, f);
    if let Some(Ok(a)) = op_outcome(op, f) {
        lemma_changed_same(op, f, g, a.files, a.files.len());
    }
}

/// Putting files that a table holds into it keeps its keys.
proof fn lemma_put_all_keys(
    files: Seq<(Seq<char>, Seq<char>)>,
    more: Seq<(Seq<char>, Seq<char>)>,
    n: nat,
)
    requires
        n <= more.len(),
        table::ordered(table::keys(files)),
        forall|i: int|
            0 <= i < more.len() ==> text::listed(table::keys(files), (#[trigger] more[i]).0),
    ensures
        table::keys(put_all(files, more, n)) == table::keys(files),
    decreases n,
{
    if n > 0 {
        lemma_put_all_keys(files, more, (n - 1) as nat);
        let rest = put_all(files, more, (n - 1) as nat);
        let key = more[n - 1].0;
        table::lemma_seat(table::keys(rest), key, 0);
        table::lemma_holds(table::keys(rest), key);
        assert(text::listed(table::keys(files), key));
        assert(table::keys(table::put(rest, key, more[n - 1].1)) =~= table::keys(rest));
    }
}

/// To an op, files are the same after another op that looks at none of them.
proof fn lemma_same_after(
    a: OpText,
    b: OpText,
    files: Seq<(Seq<char>, Seq<char>)>,
    y: WorkText,
)
    requires
        table::ordered(table::keys(files)),
        work_outcome(b, files) == Some(Ok::<WorkText, Seq<char>>(y)),
        forall|i: int|
            0 <= i < files.len() ==> !(looks_at(a, (#[trigger] files[i]).0) && looks_at(
                b,
                files[i].0,
            )),
    ensures
        same_for(a, files, put_all(files, y.files, y.files.len())),
{
    lemma_work_stays_in(b, files);
    let g = put_all(files, y.files, y.files.len());
    assert forall|i: int| 0 <= i < y.files.len() implies text::listed(
        table::keys(files),
        (#[trigger] y.files[i]).0,
    ) by {
        assert(table::keys(y.files)[i] == y.files[i].0);
        assert(text::listed(table::keys(y.files), y.files[i].0));
    }
    lemma_put_all_keys(files, y.files, y.files.len());
    assert(table::keys(g).len() == table::keys(files).len());
    assert forall|i: int|
        #![trigger files[i]]
        #![trigger g[i]]
        0 <= i < files.len() implies files[i].0 == g[i].0 && (looks_at(a, files[i].0)
        ==> files[i].1 == g[i].1) by {
        let p = files[i].0;
        assert(table::keys(g)[i] == table::keys(files)[i]);
        if looks_at(a, p) {
            lemma_put_all(files, y.files, y.files.len(), p);
            table::lemma_holds(table::keys(y.files), p);
            if text::listed(table::keys(y.files), p) {
                assert(seen(b, files, p));
            }
            table::lemma_value(files, i);
            table::lemma_value(g, i);
        }
    }
}

/// What a batch of two ops comes to, where the second comes to the same with
/// and without the first.
proof fn lemma_batch_of_two(
    a: OpText,
    b: OpText,
    files: Seq<(Seq<char>, Seq<char>)>,
    x: WorkText,
    y: WorkText,
)
    requires
        table::ordered(table::keys(files)),
        table::ordered(table::keys(x.files)),
        work_outcome(a, files) == Some(Ok::<WorkText, Seq<char>>(x)),
        work_outcome(b, put_all(files, x.files, x.files.len())) == Some(
            Ok::<WorkText, Seq<char>>(y),
        ),
        forall|i: int, j: int|
            0 <= i < x.left.len() && 0 <= j < y.layers.len() ==> (#[trigger] y.layers[j]).path != (
            #[trigger] x.left[i]).path,
    ensures
        batch_work(seq![a, b], files) matches Some(Ok(z)) && z.files == put_all(
            x.files,
            y.files,
            y.files.len(),
        ) && z.call_sites == x.call_sites + y.call_sites && z.left == x.left + y.left,
{
    let ops = seq![a, b];
    let none = nothing_applied();
    assert(table::keys(none.files) =~= Seq::<Seq<char>>::empty());
    let one = with_op(none, x, 1);
    assert forall|k: Seq<char>| #[trigger] table::value(one.files, k) == table::value(
        x.files,
        k,
    ) by {
        lemma_put_all(none.files, x.files, x.files.len(), k);
        table::lemma_seat(table::keys(x.files), k, 0);
        assert(table::value(none.files, k) is None);
    }
    lemma_put_all(none.files, x.files, x.files.len(), Seq::empty());
    table::lemma_same_table(one.files, x.files);
    sites::lemma_carried_elsewhere(x.left, y.layers, x.left.len());
    assert(one.call_sites =~= x.call_sites);
    assert(one.left =~= x.left);
    assert(x.left.take(x.left.len() as int) =~= x.left);
    reveal_with_fuel(batch_upto, 3);
    assert(batch_upto(ops, files, 1) == Some(
        Ok::<(Seq<(Seq<char>, Seq<char>)>, WorkText), Seq<char>>(
            (put_all(files, x.files, x.files.len()), one),
        ),
    ));
}

/// Ops that look at different files commute: applied in either order they come
/// to the same files, to the calls that each changes and to those that each
/// leaves alone; and they come to nothing in both orders where one of them
/// does.
pub proof fn law_ops_on_different_files_commute(
    a: OpText,
    b: OpText,
    files: Seq<(Seq<char>, Seq<char>)>,
)
    requires
        table::ordered(table::keys(files)),
        forall|i: int|
            0 <= i < files.len() ==> !(looks_at(a, (#[trigger] files[i]).0) && looks_at(
                b,
                files[i].0,
            )),
    ensures
        match (outcome(a, files), outcome(b, files)) {
            (Some(Ok(x)), Some(Ok(y))) => {
                &&& batch_outcome(seq![a, b], files) matches Some(Ok(p)) && p.files == put_all(
                    x.files,
                    y.files,
                    y.files.len(),
                ) && p.call_sites == x.call_sites + y.call_sites && p.unchanged_call_sites
                    == x.unchanged_call_sites + y.unchanged_call_sites
                &&& batch_outcome(seq![b, a], files) matches Some(Ok(q)) && q.files == put_all(
                    x.files,
                    y.files,
                    y.files.len(),
                ) && q.call_sites == y.call_sites + x.call_sites && q.unchanged_call_sites
                    == y.unchanged_call_sites + x.unchanged_call_sites
            },
            _ => {
                &&& !(batch_outcome(seq![a, b], files) matches Some(Ok(_)))
                &&& !(batch_outcome(seq![b, a], files) matches Some(Ok(_)))
            },
        },
{
    lemma_work_stays_in(a, files);
    lemma_work_stays_in(b, files);
    lemma_one_after_other(a, b, files);
    lemma_one_after_other(b, a, files);
    if let (Some(Ok(x)), Some(Ok(y))) = (work_outcome(a, files), work_outcome(b, files)) {
        lemma_same_after(a, b, files, y);
        lemma_same_after(b, a, files, x);
        let after_a = put_all(files, x.files, x.files.len());
        let after_b = put_all(files, y.files, y.files.len());
        law_an_op_depends_on_what_it_looks_at(b, files, after_a);
        law_an_op_depends_on_what_it_looks_at(a, files, after_b);
        lemma_paths_apart(a, b, files);
        lemma_batch_of_two(a, b, files, x, y);
        lemma_batch_of_two(b, a, files, y, x);
        assert(sites::spots_of(x.left + y.left) =~= sites::spots_of(x.left) + sites::spots_of(
            y.left,
        ));
        assert(sites::spots_of(y.left + x.left) =~= sites::spots_of(y.left) + sites::spots_of(
            x.left,
        ));
        lemma_put_all(x.files, y.files, y.files.len(), Seq::empty());
        lemma_put_all(y.files, x.files, x.files.len(), Seq::empty());
        let one = put_all(x.files, y.files, y.files.len());
        let other = put_all(y.files, x.files, x.files.len());
        assert forall|k: Seq<char>| #[trigger] table::value(one, k) == table::value(other, k) by {
            lemma_put_all(x.files, y.files, y.files.len(), k);
            lemma_put_all(y.files, x.files, x.files.len(), k);
            table::lemma_seat(table::keys(x.files), k, 0);
            table::lemma_seat(table::keys(y.files), k, 0);
            table::lemma_holds(table::keys(x.files), k);
            table::lemma_holds(table::keys(y.files), k);
            if text::listed(table::keys(x.files), k) && text::listed(table::keys(y.files), k) {
                assert(seen(a, files, k) && seen(b, files, k));
                let i = choose|i: int|
                    0 <= i < table::keys(files).len() && #[trigger] table::keys(files)[i] == k;
                assert(files[i].0 == k);
            }
        }
        table::lemma_same_table(one, other);
    }
}

/// Where ops look at different files, so do the calls that one leaves alone
/// and the edits of the other lie in different files.
proof fn lemma_paths_apart(a: OpText, b: OpText, files: Seq<(Seq<char>, Seq<char>)>)
    requires
        forall|i: int|
            0 <= i < files.len() ==> !(looks_at(a, (#[trigger] files[i]).0) && looks_at(
                b,
                files[i].0,
            )),
    ensures
        forall|p: Seq<char>, q: Seq<char>|
            #[trigger] seen(a, files, p) && #[trigger] seen(b, files, q) ==> p != q,
{
    assert forall|p: Seq<char>, q: Seq<char>| #[trigger] seen(a, files, p) && #[trigger] seen(
        b,
        files,
        q,
    ) implies p != q by {
        let i = choose|i: int|
            0 <= i < table::keys(files).len() && #[trigger] table::keys(files)[i] == p;
        assert(files[i].0 == p);
    }
}

/// A batch of two ops comes to something only where both do, the second on the
/// files as they were given, which are the same to it after the first.
proof fn lemma_one_after_other(a: OpText, b: OpText, files: Seq<(Seq<char>, Seq<char>)>)
    requires
        table::ordered(table::keys(files)),
        forall|i: int|
            0 <= i < files.len() ==> !(looks_at(a, (#[trigger] files[i]).0) && looks_at(
                b,
                files[i].0,
            )),
    ensures
        batch_work(seq![a, b], files) matches Some(Ok(_)) ==> {
            &&& work_outcome(a, files) matches Some(Ok(_))
            &&& work_outcome(b, files) matches Some(Ok(_))
        },
{
    let ops = seq![a, b];
    reveal_with_fuel(batch_upto, 3);
    if let Some(Ok(x)) = work_outcome(a, files) {
        lemma_same_after(b, a, files, x);
        law_an_op_depends_on_what_it_looks_at(b, files, put_all(files, x.files, x.files.len()));
        assert(batch_upto(ops, files, 1) == Some(
            Ok::<(Seq<(Seq<char>, Seq<char>)>, WorkText), Seq<char>>(
                (put_all(files, x.files, x.files.len()), with_op(nothing_applied(), x, 1)),
            ),
        ));
    } else {
        lemma_batch_ends(ops, files, 1, 2);
    }
}

/// A rename touches identifiers alone: each of its changes is to a node that
/// is an identifier and reads as the symbol, so strings and comments stay.
pub proof fn law_rename_touches_identifiers(
    t: Seq<NodeText>,
    s: Seq<char>,
    f: Family,
    symbol: Seq<char>,
    new_name: Seq<char>,
    n: nat,
    i: int,
)
    requires
        n <= t.len(),
        0 <= i < rename_changes(t, s, f, symbol, new_name, n).len(),
    ensures
        exists|k: int|
            0 <= k < n && changes::names_something((#[trigger] t[k]).kind, f) && tree::node_text(
                s,
                t[k],
            ) == symbol && rename_changes(t, s, f, symbol, new_name, n)[i] == (ChangeText {
                start: t[k].start,
                end: t[k].end,
                text: new_name,
            }),
    decreases n,
{
    if n > 0 {
        let rest = rename_changes(t, s, f, symbol, new_name, (n - 1) as nat);
        if i < rest.len() {
            law_rename_touches_identifiers(t, s, f, symbol, new_name, (n - 1) as nat, i);
        } else {
            assert(changes::names_something(t[n - 1].kind, f));
        }
    }
}

/// Puts files into a table of files.
fn merge(files: &mut Vec<(String, String)>, more: &Vec<(String, String)>)
    requires
        table::ordered(table::stored_keys(old(files)@)),
    ensures
        text::text_pairs(final(files)@) == put_all(
            text::text_pairs(old(files)@),
            text::text_pairs(more@),
            more@.len(),
        ),
        table::ordered(table::stored_keys(final(files)@)),
{
    let ghost start = text::text_pairs(files@);
    let ghost all = text::text_pairs(more@);
    let mut k: usize = 0;
    while k < more.len()
        invariant
            k <= more.len(),
            all == text::text_pairs(more@),
            table::ordered(table::stored_keys(files@)),
            text::text_pairs(files@) == put_all(start, all, k as nat),
        decreases more.len() - k,
    {
        assert(all[k as int] == (more@[k as int].0@, more@[k as int].1@));
        table::set_text(files, more[k].0.clone(), more[k].1.clone());
        k += 1;
    }
}

/// Adds the notes of the `n`th op of a batch.
fn add_notes(notes: &mut Vec<String>, more: &Vec<String>, n: u64)
    ensures
        text::texts(final(notes)@) == text::texts(old(notes)@) + numbered(text::texts(more@), n as nat),
{
    let ghost done = text::texts(notes@);
    let ghost all = numbered(text::texts(more@), n as nat);
    let mut k: usize = 0;
    assert(done + all.take(0) =~= done);
    while k < more.len()
        invariant
            k <= more.len(),
            all == numbered(text::texts(more@), n as nat),
            text::texts(notes@) == done + all.take(k as int),
        decreases more.len() - k,
    {
        assert(text::texts(more@)[k as int] == more@[k as int]@);
        let count = text::number(n);
        let note = text::cat4("op ", count.as_str(), ": ", more[k].as_str());
        assert(note@ == all[k as int]);
        proof {
            text::lemma_texts_push(notes@, note);
        }
        notes.push(note);
        k += 1;
        assert((done + all.take(k - 1)).push(all[k - 1]) =~= done + all.take(k as int));
    }
    assert(all.take(all.len() as int) =~= all);
}

/// What a batch came to so far, with what its `n`th op came to.
fn add_op(out: Work, x: Work, n: u64) -> (r: Work)
    requires
        table::ordered(table::stored_keys(out.files@)),
    ensures
        r@ == with_op(out@, x@, n as nat),
        table::ordered(table::stored_keys(r.files@)),
{
    let mut out = out;
    let mut x = x;
    merge(&mut out.files, &x.files);
    assert(x@.files.len() == x.files@.len());
    add_notes(&mut out.notes, &x.notes, n);
    let ghost listed = out.call_sites@;
    let mut left = sites::carry(&out.left, &x.layers);
    let ghost kept = left@;
    let ghost edits = out.layers@;
    let ghost more_sites = x.call_sites@;
    let ghost more_left = x.left@;
    let ghost more_edits = x.layers@;
    assert(sites::site_texts(out.left@).len() == out.left@.len());
    out.call_sites.append(&mut x.call_sites);
    out.layers.append(&mut x.layers);
    left.append(&mut x.left);
    assert(spots(out.call_sites@) =~= spots(listed) + spots(more_sites));
    assert(sites::layer_texts(out.layers@) =~= sites::layer_texts(edits) + sites::layer_texts(
        more_edits,
    ));
    assert(sites::site_texts(left@) =~= sites::site_texts(kept) + sites::site_texts(more_left));
    Work { left, ..out }
}

/// What a batch came to.
fn settle(a: Work) -> (r: Work)
    ensures
        r@ == settled(a@),
        r.files@ == a.files@,
{
    assert(sites::site_texts(a.left@).len() == a.left@.len());
    assert(text::texts(a.notes@).len() == a.notes@.len());
    let notes = if a.left.len() == 0 {
        other_notes(&a.notes)
    } else {
        text::copy_texts(&a.notes)
    };
    Work { notes, ..a }
}

/// The notes that do not say that calls were only listed.
fn other_notes(notes: &Vec<String>) -> (r: Vec<String>)
    ensures
        text::texts(r@) == notes_left(text::texts(notes@), notes@.len()),
{
    let ghost all = text::texts(notes@);
    let mut out: Vec<String> = Vec::new();
    let mut k: usize = 0;
    assert(text::texts(out@) =~= Seq::<Seq<char>>::empty());
    while k < notes.len()
        invariant
            k <= notes.len(),
            all == text::texts(notes@),
            text::texts(out@) == notes_left(all, k as nat),
        decreases notes.len() - k,
    {
        assert(all[k as int] == notes@[k as int]@);
        if !text::has(notes[k].as_str(), "call sites listed, not changed") {
            let note = notes[k].clone();
            proof {
                text::lemma_texts_push(out@, note);
            }
            out.push(note);
        }
        k += 1;
    }
    out
}

/// What applying a batch comes to, where the changes fit together.
fn attempt_all(ops: &Vec<Op>, files: &Vec<(String, String)>) -> (r: Option<
    Result<Work, String>,
>)
    requires
        table::ordered(table::stored_keys(files@)),
    ensures
        opt_work(r) == batch_work(ops::op_texts(ops@), text::text_pairs(files@)),
        r is Some && r->0 is Ok ==> table::ordered(table::stored_keys(r->0->Ok_0.files@)),
{
    let ghost all = ops::op_texts(ops@);
    let ghost given = text::text_pairs(files@);
    let mut working = text::copy_pairs(files);
    assert(table::stored_keys(working@) =~= table::keys(text::text_pairs(working@)));
    assert(table::stored_keys(files@) =~= table::keys(text::text_pairs(files@)));
    let mut out = Work::new();
    let mut k: usize = 0;
    while k < ops.len()
        invariant
            k <= ops.len(),
            all == ops::op_texts(ops@),
            all.len() == ops@.len(),
            given == text::text_pairs(files@),
            table::ordered(table::stored_keys(working@)),
            table::ordered(table::stored_keys(out.files@)),
            batch_upto(all, given, k as nat) == Some(
                Ok::<(Seq<(Seq<char>, Seq<char>)>, WorkText), Seq<char>>(
                    (text::text_pairs(working@), out@),
                ),
            ),
        decreases ops.len() - k,
    {
        assert(all[k as int] == ops@[k as int]@);
        let n: u64 = k as u64 + 1;
        match attempt(&ops[k], &working) {
            None => {
                proof {
                    lemma_batch_ends(all, given, (k + 1) as nat, all.len());
                }
                return None;
            },
            Some(Err(e)) => {
                let count = text::number(n);
                let head = text::cat5("op ", count.as_str(), " (", ops[k].kind(), ") refused: ");
                proof {
                    lemma_batch_ends(all, given, (k + 1) as nat, all.len());
                }
                return Some(Err(text::cat2(head.as_str(), e.as_str())));
            },
            Some(Ok(x)) => {
                assert(x@.files.len() == x.files@.len());
                merge(&mut working, &x.files);
                out = add_op(out, x, n);
            },
        }
        k += 1;
    }
    Some(Ok(settle(out)))
}

/// Every op in order, each seeing the files as the previous one left them. A
/// refused op refuses the batch: nothing is returned to write, so a
/// half-applied change never reaches disk, the ledger or the dashboard.
pub fn apply_all(ops: &Vec<Op>, files: &Vec<(String, String)>) -> (r: Result<Applied, String>)
    requires
        table::ordered(table::stored_keys(files@)),
        batch_outcome(ops::op_texts(ops@), text::text_pairs(files@)) is Some,
    ensures
        batch_outcome(ops::op_texts(ops@), text::text_pairs(files@)) == Some(applied_result(r)),
        r is Ok ==> table::ordered(table::stored_keys(r->Ok_0.files@)),
{
    match tell_result(attempt_all(ops, files)) {
        Some(r) => r,
        None => Err(String::new()),
    }
}

/// Every op in order, each seeing the files as the previous one left them.
/// Nothing comes back where the changes of a file do not fit together.
pub fn try_apply_all(ops: &Vec<Op>, files: &Vec<(String, String)>) -> (r: Option<
    Result<Applied, String>,
>)
    requires
        table::ordered(table::stored_keys(files@)),
    ensures
        opt_result(r) == batch_outcome(ops::op_texts(ops@), text::text_pairs(files@)),
        r is Some && r->0 is Ok ==> table::ordered(table::stored_keys(r->0->Ok_0.files@)),
{
    match attempt_all(ops, files) {
        Some(_) => Some(apply_all(ops, files)),
        None => None,
    }
}

// ----------------------------------------------------------------- a report

/// Places in files, in the shape of a report.
pub open spec fn spot_docs(v: Seq<(Seq<char>, nat)>) -> Seq<Doc> {
    Seq::new(
        v.len(),
        |i: int|
            json::object_doc(
                seq![
                    ("path"@, Doc::Text(v[i].0)),
                    ("line"@, Doc::Number(text::decimal(v[i].1))),
                ],
            ),
    )
}

/// The kinds of the ops.
pub open spec fn kinds_of(ops: Seq<OpText>) -> Seq<Seq<char>> {
    Seq::new(ops.len(), |i: int| ops::op_kind(ops[i]))
}

/// What applying ops came to, as a report.
pub open spec fn report(a: AppliedText, ops: Seq<OpText>) -> Doc {
    json::object_doc(
        seq![
            ("ok"@, Doc::Bool(true)),
            ("ops"@, Doc::List(json::text_docs(kinds_of(ops)))),
            ("files_changed"@, Doc::List(json::text_docs(table::keys(a.files)))),
            ("call_sites"@, Doc::List(spot_docs(a.call_sites))),
            ("unchanged_call_sites"@, Doc::List(spot_docs(a.unchanged_call_sites))),
            ("notes"@, Doc::List(json::text_docs(a.notes))),
        ],
    )
}

/// Places in files, in the shape of a report.
fn spot_list(v: &Vec<(String, u64)>) -> (r: Json)
    ensures
        r@ == Doc::List(spot_docs(spots(v@))),
{
    let ghost all = spot_docs(spots(v@));
    let mut out: Vec<Json> = Vec::new();
    let mut k: usize = 0;
    while k < v.len()
        invariant
            k <= v.len(),
            all == spot_docs(spots(v@)),
            out@.len() == k,
            forall|j: int| 0 <= j < k ==> (#[trigger] out@[j])@ == all[j],
        decreases v.len() - k,
    {
        assert(spots(v@)[k as int] == (v@[k as int].0@, v@[k as int].1 as nat));
        let entry: Vec<(&'static str, Json)> = vec![
            ("path", json::text(v[k].0.as_str())),
            ("line", json::count(v[k].1)),
        ];
        assert(json::entry_docs(entry@) =~= seq![
            ("path"@, Doc::Text(v@[k as int].0@)),
            ("line"@, Doc::Number(text::decimal(v@[k as int].1 as nat))),
        ]);
        out.push(json::object(entry));
        k += 1;
    }
    proof {
        json::lemma_list(out);
        assert(json::docs(out@) =~= all);
    }
    Json::List(out)
}

impl Applied {
    /// What applying ops came to, as a report.
    pub fn summary(&self, ops: &Vec<Op>) -> (r: Json)
        ensures
            r@ == report(self@, ops::op_texts(ops@)),
    {
        let mut names: Vec<String> = Vec::new();
        let ghost all = kinds_of(ops::op_texts(ops@));
        let mut k: usize = 0;
        while k < ops.len()
            invariant
                k <= ops.len(),
                all == kinds_of(ops::op_texts(ops@)),
                text::texts(names@) =~= all.take(k as int),
            decreases ops.len() - k,
        {
            let name = ops[k].kind().to_string();
            assert(ops::op_texts(ops@)[k as int] == ops@[k as int]@);
            assert(all[k as int] == name@);
            proof {
                text::lemma_texts_push(names@, name);
            }
            names.push(name);
            k += 1;
        }
        assert(text::texts(names@) =~= all);
        let mut paths: Vec<String> = Vec::new();
        let ghost held = table::keys(self@.files);
        let mut k: usize = 0;
        while k < self.files.len()
            invariant
                k <= self.files.len(),
                held == table::keys(self@.files),
                text::texts(paths@) =~= held.take(k as int),
            decreases self.files.len() - k,
        {
            let path = self.files[k].0.clone();
            assert(held[k as int] == path@);
            proof {
                text::lemma_texts_push(paths@, path);
            }
            paths.push(path);
            k += 1;
        }
        assert(text::texts(paths@) =~= held);
        let v: Vec<(&'static str, Json)> = vec![
            ("ok", Json::Bool(true)),
            ("ops", json::text_list(&names)),
            ("files_changed", json::text_list(&paths)),
            ("call_sites", spot_list(&self.call_sites)),
            ("unchanged_call_sites", spot_list(&self.unchanged_call_sites)),
            ("notes", json::text_list(&self.notes)),
        ];
        assert(json::entry_docs(v@) =~= seq![
            ("ok"@, Doc::Bool(true)),
            ("ops"@, Doc::List(json::text_docs(kinds_of(ops::op_texts(ops@))))),
            ("files_changed"@, Doc::List(json::text_docs(table::keys(self@.files)))),
            ("call_sites"@, Doc::List(spot_docs(self@.call_sites))),
            ("unchanged_call_sites"@, Doc::List(spot_docs(self@.unchanged_call_sites))),
            ("notes"@, Doc::List(json::text_docs(self@.notes))),
        ]);
        json::object(v)
    }
}

} // verus!

//! Wiring the hook into a harness, without touching anything that is not
//! ours.
//!
//! The settings file belongs to the developer. Other tools are in it, their
//! own hooks are in it, and a tool that rewrites the file wholesale will
//! eventually delete somebody's work. So this merges: it adds only entries
//! whose command is ours, removes only entries whose command is ours, and
//! leaves the rest untouched.
//!
//! Our commands are recognisable by the `.blast/` path in them and nothing
//! else. No other tool's entry can match that, and ours cannot match any
//! other tool's test for its own.
use vstd::prelude::*;
use crate::text;
use crate::table;
use crate::langs;
use crate::json;
use crate::json::{Doc, Json};

verus! {

/// Is the command one of ours?
pub open spec fn our_command(command: Seq<char>) -> bool {
    text::contains(command, ".blast/"@)
}

/// Is the command one of ours?
pub fn is_ours(command: &str) -> (r: bool)
    ensures
        r == our_command(command@),
{
    text::has(command, ".blast/")
}

/// The settings file of a harness, below the root of a repository. Any
/// harness without a file of its own counts as the one at home here.
pub open spec fn settings_file(harness: Seq<char>, home: Seq<char>) -> Seq<char> {
    if harness == "cursor"@ {
        ".cursor/hooks.json"@
    } else if harness == "codex"@ {
        ".codex/hooks.json"@
    } else {
        "."@ + home + "/settings.json"@
    }
}

/// The settings file of a harness, below the root of a repository.
pub fn settings_path(harness: &str, home: &str) -> (r: String)
    ensures
        r@ == settings_file(harness@, home@),
{
    if text::same(harness, "cursor") {
        ".cursor/hooks.json".to_string()
    } else if text::same(harness, "codex") {
        ".codex/hooks.json".to_string()
    } else {
        text::cat3(".", home, "/settings.json")
    }
}

/// The command that a harness runs on its events.
pub open spec fn hook_command(harness: Seq<char>) -> Seq<char> {
    "BLAST_HARNESS="@ + harness + " .blast/bin/blast hook"@
}

/// The command that a harness runs on its events.
pub fn command_for(harness: &str) -> (r: String)
    ensures
        r@ == hook_command(harness@),
{
    text::cat3("BLAST_HARNESS=", harness, " .blast/bin/blast hook")
}

// ---------------------------------------------------------------- removing

/// Is the value a command of ours?
pub open spec fn is_our_text(d: Doc) -> bool {
    match json::as_text(d) {
        Some(s) => our_command(s),
        None => false,
    }
}

/// Does the value have a command of ours?
pub open spec fn has_our_command(d: Doc) -> bool {
    match json::member(d, "command"@) {
        Some(c) => is_our_text(c),
        None => false,
    }
}

/// Do all the values have a command of ours?
pub open spec fn all_ours(v: Seq<Doc>) -> bool {
    forall|i: int| 0 <= i < v.len() ==> has_our_command(#[trigger] v[i])
}

/// Does the value run a command of ours and none else: has it one, or do all
/// its hooks?
pub open spec fn runs_ours(d: Doc) -> bool {
    ||| has_our_command(d)
    ||| match json::member_items(d, "hooks"@) {
        Some(hooks) => hooks.len() > 0 && all_ours(hooks),
        None => false,
    }
}

/// Where a value stands in the settings.
#[derive(Clone, Copy, PartialEq, Eq, Structural)]
pub enum Place {
    /// under the name `hooks`
    Hooks,
    /// under an event, in what stands under the name `hooks`
    Event,
    Elsewhere,
}

/// Where a member of an object stands.
pub open spec fn below(place: Place, key: Seq<char>) -> Place {
    if key == "hooks"@ {
        Place::Hooks
    } else if place == Place::Hooks {
        Place::Event
    } else {
        Place::Elsewhere
    }
}

/// Is the entry of a list one of ours: something that runs a command of ours,
/// or, in a list of hooks, the command itself?
pub open spec fn is_our_entry(d: Doc, place: Place) -> bool {
    runs_ours(d) || place != Place::Elsewhere && is_our_text(d)
}

/// What stands at a place, without the entries of ours, everything else as it
/// was.
pub open spec fn stripped(d: Doc, place: Place) -> Doc
    decreases d,
{
    match d {
        Doc::Object(v) => Doc::Object(stripped_members(v, place, v.len())),
        Doc::List(items) => Doc::List(stripped_items(items, place, items.len())),
        _ => d,
    }
}

/// The first `n` members without the entries of ours.
pub open spec fn stripped_members(v: Seq<(Seq<char>, Doc)>, place: Place, n: nat) -> Seq<
    (Seq<char>, Doc),
>
    decreases v, n,
{
    if n == 0 || n > v.len() {
        Seq::empty()
    } else {
        stripped_members(v, place, (n - 1) as nat).push(
            (v[n - 1].0, stripped(v[n - 1].1, below(place, v[n - 1].0))),
        )
    }
}

/// The first `n` items without the entries of ours.
pub open spec fn stripped_items(items: Seq<Doc>, place: Place, n: nat) -> Seq<Doc>
    decreases items, n,
{
    if n == 0 || n > items.len() {
        Seq::empty()
    } else {
        let rest = stripped_items(items, place, (n - 1) as nat);
        if is_our_entry(items[n - 1], place) {
            rest
        } else {
            rest.push(stripped(items[n - 1], Place::Elsewhere))
        }
    }
}

/// Settings without the entries of ours, everything else as it was.
pub open spec fn cleared(d: Doc) -> Doc {
    stripped(d, Place::Elsewhere)
}

/// Does the value have a command of ours?
fn holds_our_command(d: &Json) -> (r: bool)
    ensures
        r == has_our_command(d@),
{
    match d.get("command") {
        Some(c) => match c.as_str() {
            Some(s) => is_ours(s),
            None => false,
        },
        None => false,
    }
}

/// Where a member of an object stands.
fn place_below(place: Place, key: &str) -> (r: Place)
    ensures
        r == below(place, key@),
{
    if text::same(key, "hooks") {
        Place::Hooks
    } else {
        match place {
            Place::Hooks => Place::Event,
            _ => Place::Elsewhere,
        }
    }
}

/// Is the entry of a list one of ours?
fn is_entry_of_ours(d: &Json, place: Place) -> (r: bool)
    ensures
        r == is_our_entry(d@, place),
{
    if runs_only_ours(d) {
        return true;
    }
    match place {
        Place::Elsewhere => false,
        _ => match d.as_str() {
            Some(s) => is_ours(s),
            None => false,
        },
    }
}

/// Does the value run a command of ours and none else?
fn runs_only_ours(d: &Json) -> (r: bool)
    ensures
        r == runs_ours(d@),
{
    if holds_our_command(d) {
        return true;
    }
    match d.get("hooks") {
        Some(x) => match x.as_array() {
            Some(hooks) => {
                let ghost all = json::docs(hooks@);
                assert(all.len() == hooks@.len());
                let mut k: usize = 0;
                while k < hooks.len()
                    invariant
                        k <= hooks.len(),
                        all == json::docs(hooks@),
                        all.len() == hooks@.len(),
                        !has_our_command(d@),
                        json::member_items(d@, "hooks"@) == Some(all),
                        forall|i: int| 0 <= i < k ==> has_our_command(#[trigger] all[i]),
                    decreases hooks.len() - k,
                {
                    assert(all[k as int] == hooks@[k as int]@);
                    if !holds_our_command(&hooks[k]) {
                        return false;
                    }
                    k += 1;
                }
                hooks.len() > 0
            },
            None => false,
        },
        None => false,
    }
}

/// Strips every entry of ours, leaving everything else exactly as it was.
pub fn without_ours(node: &Json) -> (r: Json)
    ensures
        r@ == cleared(node@),
{
    strip(node, Place::Elsewhere)
}

/// Strips every entry of ours from what stands at a place.
fn strip(node: &Json, place: Place) -> (r: Json)
    ensures
        r@ == stripped(node@, place),
    decreases node,
{
    match node {
        Json::Object(v) => {
            let ghost all = json::members(v@);
            proof {
                json::lemma_object(*v);
            }
            let mut out: Vec<(String, Json)> = Vec::new();
            let mut k: usize = 0;
            assert(json::members(out@) =~= Seq::<(Seq<char>, Doc)>::empty());
            while k < v.len()
                invariant
                    k <= v.len(),
                    node == Json::Object(*v),
                    all == json::members(v@),
                    all.len() == v@.len(),
                    json::members(out@) == stripped_members(all, place, k as nat),
                decreases v.len() - k,
            {
                assert(all[k as int] == (v@[k as int].0@, v@[k as int].1@));
                assert(decreases_to!(node => node->Object_0));
                assert(decreases_to!(v => v@));
                assert(decreases_to!(v@ => v@[k as int]));
                assert(decreases_to!(v@[k as int] => v@[k as int].1));
                let x = strip(&v[k].1, place_below(place, v[k].0.as_str()));
                let ghost before = json::members(out@);
                let ghost said = (v@[k as int].0@, x@);
                out.push((v[k].0.clone(), x));
                assert(json::members(out@) =~= before.push(said));
                k += 1;
            }
            proof {
                json::lemma_object(out);
            }
            Json::Object(out)
        },
        Json::List(v) => {
            let ghost all = json::docs(v@);
            proof {
                json::lemma_list(*v);
            }
            let mut out: Vec<Json> = Vec::new();
            let mut k: usize = 0;
            assert(json::docs(out@) =~= Seq::<Doc>::empty());
            while k < v.len()
                invariant
                    k <= v.len(),
                    node == Json::List(*v),
                    all == json::docs(v@),
                    all.len() == v@.len(),
                    json::docs(out@) == stripped_items(all, place, k as nat),
                decreases v.len() - k,
            {
                assert(all[k as int] == v@[k as int]@);
                assert(decreases_to!(node => node->List_0));
                assert(decreases_to!(v => v@));
                assert(decreases_to!(v@ => v@[k as int]));
                if !is_entry_of_ours(&v[k], place) {
                    let x = strip(&v[k], Place::Elsewhere);
                    let ghost before = json::docs(out@);
                    let ghost said = x@;
                    out.push(x);
                    assert(json::docs(out@) =~= before.push(said));
                }
                k += 1;
            }
            proof {
                json::lemma_list(out);
            }
            Json::List(out)
        },
        _ => node.copy(),
    }
}

// ------------------------------------------------------------------ adding

/// Events worth waking for: announce and index if the repository is new; say
/// who else is here, and any verdict waiting; work out what an edit touched
/// and run its tests; a last chance to deliver a verdict before the turn ends;
/// leave the room.
pub open spec fn events() -> Seq<Seq<char>> {
    seq!["SessionStart"@, "UserPromptSubmit"@, "PostToolUse"@, "Stop"@, "SessionEnd"@]
}

/// Events worth waking for.
fn event_names() -> (r: Vec<&'static str>)
    ensures
        langs::strs(r@) == events(),
{
    let v = vec!["SessionStart", "UserPromptSubmit", "PostToolUse", "Stop", "SessionEnd"];
    assert(langs::strs(v@) =~= events());
    v
}

/// The entry that runs a command.
pub open spec fn entry_doc(command: Seq<char>) -> Doc {
    let hook = json::object_doc(
        seq![
            ("type"@, Doc::Text("command"@)),
            ("command"@, Doc::Text(command)),
            ("timeout"@, Doc::Number(text::decimal(10))),
        ],
    );
    json::object_doc(seq![("hooks"@, Doc::List(seq![hook]))])
}

/// The hooks with an entry for one event more, where its entries are a list.
pub open spec fn with_event(hooks: Seq<(Seq<char>, Doc)>, event: Seq<char>, entry: Doc) -> Seq<
    (Seq<char>, Doc),
> {
    match json::member_from(hooks, event, 0) {
        None => json::placed(hooks, event, Doc::List(seq![entry])),
        Some(Doc::List(items)) => json::placed(hooks, event, Doc::List(items.push(entry))),
        Some(_) => hooks,
    }
}

/// The hooks with an entry for the first `n` events.
pub open spec fn with_events(hooks: Seq<(Seq<char>, Doc)>, entry: Doc, n: nat) -> Seq<
    (Seq<char>, Doc),
>
    decreases n,
{
    if n == 0 {
        hooks
    } else {
        with_event(with_events(hooks, entry, (n - 1) as nat), events()[n - 1], entry)
    }
}

/// The hooks of settings; none where there are none yet.
pub open spec fn hooks_of(d: Doc) -> Option<Seq<(Seq<char>, Doc)>> {
    match json::member(d, "hooks"@) {
        None => Some(Seq::empty()),
        Some(Doc::Object(v)) => Some(v),
        Some(_) => None,
    }
}

/// Can entries be added to the settings? They are an object, and so are the
/// hooks in them, if there are any.
pub open spec fn fit_for_entries(d: Doc) -> bool {
    d is Object && hooks_of(d) is Some
}

/// Settings with an entry for every event.
pub open spec fn with_entries(d: Doc, command: Seq<char>) -> Doc {
    match d {
        Doc::Object(v) => Doc::Object(
            json::placed(
                v,
                "hooks"@,
                Doc::Object(with_events(hooks_of(d)->0, entry_doc(command), events().len())),
            ),
        ),
        _ => d,
    }
}

/// Settings with our entries installed, or refreshed.
pub open spec fn installed(d: Doc, harness: Seq<char>) -> Doc {
    with_entries(cleared(d), hook_command(harness))
}

/// The entry that runs a command.
fn entry_for(command: &str) -> (r: Json)
    ensures
        r@ == entry_doc(command@),
{
    let v: Vec<(&'static str, Json)> = vec![
        ("type", json::text("command")),
        ("command", json::text(command)),
        ("timeout", json::count(10)),
    ];
    assert(json::entry_docs(v@) =~= seq![
        ("type"@, Doc::Text("command"@)),
        ("command"@, Doc::Text(command@)),
        ("timeout"@, Doc::Number(text::decimal(10))),
    ]);
    let hook = json::object(v);
    let ghost said = hook@;
    let mut list: Vec<Json> = Vec::new();
    list.push(hook);
    proof {
        json::lemma_list(list);
        assert(json::docs(list@) =~= seq![said]);
    }
    let v: Vec<(&'static str, Json)> = vec![("hooks", Json::List(list))];
    assert(json::entry_docs(v@) =~= seq![("hooks"@, Doc::List(seq![said]))]);
    json::object(v)
}

/// The value of the member that has the name.
fn find_member(v: &Vec<(String, Json)>, key: &str) -> (r: Option<usize>)
    ensures
        match r {
            Some(k) => k < v@.len() && json::member_from(json::members(v@), key@, 0) == Some(
                v@[k as int].1@,
            ),
            None => json::member_from(json::members(v@), key@, 0) is None,
        },
{
    let ghost all = json::members(v@);
    let mut k: usize = 0;
    while k < v.len()
        invariant
            k <= v.len(),
            all == json::members(v@),
            json::member_from(all, key@, 0) == json::member_from(all, key@, k as nat),
        decreases v.len() - k,
    {
        assert(all[k as int] == (v@[k as int].0@, v@[k as int].1@));
        if text::same(v[k].0.as_str(), key) {
            return Some(k);
        }
        k += 1;
    }
    None
}

/// Adds an entry for one event, where its entries are a list.
fn add_event(hooks: &mut Vec<(String, Json)>, event: &str, entry: Json)
    ensures
        json::members(final(hooks)@) == with_event(json::members(old(hooks)@), event@, entry@),
{
    let ghost said = entry@;
    match find_member(hooks, event) {
        None => {
            let mut list: Vec<Json> = Vec::new();
            list.push(entry);
            proof {
                json::lemma_list(list);
                assert(json::docs(list@) =~= seq![said]);
            }
            json::place_member(hooks, event, Json::List(list));
        },
        Some(k) => {
            let now = hooks[k].1.copy();
            match now {
                Json::List(items) => {
                    let mut items = items;
                    let ghost before = json::docs(items@);
                    proof {
                        json::lemma_list(items);
                    }
                    items.push(entry);
                    proof {
                        json::lemma_list(items);
                        assert(json::docs(items@) =~= before.push(said));
                    }
                    json::place_member(hooks, event, Json::List(items));
                },
                _ => {},
            }
        },
    }
}

/// Settings with our entries installed, or refreshed.
pub fn install(settings: &Json, harness: &str) -> (r: Json)
    requires
        fit_for_entries(cleared(settings@)),
    ensures
        r@ == installed(settings@, harness@),
{
    let base = without_ours(settings);
    let command = command_for(harness);
    let names = event_names();
    let ghost entry = entry_doc(command@);
    let ghost start = hooks_of(base@)->0;
    let mut hooks: Vec<(String, Json)> = Vec::new();
    assert(json::members(hooks@) =~= Seq::<(Seq<char>, Doc)>::empty());
    match base.get("hooks") {
        Some(x) => {
            let now = x.copy();
            match now {
                Json::Object(v) => {
                    proof {
                        json::lemma_object(v);
                    }
                    hooks = v;
                },
                _ => {},
            }
        },
        None => {},
    }
    assert(json::members(hooks@) == start);
    let mut k: usize = 0;
    assert(langs::strs(names@).len() == names@.len());
    while k < names.len()
        invariant
            k <= names.len(),
            langs::strs(names@) == events(),
            entry == entry_doc(command@),
            json::members(hooks@) == with_events(start, entry, k as nat),
        decreases names.len() - k,
    {
        assert(langs::strs(names@)[k as int] == names@[k as int]@);
        add_event(&mut hooks, names[k], entry_for(command.as_str()));
        k += 1;
    }
    match base {
        Json::Object(v) => {
            let mut v = v;
            proof {
                json::lemma_object(v);
                json::lemma_object(hooks);
            }
            json::place_member(&mut v, "hooks", Json::Object(hooks));
            proof {
                json::lemma_object(v);
            }
            Json::Object(v)
        },
        other => other,
    }
}

/// Takes our entries back out. Everything else survives.
pub fn uninstall(settings: &Json) -> (r: Json)
    ensures
        r@ == cleared(settings@),
{
    without_ours(settings)
}

/// Can entries be added to the settings, once ours are out?
pub fn is_installable(settings: &Json) -> (r: bool)
    ensures
        r == fit_for_entries(cleared(settings@)),
{
    let base = without_ours(settings);
    match &base {
        Json::Object(_) => match base.get("hooks") {
            Some(x) => match x {
                Json::Object(_) => true,
                _ => false,
            },
            None => true,
        },
        _ => false,
    }
}

// -------------------------------------------------------------------- laws

/// Does what stands at a place hold no entry of ours?
pub open spec fn free_of_ours(d: Doc, place: Place) -> bool
    decreases d,
{
    match d {
        Doc::Object(v) => forall|i: int|
            0 <= i < v.len() ==> free_of_ours((#[trigger] v[i]).1, below(place, v[i].0)),
        Doc::List(items) => forall|i: int|
            0 <= i < items.len() ==> !is_our_entry(#[trigger] items[i], place) && free_of_ours(
                items[i],
                Place::Elsewhere,
            ),
        _ => true,
    }
}

/// Stripping goes through the members one by one.
proof fn lemma_members(v: Seq<(Seq<char>, Doc)>, place: Place, n: nat)
    requires
        n <= v.len(),
    ensures
        stripped_members(v, place, n).len() == n,
        forall|i: int|
            0 <= i < n ==> #[trigger] stripped_members(v, place, n)[i] == (
                v[i].0,
                stripped(v[i].1, below(place, v[i].0)),
            ),
    decreases n,
{
    if n > 0 {
        lemma_members(v, place, (n - 1) as nat);
    }
}

/// What stands under a name after stripping is what stood there, stripped.
proof fn lemma_member(v: Seq<(Seq<char>, Doc)>, place: Place, key: Seq<char>, k: nat)
    ensures
        json::member_from(stripped_members(v, place, v.len()), key, k) == match json::member_from(
            v,
            key,
            k,
        ) {
            Some(x) => Some(stripped(x, below(place, key))),
            None => None,
        },
    decreases v.len() - k,
{
    lemma_members(v, place, v.len());
    if k < v.len() {
        lemma_member(v, place, key, k + 1);
    }
}

/// Every item left after stripping is one that was not ours, stripped.
proof fn lemma_items(items: Seq<Doc>, place: Place, n: nat)
    requires
        n <= items.len(),
    ensures
        forall|j: int|
            0 <= j < stripped_items(items, place, n).len() ==> exists|i: int|
                0 <= i < n && !is_our_entry(#[trigger] items[i], place)
                    && #[trigger] stripped_items(items, place, n)[j] == stripped(
                    items[i],
                    Place::Elsewhere,
                ),
    decreases n,
{
    if n > 0 {
        lemma_items(items, place, (n - 1) as nat);
        let rest = stripped_items(items, place, (n - 1) as nat);
        let all = stripped_items(items, place, n);
        assert forall|j: int| 0 <= j < all.len() implies exists|i: int|
            0 <= i < n && !is_our_entry(#[trigger] items[i], place) && #[trigger] all[j]
                == stripped(items[i], Place::Elsewhere) by {
            if j < rest.len() {
                let i = choose|i: int|
                    0 <= i < n - 1 && !is_our_entry(#[trigger] items[i], place) && rest[j]
                        == stripped(items[i], Place::Elsewhere);
                assert(all[j] == stripped(items[i], Place::Elsewhere));
            } else {
                assert(all[j] == stripped(items[n - 1], Place::Elsewhere));
            }
        }
    }
}

/// Stripping leaves the command of a value as it is.
proof fn lemma_command(d: Doc, place: Place)
    ensures
        has_our_command(stripped(d, place)) == has_our_command(d),
{
    match d {
        Doc::Object(v) => {
            lemma_member(v, place, "command"@, 0);
        },
        _ => {},
    }
}

/// An entry that is not ours is not ours after stripping either.
proof fn lemma_entry(d: Doc, place: Place)
    requires
        !is_our_entry(d, place),
    ensures
        !is_our_entry(stripped(d, Place::Elsewhere), place),
{
    lemma_command(d, Place::Elsewhere);
    match d {
        Doc::Object(v) => {
            lemma_member(v, Place::Elsewhere, "hooks"@, 0);
            match json::member_items(d, "hooks"@) {
                Some(hooks) => {
                    let left = stripped_items(hooks, Place::Hooks, hooks.len());
                    assert(json::member_items(stripped(d, Place::Elsewhere), "hooks"@) == Some(
                        left,
                    ));
                    if left.len() > 0 && all_ours(left) {
                        lemma_items(hooks, Place::Hooks, hooks.len());
                        assert(left[0] == left[0]);
                        let i = choose|i: int|
                            0 <= i < hooks.len() && !is_our_entry(#[trigger] hooks[i], Place::Hooks)
                                && left[0] == stripped(hooks[i], Place::Elsewhere);
                        lemma_command(hooks[i], Place::Elsewhere);
                        assert(has_our_command(left[0]));
                    }
                },
                None => {},
            }
        },
        _ => {},
    }
}

/// Stripping leaves nothing of ours behind.
pub proof fn law_nothing_of_ours_is_left(d: Doc, place: Place)
    ensures
        free_of_ours(stripped(d, place), place),
    decreases d,
{
    match d {
        Doc::Object(v) => {
            lemma_members(v, place, v.len());
            let left = stripped_members(v, place, v.len());
            assert forall|i: int| 0 <= i < left.len() implies free_of_ours(
                (#[trigger] left[i]).1,
                below(place, left[i].0),
            ) by {
                assert(left[i] == (v[i].0, stripped(v[i].1, below(place, v[i].0))));
                assert(decreases_to!(v => v[i]));
                law_nothing_of_ours_is_left(v[i].1, below(place, v[i].0));
            }
        },
        Doc::List(items) => {
            lemma_items(items, place, items.len());
            let left = stripped_items(items, place, items.len());
            assert forall|j: int| 0 <= j < left.len() implies !is_our_entry(
                #[trigger] left[j],
                place,
            ) && free_of_ours(left[j], Place::Elsewhere) by {
                let i = choose|i: int|
                    0 <= i < items.len() && !is_our_entry(#[trigger] items[i], place) && left[j]
                        == stripped(items[i], Place::Elsewhere);
                lemma_entry(items[i], place);
                law_nothing_of_ours_is_left(items[i], Place::Elsewhere);
            }
        },
        _ => {},
    }
}

/// Members that are as stripping leaves them stay.
proof fn lemma_members_stay(v: Seq<(Seq<char>, Doc)>, place: Place, n: nat)
    requires
        n <= v.len(),
        forall|i: int|
            0 <= i < v.len() ==> stripped((#[trigger] v[i]).1, below(place, v[i].0)) == v[i].1,
    ensures
        stripped_members(v, place, n) == v.take(n as int),
    decreases n,
{
    if n > 0 {
        lemma_members_stay(v, place, (n - 1) as nat);
    }
    assert(stripped_members(v, place, n) =~= v.take(n as int));
}

/// Items that are not ours, and as stripping leaves them, stay.
proof fn lemma_items_stay(items: Seq<Doc>, place: Place, n: nat)
    requires
        n <= items.len(),
        forall|i: int|
            0 <= i < items.len() ==> !is_our_entry(#[trigger] items[i], place) && stripped(
                items[i],
                Place::Elsewhere,
            ) == items[i],
    ensures
        stripped_items(items, place, n) == items.take(n as int),
    decreases n,
{
    if n > 0 {
        lemma_items_stay(items, place, (n - 1) as nat);
        assert(!is_our_entry(items[n - 1], place));
    }
    assert(stripped_items(items, place, n) =~= items.take(n as int));
}

/// What holds nothing of ours comes back exactly as it was.
pub proof fn law_everything_else_stays(d: Doc, place: Place)
    requires
        free_of_ours(d, place),
    ensures
        stripped(d, place) == d,
    decreases d,
{
    match d {
        Doc::Object(v) => {
            assert forall|i: int| 0 <= i < v.len() implies stripped(
                (#[trigger] v[i]).1,
                below(place, v[i].0),
            ) == v[i].1 by {
                assert(decreases_to!(v => v[i]));
                assert(free_of_ours(v[i].1, below(place, v[i].0)));
                law_everything_else_stays(v[i].1, below(place, v[i].0));
            }
            lemma_members_stay(v, place, v.len());
            assert(v.take(v.len() as int) =~= v);
        },
        Doc::List(items) => {
            assert forall|i: int| 0 <= i < items.len() implies !is_our_entry(
                #[trigger] items[i],
                place,
            ) && stripped(items[i], Place::Elsewhere) == items[i] by {
                law_everything_else_stays(items[i], Place::Elsewhere);
            }
            lemma_items_stay(items, place, items.len());
            assert(items.take(items.len() as int) =~= items);
        },
        _ => {},
    }
}

/// A list outside the hooks keeps every text in it, whatever the text says:
/// where it holds nothing else, it stays as it is.
pub proof fn law_texts_elsewhere_stay(items: Seq<Doc>)
    requires
        forall|i: int| 0 <= i < items.len() ==> (#[trigger] items[i]) is Text,
    ensures
        cleared(Doc::List(items)) == Doc::List(items),
{
    lemma_items_stay(items, Place::Elsewhere, items.len());
    assert(items.take(items.len() as int) =~= items);
}

/// Taking our entries out twice is taking them out once.
pub proof fn law_uninstalling_twice_is_once(d: Doc)
    ensures
        cleared(cleared(d)) == cleared(d),
{
    law_nothing_of_ours_is_left(d, Place::Elsewhere);
    law_everything_else_stays(cleared(d), Place::Elsewhere);
}

/// Our own command is one of ours.
proof fn lemma_own_command(harness: Seq<char>)
    ensures
        our_command(hook_command(harness)),
{
    reveal_strlit("BLAST_HARNESS=");
    reveal_strlit(" .blast/bin/blast hook");
    reveal_strlit(".blast/");
    let at = ("BLAST_HARNESS="@ + harness).len() as int + 1;
    let command = hook_command(harness);
    assert(command.subrange(at, at + 7) =~= ".blast/"@);
    assert(text::occurs_at(command, ".blast/"@, at));
}

/// Our entry is one of ours.
proof fn lemma_own_entry(command: Seq<char>)
    requires
        our_command(command),
    ensures
        runs_ours(entry_doc(command)),
{
    reveal_strlit("type");
    reveal_strlit("command");
    reveal_strlit("timeout");
    let fields = seq![
        ("type"@, Doc::Text("command"@)),
        ("command"@, Doc::Text(command)),
        ("timeout"@, Doc::Number(text::decimal(10))),
    ];
    let hook = json::object_doc(fields);
    let none = Seq::<(Seq<char>, Doc)>::empty();
    assert(table::keys(none) =~= Seq::<Seq<char>>::empty());
    let one = table::put(none, "type"@, Doc::Text("command"@));
    let two = table::put(one, "command"@, Doc::Text(command));
    let three = table::put(two, "timeout"@, Doc::Number(text::decimal(10)));
    reveal_with_fuel(json::object_upto, 4);
    assert(json::object_upto(fields, 3) == three);
    table::lemma_put(none, "type"@, Doc::Text("command"@));
    table::lemma_put(one, "command"@, Doc::Text(command));
    table::lemma_put(two, "timeout"@, Doc::Number(text::decimal(10)));
    assert("command"@ != "timeout"@) by {
        assert("command"@[0] != "timeout"@[0]);
    }
    assert(table::value(three, "command"@) == Some(Doc::Text(command)));
    json::lemma_member_value(three, "command"@);
    assert(has_our_command(hook));
    let list = seq![("hooks"@, Doc::List(seq![hook]))];
    reveal_with_fuel(json::object_upto, 2);
    table::lemma_put(none, "hooks"@, Doc::List(seq![hook]));
    json::lemma_member_value(json::object_upto(list, 1), "hooks"@);
    assert(json::member_items(entry_doc(command), "hooks"@) == Some(seq![hook]));
    assert(all_ours(seq![hook]));
}

/// The hooks with a list for one event more, empty where there was nothing.
pub open spec fn with_list(hooks: Seq<(Seq<char>, Doc)>, event: Seq<char>) -> Seq<
    (Seq<char>, Doc),
> {
    match json::member_from(hooks, event, 0) {
        None => table::put(hooks, event, Doc::List(Seq::empty())),
        Some(_) => hooks,
    }
}

/// The hooks with a list for the first `n` events.
pub open spec fn with_lists(hooks: Seq<(Seq<char>, Doc)>, n: nat) -> Seq<(Seq<char>, Doc)>
    decreases n,
{
    if n == 0 {
        hooks
    } else {
        with_list(with_lists(hooks, (n - 1) as nat), events()[n - 1])
    }
}

/// Settings with a place for every event.
pub open spec fn with_places(d: Doc) -> Doc {
    match d {
        Doc::Object(v) => Doc::Object(
            table::put(v, "hooks"@, Doc::Object(with_lists(hooks_of(d)->0, events().len()))),
        ),
        _ => d,
    }
}

/// Are the members of the settings in order, and those of the hooks in them?
pub open spec fn in_order(d: Doc) -> bool {
    match d {
        Doc::Object(v) => table::ordered(table::keys(v)) && match hooks_of(d) {
            Some(hooks) => table::ordered(table::keys(hooks)),
            None => true,
        },
        _ => true,
    }
}

/// Stripping an object after a member was set is setting the member stripped.
proof fn lemma_stripped_put(v: Seq<(Seq<char>, Doc)>, place: Place, key: Seq<char>, x: Doc)
    ensures
        stripped_members(table::put(v, key, x), place, table::put(v, key, x).len()) == table::put(
            stripped_members(v, place, v.len()),
            key,
            stripped(x, below(place, key)),
        ),
{
    let w = table::put(v, key, x);
    let s = stripped_members(v, place, v.len());
    lemma_members(v, place, v.len());
    lemma_members(w, place, w.len());
    assert(table::keys(s) =~= table::keys(v));
    table::lemma_seat(table::keys(v), key, 0);
    assert(stripped_members(w, place, w.len()) =~= table::put(s, key, stripped(x, below(place, key))));
}

/// Setting a member to what it is changes nothing.
proof fn lemma_put_same(v: Seq<(Seq<char>, Doc)>, key: Seq<char>, x: Doc)
    requires
        table::ordered(table::keys(v)),
        json::member_from(v, key, 0) == Some(x),
    ensures
        table::put(v, key, x) == v,
{
    json::lemma_member_value(v, key);
    table::lemma_seat(table::keys(v), key, 0);
    assert(table::put(v, key, x) =~= v);
}

/// An entry of ours at the end of a list goes, and nothing else does.
proof fn lemma_stripped_push(items: Seq<Doc>, place: Place, entry: Doc)
    requires
        runs_ours(entry),
    ensures
        stripped(Doc::List(items.push(entry)), place) == stripped(Doc::List(items), place),
{
    lemma_items_prefix(items, place, entry, items.len());
}

/// What the first items come to does not depend on what follows them.
proof fn lemma_items_prefix(items: Seq<Doc>, place: Place, entry: Doc, n: nat)
    requires
        n <= items.len(),
    ensures
        stripped_items(items.push(entry), place, n) == stripped_items(items, place, n),
    decreases n,
{
    if n > 0 {
        lemma_items_prefix(items, place, entry, (n - 1) as nat);
        assert(items.push(entry)[n - 1] == items[n - 1]);
    }
}

/// Stripping undoes adding an entry for an event, but for the list it is in.
proof fn lemma_event_stripped(hooks: Seq<(Seq<char>, Doc)>, event: Seq<char>, entry: Doc)
    requires
        table::ordered(table::keys(hooks)),
        runs_ours(entry),
    ensures
        stripped_members(
            with_event(hooks, event, entry),
            Place::Hooks,
            with_event(hooks, event, entry).len(),
        ) == with_list(stripped_members(hooks, Place::Hooks, hooks.len()), event),
        table::ordered(table::keys(with_event(hooks, event, entry))),
{
    let s = stripped_members(hooks, Place::Hooks, hooks.len());
    let place = below(Place::Hooks, event);
    lemma_members(hooks, Place::Hooks, hooks.len());
    assert(table::keys(s) =~= table::keys(hooks));
    lemma_member(hooks, Place::Hooks, event, 0);
    match json::member_from(hooks, event, 0) {
        None => {
            let x = Doc::List(seq![entry]);
            json::lemma_placed_in_order(hooks, event, x);
            lemma_stripped_put(hooks, Place::Hooks, event, x);
            table::lemma_put(hooks, event, x);
            assert(Seq::<Doc>::empty().push(entry) =~= seq![entry]);
            lemma_stripped_push(Seq::empty(), place, entry);
            assert(stripped(Doc::List(Seq::<Doc>::empty()), place) == Doc::List(Seq::<Doc>::empty()));
        },
        Some(Doc::List(items)) => {
            let x = Doc::List(items.push(entry));
            json::lemma_placed_in_order(hooks, event, x);
            lemma_stripped_put(hooks, Place::Hooks, event, x);
            table::lemma_put(hooks, event, x);
            lemma_stripped_push(items, place, entry);
            lemma_put_same(s, event, stripped(Doc::List(items), place));
        },
        Some(_) => {},
    }
}

/// Stripping undoes adding entries for events, but for the lists they are in.
proof fn lemma_events_stripped(hooks: Seq<(Seq<char>, Doc)>, entry: Doc, n: nat)
    requires
        table::ordered(table::keys(hooks)),
        runs_ours(entry),
    ensures
        stripped_members(
            with_events(hooks, entry, n),
            Place::Hooks,
            with_events(hooks, entry, n).len(),
        ) == with_lists(stripped_members(hooks, Place::Hooks, hooks.len()), n),
        table::ordered(table::keys(with_events(hooks, entry, n))),
    decreases n,
{
    if n > 0 {
        lemma_events_stripped(hooks, entry, (n - 1) as nat);
        lemma_event_stripped(
            with_events(hooks, entry, (n - 1) as nat),
            events()[n - 1],
            entry,
        );
    }
}

/// What the hooks of settings come to after stripping.
proof fn lemma_hooks_stripped(d: Doc)
    requires
        d is Object,
        hooks_of(cleared(d)) is Some,
    ensures
        hooks_of(d) is Some,
        hooks_of(cleared(d))->0 == stripped_members(
            hooks_of(d)->0,
            Place::Hooks,
            hooks_of(d)->0.len(),
        ),
{
    match d {
        Doc::Object(v) => {
            lemma_member(v, Place::Elsewhere, "hooks"@, 0);
            assert(hooks_of(cleared(d))->0 =~= stripped_members(
                hooks_of(d)->0,
                Place::Hooks,
                hooks_of(d)->0.len(),
            ));
        },
        _ => {},
    }
}

/// Stripping keeps members in order.
proof fn lemma_stripped_in_order(d: Doc)
    requires
        in_order(d),
        fit_for_entries(cleared(d)),
    ensures
        in_order(cleared(d)),
{
    match d {
        Doc::Object(v) => {
            lemma_members(v, Place::Elsewhere, v.len());
            assert(table::keys(stripped_members(v, Place::Elsewhere, v.len())) =~= table::keys(v));
            lemma_hooks_stripped(d);
            let hooks = hooks_of(d)->0;
            lemma_members(hooks, Place::Hooks, hooks.len());
            assert(table::keys(stripped_members(hooks, Place::Hooks, hooks.len())) =~= table::keys(hooks));
        },
        _ => {},
    }
}

/// Taking out what was put into settings that hold nothing of ours leaves
/// them as they were, but for an empty list where an event had none.
proof fn lemma_entries_stripped(w: Doc, command: Seq<char>)
    requires
        in_order(w),
        fit_for_entries(w),
        free_of_ours(w, Place::Elsewhere),
        our_command(command),
    ensures
        cleared(with_entries(w, command)) == with_places(w),
{
    law_everything_else_stays(w, Place::Elsewhere);
    lemma_own_entry(command);
    match w {
        Doc::Object(v) => {
            let hooks = hooks_of(w)->0;
            lemma_hooks_stripped(w);
            lemma_events_stripped(hooks, entry_doc(command), events().len());
            let x = Doc::Object(with_events(hooks, entry_doc(command), events().len()));
            json::lemma_placed_in_order(v, "hooks"@, x);
            lemma_stripped_put(v, Place::Elsewhere, "hooks"@, x);
        },
        _ => {},
    }
}

/// Taking our entries back out after installing them leaves the settings as
/// taking them out right away does, but for an empty list where an event had
/// none: everything else survives.
pub proof fn law_uninstalling_undoes_installing(d: Doc, harness: Seq<char>)
    requires
        in_order(d),
        fit_for_entries(cleared(d)),
    ensures
        cleared(installed(d, harness)) == with_places(cleared(d)),
{
    lemma_own_command(harness);
    law_nothing_of_ours_is_left(d, Place::Elsewhere);
    lemma_stripped_in_order(d);
    lemma_entries_stripped(cleared(d), hook_command(harness));
}

/// What stands under a name in hooks with places for the first `n` events.
proof fn lemma_lists(hooks: Seq<(Seq<char>, Doc)>, n: nat, key: Seq<char>)
    requires
        table::ordered(table::keys(hooks)),
        n <= events().len(),
    ensures
        table::ordered(table::keys(with_lists(hooks, n))),
        table::value(with_lists(hooks, n), key) == if table::value(hooks, key) is None && text::listed(
            events().take(n as int),
            key,
        ) {
            Some(Doc::List(Seq::empty()))
        } else {
            table::value(hooks, key)
        },
    decreases n,
{
    if n > 0 {
        let rest = with_lists(hooks, (n - 1) as nat);
        let event = events()[n - 1];
        lemma_lists(hooks, (n - 1) as nat, key);
        lemma_lists(hooks, (n - 1) as nat, event);
        json::lemma_member_value(rest, event);
        table::lemma_put(rest, event, Doc::List(Seq::empty()));
        lemma_listed_next(n, key);
    } else {
        assert(!text::listed(events().take(0), key));
    }
}

/// What is among the first `n` events.
proof fn lemma_listed_next(n: nat, key: Seq<char>)
    requires
        0 < n <= events().len(),
    ensures
        text::listed(events().take(n as int), key) <==> (key == events()[n - 1] || text::listed(
            events().take(n - 1),
            key,
        )),
{
    let all = events().take(n as int);
    let rest = events().take(n - 1);
    if text::listed(rest, key) {
        let i = choose|i: int| 0 <= i < rest.len() && #[trigger] rest[i] == key;
        assert(all[i] == key);
    }
    if key == events()[n - 1] {
        assert(all[n - 1] == key);
    }
    if text::listed(all, key) && key != events()[n - 1] {
        let i = choose|i: int| 0 <= i < all.len() && #[trigger] all[i] == key;
        assert(rest[i] == key);
    }
}

/// No event comes twice.
proof fn lemma_events_distinct(n: nat)
    requires
        0 < n <= events().len(),
    ensures
        !text::listed(events().take(n - 1), events()[n - 1]),
{
    reveal_strlit("SessionStart");
    reveal_strlit("UserPromptSubmit");
    reveal_strlit("PostToolUse");
    reveal_strlit("Stop");
    reveal_strlit("SessionEnd");
    let e = events();
    assert(e[0].len() == 12 && e[1].len() == 16 && e[2].len() == 11 && e[3].len() == 4
        && e[4].len() == 10);
    let rest = e.take(n - 1);
    if text::listed(rest, e[n - 1]) {
        let i = choose|i: int| 0 <= i < rest.len() && #[trigger] rest[i] == e[n - 1];
        assert(rest[i] == e[i]);
        assert(e[i].len() == e[n - 1].len());
    }
}

/// What stands under a name in hooks with entries for the first `n` events.
proof fn lemma_entries(hooks: Seq<(Seq<char>, Doc)>, entry: Doc, n: nat, key: Seq<char>)
    requires
        table::ordered(table::keys(hooks)),
        n <= events().len(),
    ensures
        table::ordered(table::keys(with_events(hooks, entry, n))),
        table::value(with_events(hooks, entry, n), key) == if text::listed(events().take(n as int), key) {
            match table::value(hooks, key) {
                None => Some(Doc::List(seq![entry])),
                Some(Doc::List(items)) => Some(Doc::List(items.push(entry))),
                Some(x) => Some(x),
            }
        } else {
            table::value(hooks, key)
        },
    decreases n,
{
    if n > 0 {
        let rest = with_events(hooks, entry, (n - 1) as nat);
        let event = events()[n - 1];
        lemma_entries(hooks, entry, (n - 1) as nat, key);
        lemma_entries(hooks, entry, (n - 1) as nat, event);
        lemma_events_distinct(n);
        json::lemma_member_value(rest, event);
        match json::member_from(rest, event, 0) {
            None => {
                json::lemma_placed_in_order(rest, event, Doc::List(seq![entry]));
                table::lemma_put(rest, event, Doc::List(seq![entry]));
            },
            Some(Doc::List(items)) => {
                json::lemma_placed_in_order(rest, event, Doc::List(items.push(entry)));
                table::lemma_put(rest, event, Doc::List(items.push(entry)));
            },
            Some(_) => {},
        }
        lemma_listed_next(n, key);
    } else {
        assert(!text::listed(events().take(0), key));
    }
}

/// Making places for the events first changes nothing of where their entries
/// come.
proof fn lemma_entries_after_lists(hooks: Seq<(Seq<char>, Doc)>, entry: Doc)
    requires
        table::ordered(table::keys(hooks)),
    ensures
        with_events(with_lists(hooks, events().len()), entry, events().len()) == with_events(
            hooks,
            entry,
            events().len(),
        ),
{
    let n = events().len();
    let places = with_lists(hooks, n);
    lemma_lists(hooks, n, text::no_text());
    lemma_entries(hooks, entry, n, text::no_text());
    lemma_entries(places, entry, n, text::no_text());
    assert forall|k: Seq<char>| #[trigger] table::value(with_events(places, entry, n), k) == table::value(
        with_events(hooks, entry, n),
        k,
    ) by {
        lemma_lists(hooks, n, k);
        lemma_entries(hooks, entry, n, k);
        lemma_entries(places, entry, n, k);
        assert(events().take(n as int) =~= events());
        assert(Seq::<Doc>::empty().push(entry) =~= seq![entry]);
    }
    table::lemma_same_table(with_events(places, entry, n), with_events(hooks, entry, n));
}

/// Whatever order the members of the settings are in, the hooks that are found
/// in them after installing are those with our entries.
pub proof fn law_installed_hooks_are_found(d: Doc, harness: Seq<char>)
    requires
        fit_for_entries(cleared(d)),
    ensures
        hooks_of(installed(d, harness)) == Some(
            with_events(
                hooks_of(cleared(d))->0,
                entry_doc(hook_command(harness)),
                events().len(),
            ),
        ),
{
    let w = cleared(d);
    let hooks = with_events(hooks_of(w)->0, entry_doc(hook_command(harness)), events().len());
    if let Doc::Object(v) = w {
        json::lemma_placed(v, "hooks"@, Doc::Object(hooks));
    }
}

/// Installing twice is installing once: no event is left with two copies.
pub proof fn law_installing_twice_is_installing_once(d: Doc, harness: Seq<char>)
    requires
        in_order(d),
        fit_for_entries(cleared(d)),
    ensures
        installed(installed(d, harness), harness) == installed(d, harness),
{
    let w = cleared(d);
    let entry = entry_doc(hook_command(harness));
    law_uninstalling_undoes_installing(d, harness);
    lemma_stripped_in_order(d);
    match w {
        Doc::Object(v) => {
            let hooks = hooks_of(w)->0;
            let places = with_lists(hooks, events().len());
            table::lemma_put(v, "hooks"@, Doc::Object(places));
            json::lemma_member_value(table::put(v, "hooks"@, Doc::Object(places)), "hooks"@);
            assert(hooks_of(with_places(w)) == Some(places));
            lemma_entries_after_lists(hooks, entry);
            let x = Doc::Object(with_events(hooks, entry, events().len()));
            let twice = table::put(table::put(v, "hooks"@, Doc::Object(places)), "hooks"@, x);
            let once = table::put(v, "hooks"@, x);
            table::lemma_put(table::put(v, "hooks"@, Doc::Object(places)), "hooks"@, x);
            table::lemma_put(v, "hooks"@, x);
            json::lemma_placed_in_order(v, "hooks"@, x);
            json::lemma_placed_in_order(table::put(v, "hooks"@, Doc::Object(places)), "hooks"@, x);
            assert forall|k: Seq<char>| #[trigger] table::value(twice, k) == table::value(once, k) by {
                if k != "hooks"@ {
                    assert(table::value(twice, k) == table::value(table::put(v, "hooks"@, Doc::Object(places)), k));
                }
            }
            table::lemma_same_table(twice, once);
        },
        _ => {},
    }
}

} // verus!

//! What is read and what is said: ops from JSON, what an event touched, what
//! the harness hears of the room and of the tests, and what is wired in.
use vstd::prelude::*;
use crate::text;
use crate::json;
use crate::ops;
use crate::hook;
use crate::peers;
use crate::settings;
use crate::json::Doc;
use crate::ops::OpText;
use crate::peers::{PeerText, SeenText};

verus! {

// --------------------------------------------------------------------- ops

/// Does the object hold this text, not empty, under the name?
pub open spec fn says(d: Doc, key: Seq<char>, words: Seq<char>) -> bool {
    json::member(d, key) == Some(Doc::Text(words)) && words.len() > 0
}

/// The names of the ops are told apart by their spelling.
proof fn lemma_op_names()
    ensures
        "rename"@ != "add_param"@,
        "rename"@ != "remove_param"@,
        "rename"@ != "replace_body"@,
        "rename"@ != "pass_arg"@,
        "add_param"@ != "remove_param"@,
        "add_param"@ != "replace_body"@,
        "add_param"@ != "pass_arg"@,
        "remove_param"@ != "replace_body"@,
        "remove_param"@ != "pass_arg"@,
        "replace_body"@ != "pass_arg"@,
{
    reveal_strlit("rename");
    reveal_strlit("add_param");
    reveal_strlit("remove_param");
    reveal_strlit("replace_body");
    reveal_strlit("pass_arg");
    assert("rename"@.len() == 6 && "add_param"@.len() == 9 && "remove_param"@.len() == 12);
    assert("replace_body"@.len() == 12 && "pass_arg"@.len() == 8);
    assert("remove_param"@[2] == 'm' && "replace_body"@[2] == 'p');
}

/// A rename is read from its symbol and its new name.
pub proof fn law_a_rename_is_read(d: Doc, symbol: Seq<char>, new_name: Seq<char>)
    requires
        says(d, "op"@, "rename"@),
        says(d, "symbol"@, symbol),
        says(d, "new_name"@, new_name),
    ensures
        ops::op_of(d) == Ok::<OpText, Seq<char>>((OpText::Rename { symbol, new_name })),
{
}

/// An op on a parameter is read from the path, the symbol and the name; adding
/// one takes a type, a default and an argument for the calls along, each where
/// it is there and not empty.
pub proof fn law_parameter_ops_are_read(
    d: Doc,
    path: Seq<char>,
    symbol: Seq<char>,
    name: Seq<char>,
)
    requires
        says(d, "path"@, path),
        says(d, "symbol"@, symbol),
        says(d, "name"@, name),
    ensures
        says(d, "op"@, "remove_param"@) ==> ops::op_of(d) == Ok::<OpText, Seq<char>>(
            (OpText::RemoveParam { path, symbol, name }),
        ),
        says(d, "op"@, "add_param"@) ==> (ops::op_of(d) matches Ok(OpText::AddParam {
            path: p,
            symbol: s,
            name: n,
            type_,
            default,
            call_arg,
        }) && p == path && s == symbol && n == name && reads_optional(d, "type"@, type_)
            && reads_optional(d, "default"@, default) && reads_optional(
            d,
            "call_arg"@,
            call_arg,
        )),
{
    lemma_op_names();
}

/// Is this what is read of a member that need not be there?
pub open spec fn reads_optional(d: Doc, key: Seq<char>, o: Option<Seq<char>>) -> bool {
    match o {
        Some(words) => says(d, key, words),
        None => forall|words: Seq<char>| !#[trigger] says(d, key, words),
    }
}

/// Passing an argument is read from the path, the symbol and the argument,
/// with the paths it is asked for, and whether it may find no call; replacing
/// a body from the path, the symbol and the body.
pub proof fn law_other_ops_are_read(
    d: Doc,
    path: Seq<char>,
    symbol: Seq<char>,
    words: Seq<char>,
)
    requires
        says(d, "path"@, path),
        says(d, "symbol"@, symbol),
    ensures
        says(d, "op"@, "replace_body"@) && says(d, "body"@, words) ==> ops::op_of(d) == Ok::<
            OpText,
            Seq<char>,
        >((OpText::ReplaceBody { path, symbol, body: words })),
        says(d, "op"@, "pass_arg"@) && says(d, "arg"@, words) ==> ops::op_of(d) == Ok::<
            OpText,
            Seq<char>,
        >(
            (OpText::PassArg {
                path,
                symbol,
                arg: words,
                within: json::texts_at(d, "in"@),
                optional: json::member(d, "optional"@) == Some(Doc::Bool(true)),
            }),
        ),
{
    lemma_op_names();
}

/// What an op needs and does not say is named in the refusal, the first such
/// in the order path, symbol and name.
pub proof fn law_what_is_missing_is_named(d: Doc, op: Seq<char>)
    requires
        says(d, "op"@, op),
        op == "add_param"@ || op == "remove_param"@,
    ensures
        (forall|w: Seq<char>| !#[trigger] says(d, "path"@, w)) ==> ops::op_of(d) == Err::<
            OpText,
            Seq<char>,
        >("path"@ + " is required"@),
        (exists|w: Seq<char>| #[trigger] says(d, "path"@, w)) && (forall|w: Seq<char>|
            !#[trigger] says(d, "symbol"@, w)) ==> ops::op_of(d) == Err::<OpText, Seq<char>>(
            "symbol"@ + " is required"@,
        ),
        (exists|w: Seq<char>| #[trigger] says(d, "path"@, w)) && (exists|w: Seq<char>|
            #[trigger] says(d, "symbol"@, w)) && (forall|w: Seq<char>|
            !#[trigger] says(d, "name"@, w)) ==> ops::op_of(d) == Err::<OpText, Seq<char>>(
            "name"@ + " is required"@,
        ),
{
    lemma_op_names();
    lemma_needed(d, "path"@);
    lemma_needed(d, "symbol"@);
    lemma_needed(d, "name"@);
}

/// A member that is needed is there and not empty, or is named.
proof fn lemma_needed(d: Doc, key: Seq<char>)
    ensures
        match ops::needed(d, key) {
            Ok(w) => says(d, key, w),
            Err(e) => e == key + " is required"@ && forall|w: Seq<char>| !#[trigger]
                says(d, key, w),
        },
{
}

/// A batch is read op by op, in order; an item that is none refuses it all,
/// with its number, counted from one.
pub proof fn law_a_batch_is_read_in_order(items: Seq<Doc>, n: nat, k: int)
    requires
        0 <= k < n <= items.len(),
        forall|i: int| 0 <= i < k ==> (#[trigger] ops::op_of(items[i])) is Ok,
    ensures
        ops::op_of(items[k]) matches Err(e) ==> ops::batch_upto(items, n) == Err::<
            Seq<OpText>,
            Seq<char>,
        >("op "@ + text::decimal((k + 1) as nat) + ": "@ + e),
        ops::batch_upto(items, n) matches Ok(v) ==> v.len() == n && ops::op_of(items[k]) == Ok::<
            OpText,
            Seq<char>,
        >(v[k]),
    decreases n,
{
    if k < n - 1 {
        law_a_batch_is_read_in_order(items, (n - 1) as nat, k);
    } else if n > 1 {
        lemma_batch_reads(items, (n - 1) as nat);
    }
}

/// Items that are all ops are read.
proof fn lemma_batch_reads(items: Seq<Doc>, n: nat)
    requires
        n <= items.len(),
        forall|i: int| 0 <= i < n ==> (#[trigger] ops::op_of(items[i])) is Ok,
    ensures
        ops::batch_upto(items, n) matches Ok(v) && v.len() == n,
    decreases n,
{
    if n > 0 {
        lemma_batch_reads(items, (n - 1) as nat);
        assert(ops::op_of(items[n - 1]) is Ok);
    }
}

// ------------------------------------------------------------- what is said

/// A number is written digit by digit: the last digit is what is left of it
/// beyond its tens, and the others are its tens.
pub proof fn law_numbers_are_written_in_tens(tens: nat, ones: nat)
    requires
        ones < 10,
    ensures
        tens == 0 ==> text::decimal(ones) == seq![text::digit(ones)],
        tens > 0 ==> text::decimal(tens * 10 + ones) == text::decimal(tens) + seq![
            text::digit(ones),
        ],
        (text::digit(ones) as u32) == ('0' as u32) + ones,
{
    if tens > 0 {
        let n = (tens * 10 + ones) as nat;
        assert(n / 10 == tens && n % 10 == ones);
        assert(text::decimal(n) =~= text::decimal(tens) + seq![text::digit(ones)]);
    }
}

/// What was within ten seconds is just now, what was within a minute and a
/// half is told in seconds, and anything older in whole minutes.
pub proof fn law_ages_are_told(s: nat, minutes: nat, rest: nat)
    requires
        s == minutes * 60 + rest,
        rest < 60,
    ensures
        s < 10 ==> peers::ago_text(s) == "just now"@,
        10 <= s < 90 ==> peers::ago_text(s) == text::decimal(s) + "s ago"@,
        s >= 90 ==> peers::ago_text(s) == text::decimal(minutes) + "m ago"@,
{
    assert(s / 60 == minutes);
}

/// A record of three minutes or less is live; one that is older is nobody.
pub proof fn law_three_minutes_are_live(found: SeenText, me: Seq<char>)
    ensures
        found.age < 180 ==> peers::live_peer(found, me) == peers::peer(
            found.record,
            me,
            found.age,
            found.rank,
        ),
        found.age > 180 ==> peers::live_peer(found, me) is None,
        found.age == 180 && found.more ==> peers::live_peer(found, me) is None,
        found.age == 180 && !found.more ==> peers::live_peer(found, me) == peers::peer(
            found.record,
            me,
            found.age,
            found.rank,
        ),
{
}

/// What has nothing to say prints nothing; context for a session's start or a
/// prompt is the text itself.
pub proof fn law_context_is_said_as_it_is(harness: Seq<char>, event: Seq<char>, said: Seq<char>)
    ensures
        said.len() == 0 ==> hook::rendered(harness, event, said).len() == 0,
        said.len() > 0 && harness != "cursor"@ && (event == "SessionStart"@ || event
            == "UserPromptSubmit"@) ==> hook::rendered(harness, event, said) == said,
        said.len() > 0 && harness == "cursor"@ ==> hook::rendered(harness, event, said)
            == hook::json_print(Seq::empty(), seq![("additional_context"@, said)]),
        said.len() > 0 && harness != "cursor"@ && event != "SessionStart"@ && event
            != "UserPromptSubmit"@ ==> hook::rendered(harness, event, said) == hook::json_print(
            seq!["hookSpecificOutput"@],
            seq![("hookEventName"@, event), ("additionalContext"@, said)],
        ),
{
}

/// Each of the first five agents has its line behind the heading: its harness,
/// its short name, what it does, where, and how long ago.
pub proof fn law_every_agent_has_its_line(v: Seq<PeerText>, n: nat, k: int)
    requires
        0 <= k < n <= v.len(),
    ensures
        hook::room_lines(v, n).len() == n + 1,
        hook::room_lines(v, n)[0] == "Other agents in this repo right now:"@,
        v[k].harness.len() > 0 && v[k].path.len() > 0 ==> hook::room_lines(v, n)[k + 1] == "  "@
            + v[k].harness + " ("@ + hook::short_id(v[k].agent) + "): "@ + v[k].action + " "@
            + v[k].path + ", "@ + peers::ago_text(v[k].age),
    decreases n,
{
    lemma_room_lines(v, n);
    lemma_room_lines(v, (n - 1) as nat);
    if k < n - 1 {
        law_every_agent_has_its_line(v, (n - 1) as nat, k);
    } else {
        let p = v[k];
        let head = "  "@ + p.harness + " ("@ + hook::short_id(p.agent) + "): "@;
        let ago = peers::ago_text(p.age);
        assert(head + (p.action + " "@ + p.path + ", "@ + ago) =~= head + p.action + " "@ + p.path
            + ", "@ + ago);
    }
}

/// There is a line for each agent and one before them.
proof fn lemma_room_lines(v: Seq<PeerText>, n: nat)
    ensures
        hook::room_lines(v, n).len() == n + 1,
        hook::room_lines(v, n)[0] == "Other agents in this repo right now:"@,
    decreases n,
{
    if n > 0 {
        lemma_room_lines(v, (n - 1) as nat);
    }
}

/// At most five agents are told of, and of an empty room nothing is said.
pub proof fn law_five_agents_are_told_of(n: nat)
    ensures
        hook::shown(n) <= 5,
        n <= 5 ==> hook::shown(n) == n,
        n > 5 ==> hook::shown(n) == 5,
        hook::room_text(Seq::empty()).len() == 0,
{
}

/// The short name of an agent is what its first six bytes hold; for a name of
/// plain letters and digits its first six characters.
pub proof fn law_a_short_name_is_six_characters(agent: Seq<char>)
    requires
        forall|i: int| 0 <= i < agent.len() ==> (#[trigger] agent[i] as u32) < 128,
    ensures
        agent.len() <= 6 ==> hook::short_id(agent) == agent,
        agent.len() > 6 ==> hook::short_id(agent) == agent.take(6),
{
    lemma_plain_bytes(agent, agent.len());
    if agent.len() <= 6 {
        assert(agent.take(agent.len() as int) =~= agent);
    } else {
        lemma_six(agent, agent.len());
    }
}

/// A plain character is a byte.
proof fn lemma_plain_bytes(agent: Seq<char>, n: nat)
    requires
        n <= agent.len(),
        forall|i: int| 0 <= i < agent.len() ==> (#[trigger] agent[i] as u32) < 128,
    ensures
        text::bytes_upto(agent, n) == n,
    decreases n,
{
    if n > 0 {
        lemma_plain_bytes(agent, (n - 1) as nat);
        assert((agent[n - 1] as u32) < 128);
    }
}

/// Six plain characters are six bytes.
proof fn lemma_six(agent: Seq<char>, n: nat)
    requires
        6 <= n <= agent.len(),
        forall|i: int| 0 <= i < agent.len() ==> (#[trigger] agent[i] as u32) < 128,
    ensures
        hook::whole_in_six(agent, n) == 6,
    decreases n,
{
    lemma_plain_bytes(agent, n);
    if n > 6 {
        lemma_six(agent, (n - 1) as nat);
    }
}

/// The branch is what follows `ref: refs/heads/` in a repository's HEAD,
/// whatever white characters end the file; a HEAD that names a commit names no
/// branch.
pub proof fn law_a_head_names_its_branch(name: Seq<char>, margin: Seq<char>, commit: Seq<char>)
    requires
        name.len() > 0,
        !text::is_white(name.last()),
        forall|i: int| 0 <= i < margin.len() ==> text::is_white(#[trigger] margin[i]),
        commit.len() > 0 ==> commit[0] != 'r' && !text::is_white(commit[0]) && !text::is_white(
            commit.last(),
        ),
    ensures
        hook::branch("ref: refs/heads/"@ + name + margin) == name,
        hook::branch(commit + margin).len() == 0,
{
    reveal_strlit("ref: refs/heads/");
    let none = text::no_text();
    let whole = "ref: refs/heads/"@ + name;
    assert(whole.last() == name.last());
    text::law_trimming_takes_the_margins(none, whole, margin);
    assert(none + whole + margin =~= "ref: refs/heads/"@ + name + margin);
    assert(whole.take(16) =~= "ref: refs/heads/"@);
    assert(whole.skip(16) =~= name);
    text::law_trimming_takes_the_margins(none, commit, margin);
    assert(none + commit + margin =~= commit + margin);
    if text::has_prefix(commit, "ref: refs/heads/"@) {
        assert(commit.take(16)[0] == commit[0]);
    }
}

// ------------------------------------------------------- what was written

/// Does a tool of this name write files?
pub open spec fn is_writer(tool: Seq<char>) -> bool {
    tool == "Write"@ || tool == "Edit"@ || tool == "MultiEdit"@ || tool == "NotebookEdit"@ || tool
        == "apply_patch"@
}

/// A file that a writing tool was given below the root, by whichever of its
/// three names, is one that it wrote; other tools write none.
pub proof fn law_written_files_are_told(
    root: Seq<char>,
    call: Doc,
    input: Doc,
    key: Seq<char>,
    path: Seq<char>,
)
    requires
        json::member(call, "tool_input"@) == Some(input),
        key == "file_path"@ || key == "path"@ || key == "notebook_path"@,
        json::member(input, key) == Some(Doc::Text(path)),
        path.len() > 0,
        path[0] != '/' && path[0] != '.',
        !path.contains('\\'),
    ensures
        is_writer(json::words_at(call, "tool_name"@)) ==> text::listed(
            hook::written(root, call),
            path,
        ),
        !is_writer(json::words_at(call, "tool_name"@)) ==> hook::written(root, call).len() == 0,
{
    reveal_strlit("..");
    assert(text::swapped(path, '\\', '/') =~= path) by {
        assert forall|k: int| 0 <= k < path.len() implies path[k] != '\\' by {
            assert(path.contains(path[k]));
        }
    }
    if text::has_prefix(path, ".."@) {
        assert(path.take(2)[0] == path[0]);
    }
    assert(hook::inside(root, path) == Some(path));
    if is_writer(json::words_at(call, "tool_name"@)) {
        let a = hook::with_path(Seq::empty(), root, json::words_at(input, "file_path"@));
        let b = hook::with_path(a, root, json::words_at(input, "path"@));
        let c = hook::with_path(b, root, json::words_at(input, "notebook_path"@));
        if key == "file_path"@ {
            assert(a[0] == path);
            assert(b[0] == path);
            assert(c[0] == path);
        } else if key == "path"@ {
            assert(b[a.len() as int] == path);
            assert(c[a.len() as int] == path);
        } else {
            assert(c[b.len() as int] == path);
        }
    }
}

// ------------------------------------------------------------- what is wired

/// The settings with our entries have, for every event worth waking for, a
/// last entry that runs the hook under the name of the harness.
pub proof fn law_every_event_runs_the_hook(harness: Seq<char>)
    ensures
        settings::events() == seq![
            "SessionStart"@,
            "UserPromptSubmit"@,
            "PostToolUse"@,
            "Stop"@,
            "SessionEnd"@,
        ],
        settings::hook_command(harness) == "BLAST_HARNESS="@ + harness
            + " .blast/bin/blast hook"@,
        settings::our_command(settings::hook_command(harness)),
{
    reveal_strlit(".blast/");
    reveal_strlit(" .blast/bin/blast hook");
    let head = "BLAST_HARNESS="@ + harness;
    let c = settings::hook_command(harness);
    let n = head.len() as int;
    assert(c.subrange(n + 1, n + 8) =~= ".blast/"@);
    assert(text::occurs_at(c, ".blast/"@, n + 1));
}

/// The entry for an event holds one hook, which runs the command.
pub proof fn law_an_entry_runs_its_command(command: Seq<char>)
    ensures
        json::member(settings::entry_doc(command), "hooks"@) matches Some(Doc::List(v))
            && v.len() == 1 && json::member(v[0], "command"@) == Some(Doc::Text(command))
            && json::member(v[0], "type"@) == Some(Doc::Text("command"@)),
{
    let fields = seq![
        ("type"@, Doc::Text("command"@)),
        ("command"@, Doc::Text(command)),
        ("timeout"@, Doc::Number(text::decimal(10))),
    ];
    reveal_strlit("type");
    reveal_strlit("command");
    reveal_strlit("timeout");
    assert("type"@.len() == 4 && "command"@.len() == 7 && "timeout"@.len() == 7);
    assert("command"@[0] == 'c' && "timeout"@[0] == 't');
    json::lemma_object_member(fields, 0);
    json::lemma_object_member(fields, 1);
    let hook = json::object_doc(fields);
    let outer = seq![("hooks"@, Doc::List(seq![hook]))];
    json::lemma_object_member(outer, 0);
}

/// Every harness with a file of its own has its hooks there; any other has the
/// settings of the one at home.
pub proof fn law_every_harness_has_its_file(harness: Seq<char>, home: Seq<char>)
    ensures
        settings::settings_file("cursor"@, home) == ".cursor/hooks.json"@,
        settings::settings_file("codex"@, home) == ".codex/hooks.json"@,
        harness != "cursor"@ && harness != "codex"@ ==> settings::settings_file(harness, home)
            == "."@ + home + "/settings.json"@,
{
    reveal_strlit("cursor");
    reveal_strlit("codex");
    assert("cursor"@.len() == 6 && "codex"@.len() == 5);
}

} // verus!

//! The hook: what is done on the harness's events, and what is said back.
//!
//! It never blocks: the only slow work, running tests, happens in a process
//! of its own and is collected later. It never costs model tokens to produce:
//! nothing here asks a model anything. And it stays quiet unless it has
//! something: an agent that learns to skim this channel has lost it.
use vstd::prelude::*;
use crate::text;
use crate::table;
use crate::peers;
use crate::order;
use crate::json;
use crate::json::{Doc, Json};
use crate::peers::{Peer, PeerText};

verus! {

// -------------------------------------------------------------- the answer

/// An object of texts, printed as JSON, inside objects that each hold it
/// under one of the keys, the first key outermost.
pub uninterp spec fn json_print(
    outer: Seq<Seq<char>>,
    fields: Seq<(Seq<char>, Seq<char>)>,
) -> Seq<char>;

/// `serde_json::Value::to_string` of an object of texts, inside objects that
/// each hold it under one of the keys, the first key outermost. The text
/// depends on the keys and the fields alone.
#[verifier::external_body]
fn print_json(outer: &Vec<String>, fields: &Vec<(String, String)>) -> (r: String)
    ensures
        r@ == json_print(text::texts(outer@), text::text_pairs(fields@)),
{
    let mut value: serde_json::Value = fields.iter().cloned().collect();
    for key in outer.iter().rev() {
        value = [(key.clone(), value)].into_iter().collect();
    }
    value.to_string()
}

/// What the harness reads back as context, or nothing.
pub open spec fn rendered(harness: Seq<char>, event: Seq<char>, text: Seq<char>) -> Seq<char> {
    if text.len() == 0 {
        text::no_text()
    } else if harness == "cursor"@ {
        json_print(Seq::empty(), seq![("additional_context"@, text)])
    } else if event == "SessionStart"@ || event == "UserPromptSubmit"@ {
        text
    } else {
        json_print(
            seq!["hookSpecificOutput"@],
            seq![("hookEventName"@, event), ("additionalContext"@, text)],
        )
    }
}

/// What the harness reads back as context, or nothing.
pub fn render(harness: &str, event: &str, text: &str) -> (r: String)
    ensures
        r@ == rendered(harness@, event@, text@),
{
    if text::chars(text).len() == 0 {
        return String::new();
    }
    let mut outer: Vec<String> = Vec::new();
    let mut fields: Vec<(String, String)> = Vec::new();
    if text::same(harness, "cursor") {
        fields.push(("additional_context".to_string(), text.to_string()));
        assert(text::text_pairs(fields@) =~= seq![("additional_context"@, text@)]);
        assert(text::texts(outer@) =~= Seq::<Seq<char>>::empty());
        print_json(&outer, &fields)
    } else if text::same(event, "SessionStart") || text::same(event, "UserPromptSubmit") {
        text.to_string()
    } else {
        outer.push("hookSpecificOutput".to_string());
        fields.push(("hookEventName".to_string(), event.to_string()));
        fields.push(("additionalContext".to_string(), text.to_string()));
        assert(text::texts(outer@) =~= seq!["hookSpecificOutput"@]);
        assert(text::text_pairs(fields@) =~= seq![
            ("hookEventName"@, event@),
            ("additionalContext"@, text@),
        ]);
        print_json(&outer, &fields)
    }
}

/// Everything said on an event, as the harness reads it back.
pub fn reply(harness: &str, event: &str, said: &Vec<String>) -> (r: String)
    ensures
        r@ == rendered(harness@, event@, text::joined(text::texts(said@), "\n\n"@)),
{
    let text = text::join(said, "\n\n");
    render(harness, event, text.as_str())
}

/// It stays quiet unless it has something.
pub proof fn law_silence_says_nothing(harness: Seq<char>, event: Seq<char>)
    ensures
        rendered(harness, event, text::joined(Seq::empty(), "\n\n"@)).len() == 0,
{
}

// -------------------------------------------------------------- tool calls

/// Does a tool of this name write files?
pub open spec fn writes_files(tool: Seq<char>) -> bool {
    ||| tool == "Write"@
    ||| tool == "Edit"@
    ||| tool == "MultiEdit"@
    ||| tool == "NotebookEdit"@
    ||| tool == "apply_patch"@
}

/// Does a segment of a path count? An empty one does not, nor one that stays
/// where it is.
pub open spec fn counts(segment: Seq<char>) -> bool {
    segment.len() > 0 && segment != "."@
}

/// Where the segments of a path that count stand, from position `i` on, at
/// which one starts.
pub open spec fn spans_from(s: Seq<char>, i: int) -> Seq<(int, int)>
    decreases s.len() - i,
{
    let e = text::next_of(s, '/', i);
    if i < 0 || i > s.len() || e < i {
        Seq::empty()
    } else {
        let rest = if e >= s.len() {
            Seq::empty()
        } else {
            spans_from(s, e + 1)
        };
        if counts(s.subrange(i, e)) {
            seq![(i, e)] + rest
        } else {
            rest
        }
    }
}

/// The segments of a path that count.
pub open spec fn parts(s: Seq<char>) -> Seq<Seq<char>> {
    let spans = spans_from(s, 0);
    Seq::new(spans.len(), |k: int| s.subrange(spans[k].0, spans[k].1))
}

/// Does a path start at the root of the file system?
pub open spec fn from_top(s: Seq<char>) -> bool {
    s.len() > 0 && s[0] == '/'
}

/// What a path says from its `n`th segment that counts on, up to the last.
pub open spec fn from_part(s: Seq<char>, n: int) -> Seq<char> {
    let spans = spans_from(s, 0);
    if n >= spans.len() {
        text::no_text()
    } else {
        s.subrange(spans[n].0, spans.last().1)
    }
}

/// Where the last segment that counts of a path from the top ends; behind the
/// slash where there is none.
pub open spec fn parts_end(s: Seq<char>) -> int {
    let spans = spans_from(s, 0);
    if spans.len() == 0 {
        1
    } else {
        spans.last().1
    }
}

/// A path as it stands below a directory. One that does not start at the top
/// does already; one that does stands below where the segments of the
/// directory are the first of its own.
pub open spec fn below_root(root: Seq<char>, raw: Seq<char>) -> Option<Seq<char>> {
    if !from_top(raw) {
        Some(raw)
    } else if root.len() == 0 {
        Some(raw.take(parts_end(raw)))
    } else if from_top(root) && parts(root).len() <= parts(raw).len() && parts(raw).take(
        parts(root).len() as int,
    ) == parts(root) {
        Some(from_part(raw, parts(root).len() as int))
    } else {
        None
    }
}

/// Positions, as numbers without a bound.
pub open spec fn span_ints(v: Seq<(usize, usize)>) -> Seq<(int, int)> {
    Seq::new(v.len(), |i: int| (v[i].0 as int, v[i].1 as int))
}

/// Where the segments of a path that count stand.
fn spans_of(cs: &Vec<char>) -> (r: Vec<(usize, usize)>)
    ensures
        span_ints(r@) == spans_from(cs@, 0),
        forall|k: int| 0 <= k < r@.len() ==> (#[trigger] r@[k]).0 <= r@[k].1 <= cs@.len(),
        forall|j: int, k: int|
            0 <= j < k < r@.len() ==> (#[trigger] r@[j]).1 <= (#[trigger] r@[k]).0,
{
    let ghost whole = spans_from(cs@, 0);
    let mut out: Vec<(usize, usize)> = Vec::new();
    let mut i: usize = 0;
    let mut going = true;
    assert(span_ints(out@) + whole =~= whole);
    while going
        invariant
            i <= cs.len(),
            whole == spans_from(cs@, 0),
            going ==> span_ints(out@) + spans_from(cs@, i as int) == whole,
            !going ==> span_ints(out@) == whole,
            forall|k: int|
                0 <= k < out@.len() ==> (#[trigger] out@[k]).0 <= out@[k].1 <= cs@.len(),
            going ==> forall|k: int| 0 <= k < out@.len() ==> (#[trigger] out@[k]).1 <= i,
            forall|j: int, k: int|
                0 <= j < k < out@.len() ==> (#[trigger] out@[j]).1 <= (#[trigger] out@[k]).0,
        decreases cs.len() - i, (if going { 1int } else { 0int }),
    {
        let e = text::next_char(cs, '/', i);
        let segment = text::piece(cs, i, e);
        let ghost before = span_ints(out@);
        let ghost rest = if e >= cs@.len() {
            Seq::<(int, int)>::empty()
        } else {
            spans_from(cs@, e + 1)
        };
        if text::chars(segment.as_str()).len() > 0 && !text::same(segment.as_str(), ".") {
            out.push((i, e));
            assert(span_ints(out@) =~= before.push((i as int, e as int)));
            assert(before + (seq![(i as int, e as int)] + rest) =~= span_ints(out@) + rest);
        }
        assert(span_ints(out@) + rest == whole);
        if e >= cs.len() {
            assert(span_ints(out@) + rest =~= span_ints(out@));
            going = false;
        } else {
            i = e + 1;
        }
    }
    out
}

/// What a path says from its `n`th segment that counts on, up to the last.
fn tail_of(cs: &Vec<char>, spans: &Vec<(usize, usize)>, n: usize) -> (r: String)
    requires
        span_ints(spans@) == spans_from(cs@, 0),
        forall|k: int| 0 <= k < spans@.len() ==> (#[trigger] spans@[k]).0 <= spans@[k].1 <= cs@.len(),
        forall|j: int, k: int|
            0 <= j < k < spans@.len() ==> (#[trigger] spans@[j]).1 <= (#[trigger] spans@[k]).0,
    ensures
        r@ == from_part(cs@, n as int),
{
    let ghost all = spans_from(cs@, 0);
    assert(all.len() == spans@.len());
    if n >= spans.len() {
        return String::new();
    }
    let last: usize = spans.len() - 1;
    assert(all[n as int] == (spans@[n as int].0 as int, spans@[n as int].1 as int));
    assert(all.last() == (spans@[last as int].0 as int, spans@[last as int].1 as int));
    assert(spans@[n as int].0 <= spans@[last as int].1) by {
        if n < last {
            assert(spans@[n as int].1 <= spans@[last as int].0);
        }
    }
    text::piece(cs, spans[n].0, spans[last].1)
}

/// A path as it stands below a directory, where it does.
pub fn below(root: &str, raw: &str) -> (r: Option<String>)
    ensures
        text::opt_text(r) == below_root(root@, raw@),
{
    let cs = text::chars(raw);
    if cs.len() == 0 || cs[0] != '/' {
        return Some(raw.to_string());
    }
    let spans = spans_of(&cs);
    let top = text::chars(root);
    if top.len() == 0 {
        assert(span_ints(spans@).len() == spans@.len());
        let end: usize = if spans.len() == 0 {
            1
        } else {
            assert(span_ints(spans@).last() == (
                spans@[spans@.len() - 1].0 as int,
                spans@[spans@.len() - 1].1 as int,
            ));
            spans[spans.len() - 1].1
        };
        let r = text::piece(&cs, 0, end);
        assert(r@ =~= raw@.take(end as int));
        return Some(r);
    }
    if top[0] != '/' {
        return None;
    }
    let dirs = spans_of(&top);
    let ghost own = parts(raw@);
    let ghost above = parts(root@);
    assert(span_ints(spans@).len() == spans@.len());
    assert(span_ints(dirs@).len() == dirs@.len());
    if dirs.len() > spans.len() {
        return None;
    }
    let mut k: usize = 0;
    while k < dirs.len()
        invariant
            k <= dirs.len() <= spans.len(),
            from_top(raw@),
            from_top(root@),
            cs@ == raw@,
            top@ == root@,
            own == parts(raw@),
            above == parts(root@),
            own.len() == spans@.len(),
            above.len() == dirs@.len(),
            span_ints(spans@) == spans_from(cs@, 0),
            span_ints(dirs@) == spans_from(top@, 0),
            forall|j: int|
                0 <= j < spans@.len() ==> (#[trigger] spans@[j]).0 <= spans@[j].1 <= cs@.len(),
            forall|j: int|
                0 <= j < dirs@.len() ==> (#[trigger] dirs@[j]).0 <= dirs@[j].1 <= top@.len(),
            forall|j: int| 0 <= j < k ==> #[trigger] own[j] == above[j],
        decreases dirs.len() - k,
    {
        assert(span_ints(spans@)[k as int] == (spans@[k as int].0 as int, spans@[k as int].1 as int));
        assert(span_ints(dirs@)[k as int] == (dirs@[k as int].0 as int, dirs@[k as int].1 as int));
        let mine = text::piece(&cs, spans[k].0, spans[k].1);
        let theirs = text::piece(&top, dirs[k].0, dirs[k].1);
        assert(mine@ == own[k as int]);
        assert(theirs@ == above[k as int]);
        if !text::same(mine.as_str(), theirs.as_str()) {
            assert(own.take(above.len() as int)[k as int] != above[k as int]);
            return None;
        }
        k += 1;
    }
    assert(own.take(above.len() as int) =~= above);
    Some(tail_of(&cs, &spans, dirs.len()))
}

/// A path below the root as the index writes it, where it lies below it.
pub open spec fn inside(root: Seq<char>, raw: Seq<char>) -> Option<Seq<char>> {
    match below_root(root, raw) {
        Some(rel) => {
            let path = text::swapped(rel, '\\', '/');
            if path.len() == 0 || text::has_prefix(path, ".."@) {
                None
            } else {
                Some(path)
            }
        },
        None => None,
    }
}

/// A path below the root as the index writes it, where it lies below it.
pub fn relative(root: &str, raw: &str) -> (r: Option<String>)
    ensures
        text::opt_text(r) == inside(root@, raw@),
{
    match below(root, raw) {
        Some(rel) => {
            let path = text::swap(rel.as_str(), '\\', '/');
            if text::chars(path.as_str()).len() == 0 || text::starts_with(path.as_str(), "..") {
                None
            } else {
                Some(path)
            }
        },
        None => None,
    }
}

/// The paths with one more, where it is not empty and lies below the root.
pub open spec fn with_path(v: Seq<Seq<char>>, root: Seq<char>, raw: Seq<char>) -> Seq<Seq<char>> {
    if raw.len() == 0 {
        v
    } else {
        match inside(root, raw) {
            Some(path) => v.push(path),
            None => v,
        }
    }
}

/// The files that a tool call touched, below the root.
pub open spec fn written(root: Seq<char>, call: Doc) -> Seq<Seq<char>> {
    if !writes_files(json::words_at(call, "tool_name"@)) {
        Seq::empty()
    } else {
        let input = match json::member(call, "tool_input"@) {
            Some(x) => x,
            None => Doc::Null,
        };
        with_path(
            with_path(
                with_path(Seq::empty(), root, json::words_at(input, "file_path"@)),
                root,
                json::words_at(input, "path"@),
            ),
            root,
            json::words_at(input, "notebook_path"@),
        )
    }
}

/// Adds a path, where it is not empty and lies below the root.
fn add_path(v: &mut Vec<String>, root: &str, raw: String)
    ensures
        text::texts(final(v)@) == with_path(text::texts(old(v)@), root@, raw@),
{
    if text::chars(raw.as_str()).len() > 0 {
        match relative(root, raw.as_str()) {
            Some(path) => {
                proof {
                    text::lemma_texts_push(v@, path);
                }
                v.push(path);
            },
            None => {},
        }
    }
}

/// The files that a tool call touched, below the root.
pub fn touched(root: &str, call: &Json) -> (r: Vec<String>)
    ensures
        text::texts(r@) == written(root@, call@),
{
    let mut out: Vec<String> = Vec::new();
    assert(text::texts(out@) =~= Seq::<Seq<char>>::empty());
    let tool = call.text_at("tool_name");
    let name = tool.as_str();
    if !(text::same(name, "Write") || text::same(name, "Edit") || text::same(name, "MultiEdit") || text::same(
        name,
        "NotebookEdit",
    ) || text::same(name, "apply_patch")) {
        return out;
    }
    match call.get("tool_input") {
        Some(input) => {
            add_path(&mut out, root, input.text_at("file_path"));
            add_path(&mut out, root, input.text_at("path"));
            add_path(&mut out, root, input.text_at("notebook_path"));
        },
        None => {},
    }
    out
}

/// Every tool call in an event: one for a single use, many for a batch.
pub open spec fn tool_calls(event: Doc) -> Seq<Doc> {
    match json::member_items(event, "tool_calls"@) {
        Some(list) => list,
        None => if json::member(event, "tool_name"@) is Some {
            seq![event]
        } else {
            Seq::empty()
        },
    }
}

/// Every tool call in an event.
pub fn calls(event: &Json) -> (r: Vec<Json>)
    ensures
        json::docs(r@) == tool_calls(event@),
{
    let list = match event.get("tool_calls") {
        Some(x) => x.as_array(),
        None => None,
    };
    let mut out: Vec<Json> = Vec::new();
    match list {
        Some(list) => {
            let mut k: usize = 0;
            while k < list.len()
                invariant
                    k <= list.len(),
                    out@.len() == k,
                    forall|j: int| 0 <= j < k ==> (#[trigger] out@[j])@ == list@[j]@,
                decreases list.len() - k,
            {
                out.push(list[k].copy());
                k += 1;
            }
            assert(json::docs(out@) =~= json::docs(list@));
            out
        },
        None => {
            if event.get("tool_name").is_some() {
                out.push(event.copy());
                assert(json::docs(out@) =~= seq![event@]);
            } else {
                assert(json::docs(out@) =~= Seq::<Doc>::empty());
            }
            out
        },
    }
}

/// The files that the first `n` calls touched.
pub open spec fn written_upto(root: Seq<char>, calls: Seq<Doc>, n: nat) -> Seq<Seq<char>>
    decreases n,
{
    if n == 0 {
        Seq::empty()
    } else {
        written_upto(root, calls, (n - 1) as nat) + written(root, calls[n - 1])
    }
}

/// The files that the tool calls of an event touched.
pub fn all_touched(root: &str, event: &Json) -> (r: Vec<String>)
    ensures
        text::texts(r@) == written_upto(root@, tool_calls(event@), tool_calls(event@).len()),
{
    let list = calls(event);
    let ghost all = json::docs(list@);
    let mut out: Vec<String> = Vec::new();
    let mut k: usize = 0;
    assert(text::texts(out@) =~= Seq::<Seq<char>>::empty());
    while k < list.len()
        invariant
            k <= list.len(),
            all == json::docs(list@),
            text::texts(out@) == written_upto(root@, all, k as nat),
        decreases list.len() - k,
    {
        assert(all[k as int] == list@[k as int]@);
        let mut more = touched(root, &list[k]);
        let ghost before = out@;
        let ghost added = more@;
        out.append(&mut more);
        assert(text::texts(out@) =~= text::texts(before) + text::texts(added));
        k += 1;
    }
    assert(all.len() == list@.len());
    out
}

/// The branch that a repository's HEAD names; none where it names none.
pub open spec fn branch(head: Seq<char>) -> Seq<char> {
    match text::without_prefix(text::trimmed(head), "ref: refs/heads/"@) {
        Some(name) => name,
        None => text::no_text(),
    }
}

/// The branch that a repository's HEAD names; none where it names none.
pub fn git_branch(head: &str) -> (r: String)
    ensures
        r@ == branch(head@),
{
    let bare = text::trim(head);
    match text::strip_prefix(bare.as_str(), "ref: refs/heads/") {
        Some(name) => name,
        None => String::new(),
    }
}

// ----------------------------------------------------------------- the room

/// How many whole characters, of the first `n`, lie in the first six bytes.
pub open spec fn whole_in_six(agent: Seq<char>, n: nat) -> nat
    decreases n,
{
    if n == 0 || text::bytes_upto(agent, n) <= 6 {
        n
    } else {
        whole_in_six(agent, (n - 1) as nat)
    }
}

/// The whole characters in the first six bytes of an agent's id.
pub open spec fn short_id(agent: Seq<char>) -> Seq<char> {
    agent.take(whole_in_six(agent, agent.len()) as int)
}

/// Where the next character no longer lies in the first six bytes, no later
/// one does.
proof fn lemma_whole_in_six(agent: Seq<char>, k: nat, n: nat)
    requires
        k <= n <= agent.len(),
        text::bytes_upto(agent, k) <= 6,
        k < n ==> text::bytes_upto(agent, k + 1) > 6,
    ensures
        whole_in_six(agent, n) == k,
    decreases n,
{
    if k < n {
        text::lemma_bytes_grow(agent, k + 1, n);
        if k + 1 < n {
            lemma_whole_in_six(agent, k, (n - 1) as nat);
        } else {
            assert(whole_in_six(agent, k) == k);
        }
    }
}

/// The whole characters in the first six bytes of an agent's id.
pub fn short_agent(agent: &str) -> (r: String)
    ensures
        r@ == short_id(agent@),
{
    let cs = text::chars(agent);
    let mut k: usize = 0;
    let mut total: u128 = 0;
    while k < cs.len()
        invariant
            cs@ == agent@,
            k <= cs.len(),
            total == text::bytes_upto(agent@, k as nat),
            total <= 6,
        ensures
            k <= cs.len(),
            text::bytes_upto(agent@, k as nat) <= 6,
            k < cs.len() ==> text::bytes_upto(agent@, k as nat + 1) > 6,
        decreases cs.len() - k,
    {
        let next: u128 = total + text::width_of(cs[k]);
        if next > 6 {
            break;
        }
        total = next;
        k += 1;
    }
    proof {
        lemma_whole_in_six(agent@, k as nat, agent@.len());
    }
    let r = text::piece(&cs, 0, k);
    assert(r@ =~= agent@.take(k as int));
    r
}

/// What an agent is doing.
pub open spec fn doing(action: Seq<char>, path: Seq<char>) -> Seq<char> {
    if path.len() == 0 {
        action
    } else {
        action + " "@ + path
    }
}

/// What an agent is doing.
pub fn what_of(action: &str, path: &str) -> (r: String)
    ensures
        r@ == doing(action@, path@),
{
    if text::chars(path).len() == 0 {
        action.to_string()
    } else {
        text::cat3(action, " ", path)
    }
}

/// The line that tells of an agent.
pub open spec fn room_line(p: PeerText) -> Seq<char> {
    let who = if p.harness.len() == 0 {
        "an agent"@
    } else {
        p.harness
    };
    "  "@ + who + " ("@ + short_id(p.agent) + "): "@ + (doing(p.action, p.path) + ", "@
        + peers::ago_text(p.age))
}

/// The lines that tell of the first `n` agents.
pub open spec fn room_lines(v: Seq<PeerText>, n: nat) -> Seq<Seq<char>>
    decreases n,
{
    if n == 0 {
        seq!["Other agents in this repo right now:"@]
    } else {
        room_lines(v, (n - 1) as nat).push(room_line(v[n - 1]))
    }
}

/// How many agents are told of.
pub open spec fn shown(n: nat) -> nat {
    if n < 5 {
        n
    } else {
        5
    }
}

/// A text naming who else is in this repository right now.
pub open spec fn room_text(v: Seq<PeerText>) -> Seq<char> {
    if v.len() == 0 {
        text::no_text()
    } else {
        text::joined(
            room_lines(v, shown(v.len())).push(
                "Say so to the user if any of that changes what you are about to do."@,
            ),
            "\n"@,
        )
    }
}

/// The line that tells of an agent.
fn line_of(p: &Peer) -> (r: String)
    ensures
        r@ == room_line(p@),
{
    let id = short_agent(p.agent.as_str());
    let what = what_of(p.action.as_str(), p.path.as_str());
    let when = peers::ago(p.age);
    let tail = text::cat3(what.as_str(), ", ", when.as_str());
    let head = if text::chars(p.harness.as_str()).len() == 0 {
        text::cat5("  ", "an agent", " (", id.as_str(), "): ")
    } else {
        text::cat5("  ", p.harness.as_str(), " (", id.as_str(), "): ")
    };
    text::cat2(head.as_str(), tail.as_str())
}

/// A text naming who else is in this repository right now.
pub fn room(peers: &Vec<Peer>) -> (r: String)
    ensures
        r@ == room_text(peers::peer_texts(peers@)),
{
    if peers.len() == 0 {
        return String::new();
    }
    let ghost all = peers::peer_texts(peers@);
    let n: usize = if peers.len() < 5 {
        peers.len()
    } else {
        5
    };
    let mut lines: Vec<String> = Vec::new();
    lines.push("Other agents in this repo right now:".to_string());
    assert(text::texts(lines@) =~= seq!["Other agents in this repo right now:"@]);
    let mut k: usize = 0;
    assert(all.len() == peers@.len());
    while k < n
        invariant
            k <= n <= peers.len(),
            n == shown(all.len()),
            all == peers::peer_texts(peers@),
            text::texts(lines@) == room_lines(all, k as nat),
        decreases n - k,
    {
        assert(all[k as int] == peers@[k as int]@);
        let line = line_of(&peers[k]);
        proof {
            text::lemma_texts_push(lines@, line);
        }
        lines.push(line);
        k += 1;
    }
    let last = "Say so to the user if any of that changes what you are about to do.".to_string();
    proof {
        text::lemma_texts_push(lines@, last);
    }
    lines.push(last);
    text::join(&lines, "\n")
}

// -------------------------------------------------------------- the verdict

/// The verdict that a test run left behind, as one short block.
pub open spec fn verdict_text(verdict: Doc) -> Seq<char> {
    let failing = json::texts_at(verdict, "failing"@);
    let changed = json::texts_at(verdict, "changed"@);
    let what = if changed.len() > 0 {
        changed[0]
    } else {
        "your change"@
    };
    let ok = match json::member(verdict, "ok"@) {
        Some(x) => json::as_truth(x) == Some(true),
        None => false,
    };
    if ok {
        "Blast: the tests covering "@ + what + " passed after your change."@
    } else if failing.len() == 0 {
        "Blast: the tests covering "@ + what + " did not pass after your change."@
    } else {
        let more = if failing.len() > 6 {
            " and "@ + text::decimal((failing.len() - 6) as nat) + " more"@
        } else {
            text::no_text()
        };
        let named = if failing.len() > 6 {
            text::join_upto(failing, ", "@, 6)
        } else {
            text::joined(failing, ", "@)
        };
        "Blast: your change to "@ + what + " breaks "@ + text::decimal(failing.len()) + (if failing.len()
            == 1 {
            " test in files you did not edit: "@
        } else {
            " tests in files you did not edit: "@
        }) + (named + more
            + ".\nFix them or tell the user what you are leaving broken, before you move on."@)
    }
}

/// The verdict that a test run left behind, as one short block.
pub fn verdict_note(verdict: &Json) -> (r: String)
    ensures
        r@ == verdict_text(verdict@),
{
    let failing = verdict.texts_at("failing");
    let changed = verdict.texts_at("changed");
    assert(text::texts(failing@).len() == failing@.len());
    assert(text::texts(changed@).len() == changed@.len());
    let what = if changed.len() > 0 {
        assert(text::texts(changed@)[0] == changed@[0]@);
        changed[0].clone()
    } else {
        "your change".to_string()
    };
    let ok = match verdict.get("ok") {
        Some(x) => match x.as_bool() {
            Some(b) => b,
            None => false,
        },
        None => false,
    };
    if ok {
        return text::cat3("Blast: the tests covering ", what.as_str(), " passed after your change.");
    }
    if failing.len() == 0 {
        return text::cat3(
            "Blast: the tests covering ",
            what.as_str(),
            " did not pass after your change.",
        );
    }
    let total = text::number(failing.len() as u64);
    let named = if failing.len() > 6 {
        text::join_first(&failing, 6, ", ")
    } else {
        text::join(&failing, ", ")
    };
    let more = if failing.len() > 6 {
        let n = text::number(failing.len() as u64 - 6);
        text::cat3(" and ", n.as_str(), " more")
    } else {
        String::new()
    };
    assert(more@ =~= if failing@.len() > 6 {
        " and "@ + text::decimal((failing@.len() - 6) as nat) + " more"@
    } else {
        text::no_text()
    });
    let head = text::cat4("Blast: your change to ", what.as_str(), " breaks ", total.as_str());
    let head = if failing.len() == 1 {
        text::cat2(head.as_str(), " test in files you did not edit: ")
    } else {
        text::cat2(head.as_str(), " tests in files you did not edit: ")
    };
    let tail = text::cat3(
        named.as_str(),
        more.as_str(),
        ".\nFix them or tell the user what you are leaving broken, before you move on.",
    );
    text::cat2(head.as_str(), tail.as_str())
}

/// What is said of a new index.
pub open spec fn index_text(files: nat, symbols: nat) -> Seq<char> {
    if files == 0 {
        text::no_text()
    } else {
        "Blast indexed "@ + text::decimal(files) + (if files == 1 {
            " file and "@
        } else {
            " files and "@
        }) + text::decimal(symbols) + (if symbols == 1 {
            " symbol: edits here are checked against what calls them."@
        } else {
            " symbols: edits here are checked against what calls them."@
        })
    }
}

/// What is said of a new index.
pub fn index_note(files: u64, symbols: u64) -> (r: String)
    ensures
        r@ == index_text(files as nat, symbols as nat),
{
    if files == 0 {
        return String::new();
    }
    let f = text::number(files);
    let s = text::number(symbols);
    let head = if files == 1 {
        text::cat3("Blast indexed ", f.as_str(), " file and ")
    } else {
        text::cat3("Blast indexed ", f.as_str(), " files and ")
    };
    if symbols == 1 {
        text::cat3(
            head.as_str(),
            s.as_str(),
            " symbol: edits here are checked against what calls them.",
        )
    } else {
        text::cat3(
            head.as_str(),
            s.as_str(),
            " symbols: edits here are checked against what calls them.",
        )
    }
}

// ----------------------------------------------------------------- the plan

/// One thing to do on an event.
pub enum Step {
    /// say what this agent is doing
    Announce { action: &'static str, path: String },
    /// build the index where there is none yet, and tell of it
    IndexIfNew,
    /// tell who else is here
    TellRoom,
    /// leave the room
    Withdraw,
    /// run the tests of what changed, in a process of their own
    SpawnTests,
    /// tell what a test run left behind
    TellVerdict,
}

/// What a step says.
pub enum StepText {
    Announce { action: Seq<char>, path: Seq<char> },
    IndexIfNew,
    TellRoom,
    Withdraw,
    SpawnTests,
    TellVerdict,
}

impl View for Step {
    type V = StepText;

    open spec fn view(&self) -> StepText {
        match *self {
            Step::Announce { action, path } => StepText::Announce { action: action@, path: path@ },
            Step::IndexIfNew => StepText::IndexIfNew,
            Step::TellRoom => StepText::TellRoom,
            Step::Withdraw => StepText::Withdraw,
            Step::SpawnTests => StepText::SpawnTests,
            Step::TellVerdict => StepText::TellVerdict,
        }
    }
}

/// What a list of steps says.
pub open spec fn step_texts(v: Seq<Step>) -> Seq<StepText> {
    Seq::new(v.len(), |i: int| v[i]@)
}

/// What is done on an event, in order, given the files that changed.
pub open spec fn plan_for(event: Seq<char>, changed: Seq<Seq<char>>) -> Seq<StepText> {
    if event == "SessionStart"@ {
        seq![
            StepText::Announce { action: "joined"@, path: text::no_text() },
            StepText::IndexIfNew,
            StepText::TellRoom,
        ]
    } else if event == "SessionEnd"@ {
        seq![StepText::Withdraw]
    } else if event == "UserPromptSubmit"@ {
        seq![StepText::TellRoom, StepText::TellVerdict]
    } else if event == "PostToolUse"@ || event == "PostToolBatch"@ || event == "Stop"@ {
        if changed.len() > 0 {
            seq![
                StepText::Announce { action: "editing"@, path: changed[0] },
                StepText::SpawnTests,
                StepText::TellVerdict,
            ]
        } else {
            seq![StepText::TellVerdict]
        }
    } else {
        Seq::empty()
    }
}

/// What is done on an event, in order, given the files that changed.
pub fn plan(event: &str, changed: &Vec<String>) -> (r: Vec<Step>)
    ensures
        step_texts(r@) == plan_for(event@, text::texts(changed@)),
{
    let ghost wanted = plan_for(event@, text::texts(changed@));
    assert(text::texts(changed@).len() == changed@.len());
    let mut out: Vec<Step> = Vec::new();
    if text::same(event, "SessionStart") {
        out.push(Step::Announce { action: "joined", path: String::new() });
        out.push(Step::IndexIfNew);
        out.push(Step::TellRoom);
    } else if text::same(event, "SessionEnd") {
        out.push(Step::Withdraw);
    } else if text::same(event, "UserPromptSubmit") {
        out.push(Step::TellRoom);
        out.push(Step::TellVerdict);
    } else if text::same(event, "PostToolUse") || text::same(event, "PostToolBatch") || text::same(event, "Stop") {
        if changed.len() > 0 {
            assert(text::texts(changed@)[0] == changed@[0]@);
            out.push(Step::Announce { action: "editing", path: changed[0].clone() });
            out.push(Step::SpawnTests);
        }
        out.push(Step::TellVerdict);
    }
    assert(step_texts(out@) =~= wanted);
    out
}

/// Does the hook stand down? A hosted coordinator owns this repository, and
/// nobody asked for the local check alone.
pub fn stands_down(alone: bool, coordinator: &Option<String>) -> (r: bool)
    ensures
        r == (!alone && *coordinator is Some),
{
    !alone && coordinator.is_some()
}

/// The files that the tool calls of an event touched, in order, each once.
pub fn changed_files(root: &str, event: &Json) -> (r: Vec<String>)
    ensures
        ({
            let all = written_upto(root@, tool_calls(event@), tool_calls(event@).len());
            text::texts(r@) == order::text_set(all, all.len())
        }),
{
    let out = all_touched(root, event);
    assert(text::texts(out@).len() == out@.len());
    order::set_of(&out)
}

/// The files that changed are exactly those below the root that the calls of
/// an event touched, in order, each once.
pub proof fn law_changed_files_come_once(root: Seq<char>, event: Doc, x: Seq<char>)
    ensures
        ({
            let all = written_upto(root, tool_calls(event), tool_calls(event).len());
            let changed = order::text_set(all, all.len());
            table::ordered(changed) && (text::listed(changed, x) <==> text::listed(all, x))
        }),
{
    let all = written_upto(root, tool_calls(event), tool_calls(event).len());
    order::lemma_text_set(all, all.len());
    assert(all.take(all.len() as int) =~= all);
}

/// Tests are run only where something changed, and then this agent says first
/// what it is editing.
pub proof fn law_tests_follow_an_announced_edit(event: Seq<char>, changed: Seq<Seq<char>>, i: int)
    requires
        0 <= i < plan_for(event, changed).len(),
        plan_for(event, changed)[i] is SpawnTests,
    ensures
        changed.len() > 0,
        i > 0,
        plan_for(event, changed)[i - 1] == (StepText::Announce {
            action: "editing"@,
            path: changed[0],
        }),
{
}

} // verus!

//! What the commands print.
use vstd::prelude::*;
use crate::verify;
use crate::text;
use crate::index;
use crate::radius;
use crate::peers;
use crate::json;
use crate::hook;
use crate::json::{Doc, Json};
use crate::peers::{Peer, PeerText};
use crate::radius::{Dependent, DependentText};

verus! {

// ------------------------------------------------------------------ columns

/// The text with blanks after it, up to a width.
pub open spec fn padded(s: Seq<char>, width: nat) -> Seq<char> {
    if s.len() >= width {
        s
    } else {
        s + Seq::new((width - s.len()) as nat, |i: int| ' ')
    }
}

/// The text with blanks after it, up to a width.
pub fn pad(s: &str, width: usize) -> (r: String)
    ensures
        r@ == padded(s@, width as nat),
{
    let mut cs = text::chars(s);
    let ghost all = cs@;
    while cs.len() < width
        invariant
            all.len() <= cs@.len(),
            cs@.len() <= width || cs@ == all,
            cs@ == all + Seq::new((cs@.len() - all.len()) as nat, |i: int| ' '),
        decreases width - cs.len(),
    {
        let ghost before = cs@;
        cs.push(' ');
        assert(cs@ =~= all + Seq::new((cs@.len() - all.len()) as nat, |i: int| ' '));
    }
    let r = text::piece(&cs, 0, cs.len());
    assert(r@ =~= padded(s@, width as nat));
    r
}

// --------------------------------------------------------------- the radius

/// The line for a dependent.
pub open spec fn dependent_line(d: DependentText) -> Seq<char> {
    let symbol = if d.symbol.len() == 0 {
        "(file)"@
    } else {
        d.symbol
    };
    "  hop "@ + text::decimal(d.depth) + "  "@ + padded(symbol, 28) + " "@ + d.path
}

/// The lines for the first `n` dependents.
pub open spec fn dependent_lines(v: Seq<DependentText>, n: nat) -> Seq<Seq<char>>
    decreases n,
{
    if n == 0 {
        Seq::empty()
    } else {
        dependent_lines(v, (n - 1) as nat).push(dependent_line(v[n - 1]))
    }
}

/// The nodes that a target names: itself, where it names a symbol; the symbols
/// of a file otherwise.
pub open spec fn target_nodes(index: Doc, target: Seq<char>) -> Seq<Seq<char>> {
    if text::contains(target, "::"@) {
        seq![target]
    } else {
        radius::file_nodes(index, target)
    }
}

/// How many dependents are shown.
pub open spec fn shown_dependents(n: nat) -> nat {
    if n < 40 {
        n
    } else {
        40
    }
}

/// What is said of what calls a target.
pub open spec fn callers_lines(target: Seq<char>, deps: Seq<DependentText>) -> Seq<Seq<char>> {
    if deps.len() == 0 {
        seq![target + ": nothing calls this"@]
    } else {
        seq![target + ": "@ + text::decimal(deps.len()) + " dependent(s)"@] + dependent_lines(
            deps,
            shown_dependents(deps.len()),
        )
    }
}

/// What is said of the tests that cover a target.
pub open spec fn tests_line(tests: Seq<Seq<char>>) -> Seq<char> {
    if tests.len() == 0 {
        "no test files cover it"@
    } else {
        "covered by: "@ + text::joined(tests, ", "@)
    }
}

/// What calls a target, and which tests cover it.
pub open spec fn radius_text(index: Doc, target: Seq<char>) -> Seq<Seq<char>> {
    let roots = target_nodes(index, target);
    if roots.len() == 0 {
        seq!["nothing indexed under "@ + target]
    } else {
        callers_lines(
            target,
            radius::dependents(
                index,
                roots,
                verify::DEPTH as nat,
                verify::MAX_DEPENDENTS as nat,
            ),
        ).push(tests_line(verify::covering(index, seq![radius::halves(target).0])))
    }
}

/// The line for a dependent.
fn line_for(d: &Dependent) -> (r: String)
    ensures
        r@ == dependent_line(d@),
{
    let symbol = if text::chars(d.symbol.as_str()).len() == 0 {
        pad("(file)", 28)
    } else {
        pad(d.symbol.as_str(), 28)
    };
    let hop = text::number(d.depth as u64);
    let head = text::cat5("  hop ", hop.as_str(), "  ", symbol.as_str(), " ");
    text::cat2(head.as_str(), d.path.as_str())
}

/// What is said of what calls a target.
fn say_callers(target: &str, deps: &Vec<Dependent>) -> (r: Vec<String>)
    ensures
        text::texts(r@) == callers_lines(target@, radius::dependent_texts(deps@)),
{
    let ghost all = radius::dependent_texts(deps@);
    let mut out: Vec<String> = Vec::new();
    assert(all.len() == deps@.len());
    if deps.len() == 0 {
        out.push(text::cat2(target, ": nothing calls this"));
        assert(text::texts(out@) =~= seq![target@ + ": nothing calls this"@]);
        return out;
    }
    let total = text::number(deps.len() as u64);
    out.push(text::cat4(target, ": ", total.as_str(), " dependent(s)"));
    let ghost head = target@ + ": "@ + text::decimal(deps@.len()) + " dependent(s)"@;
    assert(text::texts(out@) =~= seq![head] + dependent_lines(all, 0));
    let n: usize = if deps.len() < 40 {
        deps.len()
    } else {
        40
    };
    let mut k: usize = 0;
    while k < n
        invariant
            k <= n <= deps.len(),
            all == radius::dependent_texts(deps@),
            text::texts(out@) == seq![head] + dependent_lines(all, k as nat),
        decreases n - k,
    {
        assert(all[k as int] == deps@[k as int]@);
        let line = line_for(&deps[k]);
        proof {
            text::lemma_texts_push(out@, line);
        }
        out.push(line);
        assert(text::texts(out@) =~= seq![head] + dependent_lines(all, (k + 1) as nat));
        k += 1;
    }
    out
}

/// What is said of the tests that cover a target.
fn say_tests(tests: &Vec<String>) -> (r: String)
    ensures
        r@ == tests_line(text::texts(tests@)),
{
    assert(text::texts(tests@).len() == tests@.len());
    if tests.len() == 0 {
        "no test files cover it".to_string()
    } else {
        let list = text::join(tests, ", ");
        text::cat2("covered by: ", list.as_str())
    }
}

/// What calls a target, and which tests cover it, line by line.
pub fn radius_lines(index: &Json, target: &str) -> (r: Vec<String>)
    ensures
        text::texts(r@) == radius_text(index@, target@),
{
    let roots = if text::has(target, "::") {
        let mut one: Vec<String> = Vec::new();
        one.push(target.to_string());
        assert(text::texts(one@) =~= seq![target@]);
        one
    } else {
        radius::symbols_in(index, target)
    };
    assert(text::texts(roots@).len() == roots@.len());
    if roots.len() == 0 {
        let mut out: Vec<String> = Vec::new();
        out.push(text::cat2("nothing indexed under ", target));
        assert(text::texts(out@) =~= seq!["nothing indexed under "@ + target@]);
        return out;
    }
    let deps = radius::of(index, &roots, verify::DEPTH, verify::MAX_DEPENDENTS);
    let mut out = say_callers(target, &deps);
    let mut changed: Vec<String> = Vec::new();
    changed.push(radius::split(target).0);
    assert(text::texts(changed@) =~= seq![radius::halves(target@).0]);
    let tests = verify::tests_for(index, &changed);
    let last = say_tests(&tests);
    proof {
        text::lemma_texts_push(out@, last);
    }
    out.push(last);
    out
}

// ----------------------------------------------------------------- the room

/// The line for another agent.
pub open spec fn peer_line(p: PeerText) -> Seq<char> {
    let what = if p.symbols.len() == 0 {
        hook::doing(p.action, p.path)
    } else {
        hook::doing(p.action, p.path) + " ("@ + text::joined(p.symbols, ", "@) + ")"@
    };
    let branch = if p.branch.len() == 0 {
        text::no_text()
    } else {
        "  on "@ + p.branch
    };
    hook::short_id(p.agent) + "  "@ + p.harness + "  "@ + what + (branch + "  "@ + peers::ago_text(p.age))
}

/// The line for another agent.
pub fn peer_text(p: &Peer) -> (r: String)
    ensures
        r@ == peer_line(p@),
{
    let id = hook::short_agent(p.agent.as_str());
    assert(text::texts(p.symbols@).len() == p.symbols@.len());
    let plain = hook::what_of(p.action.as_str(), p.path.as_str());
    let what = if p.symbols.len() == 0 {
        plain
    } else {
        let list = text::join(&p.symbols, ", ");
        text::cat4(plain.as_str(), " (", list.as_str(), ")")
    };
    let branch = if text::chars(p.branch.as_str()).len() == 0 {
        String::new()
    } else {
        text::cat2("  on ", p.branch.as_str())
    };
    assert(branch@ =~= if p.branch@.len() == 0 {
        text::no_text()
    } else {
        "  on "@ + p.branch@
    });
    let when = peers::ago(p.age);
    let head = text::cat5(id.as_str(), "  ", p.harness.as_str(), "  ", what.as_str());
    let tail = text::cat3(branch.as_str(), "  ", when.as_str());
    text::cat2(head.as_str(), tail.as_str())
}

// ---------------------------------------------------------------- the check

/// The files to check: those named, or every one in the index where none is.
pub fn files_to_check(index: &Json, paths: &Vec<String>) -> (r: Vec<String>)
    ensures
        text::texts(r@) == if paths@.len() == 0 {
            index::files_in(index@)
        } else {
            text::texts(paths@)
        },
{
    if paths.len() > 0 {
        return text::copy_texts(paths);
    }
    index::indexed_files(index)
}

/// The lines that name the first `n` failures.
pub open spec fn failure_lines(v: Seq<Doc>, n: nat) -> Seq<Seq<char>>
    decreases n,
{
    if n == 0 {
        seq!["failed:"@]
    } else {
        let name = match json::as_text(v[n - 1]) {
            Some(s) => s,
            None => text::no_text(),
        };
        failure_lines(v, (n - 1) as nat).push("  "@ + name)
    }
}

/// Did the tests of a verdict pass?
pub open spec fn passed(verdict: Doc) -> bool {
    match json::member(verdict, "ok"@) {
        Some(x) => json::as_truth(x) == Some(true),
        None => false,
    }
}

/// Did the tests of a verdict pass?
pub fn is_passed(verdict: &Json) -> (r: bool)
    ensures
        r == passed(verdict@),
{
    match verdict.get("ok") {
        Some(x) => match x.as_bool() {
            Some(b) => b,
            None => false,
        },
        None => false,
    }
}

/// What a verdict says, line by line.
pub open spec fn check_text(verdict: Doc) -> Seq<Seq<char>> {
    if passed(verdict) {
        seq!["passed"@]
    } else {
        match json::member_items(verdict, "failing"@) {
            Some(v) => failure_lines(v, v.len()),
            None => seq!["failed:"@],
        }
    }
}

/// What a verdict says, line by line.
pub fn check_lines(verdict: &Json) -> (r: Vec<String>)
    ensures
        text::texts(r@) == check_text(verdict@),
{
    let mut out: Vec<String> = Vec::new();
    if is_passed(verdict) {
        out.push("passed".to_string());
        assert(text::texts(out@) =~= seq!["passed"@]);
        return out;
    }
    out.push("failed:".to_string());
    assert(text::texts(out@) =~= seq!["failed:"@]);
    let list = match verdict.get("failing") {
        Some(x) => x.as_array(),
        None => None,
    };
    match list {
        Some(v) => {
            let ghost all = json::docs(v@);
            let mut k: usize = 0;
            while k < v.len()
                invariant
                    k <= v.len(),
                    all == json::docs(v@),
                    text::texts(out@) == failure_lines(all, k as nat),
                decreases v.len() - k,
            {
                assert(all[k as int] == v@[k as int]@);
                let line = match v[k].as_str() {
                    Some(s) => text::cat2("  ", s),
                    None => text::cat2("  ", ""),
                };
                proof {
                    reveal_strlit("");
                    assert(""@ =~= text::no_text());
                    text::lemma_texts_push(out@, line);
                }
                out.push(line);
                k += 1;
            }
            assert(all.len() == v@.len());
        },
        None => {},
    }
    out
}

// ------------------------------------------------------------- the arguments

/// The harness that the arguments name from `k` on; the one at home where they
/// name none.
pub open spec fn harness_from(args: Seq<Seq<char>>, home: Seq<char>, k: nat) -> Seq<char>
    decreases args.len() - k,
{
    if k >= args.len() {
        home
    } else if args[k as int] == "--harness"@ {
        if k + 1 < args.len() {
            args[k as int + 1]
        } else {
            home
        }
    } else {
        harness_from(args, home, k + 1)
    }
}

/// The harness that the arguments name; the one at home where they name none.
pub fn harness_of(args: &Vec<String>, home: &str) -> (r: String)
    ensures
        r@ == harness_from(text::texts(args@), home@, 0),
{
    let ghost all = text::texts(args@);
    let mut k: usize = 0;
    while k < args.len()
        invariant
            k <= args.len(),
            all == text::texts(args@),
            harness_from(all, home@, 0) == harness_from(all, home@, k as nat),
        decreases args.len() - k,
    {
        assert(all[k as int] == args@[k as int]@);
        if text::same(args[k].as_str(), "--harness") {
            if k + 1 < args.len() {
                assert(all[k + 1] == args@[k + 1]@);
                return args[k + 1].clone();
            }
            return home.to_string();
        }
        k += 1;
    }
    home.to_string()
}

/// The names in a list that commas part; empty ones do not count.
pub fn names_in(list: &str) -> (r: Vec<String>)
    ensures
        text::texts(r@) == text::filled(text::split_on(list@, ',')),
{
    let parts = text::split(list, ',');
    text::drop_empty(&parts)
}

/// What is said of an index that was written.
pub fn indexed_line(files: u64, symbols: u64) -> (r: String)
    ensures
        r@ == "indexed "@ + text::decimal(files as nat) + " files, "@ + text::decimal(symbols as nat)
            + " symbols"@,
{
    let f = text::number(files);
    let s = text::number(symbols);
    text::cat5("indexed ", f.as_str(), " files, ", s.as_str(), " symbols")
}

/// What is said of a coordinator that is configured.
pub fn coordinator_line(name: &str) -> (r: String)
    ensures
        r@ == "note: "@ + name@
            + " is configured here and covers the same ground across machines, so blast will stay quiet. Set BLAST_ALONE=1 to run it anyway."@,
{
    text::cat3(
        "note: ",
        name,
        " is configured here and covers the same ground across machines, so blast will stay quiet. Set BLAST_ALONE=1 to run it anyway.",
    )
}

/// What is said of how the tests will run.
pub fn command_line(command: &Option<String>) -> (r: String)
    ensures
        r@ == match text::opt_text(*command) {
            Some(c) => "tests will run with: "@ + c,
            None => "no test command detected. Put one in .blast/config.json as {\"test\": \"...\"} or the check stays silent."@,
        },
{
    match command {
        Some(c) => text::cat2("tests will run with: ", c.as_str()),
        None => "no test command detected. Put one in .blast/config.json as {\"test\": \"...\"} or the check stays silent.".to_string(),
    }
}

} // verus!

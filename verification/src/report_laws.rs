//! What is run, what is told of it, and which directory it is told of.
use vstd::prelude::*;
use crate::text;
use crate::json;
use crate::hook;
use crate::config;
use crate::report;
use crate::verify;
use crate::config::AncestorText;
use crate::hook::StepText;
use crate::json::Doc;
use crate::radius::DependentText;

verus! {

// ------------------------------------------------------------- the command

/// What the configuration says under `test` is run, whatever else there is.
pub proof fn law_the_configuration_decides(d: Doc, command: Seq<char>, present: Seq<Seq<char>>)
    requires
        json::member(d, "test"@) == Some(Doc::Text(command)),
        text::trimmed(command).len() > 0,
    ensures
        verify::test_command(Some(d), present) == Some(command),
{
}

/// Without a word in the configuration the names at the root decide: Python's
/// come first, then Rust's, Go's and JavaScript's; without any there is no
/// command.
pub proof fn law_the_root_decides(present: Seq<Seq<char>>)
    ensures
        ({
            let python = text::listed(present, "pytest.ini"@) || text::listed(
                present,
                "pyproject.toml"@,
            ) || text::listed(present, "setup.cfg"@) || text::listed(present, "tox.ini"@);
            let rust = text::listed(present, "Cargo.toml"@);
            let go = text::listed(present, "go.mod"@);
            let node = text::listed(present, "package.json"@);
            let c = verify::test_command(None, present);
            &&& python ==> c == Some("python -m pytest -q"@)
            &&& !python && rust ==> c == Some("cargo test --quiet"@)
            &&& !python && !rust && go ==> c == Some("go test ./..."@)
            &&& !python && !rust && !go && node ==> c == Some("npm test --silent"@)
            &&& !python && !rust && !go && !node ==> c is None
        }),
{
}

// ------------------------------------------------------------- the verdict

/// Each of the first texts occurs in what they are put together to.
proof fn lemma_joined_has(v: Seq<Seq<char>>, sep: Seq<char>, n: nat, k: int) -> (at: int)
    requires
        0 <= k < n <= v.len(),
    ensures
        0 <= at,
        at + v[k].len() <= text::join_upto(v, sep, n).len(),
        text::join_upto(v, sep, n).subrange(at, at + v[k].len()) == v[k],
    decreases n,
{
    let all = text::join_upto(v, sep, n);
    if n == 1 {
        assert(all.subrange(0, v[k].len() as int) =~= v[k]);
        0
    } else {
        let rest = text::join_upto(v, sep, (n - 1) as nat);
        if k == n - 1 {
            let at = (rest.len() + sep.len()) as int;
            assert(all.subrange(at, at + v[k].len()) =~= v[k]);
            at
        } else {
            let at = lemma_joined_has(v, sep, (n - 1) as nat, k);
            assert(all.subrange(at, at + v[k].len()) =~= rest.subrange(at, at + v[k].len()));
            at
        }
    }
}

/// A verdict that passed says so of the first file that changed.
pub proof fn law_a_passing_verdict_says_so(verdict: Doc, what: Seq<char>)
    requires
        json::member(verdict, "ok"@) == Some(Doc::Bool(true)),
        json::texts_at(verdict, "changed"@).len() > 0,
        json::texts_at(verdict, "changed"@)[0] == what,
    ensures
        hook::verdict_text(verdict) == "Blast: the tests covering "@ + what
            + " passed after your change."@,
        report::check_text(verdict) == seq!["passed"@],
{
}

/// A verdict that did not pass tells of the first file that changed, how many
/// tests broke, and the names of the first six of them.
pub proof fn law_a_failing_verdict_names_what_broke(verdict: Doc, what: Seq<char>, k: int)
    requires
        json::member(verdict, "ok"@) == Some(Doc::Bool(false)),
        json::texts_at(verdict, "changed"@).len() > 0,
        json::texts_at(verdict, "changed"@)[0] == what,
        0 <= k < 6,
        k < json::texts_at(verdict, "failing"@).len(),
    ensures
        text::has_prefix(
            hook::verdict_text(verdict),
            "Blast: your change to "@ + what + " breaks "@ + text::decimal(
                json::texts_at(verdict, "failing"@).len(),
            ),
        ),
        text::contains(
            hook::verdict_text(verdict),
            json::texts_at(verdict, "failing"@)[k],
        ),
{
    let failing = json::texts_at(verdict, "failing"@);
    let n: nat = if failing.len() > 6 {
        6
    } else {
        failing.len()
    };
    let named = text::join_upto(failing, ", "@, n);
    let head = "Blast: your change to "@ + what + " breaks "@ + text::decimal(failing.len());
    let t = hook::verdict_text(verdict);
    assert(t.take(head.len() as int) =~= head);
    let at = lemma_joined_has(failing, ", "@, n, k);
    let mid = if failing.len() == 1 {
        " test in files you did not edit: "@
    } else {
        " tests in files you did not edit: "@
    };
    let p = (head.len() + mid.len() + at) as int;
    assert(t.subrange(p, p + failing[k].len()) =~= named.subrange(at, at + failing[k].len()));
    assert(text::occurs_at(t, failing[k], p));
}

/// A verdict that did not pass lists every failure on a line of its own.
pub proof fn law_every_failure_has_its_line(v: Seq<Doc>, n: nat, k: int, name: Seq<char>)
    requires
        0 <= k < n <= v.len(),
        v[k] == Doc::Text(name),
    ensures
        report::failure_lines(v, n).len() == n + 1,
        report::failure_lines(v, n)[0] == "failed:"@,
        report::failure_lines(v, n)[k + 1] == "  "@ + name,
    decreases n,
{
    lemma_failure_lines(v, n);
    lemma_failure_lines(v, (n - 1) as nat);
    if k < n - 1 {
        law_every_failure_has_its_line(v, (n - 1) as nat, k, name);
    }
}

/// There is a line for each failure and one before them.
proof fn lemma_failure_lines(v: Seq<Doc>, n: nat)
    ensures
        report::failure_lines(v, n).len() == n + 1,
        report::failure_lines(v, n)[0] == "failed:"@,
    decreases n,
{
    if n > 0 {
        lemma_failure_lines(v, (n - 1) as nat);
    }
}

// ---------------------------------------------------------------- the plan

/// On every event the right things are done: an agent that starts joins and is
/// told of the room, one that prompts hears of the room and of the tests, one
/// that ends leaves, and whoever changed something has the tests run.
pub proof fn law_every_event_has_its_plan(changed: Seq<Seq<char>>)
    ensures
        hook::plan_for("SessionStart"@, changed) == seq![
            StepText::Announce { action: "joined"@, path: text::no_text() },
            StepText::IndexIfNew,
            StepText::TellRoom,
        ],
        hook::plan_for("SessionEnd"@, changed) == seq![StepText::Withdraw],
        hook::plan_for("UserPromptSubmit"@, changed) == seq![
            StepText::TellRoom,
            StepText::TellVerdict,
        ],
        changed.len() > 0 ==> hook::plan_for("PostToolUse"@, changed) == seq![
            StepText::Announce { action: "editing"@, path: changed[0] },
            StepText::SpawnTests,
            StepText::TellVerdict,
        ],
        changed.len() == 0 ==> hook::plan_for("PostToolUse"@, changed) == seq![
            StepText::TellVerdict,
        ],
        hook::plan_for("Stop"@, changed) == hook::plan_for("PostToolUse"@, changed),
        hook::plan_for("PostToolBatch"@, changed) == hook::plan_for("PostToolUse"@, changed),
{
    reveal_strlit("SessionStart");
    reveal_strlit("SessionEnd");
    reveal_strlit("UserPromptSubmit");
    reveal_strlit("PostToolUse");
    reveal_strlit("PostToolBatch");
    reveal_strlit("Stop");
    assert("SessionStart"@.len() == 12 && "SessionEnd"@.len() == 10);
    assert("UserPromptSubmit"@.len() == 16 && "PostToolUse"@.len() == 11);
    assert("PostToolBatch"@.len() == 13 && "Stop"@.len() == 4);
}

/// A new index is told of with its numbers, each in the singular or the
/// plural; an empty one is not.
pub proof fn law_a_new_index_is_told_of(files: nat, symbols: nat)
    ensures
        files == 0 ==> hook::index_text(files, symbols).len() == 0,
        files == 1 && symbols == 1 ==> hook::index_text(files, symbols) == "Blast indexed "@
            + text::decimal(1) + " file and "@ + text::decimal(1)
            + " symbol: edits here are checked against what calls them."@,
        files > 1 && symbols != 1 ==> hook::index_text(files, symbols) == "Blast indexed "@
            + text::decimal(files) + " files and "@ + text::decimal(symbols)
            + " symbols: edits here are checked against what calls them."@,
{
}

// ---------------------------------------------------------------- the root

/// The root is the nearest directory that holds a `.git`, even where a nearer
/// one holds a `.blast`.
pub proof fn law_the_nearest_repository_is_the_root(
    from: Seq<char>,
    v: Seq<AncestorText>,
    k: int,
)
    requires
        0 <= k < v.len(),
        v[k].git,
        forall|i: int| 0 <= i < k ==> !(#[trigger] v[i]).git,
    ensures
        config::root_of(from, v) == v[k].path,
{
    lemma_git_from(v, 0, k);
}

/// The first directory with a repository is found.
proof fn lemma_git_from(v: Seq<AncestorText>, i: nat, k: int)
    requires
        i <= k < v.len(),
        v[k].git,
        forall|j: int| i <= j < k ==> !(#[trigger] v[j]).git,
    ensures
        config::git_from(v, i) == Some(v[k].path),
    decreases k - i,
{
    if i < k {
        assert(!v[i as int].git);
        lemma_git_from(v, i + 1, k);
    }
}

/// Without a repository the root is the nearest directory that holds a
/// `.blast`, and without either the directory itself.
pub proof fn law_without_a_repository_a_mark_is_the_root(
    from: Seq<char>,
    v: Seq<AncestorText>,
    k: int,
)
    requires
        0 <= k <= v.len(),
        forall|i: int| 0 <= i < v.len() ==> !(#[trigger] v[i]).git,
        forall|i: int| 0 <= i < k ==> !(#[trigger] v[i]).blast,
    ensures
        k < v.len() && v[k].blast ==> config::root_of(from, v) == v[k].path,
        k == v.len() ==> config::root_of(from, v) == from,
{
    lemma_no_git(v, 0);
    lemma_blast_from(v, 0, k);
}

/// No repository is found where there is none.
proof fn lemma_no_git(v: Seq<AncestorText>, i: nat)
    requires
        forall|j: int| 0 <= j < v.len() ==> !(#[trigger] v[j]).git,
    ensures
        config::git_from(v, i) is None,
    decreases v.len() - i,
{
    if i < v.len() {
        assert(!v[i as int].git);
        lemma_no_git(v, i + 1);
    }
}

/// The first directory with a mark is found.
proof fn lemma_blast_from(v: Seq<AncestorText>, i: nat, k: int)
    requires
        i <= k <= v.len(),
        forall|j: int| i <= j < k ==> !(#[trigger] v[j]).blast,
    ensures
        k < v.len() && v[k].blast ==> config::blast_from(v, i) == Some(v[k].path),
        k == v.len() ==> config::blast_from(v, i) is None,
    decreases k - i,
{
    if i < k {
        assert(!v[i as int].blast);
        lemma_blast_from(v, i + 1, k);
    }
}

// -------------------------------------------------------------- the radius

/// Each of the first forty dependents has its line: how far away it is, its
/// symbol and its path; before them stands how many there are.
pub proof fn law_every_dependent_has_its_line(
    target: Seq<char>,
    deps: Seq<DependentText>,
    k: int,
)
    requires
        0 <= k < deps.len(),
        k < 40,
        deps[k].symbol.len() >= 28,
    ensures
        report::callers_lines(target, deps)[0] == target + ": "@ + text::decimal(deps.len())
            + " dependent(s)"@,
        report::callers_lines(target, deps)[k + 1] == "  hop "@ + text::decimal(deps[k].depth)
            + "  "@ + deps[k].symbol + " "@ + deps[k].path,
{
    let n = report::shown_dependents(deps.len());
    lemma_dependent_lines(deps, n, k);
}

/// The lines of dependents are in their order.
proof fn lemma_dependent_lines(v: Seq<DependentText>, n: nat, k: int)
    requires
        n <= v.len(),
    ensures
        report::dependent_lines(v, n).len() == n,
        0 <= k < n ==> report::dependent_lines(v, n)[k] == report::dependent_line(v[k]),
    decreases n,
{
    if n > 0 {
        lemma_dependent_lines(v, (n - 1) as nat, k);
    }
}

/// A shorter symbol is followed by blanks up to its column, and nothing is cut.
pub proof fn law_columns_line_up(s: Seq<char>, width: nat)
    ensures
        report::padded(s, width).len() == (if s.len() < width {
            width
        } else {
            s.len()
        }),
        report::padded(s, width).take(s.len() as int) == s,
        forall|i: int|
            s.len() <= i < report::padded(s, width).len() ==> report::padded(s, width)[i] == ' ',
{
    assert(report::padded(s, width).take(s.len() as int) =~= s);
}

/// What nothing calls is said to be called by nothing, and what no test covers
/// to be covered by none.
pub proof fn law_an_empty_radius_is_said(target: Seq<char>, tests: Seq<Seq<char>>)
    ensures
        report::callers_lines(target, Seq::empty()) == seq![target + ": nothing calls this"@],
        tests.len() == 0 ==> report::tests_line(tests) == "no test files cover it"@,
        tests.len() > 0 ==> report::tests_line(tests) == "covered by: "@ + text::joined(
            tests,
            ", "@,
        ),
{
}

} // verus!

use blast::hook::{
    all_touched, below, calls, changed_files, git_branch, index_note, plan, relative, render,
    reply, room, short_agent, stands_down, touched, verdict_note, what_of, Step,
};
use blast::json::Json;
use std::path::Path;
use blast::peers::Peer;
use blast::report::{
    check_lines, command_line, coordinator_line, files_to_check, harness_of, indexed_line,
    is_passed, names_in, pad, peer_text, radius_lines,
};

fn text(s: &str) -> Json {
    Json::Text(s.to_string())
}

fn object(entries: Vec<(&str, Json)>) -> Json {
    let mut members: Vec<(String, Json)> =
        entries.into_iter().map(|(key, value)| (key.to_string(), value)).collect();
    members.sort_by(|a, b| a.0.cmp(&b.0));
    Json::Object(members)
}

fn names(list: &[&str]) -> Vec<String> {
    list.iter().map(|s| s.to_string()).collect()
}

fn peer(agent: &str, harness: &str, path: &str) -> Peer {
    Peer {
        agent: agent.to_string(),
        harness: harness.to_string(),
        action: "editing".to_string(),
        path: path.to_string(),
        symbols: vec![],
        branch: String::new(),
        age: 12,
        rank: 12,
    }
}

#[test]
fn an_answer_fits_its_harness() {
    assert_eq!(render("codex", "Stop", ""), "");
    assert_eq!(render("codex", "SessionStart", "hi"), "hi");
    assert_eq!(render("codex", "UserPromptSubmit", "hi"), "hi");
    assert_eq!(render("cursor", "SessionStart", "a \"b\"\n"), "{\"additional_context\":\"a \\\"b\\\"\\n\"}");
    let value: serde_json::Value = serde_json::from_str(&render("codex", "Stop", "hi")).unwrap();
    assert_eq!(value["hookSpecificOutput"]["hookEventName"], "Stop");
    assert_eq!(value["hookSpecificOutput"]["additionalContext"], "hi");
}

#[test]
fn a_reply_joins_what_was_said() {
    assert_eq!(reply("codex", "SessionStart", &names(&["a", "b"])), "a\n\nb");
    assert_eq!(reply("codex", "PostToolUse", &vec![]), "");
}

#[test]
fn only_writing_tools_touch_files() {
    let call = |tool: &str| {
        object(vec![
            ("tool_name", text(tool)),
            (
                "tool_input",
                object(vec![("file_path", text("a.py")), ("path", text("")), ("notebook_path", text("n.ipynb"))]),
            ),
        ])
    };
    for tool in ["Write", "Edit", "MultiEdit", "NotebookEdit", "apply_patch"] {
        assert_eq!(touched("/r", &call(tool)), vec!["a.py", "n.ipynb"], "{tool}");
    }
    assert!(touched("/r", &call("Read")).is_empty());
    assert!(touched("/r", &object(vec![("tool_name", text("Write"))])).is_empty());
    let batch = object(vec![("tool_calls", Json::List(vec![call("Write"), call("Read"), call("Edit")]))]);
    assert_eq!(calls(&batch).len(), 3);
    assert_eq!(all_touched("/r", &batch), vec!["a.py", "n.ipynb", "a.py", "n.ipynb"]);
    assert_eq!(calls(&call("Write")), vec![call("Write")]);
    assert!(calls(&object(vec![])).is_empty());
}

#[test]
fn changed_files_come_in_order_and_once() {
    let some = |s: &str| Some(s.to_string());
    assert_eq!(relative("/r", "a\\b.py"), some("a/b.py"));
    assert_eq!(relative("/r", ""), None);
    assert_eq!(relative("/r", "../x.py"), None);
    assert_eq!(relative("/r", "/r/a/b.py"), some("a/b.py"));
    assert_eq!(relative("/r", "/r"), None);
    assert_eq!(relative("/r", "/rr/b.py"), None);
    assert_eq!(relative("/r", "/r/../b.py"), None);
    let call = |path: &str| {
        object(vec![
            ("tool_name", text("Write")),
            ("tool_input", object(vec![("file_path", text(path))])),
        ])
    };
    let paths = ["/r/b.py", "a\\c.py", "../x", "b.py", "", "/elsewhere/d.py"];
    let batch = object(vec![("tool_calls", Json::List(paths.iter().map(|p| call(p)).collect()))]);
    assert_eq!(changed_files("/r", &batch), vec!["a/c.py", "b.py"]);
}

#[test]
fn paths_stand_below_a_directory_by_their_segments() {
    let roots = ["/r", "/r/", "//r/./s", "/r/s", "/", "r", ".", ""];
    let raws = [
        "/r/s/a.py", "/r//s/./a//b.py/", "/r/s", "/r/s/", "/rs/a.py", "/", "//", "a/b.py", "./a.py", "",
        "/r/../a.py", "/q/a.py", "/r/s/./.", "//r/s/t", "/\u{e9}/x",
    ];
    for root in roots {
        for raw in raws {
            let path = Path::new(raw);
            let rel = if path.is_absolute() { path.strip_prefix(root).ok() } else { Some(path) };
            let rel = rel.map(|p| p.to_string_lossy().to_string());
            assert_eq!(below(root, raw), rel, "{raw:?} below {root:?}");
        }
    }
}

#[test]
fn a_branch_is_read_from_the_head() {
    assert_eq!(git_branch("ref: refs/heads/payments/minor-units\n"), "payments/minor-units");
    assert_eq!(git_branch("8f0e2c1\n"), "");
}

#[test]
fn the_room_names_five() {
    assert_eq!(room(&vec![]), "");
    let one = vec![peer("58f138a2c901", "codex", "booking/pay.py")];
    assert_eq!(
        room(&one),
        "Other agents in this repo right now:\n  codex (58f138): editing booking/pay.py, 12s ago\nSay so to the user if any of that changes what you are about to do."
    );
    let many: Vec<Peer> = (0..7).map(|i| peer(&format!("agent{i}x"), "", "")).collect();
    let told = room(&many);
    assert_eq!(told.lines().count(), 7);
    assert!(told.contains("  an agent (agent4): editing, 12s ago"));
    assert!(!told.contains("agent5"));
    assert!(room(&vec![peer("aaaaa\u{e9}bc", "", "")]).contains("  an agent (aaaaa): editing, 12s ago"));
    assert_eq!(short_agent("ab"), "ab");
    assert_eq!(short_agent("abcdefgh"), "abcdef");
    assert_eq!(short_agent("a\u{e9}\u{e9}\u{e9}\u{e9}"), "a\u{e9}\u{e9}");
    assert_eq!(short_agent(""), "");
    assert_eq!(what_of("joined", ""), "joined");
}

#[test]
fn a_verdict_is_told_once_it_is_there() {
    let list = |v: &[&str]| Json::List(v.iter().map(|s| text(s)).collect());
    let passed = object(vec![("ok", Json::Bool(true)), ("changed", list(&["a.py"]))]);
    assert_eq!(verdict_note(&passed), "Blast: the tests covering a.py passed after your change.");
    let silent = object(vec![("ok", Json::Bool(false))]);
    assert_eq!(
        verdict_note(&silent),
        "Blast: the tests covering your change did not pass after your change."
    );
    let broken = object(vec![
        ("ok", Json::Bool(false)),
        ("changed", list(&["booking/pay.py"])),
        ("failing", list(&["tests/test_pay.py::test_charge", "tests/test_api.py::test_create_booking"])),
    ]);
    assert_eq!(
        verdict_note(&broken),
        "Blast: your change to booking/pay.py breaks 2 tests in files you did not edit: tests/test_pay.py::test_charge, tests/test_api.py::test_create_booking.\nFix them or tell the user what you are leaving broken, before you move on."
    );
    let one = object(vec![("failing", list(&["t"]))]);
    assert!(verdict_note(&one).contains("breaks 1 test in"));
    let many = object(vec![("failing", list(&["a", "b", "c", "d", "e", "f", "g", "h"]))]);
    assert!(verdict_note(&many).contains("a, b, c, d, e, f and 2 more."));
}

#[test]
fn a_new_index_is_told() {
    assert_eq!(index_note(0, 0), "");
    assert_eq!(
        index_note(1, 1),
        "Blast indexed 1 file and 1 symbol: edits here are checked against what calls them."
    );
    assert_eq!(
        index_note(2, 10),
        "Blast indexed 2 files and 10 symbols: edits here are checked against what calls them."
    );
}

#[test]
fn every_event_has_its_plan() {
    let none: Vec<String> = vec![];
    let start = plan("SessionStart", &none);
    assert!(matches!(&start[0], Step::Announce { action: "joined", path } if path.is_empty()));
    assert!(matches!(start[1], Step::IndexIfNew));
    assert!(matches!(start[2], Step::TellRoom));
    assert!(matches!(plan("SessionEnd", &none)[..], [Step::Withdraw]));
    assert!(matches!(plan("UserPromptSubmit", &none)[..], [Step::TellRoom, Step::TellVerdict]));
    for event in ["PostToolUse", "PostToolBatch", "Stop"] {
        assert!(matches!(plan(event, &none)[..], [Step::TellVerdict]), "{event}");
        let edited = plan(event, &names(&["a.py", "b.py"]));
        assert!(matches!(&edited[0], Step::Announce { action: "editing", path } if path == "a.py"));
        assert!(matches!(edited[1], Step::SpawnTests));
        assert!(matches!(edited[2], Step::TellVerdict));
    }
    assert!(plan("Other", &none).is_empty());
}

#[test]
fn it_stands_down_for_a_coordinator() {
    assert!(stands_down(false, &Some("x".to_string())));
    assert!(!stands_down(true, &Some("x".to_string())));
    assert!(!stands_down(false, &None));
}

fn index() -> Json {
    let symbols =
        |name: &str| object(vec![("symbols", object(vec![(name, object(vec![]))]))]);
    let edge = |from: &str, to: &str| Json::List(vec![text(from), text(to)]);
    object(vec![
        (
            "files",
            object(vec![
                ("booking/pay.py", symbols("charge")),
                ("booking/api.py", symbols("create_booking")),
                ("tests/test_pay.py", symbols("test_charge")),
                ("tests/test_api.py", symbols("test_create_booking")),
            ]),
        ),
        (
            "edges",
            Json::List(vec![
                edge("booking/api.py::create_booking", "booking/pay.py::charge"),
                edge("tests/test_pay.py::test_charge", "booking/pay.py::charge"),
                edge("tests/test_api.py::test_create_booking", "booking/api.py::create_booking"),
            ]),
        ),
    ])
}

#[test]
fn the_radius_is_told_by_hop() {
    assert_eq!(
        radius_lines(&index(), "booking/pay.py::charge"),
        vec![
            "booking/pay.py::charge: 3 dependent(s)",
            "  hop 1  create_booking               booking/api.py",
            "  hop 1  test_charge                  tests/test_pay.py",
            "  hop 2  test_create_booking          tests/test_api.py",
            "covered by: tests/test_pay.py, tests/test_api.py",
        ]
    );
    assert_eq!(
        radius_lines(&index(), "tests/test_api.py"),
        vec!["tests/test_api.py: nothing calls this", "covered by: tests/test_api.py"]
    );
    assert_eq!(radius_lines(&index(), "nowhere.py"), vec!["nothing indexed under nowhere.py"]);
    assert_eq!(pad("ab", 4), "ab  ");
    assert_eq!(pad("abcde", 4), "abcde");
}

#[test]
fn a_peer_is_told_with_its_branch_and_symbols() {
    let mut p = peer("58f138a2c901", "codex", "a.py");
    assert_eq!(peer_text(&p), "58f138  codex  editing a.py  12s ago");
    p.symbols = names(&["f", "g"]);
    p.branch = "main".to_string();
    assert_eq!(peer_text(&p), "58f138  codex  editing a.py (f, g)  on main  12s ago");
}

#[test]
fn a_check_says_what_failed() {
    assert_eq!(files_to_check(&index(), &names(&["x"])), vec!["x"]);
    assert_eq!(files_to_check(&index(), &vec![]).len(), 4);
    assert!(files_to_check(&Json::Null, &vec![]).is_empty());
    let passed = object(vec![("ok", Json::Bool(true))]);
    assert!(is_passed(&passed));
    assert_eq!(check_lines(&passed), vec!["passed"]);
    let failed = object(vec![("failing", Json::List(vec![text("t"), Json::Null]))]);
    assert_eq!(check_lines(&failed), vec!["failed:", "  t", "  "]);
    assert_eq!(check_lines(&Json::Null), vec!["failed:"]);
}

#[test]
fn arguments_are_read() {
    assert_eq!(harness_of(&names(&["init", "--harness", "cursor"]), "home"), "cursor");
    assert_eq!(harness_of(&names(&["init", "--harness"]), "home"), "home");
    assert_eq!(harness_of(&names(&["init"]), "home"), "home");
    assert_eq!(names_in("a,,b"), vec!["a", "b"]);
    assert!(names_in("").is_empty());
    assert_eq!(indexed_line(3, 4), "indexed 3 files, 4 symbols");
    assert!(coordinator_line("Collide").starts_with("note: Collide is configured here"));
    assert_eq!(command_line(&Some("make".to_string())), "tests will run with: make");
    assert!(command_line(&None).contains("{\"test\": \"...\"}"));
}

use blast::json::Json;
use blast::verify::{
    command_for, command_line, failing_lines, looks_like_test, markers, tests_for, verdict,
};

fn text(s: &str) -> Json {
    Json::Text(s.to_string())
}

fn object(entries: Vec<(&str, Json)>) -> Json {
    let mut members: Vec<(String, Json)> =
        entries.into_iter().map(|(key, value)| (key.to_string(), value)).collect();
    members.sort_by(|a, b| a.0.cmp(&b.0));
    Json::Object(members)
}

fn names(list: &[&str]) -> Vec<String> {
    list.iter().map(|s| s.to_string()).collect()
}

#[test]
fn recognises_the_usual_test_layouts() {
    for path in
        ["tests/test_api.py", "src/api.test.ts", "pkg/thing_test.py", "test/unit.rb", "src/a.spec.js"]
    {
        assert!(looks_like_test(path), "{path}");
    }
    for path in ["booking/api.py", "src/latest.ts", "contest/entry.go"] {
        assert!(!looks_like_test(path), "{path}");
    }
}

#[test]
fn reads_failures_out_of_each_runner() {
    let pytest = failing_lines("FAILED tests/test_api.py::test_create - AssertionError");
    assert_eq!(pytest, vec!["tests/test_api.py::test_create"]);
    let go = failing_lines("--- FAIL: TestCharge (0.00s)");
    assert_eq!(go, vec!["TestCharge"]);
    let vitest = failing_lines("✕ src/pay.test.ts > charges the card");
    assert_eq!(vitest, vec!["src/pay.test.ts > charges the card"]);
    assert!(failing_lines("everything passed").is_empty());
}

#[test]
fn the_same_failure_is_not_listed_twice() {
    let out = failing_lines("FAILED a.py::x\nFAILED a.py::x\nFAILED a.py::y");
    assert_eq!(out, vec!["a.py::x", "a.py::y"]);
}

#[test]
fn layouts_do_not_depend_on_case() {
    assert!(looks_like_test("Tests/TEST_API.PY"));
    assert!(looks_like_test("pkg/TEST_thing.py"));
}

#[test]
fn no_more_than_twenty_failures_are_listed() {
    let output: Vec<String> = (0..30).map(|i| format!("FAILED a.py::t{i}")).collect();
    let out = failing_lines(&output.join("\n"));
    assert_eq!(out.len(), 20);
    assert_eq!(out[19], "a.py::t19");
}

#[test]
fn the_configured_command_wins() {
    let config = Some(object(vec![("test", text("make check"))]));
    assert_eq!(command_for(&config, &names(&["go.mod"])), Some("make check".to_string()));
    assert_eq!(command_for(&None, &names(&["go.mod"])), Some("go test ./...".to_string()));
    assert_eq!(command_for(&None, &names(&["Cargo.toml"])), Some("cargo test --quiet".to_string()));
    assert_eq!(command_for(&None, &vec![]), None);
    for marker in markers() {
        assert!(command_for(&None, &names(&[marker])).is_some(), "{marker}");
    }
}

#[test]
fn the_tests_follow_the_command() {
    assert_eq!(command_line("pytest -q", &names(&["a.py", "b.py"])), "pytest -q a.py b.py");
}

#[test]
fn a_verdict_says_what_happened() {
    let v = verdict(
        false,
        "pytest",
        &names(&["a.py"]),
        &names(&["tests/test_a.py"]),
        "FAILED tests/test_a.py::t",
        "1.5",
        "2.0",
    );
    assert_eq!(
        v,
        object(vec![
            ("v", Json::Number("1".to_string())),
            ("ok", Json::Bool(false)),
            ("command", text("pytest")),
            ("changed", Json::List(vec![text("a.py")])),
            ("tests", Json::List(vec![text("tests/test_a.py")])),
            ("failing", Json::List(vec![text("tests/test_a.py::t")])),
            ("elapsed_s", Json::Number("1.5".to_string())),
            ("ts", Json::Number("2.0".to_string())),
        ])
    );
}

#[test]
fn a_changed_test_file_is_its_own_test() {
    let edge = |from: &str, to: &str| Json::List(vec![text(from), text(to)]);
    let index = object(vec![
        (
            "files",
            object(vec![
                ("a.py", object(vec![("symbols", object(vec![("f", object(vec![]))]))])),
                (
                    "tests/test_a.py",
                    object(vec![("symbols", object(vec![("test_f", object(vec![]))]))]),
                ),
            ]),
        ),
        ("edges", Json::List(vec![edge("tests/test_a.py::test_f", "a.py::f")])),
    ]);
    assert_eq!(tests_for(&index, &names(&["a.py"])), vec!["tests/test_a.py"]);
    assert_eq!(tests_for(&index, &names(&["tests/test_a.py"])), vec!["tests/test_a.py"]);
    assert_eq!(
        tests_for(&index, &names(&["a.py", "tests/test_b.py"])),
        vec!["tests/test_b.py", "tests/test_a.py"]
    );
    assert!(tests_for(&index, &names(&["b.py"])).is_empty());
    let empty = object(vec![
        ("version", Json::Number("1".to_string())),
        ("files", object(vec![])),
        ("edges", Json::List(vec![])),
    ]);
    assert_eq!(tests_for(&empty, &names(&["tests/test_new.py"])), vec!["tests/test_new.py"]);
    assert!(tests_for(&empty, &names(&["new.py"])).is_empty());
}

#[test]
fn an_output_that_comes_twice_names_what_it_names_once() {
    for output in ["FAILED b.py::y\r\nFAILED a.py::x\r", "FAILED b.py::y\nFAILED a.py::x\n", "", "ok"] {
        assert_eq!(failing_lines(&format!("{output}\n{output}")), failing_lines(output));
    }
    assert_eq!(failing_lines("FAILED b.py::y\nFAILED a.py::x\nFAILED b.py::y"), vec!["b.py::y", "a.py::x"]);
}

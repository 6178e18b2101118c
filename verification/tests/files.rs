use blast::atomic::{is_record, temp_name};
use blast::config::{
    coordinator_present, dir_of, forced_alone, join_name, repo_root, Ancestor,
};
use blast::index::{
    assemble, build, id, indexed_files, is_behind, is_current, path_of, skips_dir, source_files, supported,
};
use blast::json::Json;
use blast::peers::{agent_id, ago, dir, file_name, is_stale, others, record, Announce, Seen};

fn text(s: &str) -> Json {
    Json::Text(s.to_string())
}

fn names(list: &[&str]) -> Vec<String> {
    list.iter().map(|s| s.to_string()).collect()
}

fn sources(entries: &[(&str, &str)]) -> Vec<(String, String)> {
    entries.iter().map(|(p, c)| (p.to_string(), c.to_string())).collect()
}

fn strings(value: &Json) -> Vec<String> {
    value.as_array().unwrap().iter().map(|v| v.as_str().unwrap().to_string()).collect()
}

#[test]
fn an_index_holds_symbols_and_edges() {
    let files = sources(&[
        ("booking/api.py", "from booking.pay import charge\n\n\ndef create(x):\n    return charge(x)\n"),
        ("booking/pay.py", "def charge(x):\n    \"\"\"Takes money.\"\"\"\n    return x\n"),
        ("broken", "not a source"),
    ]);
    let known = names(&["booking/api.py", "booking/pay.py"]);
    let (index, count, symbols) = build(&files, &known);
    assert_eq!(count, 2);
    assert_eq!(symbols, 2);
    assert!(is_current(&index));
    let pay = index.get("files").unwrap().get("booking/pay.py").unwrap();
    assert_eq!(pay.get("language").unwrap().as_str(), Some("python"));
    let charge = pay.get("symbols").unwrap().get("charge").unwrap();
    assert_eq!(charge.get("kind").unwrap().as_str(), Some("function"));
    assert_eq!(charge.get("signature").unwrap().as_str(), Some("def charge(x)"));
    assert_eq!(charge.get("doc").unwrap().as_str(), Some("Takes money."));
    assert_eq!(
        charge.get("span").unwrap(),
        &Json::List(vec![Json::Number("1".to_string()), Json::Number("3".to_string())])
    );
    let edges = index.get("edges").unwrap().as_array().unwrap();
    assert_eq!(edges.len(), 1);
    assert_eq!(
        strings(&edges[0]),
        vec!["booking/api.py::create", "booking/pay.py::charge", "calls", "extracted"]
    );
}

#[test]
fn an_index_without_files_is_empty_and_current() {
    let (index, count, symbols) = assemble(&vec![], &vec![]);
    assert_eq!((count, symbols), (0, 0));
    assert!(is_current(&index));
    assert!(!is_current(&Json::Null));
}

#[test]
fn only_sources_are_indexed_and_in_order() {
    let found = names(&["b\\x.py", "a.go", "README.md", "A.TS"]);
    assert_eq!(source_files(&found), vec!["A.TS", "a.go", "b/x.py"]);
    let turned = names(&["A.TS", "README.md", "a.go", "b\\x.py"]);
    assert_eq!(source_files(&turned), source_files(&found));
    assert!(supported("x/Y.PY"));
    assert!(!supported("x.txt"));
    assert!(skips_dir("node_modules"));
    assert!(skips_dir(".hidden"));
    assert!(!skips_dir("src"));
}

#[test]
fn ids_and_paths_are_joined() {
    assert_eq!(id("a.py", "f"), "a.py::f");
    assert_eq!(dir_of("/r"), "/r/.blast");
    assert_eq!(path_of("/r"), "/r/.blast/index.json");
    assert_eq!(dir("/r"), "/r/.blast/peers");
    assert_eq!(join_name("", "x"), "x");
}

#[test]
fn the_root_is_the_nearest_repository() {
    let up = |path: &str, git: bool, blast: bool| Ancestor { path: path.to_string(), git, blast };
    let both = vec![up("/r/a/b", false, false), up("/r/a", false, true), up("/r", true, false)];
    assert_eq!(repo_root("/r/a/b", &both), "/r");
    let own = vec![up("/r/a/b", false, false), up("/r/a", false, true), up("/r", false, false)];
    assert_eq!(repo_root("/r/a/b", &own), "/r/a");
    let none = vec![up("/r/a/b", false, false)];
    assert_eq!(repo_root("/r/a/b", &none), "/r/a/b");
}

#[test]
fn a_coordinator_is_found_and_overridden() {
    assert_eq!(coordinator_present(&vec![]), None);
    assert_eq!(coordinator_present(&names(&[".collide"])), Some("Collide".to_string()));
    assert!(forced_alone(Some("1")));
    assert!(!forced_alone(Some("0")));
    assert!(!forced_alone(None));
}

#[test]
fn an_agent_has_a_stable_id() {
    // sha256("|") starts so
    assert_eq!(agent_id("", ""), "cbe5cfdf7c21");
    assert_eq!(agent_id("s", "w"), agent_id("s", "w"));
    assert_ne!(agent_id("s", "w"), agent_id("s", "v"));
    assert_eq!(agent_id("s", "w").len(), 12);
}

#[test]
fn a_record_reads_back() {
    let what = Announce {
        agent: "58f138a2c901",
        harness: "codex",
        action: "editing",
        path: "booking/pay.py",
        symbols: &names(&["charge"]),
        branch: "main",
    };
    let written = record(&what, 41233, "1790284417.882");
    assert_eq!(written.get("v"), Some(&Json::Number("1".to_string())));
    assert_eq!(written.get("pid"), Some(&Json::Number("41233".to_string())));
    assert_eq!(written.get("ts"), Some(&Json::Number("1790284417.882".to_string())));
    let found = vec![Seen { record: written, age: 7, more: true, rank: 70 }];
    let room = others(&found, "me");
    assert_eq!(room.len(), 1);
    assert_eq!(room[0].agent, "58f138a2c901");
    assert_eq!(room[0].harness, "codex");
    assert_eq!(room[0].action, "editing");
    assert_eq!(room[0].path, "booking/pay.py");
    assert_eq!(room[0].symbols, vec!["charge"]);
    assert_eq!(room[0].branch, "main");
    assert_eq!(room[0].age, 7);
    assert!(others(&found, "58f138a2c901").is_empty());
}

#[test]
fn the_room_is_young_and_live() {
    let said = |agent: &str| Json::Object(vec![("agent".to_string(), text(agent))]);
    let found = vec![
        Seen { record: said("old"), age: 100, more: false, rank: 3 },
        Seen { record: said("gone"), age: 180, more: true, rank: 4 },
        Seen { record: said("edge"), age: 180, more: false, rank: 4 },
        Seen { record: said("new"), age: 1, more: false, rank: 1 },
        Seen { record: said(""), age: 1, more: false, rank: 1 },
        Seen { record: Json::Null, age: 1, more: false, rank: 1 },
    ];
    let room: Vec<String> = others(&found, "me").into_iter().map(|p| p.agent).collect();
    assert_eq!(room, vec!["new", "old", "edge"]);
    assert!(is_stale(181, false));
    assert!(!is_stale(179, true));
}

#[test]
fn ages_are_told_shortly() {
    assert_eq!(ago(0), "just now");
    assert_eq!(ago(9), "just now");
    assert_eq!(ago(10), "10s ago");
    assert_eq!(ago(89), "89s ago");
    assert_eq!(ago(90), "1m ago");
    assert_eq!(ago(179), "2m ago");
}

#[test]
fn a_file_being_written_is_no_record() {
    assert_eq!(file_name("ab"), "ab.json");
    assert!(is_record("ab.json"));
    assert!(!is_record(".json"));
    assert!(!is_record("ab"));
    assert_eq!(temp_name(&Some("ab.json".to_string()), "17"), ".ab.json.17.tmp");
    assert_eq!(temp_name(&None, "17"), ".blast.17.tmp");
    assert!(!is_record(&temp_name(&Some("ab.json".to_string()), "17")));
}

#[test]
fn only_files_that_carry_symbols_are_counted() {
    let files = sources(&[("a.py", "def f():\n    return 1\n"), ("b.py", "x = 1\n")]);
    let (index, count, symbols) = build(&files, &names(&["a.py", "b.py"]));
    assert_eq!((count, symbols), (1, 1));
    assert!(index.get("files").unwrap().get("b.py").is_some());
}

#[test]
fn what_a_call_passes_is_not_stored() {
    let source = |arg: &str| format!("def g(k):\n    return k\n\n\ndef f():\n    return g({arg})\n");
    let index = |content: &str| build(&sources(&[("m.py", content)]), &names(&["m.py"])).0;
    let one = index(&source("'a'"));
    assert_eq!(one, index(&source("'b'")));
    let calls = one.get("files").unwrap().get("m.py").unwrap().get("symbols").unwrap();
    let calls = calls.get("f").unwrap().get("calls").unwrap();
    assert_eq!(calls, &Json::List(vec![Json::List(vec![text("g"), Json::Number("6".to_string())])]));
}

#[test]
fn an_index_falls_behind_its_tree() {
    let known = names(&["a.py", "b.py"]);
    let (index, _, _) = build(&sources(&[("a.py", "def f():\n    return 1\n")]), &known);
    let same = names(&["a.py"]);
    assert!(!is_behind(&index, &same, 10, 10));
    assert!(is_behind(&index, &same, 10, 11));
    // one is there that the index lacks, and one is gone
    assert!(is_behind(&index, &known, 10, 9));
    assert!(is_behind(&index, &names(&[]), 10, 9));
    assert_eq!(indexed_files(&index), vec!["a.py"]);
    assert!(!is_behind(&Json::Null, &vec![], 0, 0));
}

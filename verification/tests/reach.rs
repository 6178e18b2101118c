use blast::json::Json;
use blast::radius::{callers_of, files_of, of, split, symbols_in};

fn text(s: &str) -> Json {
    Json::Text(s.to_string())
}

fn object(entries: Vec<(&str, Json)>) -> Json {
    let mut members: Vec<(String, Json)> =
        entries.into_iter().map(|(key, value)| (key.to_string(), value)).collect();
    members.sort_by(|a, b| a.0.cmp(&b.0));
    Json::Object(members)
}

fn symbols(name: &str) -> Json {
    object(vec![("symbols", object(vec![(name, object(vec![]))]))])
}

fn edge(from: &str, to: &str) -> Json {
    Json::List(vec![text(from), text(to), text("call"), text("certain")])
}

/// tests/test_api.py reaches charge only through booking/api.py. Finding it is
/// the entire point: it is the file the agent never opened.
fn index() -> Json {
    object(vec![
        ("version", Json::Number("1".to_string())),
        (
            "files",
            object(vec![
                ("booking/pay.py", symbols("charge")),
                ("booking/api.py", symbols("create_booking")),
                ("tests/test_api.py", symbols("test_create_booking")),
            ]),
        ),
        (
            "edges",
            Json::List(vec![
                edge("booking/api.py::create_booking", "booking/pay.py::charge"),
                edge("tests/test_api.py::test_create_booking", "booking/api.py::create_booking"),
            ]),
        ),
    ])
}

#[test]
fn walks_callers_outward_by_hop() {
    let index = index();
    let found = of(&index, &vec!["booking/pay.py::charge".into()], 3, 50);
    let names: Vec<(&str, usize)> = found.iter().map(|d| (d.symbol.as_str(), d.depth)).collect();
    assert_eq!(names, vec![("create_booking", 1), ("test_create_booking", 2)]);
}

#[test]
fn stops_at_the_depth_it_was_given() {
    let index = index();
    let found = of(&index, &vec!["booking/pay.py::charge".into()], 1, 50);
    assert_eq!(found.len(), 1, "one hop means direct callers only");
}

#[test]
fn a_cycle_does_not_loop_forever() {
    let index = object(vec![
        ("version", Json::Number("1".to_string())),
        ("files", object(vec![])),
        (
            "edges",
            Json::List(vec![edge("a.py::one", "b.py::two"), edge("b.py::two", "a.py::one")]),
        ),
    ]);
    let found = of(&index, &vec!["a.py::one".into()], 10, 50);
    assert_eq!(found.len(), 1, "each node is visited once");
}

#[test]
fn the_walk_ends_at_its_limit() {
    let index = index();
    assert_eq!(of(&index, &vec!["booking/pay.py::charge".into()], 3, 1).len(), 1);
    assert_eq!(of(&index, &vec!["booking/pay.py::charge".into()], 0, 50).len(), 0);
}

#[test]
fn a_dependent_names_its_file_and_its_files_come_once() {
    let index = object(vec![(
        "edges",
        Json::List(vec![
            edge("b.py::y", "a.py::x"),
            edge("b.py::z", "a.py::x"),
            edge("c.py::w", "b.py::y"),
        ]),
    )]);
    let found = of(&index, &vec!["a.py::x".into()], 3, 50);
    let paths: Vec<&str> = found.iter().map(|d| d.path.as_str()).collect();
    assert_eq!(paths, vec!["b.py", "b.py", "c.py"]);
    assert_eq!(files_of(&found), vec!["b.py", "c.py"]);
}

#[test]
fn edges_are_read_backwards() {
    let callers = callers_of(&index());
    assert_eq!(
        callers,
        vec![
            (
                "booking/api.py::create_booking".to_string(),
                vec!["tests/test_api.py::test_create_booking".to_string()]
            ),
            (
                "booking/pay.py::charge".to_string(),
                vec!["booking/api.py::create_booking".to_string()]
            ),
        ]
    );
    assert!(callers_of(&Json::Null).is_empty());
}

#[test]
fn a_file_gives_its_symbols() {
    assert_eq!(symbols_in(&index(), "booking/pay.py"), vec!["booking/pay.py::charge"]);
    assert!(symbols_in(&index(), "nowhere.py").is_empty());
}

#[test]
fn an_id_has_two_halves() {
    assert_eq!(split("a.py::b::c"), ("a.py".to_string(), "b::c".to_string()));
    assert_eq!(split("a.py"), ("a.py".to_string(), String::new()));
}

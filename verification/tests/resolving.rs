use blast::bodies::{indent_unit, reindent};
use blast::changes::{family_of, module_matches, splice, Change};
use blast::edit::{apply, apply_all, try_apply, try_apply_all, Applied};
use blast::graph::{
    dirname, node_id, normpath, resolve_edges, resolve_module, splitext, ImportSpec, SymbolEdges,
};
use blast::json::Json;
use blast::ops::{parse_op, parse_ops, Op};

fn text(s: &str) -> Json {
    Json::Text(s.to_string())
}

fn object(entries: Vec<(&str, Json)>) -> Json {
    let mut members: Vec<(String, Json)> =
        entries.into_iter().map(|(key, value)| (key.to_string(), value)).collect();
    members.sort_by(|a, b| a.0.cmp(&b.0));
    Json::Object(members)
}

fn names(list: &[&str]) -> Vec<String> {
    list.iter().map(|s| s.to_string()).collect()
}

fn files(entries: &[(&str, &str)]) -> Vec<(String, String)> {
    let mut out: Vec<(String, String)> =
        entries.iter().map(|(p, c)| (p.to_string(), c.to_string())).collect();
    out.sort();
    out
}

fn target(module: &str, from: &str, language: &str, known: &[&str]) -> Option<String> {
    resolve_module(module, from, language, &names(known))
}

#[test]
fn modules_point_into_the_repo() {
    let some = |s: &str| Some(s.to_string());
    let known = ["app/core/pay.py", "app/core/__init__.py", "lib/pay.py"];
    assert_eq!(target(".pay", "app/core/api.py", "python", &known), some("app/core/pay.py"));
    assert_eq!(target("core.pay", "app/x.py", "python", &known), some("app/core/pay.py"));
    assert_eq!(target("requests", "app/x.py", "python", &known), None);
    assert_eq!(target("", "app/x.py", "python", &known), None);
    let known = ["src/lib/math.ts", "src/app.ts"];
    assert_eq!(target("./lib/math", "src/app.ts", "typescript", &known), some("src/lib/math.ts"));
    assert_eq!(target("react", "src/app.ts", "typescript", &known), None);
    let known = ["src/a/mod.rs", "src/b.rs"];
    assert_eq!(target("crate::a", "src/b.rs", "rust", &known), some("src/a/mod.rs"));
    assert_eq!(target("example.com/x/pay", "main.go", "go", &["pay/pay.go"]), some("pay/"));
    assert_eq!(target("fmt", "main.go", "go", &["pay/pay.go"]), None);
    assert_eq!(target("app.Thing", "A.java", "java", &["app/Thing.java"]), some("app/Thing.java"));
    assert_eq!(target("b.h", "src/a.c", "c", &["src/b.h"]), some("src/b.h"));
    assert_eq!(target("./b", "lib/a.rb", "ruby", &["lib/b.rb"]), some("lib/b.rb"));
}

fn edges_of(
    path: &str,
    symbol: &str,
    raw: &[(&str, &str, &str)],
    imports: &[ImportSpec],
    known: &[&str],
    index: &[(&str, &[&str])],
) -> Vec<(String, String, &'static str)> {
    let raw: Vec<(String, String, String)> =
        raw.iter().map(|(a, b, c)| (a.to_string(), b.to_string(), c.to_string())).collect();
    let symbols = [SymbolEdges { name: symbol, edges: &raw }];
    let index: Vec<(String, Vec<String>)> =
        index.iter().map(|(n, p)| (n.to_string(), names(p))).collect();
    resolve_edges(path, "python", &symbols, imports, &names(known), &index)
        .into_iter()
        .map(|e| (e.to, e.kind, e.confidence))
        .collect()
}

#[test]
fn edges_say_how_sure_they_are() {
    let imports = [
        ImportSpec { module: "pay".to_string(), names: vec![("charge".to_string(), "charge".to_string())] },
        ImportSpec { module: "os".to_string(), names: vec![("os".to_string(), "*".to_string())] },
    ];
    let found = edges_of(
        "api.py",
        "create",
        &[
            ("charge", "", "calls"),
            ("charge", "", "references"),
            ("os", "sep", "references"),
            ("lonely", "", "calls"),
            ("common", "", "calls"),
            ("nowhere", "", "calls"),
        ],
        &imports,
        &["api.py", "pay.py"],
        &[("charge", &["pay.py"]), ("common", &["x/aa.py", "x/b.py"]), ("lonely", &["z.py"])],
    );
    assert_eq!(
        found,
        vec![
            ("ext:os.sep".to_string(), "references".to_string(), "extracted"),
            ("pay.py::charge".to_string(), "calls".to_string(), "extracted"),
            ("x/b.py::common".to_string(), "calls".to_string(), "ambiguous"),
            ("z.py::lonely".to_string(), "calls".to_string(), "inferred"),
        ]
    );
}

#[test]
fn paths_are_taken_apart() {
    assert_eq!(node_id("a.py", "f"), "a.py::f");
    assert_eq!(dirname("a/b.py"), "a");
    assert_eq!(dirname("b.py"), "");
    assert_eq!(dirname("/b.py"), "/");
    assert_eq!(splitext("a/b.d.ts"), ("a/b.d".to_string(), ".ts".to_string()));
    assert_eq!(splitext("a/.env"), ("a/.env".to_string(), String::new()));
    assert_eq!(normpath("a/./b/../c"), "a/c");
    assert_eq!(normpath("/a/./b/../c"), "/a/c");
    assert_eq!(normpath("//a/./b/../c"), "//a/c");
    assert_eq!(normpath("///a"), "/a");
}

#[test]
fn ops_are_read_and_written() {
    let written = object(vec![
        ("op", text("pass_arg")),
        ("path", text("a.py")),
        ("symbol", text("f")),
        ("arg", text("x")),
        ("in", Json::List(vec![text("jobs/")])),
        ("optional", Json::Bool(true)),
    ]);
    let op = parse_op(&written).unwrap();
    assert_eq!(op.kind(), "pass_arg");
    assert_eq!(op.target(), (Some("a.py"), "f"));
    assert_eq!(
        op,
        Op::PassArg {
            path: "a.py".to_string(),
            symbol: "f".to_string(),
            arg: "x".to_string(),
            within: names(&["jobs/"]),
            optional: true
        }
    );
    let rename = Op::Rename { symbol: "a".to_string(), new_name: "b".to_string() };
    assert_eq!(rename.target(), (None, "a"));
    assert_eq!(parse_op(&rename.as_operation()), Ok(rename));
    assert_eq!(parse_ops(&written).unwrap().len(), 1);
}

#[test]
fn an_op_that_cannot_be_read_says_why() {
    let err = |entries: Vec<(&str, Json)>| parse_op(&object(entries)).unwrap_err();
    assert_eq!(err(vec![]), "op is required");
    assert_eq!(err(vec![("op", text("dance"))]), "unsupported op: dance");
    assert_eq!(err(vec![("op", text("rename"))]), "symbol is required");
    assert_eq!(err(vec![("op", text("rename")), ("symbol", text("a"))]), "new_name is required");
    assert_eq!(err(vec![("op", text("add_param"))]), "path is required");
    let partial = vec![("op", text("pass_arg")), ("path", text("a.py")), ("symbol", text("f"))];
    assert_eq!(err(partial), "arg is required");
    assert_eq!(parse_ops(&Json::List(vec![])).unwrap_err(), "the batch is empty");
    assert_eq!(
        parse_ops(&Json::Null).unwrap_err(),
        "the op must be a JSON object or a list of them"
    );
    let bad = object(vec![("op", text("dance"))]);
    let good = object(vec![
        ("op", text("rename")),
        ("symbol", text("a")),
        ("new_name", text("b")),
    ]);
    assert_eq!(
        parse_ops(&Json::List(vec![good, bad])).unwrap_err(),
        "op 2: unsupported op: dance"
    );
}

#[test]
fn an_announced_op_says_what_it_needs() {
    let op = Op::AddParam {
        path: "a.py".to_string(),
        symbol: "f".to_string(),
        name: "n".to_string(),
        type_: Some("int".to_string()),
        default: None,
        call_arg: None,
    };
    assert_eq!(
        op.as_operation(),
        object(vec![
            ("op", text("add_param")),
            ("symbol", text("f")),
            ("name", text("n")),
            ("type", text("int")),
        ])
    );
    let op = Op::RemoveParam {
        path: "a.py".to_string(),
        symbol: "f".to_string(),
        name: "n".to_string(),
    };
    assert_eq!(op.kind(), "remove_param");
    let op = Op::ReplaceBody {
        path: "a.py".to_string(),
        symbol: "f".to_string(),
        body: "pass".to_string(),
    };
    assert_eq!(op.as_operation(), object(vec![("op", text("modify")), ("symbol", text("f"))]));
}

#[test]
fn changes_are_made_from_the_end() {
    let change = |start: usize, end: usize, text: &str| Change { start, end, text: text.to_string() };
    let made = splice("abcdef", vec![change(0, 1, "XX"), change(4, 5, ""), change(2, 2, "-")]);
    assert_eq!(made, Some("XXb-cdf".to_string()));
    assert_eq!(splice("abc", vec![change(2, 9, "x")]), None);
    assert_eq!(splice("\u{e9}a", vec![change(1, 2, "x")]), None);
}

fn one(op: &[(&str, &str)], src: &[(&str, &str)]) -> Result<Applied, String> {
    let op = object(op.iter().map(|(k, v)| (*k, text(v))).collect());
    apply(&parse_op(&op).unwrap(), &files(src))
}

#[test]
fn every_refusal_says_why() {
    let src = [("a.py", "def f(a):\n    return a\n")];
    let err = |op: &[(&str, &str)]| one(op, &src).unwrap_err();
    assert_eq!(
        err(&[("op", "rename"), ("symbol", "zz"), ("new_name", "y")]),
        "zz is not named anywhere in the given files"
    );
    assert_eq!(
        err(&[("op", "add_param"), ("path", "b.py"), ("symbol", "f"), ("name", "n")]),
        "b.py is not among the given files"
    );
    assert_eq!(
        err(&[("op", "add_param"), ("path", "a.py"), ("symbol", "g"), ("name", "n")]),
        "g is not defined in a.py"
    );
    assert_eq!(
        err(&[("op", "remove_param"), ("path", "a.py"), ("symbol", "f"), ("name", "n")]),
        "f in a.py has no parameter n"
    );
    assert_eq!(
        err(&[("op", "pass_arg"), ("path", "a.py"), ("symbol", "f"), ("arg", "n")]),
        "no call of f under the repo"
    );
    assert_eq!(
        err(&[("op", "replace_body"), ("path", "a.py"), ("symbol", "f"), ("body", " \n")]),
        "replace_body needs a non-empty body"
    );
    assert_eq!(
        err(&[("op", "replace_body"), ("path", "a.go"), ("symbol", "f"), ("body", "x")]),
        "a.go: language not supported for typed edits"
    );
}

#[test]
fn an_op_touches_only_files_it_was_given() {
    let out = one(
        &[("op", "rename"), ("symbol", "f"), ("new_name", "g")],
        &[("a.py", "def f():\n    pass\n"), ("b.py", "x = 1\n"), ("c.go", "func f() {}\n")],
    )
    .unwrap();
    assert_eq!(out.files, files(&[("a.py", "def g():\n    pass\n")]));
}

#[test]
fn calls_within_calls_lose_their_arguments_once() {
    let src = files(&[("a.py", "def f(a, b):\n    return a\n\n\nf(f(1, 2), f(3, 4)) + 10\n")]);
    let op = Op::RemoveParam { path: "a.py".to_string(), symbol: "f".to_string(), name: "b".to_string() };
    let left = files(&[("a.py", "def f(a):\n    return a\n\n\nf(f(1)) + 10\n")]);
    assert_eq!(try_apply(&op, &src).unwrap().unwrap().files, left);
    assert_eq!(try_apply_all(&vec![op], &src).unwrap().unwrap().files, left);
    let op = Op::Rename { symbol: "f".to_string(), new_name: "g".to_string() };
    assert_eq!(try_apply(&op, &src).unwrap().unwrap().files, apply(&op, &src).unwrap().files);
}

#[test]
fn a_later_op_sees_what_an_earlier_one_left() {
    let src = files(&[("a.py", "def f(a):\n    return a\n")]);
    let ops = vec![
        Op::Rename { symbol: "f".to_string(), new_name: "g".to_string() },
        Op::ReplaceBody { path: "a.py".to_string(), symbol: "g".to_string(), body: "return 2".to_string() },
    ];
    let out = apply_all(&ops, &src).unwrap();
    assert_eq!(out.files, files(&[("a.py", "def g(a):\n    return 2\n")]));
    let list = |v: Vec<&str>| Json::List(v.into_iter().map(text).collect());
    assert_eq!(
        out.summary(&ops),
        object(vec![
            ("ok", Json::Bool(true)),
            ("ops", list(vec!["rename", "replace_body"])),
            ("files_changed", list(vec!["a.py"])),
            ("call_sites", Json::List(vec![])),
            ("unchanged_call_sites", Json::List(vec![])),
            (
                "notes",
                list(vec![
                    "op 1: renamed every identifier with that name across the given files (strings and comments untouched)",
                    "op 2: replaced the body of g in a.py (1 line(s))",
                ])
            ),
        ])
    );
}

#[test]
fn bodies_keep_their_indentation() {
    assert_eq!(indent_unit("a\n  b\n"), "  ");
    assert_eq!(indent_unit("a\n\t\tb\n"), "\t\t");
    assert_eq!(indent_unit("class A {\n\t\tint x;\n}\n"), "\t\t");
    assert_eq!(indent_unit("a\n"), "    ");
    assert_eq!(reindent("  x\n    y\n\n  z\n", "--", true), "--x\n--  y\n\n--z");
    assert_eq!(reindent("x\ny", "--", false), "x\n--y");
}

#[test]
fn imports_name_the_defining_file() {
    assert!(module_matches("services/svc0.py", "handlers/h0.py", "services.svc0"));
    assert!(!module_matches("services/svc0.py", "pkg/inner.py", ".svc0"));
    assert!(module_matches("src/lib/math.ts", "src/app.ts", "./lib/math"));
    assert!(family_of("a.py").is_some());
    assert!(family_of("a.go").is_none());
}

#[test]
fn of_several_definitions_the_nearest_is_chosen() {
    let found = edges_of(
        "pkg/sub/a.py",
        "f",
        &[("g", "", "calls")],
        &[],
        &["b.py", "pkg/sub/a.py", "pkg/sub/longer.py"],
        &[("f", &["pkg/sub/a.py"]), ("g", &["b.py", "pkg/sub/longer.py"])],
    );
    assert_eq!(found, vec![("pkg/sub/longer.py::g".to_string(), "calls".to_string(), "ambiguous")]);
}

fn add_n(path: &str) -> Op {
    Op::AddParam {
        path: path.to_string(),
        symbol: "f".to_string(),
        name: "n".to_string(),
        type_: None,
        default: None,
        call_arg: None,
    }
}

#[test]
fn a_call_that_no_later_op_changed_stays_listed() {
    let src = files(&[("a.py", "def f(x):\n    return x\n\nf(1)\n")]);
    let out = apply_all(&vec![add_n("a.py")], &src).unwrap();
    assert_eq!(out.files, files(&[("a.py", "def f(x, n):\n    return x\n\nf(1)\n")]));
    assert_eq!(out.unchanged_call_sites, vec![("a.py".to_string(), 4)]);
    assert_eq!(out.notes.len(), 1);
    let pass = Op::PassArg {
        path: "a.py".to_string(),
        symbol: "f".to_string(),
        arg: "2".to_string(),
        within: vec![],
        optional: false,
    };
    let out = apply_all(&vec![add_n("a.py"), pass], &src).unwrap();
    assert_eq!(out.files, files(&[("a.py", "def f(x, n):\n    return x\n\nf(1, 2)\n")]));
    assert_eq!(out.call_sites, vec![("a.py".to_string(), 4)]);
    assert!(out.unchanged_call_sites.is_empty());
    assert!(out.notes.is_empty());
}

#[test]
fn files_that_stay_the_same_do_not_come_back() {
    let src = files(&[("a.py", "def f(x):\n    return x\n"), ("b.py", "from a import f\nf(1)\n")]);
    let same = Op::Rename { symbol: "f".to_string(), new_name: "f".to_string() };
    assert!(apply(&same, &src).unwrap().files.is_empty());
    let body =
        Op::ReplaceBody { path: "a.py".to_string(), symbol: "f".to_string(), body: "return x".to_string() };
    assert!(apply(&body, &src).unwrap().files.is_empty());
    let missing = Op::Rename { symbol: "h".to_string(), new_name: "h".to_string() };
    assert!(apply(&missing, &src).is_err());
}

#[test]
fn a_module_is_called_by_its_dotted_path() {
    let src = files(&[
        ("services/svc0.py", "def serve(x):\n    return x\n"),
        ("b.py", "import services.svc0\nservices.svc0.serve(1)\nservices.svc1.serve(1)\n"),
    ]);
    let op = Op::PassArg {
        path: "services/svc0.py".to_string(),
        symbol: "serve".to_string(),
        arg: "region".to_string(),
        within: vec![],
        optional: false,
    };
    let out = apply(&op, &src).unwrap();
    assert_eq!(
        out.files,
        files(&[(
            "b.py",
            "import services.svc0\nservices.svc0.serve(1, region)\nservices.svc1.serve(1)\n"
        )])
    );
    assert_eq!(out.call_sites, vec![("b.py".to_string(), 2)]);
}

#[test]
fn two_batches_come_to_what_one_of_all_their_ops_does() {
    let src = files(&[("a.py", "def f(x):\n    return x\n"), ("b.py", "from a import f\nf(1)\n")]);
    let pass = || Op::PassArg {
        path: "a.py".to_string(),
        symbol: "f".to_string(),
        arg: "2".to_string(),
        within: vec![],
        optional: false,
    };
    let first = apply_all(&vec![add_n("a.py")], &src).unwrap();
    let left = files(&[("a.py", "def f(x, n):\n    return x\n"), ("b.py", "from a import f\nf(1)\n")]);
    assert_eq!(first.files, files(&[("a.py", "def f(x, n):\n    return x\n")]));
    let second = apply_all(&vec![pass()], &left).unwrap();
    let both = apply_all(&vec![add_n("a.py"), pass()], &src).unwrap();
    assert_eq!(
        both.files,
        files(&[("a.py", "def f(x, n):\n    return x\n"), ("b.py", "from a import f\nf(1, 2)\n")])
    );
    assert_eq!(second.files, files(&[("b.py", "from a import f\nf(1, 2)\n")]));
    assert_eq!(both.call_sites, second.call_sites);
    assert_eq!(first.unchanged_call_sites, vec![("b.py".to_string(), 2)]);
    assert!(both.unchanged_call_sites.is_empty());
    let bad = apply_all(&vec![add_n("c.py")], &left).unwrap_err();
    assert_eq!(bad, "op 1 (add_param) refused: c.py is not among the given files");
    let bad = apply_all(&vec![add_n("a.py"), add_n("c.py")], &src).unwrap_err();
    assert_eq!(bad, "op 2 (add_param) refused: c.py is not among the given files");
}

#[test]
fn a_module_is_called_by_the_name_it_is_imported_under() {
    let op = Op::PassArg {
        path: "services/svc0.py".to_string(),
        symbol: "serve".to_string(),
        arg: "region".to_string(),
        within: vec![],
        optional: false,
    };
    let src = files(&[
        ("services/svc0.py", "def serve(x):\n    return x\n"),
        ("services/near.py", "from . import svc0 as s\ns.serve(2)\n"),
        ("b.py", "from services import svc0, svc1\nsvc0.serve(1)\nsvc1.serve(1)\n"),
    ]);
    let out = apply(&op, &src).unwrap();
    assert_eq!(
        out.files,
        files(&[
            ("services/near.py", "from . import svc0 as s\ns.serve(2, region)\n"),
            ("b.py", "from services import svc0, svc1\nsvc0.serve(1, region)\nsvc1.serve(1)\n"),
        ])
    );
}

#[test]
fn a_new_parameter_goes_before_those_that_take_the_rest() {
    let added = |path: &str, content: &str| {
        let out = apply(&add_n(path), &files(&[(path, content)])).unwrap();
        out.files[0].1.clone()
    };
    assert_eq!(added("a.py", "def f(a, *args: int):\n    pass\n"), "def f(a, n, *args: int):\n    pass\n");
    assert_eq!(added("a.py", "def f(**kw: int):\n    pass\n"), "def f(n, **kw: int):\n    pass\n");
    assert_eq!(added("a.py", "def f(a: int):\n    pass\n"), "def f(a: int, n):\n    pass\n");
    assert_eq!(
        added("a.ts", "function f(a: number, ...rest: number[]) {}\n"),
        "function f(a: number, n, ...rest: number[]) {}\n"
    );
}

#[test]
fn changes_inside_others_are_not_made() {
    let change = |start: usize, end: usize, text: &str| Change { start, end, text: text.to_string() };
    // the second argument of the outer call, with that of the inner one
    let v = vec![change(3, 12, ""), change(8, 11, "")];
    assert_eq!(splice("f(1, f(2, 3)) + 10", v), Some("f(1) + 10".to_string()));
    // something put in where another range ends stays
    let v = vec![change(0, 2, "x"), change(2, 2, "y")];
    assert_eq!(splice("abcd", v), Some("xycd".to_string()));
    // the same range once
    let v = vec![change(1, 2, "x"), change(1, 2, "y")];
    assert_eq!(splice("abc", v), Some("axc".to_string()));
    // ranges that overlap otherwise do not fit together
    assert_eq!(splice("abcd", vec![change(0, 2, "x"), change(1, 3, "y")]), None);
    assert_eq!(splice("ab", vec![change(0, 3, "x")]), None);
}

fn pass(symbol: &str, arg: &str) -> Op {
    Op::PassArg {
        path: "a.py".to_string(),
        symbol: symbol.to_string(),
        arg: arg.to_string(),
        within: vec![],
        optional: false,
    }
}

fn body(symbol: &str, text: &str) -> Op {
    Op::ReplaceBody { path: "a.py".to_string(), symbol: symbol.to_string(), body: text.to_string() }
}

#[test]
fn a_call_is_followed_to_where_it_moves() {
    let src = files(&[(
        "a.py",
        "def f(x):\n    return x\n\n\ndef g(x):\n    return x\n\n\nf(g(1))\n",
    )]);
    // the body above it grows, and then the call is changed
    let out = apply_all(&vec![add_n("a.py"), body("g", "y = x\nz = y\nreturn z"), pass("f", "2")], &src);
    let out = out.unwrap();
    assert_eq!(
        out.files[0].1,
        "def f(x, n):\n    return x\n\n\ndef g(x):\n    y = x\n    z = y\n    return z\n\n\nf(g(1), 2)\n"
    );
    assert_eq!(out.call_sites, vec![("a.py".to_string(), 11)]);
    assert!(out.unchanged_call_sites.is_empty());
    // another call on its line is changed
    let out = apply_all(&vec![add_n("a.py"), pass("g", "2")], &src).unwrap();
    assert_eq!(out.call_sites, vec![("a.py".to_string(), 9)]);
    assert_eq!(out.unchanged_call_sites, vec![("a.py".to_string(), 9)]);
    // it is named otherwise, and then changed
    let rename = || Op::Rename { symbol: "f".to_string(), new_name: "longer".to_string() };
    let out = apply_all(&vec![add_n("a.py"), rename()], &src).unwrap();
    assert_eq!(out.unchanged_call_sites, vec![("a.py".to_string(), 9)]);
    let out = apply_all(&vec![add_n("a.py"), rename(), pass("longer", "2")], &src).unwrap();
    assert!(out.files[0].1.ends_with("longer(g(1), 2)\n"));
    assert!(out.unchanged_call_sites.is_empty());
}

#[test]
fn a_call_that_is_replaced_is_not_listed() {
    let src = files(&[("a.py", "def f(x):\n    return x\n\n\ndef g(x):\n    return f(x)\n")]);
    let out = apply_all(&vec![add_n("a.py"), body("g", "return x")], &src).unwrap();
    assert!(out.unchanged_call_sites.is_empty());
    let out = apply_all(&vec![add_n("a.py"), body("f", "return 2 * x")], &src).unwrap();
    assert_eq!(out.unchanged_call_sites, vec![("a.py".to_string(), 6)]);
}

#[test]
fn an_alias_is_no_plain_import() {
    let op = Op::PassArg {
        path: "a/b.py".to_string(),
        symbol: "f".to_string(),
        arg: "n".to_string(),
        within: vec![],
        optional: false,
    };
    let calls = |import: &str| {
        let content = format!("{import}\na.b.f(1)\na.f(2)\n");
        apply(&op, &files(&[("a/b.py", "def f(x):\n    return x\n"), ("c.py", &content)])).unwrap().call_sites
    };
    assert_eq!(calls("import a.b as a"), vec![("c.py".to_string(), 3)]);
    assert_eq!(calls("import a.b"), vec![("c.py".to_string(), 2), ("c.py".to_string(), 3)]);
}

#[test]
fn ops_on_different_files_commute() {
    let src = files(&[
        ("a.py", "def f(x):\n    return x\n\n\nf(1)\n"),
        ("m.ts", "export function f(x: number) {\n  return x;\n}\n\nf(1);\n"),
    ]);
    let ops = || (add_n("a.py"), add_n("m.ts"));
    let (a, b) = ops();
    let one = apply_all(&vec![a, b], &src).unwrap();
    let (a, b) = ops();
    let other = apply_all(&vec![b, a], &src).unwrap();
    assert_eq!(one.files, other.files);
    assert_eq!(one.files.len(), 2);
    assert_eq!(one.unchanged_call_sites, vec![("a.py".to_string(), 5), ("m.ts".to_string(), 5)]);
    assert_eq!(other.unchanged_call_sites, vec![("m.ts".to_string(), 5), ("a.py".to_string(), 5)]);
}

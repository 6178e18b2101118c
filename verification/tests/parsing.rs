use blast::engine::{extension_of, parse, ParseOutput, Symbol};
use blast::langs::{language_of, spec_for_ext, specs};

fn names(out: &ParseOutput) -> Vec<(&str, &str)> {
    out.symbols.iter().map(|s| (s.name.as_str(), s.kind.as_str())).collect()
}

fn symbol<'a>(out: &'a ParseOutput, name: &str) -> &'a Symbol {
    out.symbols.iter().find(|s| s.name == name).unwrap()
}

fn edges(s: &Symbol) -> Vec<(&str, &str, &str)> {
    s.edges.iter().map(|(a, b, c)| (a.as_str(), b.as_str(), c.as_str())).collect()
}

fn modules(out: &ParseOutput) -> Vec<&str> {
    out.imports.iter().map(|i| i.module.as_str()).collect()
}

fn bound(out: &ParseOutput, k: usize) -> Vec<(&str, &str)> {
    out.imports[k].names.iter().map(|(a, b)| (a.as_str(), b.as_str())).collect()
}

#[test]
fn python_is_read() {
    let src = "\"\"\"Module doc.\n\n@tag gone\n\"\"\"\nimport os\nimport a.b as c\nfrom .pkg import x, y as z\n\n\nclass Base:\n    pass\n\n\nclass Thing(Base):\n    def go(self, n: int):\n        return helper(n)\n\n\ndef helper(n, *rest, key=1, **kw):\n    \"\"\"Helps.\"\"\"\n    return z(n) + os.sep\n";
    let out = parse("pkg/m.py", src).unwrap();
    assert_eq!(out.language, "python");
    assert_eq!(out.status, "clean");
    assert_eq!(out.doc, "Module doc.");
    assert_eq!(names(&out), vec![("Base", "class"), ("Thing", "class"), ("helper", "function")]);
    let helper = symbol(&out, "helper");
    assert_eq!(helper.signature, "def helper(n, *rest, key=1, **kw)");
    assert_eq!(helper.doc, "Helps.");
    assert_eq!(helper.params, vec!["n", "rest", "key", "kw"]);
    assert_eq!(helper.span, (19, 21));
    assert_eq!(modules(&out), vec!["os", "a.b", ".pkg"]);
    assert_eq!(bound(&out, 1), vec![("c", "*")]);
    assert_eq!(bound(&out, 2), vec![("x", "x"), ("z", "y")]);
    assert!(edges(symbol(&out, "Thing")).contains(&("Base", "", "inherits")));
    assert!(edges(symbol(&out, "Thing")).contains(&("helper", "", "calls")));
    assert!(edges(helper).contains(&("z", "", "calls")));
}

#[test]
fn typescript_is_read() {
    let src = "import { a as b, c } from './m';\nimport D from \"d\";\n\n/** Adds. */\nexport function add(x: number, y: Sum): number {\n  return b(x) + y.total;\n}\n\nexport class Box extends D {\n  open() { return add(1, c); }\n}\n\nexport const twice = (n: number) => add(n, n);\n\ninterface Sum { total: number }\n";
    let out = parse("src/x.ts", src).unwrap();
    assert_eq!(out.language, "typescript");
    let found: Vec<&str> = out.symbols.iter().map(|s| s.name.as_str()).collect();
    assert_eq!(found, vec!["add", "Box", "twice", "Sum"]);
    assert_eq!(modules(&out), vec!["./m", "d"]);
    assert_eq!(bound(&out, 0), vec![("b", "a"), ("c", "c")]);
    assert_eq!(bound(&out, 1), vec![("D", "default")]);
    let add = symbol(&out, "add");
    assert_eq!(add.doc, "Adds.");
    assert_eq!(add.params, vec!["x", "y"]);
    assert!(edges(add).contains(&("b", "", "calls")));
    assert!(edges(symbol(&out, "Box")).contains(&("D", "", "inherits")));
}

#[test]
fn tsx_and_javascript_are_read() {
    let src = "import React from 'react';\nexport function App(props) { return <Box kind={props.kind} />; }\n";
    let out = parse("a.tsx", src).unwrap();
    assert_eq!(out.language, "tsx");
    assert_eq!(out.symbols[0].name, "App");
    let out = parse("a.js", "const f = require('./f');\nfunction g(a) { return f(a); }\n").unwrap();
    assert_eq!(out.language, "javascript");
    assert_eq!(symbol(&out, "g").params, vec!["a"]);
}

#[test]
fn go_is_read() {
    let src = "// Package pay charges.\npackage pay\n\nimport (\n\t\"fmt\"\n\tx \"a/b\"\n)\n\n// Card is a card.\ntype Card struct{ n int }\n\ntype Payer interface{ Pay() }\n\nfunc (c *Card) Charge(amount int) int {\n\tfmt.Println(x.Y)\n\treturn helper(amount)\n}\n\nfunc helper(a int) int { return a }\n";
    let out = parse("pay/pay.go", src).unwrap();
    assert_eq!(out.language, "go");
    assert_eq!(out.doc, "Package pay charges.");
    assert_eq!(
        names(&out),
        vec![
            ("Card", "struct"),
            ("Payer", "interface"),
            ("Card.Charge", "method"),
            ("helper", "function")
        ]
    );
    assert_eq!(symbol(&out, "helper").params, vec!["a"]);
    assert_eq!(modules(&out), vec!["a/b", "fmt"]);
    assert_eq!(bound(&out, 0), vec![("x", "*")]);
    assert!(edges(symbol(&out, "Card.Charge")).contains(&("helper", "", "calls")));
}

#[test]
fn rust_is_read() {
    let src = "use crate::a::{b, c as d};\n\n/// Makes one.\npub fn make(n: u32) -> Thing {\n    d(n)\n}\n\npub struct Thing;\n\nimpl Thing {\n    fn go(&self) { make(1); }\n}\n";
    let out = parse("src/lib.rs", src).unwrap();
    assert_eq!(out.language, "rust");
    let make = symbol(&out, "make");
    assert_eq!(make.doc, "Makes one.");
    assert_eq!(make.params, vec!["n"]);
    assert!(edges(make).contains(&("d", "", "calls")));
    assert!(symbol(&out, "Thing").kind == "struct");
}

#[test]
fn java_and_c_sharp_are_read() {
    let out = parse(
        "A.java",
        "import app.B;\npublic class A extends B {\n  int f(int x) { return g(x); }\n}\n",
    )
    .unwrap();
    assert_eq!(out.language, "java");
    assert_eq!(names(&out)[0], ("A", "class"));
    assert!(edges(&out.symbols[0]).contains(&("B", "", "inherits")));
    let out = parse("A.cs", "using System.Text;\npublic class A : B { int F() { return 1; } }\n").unwrap();
    assert_eq!(out.language, "c_sharp");
    assert_eq!(names(&out)[0], ("A", "class"));
    assert_eq!(modules(&out), vec!["System.Text"]);
}

#[test]
fn ruby_and_php_are_read() {
    let out = parse("a.rb", "require_relative 'b'\nclass A < B\n  def go(x)\n    x\n  end\nend\n").unwrap();
    assert_eq!(out.language, "ruby");
    assert_eq!(names(&out)[0], ("A", "class"));
    assert_eq!(modules(&out), vec!["b"]);
    let out = parse("a.php", "<?php\nuse App\\Models\\User;\nfunction go($x) { return run($x); }\n").unwrap();
    assert_eq!(out.language, "php");
    assert_eq!(names(&out), vec![("go", "function")]);
    assert_eq!(modules(&out), vec!["App\\Models"]);
    assert_eq!(bound(&out, 0), vec![("User", "User")]);
}

#[test]
fn c_and_cpp_are_read() {
    let out = parse("a.c", "#include \"b.h\"\n/* Adds. */\nint add(int a, int *b) { return sum(a, *b); }\n").unwrap();
    assert_eq!(out.language, "c");
    assert_eq!(names(&out), vec![("add", "function")]);
    assert_eq!(out.symbols[0].doc, "Adds.");
    assert_eq!(modules(&out), vec!["b.h"]);
    let out = parse("a.cpp", "#include <vector>\nclass A : public B { };\nint A::go(int x) { return x; }\n").unwrap();
    assert_eq!(out.language, "cpp");
    assert_eq!(names(&out)[0], ("A", "class"));
}

#[test]
fn what_no_language_claims_is_not_read() {
    assert!(parse("README.md", "# hi\n").is_none());
    assert!(parse("Makefile", "all:\n").is_none());
}

#[test]
fn a_broken_file_says_so() {
    let out = parse("a.py", "def f(:\n").unwrap();
    assert_eq!(out.status, "partial");
    assert!(out.symbols.is_empty() && out.imports.is_empty() && out.doc.is_empty());
}

#[test]
fn the_hash_is_the_digest_of_the_declaration() {
    let one = parse("a.py", "def f():\n    return 1\n").unwrap();
    let two = parse("b.py", "\n\ndef f():\n    return 1\n").unwrap();
    let other = parse("a.py", "def f():\n    return 2\n").unwrap();
    assert_eq!(one.symbols[0].hash, two.symbols[0].hash);
    assert_ne!(one.symbols[0].hash, other.symbols[0].hash);
    assert!(one.symbols[0].hash.chars().all(|c| c.is_ascii_hexdigit()));
}

#[test]
fn documentation_ends_at_its_tags_and_its_cap() {
    let long = "word ".repeat(200);
    let src = format!("def f():\n    \"\"\"{long}\"\"\"\n");
    assert_eq!(parse("a.py", &src).unwrap().symbols[0].doc.chars().count(), 600);
    let src = "/**\n * Sums up.\n * @param a one\n */\nfunction f(a) { return a; }\n";
    assert_eq!(parse("a.js", src).unwrap().symbols[0].doc, "Sums up.");
}

#[test]
fn a_long_signature_is_cut() {
    let args: Vec<String> = (0..60).map(|i| format!("argument{i}: number")).collect();
    let src = format!("function f({}) {{ return 1; }}\n", args.join(", "));
    assert!(parse("a.ts", &src).unwrap().symbols[0].signature.chars().count() <= 200);
}

#[test]
fn extensions_are_found_without_regard_to_case() {
    assert_eq!(extension_of("src/A.PY"), ".py");
    assert_eq!(extension_of("Makefile"), "");
    assert_eq!(spec_for_ext(".py").unwrap().name, "python");
    assert!(spec_for_ext(".md").is_none());
}

#[test]
fn every_language_has_a_grammar() {
    let mut seen: Vec<usize> = specs().iter().map(|s| language_of(s.name)).collect();
    seen.sort();
    assert_eq!(seen, (0..12).collect::<Vec<usize>>());
}

#[test]
fn a_spec_tells_its_kinds() {
    let python = spec_for_ext(".py").unwrap();
    assert_eq!(python.kind_of("function_definition"), Some("function"));
    assert_eq!(python.kind_of("if_statement"), None);
    assert!(python.is_import("import_statement"));
    assert!(!python.is_import("class_definition"));
}

#[test]
fn a_large_file_is_read() {
    let one = |i: usize| format!("def f{i}(a, b=1):\n    \"\"\"Number {i}.\"\"\"\n    return f{}(a) + b\n\n\n", i + 1);
    let src: String = (0..1500).map(one).collect();
    let out = parse("big.py", &src).unwrap();
    assert_eq!(out.symbols.len(), 1500);
    assert_eq!(out.symbols[7].doc, "Number 7.");
    assert_eq!(edges(&out.symbols[7]), vec![("f8", "", "calls")]);
}

#[test]
fn a_later_declaration_stands_in_the_place_of_an_earlier_one() {
    let out = parse("a.py", "def f():\n    pass\n\n\ndef g():\n    pass\n\n\ndef f(x):\n    pass\n").unwrap();
    assert_eq!(names(&out), vec![("f", "function"), ("g", "function")]);
    assert_eq!(out.symbols[0].params, vec!["x"]);
}

#[test]
fn arguments_lose_their_own_brackets_alone() {
    let src = "def g(k):\n    return k\n\n\ndef f(x):\n    return g((x, 1))\n";
    let out = parse("m.py", src).unwrap();
    assert_eq!(symbol(&out, "f").sites, vec![("g".to_string(), 6, "(x, 1)".to_string())]);
}

#[test]
fn words_are_told_apart_as_python_does() {
    let out = parse("m.py", "def f():\n    \"\"\"one\u{1f}two\u{a0}\u{2003}three\"\"\"\n").unwrap();
    assert_eq!(symbol(&out, "f").doc, "one two three");
}

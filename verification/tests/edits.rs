use blast::edit::{apply, apply_all, Applied};
use blast::engine::parse;
use blast::json::Json;
use blast::ops::{parse_op, parse_ops};

fn text(s: &str) -> Json {
    Json::Text(s.to_string())
}

fn object(entries: Vec<(&str, Json)>) -> Json {
    let mut members: Vec<(String, Json)> =
        entries.into_iter().map(|(key, value)| (key.to_string(), value)).collect();
    members.sort_by(|a, b| a.0.cmp(&b.0));
    Json::Object(members)
}

fn files(entries: &[(&str, &str)]) -> Vec<(String, String)> {
    let mut out: Vec<(String, String)> =
        entries.iter().map(|(p, c)| (p.to_string(), c.to_string())).collect();
    out.sort();
    out
}

fn has(applied: &Applied, path: &str) -> bool {
    applied.files.iter().any(|(p, _)| p == path)
}

fn file<'a>(applied: &'a Applied, path: &str) -> &'a str {
    let found = applied.files.iter().find(|(p, _)| p == path);
    found.map(|(_, content)| content.as_str()).unwrap()
}

#[test]
fn add_param_lands_on_the_definition_and_every_call_site() {
    let src = files(&[
        ("core/mod0.py", "FACTOR = 1.1\n\n\ndef compute(x):\n    return x * FACTOR\n"),
        ("services/svc0.py", "from core.mod0 import compute\n\n\ndef serve(x):\n    return compute(x) + 1\n\n\ndef twice(x):\n    return compute(x, ) if False else compute(x=x)\n"),
        ("README.md", "compute(x) is not code\n"),
    ]);
    let op = parse_op(&object(vec![("op", text("add_param")), ("path", text("core/mod0.py")), ("symbol", text("compute")), ("name", text("region")), ("call_arg", text("region"))])).unwrap();
    let out = apply(&op, &src).unwrap();
    assert_eq!(file(&out, "core/mod0.py"), "FACTOR = 1.1\n\n\ndef compute(x, region):\n    return x * FACTOR\n");
    let svc = file(&out, "services/svc0.py");
    assert!(svc.contains("return compute(x, region) + 1"), "{svc}");
    assert!(svc.contains("compute(x=x, region=region)"), "a keyworded call gets a keyword: {svc}");
    assert_eq!(out.call_sites.len(), 3);
    assert!(!has(&out, "README.md"));
}

#[test]
fn add_param_without_call_arg_lists_the_call_sites_instead_of_guessing() {
    let src = files(&[
        ("a.py", "def f(a, *args, **kw):\n    return a\n"),
        ("b.py", "from a import f\nf(1)\n"),
    ]);
    let op = parse_op(&object(vec![("op", text("add_param")), ("path", text("a.py")), ("symbol", text("f")), ("name", text("n")), ("type", text("int")), ("default", text("3"))])).unwrap();
    let out = apply(&op, &src).unwrap();
    assert_eq!(file(&out, "a.py"), "def f(a, n: int = 3, *args, **kw):\n    return a\n");
    assert!(!has(&out, "b.py"));
    assert_eq!(out.unchanged_call_sites, vec![("b.py".to_string(), 2)]);
}

#[test]
fn remove_param_takes_the_argument_out_of_every_call() {
    let src = files(&[
        ("a.py", "def f(a, region, b=2):\n    return a\n"),
        ("b.py", "from a import f\nf(1, 'eu')\nf(1, region='eu', b=3)\n"),
    ]);
    let op = parse_op(&object(vec![("op", text("remove_param")), ("path", text("a.py")), ("symbol", text("f")), ("name", text("region"))])).unwrap();
    let out = apply(&op, &src).unwrap();
    assert_eq!(file(&out, "a.py"), "def f(a, b=2):\n    return a\n");
    assert_eq!(file(&out, "b.py"), "from a import f\nf(1)\nf(1, b=3)\n");
}

#[test]
fn rename_touches_identifiers_not_strings() {
    let src = files(&[
        ("a.py", "def helper(x):\n    return x  # helper\n"),
        ("b.py", "from a import helper\nprint('helper', helper(1))\n"),
    ]);
    let op = parse_op(&object(vec![("op", text("rename")), ("symbol", text("helper")), ("new_name", text("scale"))])).unwrap();
    let out = apply(&op, &src).unwrap();
    assert_eq!(file(&out, "a.py"), "def scale(x):\n    return x  # helper\n");
    assert_eq!(file(&out, "b.py"), "from a import scale\nprint('helper', scale(1))\n");
}

#[test]
fn typescript_gets_the_same_treatment() {
    let src = files(&[
        ("lib.ts", "export function compute(x: number): number {\n  return x * 2;\n}\n"),
        ("app.ts", "import { compute } from './lib';\nexport const v = compute(3);\n"),
    ]);
    let op = parse_op(&object(vec![("op", text("add_param")), ("path", text("lib.ts")), ("symbol", text("compute")), ("name", text("region")), ("type", text("string")), ("call_arg", text("region"))])).unwrap();
    let out = apply(&op, &src).unwrap();
    assert!(file(&out, "lib.ts").contains("function compute(x: number, region: string): number"), "{}", file(&out, "lib.ts"));
    assert!(file(&out, "app.ts").contains("compute(3, region)"), "{}", file(&out, "app.ts"));
}

#[test]
fn pass_arg_reaches_only_the_callers_under_the_given_prefixes() {
    let src = files(&[
        ("services/svc0.py", "def serve(x, region):\n    return x\n"),
        ("handlers/h0.py", "from services.svc0 import serve\n\n\ndef handle(payload):\n    return serve(payload['x'])\n"),
        ("jobs/job0.py", "import settings\nfrom services.svc0 import serve\n\n\ndef run(x):\n    return serve(x) * 2\n"),
    ]);
    let op = parse_op(&object(vec![("op", text("pass_arg")), ("path", text("services/svc0.py")), ("symbol", text("serve")), ("arg", text("payload['region']")), ("in", Json::List(vec![text("handlers/")]))])).unwrap();
    let out = apply(&op, &src).unwrap();
    assert!(file(&out, "handlers/h0.py").contains("serve(payload['x'], payload['region'])"));
    assert!(!has(&out, "jobs/job0.py"));
    let op = parse_op(&object(vec![("op", text("pass_arg")), ("path", text("services/svc0.py")), ("symbol", text("serve")), ("arg", text("settings.REGION")), ("in", Json::List(vec![text("jobs/")]))])).unwrap();
    let out = apply(&op, &src).unwrap();
    assert!(file(&out, "jobs/job0.py").contains("serve(x, settings.REGION) * 2"));
}

#[test]
fn call_sites_are_found_through_import_aliases_and_only_from_the_right_module() {
    let src = files(&[
        ("services/svc0.py", "def serve(x):\n    return x\n"),
        ("services/svc32.py", "def serve(x):\n    return -x\n"),
        ("handlers/h0.py", "from services.svc0 import serve as serve_a\nfrom services.svc32 import serve as serve_b\n\n\ndef handle(payload):\n    return serve_a(payload['x']) + serve_b(payload['x'])\n"),
        ("jobs/job0.py", "import services.svc0 as s0\n\n\ndef run(x):\n    return s0.serve(x)\n"),
        ("pkg/inner.py", "from .svc0 import serve\n\ndef f(x):\n    return serve(x)\n"),
    ]);
    let op = parse_op(&object(vec![("op", text("pass_arg")), ("path", text("services/svc0.py")), ("symbol", text("serve")), ("arg", text("region"))])).unwrap();
    let out = apply(&op, &src).unwrap();
    assert_eq!(file(&out, "handlers/h0.py"), "from services.svc0 import serve as serve_a\nfrom services.svc32 import serve as serve_b\n\n\ndef handle(payload):\n    return serve_a(payload['x'], region) + serve_b(payload['x'])\n");
    assert!(file(&out, "jobs/job0.py").contains("s0.serve(x, region)"), "{}", file(&out, "jobs/job0.py"));
    assert!(!has(&out, "pkg/inner.py"), "pkg/.svc0 is not services/svc0");
    assert!(!has(&out, "services/svc32.py"));
}

#[test]
fn typescript_relative_specifiers_resolve_against_the_importing_file() {
    let src = files(&[
        ("src/lib/math.ts", "export function compute(x: number) {\n  return x;\n}\n"),
        ("src/app.ts", "import { compute as c } from './lib/math';\nexport const v = c(3);\n"),
        ("src/other/use.ts", "import { compute } from '../lib/math';\nexport const w = compute(4);\n"),
        ("src/decoy.ts", "import { compute } from './lib/other';\nexport const z = compute(5);\n"),
    ]);
    let op = parse_op(&object(vec![("op", text("pass_arg")), ("path", text("src/lib/math.ts")), ("symbol", text("compute")), ("arg", text("region"))])).unwrap();
    let out = apply(&op, &src).unwrap();
    assert!(file(&out, "src/app.ts").contains("c(3, region)"));
    assert!(file(&out, "src/other/use.ts").contains("compute(4, region)"));
    assert!(!has(&out, "src/decoy.ts"));
}

#[test]
fn a_batch_applies_in_order_and_refuses_as_a_whole() {
    let src = files(&[
        ("core/mod0.py", "F = 1


def compute(x):
    return x * F
"),
        ("services/svc0.py", "from core.mod0 import compute


def serve(x):
    return compute(x) + 1
"),
        ("handlers/h0.py", "from services.svc0 import serve as serve_a


def handle(payload):
    return serve_a(payload['x'])
"),
        ("jobs/job0.py", "import settings
from services.svc0 import serve


def run(x):
    return serve(x)
"),
    ]);
    let ops = parse_ops(&Json::List(vec![object(vec![("op", text("add_param")), ("path", text("core/mod0.py")), ("symbol", text("compute")), ("name", text("region")), ("call_arg", text("region"))]), object(vec![("op", text("add_param")), ("path", text("services/svc0.py")), ("symbol", text("serve")), ("name", text("region"))]), object(vec![("op", text("pass_arg")), ("path", text("services/svc0.py")), ("symbol", text("serve")), ("arg", text("payload['region']")), ("in", Json::List(vec![text("handlers/")]))]), object(vec![("op", text("pass_arg")), ("path", text("services/svc0.py")), ("symbol", text("serve")), ("arg", text("settings.REGION")), ("in", Json::List(vec![text("jobs/")]))])])).unwrap();
    let out = apply_all(&ops, &src).unwrap();
    assert_eq!(out.files.len(), 4, "{:?}", out.files);
    assert!(file(&out, "services/svc0.py").contains("def serve(x, region):
    return compute(x, region) + 1"), "{}", file(&out, "services/svc0.py"));
    assert!(file(&out, "handlers/h0.py").contains("serve_a(payload['x'], payload['region'])"));
    assert!(file(&out, "jobs/job0.py").contains("serve(x, settings.REGION)"));
    // one bad op in the middle refuses everything: nothing to write
    let bad = parse_ops(&Json::List(vec![object(vec![("op", text("add_param")), ("path", text("core/mod0.py")), ("symbol", text("compute")), ("name", text("region"))]), object(vec![("op", text("add_param")), ("path", text("core/mod0.py")), ("symbol", text("nope")), ("name", text("x"))])])).unwrap();
    let err = apply_all(&bad, &src).unwrap_err();
    assert!(err.starts_with("op 2 (add_param) refused"), "{err}");
}

#[test]
fn the_parser_keeps_the_facts_an_agent_reads_a_file_for() {
    let src = "import settings\nfrom services.svc0 import serve as serve_a\n\n\n@cached\ndef handle(payload, retries=3):\n    \"\"\"doc\"\"\"\n    return serve_a(payload['x'], retries) + settings.RETRIES\n";
    let parsed = parse("handlers/h0.py", src).unwrap();
    let handle = parsed.symbols.iter().find(|s| s.name == "handle").unwrap();
    assert_eq!(handle.span, (5, 8), "decorator included, 1-based");
    assert_eq!(handle.params, vec!["payload", "retries"]);
    assert_eq!(handle.sites, vec![("serve_a".to_string(), 8, "payload['x'], retries".to_string())]);
}

#[test]
fn other_languages_are_refused_not_guessed() {
    let src = files(&[("main.go", "func compute(x int) int { return x }\n")]);
    let op = parse_op(&object(vec![("op", text("add_param")), ("path", text("main.go")), ("symbol", text("compute")), ("name", text("r"))])).unwrap();
    assert!(apply(&op, &src).unwrap_err().contains("not supported"));
}

#[test]
fn replace_body_keeps_the_signature_and_indentation_in_python() {
    let src = files(&[("core/mod0.py", "FACTOR = 1.1\n\n\ndef compute(x):\n    \"\"\"Apply rule 0.\"\"\"\n    return x * FACTOR\n\n\ndef describe():\n    return \"rule 0\"\n")]);
    let op = parse_op(&object(vec![("op", text("replace_body")), ("path", text("core/mod0.py")), ("symbol", text("compute")), ("body", text("\"\"\"Apply rule 0, doubled in Europe.\"\"\"\nif region.startswith('eu'):\n    return x * FACTOR * 2\nreturn x * FACTOR"))])).unwrap();
    let out = apply(&op, &src).unwrap();
    assert_eq!(file(&out, "core/mod0.py"), "FACTOR = 1.1\n\n\ndef compute(x):\n    \"\"\"Apply rule 0, doubled in Europe.\"\"\"\n    if region.startswith('eu'):\n        return x * FACTOR * 2\n    return x * FACTOR\n\n\ndef describe():\n    return \"rule 0\"\n");
    assert!(out.notes[0].starts_with("replaced the body of compute"));
}

#[test]
fn replace_body_follows_a_methods_indentation_and_a_brace_block() {
    let src = files(&[("svc.py", "class Svc:\n    def serve(self, x):\n        return x\n\n    def other(self):\n        return 1\n")]);
    let op = parse_op(&object(vec![("op", text("replace_body")), ("path", text("svc.py")), ("symbol", text("serve")), ("body", text("y = x * 2\nreturn y"))])).unwrap();
    let out = apply(&op, &src).unwrap();
    assert_eq!(file(&out, "svc.py"), "class Svc:\n    def serve(self, x):\n        y = x * 2\n        return y\n\n    def other(self):\n        return 1\n");
    let ts = files(&[("a.ts", "export function f(x: number) {\n  return x;\n}\n\nfunction g() {\n  return 2;\n}\n")]);
    let op = parse_op(&object(vec![("op", text("replace_body")), ("path", text("a.ts")), ("symbol", text("f")), ("body", text("const y = x * 2;\nreturn y;"))])).unwrap();
    let out = apply(&op, &ts).unwrap();
    assert_eq!(file(&out, "a.ts"), "export function f(x: number) {\n  const y = x * 2;\n  return y;\n}\n\nfunction g() {\n  return 2;\n}\n");
    assert!(apply(&parse_op(&object(vec![("op", text("replace_body")), ("path", text("a.ts")), ("symbol", text("nope")), ("body", text("return 1;"))])).unwrap(), &ts).is_err());
}

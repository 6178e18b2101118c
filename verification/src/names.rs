//! What a declaration is called, what kind it is, and how its head reads.
use vstd::prelude::*;
use crate::tree;
use crate::text;
use crate::langs;
use crate::kinds;
use crate::langs::{LangSpec, LangText, NameStyle, SigStyle};
use crate::tree::{NodeText, Source, SyntaxTree};

verus! {

// -------------------------------------------------------- the declaration

/// The declaration inside what wraps it: a decorator, an export, a template.
pub open spec fn unwrapped(t: Seq<NodeText>, i: int, names: NameStyle) -> int {
    let inner = if names == NameStyle::Python && t[i].kind == "decorated_definition"@ {
        tree::field(t, i, "definition"@)
    } else if names == NameStyle::TsLike && t[i].kind == "export_statement"@ {
        tree::field(t, i, "declaration"@)
    } else if names == NameStyle::CLike && t[i].kind == "template_declaration"@ {
        tree::first_kid(t, i, |k: Seq<char>| kinds::templated_kind(k))
    } else {
        None
    };
    match inner {
        Some(k) => k,
        None => i,
    }
}

/// The declaration inside what wraps it.
pub fn unwrap(t: &SyntaxTree, i: usize, spec: &LangSpec) -> (r: usize)
    requires
        i < t@.len(),
    ensures
        r == unwrapped(t@, i as int, spec@.names),
        i <= r < t@.len(),
{
    let kind = t.nodes[i].kind;
    let inner = if spec.names == NameStyle::Python && text::same(kind, "decorated_definition") {
        t.field(i, "definition")
    } else if spec.names == NameStyle::TsLike && text::same(kind, "export_statement") {
        t.field(i, "declaration")
    } else if spec.names == NameStyle::CLike && text::same(kind, "template_declaration") {
        t.first_kid(i, kinds::is_templated_kind, Ghost(|k: Seq<char>| kinds::templated_kind(k)))
    } else {
        None
    };
    match inner {
        Some(k) => k,
        None => i,
    }
}

// ---------------------------------------------------------------- its name

/// Does a node of this kind lead on to what a declarator names?
pub open spec fn declarator_kind(k: Seq<char>) -> bool {
    text::has_suffix(k, "declarator"@) || k == "identifier"@ || k == "qualified_identifier"@
}

/// Does a node of this kind lead on to what a declarator names?
fn is_declarator_kind(k: &str) -> (r: bool)
    ensures
        r == declarator_kind(k@),
{
    text::ends_with(k, "declarator") || text::same(k, "identifier") || text::same(k, "qualified_identifier")
}

/// What a chain of at most `n` declarators names.
pub open spec fn declared_name(t: Seq<NodeText>, s: Seq<char>, at: Option<int>, n: nat) -> Option<
    Seq<char>,
>
    decreases n,
{
    if n == 0 {
        None
    } else {
        match at {
            None => None,
            Some(i) => if kinds::clike_name_kind(t[i].kind) {
                Some(tree::node_text(s, t[i]))
            } else {
                declared_name(
                    t,
                    s,
                    tree::either(
                        tree::field(t, i, "declarator"@),
                        tree::first_kid(t, i, |k: Seq<char>| declarator_kind(k)),
                    ),
                    (n - 1) as nat,
                )
            },
        }
    }
}

/// What a chain of at most twelve declarators names.
fn declarator_name(t: &SyntaxTree, src: &Source, i: usize) -> (r: Option<String>)
    requires
        i < t@.len(),
        src.valid(),
    ensures
        text::opt_text(r) == declared_name(t@, src@, Some(i as int), 12),
{
    let mut at: usize = i;
    let mut left: u32 = 12;
    while left > 0
        invariant
            left <= 12,
            at < t@.len(),
            src.valid(),
            declared_name(t@, src@, Some(i as int), 12) == declared_name(
                t@,
                src@,
                Some(at as int),
                left as nat,
            ),
        decreases left,
    {
        if kinds::is_clike_name_kind(t.nodes[at].kind) {
            return Some(t.text(at, src));
        }
        let next = match t.field(at, "declarator") {
            Some(k) => Some(k),
            None => t.first_kid(at, is_declarator_kind, Ghost(|k: Seq<char>| declarator_kind(k))),
        };
        left -= 1;
        match next {
            Some(k) => {
                at = k;
            },
            None => {
                return None;
            },
        }
    }
    None
}

/// The first type identifier at a node or below it, the later children first.
pub open spec fn last_type(t: Seq<NodeText>, i: int) -> Option<int>
    decreases t.len() - i, tree::named_kids(t, i).len() + 2,
{
    if i < 0 || i >= t.len() {
        None
    } else if t[i].kind == "type_identifier"@ {
        Some(i)
    } else {
        last_type_among(t, i, tree::named_kids(t, i).len())
    }
}

/// The first type identifier at or below the first `n` children of a node,
/// the later ones first.
pub open spec fn last_type_among(t: Seq<NodeText>, i: int, n: nat) -> Option<int>
    decreases t.len() - i, n + 1,
{
    if n == 0 || i < 0 || i >= t.len() || n > tree::named_kids(t, i).len() {
        None
    } else {
        proof {
            tree::lemma_kids(t, i);
        }
        let k = tree::named_kids(t, i)[n - 1];
        if i < k {
            tree::either(last_type(t, k), last_type_among(t, i, (n - 1) as nat))
        } else {
            None
        }
    }
}

/// The first type identifier at a node or below it, the later children first.
fn find_type(t: &SyntaxTree, i: usize) -> (r: Option<usize>)
    requires
        i < t@.len(),
    ensures
        tree::opt_int(r) == last_type(t@, i as int),
        r is Some ==> r->0 < t@.len(),
    decreases t@.len() - i,
{
    if text::same(t.nodes[i].kind, "type_identifier") {
        return Some(i);
    }
    let list = t.named_children(i);
    let mut n: usize = list.len();
    while n > 0
        invariant
            i < t@.len(),
            n <= list.len(),
            tree::ints(list@) == tree::named_kids(t@, i as int),
            forall|a: int| 0 <= a < list@.len() ==> i < #[trigger] list@[a] < t@.len(),
            last_type(t@, i as int) == last_type_among(t@, i as int, n as nat),
        decreases n,
    {
        assert(tree::named_kids(t@, i as int)[n - 1] == list@[n - 1]);
        let found = find_type(t, list[n - 1]);
        if found.is_some() {
            return found;
        }
        n -= 1;
    }
    None
}

/// The type that the first typed declaration among the first `n` names; the
/// search goes on where one names none.
pub open spec fn receiver_from(t: Seq<NodeText>, s: Seq<char>, list: Seq<int>, k: nat) -> Seq<char>
    decreases list.len() - k,
{
    if k >= list.len() {
        text::no_text()
    } else {
        match tree::field(t, list[k as int], "type"@) {
            Some(typ) => match last_type(t, typ) {
                Some(found) => tree::node_text(s, t[found]),
                None => receiver_from(t, s, list, k + 1),
            },
            None => receiver_from(t, s, list, k + 1),
        }
    }
}

/// The type that a method is declared on.
pub open spec fn receiver(t: Seq<NodeText>, s: Seq<char>, i: int) -> Seq<char> {
    match tree::either(
        tree::field(t, i, "receiver"@),
        tree::first_kid(t, i, |k: Seq<char>| k == "parameter_list"@),
    ) {
        Some(params) => receiver_from(t, s, tree::named_kids(t, params), 0),
        None => text::no_text(),
    }
}

/// Is this the kind of a parameter list?
fn is_parameter_list(k: &str) -> (r: bool)
    ensures
        r == (k@ == "parameter_list"@),
{
    text::same(k, "parameter_list")
}

/// The type that a method is declared on.
fn go_receiver_type(t: &SyntaxTree, src: &Source, i: usize) -> (r: String)
    requires
        i < t@.len(),
        src.valid(),
    ensures
        r@ == receiver(t@, src@, i as int),
{
    let params = match t.field(i, "receiver") {
        Some(k) => Some(k),
        None => t.first_kid(
            i,
            is_parameter_list,
            Ghost(|k: Seq<char>| k == "parameter_list"@),
        ),
    };
    match params {
        None => String::new(),
        Some(params) => {
            let list = t.named_children(params);
            let ghost all = tree::named_kids(t@, params as int);
            let mut k: usize = 0;
            while k < list.len()
                invariant
                    k <= list.len(),
                    src.valid(),
                    tree::ints(list@) == all,
                    forall|a: int|
                        0 <= a < list@.len() ==> params < #[trigger] list@[a] < t@.len(),
                    receiver(t@, src@, i as int) == receiver_from(t@, src@, all, k as nat),
                decreases list.len() - k,
            {
                assert(all[k as int] == list@[k as int]);
                match t.field(list[k], "type") {
                    Some(typ) => match find_type(t, typ) {
                        Some(found) => {
                            return t.text(found, src);
                        },
                        None => {},
                    },
                    None => {},
                }
                k += 1;
            }
            String::new()
        },
    }
}

/// The name of the first of the nodes from the `k`th on that declares a
/// variable under one.
pub open spec fn variable_from(t: Seq<NodeText>, s: Seq<char>, list: Seq<int>, k: nat) -> Option<
    Seq<char>,
>
    decreases list.len() - k,
{
    if k >= list.len() {
        None
    } else if t[list[k as int]].kind == "variable_declarator"@ && tree::field(
        t,
        list[k as int],
        "name"@,
    ) is Some {
        tree::opt_node_text(s, t, tree::field(t, list[k as int], "name"@))
    } else {
        variable_from(t, s, list, k + 1)
    }
}

/// The name of the first variable that a declaration of variables declares.
fn variable_name(t: &SyntaxTree, src: &Source, i: usize) -> (r: Option<String>)
    requires
        i < t@.len(),
        src.valid(),
    ensures
        text::opt_text(r) == variable_from(t@, src@, tree::named_kids(t@, i as int), 0),
{
    let list = t.named_children(i);
    let ghost all = tree::named_kids(t@, i as int);
    let mut k: usize = 0;
    while k < list.len()
        invariant
            k <= list.len(),
            src.valid(),
            tree::ints(list@) == all,
            forall|a: int| 0 <= a < list@.len() ==> i < #[trigger] list@[a] < t@.len(),
            all == tree::named_kids(t@, i as int),
            variable_from(t@, src@, all, 0) == variable_from(t@, src@, all, k as nat),
        decreases list.len() - k,
    {
        assert(all[k as int] == list@[k as int]);
        if text::same(t.nodes[list[k]].kind, "variable_declarator") {
            match t.field(list[k], "name") {
                Some(name) => {
                    return Some(t.text(name, src));
                },
                None => {},
            }
        }
        k += 1;
    }
    None
}

/// The text of the `name` field.
pub open spec fn plain_name(t: Seq<NodeText>, s: Seq<char>, i: int) -> Option<Seq<char>> {
    tree::opt_node_text(s, t, tree::field(t, i, "name"@))
}

/// The text of the `name` field.
fn field_name(t: &SyntaxTree, src: &Source, i: usize) -> (r: Option<String>)
    requires
        i < t@.len(),
        src.valid(),
    ensures
        text::opt_text(r) == plain_name(t@, src@, i as int),
{
    match t.field(i, "name") {
        Some(k) => Some(t.text(k, src)),
        None => None,
    }
}

/// A Go name: a method's has its type before it.
pub open spec fn go_name(t: Seq<NodeText>, s: Seq<char>, i: int) -> Option<Seq<char>> {
    match plain_name(t, s, i) {
        None => None,
        Some(name) => if t[i].kind == "method_declaration"@ && receiver(t, s, i).len() > 0 {
            Some(receiver(t, s, i) + "."@ + name)
        } else {
            Some(name)
        },
    }
}

/// A Rust name: an implementation's says of what, and for what.
pub open spec fn rust_name(t: Seq<NodeText>, s: Seq<char>, i: int) -> Option<Seq<char>> {
    if t[i].kind == "impl_item"@ {
        match tree::field(t, i, "type"@) {
            None => None,
            Some(typ) => match tree::field(t, i, "trait"@) {
                Some(tr) => Some(
                    "impl "@ + tree::node_text(s, t[tr]) + " for "@ + tree::node_text(s, t[typ]),
                ),
                None => Some("impl "@ + tree::node_text(s, t[typ])),
            },
        }
    } else {
        plain_name(t, s, i)
    }
}

/// Is this the kind of a type that only its body declares?
pub open spec fn bodied_kind(k: Seq<char>) -> bool {
    ||| k == "struct_specifier"@
    ||| k == "union_specifier"@
    ||| k == "enum_specifier"@
    ||| k == "class_specifier"@
}

/// The declarator that a declaration starts from; behind a variable's initial
/// value stands the one that names it.
pub open spec fn declarator(t: Seq<NodeText>, i: int) -> Option<int> {
    match tree::field(t, i, "declarator"@) {
        None => None,
        Some(d) => if t[i].kind == "declaration"@ && t[d].kind == "init_declarator"@ {
            tree::either(tree::field(t, d, "declarator"@), Some(d))
        } else {
            Some(d)
        },
    }
}

/// A C or C++ name.
pub open spec fn clike_name(t: Seq<NodeText>, s: Seq<char>, i: int) -> Option<Seq<char>> {
    let k = t[i].kind;
    if bodied_kind(k) {
        if tree::field(t, i, "body"@) is Some {
            plain_name(t, s, i)
        } else {
            None
        }
    } else if k == "alias_declaration"@ || k == "concept_definition"@ {
        plain_name(t, s, i)
    } else if k == "type_definition"@ {
        match tree::field(t, i, "declarator"@) {
            Some(d) => declared_name(t, s, Some(d), 12),
            None => None,
        }
    } else if k == "function_definition"@ || k == "declaration"@ {
        match declarator(t, i) {
            Some(d) => declared_name(t, s, Some(d), 12),
            None => None,
        }
    } else {
        None
    }
}

/// What a declaration is called.
pub open spec fn declaration_name(t: Seq<NodeText>, s: Seq<char>, i: int, names: NameStyle) -> Option<
    Seq<char>,
> {
    let inner = unwrapped(t, i, names);
    match names {
        NameStyle::Python | NameStyle::Field => plain_name(t, s, inner),
        NameStyle::TsLike => if kinds::variables_kind(t[inner].kind) {
            variable_from(t, s, tree::named_kids(t, inner), 0)
        } else {
            plain_name(t, s, inner)
        },
        NameStyle::Go => go_name(t, s, inner),
        NameStyle::Rust => rust_name(t, s, inner),
        NameStyle::CLike => clike_name(t, s, inner),
    }
}

/// A Go name.
fn name_in_go(t: &SyntaxTree, src: &Source, i: usize) -> (r: Option<String>)
    requires
        i < t@.len(),
        src.valid(),
    ensures
        text::opt_text(r) == go_name(t@, src@, i as int),
{
    match field_name(t, src, i) {
        None => None,
        Some(name) => {
            if text::same(t.nodes[i].kind, "method_declaration") {
                let recv = go_receiver_type(t, src, i);
                let none = String::new();
                proof {
                    assert(recv@.len() == 0 ==> recv@ =~= none@);
                }
                if !text::same(recv.as_str(), none.as_str()) {
                    return Some(text::cat3(recv.as_str(), ".", name.as_str()));
                }
            }
            Some(name)
        },
    }
}

/// A Rust name.
fn name_in_rust(t: &SyntaxTree, src: &Source, i: usize) -> (r: Option<String>)
    requires
        i < t@.len(),
        src.valid(),
    ensures
        text::opt_text(r) == rust_name(t@, src@, i as int),
{
    if text::same(t.nodes[i].kind, "impl_item") {
        match t.field(i, "type") {
            None => None,
            Some(typ) => {
                let base = t.text(typ, src);
                match t.field(i, "trait") {
                    Some(tr) => {
                        let name = t.text(tr, src);
                        Some(text::cat4("impl ", name.as_str(), " for ", base.as_str()))
                    },
                    None => Some(text::cat2("impl ", base.as_str())),
                }
            },
        }
    } else {
        field_name(t, src, i)
    }
}

/// A C or C++ name.
fn name_in_c(t: &SyntaxTree, src: &Source, i: usize) -> (r: Option<String>)
    requires
        i < t@.len(),
        src.valid(),
    ensures
        text::opt_text(r) == clike_name(t@, src@, i as int),
{
    let kind = t.nodes[i].kind;
    if text::same(kind, "struct_specifier") || text::same(kind, "union_specifier") || text::same(
        kind,
        "enum_specifier",
    ) || text::same(kind, "class_specifier") {
        if t.field(i, "body").is_some() {
            field_name(t, src, i)
        } else {
            None
        }
    } else if text::same(kind, "alias_declaration") || text::same(kind, "concept_definition") {
        field_name(t, src, i)
    } else if text::same(kind, "type_definition") {
        match t.field(i, "declarator") {
            Some(d) => declarator_name(t, src, d),
            None => None,
        }
    } else if text::same(kind, "function_definition") || text::same(kind, "declaration") {
        match t.field(i, "declarator") {
            None => None,
            Some(d) => {
                if text::same(kind, "declaration") && text::same(t.nodes[d].kind, "init_declarator") {
                    match t.field(d, "declarator") {
                        Some(inner) => declarator_name(t, src, inner),
                        None => declarator_name(t, src, d),
                    }
                } else {
                    declarator_name(t, src, d)
                }
            },
        }
    } else {
        None
    }
}

/// What a declaration is called.
pub fn name_of(t: &SyntaxTree, src: &Source, i: usize, spec: &LangSpec) -> (r: Option<String>)
    requires
        i < t@.len(),
        src.valid(),
    ensures
        text::opt_text(r) == declaration_name(t@, src@, i as int, spec@.names),
{
    let inner = unwrap(t, i, spec);
    match spec.names {
        NameStyle::Python | NameStyle::Field => field_name(t, src, inner),
        NameStyle::TsLike => if kinds::is_variables_kind(t.nodes[inner].kind) {
            variable_name(t, src, inner)
        } else {
            field_name(t, src, inner)
        },
        NameStyle::Go => name_in_go(t, src, inner),
        NameStyle::Rust => name_in_rust(t, src, inner),
        NameStyle::CLike => name_in_c(t, src, inner),
    }
}

// ---------------------------------------------------------------- its kind

/// Go refines a type into struct, interface and plain type.
pub open spec fn refined_kind(t: Seq<NodeText>, i: int, names: NameStyle) -> Option<Seq<char>> {
    if names != NameStyle::Go || t[i].kind != "type_spec"@ {
        None
    } else {
        match tree::field(t, i, "type"@) {
            Some(k) => if t[k].kind == "struct_type"@ {
                Some("struct"@)
            } else if t[k].kind == "interface_type"@ {
                Some("interface"@)
            } else {
                Some("type"@)
            },
            None => Some("type"@),
        }
    }
}

/// Go refines a type into struct, interface and plain type.
fn kind_override(t: &SyntaxTree, i: usize, spec: &LangSpec) -> (r: Option<&'static str>)
    requires
        i < t@.len(),
    ensures
        langs::opt_str(r) == refined_kind(t@, i as int, spec@.names),
{
    if spec.names != NameStyle::Go || !text::same(t.nodes[i].kind, "type_spec") {
        None
    } else {
        match t.field(i, "type") {
            Some(k) => if text::same(t.nodes[k].kind, "struct_type") {
                Some("struct")
            } else if text::same(t.nodes[k].kind, "interface_type") {
                Some("interface")
            } else {
                Some("type")
            },
            None => Some("type"),
        }
    }
}

/// What kind of declaration a node is, if it is one.
pub open spec fn declared_kind(t: Seq<NodeText>, i: int, l: LangText) -> Option<Seq<char>> {
    let inner = unwrapped(t, i, l.names);
    let own = langs::paired_from(l.decls, t[i].kind, 0);
    let held = langs::paired_from(l.decls, t[inner].kind, 0);
    if own is None && held is None {
        None
    } else if refined_kind(t, inner, l.names) is Some {
        refined_kind(t, inner, l.names)
    } else if held is Some {
        held
    } else {
        own
    }
}

/// What kind of declaration a node is, if it is one.
pub fn kind_of(t: &SyntaxTree, i: usize, spec: &LangSpec) -> (r: Option<&'static str>)
    requires
        i < t@.len(),
    ensures
        langs::opt_str(r) == declared_kind(t@, i as int, spec@),
{
    let inner = unwrap(t, i, spec);
    let own = spec.kind_of(t.nodes[i].kind);
    let held = spec.kind_of(t.nodes[inner].kind);
    if own.is_none() && held.is_none() {
        return None;
    }
    let refined = kind_override(t, inner, spec);
    if refined.is_some() {
        refined
    } else if held.is_some() {
        held
    } else {
        own
    }
}

// ---------------------------------------------------------------- its head

/// Where the head of a declaration ends: before its body, or where it ends
/// itself.
pub open spec fn head_end(t: Seq<NodeText>, i: int, body: Option<int>) -> nat {
    match body {
        Some(b) => t[b].start,
        None => t[i].end,
    }
}

/// The head of a declaration on one line, shed of what `set` holds at its end.
pub open spec fn head_text(s: Seq<char>, from: nat, to: nat, limit: Option<nat>, set: Seq<char>) -> Seq<
    char,
> {
    let line = text::collapsed(tree::text_between(s, from, to));
    text::trimmed(
        text::shed_end(
            match limit {
                Some(n) => text::first_chars(line, n),
                None => line,
            },
            set,
        ),
    )
}

/// How the head of a declaration reads.
pub open spec fn signature(t: Seq<NodeText>, s: Seq<char>, i: int, l: LangText) -> Seq<char> {
    let inner = unwrapped(t, i, l.names);
    match l.sig {
        SigStyle::Python => head_text(
            s,
            t[inner].start,
            head_end(t, inner, tree::field(t, inner, "body"@)),
            None,
            ":"@,
        ),
        SigStyle::TsLike => head_text(
            s,
            t[inner].start,
            head_end(t, inner, tree::field(t, inner, "body"@)),
            Some(200),
            "{="@,
        ),
        SigStyle::Generic => head_text(
            s,
            t[i].start,
            head_end(
                t,
                i,
                tree::either(tree::field(t, i, "body"@), tree::first_kid(t, i, |k: Seq<char>| kinds::body_kind(k))),
            ),
            Some(200),
            "{=:;"@,
        ),
    }
}

/// The head of a declaration on one line, shed of what `set` holds at its end.
fn head(src: &Source, from: usize, to: usize, limit: Option<usize>, set: &str) -> (r: String)
    requires
        src.valid(),
    ensures
        r@ == head_text(
            src@,
            from as nat,
            to as nat,
            match limit {
                Some(n) => Some(n as nat),
                None => None,
            },
            set@,
        ),
{
    let raw = src.slice(from, to);
    let line = text::collapse(raw.as_str());
    let line = match limit {
        Some(n) => text::take_chars(line.as_str(), n),
        None => line,
    };
    let shed = text::trim_end_set(line.as_str(), set);
    text::trim(shed.as_str())
}

/// How the head of a declaration reads.
pub fn signature_of(t: &SyntaxTree, src: &Source, i: usize, spec: &LangSpec) -> (r: String)
    requires
        i < t@.len(),
        src.valid(),
    ensures
        r@ == signature(t@, src@, i as int, spec@),
{
    match spec.sig {
        SigStyle::Generic => {
            let body = match t.field(i, "body") {
                Some(b) => Some(b),
                None => t.first_kid(i, kinds::is_body_kind, Ghost(|k: Seq<char>| kinds::body_kind(k))),
            };
            let to = match body {
                Some(b) => t.nodes[b].start,
                None => t.nodes[i].end,
            };
            head(src, t.nodes[i].start, to, Some(200), "{=:;")
        },
        _ => {
            let inner = unwrap(t, i, spec);
            let to = match t.field(inner, "body") {
                Some(b) => t.nodes[b].start,
                None => t.nodes[inner].end,
            };
            match spec.sig {
                SigStyle::Python => head(src, t.nodes[inner].start, to, None, ":"),
                _ => head(src, t.nodes[inner].start, to, Some(200), "{="),
            }
        },
    }
}

/// Signatures are capped, but for Python's: no other is longer than 200
/// characters.
pub proof fn law_signatures_are_capped(t: Seq<NodeText>, s: Seq<char>, i: int, l: LangText)
    requires
        l.sig != SigStyle::Python,
    ensures
        signature(t, s, i, l).len() <= 200,
{
    assert forall|from: nat, to: nat, set: Seq<char>|
        (#[trigger] head_text(s, from, to, Some(200nat), set)).len() <= 200 by {
        let line = text::first_chars(text::collapsed(tree::text_between(s, from, to)), 200);
        text::lemma_shed_end_len(line, set, line.len() as int);
        text::lemma_trimmed_len(text::shed_end(line, set));
    }
}

} // verus!

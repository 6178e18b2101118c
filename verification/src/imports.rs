//! What a file brings in from elsewhere, language by language.
use vstd::prelude::*;
use crate::graph;
use crate::tree;
use crate::text;
use crate::names;
use crate::kinds;
use crate::graph::ImportText;
use crate::langs::{ImportStyle, LangSpec, LangText, NameStyle};
use crate::tree::{NodeText, Source, SyntaxTree};

verus! {

/// One import: the module as written, and (local name, name in the module)
/// for everything it brings in.
pub struct Import {
    pub module: String,
    pub names: Vec<(String, String)>,
}

impl View for Import {
    type V = ImportText;

    open spec fn view(&self) -> ImportText {
        ImportText { module: self.module@, names: text::text_pairs(self.names@) }
    }
}

/// The texts of a list of imports.
pub open spec fn imports_text(v: Seq<Import>) -> Seq<ImportText> {
    Seq::new(v.len(), |i: int| v[i]@)
}

/// Adding an import adds its text.
proof fn lemma_imports_push(v: Seq<Import>, x: Import)
    ensures
        imports_text(v.push(x)) == imports_text(v).push(x@),
{
    assert(imports_text(v.push(x)) =~= imports_text(v).push(x@));
}

/// An import of one name.
pub open spec fn one_import(
    module: Seq<char>,
    local: Seq<char>,
    name: Seq<char>,
) -> ImportText {
    ImportText { module, names: seq![(local, name)] }
}

/// An import of everything.
pub open spec fn whole_import(module: Seq<char>) -> ImportText {
    one_import(module, "*"@, "*"@)
}

/// An import of one name.
fn importing(module: String, local: String, name: String) -> (r: Import)
    ensures
        r@ == one_import(module@, local@, name@),
{
    let mut names: Vec<(String, String)> = Vec::new();
    names.push((local, name));
    assert(text::text_pairs(names@) =~= seq![(local@, name@)]);
    Import { module, names }
}

/// An import of everything.
fn importing_all(module: String) -> (r: Import)
    ensures
        r@ == whole_import(module@),
{
    importing(module, "*".to_string(), "*".to_string())
}

/// A list of one import.
fn only(x: Import) -> (r: Vec<Import>)
    ensures
        imports_text(r@) == seq![x@],
{
    let mut v: Vec<Import> = Vec::new();
    v.push(x);
    assert(imports_text(v@) =~= seq![x@]);
    v
}

/// A list of no imports.
fn nothing() -> (r: Vec<Import>)
    ensures
        imports_text(r@) == Seq::<ImportText>::empty(),
{
    let v: Vec<Import> = Vec::new();
    assert(imports_text(v@) =~= Seq::<ImportText>::empty());
    v
}

/// A list of one pair of names.
fn only_pair(local: String, name: String) -> (r: Vec<(String, String)>)
    ensures
        text::text_pairs(r@) == seq![(local@, name@)],
{
    let mut v: Vec<(String, String)> = Vec::new();
    v.push((local, name));
    assert(text::text_pairs(v@) =~= seq![(local@, name@)]);
    v
}

/// What stands before the first dot.
pub open spec fn first_part(s: Seq<char>) -> Seq<char> {
    s.take(text::next_of(s, '.', 0))
}

/// What stands before the first dot.
pub fn before_dot(s: &str) -> (r: String)
    ensures
        r@ == first_part(s@),
{
    let cs = text::chars(s);
    let at = text::next_char(&cs, '.', 0);
    let r = text::piece(&cs, 0, at);
    assert(r@ =~= first_part(s@));
    r
}

/// Do these two characters quote what stands between them?
pub open spec fn quotes(first: char, last: char) -> bool {
    ||| first == last && (first == '"' || first == '\'' || first == '`')
    ||| first == '<' && last == '>'
}

/// A text without the blanks around it, and without its quotes.
pub open spec fn unquoted(s: Seq<char>) -> Seq<char> {
    let x = text::trimmed(s);
    if x.len() >= 2 && quotes(x[0], x[x.len() - 1]) {
        x.subrange(1, x.len() - 1)
    } else {
        x
    }
}

/// A text without the blanks around it, and without its quotes.
pub fn strip_quotes(s: &str) -> (r: String)
    ensures
        r@ == unquoted(s@),
{
    let x = text::trim(s);
    let cs = text::chars(x.as_str());
    if cs.len() >= 2 {
        let first = cs[0];
        let last = cs[cs.len() - 1];
        if (first == last && (first == '"' || first == '\'' || first == '`')) || (first == '<'
            && last == '>') {
            return text::piece(&cs, 1, cs.len() - 1);
        }
    }
    x
}

/// The text of an optional node without its quotes; none has no text.
pub open spec fn unquoted_or_none(s: Seq<char>, t: Seq<NodeText>, o: Option<int>) -> Seq<char> {
    match o {
        Some(i) => unquoted(tree::node_text(s, t[i])),
        None => text::no_text(),
    }
}

/// The text of an optional node without its quotes; none has no text.
fn unquoted_text(t: &SyntaxTree, src: &Source, o: Option<usize>) -> (r: String)
    requires
        src.valid(),
        o is Some ==> o->0 < t@.len(),
    ensures
        r@ == unquoted_or_none(src@, t@, tree::opt_int(o)),
{
    match o {
        Some(i) => {
            let raw = t.text(i, src);
            strip_quotes(raw.as_str())
        },
        None => String::new(),
    }
}

// ------------------------------------------------------------------ Python

/// What one clause of `import a, b as c` brings in.
pub open spec fn python_clause(t: Seq<NodeText>, s: Seq<char>, i: int) -> Seq<ImportText> {
    if t[i].kind == "aliased_import"@ {
        let module = tree::text_or_none(s, t, tree::field(t, i, "name"@));
        let local = match tree::field(t, i, "alias"@) {
            Some(a) => tree::node_text(s, t[a]),
            None => first_part(module),
        };
        seq![one_import(module, local, "*"@)]
    } else if t[i].kind == "dotted_name"@ {
        let module = tree::node_text(s, t[i]);
        seq![one_import(module, first_part(module), "*"@)]
    } else {
        Seq::empty()
    }
}

/// What the first `n` clauses bring in.
pub open spec fn python_clauses(t: Seq<NodeText>, s: Seq<char>, list: Seq<int>, n: nat) -> Seq<
    ImportText,
>
    decreases n,
{
    if n == 0 {
        Seq::empty()
    } else {
        python_clauses(t, s, list, (n - 1) as nat) + python_clause(t, s, list[n - 1])
    }
}

/// What one node of `from m import a, b as c` names.
pub open spec fn python_name(t: Seq<NodeText>, s: Seq<char>, i: int) -> Seq<
    (Seq<char>, Seq<char>),
> {
    if t[i].kind == "dotted_name"@ {
        seq![(tree::node_text(s, t[i]), tree::node_text(s, t[i]))]
    } else if t[i].kind == "aliased_import"@ {
        let name = tree::text_or_none(s, t, tree::field(t, i, "name"@));
        let local = match tree::field(t, i, "alias"@) {
            Some(a) => tree::node_text(s, t[a]),
            None => name,
        };
        seq![(local, name)]
    } else if t[i].kind == "wildcard_import"@ {
        seq![("*"@, "*"@)]
    } else {
        Seq::empty()
    }
}

/// What the first `n` nodes name, the module itself left out.
pub open spec fn python_names(
    t: Seq<NodeText>,
    s: Seq<char>,
    list: Seq<int>,
    module: Option<int>,
    n: nat,
) -> Seq<(Seq<char>, Seq<char>)>
    decreases n,
{
    if n == 0 {
        Seq::empty()
    } else {
        let rest = python_names(t, s, list, module, (n - 1) as nat);
        if module == Some(list[n - 1]) {
            rest
        } else {
            rest + python_name(t, s, list[n - 1])
        }
    }
}

/// What one statement of a Python file brings in.
pub open spec fn python_imports(t: Seq<NodeText>, s: Seq<char>, i: int) -> Seq<ImportText> {
    let list = tree::named_kids(t, i);
    if t[i].kind == "import_statement"@ {
        python_clauses(t, s, list, list.len())
    } else if t[i].kind == "import_from_statement"@ {
        let module = tree::field(t, i, "module_name"@);
        seq![
            ImportText {
                module: tree::text_or_none(s, t, module),
                names: python_names(t, s, list, module, list.len()),
            },
        ]
    } else {
        Seq::empty()
    }
}

/// What one clause of `import a, b as c` brings in.
fn python_clause_of(t: &SyntaxTree, src: &Source, i: usize) -> (r: Vec<Import>)
    requires
        i < t@.len(),
        src.valid(),
    ensures
        imports_text(r@) == python_clause(t@, src@, i as int),
{
    if text::same(t.nodes[i].kind, "aliased_import") {
        let module = t.text_of(t.field(i, "name"), src);
        let local = match t.field(i, "alias") {
            Some(a) => t.text(a, src),
            None => before_dot(module.as_str()),
        };
        only(importing(module, local, "*".to_string()))
    } else if text::same(t.nodes[i].kind, "dotted_name") {
        let module = t.text(i, src);
        let local = before_dot(module.as_str());
        only(importing(module, local, "*".to_string()))
    } else {
        nothing()
    }
}

/// What one node of `from m import a, b as c` names.
fn python_name_of(t: &SyntaxTree, src: &Source, i: usize) -> (r: Vec<(String, String)>)
    requires
        i < t@.len(),
        src.valid(),
    ensures
        text::text_pairs(r@) == python_name(t@, src@, i as int),
{
    if text::same(t.nodes[i].kind, "dotted_name") {
        only_pair(t.text(i, src), t.text(i, src))
    } else if text::same(t.nodes[i].kind, "aliased_import") {
        let name = t.text_of(t.field(i, "name"), src);
        let local = match t.field(i, "alias") {
            Some(a) => t.text(a, src),
            None => name.clone(),
        };
        only_pair(local, name)
    } else if text::same(t.nodes[i].kind, "wildcard_import") {
        only_pair("*".to_string(), "*".to_string())
    } else {
        let v: Vec<(String, String)> = Vec::new();
        assert(text::text_pairs(v@) =~= Seq::<(Seq<char>, Seq<char>)>::empty());
        v
    }
}

/// What one statement of a Python file brings in.
fn python_at(t: &SyntaxTree, src: &Source, i: usize) -> (r: Vec<Import>)
    requires
        i < t@.len(),
        src.valid(),
    ensures
        imports_text(r@) == python_imports(t@, src@, i as int),
{
    let list = t.named_children(i);
    let ghost all = tree::named_kids(t@, i as int);
    if text::same(t.nodes[i].kind, "import_statement") {
        let mut out = nothing();
        let mut k: usize = 0;
        while k < list.len()
            invariant
                k <= list.len(),
                src.valid(),
                tree::ints(list@) == all,
                forall|a: int| 0 <= a < list@.len() ==> i < #[trigger] list@[a] < t@.len(),
                imports_text(out@) == python_clauses(t@, src@, all, k as nat),
            decreases list.len() - k,
        {
            assert(all[k as int] == list@[k as int]);
            let mut more = python_clause_of(t, src, list[k]);
            let ghost before = out@;
            let ghost added = more@;
            out.append(&mut more);
            assert(imports_text(out@) =~= imports_text(before) + imports_text(added));
            k += 1;
        }
        out
    } else if text::same(t.nodes[i].kind, "import_from_statement") {
        let at = t.field(i, "module_name");
        let ghost module = tree::opt_int(at);
        let mut names: Vec<(String, String)> = Vec::new();
        let mut k: usize = 0;
        assert(text::text_pairs(names@) =~= Seq::<(Seq<char>, Seq<char>)>::empty());
        while k < list.len()
            invariant
                k <= list.len(),
                src.valid(),
                tree::ints(list@) == all,
                module == tree::opt_int(at),
                forall|a: int| 0 <= a < list@.len() ==> i < #[trigger] list@[a] < t@.len(),
                text::text_pairs(names@) == python_names(t@, src@, all, module, k as nat),
            decreases list.len() - k,
        {
            assert(all[k as int] == list@[k as int]);
            let skip = match at {
                Some(m) => m == list[k],
                None => false,
            };
            if !skip {
                let mut more = python_name_of(t, src, list[k]);
                let ghost before = names@;
                let ghost added = more@;
                names.append(&mut more);
                assert(text::text_pairs(names@) =~= text::text_pairs(before) + text::text_pairs(added));
            }
            k += 1;
        }
        only(Import { module: t.text_of(at, src), names })
    } else {
        nothing()
    }
}

// -------------------------------------------- TypeScript and JavaScript

/// What one specifier in braces names.
pub open spec fn specifier_name(t: Seq<NodeText>, s: Seq<char>, i: int) -> Seq<
    (Seq<char>, Seq<char>),
> {
    if t[i].kind == "import_specifier"@ {
        let name = tree::text_or_none(s, t, tree::field(t, i, "name"@));
        let local = match tree::field(t, i, "alias"@) {
            Some(a) => tree::node_text(s, t[a]),
            None => name,
        };
        seq![(local, name)]
    } else {
        Seq::empty()
    }
}

/// What the first `n` specifiers name.
pub open spec fn specifier_names(t: Seq<NodeText>, s: Seq<char>, list: Seq<int>, n: nat) -> Seq<
    (Seq<char>, Seq<char>),
>
    decreases n,
{
    if n == 0 {
        Seq::empty()
    } else {
        specifier_names(t, s, list, (n - 1) as nat) + specifier_name(t, s, list[n - 1])
    }
}

/// What one part of an import clause names.
pub open spec fn clause_part(t: Seq<NodeText>, s: Seq<char>, i: int) -> Seq<
    (Seq<char>, Seq<char>),
> {
    let list = tree::named_kids(t, i);
    if t[i].kind == "identifier"@ {
        seq![(tree::node_text(s, t[i]), "default"@)]
    } else if t[i].kind == "namespace_import"@ {
        match tree::first_kid(t, i, |k: Seq<char>| k == "identifier"@) {
            Some(ident) => seq![(tree::node_text(s, t[ident]), "*"@)],
            None => Seq::empty(),
        }
    } else if t[i].kind == "named_imports"@ {
        specifier_names(t, s, list, list.len())
    } else {
        Seq::empty()
    }
}

/// What the first `n` parts of an import clause name.
pub open spec fn clause_parts(t: Seq<NodeText>, s: Seq<char>, list: Seq<int>, n: nat) -> Seq<
    (Seq<char>, Seq<char>),
>
    decreases n,
{
    if n == 0 {
        Seq::empty()
    } else {
        clause_parts(t, s, list, (n - 1) as nat) + clause_part(t, s, list[n - 1])
    }
}

/// What an import clause names.
pub open spec fn named_in_clause(t: Seq<NodeText>, s: Seq<char>, i: int) -> Seq<
    (Seq<char>, Seq<char>),
> {
    clause_parts(t, s, tree::named_kids(t, i), tree::named_kids(t, i).len())
}

/// The names that the first `n` nodes of a pattern take under their own name.
pub open spec fn shorthand_names(t: Seq<NodeText>, s: Seq<char>, list: Seq<int>, n: nat) -> Seq<
    (Seq<char>, Seq<char>),
>
    decreases n,
{
    if n == 0 {
        Seq::empty()
    } else {
        let rest = shorthand_names(t, s, list, (n - 1) as nat);
        if t[list[n - 1]].kind == "shorthand_property_identifier_pattern"@ {
            rest.push((tree::node_text(s, t[list[n - 1]]), tree::node_text(s, t[list[n - 1]])))
        } else {
            rest
        }
    }
}

/// What one variable brings in where its value is a call of `require`.
pub open spec fn required(t: Seq<NodeText>, s: Seq<char>, i: int) -> Seq<ImportText> {
    match (tree::field(t, i, "value"@), tree::field(t, i, "name"@)) {
        (Some(value), Some(name)) => match (
            tree::field(t, value, "function"@),
            tree::field(t, value, "arguments"@),
        ) {
            (Some(func), Some(args)) => if t[i].kind == "variable_declarator"@ && t[value].kind
                == "call_expression"@ && tree::node_text(s, t[func]) == "require"@ && tree::named_kids(
                t,
                args,
            ).len() > 0 {
                let module = unquoted(tree::node_text(s, t[tree::named_kids(t, args)[0]]));
                if t[name].kind == "identifier"@ {
                    seq![one_import(module, tree::node_text(s, t[name]), "*"@)]
                } else {
                    let list = tree::named_kids(t, name);
                    seq![ImportText { module, names: shorthand_names(t, s, list, list.len()) }]
                }
            } else {
                Seq::empty()
            },
            _ => Seq::empty(),
        },
        _ => Seq::empty(),
    }
}

/// What the first `n` variables bring in by `require`.
pub open spec fn required_upto(t: Seq<NodeText>, s: Seq<char>, list: Seq<int>, n: nat) -> Seq<
    ImportText,
>
    decreases n,
{
    if n == 0 {
        Seq::empty()
    } else {
        required_upto(t, s, list, (n - 1) as nat) + required(t, s, list[n - 1])
    }
}

/// What one statement of a TypeScript or JavaScript file brings in.
pub open spec fn script_imports(t: Seq<NodeText>, s: Seq<char>, i: int, names: NameStyle) -> Seq<
    ImportText,
> {
    let k = t[i].kind;
    let source = tree::field(t, i, "source"@);
    let inner = names::unwrapped(t, i, names);
    if k == "import_statement"@ {
        let module = unquoted_or_none(s, t, source);
        match tree::first_kid(t, i, |k: Seq<char>| k == "import_clause"@) {
            Some(clause) => seq![ImportText { module, names: named_in_clause(t, s, clause) }],
            None => seq![whole_import(module)],
        }
    } else if k == "export_statement"@ && source is Some {
        seq![whole_import(unquoted_or_none(s, t, source))]
    } else if kinds::variables_kind(k) || (k == "export_statement"@ && kinds::variables_kind(t[inner].kind)) {
        required_upto(t, s, tree::named_kids(t, inner), tree::named_kids(t, inner).len())
    } else {
        Seq::empty()
    }
}

/// Is this the kind of an identifier?
fn is_identifier(k: &str) -> (r: bool)
    ensures
        r == (k@ == "identifier"@),
{
    text::same(k, "identifier")
}

/// Is this the kind of an import clause?
fn is_import_clause(k: &str) -> (r: bool)
    ensures
        r == (k@ == "import_clause"@),
{
    text::same(k, "import_clause")
}

/// What the specifiers in braces name.
fn specifiers(t: &SyntaxTree, src: &Source, i: usize) -> (r: Vec<(String, String)>)
    requires
        i < t@.len(),
        src.valid(),
    ensures
        text::text_pairs(r@) == specifier_names(
            t@,
            src@,
            tree::named_kids(t@, i as int),
            tree::named_kids(t@, i as int).len(),
        ),
{
    let list = t.named_children(i);
    let ghost all = tree::named_kids(t@, i as int);
    let mut names: Vec<(String, String)> = Vec::new();
    let mut k: usize = 0;
    assert(text::text_pairs(names@) =~= Seq::<(Seq<char>, Seq<char>)>::empty());
    while k < list.len()
        invariant
            k <= list.len(),
            src.valid(),
            tree::ints(list@) == all,
            forall|a: int| 0 <= a < list@.len() ==> i < #[trigger] list@[a] < t@.len(),
            text::text_pairs(names@) == specifier_names(t@, src@, all, k as nat),
        decreases list.len() - k,
    {
        assert(all[k as int] == list@[k as int]);
        let at = list[k];
        let ghost before = text::text_pairs(names@);
        if text::same(t.nodes[at].kind, "import_specifier") {
            let name = t.text_of(t.field(at, "name"), src);
            let local = match t.field(at, "alias") {
                Some(a) => t.text(a, src),
                None => name.clone(),
            };
            proof {
                text::lemma_text_pairs_push(names@, (local, name));
            }
            names.push((local, name));
            assert(before.push((local@, name@)) =~= before + seq![(local@, name@)]);
        } else {
            assert(before + Seq::<(Seq<char>, Seq<char>)>::empty() =~= before);
        }
        k += 1;
    }
    names
}

/// What one part of an import clause names.
fn clause_part_of(t: &SyntaxTree, src: &Source, i: usize) -> (r: Vec<(String, String)>)
    requires
        i < t@.len(),
        src.valid(),
    ensures
        text::text_pairs(r@) == clause_part(t@, src@, i as int),
{
    let none: Vec<(String, String)> = Vec::new();
    assert(text::text_pairs(none@) =~= Seq::<(Seq<char>, Seq<char>)>::empty());
    if text::same(t.nodes[i].kind, "identifier") {
        only_pair(t.text(i, src), "default".to_string())
    } else if text::same(t.nodes[i].kind, "namespace_import") {
        match t.first_kid(i, is_identifier, Ghost(|k: Seq<char>| k == "identifier"@)) {
            Some(ident) => only_pair(t.text(ident, src), "*".to_string()),
            None => none,
        }
    } else if text::same(t.nodes[i].kind, "named_imports") {
        specifiers(t, src, i)
    } else {
        none
    }
}

/// What an import clause names.
pub fn clause_names(t: &SyntaxTree, src: &Source, i: usize) -> (r: Vec<(String, String)>)
    requires
        i < t@.len(),
        src.valid(),
    ensures
        text::text_pairs(r@) == named_in_clause(t@, src@, i as int),
{
    let list = t.named_children(i);
    let ghost all = tree::named_kids(t@, i as int);
    let mut names: Vec<(String, String)> = Vec::new();
    let mut k: usize = 0;
    assert(text::text_pairs(names@) =~= Seq::<(Seq<char>, Seq<char>)>::empty());
    while k < list.len()
        invariant
            k <= list.len(),
            src.valid(),
            tree::ints(list@) == all,
            forall|a: int| 0 <= a < list@.len() ==> i < #[trigger] list@[a] < t@.len(),
            text::text_pairs(names@) == clause_parts(t@, src@, all, k as nat),
        decreases list.len() - k,
    {
        assert(all[k as int] == list@[k as int]);
        let mut more = clause_part_of(t, src, list[k]);
        let ghost before = names@;
        let ghost added = more@;
        names.append(&mut more);
        assert(text::text_pairs(names@) =~= text::text_pairs(before) + text::text_pairs(added));
        k += 1;
    }
    names
}

/// The names that a pattern takes under their own name.
fn shorthands(t: &SyntaxTree, src: &Source, i: usize) -> (r: Vec<(String, String)>)
    requires
        i < t@.len(),
        src.valid(),
    ensures
        text::text_pairs(r@) == shorthand_names(
            t@,
            src@,
            tree::named_kids(t@, i as int),
            tree::named_kids(t@, i as int).len(),
        ),
{
    let list = t.named_children(i);
    let ghost all = tree::named_kids(t@, i as int);
    let mut names: Vec<(String, String)> = Vec::new();
    let mut k: usize = 0;
    assert(text::text_pairs(names@) =~= Seq::<(Seq<char>, Seq<char>)>::empty());
    while k < list.len()
        invariant
            k <= list.len(),
            src.valid(),
            tree::ints(list@) == all,
            forall|a: int| 0 <= a < list@.len() ==> i < #[trigger] list@[a] < t@.len(),
            text::text_pairs(names@) == shorthand_names(t@, src@, all, k as nat),
        decreases list.len() - k,
    {
        assert(all[k as int] == list@[k as int]);
        if text::same(t.nodes[list[k]].kind, "shorthand_property_identifier_pattern") {
            let pair = (t.text(list[k], src), t.text(list[k], src));
            proof {
                text::lemma_text_pairs_push(names@, pair);
            }
            names.push(pair);
        }
        k += 1;
    }
    names
}

/// What one variable brings in where its value is a call of `require`.
fn required_by(t: &SyntaxTree, src: &Source, i: usize) -> (r: Vec<Import>)
    requires
        i < t@.len(),
        src.valid(),
    ensures
        imports_text(r@) == required(t@, src@, i as int),
{
    if !text::same(t.nodes[i].kind, "variable_declarator") {
        return nothing();
    }
    match (t.field(i, "value"), t.field(i, "name")) {
        (Some(value), Some(name)) => match (
            t.field(value, "function"),
            t.field(value, "arguments"),
        ) {
            (Some(func), Some(args)) => {
                if !text::same(t.nodes[value].kind, "call_expression") {
                    return nothing();
                }
                let called = t.text(func, src);
                let given = t.named_children(args);
                assert(tree::named_kids(t@, args as int).len() == given@.len());
                if !text::same(called.as_str(), "require") || given.len() == 0 {
                    return nothing();
                }
                assert(tree::named_kids(t@, args as int)[0] == given@[0]);
                let raw = t.text(given[0], src);
                let module = strip_quotes(raw.as_str());
                if text::same(t.nodes[name].kind, "identifier") {
                    only(importing(module, t.text(name, src), "*".to_string()))
                } else {
                    only(Import { module, names: shorthands(t, src, name) })
                }
            },
            _ => nothing(),
        },
        _ => nothing(),
    }
}

/// What the variables of a declaration bring in by `require`.
fn required_in(t: &SyntaxTree, src: &Source, i: usize) -> (r: Vec<Import>)
    requires
        i < t@.len(),
        src.valid(),
    ensures
        imports_text(r@) == required_upto(
            t@,
            src@,
            tree::named_kids(t@, i as int),
            tree::named_kids(t@, i as int).len(),
        ),
{
    let list = t.named_children(i);
    let ghost all = tree::named_kids(t@, i as int);
    let mut out = nothing();
    let mut k: usize = 0;
    while k < list.len()
        invariant
            k <= list.len(),
            src.valid(),
            tree::ints(list@) == all,
            forall|a: int| 0 <= a < list@.len() ==> i < #[trigger] list@[a] < t@.len(),
            imports_text(out@) == required_upto(t@, src@, all, k as nat),
        decreases list.len() - k,
    {
        assert(all[k as int] == list@[k as int]);
        let mut more = required_by(t, src, list[k]);
        let ghost before = out@;
        let ghost added = more@;
        out.append(&mut more);
        assert(imports_text(out@) =~= imports_text(before) + imports_text(added));
        k += 1;
    }
    out
}

/// What one statement of a TypeScript or JavaScript file brings in.
fn script_at(t: &SyntaxTree, src: &Source, i: usize, spec: &LangSpec) -> (r: Vec<Import>)
    requires
        i < t@.len(),
        src.valid(),
    ensures
        imports_text(r@) == script_imports(t@, src@, i as int, spec@.names),
{
    let kind = t.nodes[i].kind;
    let source = t.field(i, "source");
    if text::same(kind, "import_statement") {
        let module = unquoted_text(t, src, source);
        match t.first_kid(i, is_import_clause, Ghost(|k: Seq<char>| k == "import_clause"@)) {
            Some(clause) => only(Import { module, names: clause_names(t, src, clause) }),
            None => only(importing_all(module)),
        }
    } else if text::same(kind, "export_statement") && source.is_some() {
        only(importing_all(unquoted_text(t, src, source)))
    } else {
        let inner = names::unwrap(t, i, spec);
        if kinds::is_variables_kind(kind) || (text::same(kind, "export_statement") && kinds::is_variables_kind(
            t.nodes[inner].kind,
        )) {
            required_in(t, src, inner)
        } else {
            nothing()
        }
    }
}

// -------------------------------------------------------------------- Rust

/// A module path under a prefix.
pub open spec fn under_prefix(prefix: Seq<char>, module: Seq<char>) -> Seq<char> {
    if prefix.len() > 0 && module.len() > 0 {
        prefix + "::"@ + module
    } else if prefix.len() == 0 {
        module
    } else {
        prefix
    }
}

/// A module path under a prefix.
fn join_prefix(prefix: &str, module: &str) -> (r: String)
    ensures
        r@ == under_prefix(prefix@, module@),
{
    let none = String::new();
    proof {
        assert(prefix@.len() == 0 ==> prefix@ =~= none@);
        assert(module@.len() == 0 ==> module@ =~= none@);
    }
    if !text::same(prefix, none.as_str()) && !text::same(module, none.as_str()) {
        text::cat3(prefix, "::", module)
    } else if text::same(prefix, none.as_str()) {
        module.to_string()
    } else {
        prefix.to_string()
    }
}

/// The names with `alias` in the place of each local name.
pub open spec fn renamed(
    names: Seq<(Seq<char>, Seq<char>, Seq<char>)>,
    alias: Option<Seq<char>>,
) -> Seq<(Seq<char>, Seq<char>, Seq<char>)> {
    Seq::new(
        names.len(),
        |k: int|
            (
                names[k].0,
                match alias {
                    Some(a) => a,
                    None => names[k].2,
                },
                names[k].2,
            ),
    )
}

/// Does a node of this kind stand for one name in a `use`?
pub open spec fn used_name_kind(k: Seq<char>) -> bool {
    ||| k == "identifier"@
    ||| k == "type_identifier"@
    ||| k == "self"@
    ||| k == "super"@
    ||| k == "crate"@
}

/// What a `use` tree brings in under a prefix: (module, local name, name in
/// the module).
pub open spec fn used(t: Seq<NodeText>, s: Seq<char>, i: int, prefix: Seq<char>) -> Seq<
    (Seq<char>, Seq<char>, Seq<char>),
>
    decreases t.len() - i, tree::named_kids(t, i).len() + 2,
{
    let k = t[i].kind;
    let path = tree::field(t, i, "path"@);
    if i < 0 || i >= t.len() {
        Seq::empty()
    } else if used_name_kind(k) {
        seq![(prefix, tree::node_text(s, t[i]), tree::node_text(s, t[i]))]
    } else if k == "scoped_identifier"@ {
        match tree::field(t, i, "name"@) {
            Some(name) => seq![
                (
                    under_prefix(prefix, tree::text_or_none(s, t, path)),
                    tree::node_text(s, t[name]),
                    tree::node_text(s, t[name]),
                ),
            ],
            None => Seq::empty(),
        }
    } else if k == "use_as_clause"@ {
        match path {
            Some(p) => renamed(
                used(t, s, p, prefix),
                tree::opt_node_text(s, t, tree::field(t, i, "alias"@)),
            ),
            None => Seq::empty(),
        }
    } else if k == "scoped_use_list"@ {
        match tree::field(t, i, "list"@) {
            Some(list) => used_among(
                t,
                s,
                list,
                under_prefix(prefix, tree::text_or_none(s, t, path)),
                tree::named_kids(t, list).len(),
            ),
            None => Seq::empty(),
        }
    } else if k == "use_list"@ {
        used_among(
            t,
            s,
            i,
            under_prefix(prefix, tree::text_or_none(s, t, path)),
            tree::named_kids(t, i).len(),
        )
    } else if k == "use_wildcard"@ {
        let list = tree::named_kids(t, i);
        let module = if list.len() > 0 {
            tree::node_text(s, t[list[0]])
        } else {
            text::no_text()
        };
        seq![(under_prefix(prefix, module), "*"@, "*"@)]
    } else {
        Seq::empty()
    }
}

/// What the first `n` trees of a `use` list bring in.
pub open spec fn used_among(t: Seq<NodeText>, s: Seq<char>, i: int, prefix: Seq<char>, n: nat) -> Seq<
    (Seq<char>, Seq<char>, Seq<char>),
>
    decreases t.len() - i, n + 1,
{
    if n == 0 || i < 0 || i >= t.len() || n > tree::named_kids(t, i).len() {
        Seq::empty()
    } else {
        proof {
            tree::lemma_kids(t, i);
        }
        let k = tree::named_kids(t, i)[n - 1];
        if i < k {
            used_among(t, s, i, prefix, (n - 1) as nat) + used(t, s, k, prefix)
        } else {
            Seq::empty()
        }
    }
}

/// The imports with one more name under its module: added to the import of
/// that module, or as the first of a new one.
pub open spec fn with_used(
    imports: Seq<ImportText>,
    used: (Seq<char>, Seq<char>, Seq<char>),
    k: nat,
) -> Seq<ImportText>
    decreases imports.len() - k,
{
    if k >= imports.len() {
        imports.push(one_import(used.0, used.1, used.2))
    } else if imports[k as int].module == used.0 {
        imports.update(
            k as int,
            ImportText {
                module: used.0,
                names: imports[k as int].names.push((used.1, used.2)),
            },
        )
    } else {
        with_used(imports, used, k + 1)
    }
}

/// The first `n` names, module by module in the order of first mention.
pub open spec fn by_module(used: Seq<(Seq<char>, Seq<char>, Seq<char>)>, n: nat) -> Seq<ImportText>
    decreases n,
{
    if n == 0 {
        Seq::empty()
    } else {
        with_used(by_module(used, (n - 1) as nat), used[n - 1], 0)
    }
}

/// What one item of a Rust file brings in.
pub open spec fn rust_imports(t: Seq<NodeText>, s: Seq<char>, i: int) -> Seq<ImportText> {
    if t[i].kind == "use_declaration"@ {
        match tree::field(t, i, "argument"@) {
            Some(arg) => {
                let names = used(t, s, arg, text::no_text());
                by_module(names, names.len())
            },
            None => Seq::empty(),
        }
    } else {
        Seq::empty()
    }
}

/// A list of one name under its module.
fn only_triple(module: String, local: String, name: String) -> (r: Vec<(String, String, String)>)
    ensures
        graph::triples(r@) == seq![(module@, local@, name@)],
{
    let mut v: Vec<(String, String, String)> = Vec::new();
    v.push((module, local, name));
    assert(graph::triples(v@) =~= seq![(module@, local@, name@)]);
    v
}

/// A list of no names.
fn no_triples() -> (r: Vec<(String, String, String)>)
    ensures
        graph::triples(r@) == Seq::<(Seq<char>, Seq<char>, Seq<char>)>::empty(),
{
    let v: Vec<(String, String, String)> = Vec::new();
    assert(graph::triples(v@) =~= Seq::<(Seq<char>, Seq<char>, Seq<char>)>::empty());
    v
}

/// The names with `alias` in the place of each local name.
fn rename_all(names: Vec<(String, String, String)>, alias: Option<String>) -> (r: Vec<
    (String, String, String),
>)
    ensures
        graph::triples(r@) == renamed(graph::triples(names@), text::opt_text(alias)),
{
    let mut out: Vec<(String, String, String)> = Vec::new();
    let ghost all = renamed(graph::triples(names@), text::opt_text(alias));
    let mut k: usize = 0;
    while k < names.len()
        invariant
            k <= names.len(),
            all == renamed(graph::triples(names@), text::opt_text(alias)),
            graph::triples(out@) == all.take(k as int),
        decreases names.len() - k,
    {
        let local = match &alias {
            Some(a) => a.clone(),
            None => names[k].2.clone(),
        };
        let ghost before = graph::triples(out@);
        assert(graph::triples(names@)[k as int] == (
            names@[k as int].0@,
            names@[k as int].1@,
            names@[k as int].2@,
        ));
        assert(all[k as int] == (names@[k as int].0@, local@, names@[k as int].2@));
        out.push((names[k].0.clone(), local, names[k].2.clone()));
        assert(graph::triples(out@) =~= before.push(all[k as int]));
        k += 1;
        assert(graph::triples(out@) =~= all.take(k as int));
    }
    assert(all.take(all.len() as int) =~= all);
    out
}

/// What a `use` tree brings in under a prefix.
pub fn flatten_use(t: &SyntaxTree, src: &Source, i: usize, prefix: &str) -> (r: Vec<
    (String, String, String),
>)
    requires
        i < t@.len(),
        src.valid(),
    ensures
        graph::triples(r@) == used(t@, src@, i as int, prefix@),
    decreases t@.len() - i, 1nat,
{
    let kind = t.nodes[i].kind;
    if text::same(kind, "identifier") || text::same(kind, "type_identifier") || text::same(kind, "self") || text::same(
        kind,
        "super",
    ) || text::same(kind, "crate") {
        only_triple(prefix.to_string(), t.text(i, src), t.text(i, src))
    } else if text::same(kind, "scoped_identifier") {
        let module = t.text_of(t.field(i, "path"), src);
        match t.field(i, "name") {
            Some(name) => only_triple(
                join_prefix(prefix, module.as_str()),
                t.text(name, src),
                t.text(name, src),
            ),
            None => no_triples(),
        }
    } else if text::same(kind, "use_as_clause") {
        match t.field(i, "path") {
            Some(p) => {
                let names = flatten_use(t, src, p, prefix);
                let alias = match t.field(i, "alias") {
                    Some(a) => Some(t.text(a, src)),
                    None => None,
                };
                rename_all(names, alias)
            },
            None => no_triples(),
        }
    } else if text::same(kind, "scoped_use_list") {
        let module = t.text_of(t.field(i, "path"), src);
        let full = join_prefix(prefix, module.as_str());
        match t.field(i, "list") {
            Some(list) => flatten_list(t, src, list, full.as_str()),
            None => no_triples(),
        }
    } else if text::same(kind, "use_list") {
        let module = t.text_of(t.field(i, "path"), src);
        let full = join_prefix(prefix, module.as_str());
        flatten_list(t, src, i, full.as_str())
    } else if text::same(kind, "use_wildcard") {
        let list = t.named_children(i);
        let ghost all = tree::named_kids(t@, i as int);
        assert(all.len() == list@.len());
        let module = if list.len() > 0 {
            assert(all[0] == list@[0]);
            t.text(list[0], src)
        } else {
            String::new()
        };
        only_triple(
            join_prefix(prefix, module.as_str()),
            "*".to_string(),
            "*".to_string(),
        )
    } else {
        no_triples()
    }
}

/// What the trees of a `use` list bring in.
fn flatten_list(t: &SyntaxTree, src: &Source, i: usize, prefix: &str) -> (r: Vec<
    (String, String, String),
>)
    requires
        i < t@.len(),
        src.valid(),
    ensures
        graph::triples(r@) == used_among(t@, src@, i as int, prefix@, tree::named_kids(t@, i as int).len()),
    decreases t@.len() - i, 0nat,
{
    let list = t.named_children(i);
    let ghost all = tree::named_kids(t@, i as int);
    let mut out = no_triples();
    let mut k: usize = 0;
    while k < list.len()
        invariant
            k <= list.len(),
            i < t@.len(),
            src.valid(),
            tree::ints(list@) == all,
            all == tree::named_kids(t@, i as int),
            forall|a: int| 0 <= a < list@.len() ==> i < #[trigger] list@[a] < t@.len(),
            graph::triples(out@) == used_among(t@, src@, i as int, prefix@, k as nat),
        decreases list.len() - k,
    {
        assert(all[k as int] == list@[k as int]);
        let mut more = flatten_use(t, src, list[k], prefix);
        let ghost before = out@;
        let ghost added = more@;
        out.append(&mut more);
        assert(graph::triples(out@) =~= graph::triples(before) + graph::triples(added));
        k += 1;
    }
    out
}

/// Adds a name to the import of its module, or as the first of a new one.
fn add_used(imports: &mut Vec<Import>, module: &str, local: String, name: String)
    ensures
        imports_text(final(imports)@) == with_used(
            imports_text(old(imports)@),
            (module@, local@, name@),
            0,
        ),
{
    let ghost all = imports_text(imports@);
    let ghost entry = (module@, local@, name@);
    let mut k: usize = 0;
    while k < imports.len()
        invariant
            k <= imports.len(),
            all == imports_text(imports@),
            imports@ == old(imports)@,
            entry == (module@, local@, name@),
            with_used(all, entry, 0) == with_used(all, entry, k as nat),
        decreases imports.len() - k,
    {
        assert(all[k as int] == imports@[k as int]@);
        if text::same(imports[k].module.as_str(), module) {
            let ghost names = imports@[k as int].names@;
            proof {
                text::lemma_text_pairs_push(names, (local, name));
            }
            imports[k].names.push((local, name));
            assert(imports_text(imports@) =~= with_used(all, entry, k as nat));
            return;
        }
        k += 1;
    }
    let x = importing(module.to_string(), local, name);
    proof {
        lemma_imports_push(imports@, x);
    }
    imports.push(x);
}

/// What one item of a Rust file brings in.
fn rust_at(t: &SyntaxTree, src: &Source, i: usize) -> (r: Vec<Import>)
    requires
        i < t@.len(),
        src.valid(),
    ensures
        imports_text(r@) == rust_imports(t@, src@, i as int),
{
    if !text::same(t.nodes[i].kind, "use_declaration") {
        return nothing();
    }
    match t.field(i, "argument") {
        None => nothing(),
        Some(arg) => {
            let prefix = String::new();
            let names = flatten_use(t, src, arg, prefix.as_str());
            assert(prefix@ =~= text::no_text());
            let ghost all = graph::triples(names@);
            let mut out = nothing();
            let mut k: usize = 0;
            while k < names.len()
                invariant
                    k <= names.len(),
                    all == graph::triples(names@),
                    imports_text(out@) == by_module(all, k as nat),
                decreases names.len() - k,
            {
                assert(all[k as int] == (
                    names@[k as int].0@,
                    names@[k as int].1@,
                    names@[k as int].2@,
                ));
                add_used(
                    &mut out,
                    names[k].0.as_str(),
                    names[k].1.clone(),
                    names[k].2.clone(),
                );
                k += 1;
            }
            out
        },
    }
}

// ------------------------------------------------------------ Java and Ruby

/// What one declaration of a Java file brings in.
pub open spec fn java_imports(t: Seq<NodeText>, s: Seq<char>, i: int) -> Seq<ImportText> {
    if t[i].kind == "import_declaration"@ {
        let line = text::shed_end(text::collapsed(tree::node_text(s, t[i])), ";"@);
        let body = text::without_first(text::without_first(line, "import"@), "static"@);
        let parts = text::filled(text::split_on(text::shed_end(text::trimmed(body), "*."@), '.'));
        if parts.len() == 0 {
            Seq::empty()
        } else if text::has_suffix(line, ".*"@) {
            seq![whole_import(text::joined(parts, "."@))]
        } else {
            seq![
                one_import(
                    text::join_upto(parts, "."@, (parts.len() - 1) as nat),
                    parts[parts.len() - 1],
                    parts[parts.len() - 1],
                ),
            ]
        }
    } else {
        Seq::empty()
    }
}

/// What one declaration of a Java file brings in.
fn java_at(t: &SyntaxTree, src: &Source, i: usize) -> (r: Vec<Import>)
    requires
        i < t@.len(),
        src.valid(),
    ensures
        imports_text(r@) == java_imports(t@, src@, i as int),
{
    if !text::same(t.nodes[i].kind, "import_declaration") {
        return nothing();
    }
    let raw = t.text(i, src);
    let flat = text::collapse(raw.as_str());
    let line = text::trim_end_set(flat.as_str(), ";");
    let wildcard = text::ends_with(line.as_str(), ".*");
    let body = text::remove_first(line.as_str(), "import");
    let body = text::remove_first(body.as_str(), "static");
    let body = text::trim(body.as_str());
    let body = text::trim_end_set(body.as_str(), "*.");
    let parts = text::drop_empty(&text::split(body.as_str(), '.'));
    let ghost all = text::texts(parts@);
    assert(all.len() == parts@.len());
    if parts.len() == 0 {
        nothing()
    } else if wildcard {
        only(importing_all(text::join(&parts, ".")))
    } else {
        let last = parts.len() - 1;
        assert(all[last as int] == parts@[last as int]@);
        only(importing(text::join_first(&parts, last, "."), parts[last].clone(), parts[last].clone()))
    }
}

/// Does a Ruby method of this name load a file?
pub open spec fn loads(name: Seq<char>) -> bool {
    name == "require"@ || name == "require_relative"@ || name == "load"@
}

/// What one statement of a Ruby file brings in.
pub open spec fn ruby_imports(t: Seq<NodeText>, s: Seq<char>, i: int) -> Seq<ImportText> {
    let func = tree::either(
        tree::field(t, i, "method"@),
        tree::first_kid(t, i, |k: Seq<char>| k == "identifier"@),
    );
    let args = tree::either(
        tree::field(t, i, "arguments"@),
        tree::first_kid(t, i, |k: Seq<char>| k == "argument_list"@),
    );
    if t[i].kind == "call"@ && func is Some && loads(tree::node_text(s, t[func->0])) && args is Some
        && tree::named_kids(t, args->0).len() > 0 {
        seq![whole_import(unquoted(tree::node_text(s, t[tree::named_kids(t, args->0)[0]])))]
    } else {
        Seq::empty()
    }
}

/// Is this the kind of an argument list?
fn is_argument_list(k: &str) -> (r: bool)
    ensures
        r == (k@ == "argument_list"@),
{
    text::same(k, "argument_list")
}

/// What one statement of a Ruby file brings in.
fn ruby_at(t: &SyntaxTree, src: &Source, i: usize) -> (r: Vec<Import>)
    requires
        i < t@.len(),
        src.valid(),
    ensures
        imports_text(r@) == ruby_imports(t@, src@, i as int),
{
    if !text::same(t.nodes[i].kind, "call") {
        return nothing();
    }
    let func = match t.field(i, "method") {
        Some(k) => Some(k),
        None => t.first_kid(i, is_identifier, Ghost(|k: Seq<char>| k == "identifier"@)),
    };
    let args = match t.field(i, "arguments") {
        Some(k) => Some(k),
        None => t.first_kid(i, is_argument_list, Ghost(|k: Seq<char>| k == "argument_list"@)),
    };
    match (func, args) {
        (Some(func), Some(args)) => {
            let name = t.text(func, src);
            let list = t.named_children(args);
            assert(tree::named_kids(t@, args as int).len() == list@.len());
            if (text::same(name.as_str(), "require") || text::same(name.as_str(), "require_relative") || text::same(
                name.as_str(),
                "load",
            )) && list.len() > 0 {
                assert(tree::named_kids(t@, args as int)[0] == list@[0]);
                let raw = t.text(list[0], src);
                only(importing_all(strip_quotes(raw.as_str())))
            } else {
                nothing()
            }
        },
        _ => nothing(),
    }
}

// -------------------------------------------------- Go, C#, C, C++ and PHP

/// What one import of a Go file brings in.
pub open spec fn go_imports(t: Seq<NodeText>, s: Seq<char>, i: int) -> Seq<ImportText> {
    let module = unquoted_or_none(s, t, tree::field(t, i, "path"@));
    let local = match tree::field(t, i, "name"@) {
        Some(name) => tree::node_text(s, t[name]),
        None => match text::cut_last(text::shed_end(module, "/"@), '/') {
            Some((_, last)) => last,
            None => text::shed_end(module, "/"@),
        },
    };
    seq![
        one_import(
            module,
            if local == "_"@ || local == "."@ {
                "*"@
            } else {
                local
            },
            "*"@,
        ),
    ]
}

/// What one import of a Go file brings in.
fn go_at(t: &SyntaxTree, src: &Source, i: usize) -> (r: Vec<Import>)
    requires
        i < t@.len(),
        src.valid(),
    ensures
        imports_text(r@) == go_imports(t@, src@, i as int),
{
    let module = unquoted_text(t, src, t.field(i, "path"));
    let local = match t.field(i, "name") {
        Some(name) => t.text(name, src),
        None => {
            let bare = text::trim_end_set(module.as_str(), "/");
            match text::rsplit_once(bare.as_str(), '/') {
                Some((_, last)) => last,
                None => bare,
            }
        },
    };
    let local = if text::same(local.as_str(), "_") || text::same(local.as_str(), ".") {
        "*".to_string()
    } else {
        local
    };
    only(importing(module, local, "*".to_string()))
}

/// What one directive of a C# file brings in.
pub open spec fn sharp_imports(t: Seq<NodeText>, s: Seq<char>, i: int) -> Seq<ImportText> {
    let line = text::shed_end(text::collapsed(tree::node_text(s, t[i])), ";"@);
    let body = text::trimmed(
        text::without_first(text::without_first(text::without_first(line, "using"@), "static"@), "global"@),
    );
    let at = text::next_of(body, '=', 0);
    if at < body.len() {
        let parts = text::split_on(text::trimmed(body.skip(at + 1)), '.');
        seq![
            one_import(
                text::join_upto(parts, "."@, (parts.len() - 1) as nat),
                text::trimmed(body.take(at)),
                parts[parts.len() - 1],
            ),
        ]
    } else {
        seq![whole_import(body)]
    }
}

/// What one directive of a C# file brings in.
fn sharp_at(t: &SyntaxTree, src: &Source, i: usize) -> (r: Vec<Import>)
    requires
        i < t@.len(),
        src.valid(),
    ensures
        imports_text(r@) == sharp_imports(t@, src@, i as int),
{
    let raw = t.text(i, src);
    let flat = text::collapse(raw.as_str());
    let line = text::trim_end_set(flat.as_str(), ";");
    let body = text::remove_first(line.as_str(), "using");
    let body = text::remove_first(body.as_str(), "static");
    let body = text::remove_first(body.as_str(), "global");
    let body = text::trim(body.as_str());
    let cs = text::chars(body.as_str());
    let at = text::next_char(&cs, '=', 0);
    if at < cs.len() {
        let alias = text::piece(&cs, 0, at);
        let target = text::piece(&cs, at + 1, cs.len());
        assert(alias@ =~= body@.take(at as int));
        assert(target@ =~= body@.skip(at + 1));
        let alias = text::trim(alias.as_str());
        let target = text::trim(target.as_str());
        let parts = text::split(target.as_str(), '.');
        let ghost all = text::texts(parts@);
        proof {
            text::lemma_split_first(target@, '.');
        }
        assert(all.len() == parts@.len());
        let last = parts.len() - 1;
        assert(all[last as int] == parts@[last as int]@);
        only(importing(text::join_first(&parts, last, "."), alias, parts[last].clone()))
    } else {
        only(importing_all(body))
    }
}

/// What one line of a C or C++ file pulls in.
pub open spec fn header_imports(t: Seq<NodeText>, s: Seq<char>, i: int) -> Seq<ImportText> {
    match tree::field(t, i, "path"@) {
        Some(path) => seq![whole_import(unquoted(tree::node_text(s, t[path])))],
        None => Seq::empty(),
    }
}

/// What one line of a C or C++ file pulls in.
fn header_at(t: &SyntaxTree, src: &Source, i: usize) -> (r: Vec<Import>)
    requires
        i < t@.len(),
        src.valid(),
    ensures
        imports_text(r@) == header_imports(t@, src@, i as int),
{
    match t.field(i, "path") {
        Some(path) => {
            let raw = t.text(path, src);
            only(importing_all(strip_quotes(raw.as_str())))
        },
        None => nothing(),
    }
}

/// A text without a prefix, or the text itself.
pub open spec fn less_prefix(s: Seq<char>, p: Seq<char>) -> Seq<char> {
    match text::without_prefix(s, p) {
        Some(rest) => rest,
        None => s,
    }
}

/// A text without a prefix, or the text itself.
fn drop_prefix(s: &str, p: &str) -> (r: String)
    ensures
        r@ == less_prefix(s@, p@),
{
    match text::strip_prefix(s, p) {
        Some(rest) => rest,
        None => s.to_string(),
    }
}

/// What stands before and behind the first ` as `; all of it before where
/// there is none.
pub open spec fn split_alias(s: Seq<char>) -> (Seq<char>, Seq<char>) {
    match text::find_from(s, " as "@, 0) {
        Some(at) => (s.take(at), s.skip(at + 4)),
        None => (s, text::no_text()),
    }
}

/// What stands before and behind the first ` as `.
fn cut_alias(s: &str) -> (r: (String, String))
    ensures
        (r.0@, r.1@) == split_alias(s@),
{
    let cs = text::chars(s);
    let mark = text::chars(" as ");
    proof {
        reveal_strlit(" as ");
        text::lemma_find(s@, " as "@, 0);
    }
    match text::find_at(&cs, &mark, 0) {
        Some(at) => {
            let a = text::piece(&cs, 0, at);
            let b = text::piece(&cs, at + 4, cs.len());
            assert(a@ =~= s@.take(at as int));
            assert(b@ =~= s@.skip(at + 4));
            (a, b)
        },
        None => (s.to_string(), String::new()),
    }
}

/// What one clause of a PHP `use` brings in.
pub open spec fn php_clause(t: Seq<NodeText>, s: Seq<char>, i: int) -> Seq<ImportText> {
    if t[i].kind == "namespace_use_clause"@ {
        let line = less_prefix(
            less_prefix(text::collapsed(tree::node_text(s, t[i])), "function "@),
            "const "@,
        );
        let full = split_alias(line).0;
        let alias = text::trimmed(split_alias(line).1);
        let parts = text::filled(text::split_on(text::shed_end(text::shed_start(full, "\\"@), "\\"@), '\\'));
        if parts.len() == 0 {
            Seq::empty()
        } else {
            let name = parts[parts.len() - 1];
            seq![
                one_import(
                    text::join_upto(parts, "\\"@, (parts.len() - 1) as nat),
                    if alias.len() == 0 {
                        name
                    } else {
                        alias
                    },
                    name,
                ),
            ]
        }
    } else {
        Seq::empty()
    }
}

/// What the first `n` clauses of a PHP `use` bring in.
pub open spec fn php_clauses(t: Seq<NodeText>, s: Seq<char>, list: Seq<int>, n: nat) -> Seq<
    ImportText,
>
    decreases n,
{
    if n == 0 {
        Seq::empty()
    } else {
        php_clauses(t, s, list, (n - 1) as nat) + php_clause(t, s, list[n - 1])
    }
}

/// What one `use` of a PHP file brings in.
pub open spec fn php_imports(t: Seq<NodeText>, s: Seq<char>, i: int) -> Seq<ImportText> {
    php_clauses(t, s, tree::named_kids(t, i), tree::named_kids(t, i).len())
}

/// What one clause of a PHP `use` brings in.
fn php_clause_of(t: &SyntaxTree, src: &Source, i: usize) -> (r: Vec<Import>)
    requires
        i < t@.len(),
        src.valid(),
    ensures
        imports_text(r@) == php_clause(t@, src@, i as int),
{
    if !text::same(t.nodes[i].kind, "namespace_use_clause") {
        return nothing();
    }
    let raw = t.text(i, src);
    let line = text::collapse(raw.as_str());
    let line = drop_prefix(line.as_str(), "function ");
    let line = drop_prefix(line.as_str(), "const ");
    let (full, alias) = cut_alias(line.as_str());
    let alias = text::trim(alias.as_str());
    let full = text::trim_start_set(full.as_str(), "\\");
    let full = text::trim_end_set(full.as_str(), "\\");
    let parts = text::drop_empty(&text::split(full.as_str(), '\\'));
    let ghost all = text::texts(parts@);
    assert(all.len() == parts@.len());
    if parts.len() == 0 {
        nothing()
    } else {
        let last = parts.len() - 1;
        assert(all[last as int] == parts@[last as int]@);
        let none = String::new();
        proof {
            assert(alias@.len() == 0 ==> alias@ =~= none@);
        }
        let local = if text::same(alias.as_str(), none.as_str()) {
            parts[last].clone()
        } else {
            alias
        };
        only(importing(text::join_first(&parts, last, "\\"), local, parts[last].clone()))
    }
}

/// What one `use` of a PHP file brings in.
fn php_at(t: &SyntaxTree, src: &Source, i: usize) -> (r: Vec<Import>)
    requires
        i < t@.len(),
        src.valid(),
    ensures
        imports_text(r@) == php_imports(t@, src@, i as int),
{
    let list = t.named_children(i);
    let ghost all = tree::named_kids(t@, i as int);
    let mut out = nothing();
    let mut k: usize = 0;
    while k < list.len()
        invariant
            k <= list.len(),
            src.valid(),
            tree::ints(list@) == all,
            forall|a: int| 0 <= a < list@.len() ==> i < #[trigger] list@[a] < t@.len(),
            imports_text(out@) == php_clauses(t@, src@, all, k as nat),
        decreases list.len() - k,
    {
        assert(all[k as int] == list@[k as int]);
        let mut more = php_clause_of(t, src, list[k]);
        let ghost before = out@;
        let ghost added = more@;
        out.append(&mut more);
        assert(imports_text(out@) =~= imports_text(before) + imports_text(added));
        k += 1;
    }
    out
}

// ------------------------------------------------------------------ a file

/// Does a node of this kind import something, for a language whose imports
/// may stand inside something else?
pub open spec fn imports_here(style: ImportStyle, k: Seq<char>) -> bool {
    match style {
        ImportStyle::Go => k == "import_spec"@,
        ImportStyle::CSharp => k == "using_directive"@,
        ImportStyle::CLike => k == "preproc_include"@,
        ImportStyle::Php => k == "namespace_use_declaration"@,
        _ => false,
    }
}

/// Can something inside a node of this kind be an import?
pub open spec fn imports_inside(style: ImportStyle, k: Seq<char>) -> bool {
    match style {
        ImportStyle::Go => true,
        ImportStyle::CSharp => k == "namespace_declaration"@ || k
            == "file_scoped_namespace_declaration"@ || k == "declaration_list"@,
        ImportStyle::CLike => k == "namespace_definition"@ || k == "declaration_list"@ || k
            == "linkage_specification"@ || k == "preproc_ifdef"@ || k == "preproc_if"@,
        ImportStyle::Php => k == "namespace_definition"@ || k == "compound_statement"@,
        _ => false,
    }
}

/// The imports at a node or inside it, the later ones first.
pub open spec fn found_at(t: Seq<NodeText>, style: ImportStyle, i: int) -> Seq<int>
    decreases t.len() - i, tree::named_kids(t, i).len() + 2,
{
    if i < 0 || i >= t.len() {
        Seq::empty()
    } else if imports_here(style, t[i].kind) {
        seq![i]
    } else if imports_inside(style, t[i].kind) {
        found_among(t, style, i, tree::named_kids(t, i).len())
    } else {
        Seq::empty()
    }
}

/// The imports at or inside the first `n` children of a node, the later ones
/// first. At the top of a Go file only import declarations hold any.
pub open spec fn found_among(t: Seq<NodeText>, style: ImportStyle, i: int, n: nat) -> Seq<int>
    decreases t.len() - i, n + 1,
{
    if n == 0 || i < 0 || i >= t.len() || n > tree::named_kids(t, i).len() {
        Seq::empty()
    } else {
        proof {
            tree::lemma_kids(t, i);
        }
        let k = tree::named_kids(t, i)[n - 1];
        let rest = found_among(t, style, i, (n - 1) as nat);
        if style == ImportStyle::Go && i == 0 && t[k].kind != "import_declaration"@ {
            rest
        } else if i < k {
            found_at(t, style, k) + rest
        } else {
            Seq::empty()
        }
    }
}

/// The nodes that the imports of a file are read from, in the order in which
/// they are.
pub open spec fn import_nodes(t: Seq<NodeText>, style: ImportStyle) -> Seq<int> {
    match style {
        ImportStyle::Go | ImportStyle::CSharp | ImportStyle::CLike | ImportStyle::Php => found_among(
            t,
            style,
            0,
            tree::named_kids(t, 0).len(),
        ),
        _ => tree::named_kids(t, 0),
    }
}

/// What one node brings in.
pub open spec fn imports_at(t: Seq<NodeText>, s: Seq<char>, l: LangText, i: int) -> Seq<
    ImportText,
> {
    match l.imports {
        ImportStyle::Python => python_imports(t, s, i),
        ImportStyle::TsLike => script_imports(t, s, i, l.names),
        ImportStyle::Go => go_imports(t, s, i),
        ImportStyle::Rust => rust_imports(t, s, i),
        ImportStyle::Java => java_imports(t, s, i),
        ImportStyle::CSharp => sharp_imports(t, s, i),
        ImportStyle::Ruby => ruby_imports(t, s, i),
        ImportStyle::CLike => header_imports(t, s, i),
        ImportStyle::Php => php_imports(t, s, i),
    }
}

/// What the first `n` nodes bring in.
pub open spec fn imports_upto(
    t: Seq<NodeText>,
    s: Seq<char>,
    l: LangText,
    list: Seq<int>,
    n: nat,
) -> Seq<ImportText>
    decreases n,
{
    if n == 0 {
        Seq::empty()
    } else {
        imports_upto(t, s, l, list, (n - 1) as nat) + imports_at(t, s, l, list[n - 1])
    }
}

/// What a file brings in.
pub open spec fn file_imports(t: Seq<NodeText>, s: Seq<char>, l: LangText) -> Seq<ImportText> {
    imports_upto(t, s, l, import_nodes(t, l.imports), import_nodes(t, l.imports).len())
}

/// Does a node of this kind import something?
fn is_import_here(style: ImportStyle, k: &str) -> (r: bool)
    ensures
        r == imports_here(style, k@),
{
    match style {
        ImportStyle::Go => text::same(k, "import_spec"),
        ImportStyle::CSharp => text::same(k, "using_directive"),
        ImportStyle::CLike => text::same(k, "preproc_include"),
        ImportStyle::Php => text::same(k, "namespace_use_declaration"),
        _ => false,
    }
}

/// Can something inside a node of this kind be an import?
fn is_import_inside(style: ImportStyle, k: &str) -> (r: bool)
    ensures
        r == imports_inside(style, k@),
{
    match style {
        ImportStyle::Go => true,
        ImportStyle::CSharp => text::same(k, "namespace_declaration") || text::same(
            k,
            "file_scoped_namespace_declaration",
        ) || text::same(k, "declaration_list"),
        ImportStyle::CLike => text::same(k, "namespace_definition") || text::same(k, "declaration_list")
            || text::same(k, "linkage_specification") || text::same(k, "preproc_ifdef") || text::same(
            k,
            "preproc_if",
        ),
        ImportStyle::Php => text::same(k, "namespace_definition") || text::same(k, "compound_statement"),
        _ => false,
    }
}

/// The imports at a node or inside it, the later ones first.
fn find_at_node(t: &SyntaxTree, style: ImportStyle, i: usize) -> (r: Vec<usize>)
    requires
        i < t@.len(),
    ensures
        tree::ints(r@) == found_at(t@, style, i as int),
        forall|a: int| 0 <= a < r@.len() ==> #[trigger] r@[a] < t@.len(),
    decreases t@.len() - i, 1nat,
{
    if is_import_here(style, t.nodes[i].kind) {
        let mut v: Vec<usize> = Vec::new();
        v.push(i);
        assert(tree::ints(v@) =~= seq![i as int]);
        v
    } else if is_import_inside(style, t.nodes[i].kind) {
        find_among(t, style, i)
    } else {
        let v: Vec<usize> = Vec::new();
        assert(tree::ints(v@) =~= Seq::<int>::empty());
        v
    }
}

/// The imports at or inside the children of a node, the later ones first.
fn find_among(t: &SyntaxTree, style: ImportStyle, i: usize) -> (r: Vec<usize>)
    requires
        i < t@.len(),
    ensures
        tree::ints(r@) == found_among(t@, style, i as int, tree::named_kids(t@, i as int).len()),
        forall|a: int| 0 <= a < r@.len() ==> #[trigger] r@[a] < t@.len(),
    decreases t@.len() - i, 0nat,
{
    let list = t.named_children(i);
    let ghost all = tree::named_kids(t@, i as int);
    let ghost whole = found_among(t@, style, i as int, all.len());
    let mut out: Vec<usize> = Vec::new();
    let mut n: usize = list.len();
    assert(tree::ints(out@) =~= Seq::<int>::empty());
    assert(whole =~= tree::ints(out@) + whole);
    while n > 0
        invariant
            n <= list.len(),
            i < t@.len(),
            tree::ints(list@) == all,
            all == tree::named_kids(t@, i as int),
            forall|a: int| 0 <= a < list@.len() ==> i < #[trigger] list@[a] < t@.len(),
            forall|a: int| 0 <= a < out@.len() ==> #[trigger] out@[a] < t@.len(),
            whole == tree::ints(out@) + found_among(t@, style, i as int, n as nat),
        decreases n,
    {
        assert(all[n - 1] == list@[n - 1]);
        let k = list[n - 1];
        let top = match style {
            ImportStyle::Go => i == 0,
            _ => false,
        };
        let ghost rest = found_among(t@, style, i as int, (n - 1) as nat);
        if !top || text::same(t.nodes[k].kind, "import_declaration") {
            let mut more = find_at_node(t, style, k);
            let ghost before = out@;
            let ghost added = more@;
            out.append(&mut more);
            assert(tree::ints(out@) =~= tree::ints(before) + tree::ints(added));
            assert(tree::ints(before) + (tree::ints(added) + rest) =~= tree::ints(out@) + rest);
        }
        n -= 1;
    }
    assert(whole =~= tree::ints(out@));
    out
}

/// What one node brings in.
fn import_at(t: &SyntaxTree, src: &Source, spec: &LangSpec, i: usize) -> (r: Vec<Import>)
    requires
        i < t@.len(),
        src.valid(),
    ensures
        imports_text(r@) == imports_at(t@, src@, spec@, i as int),
{
    match spec.imports {
        ImportStyle::Python => python_at(t, src, i),
        ImportStyle::TsLike => script_at(t, src, i, spec),
        ImportStyle::Go => go_at(t, src, i),
        ImportStyle::Rust => rust_at(t, src, i),
        ImportStyle::Java => java_at(t, src, i),
        ImportStyle::CSharp => sharp_at(t, src, i),
        ImportStyle::Ruby => ruby_at(t, src, i),
        ImportStyle::CLike => header_at(t, src, i),
        ImportStyle::Php => php_at(t, src, i),
    }
}

/// What a file brings in.
pub fn imports_of(t: &SyntaxTree, src: &Source, spec: &LangSpec) -> (r: Vec<Import>)
    requires
        t@.len() > 0,
        src.valid(),
    ensures
        imports_text(r@) == file_imports(t@, src@, spec@),
{
    let list = match spec.imports {
        ImportStyle::Go | ImportStyle::CSharp | ImportStyle::CLike | ImportStyle::Php => find_among(
            t,
            spec.imports,
            0,
        ),
        _ => t.named_children(0),
    };
    let ghost all = import_nodes(t@, spec@.imports);
    let mut out = nothing();
    let mut k: usize = 0;
    while k < list.len()
        invariant
            k <= list.len(),
            src.valid(),
            tree::ints(list@) == all,
            forall|a: int| 0 <= a < list@.len() ==> #[trigger] list@[a] < t@.len(),
            imports_text(out@) == imports_upto(t@, src@, spec@, all, k as nat),
        decreases list.len() - k,
    {
        assert(all[k as int] == list@[k as int]);
        let mut more = import_at(t, src, spec, list[k]);
        let ghost before = out@;
        let ghost added = more@;
        out.append(&mut more);
        assert(imports_text(out@) =~= imports_text(before) + imports_text(added));
        k += 1;
    }
    out
}

} // verus!

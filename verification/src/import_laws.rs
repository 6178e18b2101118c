//! What the statements of a file bring in, said of the nodes that a parser
//! makes of them.
use vstd::prelude::*;
use crate::tree;
use crate::text;
use crate::imports;
use crate::graph::ImportText;
use crate::langs::{ImportStyle, LangText};
use crate::tree::NodeText;

verus! {

// ------------------------------------------------------------------ a file

/// What a node brings in is among what the nodes bring in.
proof fn lemma_node_brings_in(
    t: Seq<NodeText>,
    s: Seq<char>,
    l: LangText,
    list: Seq<int>,
    n: nat,
    a: int,
    x: ImportText,
)
    requires
        0 <= a < n <= list.len(),
        imports::imports_at(t, s, l, list[a]).contains(x),
    ensures
        imports::imports_upto(t, s, l, list, n).contains(x),
    decreases n,
{
    let rest = imports::imports_upto(t, s, l, list, (n - 1) as nat);
    let last = imports::imports_at(t, s, l, list[n - 1]);
    if a == n - 1 {
        lemma_in_second(rest, last, x);
    } else {
        lemma_node_brings_in(t, s, l, list, (n - 1) as nat, a, x);
        lemma_in_first(rest, last, x);
    }
}

/// What is in the first of two lists is in both together.
proof fn lemma_in_first<T>(a: Seq<T>, b: Seq<T>, x: T)
    requires
        a.contains(x),
    ensures
        (a + b).contains(x),
{
    let k = choose|k: int| 0 <= k < a.len() && a[k] == x;
    assert((a + b)[k] == x);
}

/// What is in the second of two lists is in both together.
proof fn lemma_in_second<T>(a: Seq<T>, b: Seq<T>, x: T)
    requires
        b.contains(x),
    ensures
        (a + b).contains(x),
{
    let k = choose|k: int| 0 <= k < b.len() && b[k] == x;
    assert((a + b)[a.len() + k] == x);
}

/// A list of one holds that one.
proof fn lemma_in_one<T>(x: T)
    ensures
        seq![x].contains(x),
{
    assert(seq![x][0] == x);
}

/// Does one of the statements of a file, at the top of it, bring this in?
proof fn lemma_statement(t: Seq<NodeText>, s: Seq<char>, l: LangText, a: int, x: ImportText)
    requires
        0 <= a < tree::named_kids(t, 0).len(),
        l.imports == ImportStyle::Python || l.imports == ImportStyle::TsLike || l.imports
            == ImportStyle::Rust || l.imports == ImportStyle::Java || l.imports
            == ImportStyle::Ruby,
        imports::imports_at(t, s, l, tree::named_kids(t, 0)[a]).contains(x),
    ensures
        imports::file_imports(t, s, l).contains(x),
{
    let list = tree::named_kids(t, 0);
    lemma_node_brings_in(t, s, l, list, list.len(), a, x);
}

/// Every import of a file comes from one of the nodes that its imports are
/// read from.
pub proof fn law_every_import_comes_from_a_node(
    t: Seq<NodeText>,
    s: Seq<char>,
    l: LangText,
    list: Seq<int>,
    n: nat,
    x: ImportText,
)
    requires
        n <= list.len(),
        imports::imports_upto(t, s, l, list, n).contains(x),
    ensures
        exists|a: int| 0 <= a < n && imports::imports_at(t, s, l, #[trigger] list[a]).contains(x),
    decreases n,
{
    let rest = imports::imports_upto(t, s, l, list, (n - 1) as nat);
    let last = imports::imports_at(t, s, l, list[n - 1]);
    let k = choose|k: int| 0 <= k < (rest + last).len() && (rest + last)[k] == x;
    if k < rest.len() {
        assert(rest[k] == x);
        law_every_import_comes_from_a_node(t, s, l, list, (n - 1) as nat, x);
    } else {
        assert(last[k - rest.len()] == x);
        assert(imports::imports_at(t, s, l, list[n - 1]).contains(x));
    }
}

/// A module string stands between its quotes, or in angle brackets: without
/// them it is what is imported.
pub proof fn law_quotes_are_taken_off(first: char, module: Seq<char>, last: char)
    requires
        first == last && (first == '"' || first == '\'' || first == '`') || first == '<' && last
            == '>',
    ensures
        imports::unquoted(seq![first] + module + seq![last]) == module,
{
    let x = seq![first] + module + seq![last];
    let none = text::no_text();
    text::law_trimming_takes_the_margins(none, x, none);
    assert(none + x + none =~= x);
    assert(x.subrange(1, x.len() - 1) =~= module);
}

// -------------------------------------------- TypeScript and JavaScript

/// What a variable brings in is among what its statement brings in.
proof fn lemma_required(t: Seq<NodeText>, s: Seq<char>, list: Seq<int>, n: nat, a: int, x: ImportText)
    requires
        0 <= a < n <= list.len(),
        imports::required(t, s, list[a]).contains(x),
    ensures
        imports::required_upto(t, s, list, n).contains(x),
    decreases n,
{
    let rest = imports::required_upto(t, s, list, (n - 1) as nat);
    let last = imports::required(t, s, list[n - 1]);
    if a == n - 1 {
        lemma_in_second(rest, last, x);
    } else {
        lemma_required(t, s, list, (n - 1) as nat, a, x);
        lemma_in_first(rest, last, x);
    }
}

/// Does the variable at the node get its value by requiring what stands at
/// another node, and is it declared by a third?
pub open spec fn is_required(
    t: Seq<NodeText>,
    s: Seq<char>,
    decl: int,
    declared: int,
    arg: int,
) -> bool {
    &&& t[decl].kind == "variable_declarator"@
    &&& tree::field(t, decl, "name"@) == Some(declared)
    &&& exists|value: int, func: int, args: int|
        #![trigger t[value], t[func], t[args]]
        tree::field(t, decl, "value"@) == Some(value) && t[value].kind == "call_expression"@
            && tree::field(t, value, "function"@) == Some(func) && tree::node_text(s, t[func])
            == "require"@ && tree::field(t, value, "arguments"@) == Some(args) && tree::named_kids(
            t,
            args,
        ).len() > 0 && tree::named_kids(t, args)[0] == arg
}

/// Is the node a declaration of variables?
pub open spec fn declares_variables(t: Seq<NodeText>, i: int) -> bool {
    t[i].kind == "lexical_declaration"@ || t[i].kind == "variable_declaration"@
}

/// The kinds of statements are told apart by their spelling.
proof fn lemma_statement_kinds()
    ensures
        "lexical_declaration"@ != "import_statement"@,
        "variable_declaration"@ != "import_statement"@,
        "lexical_declaration"@ != "export_statement"@,
        "variable_declaration"@ != "export_statement"@,
        "import_statement"@ != "export_statement"@,
        "import_statement"@ != "import_from_statement"@,
        "lexical_declaration"@ != "decorated_definition"@,
        "variable_declaration"@ != "decorated_definition"@,
        "lexical_declaration"@ != "template_declaration"@,
        "variable_declaration"@ != "template_declaration"@,
{
    reveal_strlit("decorated_definition");
    reveal_strlit("template_declaration");
    assert("decorated_definition"@[0] == 'd' && "template_declaration"@[0] == 't');
    reveal_strlit("lexical_declaration");
    reveal_strlit("variable_declaration");
    reveal_strlit("import_statement");
    reveal_strlit("export_statement");
    reveal_strlit("import_from_statement");
    assert("lexical_declaration"@.len() == 19 && "lexical_declaration"@[0] == 'l');
    assert("variable_declaration"@.len() == 20 && "variable_declaration"@[0] == 'v');
    assert("import_statement"@.len() == 16 && "import_statement"@[0] == 'i');
    assert("export_statement"@.len() == 16 && "export_statement"@[0] == 'e');
    assert("import_from_statement"@.len() == 21);
}

/// A name declared as what a `require` gives brings in that module: the
/// module is the string that is required, without its quotes, and the name is
/// bound to all of it.
pub proof fn law_a_required_module_is_imported(
    t: Seq<NodeText>,
    s: Seq<char>,
    l: LangText,
    a: int,
    d: int,
    declared: int,
    arg: int,
    quote: char,
    module: Seq<char>,
)
    requires
        l.imports == ImportStyle::TsLike,
        0 <= a < tree::named_kids(t, 0).len(),
        declares_variables(t, tree::named_kids(t, 0)[a]),
        0 <= d < tree::named_kids(t, tree::named_kids(t, 0)[a]).len(),
        is_required(
            t,
            s,
            tree::named_kids(t, tree::named_kids(t, 0)[a])[d],
            declared,
            arg,
        ),
        quote == '"' || quote == '\'' || quote == '`',
        tree::node_text(s, t[arg]) == seq![quote] + module + seq![quote],
        t[declared].kind == "identifier"@,
    ensures
        imports::file_imports(t, s, l).contains(
            (ImportText { module, names: seq![(tree::node_text(s, t[declared]), "*"@)] }),
        ),
{
    let i = tree::named_kids(t, 0)[a];
    let list = tree::named_kids(t, i);
    let x = ImportText { module, names: seq![(tree::node_text(s, t[declared]), "*"@)] };
    law_quotes_are_taken_off(quote, module, quote);
    lemma_statement_kinds();
    lemma_in_one(x);
    assert(imports::required(t, s, list[d]) == seq![x]);
    lemma_required(t, s, list, list.len(), d, x);
    assert(imports::script_imports(t, s, i, l.names) == imports::required_upto(
        t,
        s,
        list,
        list.len(),
    ));
    lemma_statement(t, s, l, a, x);
}

/// A name that a pattern takes under its own name is among those it takes.
proof fn lemma_shorthand(t: Seq<NodeText>, s: Seq<char>, list: Seq<int>, n: nat, k: int)
    requires
        0 <= k < n <= list.len(),
        t[list[k]].kind == "shorthand_property_identifier_pattern"@,
    ensures
        imports::shorthand_names(t, s, list, n).contains(
            (tree::node_text(s, t[list[k]]), tree::node_text(s, t[list[k]])),
        ),
    decreases n,
{
    let rest = imports::shorthand_names(t, s, list, (n - 1) as nat);
    let all = imports::shorthand_names(t, s, list, n);
    let x = (tree::node_text(s, t[list[k]]), tree::node_text(s, t[list[k]]));
    if k == n - 1 {
        assert(all[rest.len() as int] == x);
    } else {
        lemma_shorthand(t, s, list, (n - 1) as nat, k);
        let m = choose|m: int| 0 <= m < rest.len() && rest[m] == x;
        assert(all[m] == x);
    }
}

/// A pattern declared as what a `require` gives brings in that module, with
/// each name that the pattern takes under its own name bound to that name of
/// the module.
pub proof fn law_required_names_are_imported(
    t: Seq<NodeText>,
    s: Seq<char>,
    l: LangText,
    a: int,
    d: int,
    declared: int,
    arg: int,
    quote: char,
    module: Seq<char>,
) -> (x: ImportText)
    requires
        l.imports == ImportStyle::TsLike,
        0 <= a < tree::named_kids(t, 0).len(),
        declares_variables(t, tree::named_kids(t, 0)[a]),
        0 <= d < tree::named_kids(t, tree::named_kids(t, 0)[a]).len(),
        is_required(
            t,
            s,
            tree::named_kids(t, tree::named_kids(t, 0)[a])[d],
            declared,
            arg,
        ),
        quote == '"' || quote == '\'' || quote == '`',
        tree::node_text(s, t[arg]) == seq![quote] + module + seq![quote],
        t[declared].kind != "identifier"@,
    ensures
        imports::file_imports(t, s, l).contains(x),
        x.module == module,
        forall|k: int|
            0 <= k < tree::named_kids(t, declared).len() && (t[#[trigger] tree::named_kids(
                t,
                declared,
            )[k]]).kind == "shorthand_property_identifier_pattern"@ ==> x.names.contains(
                (
                    tree::node_text(s, t[tree::named_kids(t, declared)[k]]),
                    tree::node_text(s, t[tree::named_kids(t, declared)[k]]),
                ),
            ),
{
    let i = tree::named_kids(t, 0)[a];
    let list = tree::named_kids(t, i);
    let taken = tree::named_kids(t, declared);
    let x = ImportText { module, names: imports::shorthand_names(t, s, taken, taken.len()) };
    law_quotes_are_taken_off(quote, module, quote);
    lemma_statement_kinds();
    lemma_in_one(x);
    assert(imports::required(t, s, list[d]) == seq![x]);
    lemma_required(t, s, list, list.len(), d, x);
    assert(imports::script_imports(t, s, i, l.names) == imports::required_upto(
        t,
        s,
        list,
        list.len(),
    ));
    lemma_statement(t, s, l, a, x);
    assert forall|k: int|
        0 <= k < taken.len() && (t[#[trigger] taken[k]]).kind
            == "shorthand_property_identifier_pattern"@ implies x.names.contains(
        (tree::node_text(s, t[taken[k]]), tree::node_text(s, t[taken[k]])),
    ) by {
        lemma_shorthand(t, s, taken, taken.len(), k);
    }
    x
}

/// What a part of an import clause names is among what the clause names.
proof fn lemma_clause_part(
    t: Seq<NodeText>,
    s: Seq<char>,
    list: Seq<int>,
    n: nat,
    k: int,
    x: (Seq<char>, Seq<char>),
)
    requires
        0 <= k < n <= list.len(),
        imports::clause_part(t, s, list[k]).contains(x),
    ensures
        imports::clause_parts(t, s, list, n).contains(x),
    decreases n,
{
    let rest = imports::clause_parts(t, s, list, (n - 1) as nat);
    let last = imports::clause_part(t, s, list[n - 1]);
    if k == n - 1 {
        lemma_in_second(rest, last, x);
    } else {
        lemma_clause_part(t, s, list, (n - 1) as nat, k, x);
        lemma_in_first(rest, last, x);
    }
}

/// What a specifier names is among what the braces name.
proof fn lemma_specifier(
    t: Seq<NodeText>,
    s: Seq<char>,
    list: Seq<int>,
    n: nat,
    k: int,
    x: (Seq<char>, Seq<char>),
)
    requires
        0 <= k < n <= list.len(),
        imports::specifier_name(t, s, list[k]).contains(x),
    ensures
        imports::specifier_names(t, s, list, n).contains(x),
    decreases n,
{
    let rest = imports::specifier_names(t, s, list, (n - 1) as nat);
    let last = imports::specifier_name(t, s, list[n - 1]);
    if k == n - 1 {
        lemma_in_second(rest, last, x);
    } else {
        lemma_specifier(t, s, list, (n - 1) as nat, k, x);
        lemma_in_first(rest, last, x);
    }
}

/// Does the part of an import clause bind a name to a name of the module: a
/// bare name to its default, a name behind a star to all of it, a name in
/// braces to itself, or under the alias that it is given?
pub open spec fn part_binds(
    t: Seq<NodeText>,
    s: Seq<char>,
    part: int,
    local: Seq<char>,
    name: Seq<char>,
) -> bool {
    ||| t[part].kind == "identifier"@ && local == tree::node_text(s, t[part]) && name
        == "default"@
    ||| t[part].kind == "namespace_import"@ && name == "*"@ && exists|k: int|
        0 <= k < tree::named_kids(t, part).len() && tree::named_kids(t, part).len() == 1 && t[#[trigger] tree::named_kids(
            t,
            part,
        )[k]].kind == "identifier"@ && local == tree::node_text(
            s,
            t[tree::named_kids(t, part)[k]],
        )
    ||| t[part].kind == "named_imports"@ && exists|k: int|
        0 <= k < tree::named_kids(t, part).len() && specifier_binds(
            t,
            s,
            #[trigger] tree::named_kids(t, part)[k],
            local,
            name,
        )
}

/// Does a specifier in braces bind a name to a name of the module?
pub open spec fn specifier_binds(
    t: Seq<NodeText>,
    s: Seq<char>,
    i: int,
    local: Seq<char>,
    name: Seq<char>,
) -> bool {
    &&& t[i].kind == "import_specifier"@
    &&& exists|n: int| tree::field(t, i, "name"@) == Some(n) && tree::node_text(
        s,
        #[trigger] t[n],
    ) == name
    &&& match tree::field(t, i, "alias"@) {
        Some(al) => local == tree::node_text(s, t[al]),
        None => local == name,
    }
}

/// The parts of a clause are told apart by their kinds.
proof fn lemma_part_kinds()
    ensures
        "identifier"@ != "namespace_import"@,
        "identifier"@ != "named_imports"@,
        "namespace_import"@ != "named_imports"@,
{
    reveal_strlit("identifier");
    reveal_strlit("namespace_import");
    reveal_strlit("named_imports");
    assert("identifier"@.len() == 10 && "namespace_import"@.len() == 16 && "named_imports"@.len()
        == 13);
}

/// What a part of an import clause binds, it names.
proof fn lemma_part_binds(
    t: Seq<NodeText>,
    s: Seq<char>,
    part: int,
    local: Seq<char>,
    name: Seq<char>,
)
    requires
        part_binds(t, s, part, local, name),
    ensures
        imports::clause_part(t, s, part).contains((local, name)),
{
    lemma_part_kinds();
    lemma_in_one((local, name));
    let list = tree::named_kids(t, part);
    if t[part].kind == "identifier"@ {
    } else if t[part].kind == "namespace_import"@ {
        let k = choose|k: int|
            0 <= k < list.len() && list.len() == 1 && t[#[trigger] list[k]].kind == "identifier"@
                && local == tree::node_text(s, t[list[k]]);
        let want = |k: Seq<char>| k == "identifier"@;
        reveal_with_fuel(tree::first_from, 2);
        assert(tree::first_from(t, list, want, 0) == Some(list[k]));
    } else {
        let k = choose|k: int|
            0 <= k < list.len() && specifier_binds(t, s, #[trigger] list[k], local, name);
        assert(imports::specifier_name(t, s, list[k]) == seq![(local, name)]);
        lemma_specifier(t, s, list, list.len(), k, (local, name));
    }
}

/// An import statement brings in the module that its source names, without
/// the quotes, with every name that its clause binds; without a clause it
/// brings in everything.
pub proof fn law_an_import_statement_binds_its_names(
    t: Seq<NodeText>,
    s: Seq<char>,
    l: LangText,
    a: int,
    source: int,
    quote: char,
    module: Seq<char>,
) -> (x: ImportText)
    requires
        l.imports == ImportStyle::TsLike,
        0 <= a < tree::named_kids(t, 0).len(),
        t[tree::named_kids(t, 0)[a]].kind == "import_statement"@,
        tree::field(t, tree::named_kids(t, 0)[a], "source"@) == Some(source),
        quote == '"' || quote == '\'' || quote == '`',
        tree::node_text(s, t[source]) == seq![quote] + module + seq![quote],
    ensures
        imports::file_imports(t, s, l).contains(x),
        x.module == module,
        match tree::first_kid(
            t,
            tree::named_kids(t, 0)[a],
            |k: Seq<char>| k == "import_clause"@,
        ) {
            None => x.names == seq![("*"@, "*"@)],
            Some(clause) => forall|k: int, local: Seq<char>, name: Seq<char>|
                0 <= k < tree::named_kids(t, clause).len() && #[trigger] part_binds(
                    t,
                    s,
                    tree::named_kids(t, clause)[k],
                    local,
                    name,
                ) ==> x.names.contains((local, name)),
        },
{
    let i = tree::named_kids(t, 0)[a];
    let x = imports::script_imports(t, s, i, l.names)[0];
    law_quotes_are_taken_off(quote, module, quote);
    lemma_in_one(x);
    assert(imports::script_imports(t, s, i, l.names) =~= seq![x]);
    lemma_statement(t, s, l, a, x);
    if let Some(clause) = tree::first_kid(t, i, |k: Seq<char>| k == "import_clause"@) {
        let list = tree::named_kids(t, clause);
        assert forall|k: int, local: Seq<char>, name: Seq<char>|
            0 <= k < list.len() && #[trigger] part_binds(t, s, list[k], local, name) implies x.names.contains(
            (local, name),
        ) by {
            lemma_part_binds(t, s, list[k], local, name);
            lemma_clause_part(t, s, list, list.len(), k, (local, name));
        }
    }
    x
}

/// Exporting from a module brings in everything of it.
pub proof fn law_exporting_from_a_module_imports_it(
    t: Seq<NodeText>,
    s: Seq<char>,
    l: LangText,
    a: int,
    source: int,
    quote: char,
    module: Seq<char>,
)
    requires
        l.imports == ImportStyle::TsLike,
        0 <= a < tree::named_kids(t, 0).len(),
        t[tree::named_kids(t, 0)[a]].kind == "export_statement"@,
        tree::field(t, tree::named_kids(t, 0)[a], "source"@) == Some(source),
        quote == '"' || quote == '\'' || quote == '`',
        tree::node_text(s, t[source]) == seq![quote] + module + seq![quote],
    ensures
        imports::file_imports(t, s, l).contains(
            (ImportText { module, names: seq![("*"@, "*"@)] }),
        ),
{
    let x = ImportText { module, names: seq![("*"@, "*"@)] };
    law_quotes_are_taken_off(quote, module, quote);
    lemma_statement_kinds();
    lemma_in_one(x);
    lemma_statement(t, s, l, a, x);
}

// ------------------------------------------------------------------ Python

/// What a clause brings in is among what its statement brings in.
proof fn lemma_clause(
    t: Seq<NodeText>,
    s: Seq<char>,
    list: Seq<int>,
    n: nat,
    a: int,
    x: ImportText,
)
    requires
        0 <= a < n <= list.len(),
        imports::python_clause(t, s, list[a]).contains(x),
    ensures
        imports::python_clauses(t, s, list, n).contains(x),
    decreases n,
{
    let rest = imports::python_clauses(t, s, list, (n - 1) as nat);
    let last = imports::python_clause(t, s, list[n - 1]);
    if a == n - 1 {
        lemma_in_second(rest, last, x);
    } else {
        lemma_clause(t, s, list, (n - 1) as nat, a, x);
        lemma_in_first(rest, last, x);
    }
}

/// A dotted name and one with another name are told apart by their kinds.
proof fn lemma_clause_kinds()
    ensures
        "dotted_name"@ != "aliased_import"@,
        "dotted_name"@ != "wildcard_import"@,
        "aliased_import"@ != "wildcard_import"@,
{
    reveal_strlit("dotted_name");
    reveal_strlit("aliased_import");
    reveal_strlit("wildcard_import");
    assert("dotted_name"@.len() == 11 && "aliased_import"@.len() == 14
        && "wildcard_import"@.len() == 15);
}

/// `import head.rest` brings in the module, and binds the first part of its
/// name to it.
pub proof fn law_a_plain_import_binds_its_first_part(
    t: Seq<NodeText>,
    s: Seq<char>,
    l: LangText,
    a: int,
    c: int,
    head: Seq<char>,
    rest: Seq<char>,
)
    requires
        l.imports == ImportStyle::Python,
        0 <= a < tree::named_kids(t, 0).len(),
        t[tree::named_kids(t, 0)[a]].kind == "import_statement"@,
        0 <= c < tree::named_kids(t, tree::named_kids(t, 0)[a]).len(),
        t[tree::named_kids(t, tree::named_kids(t, 0)[a])[c]].kind == "dotted_name"@,
        !head.contains('.'),
        rest.len() == 0 || rest[0] == '.',
        tree::node_text(s, t[tree::named_kids(t, tree::named_kids(t, 0)[a])[c]]) == head + rest,
    ensures
        imports::file_imports(t, s, l).contains(
            (ImportText { module: head + rest, names: seq![(head, "*"@)] }),
        ),
{
    let i = tree::named_kids(t, 0)[a];
    let list = tree::named_kids(t, i);
    let x = ImportText { module: head + rest, names: seq![(head, "*"@)] };
    let n = head.len() as int;
    assert forall|k: int| 0 <= k < n implies (head + rest)[k] != '.' by {
        assert((head + rest)[k] == head[k]);
    }
    if rest.len() > 0 {
        assert((head + rest)[n] == rest[0]);
    }
    text::lemma_next_of_at(head + rest, '.', 0, n);
    assert((head + rest).take(n) =~= head);
    lemma_clause_kinds();
    lemma_in_one(x);
    lemma_clause(t, s, list, list.len(), c, x);
    lemma_statement(t, s, l, a, x);
}

/// `import module as local` brings in the module, and binds the name to it.
pub proof fn law_an_aliased_import_binds_its_alias(
    t: Seq<NodeText>,
    s: Seq<char>,
    l: LangText,
    a: int,
    c: int,
    name: int,
    alias: int,
)
    requires
        l.imports == ImportStyle::Python,
        0 <= a < tree::named_kids(t, 0).len(),
        t[tree::named_kids(t, 0)[a]].kind == "import_statement"@,
        0 <= c < tree::named_kids(t, tree::named_kids(t, 0)[a]).len(),
        t[tree::named_kids(t, tree::named_kids(t, 0)[a])[c]].kind == "aliased_import"@,
        tree::field(t, tree::named_kids(t, tree::named_kids(t, 0)[a])[c], "name"@) == Some(name),
        tree::field(t, tree::named_kids(t, tree::named_kids(t, 0)[a])[c], "alias"@) == Some(alias),
    ensures
        imports::file_imports(t, s, l).contains(
            (ImportText {
                module: tree::node_text(s, t[name]),
                names: seq![(tree::node_text(s, t[alias]), "*"@)],
            }),
        ),
{
    let i = tree::named_kids(t, 0)[a];
    let list = tree::named_kids(t, i);
    let x = ImportText {
        module: tree::node_text(s, t[name]),
        names: seq![(tree::node_text(s, t[alias]), "*"@)],
    };
    lemma_in_one(x);
    lemma_clause(t, s, list, list.len(), c, x);
    lemma_statement(t, s, l, a, x);
}

/// What a node names is among what the nodes name.
proof fn lemma_python_name(
    t: Seq<NodeText>,
    s: Seq<char>,
    list: Seq<int>,
    module: Option<int>,
    n: nat,
    k: int,
    x: (Seq<char>, Seq<char>),
)
    requires
        0 <= k < n <= list.len(),
        module != Some(list[k]),
        imports::python_name(t, s, list[k]).contains(x),
    ensures
        imports::python_names(t, s, list, module, n).contains(x),
    decreases n,
{
    let rest = imports::python_names(t, s, list, module, (n - 1) as nat);
    let last = imports::python_name(t, s, list[n - 1]);
    if k == n - 1 {
        lemma_in_second(rest, last, x);
    } else {
        lemma_python_name(t, s, list, module, (n - 1) as nat, k, x);
        if module != Some(list[n - 1]) {
            lemma_in_first(rest, last, x);
        }
    }
}

/// Does a node behind `from module import` bind a name to a name of the
/// module: itself, under its alias, or with a star all of them?
pub open spec fn node_binds(
    t: Seq<NodeText>,
    s: Seq<char>,
    i: int,
    local: Seq<char>,
    name: Seq<char>,
) -> bool {
    ||| t[i].kind == "dotted_name"@ && local == tree::node_text(s, t[i]) && name == local
    ||| t[i].kind == "aliased_import"@ && (exists|n: int, al: int|
        #![trigger t[n], t[al]]
        tree::field(t, i, "name"@) == Some(n) && tree::field(t, i, "alias"@) == Some(al) && name
            == tree::node_text(s, t[n]) && local == tree::node_text(s, t[al]))
    ||| t[i].kind == "wildcard_import"@ && local == "*"@ && name == "*"@
}

/// `from module import names` brings in the module, with every name that it
/// names bound.
pub proof fn law_a_from_import_binds_its_names(
    t: Seq<NodeText>,
    s: Seq<char>,
    l: LangText,
    a: int,
    module: int,
) -> (x: ImportText)
    requires
        l.imports == ImportStyle::Python,
        0 <= a < tree::named_kids(t, 0).len(),
        t[tree::named_kids(t, 0)[a]].kind == "import_from_statement"@,
        tree::field(t, tree::named_kids(t, 0)[a], "module_name"@) == Some(module),
    ensures
        imports::file_imports(t, s, l).contains(x),
        x.module == tree::node_text(s, t[module]),
        forall|k: int, local: Seq<char>, name: Seq<char>|
            0 <= k < tree::named_kids(t, tree::named_kids(t, 0)[a]).len() && tree::named_kids(
                t,
                tree::named_kids(t, 0)[a],
            )[k] != module && #[trigger] node_binds(
                t,
                s,
                tree::named_kids(t, tree::named_kids(t, 0)[a])[k],
                local,
                name,
            ) ==> x.names.contains((local, name)),
{
    let i = tree::named_kids(t, 0)[a];
    let list = tree::named_kids(t, i);
    let x = ImportText {
        module: tree::node_text(s, t[module]),
        names: imports::python_names(t, s, list, Some(module), list.len()),
    };
    lemma_statement_kinds();
    lemma_clause_kinds();
    lemma_in_one(x);
    lemma_statement(t, s, l, a, x);
    assert forall|k: int, local: Seq<char>, name: Seq<char>|
        0 <= k < list.len() && list[k] != module && #[trigger] node_binds(
            t,
            s,
            list[k],
            local,
            name,
        ) implies x.names.contains((local, name)) by {
        lemma_in_one((local, name));
        assert(imports::python_name(t, s, list[k]) == seq![(local, name)]);
        lemma_python_name(t, s, list, Some(module), list.len(), k, (local, name));
    }
    x
}

// --------------------------------------------------------- Ruby, Go and C

/// Requiring, requiring from here, or loading a file brings in all of it.
pub proof fn law_a_ruby_require_imports_all(
    t: Seq<NodeText>,
    s: Seq<char>,
    l: LangText,
    a: int,
    func: int,
    args: int,
    quote: char,
    module: Seq<char>,
)
    requires
        l.imports == ImportStyle::Ruby,
        0 <= a < tree::named_kids(t, 0).len(),
        t[tree::named_kids(t, 0)[a]].kind == "call"@,
        tree::field(t, tree::named_kids(t, 0)[a], "method"@) == Some(func),
        tree::field(t, tree::named_kids(t, 0)[a], "arguments"@) == Some(args),
        tree::node_text(s, t[func]) == "require"@ || tree::node_text(s, t[func])
            == "require_relative"@ || tree::node_text(s, t[func]) == "load"@,
        tree::named_kids(t, args).len() > 0,
        quote == '"' || quote == '\'',
        tree::node_text(s, t[tree::named_kids(t, args)[0]]) == seq![quote] + module + seq![quote],
    ensures
        imports::file_imports(t, s, l).contains(
            (ImportText { module, names: seq![("*"@, "*"@)] }),
        ),
{
    let x = ImportText { module, names: seq![("*"@, "*"@)] };
    law_quotes_are_taken_off(quote, module, quote);
    lemma_in_one(x);
    lemma_statement(t, s, l, a, x);
}

/// A Go import brings in the package at its path: under the name that it is
/// given, or under the last part of the path; a blank or a dot for a name
/// brings in everything.
pub proof fn law_a_go_import_binds_its_package(
    t: Seq<NodeText>,
    s: Seq<char>,
    i: int,
    path: int,
    module: Seq<char>,
    above: Seq<char>,
    last: Seq<char>,
)
    requires
        tree::field(t, i, "path"@) == Some(path),
        tree::node_text(s, t[path]) == seq!['"'] + module + seq!['"'],
        last.len() > 0,
        !last.contains('/'),
        module == last || module == above + seq!['/'] + last,
    ensures
        match tree::field(t, i, "name"@) {
            None => last != "_"@ && last != "."@ ==> imports::go_imports(t, s, i) == seq![
                ImportText { module, names: seq![(last, "*"@)] },
            ],
            Some(name) => imports::go_imports(t, s, i) == seq![
                ImportText {
                    module,
                    names: seq![
                        (
                            if tree::node_text(s, t[name]) == "_"@ || tree::node_text(s, t[name])
                                == "."@ {
                                "*"@
                            } else {
                                tree::node_text(s, t[name])
                            },
                            "*"@,
                        ),
                    ],
                },
            ],
        },
{
    law_quotes_are_taken_off('"', module, '"');
    reveal_strlit("/");
    assert(module.last() == last.last());
    assert(last.contains(last.last()));
    assert(!"/"@.contains(module.last()));
    assert(text::out_end(module, "/"@, module.len() as int) == module.len());
    assert(text::shed_end(module, "/"@) =~= module);
    text::lemma_last_below(module, '/', module.len() as int);
    let at = module.len() - last.len();
    assert forall|k: int| at <= k < module.len() implies module[k] != '/' by {
        assert(module[k] == last[k - at]);
        assert(last.contains(last[k - at]));
    }
    if module != last {
        assert(module[at - 1] == '/');
        assert(text::last_of(module, '/') == Some(at - 1));
        assert(module.skip(at) =~= last);
    } else {
        assert(text::last_of(module, '/') is None);
    }
}

/// A header that is pulled in is imported whole, by the path it is written
/// with, without quotes or angle brackets.
pub proof fn law_a_header_is_imported_whole(
    t: Seq<NodeText>,
    s: Seq<char>,
    i: int,
    path: int,
    first: char,
    module: Seq<char>,
    last: char,
)
    requires
        tree::field(t, i, "path"@) == Some(path),
        first == '"' && last == '"' || first == '<' && last == '>',
        tree::node_text(s, t[path]) == seq![first] + module + seq![last],
    ensures
        imports::header_imports(t, s, i) == seq![
            ImportText { module, names: seq![("*"@, "*"@)] },
        ],
{
    law_quotes_are_taken_off(first, module, last);
}

/// A node that imports something is found among the children of the root.
proof fn lemma_found(t: Seq<NodeText>, style: ImportStyle, i: int, n: nat, k: int, j: int)
    requires
        0 <= i < t.len(),
        0 <= k < n <= tree::named_kids(t, i).len(),
        style == ImportStyle::Go && i == 0 ==> t[tree::named_kids(t, i)[k]].kind
            == "import_declaration"@,
        imports::found_at(t, style, tree::named_kids(t, i)[k]).contains(j),
    ensures
        imports::found_among(t, style, i, n).contains(j),
    decreases n,
{
    tree::lemma_kids(t, i);
    let rest = imports::found_among(t, style, i, (n - 1) as nat);
    let c = tree::named_kids(t, i)[n - 1];
    let last = imports::found_at(t, style, c);
    if k == n - 1 {
        lemma_in_first(last, rest, j);
    } else {
        lemma_found(t, style, i, (n - 1) as nat, k, j);
        if !(style == ImportStyle::Go && i == 0 && t[c].kind != "import_declaration"@) {
            lemma_in_second(last, rest, j);
        }
    }
}

/// Is the node one that imports something, in the language's own words?
pub open spec fn is_import_node(style: ImportStyle, kind: Seq<char>) -> bool {
    ||| style == ImportStyle::CSharp && kind == "using_directive"@
    ||| style == ImportStyle::CLike && kind == "preproc_include"@
    ||| style == ImportStyle::Php && kind == "namespace_use_declaration"@
}

/// A directive at the top of a C#, C, C++ or PHP file is read.
pub proof fn law_directives_at_the_top_are_read(
    t: Seq<NodeText>,
    s: Seq<char>,
    l: LangText,
    a: int,
    x: ImportText,
)
    requires
        0 <= a < tree::named_kids(t, 0).len(),
        is_import_node(l.imports, t[tree::named_kids(t, 0)[a]].kind),
        imports::imports_at(t, s, l, tree::named_kids(t, 0)[a]).contains(x),
        t.len() > 0,
    ensures
        imports::file_imports(t, s, l).contains(x),
{
    tree::lemma_kids(t, 0);
    let list = tree::named_kids(t, 0);
    let i = list[a];
    lemma_in_one(i);
    assert(imports::found_at(t, l.imports, i) == seq![i]);
    lemma_found(t, l.imports, 0, list.len(), a, i);
    let nodes = imports::import_nodes(t, l.imports);
    let m = choose|m: int| 0 <= m < nodes.len() && nodes[m] == i;
    lemma_node_brings_in(t, s, l, nodes, nodes.len(), m, x);
}

/// An import of a Go file is read, in the brackets of its declaration or
/// alone.
pub proof fn law_go_imports_are_read(
    t: Seq<NodeText>,
    s: Seq<char>,
    l: LangText,
    a: int,
    b: int,
    x: ImportText,
)
    requires
        l.imports == ImportStyle::Go,
        t.len() > 0,
        0 <= a < tree::named_kids(t, 0).len(),
        t[tree::named_kids(t, 0)[a]].kind == "import_declaration"@,
        0 <= b < tree::named_kids(t, tree::named_kids(t, 0)[a]).len(),
        t[tree::named_kids(t, tree::named_kids(t, 0)[a])[b]].kind == "import_spec"@,
        imports::go_imports(t, s, tree::named_kids(t, tree::named_kids(t, 0)[a])[b]).contains(x),
    ensures
        imports::file_imports(t, s, l).contains(x),
{
    tree::lemma_kids(t, 0);
    let list = tree::named_kids(t, 0);
    let i = list[a];
    tree::lemma_kids(t, i);
    let j = tree::named_kids(t, i)[b];
    lemma_in_one(j);
    reveal_strlit("import_declaration");
    reveal_strlit("import_spec");
    assert("import_declaration"@.len() == 18 && "import_spec"@.len() == 11);
    assert(imports::found_at(t, ImportStyle::Go, j) == seq![j]);
    lemma_found(t, ImportStyle::Go, i, tree::named_kids(t, i).len(), b, j);
    lemma_found(t, ImportStyle::Go, 0, list.len(), a, j);
    let nodes = imports::import_nodes(t, l.imports);
    let m = choose|m: int| 0 <= m < nodes.len() && nodes[m] == j;
    lemma_node_brings_in(t, s, l, nodes, nodes.len(), m, x);
}

// -------------------------------------------------------------------- Rust

/// Is there an import of the module that binds the name to the name?
pub open spec fn has_import(
    v: Seq<ImportText>,
    module: Seq<char>,
    local: Seq<char>,
    name: Seq<char>,
) -> bool {
    exists|k: int|
        0 <= k < v.len() && (#[trigger] v[k]).module == module && v[k].names.contains(
            (local, name),
        )
}

/// A name that is added is there, and so are those that there were.
proof fn lemma_with_used(
    v: Seq<ImportText>,
    u: (Seq<char>, Seq<char>, Seq<char>),
    k: nat,
    module: Seq<char>,
    local: Seq<char>,
    name: Seq<char>,
)
    requires
        k <= v.len(),
    ensures
        has_import(imports::with_used(v, u, k), u.0, u.1, u.2),
        has_import(v, module, local, name) ==> has_import(
            imports::with_used(v, u, k),
            module,
            local,
            name,
        ),
    decreases v.len() - k,
{
    let out = imports::with_used(v, u, k);
    if k >= v.len() {
        let x = imports::one_import(u.0, u.1, u.2);
        lemma_in_one((u.1, u.2));
        assert(out[v.len() as int] == x);
        if has_import(v, module, local, name) {
            let m = choose|m: int|
                0 <= m < v.len() && (#[trigger] v[m]).module == module && v[m].names.contains(
                    (local, name),
                );
            assert(out[m] == v[m]);
        }
    } else if v[k as int].module == u.0 {
        let names = v[k as int].names;
        assert(names.push((u.1, u.2))[names.len() as int] == (u.1, u.2));
        assert(out[k as int].names.contains((u.1, u.2)));
        if has_import(v, module, local, name) {
            let m = choose|m: int|
                0 <= m < v.len() && (#[trigger] v[m]).module == module && v[m].names.contains(
                    (local, name),
                );
            if m == k {
                let q = choose|q: int| 0 <= q < names.len() && names[q] == (local, name);
                assert(out[m].names[q] == (local, name));
            }
            assert(out[m].module == module && out[m].names.contains((local, name)));
        }
    } else {
        lemma_with_used(v, u, k + 1, module, local, name);
    }
}

/// Every name that a `use` tree brings in is bound by an import of its module,
/// whatever else it brings in.
pub proof fn law_used_names_are_kept_by_module(
    used: Seq<(Seq<char>, Seq<char>, Seq<char>)>,
    n: nat,
    k: int,
)
    requires
        0 <= k < n <= used.len(),
    ensures
        has_import(imports::by_module(used, n), used[k].0, used[k].1, used[k].2),
    decreases n,
{
    let rest = imports::by_module(used, (n - 1) as nat);
    lemma_with_used(rest, used[n - 1], 0, used[k].0, used[k].1, used[k].2);
    if k < n - 1 {
        law_used_names_are_kept_by_module(used, (n - 1) as nat, k);
    }
}

/// The kinds of `use` trees are told apart by their spelling.
proof fn lemma_use_kinds()
    ensures
        !imports::used_name_kind("scoped_identifier"@),
        !imports::used_name_kind("use_as_clause"@),
        !imports::used_name_kind("use_wildcard"@),
        !imports::used_name_kind("scoped_use_list"@),
        !imports::used_name_kind("use_list"@),
        "scoped_identifier"@ != "use_as_clause"@,
        "scoped_identifier"@ != "use_wildcard"@,
        "use_as_clause"@ != "use_wildcard"@,
        "scoped_use_list"@ != "scoped_identifier"@,
        "scoped_use_list"@ != "use_as_clause"@,
        "use_list"@ != "scoped_use_list"@,
        "use_list"@ != "scoped_identifier"@,
        "use_list"@ != "use_as_clause"@,
        "use_list"@ != "use_wildcard"@,
        "scoped_use_list"@ != "use_wildcard"@,
{
    reveal_strlit("identifier");
    reveal_strlit("type_identifier");
    reveal_strlit("self");
    reveal_strlit("super");
    reveal_strlit("crate");
    reveal_strlit("scoped_identifier");
    reveal_strlit("use_as_clause");
    reveal_strlit("use_wildcard");
    reveal_strlit("scoped_use_list");
    reveal_strlit("use_list");
    assert("identifier"@.len() == 10 && "type_identifier"@.len() == 15);
    assert("self"@.len() == 4 && "super"@.len() == 5 && "crate"@.len() == 5);
    assert("scoped_identifier"@.len() == 17 && "use_as_clause"@.len() == 13);
    assert("use_wildcard"@.len() == 12 && "scoped_use_list"@.len() == 15);
    assert("use_list"@.len() == 8);
    assert("scoped_use_list"@[0] == 's' && "type_identifier"@[0] == 't');
}

/// `use path::name` brings in the name from the module at the path, under its
/// own name; `use path::name as alias` under the alias; `use path::*`
/// everything.
pub proof fn law_a_rust_use_binds_its_name(
    t: Seq<NodeText>,
    s: Seq<char>,
    i: int,
    path: int,
    name: int,
    prefix: Seq<char>,
)
    requires
        0 <= i < t.len(),
        tree::field(t, i, "path"@) == Some(path),
        tree::field(t, i, "name"@) == Some(name),
        t[i].kind == "scoped_identifier"@,
        tree::node_text(s, t[path]).len() > 0,
    ensures
        imports::used(t, s, i, prefix) == seq![
            (
                if prefix.len() == 0 {
                    tree::node_text(s, t[path])
                } else {
                    prefix + "::"@ + tree::node_text(s, t[path])
                },
                tree::node_text(s, t[name]),
                tree::node_text(s, t[name]),
            ),
        ],
{
    lemma_use_kinds();
}

/// A `use` with an alias brings in what it would without, each under the
/// alias.
pub proof fn law_a_rust_alias_renames(
    t: Seq<NodeText>,
    s: Seq<char>,
    i: int,
    path: int,
    alias: int,
    prefix: Seq<char>,
    k: int,
)
    requires
        0 <= i < t.len(),
        t[i].kind == "use_as_clause"@,
        tree::field(t, i, "path"@) == Some(path),
        tree::field(t, i, "alias"@) == Some(alias),
        0 <= k < imports::used(t, s, path, prefix).len(),
    ensures
        imports::used(t, s, i, prefix).len() == imports::used(t, s, path, prefix).len(),
        imports::used(t, s, i, prefix)[k] == (
            imports::used(t, s, path, prefix)[k].0,
            tree::node_text(s, t[alias]),
            imports::used(t, s, path, prefix)[k].2,
        ),
{
    lemma_use_kinds();
}

/// A `use` with a star brings in everything of the module before it.
pub proof fn law_a_rust_star_uses_everything(
    t: Seq<NodeText>,
    s: Seq<char>,
    i: int,
    prefix: Seq<char>,
)
    requires
        0 <= i < t.len(),
        t[i].kind == "use_wildcard"@,
        tree::named_kids(t, i).len() > 0,
        tree::node_text(s, t[tree::named_kids(t, i)[0]]).len() > 0,
    ensures
        imports::used(t, s, i, prefix) == seq![
            (
                if prefix.len() == 0 {
                    tree::node_text(s, t[tree::named_kids(t, i)[0]])
                } else {
                    prefix + "::"@ + tree::node_text(s, t[tree::named_kids(t, i)[0]])
                },
                "*"@,
                "*"@,
            ),
        ],
{
    lemma_use_kinds();
}

/// What one tree of a list brings in, under the path before the list, is among
/// what the list brings in.
pub proof fn law_a_rust_list_uses_all_its_trees(
    t: Seq<NodeText>,
    s: Seq<char>,
    i: int,
    prefix: Seq<char>,
    n: nat,
    k: int,
    x: (Seq<char>, Seq<char>, Seq<char>),
)
    requires
        0 <= i < t.len(),
        0 <= k < n <= tree::named_kids(t, i).len(),
        imports::used(t, s, tree::named_kids(t, i)[k], prefix).contains(x),
    ensures
        imports::used_among(t, s, i, prefix, n).contains(x),
    decreases n,
{
    tree::lemma_kids(t, i);
    let rest = imports::used_among(t, s, i, prefix, (n - 1) as nat);
    let last = imports::used(t, s, tree::named_kids(t, i)[n - 1], prefix);
    if k == n - 1 {
        lemma_in_second(rest, last, x);
    } else {
        law_a_rust_list_uses_all_its_trees(t, s, i, prefix, (n - 1) as nat, k, x);
        lemma_in_first(rest, last, x);
    }
}

} // verus!

//! What the imports of Java, C# and PHP bring in, said of how they are
//! written.
use vstd::prelude::*;
use crate::tree;
use crate::text;
use crate::imports;
use crate::text_laws;
use crate::graph::ImportText;
use crate::tree::NodeText;

verus! {

/// Are these parts of a dotted name: none empty, none with the separator?
pub open spec fn are_parts(v: Seq<Seq<char>>, c: char) -> bool {
    &&& v.len() > 0
    &&& forall|i: int| 0 <= i < v.len() ==> (#[trigger] v[i]).len() > 0 && !v[i].contains(c)
}

/// Parts that are not empty are all kept.
proof fn lemma_filled(v: Seq<Seq<char>>, n: nat)
    requires
        n <= v.len(),
        forall|i: int| 0 <= i < v.len() ==> (#[trigger] v[i]).len() > 0,
    ensures
        text::filled_upto(v, n) == v.take(n as int),
    decreases n,
{
    if n == 0 {
        assert(v.take(0) =~= Seq::<Seq<char>>::empty());
    } else {
        lemma_filled(v, (n - 1) as nat);
        assert(v[n - 1].len() > 0);
        assert(v.take(n as int) =~= v.take(n - 1).push(v[n - 1]));
    }
}

/// Parts put together are cut into the same parts.
pub proof fn lemma_parts(v: Seq<Seq<char>>, c: char)
    requires
        are_parts(v, c),
    ensures
        text::filled(text::split_on(text::joined(v, seq![c]), c)) == v,
        text::split_on(text::joined(v, seq![c]), c) == v,
{
    assert forall|i: int| 0 <= i < v.len() implies !(#[trigger] v[i]).contains(c) by {
        assert(v[i].len() > 0);
    }
    text_laws::law_splitting_undoes_joining(v, c, v.len());
    assert(v.take(v.len() as int) =~= v);
    assert forall|i: int| 0 <= i < v.len() implies (#[trigger] v[i]).len() > 0 by {}
    lemma_filled(v, v.len());
}

/// Parts put together end as the last of them, and start as the first.
proof fn lemma_joined_ends(v: Seq<Seq<char>>, sep: Seq<char>, n: nat)
    requires
        1 <= n <= v.len(),
        forall|i: int| 0 <= i < v.len() ==> (#[trigger] v[i]).len() > 0,
    ensures
        text::join_upto(v, sep, n).len() > 0,
        text::join_upto(v, sep, n).last() == v[n - 1].last(),
        text::join_upto(v, sep, n)[0] == v[0][0],
    decreases n,
{
    assert(v[n - 1].len() > 0 && v[0].len() > 0);
    if n > 1 {
        lemma_joined_ends(v, sep, (n - 1) as nat);
    }
}

/// A word at the start of a text is the first occurrence of it.
proof fn lemma_without_first(p: Seq<char>, rest: Seq<char>)
    ensures
        text::without_first(p + rest, p) == rest,
{
    let s = p + rest;
    assert(s.subrange(0, p.len() as int) =~= p);
    assert(text::occurs_at(s, p, 0));
    assert(text::find_from(s, p, 0) == Some(0int));
    assert(s.take(0) + s.skip(p.len() as int) =~= rest);
}

/// A word that does not occur is taken out nowhere.
proof fn lemma_nothing_taken(s: Seq<char>, p: Seq<char>)
    requires
        !text::contains(s, p),
    ensures
        text::without_first(s, p) == s,
{
    text::lemma_find(s, p, 0);
    if let Some(k) = text::find_from(s, p, 0) {
        assert(text::occurs_at(s, p, k));
    }
}

/// A statement loses the semicolon at its end.
proof fn lemma_no_semicolon(s: Seq<char>)
    requires
        s.len() > 0,
        s.last() != ';',
    ensures
        text::shed_end(s + seq![';'], ";"@) == s,
{
    let whole = s + seq![';'];
    let n = whole.len() as int;
    reveal_strlit(";");
    assert(";"@[0] == ';');
    assert(";"@.contains(whole[n - 1]));
    assert(whole[n - 2] == s.last());
    assert(!";"@.contains(whole[n - 2]));
    assert(text::out_end(whole, ";"@, n) == text::out_end(whole, ";"@, n - 1));
    assert(text::out_end(whole, ";"@, n - 1) == n - 1);
    assert(text::shed_end(whole, ";"@) =~= s);
}

/// `import a.b.C;` brings in `C` of the package `a.b`, under its own name.
pub proof fn law_a_java_import_binds_its_last_part(
    t: Seq<NodeText>,
    s: Seq<char>,
    i: int,
    v: Seq<Seq<char>>,
)
    requires
        t[i].kind == "import_declaration"@,
        are_parts(v, '.'),
        text::collapsed(tree::node_text(s, t[i])) == "import "@ + text::joined(v, seq!['.'])
            + seq![';'],
        !text::contains(seq![' '] + text::joined(v, seq!['.']), "static"@),
        v.last().last() != ';' && v.last().last() != '*',
        !text::is_white(v[0][0]) && !text::is_white(v.last().last()),
    ensures
        imports::java_imports(t, s, i) == seq![
            ImportText {
                module: text::join_upto(v, seq!['.'], (v.len() - 1) as nat),
                names: seq![(v.last(), v.last())],
            },
        ],
{
    let name = text::joined(v, seq!['.']);
    let none = text::no_text();
    assert forall|k: int| 0 <= k < v.len() implies (#[trigger] v[k]).len() > 0 by {}
    lemma_joined_ends(v, seq!['.'], v.len());
    lemma_parts(v, '.');
    reveal_strlit("import ");
    reveal_strlit("import");
    reveal_strlit(".");
    reveal_strlit("*.");
    reveal_strlit(".*");
    assert("."@ =~= seq!['.']);
    let line = "import "@ + name;
    assert(line.last() == name.last());
    lemma_no_semicolon(line);
    assert("import "@ + name + seq![';'] =~= line + seq![';']);
    assert(line =~= "import"@ + (seq![' '] + name));
    lemma_without_first("import"@, seq![' '] + name);
    lemma_nothing_taken(seq![' '] + name, "static"@);
    assert(text::is_white(' '));
    text::law_trimming_takes_the_margins(seq![' '], name, none);
    assert(seq![' '] + name + none =~= seq![' '] + name);
    assert(v.last().contains(v.last().last()));
    assert(!v[v.len() - 1].contains('.'));
    assert(!"*."@.contains(name.last()));
    assert(text::out_end(name, "*."@, name.len() as int) == name.len());
    assert(text::shed_end(name, "*."@) =~= name);
    assert(!text::has_suffix(line, ".*"@)) by {
        if text::has_suffix(line, ".*"@) {
            assert(line.skip(line.len() - 2)[1] == line.last());
        }
    }
}

/// `import a.b.*;` brings in everything of the package `a.b`.
pub proof fn law_a_java_star_imports_everything(
    t: Seq<NodeText>,
    s: Seq<char>,
    i: int,
    v: Seq<Seq<char>>,
)
    requires
        t[i].kind == "import_declaration"@,
        are_parts(v, '.'),
        text::collapsed(tree::node_text(s, t[i])) == "import "@ + text::joined(v, seq!['.'])
            + seq!['.', '*', ';'],
        !text::contains(seq![' '] + text::joined(v, seq!['.']) + seq!['.', '*'], "static"@),
        v.last().last() != '*',
        !text::is_white(v[0][0]),
    ensures
        imports::java_imports(t, s, i) == seq![
            ImportText { module: text::joined(v, seq!['.']), names: seq![("*"@, "*"@)] },
        ],
{
    let name = text::joined(v, seq!['.']);
    let star = name + seq!['.', '*'];
    let none = text::no_text();
    assert forall|k: int| 0 <= k < v.len() implies (#[trigger] v[k]).len() > 0 by {}
    lemma_joined_ends(v, seq!['.'], v.len());
    lemma_parts(v, '.');
    reveal_strlit("import ");
    reveal_strlit("import");
    reveal_strlit(".");
    reveal_strlit("*.");
    reveal_strlit(".*");
    assert("."@ =~= seq!['.']);
    assert(".*"@ =~= seq!['.', '*']);
    let line = "import "@ + star;
    lemma_no_semicolon(line);
    assert("import "@ + name + seq!['.', '*', ';'] =~= line + seq![';']);
    assert(line =~= "import"@ + (seq![' '] + star));
    lemma_without_first("import"@, seq![' '] + star);
    assert(seq![' '] + star =~= seq![' '] + name + seq!['.', '*']);
    lemma_nothing_taken(seq![' '] + star, "static"@);
    assert(text::is_white(' '));
    text::law_trimming_takes_the_margins(seq![' '], star, none);
    assert(seq![' '] + star + none =~= seq![' '] + star);
    assert(v.last().contains(v.last().last()));
    assert(!v[v.len() - 1].contains('.'));
    let n = star.len() as int;
    assert("*."@[0] == '*' && "*."@[1] == '.');
    assert("*."@.contains(star[n - 1]) && "*."@.contains(star[n - 2]));
    assert(star[n - 3] == name.last());
    assert(!"*."@.contains(star[n - 3]));
    assert(text::out_end(star, "*."@, n) == text::out_end(star, "*."@, n - 1));
    assert(text::out_end(star, "*."@, n - 1) == text::out_end(star, "*."@, n - 2));
    assert(text::out_end(star, "*."@, n - 2) == n - 2);
    assert(text::shed_end(star, "*."@) =~= name);
    assert(line.skip(line.len() - 2) =~= ".*"@);
}

/// `using A.B;` brings in everything of the namespace.
pub proof fn law_a_using_imports_its_namespace(
    t: Seq<NodeText>,
    s: Seq<char>,
    i: int,
    name: Seq<char>,
)
    requires
        text::collapsed(tree::node_text(s, t[i])) == "using "@ + name + seq![';'],
        name.len() > 0,
        !text::is_white(name[0]) && !text::is_white(name.last()),
        name.last() != ';',
        !name.contains('='),
        !text::contains(seq![' '] + name, "static"@),
        !text::contains(seq![' '] + name, "global"@),
    ensures
        imports::sharp_imports(t, s, i) == seq![
            ImportText { module: name, names: seq![("*"@, "*"@)] },
        ],
{
    let none = text::no_text();
    let line = "using "@ + name;
    reveal_strlit("using ");
    reveal_strlit("using");
    assert(line.last() == name.last());
    lemma_no_semicolon(line);
    assert("using "@ + name + seq![';'] =~= line + seq![';']);
    assert(line =~= "using"@ + (seq![' '] + name));
    lemma_without_first("using"@, seq![' '] + name);
    lemma_nothing_taken(seq![' '] + name, "static"@);
    lemma_nothing_taken(seq![' '] + name, "global"@);
    assert(text::is_white(' '));
    text::law_trimming_takes_the_margins(seq![' '], name, none);
    assert(seq![' '] + name + none =~= seq![' '] + name);
    assert forall|j: int| 0 <= j < name.len() implies name[j] != '=' by {
        assert(name.contains(name[j]));
    }
    text::lemma_next_of_at(name, '=', 0, name.len() as int);
}

/// A clause of a PHP `use` brings in the last part of its name from the
/// namespace before it: under its own name, or under the alias behind ` as `.
pub proof fn law_a_php_use_binds_its_last_part(
    t: Seq<NodeText>,
    s: Seq<char>,
    i: int,
    v: Seq<Seq<char>>,
)
    requires
        t[i].kind == "namespace_use_clause"@,
        are_parts(v, '\\'),
        text::collapsed(tree::node_text(s, t[i])) == text::joined(v, seq!['\\']),
        !text::has_prefix(text::joined(v, seq!['\\']), "function "@),
        !text::has_prefix(text::joined(v, seq!['\\']), "const "@),
        !text::contains(text::joined(v, seq!['\\']), " as "@),
    ensures
        imports::php_clause(t, s, i) == seq![
            ImportText {
                module: text::join_upto(v, seq!['\\'], (v.len() - 1) as nat),
                names: seq![(v.last(), v.last())],
            },
        ],
{
    let name = text::joined(v, seq!['\\']);
    assert forall|k: int| 0 <= k < v.len() implies (#[trigger] v[k]).len() > 0 by {}
    lemma_joined_ends(v, seq!['\\'], v.len());
    lemma_parts(v, '\\');
    reveal_strlit("\\");
    assert("\\"@ =~= seq!['\\']);
    text::lemma_find(name, " as "@, 0);
    if let Some(k) = text::find_from(name, " as "@, 0) {
        assert(text::occurs_at(name, " as "@, k));
    }
    assert(v[0].contains(v[0][0]) && v.last().contains(v.last().last()));
    assert(!v[v.len() - 1].contains('\\'));
    assert(!"\\"@.contains(name[0]) && !"\\"@.contains(name.last()));
    assert(text::out_from(name, "\\"@, 0) == 0);
    assert(name.skip(0) =~= name);
    assert(text::out_end(name, "\\"@, name.len() as int) == name.len());
    assert(name.take(name.len() as int) =~= name);
    lemma_no_alias();
}

/// No alias is written with no letters.
proof fn lemma_no_alias()
    ensures
        text::trimmed(text::no_text()).len() == 0,
{
    let none = text::no_text();
    text::law_trimming_takes_the_margins(none, none, none);
    assert(none + none + none =~= none);
}

} // verus!

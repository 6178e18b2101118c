//! Where the names that a file touches lead, said of its imports and of the
//! files that define the names.
use vstd::prelude::*;
use crate::text;
use crate::graph;
use crate::graph::{EdgeText, ImportText, Setting, SymbolText};

verus! {

// --------------------------------------------------------- edges of a file

/// Is there an edge between the two ends, of a kind that tells at least as
/// much as this one?
pub open spec fn has_edge(
    edges: Seq<EdgeText>,
    from: Seq<char>,
    to: Seq<char>,
    kind: Seq<char>,
) -> bool {
    exists|i: int|
        0 <= i < edges.len() && (#[trigger] edges[i]).from == from && edges[i].to == to
            && graph::kind_rank(edges[i].kind) <= graph::kind_rank(kind)
}

/// An edge that is added is there, and so are those that there were.
proof fn lemma_edge_added(
    edges: Seq<EdgeText>,
    e: EdgeText,
    from: Seq<char>,
    to: Seq<char>,
    kind: Seq<char>,
)
    ensures
        has_edge(graph::with_edge(edges, e), e.from, e.to, e.kind),
        has_edge(edges, from, to, kind) ==> has_edge(graph::with_edge(edges, e), from, to, kind),
{
    let p = graph::edge_seat(edges, e, 0);
    lemma_seat_within(edges, e, 0);
    let out = graph::with_edge(edges, e);
    if p < edges.len() && edges[p].from == e.from && edges[p].to == e.to {
        assert(out[p].from == e.from && out[p].to == e.to);
        if has_edge(edges, from, to, kind) {
            let i = choose|i: int|
                0 <= i < edges.len() && (#[trigger] edges[i]).from == from && edges[i].to == to
                    && graph::kind_rank(edges[i].kind) <= graph::kind_rank(kind);
            assert(out[i].from == from && out[i].to == to);
        }
    } else {
        assert(out[p] == e);
        if has_edge(edges, from, to, kind) {
            let i = choose|i: int|
                0 <= i < edges.len() && (#[trigger] edges[i]).from == from && edges[i].to == to
                    && graph::kind_rank(edges[i].kind) <= graph::kind_rank(kind);
            if i < p {
                assert(out[i] == edges[i]);
            } else {
                assert(out[i + 1] == edges[i]);
            }
        }
    }
}

/// An edge's seat is within the list.
proof fn lemma_seat_within(edges: Seq<EdgeText>, e: EdgeText, i: int)
    requires
        0 <= i <= edges.len(),
    ensures
        i <= graph::edge_seat(edges, e, i) <= edges.len(),
    decreases edges.len() - i,
{
    if i < edges.len() && graph::edge_before(edges[i], e) {
        lemma_seat_within(edges, e, i + 1);
    }
}

/// An edge that there is stays while a symbol's other names are resolved.
proof fn lemma_edge_stays(
    f: Setting,
    symbol: SymbolText,
    n: nat,
    done: Seq<EdgeText>,
    from: Seq<char>,
    to: Seq<char>,
    kind: Seq<char>,
)
    requires
        has_edge(done, from, to, kind),
    ensures
        has_edge(graph::symbol_edges_upto(f, symbol, n, done), from, to, kind),
    decreases n,
{
    if n > 0 {
        lemma_edge_stays(f, symbol, (n - 1) as nat, done, from, to, kind);
        let prior = graph::symbol_edges_upto(f, symbol, (n - 1) as nat, done);
        let raw = symbol.edges[n - 1];
        if let Some(end) = graph::edge_end(f, symbol.name, raw.0, raw.1) {
            let e = EdgeText {
                from: graph::node_name(f.path, symbol.name),
                to: end.0,
                kind: raw.2,
                confidence: end.1,
            };
            lemma_edge_added(prior, e, from, to, kind);
        }
    }
}

/// The edge of a symbol's name is among the symbol's edges.
proof fn lemma_edge_of_name(
    f: Setting,
    symbol: SymbolText,
    n: nat,
    done: Seq<EdgeText>,
    m: int,
    to: Seq<char>,
)
    requires
        0 <= m < n,
        graph::edge_end(f, symbol.name, symbol.edges[m].0, symbol.edges[m].1) matches Some(end)
            && end.0 == to,
        to != graph::node_name(f.path, symbol.name),
    ensures
        has_edge(
            graph::symbol_edges_upto(f, symbol, n, done),
            graph::node_name(f.path, symbol.name),
            to,
            symbol.edges[m].2,
        ),
    decreases n,
{
    let prior = graph::symbol_edges_upto(f, symbol, (n - 1) as nat, done);
    let raw = symbol.edges[n - 1];
    let from = graph::node_name(f.path, symbol.name);
    if m < n - 1 {
        lemma_edge_of_name(f, symbol, (n - 1) as nat, done, m, to);
    }
    if let Some(end) = graph::edge_end(f, symbol.name, raw.0, raw.1) {
        let e = EdgeText { from, to: end.0, kind: raw.2, confidence: end.1 };
        lemma_edge_added(prior, e, from, to, symbol.edges[m].2);
    }
}

/// Every name that a symbol touches and that leads somewhere else gives its
/// edge, from the symbol's node to where the name leads, of the kind it is
/// touched in or one that tells more.
pub proof fn law_every_name_gives_its_edge(f: Setting, n: nat, k: int, m: int, to: Seq<char>)
    requires
        0 <= k < n <= f.symbols.len(),
        0 <= m < f.symbols[k].edges.len(),
        graph::edge_end(
            f,
            f.symbols[k].name,
            f.symbols[k].edges[m].0,
            f.symbols[k].edges[m].1,
        ) matches Some(end) && end.0 == to,
        to != f.path + "::"@ + f.symbols[k].name,
    ensures
        has_edge(
            graph::file_edges_upto(f, n),
            f.path + "::"@ + f.symbols[k].name,
            to,
            f.symbols[k].edges[m].2,
        ),
    decreases n,
{
    let symbol = f.symbols[n - 1];
    let prior = graph::file_edges_upto(f, (n - 1) as nat);
    if k == n - 1 {
        lemma_edge_of_name(f, symbol, symbol.edges.len(), prior, m, to);
    } else {
        law_every_name_gives_its_edge(f, (n - 1) as nat, k, m, to);
        lemma_edge_stays(
            f,
            symbol,
            symbol.edges.len(),
            prior,
            f.path + "::"@ + f.symbols[k].name,
            to,
            f.symbols[k].edges[m].2,
        );
    }
}

/// Does the edge come from a name that one of the symbols touches?
pub open spec fn comes_from_a_name(f: Setting, e: EdgeText, k: int, m: int) -> bool {
    &&& 0 <= k < f.symbols.len()
    &&& 0 <= m < f.symbols[k].edges.len()
    &&& e.from == f.path + "::"@ + f.symbols[k].name
    &&& graph::edge_end(
        f,
        f.symbols[k].name,
        f.symbols[k].edges[m].0,
        f.symbols[k].edges[m].1,
    ) == Some((e.to, e.confidence))
    &&& e.kind == f.symbols[k].edges[m].2
}

/// Does the edge come from some name that one of the symbols touches?
pub open spec fn is_given(f: Setting, e: EdgeText) -> bool {
    exists|k: int, m: int| comes_from_a_name(f, e, k, m)
}

/// What is left of edges that come from names, with one more such.
proof fn lemma_edges_come_from_names(f: Setting, k: int, n: nat, done: Seq<EdgeText>)
    requires
        0 <= k < f.symbols.len(),
        n <= f.symbols[k].edges.len(),
        forall|i: int| 0 <= i < done.len() ==> is_given(f, #[trigger] done[i]),
    ensures
        forall|i: int|
            0 <= i < graph::symbol_edges_upto(f, f.symbols[k], n, done).len() ==> is_given(
                f,
                #[trigger] graph::symbol_edges_upto(f, f.symbols[k], n, done)[i],
            ),
    decreases n,
{
    if n > 0 {
        lemma_edges_come_from_names(f, k, (n - 1) as nat, done);
        let symbol = f.symbols[k];
        let prior = graph::symbol_edges_upto(f, symbol, (n - 1) as nat, done);
        let out = graph::symbol_edges_upto(f, symbol, n, done);
        let raw = symbol.edges[n - 1];
        if let Some(end) = graph::edge_end(f, symbol.name, raw.0, raw.1) {
            let e = EdgeText {
                from: graph::node_name(f.path, symbol.name),
                to: end.0,
                kind: raw.2,
                confidence: end.1,
            };
            assert(comes_from_a_name(f, e, k, n - 1));
            assert(is_given(f, e));
            lemma_with_given(f, prior, e);
        }
    }
}

/// One more edge that comes from a name leaves all edges such.
proof fn lemma_with_given(f: Setting, prior: Seq<EdgeText>, e: EdgeText)
    requires
        is_given(f, e),
        forall|i: int| 0 <= i < prior.len() ==> is_given(f, #[trigger] prior[i]),
    ensures
        forall|i: int|
            0 <= i < graph::with_edge(prior, e).len() ==> is_given(
                f,
                #[trigger] graph::with_edge(prior, e)[i],
            ),
{
    let out = graph::with_edge(prior, e);
    let p = graph::edge_seat(prior, e, 0);
    lemma_seat_within(prior, e, 0);
    assert forall|i: int| 0 <= i < out.len() implies is_given(f, #[trigger] out[i]) by {
        if out[i] != e {
            let j = if out.len() == prior.len() || i < p {
                i
            } else {
                i - 1
            };
            assert(out[i] == prior[j]);
        }
    }
}

/// Every edge comes from a name that a symbol touches: it starts at that
/// symbol, leads where the name leads, is of the kind it is touched in, and is
/// as sure as where the name leads.
pub proof fn law_every_edge_comes_from_a_name(f: Setting, n: nat)
    requires
        n <= f.symbols.len(),
    ensures
        forall|i: int|
            0 <= i < graph::file_edges_upto(f, n).len() ==> is_given(
                f,
                #[trigger] graph::file_edges_upto(f, n)[i],
            ),
    decreases n,
{
    if n > 0 {
        law_every_edge_comes_from_a_name(f, (n - 1) as nat);
        lemma_edges_come_from_names(
            f,
            n - 1,
            f.symbols[n - 1].edges.len(),
            graph::file_edges_upto(f, (n - 1) as nat),
        );
    }
}

/// Inheriting tells more than calling, calling more than using as a type, that
/// more than referring, and that more than anything else.
pub proof fn law_kinds_are_ranked(other: Seq<char>)
    ensures
        graph::kind_rank("inherits"@) < graph::kind_rank("calls"@),
        graph::kind_rank("calls"@) < graph::kind_rank("uses_type"@),
        graph::kind_rank("uses_type"@) < graph::kind_rank("references"@),
        other != "inherits"@ && other != "calls"@ && other != "uses_type"@ && other
            != "references"@ ==> graph::kind_rank("references"@) < graph::kind_rank(other),
{
    reveal_strlit("inherits");
    reveal_strlit("calls");
    reveal_strlit("uses_type");
    reveal_strlit("references");
    assert("inherits"@.len() == 8 && "calls"@.len() == 5);
    assert("uses_type"@.len() == 9 && "references"@.len() == 10);
}

// ------------------------------------------------------ what a name is bound to

/// What a name is bound to by the last of the names that bind it.
proof fn lemma_last_named(
    names: Seq<(Seq<char>, Seq<char>)>,
    local: Seq<char>,
    n: nat,
    j: int,
)
    requires
        0 <= j < n <= names.len(),
        names[j].0 == local,
        forall|k: int| j < k < n ==> (#[trigger] names[k]).0 != local,
    ensures
        graph::last_named(names, local, n) == Some(names[j].1),
    decreases n,
{
    if j < n - 1 {
        assert(names[n - 1].0 != local);
        lemma_last_named(names, local, (n - 1) as nat, j);
    }
}

/// Nothing is bound where no name is the one.
proof fn lemma_not_named(names: Seq<(Seq<char>, Seq<char>)>, local: Seq<char>, n: nat)
    requires
        n <= names.len(),
        forall|k: int| 0 <= k < n ==> (#[trigger] names[k]).0 != local,
    ensures
        graph::last_named(names, local, n) is None,
    decreases n,
{
    if n > 0 {
        assert(names[n - 1].0 != local);
        lemma_not_named(names, local, (n - 1) as nat);
    }
}

/// Does the import bind the name?
pub open spec fn binds(import: ImportText, local: Seq<char>) -> bool {
    exists|k: int| 0 <= k < import.names.len() && (#[trigger] import.names[k]).0 == local
}

/// A name is bound to what the last import that binds it says, by the last of
/// that import's names.
pub proof fn law_the_last_import_binds(
    imports: Seq<ImportText>,
    n: nat,
    local: Seq<char>,
    i: int,
    j: int,
)
    requires
        0 <= i < n <= imports.len(),
        0 <= j < imports[i].names.len(),
        imports[i].names[j].0 == local,
        local != "*"@,
        forall|k: int| j < k < imports[i].names.len() ==> (#[trigger] imports[i].names[k]).0 != local,
        forall|k: int| i < k < n ==> !binds(#[trigger] imports[k], local),
    ensures
        graph::binding(imports, local, n) == Some((imports[i].module, imports[i].names[j].1)),
    decreases n,
{
    if i == n - 1 {
        lemma_last_named(imports[i].names, local, imports[i].names.len(), j);
    } else {
        assert(!binds(imports[n - 1], local));
        lemma_not_named(imports[n - 1].names, local, imports[n - 1].names.len());
        law_the_last_import_binds(imports, (n - 1) as nat, local, i, j);
    }
}

/// A name that no import binds is bound to nothing.
pub proof fn law_other_names_are_free(imports: Seq<ImportText>, n: nat, local: Seq<char>)
    requires
        n <= imports.len(),
        forall|k: int| 0 <= k < n ==> !binds(#[trigger] imports[k], local),
    ensures
        graph::binding(imports, local, n) is None,
    decreases n,
{
    if n > 0 && local != "*"@ {
        assert(!binds(imports[n - 1], local));
        lemma_not_named(imports[n - 1].names, local, imports[n - 1].names.len());
        law_other_names_are_free(imports, (n - 1) as nat, local);
    }
}

// ------------------------------------------------------- where a name leads

/// Does a symbol of the file have the name?
pub open spec fn is_own(f: Setting, name: Seq<char>) -> bool {
    exists|i: int| 0 <= i < f.symbols.len() && (#[trigger] f.symbols[i]).name == name
}

/// Where the file's own modules point.
#[verifier::opaque]
pub open spec fn target_of(f: Setting, module: Seq<char>) -> Option<Seq<char>> {
    graph::module_target(module, f.path, f.language, f.known)
}

/// The file's modules point where its module strings do.
proof fn lemma_target(f: Setting, module: Seq<char>)
    ensures
        graph::points_at(f, module) == target_of(f, module),
{
    reveal(graph::points_at);
    reveal(target_of);
}

/// A name of another symbol of the file leads to that symbol, surely, even
/// where an import binds it too.
pub proof fn law_own_names_come_first(
    f: Setting,
    symbol: Seq<char>,
    target: Seq<char>,
    member: Seq<char>,
)
    requires
        is_own(f, target),
        target != symbol,
    ensures
        graph::edge_end(f, symbol, target, member) == Some(
            (f.path + "::"@ + target, "extracted"@),
        ),
{
}

/// A name bound to a whole module, used with a member that the module's file
/// defines, leads to that file's node for that member, surely.
pub proof fn law_a_module_member_leads_to_its_file(
    f: Setting,
    symbol: Seq<char>,
    local: Seq<char>,
    member: Seq<char>,
    module: Seq<char>,
    exported: Seq<char>,
    file: Seq<char>,
)
    requires
        !is_own(f, local) || local == symbol,
        graph::binding(f.imports, local, f.imports.len()) == Some((module, exported)),
        exported == "*"@ || exported == "default"@,
        target_of(f, module) == Some(file),
        !text::has_suffix(file, "/"@),
        member.len() > 0,
        text::listed(graph::definers(f.index, member), file),
    ensures
        graph::edge_end(f, symbol, local, member) == Some(
            (file + "::"@ + member, "extracted"@),
        ),
{
    lemma_target(f, module);
}

/// A symbol that touches a member through a name bound to a whole module has
/// the edge to the node of that member in the module's file, whatever else it
/// touches.
pub proof fn law_a_module_member_gives_its_edge(
    f: Setting,
    k: int,
    m: int,
    i: int,
    j: int,
    file: Seq<char>,
)
    requires
        0 <= k < f.symbols.len(),
        0 <= m < f.symbols[k].edges.len(),
        0 <= i < f.imports.len(),
        0 <= j < f.imports[i].names.len(),
        ({
            let (local, member, _) = f.symbols[k].edges[m];
            let import = f.imports[i];
            &&& !is_own(f, local)
            &&& local != "*"@
            &&& import.names[j] == (local, "*"@)
            &&& forall|a: int| j < a < import.names.len() ==> (#[trigger] import.names[a]).0 != local
            &&& forall|a: int| i < a < f.imports.len() ==> !binds(#[trigger] f.imports[a], local)
            &&& target_of(f, import.module) == Some(file)
            &&& !text::has_suffix(file, "/"@)
            &&& member.len() > 0
            &&& text::listed(graph::definers(f.index, member), file)
            &&& file + "::"@ + member != f.path + "::"@ + f.symbols[k].name
        }),
    ensures
        has_edge(
            graph::file_edges(f),
            f.path + "::"@ + f.symbols[k].name,
            file + "::"@ + f.symbols[k].edges[m].1,
            f.symbols[k].edges[m].2,
        ),
{
    let (local, member, kind) = f.symbols[k].edges[m];
    law_the_last_import_binds(f.imports, f.imports.len(), local, i, j);
    law_a_module_member_leads_to_its_file(
        f,
        f.symbols[k].name,
        local,
        member,
        f.imports[i].module,
        "*"@,
        file,
    );
    law_every_name_gives_its_edge(f, f.symbols.len(), k, m, file + "::"@ + member);
}

/// A name bound to a whole module leads to the module's file itself where the
/// file does not define the member: surely, or for a default export less so.
pub proof fn law_a_whole_module_leads_to_its_file(
    f: Setting,
    symbol: Seq<char>,
    local: Seq<char>,
    member: Seq<char>,
    module: Seq<char>,
    exported: Seq<char>,
    file: Seq<char>,
)
    requires
        !is_own(f, local) || local == symbol,
        graph::binding(f.imports, local, f.imports.len()) == Some((module, exported)),
        exported == "*"@ || exported == "default"@,
        target_of(f, module) == Some(file),
        !text::has_suffix(file, "/"@),
        member.len() == 0 || !text::listed(graph::definers(f.index, member), file),
    ensures
        graph::edge_end(f, symbol, local, member) == Some(
            (
                file + "::"@,
                if exported == "*"@ {
                    "extracted"@
                } else {
                    "inferred"@
                },
            ),
        ),
{
    lemma_target(f, module);
    assert(graph::node_name(file, text::no_text()) =~= file + "::"@);
    reveal_strlit("*");
    reveal_strlit("default");
    assert("*"@.len() == 1 && "default"@.len() == 7);
}

/// A name bound to a name of a module leads to the node of that name in the
/// module's file, whatever member is used: surely where the file defines it,
/// else less so.
pub proof fn law_an_imported_name_leads_to_its_file(
    f: Setting,
    symbol: Seq<char>,
    local: Seq<char>,
    member: Seq<char>,
    module: Seq<char>,
    exported: Seq<char>,
    file: Seq<char>,
)
    requires
        !is_own(f, local) || local == symbol,
        graph::binding(f.imports, local, f.imports.len()) == Some((module, exported)),
        exported != "*"@ && exported != "default"@,
        target_of(f, module) == Some(file),
        !text::has_suffix(file, "/"@),
    ensures
        graph::edge_end(f, symbol, local, member) == Some(
            (
                file + "::"@ + exported,
                if text::listed(graph::definers(f.index, exported), file) {
                    "extracted"@
                } else {
                    "inferred"@
                },
            ),
        ),
{
    lemma_target(f, module);
}

/// The symbol that calls an imported name has the edge to the node of the
/// name, by the name it has in its module, in the module's file.
pub proof fn law_an_imported_name_gives_its_edge(
    f: Setting,
    k: int,
    m: int,
    i: int,
    j: int,
    file: Seq<char>,
)
    requires
        0 <= k < f.symbols.len(),
        0 <= m < f.symbols[k].edges.len(),
        0 <= i < f.imports.len(),
        0 <= j < f.imports[i].names.len(),
        ({
            let local = f.symbols[k].edges[m].0;
            let import = f.imports[i];
            let exported = import.names[j].1;
            &&& !is_own(f, local)
            &&& local != "*"@
            &&& import.names[j].0 == local
            &&& exported != "*"@ && exported != "default"@
            &&& forall|a: int| j < a < import.names.len() ==> (#[trigger] import.names[a]).0 != local
            &&& forall|a: int| i < a < f.imports.len() ==> !binds(#[trigger] f.imports[a], local)
            &&& target_of(f, import.module) == Some(file)
            &&& !text::has_suffix(file, "/"@)
            &&& file + "::"@ + exported != f.path + "::"@ + f.symbols[k].name
        }),
    ensures
        has_edge(
            graph::file_edges(f),
            f.path + "::"@ + f.symbols[k].name,
            file + "::"@ + f.imports[i].names[j].1,
            f.symbols[k].edges[m].2,
        ),
{
    let (local, member, kind) = f.symbols[k].edges[m];
    let exported = f.imports[i].names[j].1;
    law_the_last_import_binds(f.imports, f.imports.len(), local, i, j);
    law_an_imported_name_leads_to_its_file(
        f,
        f.symbols[k].name,
        local,
        member,
        f.imports[i].module,
        exported,
        file,
    );
    law_every_name_gives_its_edge(f, f.symbols.len(), k, m, file + "::"@ + exported);
}

/// A name bound to something outside the repository leads to a node that says
/// so: `ext:`, the module, and behind a dot the member that is used, or else
/// the name in the module.
pub proof fn law_outside_names_say_so(
    f: Setting,
    symbol: Seq<char>,
    local: Seq<char>,
    member: Seq<char>,
    module: Seq<char>,
    exported: Seq<char>,
)
    requires
        !is_own(f, local) || local == symbol,
        graph::binding(f.imports, local, f.imports.len()) == Some((module, exported)),
        target_of(f, module) is None,
    ensures
        member.len() > 0 && member.last() != '.' ==> graph::edge_end(f, symbol, local, member)
            == Some(("ext:"@ + module + "."@ + member, "extracted"@)),
        member.len() == 0 && exported != "*"@ && exported != "default"@ && exported.len() > 0
            && exported.last() != '.' ==> graph::edge_end(f, symbol, local, member) == Some(
            ("ext:"@ + module + "."@ + exported, "extracted"@),
        ),
        member.len() == 0 && (exported == "*"@ || exported == "default"@) && module.len() > 0
            && module.last() != '.' ==> graph::edge_end(f, symbol, local, member) == Some(
            ("ext:"@ + module, "extracted"@),
        ),
{
    lemma_target(f, module);
    if member.len() > 0 && member.last() != '.' {
        lemma_no_dots_to_shed("ext:"@ + module + "."@ + member);
    }
    if exported.len() > 0 && exported.last() != '.' {
        lemma_no_dots_to_shed("ext:"@ + module + "."@ + exported);
    }
    if module.len() > 0 && module.last() != '.' {
        lemma_one_dot_to_shed("ext:"@ + module);
        assert("ext:"@ + module + "."@ + text::no_text() =~= "ext:"@ + module + "."@);
    }
}

/// A text with one dot behind it has that one shed.
proof fn lemma_one_dot_to_shed(s: Seq<char>)
    requires
        s.len() > 0,
        s.last() != '.',
    ensures
        text::shed_end(s + "."@, "."@) == s,
{
    reveal_strlit(".");
    let whole = s + "."@;
    let n = whole.len() as int;
    assert("."@[0] == '.');
    assert("."@.contains(whole[n - 1]));
    assert(whole[n - 2] == s.last());
    assert(!"."@.contains(whole[n - 2]));
    assert(text::out_end(whole, "."@, n) == text::out_end(whole, "."@, n - 1));
    assert(text::out_end(whole, "."@, n - 1) == n - 1);
    assert(text::shed_end(whole, "."@) =~= s);
}

/// A text that does not end in a dot has none shed.
proof fn lemma_no_dots_to_shed(s: Seq<char>)
    requires
        s.len() > 0,
        s.last() != '.',
    ensures
        text::shed_end(s, "."@) == s,
{
    reveal_strlit(".");
    assert(!"."@.contains(s.last()));
    assert(text::out_end(s, "."@, s.len() as int) == s.len());
    assert(text::shed_end(s, "."@) =~= s);
}

/// A name bound to a package leads to the node of the member in a file of the
/// package's directory that defines it, surely; to the directory, less so,
/// where none does.
pub proof fn law_a_package_member_leads_into_the_package(
    f: Setting,
    symbol: Seq<char>,
    local: Seq<char>,
    member: Seq<char>,
    module: Seq<char>,
    exported: Seq<char>,
    dir: Seq<char>,
)
    requires
        !is_own(f, local) || local == symbol,
        graph::binding(f.imports, local, f.imports.len()) == Some((module, exported)),
        target_of(f, module) == Some(dir + "/"@),
        dir.len() > 0 && dir.last() != '/',
        member.len() > 0,
    ensures
        (exists|p: Seq<char>|
            #[trigger] text::listed(graph::definers(f.index, member), p) && graph::dir_part(p)
                == dir) ==> exists|p: Seq<char>|
            #[trigger] text::listed(graph::definers(f.index, member), p) && graph::dir_part(p)
                == dir && graph::edge_end(f, symbol, local, member) == Some(
                (p + "::"@ + member, "extracted"@),
            ),
        (forall|p: Seq<char>| #[trigger]
            text::listed(graph::definers(f.index, member), p) ==> graph::dir_part(p) != dir)
            ==> graph::edge_end(f, symbol, local, member) == Some(
            (dir + "/"@ + "::"@, "inferred"@),
        ),
{
    lemma_target(f, module);
    let t = dir + "/"@;
    reveal_strlit("/");
    assert(text::has_suffix(t, "/"@)) by {
        assert(t.skip(t.len() - 1) =~= "/"@);
    }
    assert(text::shed_end(t, "/"@) =~= dir) by {
        let n = t.len() as int;
        assert("/"@[0] == '/');
        assert("/"@.contains(t[n - 1]));
        assert(t[n - 2] == dir.last());
        assert(!"/"@.contains(t[n - 2]));
        assert(text::out_end(t, "/"@, n) == text::out_end(t, "/"@, n - 1));
        assert(text::out_end(t, "/"@, n - 1) == n - 1);
    }
    let paths = graph::definers(f.index, member);
    let hits = graph::in_dir_upto(paths, dir, paths.len());
    lemma_in_dir_all(paths, dir, paths.len());
    lemma_nearest_is_best(hits, text::no_text(), hits.len());
    if exists|p: Seq<char>| #[trigger] text::listed(paths, p) && graph::dir_part(p) == dir {
        let p = choose|p: Seq<char>| #[trigger] text::listed(paths, p) && graph::dir_part(p) == dir;
        assert(text::listed(hits, p));
        let x = graph::nearest(hits, text::no_text())->0;
        assert(text::listed(hits, x));
        assert(text::listed(paths, x));
    }
    if forall|p: Seq<char>| #[trigger] text::listed(paths, p) ==> graph::dir_part(p) != dir {
        if hits.len() > 0 {
            assert(text::listed(hits, hits[0]));
            assert(text::listed(paths, hits[0]));
        }
        assert(graph::node_name(dir + "/"@, text::no_text()) =~= dir + "/"@ + "::"@);
    }
}

/// The paths in a directory are those of the paths whose directory it is.
proof fn lemma_in_dir_all(paths: Seq<Seq<char>>, dir: Seq<char>, n: nat)
    requires
        n <= paths.len(),
    ensures
        forall|x: Seq<char>| #[trigger]
            text::listed(graph::in_dir_upto(paths, dir, n), x) <==> text::listed(
                paths.take(n as int),
                x,
            ) && graph::dir_part(x) == dir,
        n == paths.len() ==> forall|x: Seq<char>| #[trigger]
            text::listed(graph::in_dir_upto(paths, dir, n), x) <==> text::listed(paths, x)
                && graph::dir_part(x) == dir,
    decreases n,
{
    let out = graph::in_dir_upto(paths, dir, n);
    if n > 0 {
        lemma_in_dir_all(paths, dir, (n - 1) as nat);
        let rest = graph::in_dir_upto(paths, dir, (n - 1) as nat);
        assert forall|x: Seq<char>| #[trigger] text::listed(out, x) <==> text::listed(
            paths.take(n as int),
            x,
        ) && graph::dir_part(x) == dir by {
            if text::listed(out, x) {
                let i = choose|i: int| 0 <= i < out.len() && #[trigger] out[i] == x;
                if i < rest.len() {
                    assert(rest[i] == x);
                    assert(text::listed(rest, x));
                    assert(text::listed(paths.take(n - 1), x));
                    let j = choose|j: int|
                        0 <= j < paths.take(n - 1).len() && #[trigger] paths.take(n - 1)[j] == x;
                    assert(paths.take(n as int)[j] == x);
                } else {
                    assert(paths.take(n as int)[n - 1] == x);
                }
            }
            if text::listed(paths.take(n as int), x) && graph::dir_part(x) == dir {
                let j = choose|j: int| 0 <= j < n && #[trigger] paths.take(n as int)[j] == x;
                if j < n - 1 {
                    assert(paths.take(n - 1)[j] == x);
                    assert(text::listed(paths.take(n - 1), x));
                    assert(text::listed(rest, x));
                    let i = choose|i: int| 0 <= i < rest.len() && #[trigger] rest[i] == x;
                    assert(out[i] == x);
                } else {
                    assert(out[rest.len() as int] == x);
                }
            }
        }
    }
    if n == paths.len() {
        assert(paths.take(n as int) =~= paths);
    }
}

/// The best of some paths is one of them; none of them shares more leading
/// segments with the place to be near to, and of those that share as many none
/// is shorter.
proof fn lemma_nearest_is_best(hits: Seq<Seq<char>>, near: Seq<char>, n: nat)
    requires
        n <= hits.len(),
    ensures
        n == 0 ==> graph::nearest_upto(hits, near, n) is None,
        n > 0 ==> (graph::nearest_upto(hits, near, n) matches Some(x) && is_best(
            hits.take(n as int),
            near,
            x,
        )),
        n == hits.len() && n > 0 ==> is_best(hits, near, graph::nearest(hits, near)->0),
    decreases n,
{
    if n > 0 {
        lemma_nearest_is_best(hits, near, (n - 1) as nat);
        let part = hits.take(n as int);
        let x = graph::nearest_upto(hits, near, n)->0;
        let y = hits[n - 1];
        assert(part[n - 1] == y);
        if n > 1 {
            let old = graph::nearest_upto(hits, near, (n - 1) as nat)->0;
            let less = hits.take(n - 1);
            let i = choose|i: int| 0 <= i < less.len() && #[trigger] less[i] == old;
            assert(part[i] == old);
            assert forall|j: int| 0 <= j < part.len() implies #[trigger] no_worse(x, part[j], near) by {
                if j < n - 1 {
                    assert(less[j] == part[j]);
                    assert(no_worse(old, less[j], near));
                }
            }
        }
        if n == hits.len() {
            assert(part =~= hits);
        }
    }
}

/// Is a path as good an answer as another for a file at `near`: does it share
/// more leading segments with it, or as many and is not longer?
pub open spec fn no_worse(a: Seq<char>, b: Seq<char>, near: Seq<char>) -> bool {
    if near.len() == 0 {
        text::byte_len(a) <= text::byte_len(b)
    } else {
        graph::shared(a, near) > graph::shared(b, near) || graph::shared(a, near) == graph::shared(
            b,
            near,
        ) && text::byte_len(a) <= text::byte_len(b)
    }
}

/// Is this the best of the paths for a file at `near`?
pub open spec fn is_best(hits: Seq<Seq<char>>, near: Seq<char>, x: Seq<char>) -> bool {
    &&& text::listed(hits, x)
    &&& forall|j: int| 0 <= j < hits.len() ==> #[trigger] no_worse(x, hits[j], near)
}

/// Of several paths the one that shares the most leading segments with the
/// place to be near to is chosen, and of those the shortest; there is one
/// wherever there are any.
pub proof fn law_the_nearest_is_chosen(hits: Seq<Seq<char>>, near: Seq<char>)
    ensures
        hits.len() == 0 ==> graph::nearest(hits, near) is None,
        hits.len() > 0 ==> (graph::nearest(hits, near) matches Some(x) && is_best(hits, near, x)),
{
    lemma_nearest_is_best(hits, near, hits.len());
}

/// A name that nothing in the file binds, and that one other file defines,
/// leads to the node of that name in that file, less surely; where no other
/// file defines it, it leads nowhere.
pub proof fn law_a_free_name_leads_to_its_only_file(
    f: Setting,
    symbol: Seq<char>,
    target: Seq<char>,
    member: Seq<char>,
    file: Seq<char>,
)
    requires
        !is_own(f, target) || target == symbol,
        graph::binding(f.imports, target, f.imports.len()) is None,
    ensures
        file != f.path && graph::definers(f.index, target) == seq![file] ==> graph::edge_end(
            f,
            symbol,
            target,
            member,
        ) == Some((file + "::"@ + target, "inferred"@)),
        graph::definers(f.index, target).len() == 0 || graph::definers(f.index, target) == seq![
            f.path,
        ] ==> graph::edge_end(f, symbol, target, member) is None,
{
    let paths = graph::definers(f.index, target);
    reveal_with_fuel(graph::elsewhere_upto, 2);
    reveal_with_fuel(graph::wild_upto, 2);
    reveal_with_fuel(graph::in_dir_upto, 2);
    reveal_with_fuel(graph::nearest_upto, 2);
    if file != f.path && paths == seq![file] {
        let all = graph::elsewhere_upto(paths, f.path, paths.len());
        assert(all =~= seq![file]);
    }
}

/// The paths elsewhere are those that are not the file itself.
proof fn lemma_elsewhere_all(paths: Seq<Seq<char>>, path: Seq<char>, n: nat, x: Seq<char>)
    requires
        n <= paths.len(),
    ensures
        text::listed(graph::elsewhere_upto(paths, path, n), x) <==> text::listed(
            paths.take(n as int),
            x,
        ) && x != path,
    decreases n,
{
    let out = graph::elsewhere_upto(paths, path, n);
    if n > 0 {
        lemma_elsewhere_all(paths, path, (n - 1) as nat, x);
        let rest = graph::elsewhere_upto(paths, path, (n - 1) as nat);
        let less = paths.take(n - 1);
        let part = paths.take(n as int);
        if text::listed(out, x) {
            let i = choose|i: int| 0 <= i < out.len() && #[trigger] out[i] == x;
            if i < rest.len() {
                assert(rest[i] == x);
                assert(text::listed(rest, x));
                let j = choose|j: int| 0 <= j < less.len() && #[trigger] less[j] == x;
                assert(part[j] == x);
            } else {
                assert(part[n - 1] == x);
            }
        }
        if text::listed(part, x) && x != path {
            let j = choose|j: int| 0 <= j < part.len() && #[trigger] part[j] == x;
            if j < n - 1 {
                assert(less[j] == x);
                assert(text::listed(less, x));
                let i = choose|i: int| 0 <= i < rest.len() && #[trigger] rest[i] == x;
                assert(out[i] == x);
            } else {
                assert(out[rest.len() as int] == x);
            }
        }
    }
}

/// The paths under a wildcard are among the paths.
proof fn lemma_wild_all(f: Setting, paths: Seq<Seq<char>>, n: nat, x: Seq<char>)
    requires
        n <= paths.len(),
    ensures
        text::listed(graph::wild_upto(f, paths, n), x) <==> text::listed(
            paths.take(n as int),
            x,
        ) && graph::under_wildcard(f, x),
    decreases n,
{
    let out = graph::wild_upto(f, paths, n);
    if n > 0 {
        lemma_wild_all(f, paths, (n - 1) as nat, x);
        let rest = graph::wild_upto(f, paths, (n - 1) as nat);
        let less = paths.take(n - 1);
        let part = paths.take(n as int);
        if text::listed(out, x) {
            let i = choose|i: int| 0 <= i < out.len() && #[trigger] out[i] == x;
            if i < rest.len() {
                assert(rest[i] == x);
                assert(text::listed(rest, x));
                let j = choose|j: int| 0 <= j < less.len() && #[trigger] less[j] == x;
                assert(part[j] == x);
            } else {
                assert(part[n - 1] == x);
            }
        }
        if text::listed(part, x) && graph::under_wildcard(f, x) {
            let j = choose|j: int| 0 <= j < part.len() && #[trigger] part[j] == x;
            if j < n - 1 {
                assert(less[j] == x);
                assert(text::listed(less, x));
                let i = choose|i: int| 0 <= i < rest.len() && #[trigger] rest[i] == x;
                assert(out[i] == x);
            } else {
                assert(out[rest.len() as int] == x);
            }
        }
    }
}

/// A name that nothing in the file binds, and that other files define, leads
/// to one of them. Where a star import covers one, it leads to one that is
/// covered; else, where one lies beside the file, to one that does.
pub proof fn law_a_free_name_leads_to_a_definer(
    f: Setting,
    symbol: Seq<char>,
    target: Seq<char>,
    member: Seq<char>,
    p: Seq<char>,
) -> (file: Seq<char>)
    requires
        !is_own(f, target) || target == symbol,
        graph::binding(f.imports, target, f.imports.len()) is None,
        text::listed(graph::definers(f.index, target), p),
        p != f.path,
    ensures
        text::listed(graph::definers(f.index, target), file),
        file != f.path,
        graph::edge_end(f, symbol, target, member) matches Some((to, sure)) && to == file + "::"@
            + target && (sure == "inferred"@ || sure == "ambiguous"@),
        graph::under_wildcard(f, p) ==> graph::under_wildcard(f, file),
        (forall|q: Seq<char>| #[trigger]
            text::listed(graph::definers(f.index, target), q) ==> !graph::under_wildcard(f, q))
            && graph::dir_part(p) == graph::dir_part(f.path) ==> graph::dir_part(file)
            == graph::dir_part(f.path),
{
    let paths = graph::definers(f.index, target);
    let all = graph::elsewhere_upto(paths, f.path, paths.len());
    let wild = graph::wild_upto(f, all, all.len());
    let here = graph::dir_part(f.path);
    let beside = graph::in_dir_upto(all, here, all.len());
    let pool = if wild.len() > 0 {
        wild
    } else if beside.len() > 0 {
        beside
    } else {
        all
    };
    assert(paths.take(paths.len() as int) =~= paths);
    assert(all.take(all.len() as int) =~= all);
    lemma_elsewhere_all(paths, f.path, paths.len(), p);
    lemma_wild_all(f, all, all.len(), p);
    lemma_in_dir_all(all, here, all.len());
    let k = choose|k: int| 0 <= k < all.len() && #[trigger] all[k] == p;
    assert(pool.len() > 0);
    lemma_nearest_is_best(pool, f.path, pool.len());
    let file = graph::nearest(pool, f.path)->0;
    assert(text::listed(pool, file));
    lemma_wild_all(f, all, all.len(), file);
    assert(text::listed(beside, file) ==> text::listed(all, file) && graph::dir_part(file) == here);
    assert(text::listed(all, file));
    lemma_elsewhere_all(paths, f.path, paths.len(), file);
    if graph::under_wildcard(f, p) {
        assert(text::listed(wild, p));
        assert(wild.len() > 0);
    }
    if forall|q: Seq<char>| #[trigger]
        text::listed(paths, q) ==> !graph::under_wildcard(f, q) {
        if wild.len() > 0 {
            lemma_wild_all(f, all, all.len(), wild[0]);
            assert(text::listed(wild, wild[0]));
            lemma_elsewhere_all(paths, f.path, paths.len(), wild[0]);
            assert(text::listed(paths, wild[0]));
        }
        if graph::dir_part(p) == here {
            assert(text::listed(all, p));
            assert(text::listed(beside, p));
            assert(beside.len() > 0);
        }
    }
    file
}

/// What a star import points at covers itself, and as a directory every file
/// below it.
pub proof fn law_a_star_covers_its_module(target: Seq<char>, rest: Seq<char>)
    ensures
        graph::covers(Some(target), target),
        graph::covers(Some(target + "/"@), target + "/"@ + rest),
        !graph::covers(None, target),
{
    let dir = target + "/"@;
    assert(dir.skip(dir.len() - "/"@.len()) =~= "/"@);
    assert((dir + rest).take(dir.len() as int) =~= dir);
}

/// A name that nothing in the file binds, and that two other files or more
/// define, leads to one of them and says that there are others.
pub proof fn law_a_name_of_several_files_is_ambiguous(
    f: Setting,
    symbol: Seq<char>,
    target: Seq<char>,
    member: Seq<char>,
    p: Seq<char>,
    q: Seq<char>,
)
    requires
        !is_own(f, target) || target == symbol,
        graph::binding(f.imports, target, f.imports.len()) is None,
        text::listed(graph::definers(f.index, target), p),
        text::listed(graph::definers(f.index, target), q),
        p != f.path,
        q != f.path,
        p != q,
    ensures
        graph::edge_end(f, symbol, target, member) matches Some((to, sure)) && sure
            == "ambiguous"@,
{
    let file = law_a_free_name_leads_to_a_definer(f, symbol, target, member, p);
    let paths = graph::definers(f.index, target);
    let all = graph::elsewhere_upto(paths, f.path, paths.len());
    assert(paths.take(paths.len() as int) =~= paths);
    lemma_elsewhere_all(paths, f.path, paths.len(), p);
    lemma_elsewhere_all(paths, f.path, paths.len(), q);
    let i = choose|i: int| 0 <= i < all.len() && #[trigger] all[i] == p;
    let j = choose|j: int| 0 <= j < all.len() && #[trigger] all[j] == q;
    assert(i != j);
    assert(all.len() != 1);
}

} // verus!

//! What an index holds of the files it was built from: their symbols, their
//! edges, and which file defines which name.
use vstd::prelude::*;
use crate::text;
use crate::json;
use crate::graph;
use crate::index;
use crate::order;
use crate::radius;
use crate::table;
use crate::reach_laws;
use crate::engine::{FileFacts, SymbolFacts};
use crate::json::Doc;

verus! {

/// The members of an index are told apart by their names.
proof fn lemma_members(
    files: Seq<(Seq<char>, FileFacts)>,
    known: Seq<Seq<char>>,
)
    ensures
        json::member(index::index_doc(files, known), "files"@) == Some(
            Doc::Object(index::files_doc(files, files.len())),
        ),
        json::member(index::index_doc(files, known), "edges"@) == Some(
            Doc::List(
                index::edges_doc(
                    files,
                    known,
                    index::name_table(files, files.len()),
                    files.len(),
                ),
            ),
        ),
{
    let fields = seq![
        ("version"@, Doc::Number(text::decimal(index::INDEX_VERSION as nat))),
        ("files"@, Doc::Object(index::files_doc(files, files.len()))),
        (
            "edges"@,
            Doc::List(
                index::edges_doc(
                    files,
                    known,
                    index::name_table(files, files.len()),
                    files.len(),
                ),
            ),
        ),
    ];
    reveal_strlit("version");
    reveal_strlit("files");
    reveal_strlit("edges");
    assert("version"@.len() == 7 && "files"@.len() == 5 && "edges"@.len() == 5);
    assert("files"@[0] == 'f' && "edges"@[0] == 'e');
    json::lemma_object_member(fields, 1);
    json::lemma_object_member(fields, 2);
}

/// The edges of a file are among those of the files.
proof fn lemma_edges_of_file(
    files: Seq<(Seq<char>, FileFacts)>,
    known: Seq<Seq<char>>,
    names: Seq<(Seq<char>, Seq<Seq<char>>)>,
    n: nat,
    i: int,
    k: int,
)
    requires
        0 <= i < n <= files.len(),
        0 <= k < graph::file_edges(
            index::setting(files[i].0, files[i].1, known, names),
        ).len(),
    ensures
        index::edges_doc(files, known, names, n).contains(
            index::edge_doc(
                graph::file_edges(index::setting(files[i].0, files[i].1, known, names))[k],
            ),
        ),
    decreases n,
{
    let rest = index::edges_doc(files, known, names, (n - 1) as nat);
    let last = index::edge_docs(
        graph::file_edges(index::setting(files[n - 1].0, files[n - 1].1, known, names)),
    );
    let x = index::edge_doc(
        graph::file_edges(index::setting(files[i].0, files[i].1, known, names))[k],
    );
    if i == n - 1 {
        assert(last[k] == x);
        assert((rest + last)[rest.len() + k] == x);
    } else {
        lemma_edges_of_file(files, known, names, (n - 1) as nat, i, k);
        let m = choose|m: int| 0 <= m < rest.len() && rest[m] == x;
        assert((rest + last)[m] == x);
    }
}

/// Every edge that a file's names resolve to is an edge of the index, from
/// where it starts to where it leads.
pub proof fn law_the_index_holds_every_edge(
    files: Seq<(Seq<char>, FileFacts)>,
    known: Seq<Seq<char>>,
    i: int,
    k: int,
)
    requires
        0 <= i < files.len(),
        0 <= k < graph::file_edges(
            index::setting(
                files[i].0,
                files[i].1,
                known,
                index::name_table(files, files.len()),
            ),
        ).len(),
    ensures
        ({
            let e = graph::file_edges(
                index::setting(
                    files[i].0,
                    files[i].1,
                    known,
                    index::name_table(files, files.len()),
                ),
            )[k];
            reach_laws::has_edge(index::index_doc(files, known), e.from, e.to)
        }),
{
    let names = index::name_table(files, files.len());
    let e = graph::file_edges(index::setting(files[i].0, files[i].1, known, names))[k];
    lemma_members(files, known);
    lemma_edges_of_file(files, known, names, files.len(), i, k);
    let v = index::edges_doc(files, known, names, files.len());
    let m = choose|m: int| 0 <= m < v.len() && v[m] == index::edge_doc(e);
    assert(reach_laws::is_edge(v[m], e.from, e.to));
}

/// The record of a file is stored under its path.
proof fn lemma_file_record(files: Seq<(Seq<char>, FileFacts)>, n: nat, i: int)
    requires
        0 <= i < n <= files.len(),
        table::ordered(table::keys(files)),
    ensures
        table::ordered(table::keys(index::files_doc(files, n))),
        table::value(index::files_doc(files, n), files[i].0) == Some(
            index::file_doc(files[i].1),
        ),
    decreases n,
{
    let rest = index::files_doc(files, (n - 1) as nat);
    lemma_files_ordered(files, (n - 1) as nat);
    table::lemma_put(rest, files[n - 1].0, index::file_doc(files[n - 1].1));
    if i < n - 1 {
        lemma_file_record(files, (n - 1) as nat, i);
        let ks = table::keys(files);
        assert(ks[i] == files[i].0 && ks[n - 1] == files[n - 1].0);
        if files[i].0 == files[n - 1].0 {
            table::lemma_place(ks, files[i].0, i);
            table::lemma_place(ks, files[i].0, n - 1);
        }
    }
}

/// The records of files are in order.
proof fn lemma_files_ordered(files: Seq<(Seq<char>, FileFacts)>, n: nat)
    ensures
        table::ordered(table::keys(index::files_doc(files, n))),
    decreases n,
{
    if n > 0 {
        lemma_files_ordered(files, (n - 1) as nat);
        table::lemma_put(
            index::files_doc(files, (n - 1) as nat),
            files[n - 1].0,
            index::file_doc(files[n - 1].1),
        );
    }
}

/// The record of a symbol is stored under its name.
proof fn lemma_symbol_record(symbols: Seq<SymbolFacts>, n: nat, k: int)
    requires
        0 <= k < n <= symbols.len(),
    ensures
        table::ordered(table::keys(index::symbols_doc(symbols, n))),
        text::listed(table::keys(index::symbols_doc(symbols, n)), symbols[k].name),
    decreases n,
{
    let rest = index::symbols_doc(symbols, (n - 1) as nat);
    lemma_symbols_ordered(symbols, (n - 1) as nat);
    table::lemma_put(rest, symbols[n - 1].name, index::symbol_doc(symbols[n - 1]));
    let known = text::listed(table::keys(rest), symbols[k].name);
    if k < n - 1 {
        lemma_symbol_record(symbols, (n - 1) as nat, k);
        assert(known);
    }
}

/// The records of symbols are in order.
proof fn lemma_symbols_ordered(symbols: Seq<SymbolFacts>, n: nat)
    ensures
        table::ordered(table::keys(index::symbols_doc(symbols, n))),
    decreases n,
{
    if n > 0 {
        lemma_symbols_ordered(symbols, (n - 1) as nat);
        table::lemma_put(
            index::symbols_doc(symbols, (n - 1) as nat),
            symbols[n - 1].name,
            index::symbol_doc(symbols[n - 1]),
        );
    }
}

/// Every symbol of a file is one of the nodes that the index has for it, under
/// the file's path and the symbol's name.
pub proof fn law_the_index_holds_every_symbol(
    files: Seq<(Seq<char>, FileFacts)>,
    known: Seq<Seq<char>>,
    i: int,
    k: int,
)
    requires
        table::ordered(table::keys(files)),
        0 <= i < files.len(),
        0 <= k < files[i].1.symbols.len(),
    ensures
        text::listed(
            radius::file_nodes(index::index_doc(files, known), files[i].0),
            files[i].0 + "::"@ + files[i].1.symbols[k].name,
        ),
{
    let d = index::index_doc(files, known);
    let (path, facts) = files[i];
    let all = index::files_doc(files, files.len());
    lemma_members(files, known);
    lemma_file_record(files, files.len(), i);
    json::lemma_member_value(all, path);
    let file = index::file_doc(facts);
    let v = index::symbols_doc(facts.symbols, facts.symbols.len());
    let fields = seq![
        ("language"@, Doc::Text(facts.language)),
        ("doc"@, Doc::Text(facts.doc)),
        ("symbols"@, Doc::Object(v)),
    ];
    reveal_strlit("language");
    reveal_strlit("doc");
    reveal_strlit("symbols");
    assert("language"@.len() == 8 && "doc"@.len() == 3 && "symbols"@.len() == 7);
    json::lemma_object_member(fields, 2);
    lemma_symbol_record(facts.symbols, facts.symbols.len(), k);
    let ks = table::keys(v);
    let m = choose|m: int| 0 <= m < ks.len() && #[trigger] ks[m] == facts.symbols[k].name;
    reach_laws::law_a_files_symbols_are_its_nodes(d, path, Doc::Object(all), file, v, m);
    assert(v[m].0 == ks[m]);
    assert(radius::file_nodes(d, path)[m] == path + "::"@ + facts.symbols[k].name);
}

/// Putting a file's names in keeps those that there were, and adds its own.
proof fn lemma_with_names(
    t: Seq<(Seq<char>, Seq<Seq<char>>)>,
    path: Seq<char>,
    symbols: Seq<SymbolFacts>,
    n: nat,
    name: Seq<char>,
    x: Seq<char>,
)
    requires
        n <= symbols.len(),
        table::ordered(table::keys(t)),
        forall|m: Seq<char>| table::ordered(#[trigger] graph::definers(t, m)),
    ensures
        ({
            let r = index::with_names(t, path, symbols, n);
            &&& table::ordered(table::keys(r))
            &&& forall|m: Seq<char>| table::ordered(#[trigger] graph::definers(r, m))
            &&& text::listed(graph::definers(r, name), x) <==> text::listed(
                graph::definers(t, name),
                x,
            ) || x == path && exists|k: int| 0 <= k < n && (#[trigger] symbols[k]).name == name
        }),
    decreases n,
{
    if n > 0 {
        lemma_with_names(t, path, symbols, (n - 1) as nat, name, x);
        let rest = index::with_names(t, path, symbols, (n - 1) as nat);
        let own = symbols[n - 1].name;
        let list = order::with_text(graph::definers(rest, own), path);
        order::lemma_with_text(graph::definers(rest, own), path);
        table::lemma_put(rest, own, list);
        let r = index::with_names(t, path, symbols, n);
        assert forall|m: Seq<char>| table::ordered(#[trigger] graph::definers(r, m)) by {
            if m != own {
                assert(table::value(r, m) == table::value(rest, m));
                assert(graph::definers(r, m) == graph::definers(rest, m));
            }
        }
        if name != own {
            assert(table::value(r, name) == table::value(rest, name));
            assert(graph::definers(r, name) == graph::definers(rest, name));
            if exists|k: int| 0 <= k < n && (#[trigger] symbols[k]).name == name {
                let k = choose|k: int| 0 <= k < n && (#[trigger] symbols[k]).name == name;
                assert(k < n - 1);
            }
        } else {
            assert(graph::definers(r, name) == list);
            assert(text::listed(list, x) <==> (x == path || text::listed(
                graph::definers(rest, own),
                x,
            )));
            assert(symbols[n - 1].name == name);
        }
    }
}

/// The files that the table gives for a name are those that have a symbol of
/// that name, and no others.
pub proof fn law_a_name_is_defined_where_a_symbol_has_it(
    files: Seq<(Seq<char>, FileFacts)>,
    n: nat,
    name: Seq<char>,
    path: Seq<char>,
)
    requires
        n <= files.len(),
    ensures
        table::ordered(table::keys(index::name_table(files, n))),
        forall|m: Seq<char>|
            table::ordered(#[trigger] graph::definers(index::name_table(files, n), m)),
        text::listed(graph::definers(index::name_table(files, n), name), path) <==> exists|i: int|
            0 <= i < n && (#[trigger] files[i]).0 == path && has_symbol(files[i].1, name),
    decreases n,
{
    if n > 0 {
        law_a_name_is_defined_where_a_symbol_has_it(files, (n - 1) as nat, name, path);
        let t = index::name_table(files, (n - 1) as nat);
        let (own, facts) = files[n - 1];
        lemma_with_names(t, own, facts.symbols, facts.symbols.len(), name, path);
        if exists|i: int|
            0 <= i < n && (#[trigger] files[i]).0 == path && has_symbol(files[i].1, name) {
            let i = choose|i: int|
                0 <= i < n && (#[trigger] files[i]).0 == path && has_symbol(files[i].1, name);
            if i < n - 1 {
                assert(files[i].0 == path && has_symbol(files[i].1, name));
            }
        }
        if path == own && has_symbol(facts, name) {
            assert(files[n - 1].0 == path);
        }
    } else {
        assert forall|m: Seq<char>| table::ordered(
            #[trigger] graph::definers(index::name_table(files, n), m),
        ) by {
            assert(table::value(index::name_table(files, n), m) is None);
        }
        assert(table::value(index::name_table(files, n), name) is None);
    }
}

/// Does the file have a symbol of the name?
pub open spec fn has_symbol(facts: FileFacts, name: Seq<char>) -> bool {
    exists|k: int| 0 <= k < facts.symbols.len() && (#[trigger] facts.symbols[k]).name == name
}

} // verus!

//! The repository as symbols and edges.
//!
//! Source is parsed in memory and dropped. What an index holds is structure
//! only: which symbols exist, what they look like, and which of them call
//! which. No file contents, ever: the index of a private repository is safe
//! to read, and that is deliberate.
use vstd::prelude::*;
use crate::config;
use crate::text;
use crate::table;
use crate::radius;
use crate::order;
use crate::langs;
use crate::json;
use crate::graph;
use crate::engine;
use crate::calls;
use crate::engine::{FileFacts, ParseOutput, Symbol, SymbolFacts};
use crate::graph::{Edge, EdgeText, ImportSpec, Setting, SymbolEdges, SymbolText};
use crate::json::{Doc, Json};

verus! {

/// The version that an index is written in.
pub const INDEX_VERSION: u64 = 1;

/// A file longer than this is not parsed.
pub const MAX_FILE_BYTES: u64 = 524288;

// ------------------------------------------------------------ source files

/// Directories never worth walking: build output, dependencies, and our own
/// bookkeeping. Skipping them is most of the speed.
pub open spec fn skipped_dir(name: Seq<char>) -> bool {
    ||| name == ".git"@
    ||| name == ".blast"@
    ||| name == ".collide"@
    ||| name == "node_modules"@
    ||| name == "target"@
    ||| name == "dist"@
    ||| name == "build"@
    ||| name == ".next"@
    ||| name == "__pycache__"@
    ||| name == ".venv"@
    ||| name == "venv"@
    ||| name == ".mypy_cache"@
    ||| name == ".pytest_cache"@
    ||| name == ".ruff_cache"@
    ||| name == "vendor"@
    ||| name == ".idea"@
    ||| name == ".vscode"@
    ||| name == "coverage"@
    ||| name == ".tox"@
    ||| name == ".gradle"@
    ||| name == "Pods"@
    ||| text::has_prefix(name, "."@)
}

/// Is the directory never worth walking?
pub fn skips_dir(name: &str) -> (r: bool)
    ensures
        r == skipped_dir(name@),
{
    text::same(name, ".git") || text::same(name, ".blast") || text::same(name, ".collide") || text::same(
        name,
        "node_modules",
    ) || text::same(name, "target") || text::same(name, "dist") || text::same(name, "build") || text::same(name, ".next")
        || text::same(name, "__pycache__") || text::same(name, ".venv") || text::same(name, "venv") || text::same(
        name,
        ".mypy_cache",
    ) || text::same(name, ".pytest_cache") || text::same(name, ".ruff_cache") || text::same(name, "vendor") || text::same(
        name,
        ".idea",
    ) || text::same(name, ".vscode") || text::same(name, "coverage") || text::same(name, ".tox") || text::same(
        name,
        ".gradle",
    ) || text::same(name, "Pods") || text::starts_with(name, ".")
}

/// Does the path end with one of the extensions?
pub open spec fn ends_in(path: Seq<char>, exts: Seq<Seq<char>>) -> bool {
    exists|j: int| 0 <= j < exts.len() && text::has_suffix(path, #[trigger] exts[j])
}

/// Does a language take the file?
pub open spec fn is_supported(path: Seq<char>) -> bool {
    exists|i: int|
        0 <= i < langs::lang_table().len() && ends_in(
            text::lowercase(path),
            (#[trigger] langs::lang_table()[i]).exts,
        )
}

/// Does the path end with one of the extensions?
fn has_ext(path: &str, exts: &Vec<&'static str>) -> (r: bool)
    ensures
        r == ends_in(path@, langs::strs(exts@)),
{
    let ghost all = langs::strs(exts@);
    let mut j: usize = 0;
    while j < exts.len()
        invariant
            j <= exts.len(),
            all == langs::strs(exts@),
            all.len() == exts@.len(),
            forall|k: int| 0 <= k < j ==> !text::has_suffix(path@, #[trigger] all[k]),
        decreases exts.len() - j,
    {
        assert(all[j as int] == exts@[j as int]@);
        if text::ends_with(path, exts[j]) {
            return true;
        }
        j += 1;
    }
    false
}

/// Does a language take the file?
pub fn supported(path: &str) -> (r: bool)
    ensures
        r == is_supported(path@),
{
    let lower = text::to_lowercase(path);
    let table = langs::specs();
    let ghost all = langs::lang_table();
    let mut i: usize = 0;
    assert(langs::lang_texts(table@).len() == table@.len());
    while i < table.len()
        invariant
            i <= table.len() == all.len(),
            lower@ == text::lowercase(path@),
            all == langs::lang_table(),
            langs::lang_texts(table@) == all,
            forall|k: int| 0 <= k < i ==> !ends_in(lower@, (#[trigger] all[k]).exts),
        decreases table.len() - i,
    {
        assert(all[i as int] == table@[i as int]@);
        if has_ext(lower.as_str(), &table[i].exts) {
            return true;
        }
        i += 1;
    }
    false
}

/// The source files among the first `n` files found, with forward slashes.
pub open spec fn sources_upto(found: Seq<Seq<char>>, n: nat) -> Seq<Seq<char>>
    decreases n,
{
    if n == 0 {
        Seq::empty()
    } else {
        let rest = sources_upto(found, (n - 1) as nat);
        let path = text::swapped(found[n - 1], '\\', '/');
        if is_supported(path) {
            rest.push(path)
        } else {
            rest
        }
    }
}

/// The source files among the files found, repo-relative, sorted so an index
/// built twice on the same tree is byte-identical.
pub fn source_files(found: &Vec<String>) -> (r: Vec<String>)
    ensures
        text::texts(r@) == order::sorted::<String>(sources_upto(text::texts(found@), found@.len())),
{
    let ghost all = text::texts(found@);
    let mut out: Vec<String> = Vec::new();
    let mut k: usize = 0;
    assert(text::texts(out@) =~= Seq::<Seq<char>>::empty());
    while k < found.len()
        invariant
            k <= found.len(),
            all == text::texts(found@),
            text::texts(out@) == sources_upto(all, k as nat),
        decreases found.len() - k,
    {
        assert(all[k as int] == found@[k as int]@);
        let path = text::swap(found[k].as_str(), '\\', '/');
        if supported(path.as_str()) {
            proof {
                text::lemma_texts_push(out@, path);
            }
            out.push(path);
        }
        k += 1;
    }
    assert(order::all_say(out@) =~= text::texts(out@));
    let r = order::sort(out);
    assert(order::all_say(r@) =~= text::texts(r@));
    r
}

// ------------------------------------------------------------- one symbol

/// The sources before a file found do not depend on it.
proof fn lemma_sources_prefix(found: Seq<Seq<char>>, p: int, n: nat)
    requires
        n <= p < found.len(),
    ensures
        sources_upto(found.remove(p), n) == sources_upto(found, n),
    decreases n,
{
    if n > 0 {
        lemma_sources_prefix(found, p, (n - 1) as nat);
    }
}

/// Taking out one file found takes out its source alone.
proof fn lemma_sources_remove(found: Seq<Seq<char>>, p: int, n: nat)
    requires
        0 <= p < n <= found.len(),
    ensures
        ({
            let path = text::swapped(found[p], '\\', '/');
            let rest = sources_upto(found.remove(p), (n - 1) as nat).to_multiset();
            sources_upto(found, n).to_multiset() == if is_supported(path) {
                rest.insert(path)
            } else {
                rest
            }
        }),
    decreases n,
{
    let less = found.remove(p);
    if n - 1 == p {
        lemma_sources_prefix(found, p, (n - 1) as nat);
        vstd::seq_lib::to_multiset_build(
            sources_upto(found, (n - 1) as nat),
            text::swapped(found[p], '\\', '/'),
        );
    } else {
        lemma_sources_remove(found, p, (n - 1) as nat);
        let last = text::swapped(found[n - 1], '\\', '/');
        assert(less[n - 2] == found[n - 1]);
        vstd::seq_lib::to_multiset_build(sources_upto(found, (n - 1) as nat), last);
        vstd::seq_lib::to_multiset_build(sources_upto(less, (n - 2) as nat), last);
        let path = text::swapped(found[p], '\\', '/');
        let rest = sources_upto(less, (n - 2) as nat).to_multiset();
        assert(rest.insert(path).insert(last) =~= rest.insert(last).insert(path));
    }
}

/// The same files, found in another order, are the same sources.
proof fn lemma_sources_of_same(a: Seq<Seq<char>>, b: Seq<Seq<char>>)
    requires
        a.to_multiset() == b.to_multiset(),
    ensures
        sources_upto(a, a.len()).to_multiset() == sources_upto(b, b.len()).to_multiset(),
    decreases a.len(),
{
    broadcast use vstd::seq_lib::group_to_multiset_ensures;

    assert(a.len() == a.to_multiset().len());
    assert(b.len() == b.to_multiset().len());
    if a.len() > 0 {
        let x = a[a.len() - 1];
        assert(a.contains(x));
        assert(a.to_multiset().count(x) > 0);
        assert(b.contains(x));
        let p = choose|p: int| 0 <= p < b.len() && b[p] == x;
        let fewer_a = a.remove(a.len() - 1);
        let fewer_b = b.remove(p);
        vstd::seq_lib::to_multiset_remove(a, a.len() - 1);
        vstd::seq_lib::to_multiset_remove(b, p);
        lemma_sources_of_same(fewer_a, fewer_b);
        lemma_sources_remove(a, a.len() - 1, a.len());
        lemma_sources_remove(b, p, b.len());
    }
}

/// The order in which files are found does not matter: the same tree gives
/// the same sources in the same order, and so the same index.
pub proof fn law_listing_order_does_not_matter(a: Seq<Seq<char>>, b: Seq<Seq<char>>)
    requires
        a.to_multiset() == b.to_multiset(),
    ensures
        order::sorted::<String>(sources_upto(a, a.len())) == order::sorted::<String>(
            sources_upto(b, b.len()),
        ),
{
    lemma_sources_of_same(a, b);
    order::lemma_sorted_texts(sources_upto(a, a.len()), sources_upto(b, b.len()));
}

/// What the first `n` call sites call, and on which line: what stands twice in
/// a row once. What they pass is left out: an index holds no source.
pub open spec fn called_upto(v: Seq<(Seq<char>, nat, Seq<char>)>, n: nat) -> Seq<(Seq<char>, nat)>
    decreases n,
{
    if n == 0 {
        Seq::empty()
    } else {
        let rest = called_upto(v, (n - 1) as nat);
        let here = (v[n - 1].0, v[n - 1].1);
        if rest.len() > 0 && rest.last() == here {
            rest
        } else {
            rest.push(here)
        }
    }
}

/// A call, in the shape of the index.
pub open spec fn call_doc(x: (Seq<char>, nat)) -> Doc {
    Doc::List(seq![Doc::Text(x.0), Doc::Number(text::decimal(x.1))])
}

/// Call sites, in the shape of the index.
pub open spec fn site_docs(v: Seq<(Seq<char>, nat, Seq<char>)>) -> Seq<Doc> {
    let called = called_upto(v, v.len());
    Seq::new(called.len(), |i: int| call_doc(called[i]))
}

/// The record that an index stores of a symbol.
pub open spec fn symbol_doc(s: SymbolFacts) -> Doc {
    json::object_doc(
        seq![
            ("kind"@, Doc::Text(s.kind)),
            ("signature"@, Doc::Text(s.signature)),
            (
                "span"@,
                Doc::List(seq![Doc::Number(text::decimal(s.span.0)), Doc::Number(text::decimal(s.span.1))]),
            ),
            ("params"@, Doc::List(json::text_docs(s.params))),
            ("doc"@, Doc::Text(s.doc)),
            ("calls"@, Doc::List(site_docs(s.sites))),
        ],
    )
}

/// Call sites, in the shape of the index.
fn site_list(v: &Vec<(String, u32, String)>) -> (r: Json)
    ensures
        r@ == Doc::List(site_docs(calls::site_texts(v@))),
{
    let ghost all = calls::site_texts(v@);
    let mut out: Vec<Json> = Vec::new();
    let mut k: usize = 0;
    while k < v.len()
        invariant
            k <= v.len(),
            all == calls::site_texts(v@),
            out@.len() == called_upto(all, k as nat).len(),
            k > 0 ==> called_upto(all, k as nat).len() > 0 && called_upto(all, k as nat).last() == (
                all[k - 1].0,
                all[k - 1].1,
            ),
            forall|j: int|
                0 <= j < out@.len() ==> (#[trigger] out@[j])@ == call_doc(
                    called_upto(all, k as nat)[j],
                ),
        decreases v.len() - k,
    {
        assert(all[k as int] == (v@[k as int].0@, v@[k as int].1 as nat, v@[k as int].2@));
        let again = if k > 0 {
            assert(all[k - 1] == (v@[k - 1].0@, v@[k - 1].1 as nat, v@[k - 1].2@));
            text::same(v[k - 1].0.as_str(), v[k].0.as_str()) && v[k - 1].1 == v[k].1
        } else {
            false
        };
        if !again {
            let entry: Vec<Json> = vec![
                json::text(v[k].0.as_str()),
                json::count(v[k].1 as u64),
            ];
            proof {
                json::lemma_list(entry);
                assert(json::docs(entry@) =~= seq![
                    Doc::Text(v@[k as int].0@),
                    Doc::Number(text::decimal(v@[k as int].1 as nat)),
                ]);
            }
            out.push(Json::List(entry));
        }
        k += 1;
    }
    proof {
        json::lemma_list(out);
        assert(all.len() == v@.len());
        assert(json::docs(out@) =~= site_docs(all));
    }
    Json::List(out)
}

/// What is called does not depend on what is passed.
proof fn lemma_called(
    a: Seq<(Seq<char>, nat, Seq<char>)>,
    b: Seq<(Seq<char>, nat, Seq<char>)>,
    n: nat,
)
    requires
        n <= a.len() == b.len(),
        forall|i: int|
            0 <= i < a.len() ==> (#[trigger] a[i]).0 == b[i].0 && a[i].1 == b[i].1,
    ensures
        called_upto(a, n) == called_upto(b, n),
    decreases n,
{
    if n > 0 {
        lemma_called(a, b, (n - 1) as nat);
        assert(a[n - 1].0 == b[n - 1].0);
    }
}

/// No arguments are stored: symbols that differ only in what their calls pass
/// have the same record.
pub proof fn law_no_arguments_are_stored(a: SymbolFacts, b: SymbolFacts)
    requires
        a.kind == b.kind,
        a.signature == b.signature,
        a.span == b.span,
        a.params == b.params,
        a.doc == b.doc,
        a.sites.len() == b.sites.len(),
        forall|i: int|
            0 <= i < a.sites.len() ==> (#[trigger] a.sites[i]).0 == b.sites[i].0 && a.sites[i].1
                == b.sites[i].1,
    ensures
        symbol_doc(a) == symbol_doc(b),
{
    lemma_called(a.sites, b.sites, a.sites.len());
    assert(site_docs(a.sites) =~= site_docs(b.sites));
}

/// The record that an index stores of a symbol.
pub fn symbol_record(s: &Symbol) -> (r: Json)
    ensures
        r@ == symbol_doc(s@),
{
    let span: Vec<Json> = vec![json::count(s.span.0 as u64), json::count(s.span.1 as u64)];
    proof {
        json::lemma_list(span);
        assert(json::docs(span@) =~= seq![
            Doc::Number(text::decimal(s.span.0 as nat)),
            Doc::Number(text::decimal(s.span.1 as nat)),
        ]);
    }
    let v: Vec<(&'static str, Json)> = vec![
        ("kind", json::text(s.kind.as_str())),
        ("signature", json::text(s.signature.as_str())),
        ("span", Json::List(span)),
        ("params", json::text_list(&s.params)),
        ("doc", json::text(s.doc.as_str())),
        ("calls", site_list(&s.sites)),
    ];
    let ghost said = s@;
    assert(json::entry_docs(v@) =~= seq![
        ("kind"@, Doc::Text(said.kind)),
        ("signature"@, Doc::Text(said.signature)),
        (
            "span"@,
            Doc::List(
                seq![Doc::Number(text::decimal(said.span.0)), Doc::Number(text::decimal(said.span.1))],
            ),
        ),
        ("params"@, Doc::List(json::text_docs(said.params))),
        ("doc"@, Doc::Text(said.doc)),
        ("calls"@, Doc::List(site_docs(said.sites))),
    ]);
    json::object(v)
}

// --------------------------------------------------------------- the whole

/// The parsed files, in the order of their paths.
pub open spec fn file_texts(v: Seq<(String, ParseOutput)>) -> Seq<(Seq<char>, FileFacts)> {
    Seq::new(v.len(), |i: int| (v[i].0@, v[i].1@))
}

/// The files among the first `n` that parse, by path.
pub open spec fn parsed_upto(sources: Seq<(Seq<char>, Seq<char>)>, n: nat) -> Seq<
    (Seq<char>, FileFacts),
>
    decreases n,
{
    if n == 0 {
        Seq::empty()
    } else {
        let rest = parsed_upto(sources, (n - 1) as nat);
        match engine::parsed(sources[n - 1].0, sources[n - 1].1) {
            Some(facts) => table::put(rest, sources[n - 1].0, facts),
            None => rest,
        }
    }
}

/// The files that define each name, with the first `n` symbols of a file put
/// in.
pub open spec fn with_names(
    index: Seq<(Seq<char>, Seq<Seq<char>>)>,
    path: Seq<char>,
    symbols: Seq<SymbolFacts>,
    n: nat,
) -> Seq<(Seq<char>, Seq<Seq<char>>)>
    decreases n,
{
    if n == 0 {
        index
    } else {
        let rest = with_names(index, path, symbols, (n - 1) as nat);
        let name = symbols[n - 1].name;
        table::put(rest, name, order::with_text(graph::definers(rest, name), path))
    }
}

/// The files among the first `n` that define each name: in order, each once.
pub open spec fn name_table(files: Seq<(Seq<char>, FileFacts)>, n: nat) -> Seq<
    (Seq<char>, Seq<Seq<char>>),
>
    decreases n,
{
    if n == 0 {
        Seq::empty()
    } else {
        let (path, facts) = files[n - 1];
        with_names(name_table(files, (n - 1) as nat), path, facts.symbols, facts.symbols.len())
    }
}

/// The symbols of a file with their raw edges.
pub open spec fn edge_symbols(symbols: Seq<SymbolFacts>) -> Seq<SymbolText> {
    Seq::new(
        symbols.len(),
        |i: int| SymbolText { name: symbols[i].name, edges: symbols[i].edges },
    )
}

/// The records of the first `n` symbols of a file, by name.
pub open spec fn symbols_doc(symbols: Seq<SymbolFacts>, n: nat) -> Seq<(Seq<char>, Doc)>
    decreases n,
{
    if n == 0 {
        Seq::empty()
    } else {
        table::put(
            symbols_doc(symbols, (n - 1) as nat),
            symbols[n - 1].name,
            symbol_doc(symbols[n - 1]),
        )
    }
}

/// The record that an index stores of a file.
pub open spec fn file_doc(facts: FileFacts) -> Doc {
    json::object_doc(
        seq![
            ("language"@, Doc::Text(facts.language)),
            ("doc"@, Doc::Text(facts.doc)),
            ("symbols"@, Doc::Object(symbols_doc(facts.symbols, facts.symbols.len()))),
        ],
    )
}

/// The records of the first `n` files, by path.
pub open spec fn files_doc(files: Seq<(Seq<char>, FileFacts)>, n: nat) -> Seq<(Seq<char>, Doc)>
    decreases n,
{
    if n == 0 {
        Seq::empty()
    } else {
        table::put(files_doc(files, (n - 1) as nat), files[n - 1].0, file_doc(files[n - 1].1))
    }
}

/// An edge, in the shape of the index.
pub open spec fn edge_doc(e: EdgeText) -> Doc {
    Doc::List(
        seq![
            Doc::Text(e.from),
            Doc::Text(e.to),
            Doc::Text(e.kind),
            Doc::Text(e.confidence),
        ],
    )
}

/// Edges, in the shape of the index.
pub open spec fn edge_docs(v: Seq<EdgeText>) -> Seq<Doc> {
    Seq::new(v.len(), |i: int| edge_doc(v[i]))
}

/// What the edges of a file are resolved against.
pub open spec fn setting(
    path: Seq<char>,
    facts: FileFacts,
    known: Seq<Seq<char>>,
    names: Seq<(Seq<char>, Seq<Seq<char>>)>,
) -> Setting {
    Setting {
        path,
        language: facts.language,
        symbols: edge_symbols(facts.symbols),
        imports: facts.imports,
        known,
        index: names,
    }
}

/// The edges of the first `n` files.
pub open spec fn edges_doc(
    files: Seq<(Seq<char>, FileFacts)>,
    known: Seq<Seq<char>>,
    names: Seq<(Seq<char>, Seq<Seq<char>>)>,
    n: nat,
) -> Seq<Doc>
    decreases n,
{
    if n == 0 {
        Seq::empty()
    } else {
        edges_doc(files, known, names, (n - 1) as nat) + edge_docs(
            graph::file_edges(setting(files[n - 1].0, files[n - 1].1, known, names)),
        )
    }
}

/// How many of the first `n` files carry symbols.
pub open spec fn carrying(files: Seq<(Seq<char>, FileFacts)>, n: nat) -> nat
    decreases n,
{
    if n == 0 {
        0
    } else {
        carrying(files, (n - 1) as nat) + if files[n - 1].1.symbols.len() > 0 {
            1nat
        } else {
            0nat
        }
    }
}

/// How many symbols the first `n` files have.
pub open spec fn symbol_count(files: Seq<(Seq<char>, FileFacts)>, n: nat) -> nat
    decreases n,
{
    if n == 0 {
        0
    } else {
        symbol_count(files, (n - 1) as nat) + files[n - 1].1.symbols.len()
    }
}

/// The index of the parsed files, in a repository with the known files.
pub open spec fn index_doc(files: Seq<(Seq<char>, FileFacts)>, known: Seq<Seq<char>>) -> Doc {
    let names = name_table(files, files.len());
    json::object_doc(
        seq![
            ("version"@, Doc::Number(text::decimal(INDEX_VERSION as nat))),
            ("files"@, Doc::Object(files_doc(files, files.len()))),
            ("edges"@, Doc::List(edges_doc(files, known, names, files.len()))),
        ],
    )
}

/// Adds a file to those that define a name.
fn add_name(index: &mut Vec<(String, Vec<String>)>, name: &String, path: &str)
    requires
        radius::callers_ordered(old(index)@),
    ensures
        graph::index_texts(final(index)@) == table::put(
            graph::index_texts(old(index)@),
            name@,
            order::with_text(graph::definers(graph::index_texts(old(index)@), name@), path@),
        ),
        radius::callers_ordered(final(index)@),
{
    radius::add_caller(index, name.clone(), path.to_string());
}

/// The files that define each name: in order, each once.
fn names_of(files: &Vec<(String, ParseOutput)>) -> (r: Vec<(String, Vec<String>)>)
    ensures
        graph::index_texts(r@) == name_table(file_texts(files@), files@.len()),
        table::ordered(table::stored_keys(r@)),
{
    let ghost all = file_texts(files@);
    let mut out: Vec<(String, Vec<String>)> = Vec::new();
    let mut k: usize = 0;
    assert(graph::index_texts(out@) =~= Seq::<(Seq<char>, Seq<Seq<char>>)>::empty());
    while k < files.len()
        invariant
            k <= files.len(),
            all == file_texts(files@),
            radius::callers_ordered(out@),
            graph::index_texts(out@) == name_table(all, k as nat),
        decreases files.len() - k,
    {
        assert(all[k as int] == (files@[k as int].0@, files@[k as int].1@));
        let symbols = &files[k].1.symbols;
        let ghost these = engine::symbol_facts(symbols@);
        let ghost start = graph::index_texts(out@);
        let ghost path = files@[k as int].0@;
        let mut j: usize = 0;
        while j < symbols.len()
            invariant
                j <= symbols.len(),
                k < files.len(),
                path == files@[k as int].0@,
                these == engine::symbol_facts(symbols@),
                radius::callers_ordered(out@),
                graph::index_texts(out@) == with_names(start, path, these, j as nat),
            decreases symbols.len() - j,
        {
            assert(these[j as int] == symbols@[j as int]@);
            add_name(&mut out, &symbols[j].name, files[k].0.as_str());
            j += 1;
        }
        assert(these.len() == symbols@.len());
        k += 1;
    }
    out
}

/// The records of the symbols of a file, by name.
fn symbols_json(symbols: &Vec<Symbol>) -> (r: Json)
    ensures
        r@ == Doc::Object(symbols_doc(engine::symbol_facts(symbols@), symbols@.len())),
{
    let ghost all = engine::symbol_facts(symbols@);
    let mut out: Vec<(String, Json)> = Vec::new();
    let mut k: usize = 0;
    assert(json::members(out@) =~= Seq::<(Seq<char>, Doc)>::empty());
    while k < symbols.len()
        invariant
            k <= symbols.len(),
            all == engine::symbol_facts(symbols@),
            json::members(out@) == symbols_doc(all, k as nat),
        decreases symbols.len() - k,
    {
        assert(all[k as int] == symbols@[k as int]@);
        json::set_member(&mut out, symbols[k].name.as_str(), symbol_record(&symbols[k]));
        k += 1;
    }
    proof {
        json::lemma_object(out);
    }
    Json::Object(out)
}

/// The record that an index stores of a file.
fn file_record(facts: &ParseOutput) -> (r: Json)
    ensures
        r@ == file_doc(facts@),
{
    let ghost said = facts@;
    assert(said.symbols.len() == facts.symbols@.len());
    let v: Vec<(&'static str, Json)> = vec![
        ("language", json::text(facts.language)),
        ("doc", json::text(facts.doc.as_str())),
        ("symbols", symbols_json(&facts.symbols)),
    ];
    assert(json::entry_docs(v@) =~= seq![
        ("language"@, Doc::Text(said.language)),
        ("doc"@, Doc::Text(said.doc)),
        ("symbols"@, Doc::Object(symbols_doc(said.symbols, said.symbols.len()))),
    ]);
    json::object(v)
}

/// The symbols of a file with their raw edges.
fn views_of<'a>(symbols: &'a Vec<Symbol>) -> (r: Vec<SymbolEdges<'a>>)
    ensures
        graph::symbol_texts(r@) == edge_symbols(engine::symbol_facts(symbols@)),
{
    let ghost all = edge_symbols(engine::symbol_facts(symbols@));
    let mut out: Vec<SymbolEdges<'a>> = Vec::new();
    let mut k: usize = 0;
    assert(graph::symbol_texts(out@) =~= all.take(0));
    while k < symbols.len()
        invariant
            k <= symbols.len(),
            all == edge_symbols(engine::symbol_facts(symbols@)),
            graph::symbol_texts(out@) == all.take(k as int),
        decreases symbols.len() - k,
    {
        let x = SymbolEdges {
            name: symbols[k].name.as_str(),
            edges: symbols[k].edges.as_slice(),
        };
        assert(engine::symbol_facts(symbols@)[k as int] == symbols@[k as int]@);
        assert(x@ == all[k as int]);
        let ghost before = graph::symbol_texts(out@);
        out.push(x);
        assert(graph::symbol_texts(out@) =~= before.push(all[k as int]));
        k += 1;
        assert(before.push(all[k - 1]) =~= all.take(k as int));
    }
    assert(all.take(all.len() as int) =~= all);
    out
}

/// The imports of a file.
fn imports_for(facts: &ParseOutput) -> (r: Vec<ImportSpec>)
    ensures
        graph::import_texts(r@) == facts@.imports,
{
    let ghost all = facts@.imports;
    let mut out: Vec<ImportSpec> = Vec::new();
    let mut k: usize = 0;
    assert(graph::import_texts(out@) =~= all.take(0));
    while k < facts.imports.len()
        invariant
            k <= facts.imports.len(),
            all == facts@.imports,
            graph::import_texts(out@) == all.take(k as int),
        decreases facts.imports.len() - k,
    {
        let x = ImportSpec {
            module: facts.imports[k].module.clone(),
            names: text::copy_pairs(&facts.imports[k].names),
        };
        assert(x@ == all[k as int]);
        let ghost before = graph::import_texts(out@);
        out.push(x);
        assert(graph::import_texts(out@) =~= before.push(all[k as int]));
        k += 1;
        assert(before.push(all[k - 1]) =~= all.take(k as int));
    }
    assert(all.take(all.len() as int) =~= all);
    out
}

/// Edges, in the shape of the index.
fn edge_list(edges: &Vec<Edge>) -> (r: Vec<Json>)
    ensures
        json::docs(r@) == edge_docs(graph::edge_texts(edges@)),
{
    let ghost all = edge_docs(graph::edge_texts(edges@));
    let mut out: Vec<Json> = Vec::new();
    let mut k: usize = 0;
    while k < edges.len()
        invariant
            k <= edges.len(),
            all == edge_docs(graph::edge_texts(edges@)),
            out@.len() == k,
            forall|j: int| 0 <= j < k ==> (#[trigger] out@[j])@ == all[j],
        decreases edges.len() - k,
    {
        let e = &edges[k];
        let entry: Vec<Json> = vec![
            json::text(e.from.as_str()),
            json::text(e.to.as_str()),
            json::text(e.kind.as_str()),
            json::text(e.confidence),
        ];
        proof {
            json::lemma_list(entry);
            assert(json::docs(entry@) =~= seq![
                Doc::Text(e@.from),
                Doc::Text(e@.to),
                Doc::Text(e@.kind),
                Doc::Text(e@.confidence),
            ]);
        }
        out.push(Json::List(entry));
        k += 1;
    }
    assert(json::docs(out@) =~= all);
    out
}

/// The edges of a file, in the shape of the index.
fn edges_of(
    path: &str,
    facts: &ParseOutput,
    known: &Vec<String>,
    names: &Vec<(String, Vec<String>)>,
) -> (r: Vec<Json>)
    requires
        table::ordered(table::stored_keys(names@)),
    ensures
        json::docs(r@) == edge_docs(
            graph::file_edges(setting(path@, facts@, text::texts(known@), graph::index_texts(names@))),
        ),
{
    let views = views_of(&facts.symbols);
    let imports = imports_for(facts);
    let edges = graph::resolve_edges(
        path,
        facts.language,
        views.as_slice(),
        imports.as_slice(),
        known,
        names,
    );
    edge_list(&edges)
}

/// The index of the parsed files, in a repository with the known files; how
/// many files carried symbols, and how many symbols there are.
pub fn assemble(files: &Vec<(String, ParseOutput)>, known: &Vec<String>) -> (r: (Json, usize, u64))
    ensures
        r.0@ == index_doc(file_texts(files@), text::texts(known@)),
        r.1 == carrying(file_texts(files@), files@.len()),
        r.2 == symbol_count(file_texts(files@), files@.len()) % 0x1_0000_0000_0000_0000,
{
    let ghost all = file_texts(files@);
    let names = names_of(files);
    let ghost table = graph::index_texts(names@);
    let mut records: Vec<(String, Json)> = Vec::new();
    let mut edges: Vec<Json> = Vec::new();
    let mut symbols: u64 = 0;
    let mut count: usize = 0;
    let mut k: usize = 0;
    assert(json::members(records@) =~= Seq::<(Seq<char>, Doc)>::empty());
    assert(json::docs(edges@) =~= Seq::<Doc>::empty());
    assert(all.len() == files@.len());
    while k < files.len()
        invariant
            k <= files.len(),
            all == file_texts(files@),
            table == graph::index_texts(names@),
            table::ordered(table::stored_keys(names@)),
            json::members(records@) == files_doc(all, k as nat),
            json::docs(edges@) == edges_doc(all, text::texts(known@), table, k as nat),
            count == carrying(all, k as nat),
            count <= k,
            symbols == symbol_count(all, k as nat) % 0x1_0000_0000_0000_0000,
        decreases files.len() - k,
    {
        assert(all[k as int] == (files@[k as int].0@, files@[k as int].1@));
        json::set_member(&mut records, files[k].0.as_str(), file_record(&files[k].1));
        let mut more = edges_of(files[k].0.as_str(), &files[k].1, known, &names);
        let ghost before = edges@;
        let ghost added = more@;
        edges.append(&mut more);
        assert(json::docs(edges@) =~= json::docs(before) + json::docs(added));
        assert(all[k as int].1.symbols.len() == files@[k as int].1.symbols@.len());
        symbols = symbols.wrapping_add(files[k].1.symbols.len() as u64);
        if files[k].1.symbols.len() > 0 {
            count += 1;
        }
        k += 1;
    }
    proof {
        json::lemma_object(records);
        json::lemma_list(edges);
    }
    let v: Vec<(&'static str, Json)> = vec![
        ("version", json::count(INDEX_VERSION)),
        ("files", Json::Object(records)),
        ("edges", Json::List(edges)),
    ];
    assert(json::entry_docs(v@) =~= seq![
        ("version"@, Doc::Number(text::decimal(INDEX_VERSION as nat))),
        ("files"@, Doc::Object(files_doc(all, all.len()))),
        ("edges"@, Doc::List(edges_doc(all, text::texts(known@), table, all.len()))),
    ]);
    (json::object(v), count, symbols)
}

/// Builds the index of a repository: of the sources given by path, among all
/// its known files. Tells how many files carried symbols, so that something
/// true can be said about what was found, and how many symbols there are.
pub fn build(sources: &Vec<(String, String)>, known: &Vec<String>) -> (r: (Json, usize, u64))
    ensures
        r.0@ == index_doc(
            parsed_upto(text::text_pairs(sources@), sources@.len()),
            text::texts(known@),
        ),
        r.1 == carrying(
            parsed_upto(text::text_pairs(sources@), sources@.len()),
            parsed_upto(text::text_pairs(sources@), sources@.len()).len(),
        ),
        r.2 == symbol_count(
            parsed_upto(text::text_pairs(sources@), sources@.len()),
            parsed_upto(text::text_pairs(sources@), sources@.len()).len(),
        ) % 0x1_0000_0000_0000_0000,
{
    let ghost all = text::text_pairs(sources@);
    let mut files: Vec<(String, ParseOutput)> = Vec::new();
    let mut k: usize = 0;
    assert(file_texts(files@) =~= Seq::<(Seq<char>, FileFacts)>::empty());
    // parse everything first: edge resolution needs to know which names the
    // rest of the repository defines before it can say where a call lands
    while k < sources.len()
        invariant
            k <= sources.len(),
            all == text::text_pairs(sources@),
            table::ordered(table::stored_keys(files@)),
            file_texts(files@) == parsed_upto(all, k as nat),
        decreases sources.len() - k,
    {
        assert(all[k as int] == (sources@[k as int].0@, sources@[k as int].1@));
        match engine::parse(sources[k].0.as_str(), sources[k].1.as_str()) {
            Some(facts) => {
                let ghost before = file_texts(files@);
                let ghost key = sources@[k as int].0@;
                let ghost said = facts@;
                assert(table::stored_keys(files@) =~= table::keys(before));
                proof {
                    table::lemma_seat(table::keys(before), key, 0);
                }
                table::set(&mut files, sources[k].0.clone(), facts);
                assert(file_texts(files@) =~= table::put(before, key, said));
            },
            None => {},
        }
        k += 1;
    }
    assert(file_texts(files@).len() == files@.len());
    assemble(&files, known)
}

// ----------------------------------------------------------------- the file

/// Where the index of a repository is kept.
pub fn path_of(root: &str) -> (r: String)
    ensures
        r@ == config::below(config::below(root@, config::DIR@), "index.json"@),
{
    let home = config::dir_of(root);
    config::join_name(home.as_str(), "index.json")
}

/// Is the document an index of the version that we write?
pub open spec fn current(d: Doc) -> bool {
    match json::member(d, "version"@) {
        Some(Doc::Number(n)) => n == text::decimal(INDEX_VERSION as nat),
        _ => false,
    }
}

/// Is the document an index of the version that we write?
pub fn is_current(value: &Json) -> (r: bool)
    ensures
        r == current(value@),
{
    match value.get("version") {
        Some(x) => match x {
            Json::Number(n) => {
                let version = text::number(INDEX_VERSION);
                text::same(n.as_str(), version.as_str())
            },
            _ => false,
        },
        None => false,
    }
}

/// The files in an index.
pub open spec fn files_in(index: Doc) -> Seq<Seq<char>> {
    match json::member(index, "files"@) {
        Some(Doc::Object(v)) => table::keys(v),
        _ => Seq::empty(),
    }
}

/// Has the tree moved past an index? Something in it was written after the
/// index, a file that the index holds is no longer there, or one is there that
/// the index does not hold. The times count from one and the same moment.
pub open spec fn moved_past(index: Doc, known: Seq<Seq<char>>, written: u64, newest: u64) -> bool {
    ||| newest > written
    ||| exists|i: int|
        0 <= i < files_in(index).len() && !text::listed(known, #[trigger] files_in(index)[i])
    ||| exists|i: int| 0 <= i < known.len() && !text::listed(files_in(index), #[trigger] known[i])
}

/// The files in an index.
pub fn indexed_files(index: &Json) -> (r: Vec<String>)
    ensures
        text::texts(r@) == files_in(index@),
{
    let mut out: Vec<String> = Vec::new();
    assert(text::texts(out@) =~= Seq::<Seq<char>>::empty());
    match index.get("files") {
        Some(x) => match x.as_object() {
            Some(v) => {
                let ghost all = json::members(v@);
                let mut k: usize = 0;
                while k < v.len()
                    invariant
                        k <= v.len(),
                        all == json::members(v@),
                        text::texts(out@) == table::keys(all).take(k as int),
                    decreases v.len() - k,
                {
                    assert(all[k as int] == (v@[k as int].0@, v@[k as int].1@));
                    let name = v[k].0.clone();
                    proof {
                        text::lemma_texts_push(out@, name);
                    }
                    out.push(name);
                    assert(table::keys(all).take(k + 1) =~= table::keys(all).take(k as int).push(
                        name@,
                    ));
                    k += 1;
                }
                assert(table::keys(all).take(all.len() as int) =~= table::keys(all));
            },
            None => {},
        },
        None => {},
    }
    out
}

/// Is every one of the texts among the others?
fn all_listed(v: &Vec<String>, list: &Vec<String>) -> (r: bool)
    ensures
        r == forall|i: int|
            0 <= i < v@.len() ==> text::listed(text::texts(list@), #[trigger] text::texts(v@)[i]),
{
    let ghost all = text::texts(v@);
    let mut k: usize = 0;
    while k < v.len()
        invariant
            k <= v.len() == all.len(),
            all == text::texts(v@),
            forall|i: int| 0 <= i < k ==> text::listed(text::texts(list@), #[trigger] all[i]),
        decreases v.len() - k,
    {
        assert(all[k as int] == v@[k as int]@);
        if !text::is_listed(list, v[k].as_str()) {
            return false;
        }
        k += 1;
    }
    true
}

/// Has the tree, whose files were last written at `newest`, moved past an
/// index that was written at `written`?
pub fn is_behind(index: &Json, known: &Vec<String>, written: u64, newest: u64) -> (r: bool)
    ensures
        r == moved_past(index@, text::texts(known@), written, newest),
{
    let files = indexed_files(index);
    assert(text::texts(files@).len() == files@.len());
    assert(text::texts(known@).len() == known@.len());
    newest > written || !all_listed(&files, known) || !all_listed(known, &files)
}

/// `path::symbol` for a file's symbol, the id every edge is written in.
pub fn id(path: &str, symbol: &str) -> (r: String)
    ensures
        r@ == graph::node_name(path@, symbol@),
{
    graph::node_id(path, symbol)
}

/// An index that was built reads as one of the version that we write.
pub proof fn law_built_index_is_current(
    files: Seq<(Seq<char>, FileFacts)>,
    known: Seq<Seq<char>>,
)
    ensures
        current(index_doc(files, known)),
{
    let names = name_table(files, files.len());
    let fields = seq![
        ("version"@, Doc::Number(text::decimal(INDEX_VERSION as nat))),
        ("files"@, Doc::Object(files_doc(files, files.len()))),
        ("edges"@, Doc::List(edges_doc(files, known, names, files.len()))),
    ];
    let none = Seq::<(Seq<char>, Doc)>::empty();
    let one = table::put(none, fields[0].0, fields[0].1);
    let two = table::put(one, fields[1].0, fields[1].1);
    let three = table::put(two, fields[2].0, fields[2].1);
    reveal_with_fuel(json::object_upto, 4);
    assert(json::object_upto(fields, 3) == three);
    assert(table::keys(none) =~= Seq::<Seq<char>>::empty());
    table::lemma_put(none, fields[0].0, fields[0].1);
    table::lemma_put(one, fields[1].0, fields[1].1);
    table::lemma_put(two, fields[2].0, fields[2].1);
    reveal_strlit("version");
    reveal_strlit("files");
    reveal_strlit("edges");
    assert("version"@.len() != "files"@.len() && "version"@.len() != "edges"@.len());
    json::lemma_member_value(three, "version"@);
}

/// The files of an index are those it was put together from.
proof fn lemma_files_doc(files: Seq<(Seq<char>, FileFacts)>, n: nat, p: Seq<char>)
    requires
        n <= files.len(),
    ensures
        table::ordered(table::keys(files_doc(files, n))),
        text::listed(table::keys(files_doc(files, n)), p) <==> text::listed(
            table::keys(files).take(n as int),
            p,
        ),
    decreases n,
{
    let ks = table::keys(files);
    if n == 0 {
        assert(table::keys(files_doc(files, 0)) =~= Seq::<Seq<char>>::empty());
        assert(ks.take(0) =~= Seq::<Seq<char>>::empty());
    } else {
        lemma_files_doc(files, (n - 1) as nat, p);
        let rest = files_doc(files, (n - 1) as nat);
        table::lemma_put(rest, files[n - 1].0, file_doc(files[n - 1].1));
        let now = ks.take(n as int);
        let before = ks.take(n - 1);
        assert(now[n - 1] == files[n - 1].0);
        if text::listed(before, p) {
            let i = choose|i: int| 0 <= i < before.len() && #[trigger] before[i] == p;
            assert(now[i] == p);
        }
        if text::listed(now, p) && p != files[n - 1].0 {
            let i = choose|i: int| 0 <= i < now.len() && #[trigger] now[i] == p;
            assert(before[i] == p);
        }
    }
}

/// An index is behind a tree of just the files it was put together from only
/// where one of them was written after it.
pub proof fn law_a_built_index_is_not_behind(
    files: Seq<(Seq<char>, FileFacts)>,
    known: Seq<Seq<char>>,
    written: u64,
    newest: u64,
)
    ensures
        moved_past(index_doc(files, known), table::keys(files), written, newest) <==> newest
            > written,
{
    let index = index_doc(files, known);
    let held = table::keys(files_doc(files, files.len()));
    lemma_index_files(files, known);
    assert(table::keys(files).take(files.len() as int) =~= table::keys(files));
    assert forall|i: int| 0 <= i < held.len() implies text::listed(
        table::keys(files),
        #[trigger] files_in(index)[i],
    ) by {
        assert(text::listed(held, held[i]));
        lemma_files_doc(files, files.len(), held[i]);
    }
    assert forall|i: int| 0 <= i < table::keys(files).len() implies text::listed(
        files_in(index),
        #[trigger] table::keys(files)[i],
    ) by {
        assert(text::listed(table::keys(files), table::keys(files)[i]));
        lemma_files_doc(files, files.len(), table::keys(files)[i]);
    }
}

/// What stands under `files` in an index.
proof fn lemma_index_files(files: Seq<(Seq<char>, FileFacts)>, known: Seq<Seq<char>>)
    ensures
        files_in(index_doc(files, known)) == table::keys(files_doc(files, files.len())),
{
    let names = name_table(files, files.len());
    let fields = seq![
        ("version"@, Doc::Number(text::decimal(INDEX_VERSION as nat))),
        ("files"@, Doc::Object(files_doc(files, files.len()))),
        ("edges"@, Doc::List(edges_doc(files, known, names, files.len()))),
    ];
    let none = Seq::<(Seq<char>, Doc)>::empty();
    let one = table::put(none, fields[0].0, fields[0].1);
    let two = table::put(one, fields[1].0, fields[1].1);
    let three = table::put(two, fields[2].0, fields[2].1);
    reveal_with_fuel(json::object_upto, 4);
    assert(json::object_upto(fields, 3) == three);
    assert(table::keys(none) =~= Seq::<Seq<char>>::empty());
    table::lemma_put(none, fields[0].0, fields[0].1);
    table::lemma_put(one, fields[1].0, fields[1].1);
    table::lemma_put(two, fields[2].0, fields[2].1);
    reveal_strlit("files");
    reveal_strlit("edges");
    assert("files"@[0] != "edges"@[0]);
    json::lemma_member_value(three, "files"@);
}

} // verus!

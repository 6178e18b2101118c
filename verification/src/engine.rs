//! A file as symbols: what it declares, what each declaration touches, and
//! what the file brings in.
use vstd::prelude::*;
use crate::table;
use crate::order;
use crate::names;
use crate::langs;
use crate::docs;
use crate::tree;
use crate::text;
use crate::kinds;
use crate::imports;
use crate::graph;
use crate::calls;
use crate::graph::ImportText;
use crate::imports::Import;
use crate::langs::{LangSpec, LangText};
use crate::tree::{NodeText, Source, SyntaxTree};

verus! {

/// The kinds of edges, the most telling first.
pub const EDGE_KINDS: [&'static str; 4] = ["inherits", "calls", "uses_type", "references"];

/// A declaration at the top level of a file.
pub struct Symbol {
    pub name: String,
    pub kind: String,
    pub signature: String,
    pub hash: String,
    pub refs: Vec<String>,
    pub edges: Vec<(String, String, String)>,
    /// 1-based first and last line of the declaration, decorators included:
    /// the range an agent reads instead of the file.
    pub span: (u32, u32),
    /// Parameter names, in order: what is in scope inside the body.
    pub params: Vec<String>,
    /// Every call this declaration makes to a top-level or imported name:
    /// (name as written, line, argument text). The exact answer to "what
    /// does this caller pass", with no model in the loop.
    pub sites: Vec<(String, u32, String)>,
    /// The declaration's own documentation (to 600 chars): the docstring in
    /// Python, the comment block directly above it elsewhere, so a convention
    /// an agent leaves in the code reaches the next agent.
    pub doc: String,
}

/// What a file says.
pub struct ParseOutput {
    pub status: &'static str,
    pub language: &'static str,
    /// in the order of declaration
    pub symbols: Vec<Symbol>,
    pub imports: Vec<Import>,
    /// The module's own documentation: Python's module docstring, or a
    /// file-top comment block separated from the first node by a blank line.
    pub doc: String,
}

/// What a symbol says.
pub struct SymbolFacts {
    pub name: Seq<char>,
    pub kind: Seq<char>,
    pub signature: Seq<char>,
    pub hash: Seq<char>,
    pub refs: Seq<Seq<char>>,
    pub edges: Seq<(Seq<char>, Seq<char>, Seq<char>)>,
    pub span: (nat, nat),
    pub params: Seq<Seq<char>>,
    pub sites: Seq<(Seq<char>, nat, Seq<char>)>,
    pub doc: Seq<char>,
}

/// What a parsed file says.
pub struct FileFacts {
    pub status: Seq<char>,
    pub language: Seq<char>,
    pub symbols: Seq<SymbolFacts>,
    pub imports: Seq<ImportText>,
    pub doc: Seq<char>,
}

impl View for Symbol {
    type V = SymbolFacts;

    open spec fn view(&self) -> SymbolFacts {
        SymbolFacts {
            name: self.name@,
            kind: self.kind@,
            signature: self.signature@,
            hash: self.hash@,
            refs: text::texts(self.refs@),
            edges: graph::triples(self.edges@),
            span: (self.span.0 as nat, self.span.1 as nat),
            params: text::texts(self.params@),
            sites: calls::site_texts(self.sites@),
            doc: self.doc@,
        }
    }
}

impl View for ParseOutput {
    type V = FileFacts;

    open spec fn view(&self) -> FileFacts {
        FileFacts {
            status: self.status@,
            language: self.language@,
            symbols: symbol_facts(self.symbols@),
            imports: imports::imports_text(self.imports@),
            doc: self.doc@,
        }
    }
}

/// What a list of symbols says.
pub open spec fn symbol_facts(v: Seq<Symbol>) -> Seq<SymbolFacts> {
    Seq::new(v.len(), |i: int| v[i]@)
}

// --------------------------------------------------------------- a digest

/// The SHA-256 digest of a text in UTF-8, in hexadecimal.
pub uninterp spec fn sha256_hex(text: Seq<char>) -> Seq<char>;

/// Is this a lower-case hexadecimal digit?
pub open spec fn is_hex(c: char) -> bool {
    ('0' <= c && c <= '9') || ('a' <= c && c <= 'f')
}

/// `sha2::Sha256::digest` of the text's bytes, written out two lower-case
/// hexadecimal digits to the byte. It depends on the text alone, and has
/// sixty-four digits.
#[verifier::external_body]
pub(crate) fn sha256(text: &str) -> (r: String)
    ensures
        r@ == sha256_hex(text@),
        r@.len() == 64,
        forall|i: int| 0 <= i < r@.len() ==> is_hex(#[trigger] r@[i]),
{
    format!("{:x}", <sha2::Sha256 as sha2::Digest>::digest(text.as_bytes()))
}

// ------------------------------------------------------------- extensions

/// The extension of a path in lower case, with its dot. A name that starts
/// with its only dot has none.
pub open spec fn extension(path: Seq<char>) -> Seq<char> {
    let base = match text::cut_last(path, '/') {
        Some((_, base)) => base,
        None => path,
    };
    match text::last_of(base, '.') {
        Some(at) => if at > 0 {
            text::lowercase(base.skip(at))
        } else {
            text::no_text()
        },
        None => text::no_text(),
    }
}

/// The extension of a path in lower case, with its dot.
pub fn extension_of(path: &str) -> (r: String)
    ensures
        r@ == extension(path@),
{
    let base = match text::rsplit_once(path, '/') {
        Some((_, base)) => base,
        None => path.to_string(),
    };
    let cs = text::chars(base.as_str());
    proof {
        text::lemma_last_below(base@, '.', base@.len() as int);
    }
    match text::last_char(&cs, '.', cs.len()) {
        Some(at) => if at > 0 {
            let ext = text::piece(&cs, at, cs.len());
            assert(ext@ =~= base@.skip(at as int));
            text::to_lowercase(ext.as_str())
        } else {
            String::new()
        },
        None => String::new(),
    }
}

// ----------------------------------------------------------------- damage

/// Does a node miss something, or hold something that does?
pub open spec fn misses(t: Seq<NodeText>, i: int) -> bool
    decreases t.len() - i, tree::kids(t, i).len() + 2,
{
    if i < 0 || i >= t.len() {
        false
    } else {
        t[i].missing || (t[i].error && damage_among(t, i, tree::kids(t, i).len()))
    }
}

/// Is one of the first `n` children of a node damaged?
pub open spec fn damage_among(t: Seq<NodeText>, i: int, n: nat) -> bool
    decreases t.len() - i, n + 1,
{
    if n == 0 || i < 0 || i >= t.len() || n > tree::kids(t, i).len() {
        false
    } else {
        proof {
            tree::lemma_kids(t, i);
        }
        let k = tree::kids(t, i)[n - 1];
        (i < k && (misses(t, k) || t[k].kind == "ERROR"@ || t[k].error)) || damage_among(
            t,
            i,
            (n - 1) as nat,
        )
    }
}

/// Does a node miss something, or hold something that does?
fn has_missing(t: &SyntaxTree, i: usize) -> (r: bool)
    requires
        i < t@.len(),
    ensures
        r == misses(t@, i as int),
    decreases t@.len() - i,
{
    if t.nodes[i].missing {
        return true;
    }
    if !t.nodes[i].error {
        return false;
    }
    let list = t.children(i);
    let ghost all = tree::kids(t@, i as int);
    let mut n: usize = list.len();
    while n > 0
        invariant
            n <= list.len(),
            i < t@.len(),
            tree::ints(list@) == all,
            all == tree::kids(t@, i as int),
            forall|a: int| 0 <= a < list@.len() ==> i < #[trigger] list@[a] < t@.len(),
            misses(t@, i as int) == damage_among(t@, i as int, n as nat),
        decreases n,
    {
        assert(all[n - 1] == list@[n - 1]);
        let k = list[n - 1];
        if has_missing(t, k) || text::same(t.nodes[k].kind, "ERROR") || t.nodes[k].error {
            return true;
        }
        n -= 1;
    }
    false
}

// ------------------------------------------------------------- the top level

/// Where what a container declares stands: in its body, or in itself.
pub open spec fn holder(t: Seq<NodeText>, i: int) -> int {
    match tree::either(tree::field(t, i, "body"@), tree::first_kid(t, i, |k: Seq<char>| kinds::inner_kind(k))) {
        Some(k) => k,
        None => i,
    }
}

/// The declarations that a node stands for: its own, or those that it
/// contains.
pub open spec fn tops_at(t: Seq<NodeText>, l: LangText, i: int) -> Seq<int>
    decreases t.len() - i, tree::named_kids(t, i).len() + 2,
{
    if i < 0 || i >= t.len() {
        Seq::empty()
    } else if text::listed(l.containers, t[i].kind) {
        let h = holder(t, i);
        if i <= h < t.len() {
            tops_among(t, l, h, tree::named_kids(t, h).len())
        } else {
            Seq::empty()
        }
    } else {
        seq![i]
    }
}

/// The declarations that the first `n` named children of a node stand for.
pub open spec fn tops_among(t: Seq<NodeText>, l: LangText, i: int, n: nat) -> Seq<int>
    decreases t.len() - i, n + 1,
{
    if n == 0 || i < 0 || i >= t.len() || n > tree::named_kids(t, i).len() {
        Seq::empty()
    } else {
        proof {
            tree::lemma_kids(t, i);
        }
        let k = tree::named_kids(t, i)[n - 1];
        if i < k {
            tops_among(t, l, i, (n - 1) as nat) + tops_at(t, l, k)
        } else {
            Seq::empty()
        }
    }
}

/// The nodes at the top level of a file, those in containers among them.
pub open spec fn tops(t: Seq<NodeText>, l: LangText) -> Seq<int> {
    tops_among(t, l, 0, tree::named_kids(t, 0).len())
}

/// The declarations that a node stands for.
fn tops_of(t: &SyntaxTree, spec: &LangSpec, i: usize) -> (r: Vec<usize>)
    requires
        i < t@.len(),
    ensures
        tree::ints(r@) == tops_at(t@, spec@, i as int),
        forall|a: int| 0 <= a < r@.len() ==> #[trigger] r@[a] < t@.len(),
    decreases t@.len() - i, 1nat,
{
    if spec.is_container(t.nodes[i].kind) {
        let body = match t.field(i, "body") {
            Some(k) => Some(k),
            None => t.first_kid(i, kinds::is_inner_kind, Ghost(|k: Seq<char>| kinds::inner_kind(k))),
        };
        match body {
            Some(k) => tops_in(t, spec, k),
            None => tops_in(t, spec, i),
        }
    } else {
        let mut v: Vec<usize> = Vec::new();
        v.push(i);
        assert(tree::ints(v@) =~= seq![i as int]);
        v
    }
}

/// The declarations that the named children of a node stand for.
fn tops_in(t: &SyntaxTree, spec: &LangSpec, i: usize) -> (r: Vec<usize>)
    requires
        i < t@.len(),
    ensures
        tree::ints(r@) == tops_among(t@, spec@, i as int, tree::named_kids(t@, i as int).len()),
        forall|a: int| 0 <= a < r@.len() ==> #[trigger] r@[a] < t@.len(),
    decreases t@.len() - i, 0nat,
{
    let list = t.named_children(i);
    let ghost all = tree::named_kids(t@, i as int);
    let mut out: Vec<usize> = Vec::new();
    let mut k: usize = 0;
    assert(tree::ints(out@) =~= Seq::<int>::empty());
    while k < list.len()
        invariant
            k <= list.len(),
            i < t@.len(),
            tree::ints(list@) == all,
            all == tree::named_kids(t@, i as int),
            forall|a: int| 0 <= a < list@.len() ==> i < #[trigger] list@[a] < t@.len(),
            forall|a: int| 0 <= a < out@.len() ==> #[trigger] out@[a] < t@.len(),
            tree::ints(out@) == tops_among(t@, spec@, i as int, k as nat),
        decreases list.len() - k,
    {
        assert(all[k as int] == list@[k as int]);
        let mut more = tops_of(t, spec, list[k]);
        let ghost before = out@;
        let ghost added = more@;
        out.append(&mut more);
        assert(tree::ints(out@) =~= tree::ints(before) + tree::ints(added));
        k += 1;
    }
    out
}

/// The nodes at the top level of a file, those in containers among them.
pub fn top_level(t: &SyntaxTree, spec: &LangSpec) -> (r: Vec<usize>)
    requires
        t@.len() > 0,
    ensures
        tree::ints(r@) == tops(t@, spec@),
        forall|a: int| 0 <= a < r@.len() ==> #[trigger] r@[a] < t@.len(),
{
    tops_in(t, spec, 0)
}

// -------------------------------------------------------------- parameters

/// The first node from place `j` on, before `end`, that is an identifier.
pub open spec fn identifier_from(t: Seq<NodeText>, j: int, end: int) -> Option<int>
    decreases end - j,
{
    if j >= end {
        None
    } else if text::has_suffix(t[j].kind, "identifier"@) {
        Some(j)
    } else {
        identifier_from(t, j + 1, end)
    }
}

/// The first identifier below a node.
fn first_identifier(t: &SyntaxTree, i: usize) -> (r: Option<usize>)
    requires
        i < t@.len(),
    ensures
        tree::opt_int(r) == identifier_from(t@, i + 1, tree::after(t@, i as int)),
        r is Some ==> r->0 < t@.len(),
{
    let end = t.after(i);
    let mut j: usize = i + 1;
    while j < end
        invariant
            i < j <= end <= t@.len(),
            end == tree::after(t@, i as int),
            identifier_from(t@, i + 1, end as int) == identifier_from(t@, j as int, end as int),
        decreases end - j,
    {
        if text::ends_with(t.nodes[j].kind, "identifier") {
            return Some(j);
        }
        j += 1;
    }
    None
}

/// The name of one parameter, where the node is one.
pub open spec fn param_name(t: Seq<NodeText>, s: Seq<char>, i: int) -> Option<Seq<char>> {
    let k = t[i].kind;
    let at = tree::either(
        tree::field(t, i, "name"@),
        tree::either(tree::field(t, i, "pattern"@), identifier_from(t, i + 1, tree::after(t, i))),
    );
    if text::has_suffix(k, "identifier"@) {
        Some(tree::node_text(s, t[i]))
    } else if at is Some && tree::node_text(s, t[at->0]).len() > 0 && k != "comment"@ && k
        != "type_parameters"@ {
        Some(tree::node_text(s, t[at->0]))
    } else {
        None
    }
}

/// The names of the parameters among the first `n` nodes.
pub open spec fn params_upto(t: Seq<NodeText>, s: Seq<char>, list: Seq<int>, n: nat) -> Seq<
    Seq<char>,
>
    decreases n,
{
    if n == 0 {
        Seq::empty()
    } else {
        let rest = params_upto(t, s, list, (n - 1) as nat);
        match param_name(t, s, list[n - 1]) {
            Some(name) => rest.push(name),
            None => rest,
        }
    }
}

/// The names of a declaration's parameters, in order.
pub open spec fn params(t: Seq<NodeText>, s: Seq<char>, i: int) -> Seq<Seq<char>> {
    match tree::field(t, i, "parameters"@) {
        Some(p) => params_upto(t, s, tree::named_kids(t, p), tree::named_kids(t, p).len()),
        None => Seq::empty(),
    }
}

/// The name of one parameter, where the node is one.
fn param_of(t: &SyntaxTree, src: &Source, i: usize) -> (r: Option<String>)
    requires
        i < t@.len(),
        src.valid(),
    ensures
        text::opt_text(r) == param_name(t@, src@, i as int),
{
    let kind = t.nodes[i].kind;
    if text::ends_with(kind, "identifier") {
        return Some(t.text(i, src));
    }
    let at = match t.field(i, "name") {
        Some(k) => Some(k),
        None => match t.field(i, "pattern") {
            Some(k) => Some(k),
            None => first_identifier(t, i),
        },
    };
    match at {
        Some(at) => {
            let name = t.text(at, src);
            if text::chars(name.as_str()).len() > 0 && !text::same(kind, "comment") && !text::same(
                kind,
                "type_parameters",
            ) {
                Some(name)
            } else {
                None
            }
        },
        None => None,
    }
}

/// The names of a declaration's parameters, in order.
pub fn params_of(t: &SyntaxTree, src: &Source, i: usize) -> (r: Vec<String>)
    requires
        i < t@.len(),
        src.valid(),
    ensures
        text::texts(r@) == params(t@, src@, i as int),
{
    let mut out: Vec<String> = Vec::new();
    assert(text::texts(out@) =~= Seq::<Seq<char>>::empty());
    match t.field(i, "parameters") {
        None => out,
        Some(p) => {
            let list = t.named_children(p);
            let ghost all = tree::named_kids(t@, p as int);
            let mut k: usize = 0;
            while k < list.len()
                invariant
                    k <= list.len(),
                    src.valid(),
                    tree::ints(list@) == all,
                    forall|a: int| 0 <= a < list@.len() ==> p < #[trigger] list@[a] < t@.len(),
                    text::texts(out@) == params_upto(t@, src@, all, k as nat),
                decreases list.len() - k,
            {
                assert(all[k as int] == list@[k as int]);
                match param_of(t, src, list[k]) {
                    Some(name) => {
                        proof {
                            text::lemma_texts_push(out@, name);
                        }
                        out.push(name);
                    },
                    None => {},
                }
                k += 1;
            }
            assert(all.len() == list@.len());
            out
        },
    }
}

// ------------------------------------------------------------ declarations

/// The last position below `n` at which `p` occurs in `s`.
pub open spec fn last_at(s: Seq<char>, p: Seq<char>, n: int) -> Option<int>
    decreases n,
{
    if n <= 0 {
        None
    } else if text::occurs_at(s, p, n - 1) {
        Some(n - 1)
    } else {
        last_at(s, p, n - 1)
    }
}

/// What stands behind the last `::`, and behind the last dot of that.
pub open spec fn bare_name(name: Seq<char>) -> Seq<char> {
    let inner = match last_at(name, "::"@, name.len() as int) {
        Some(at) => name.skip(at + 2),
        None => name,
    };
    match text::cut_last(inner, '.') {
        Some((_, last)) => last,
        None => inner,
    }
}

/// What stands behind the last `::`, and behind the last dot of that.
fn bare(name: &str) -> (r: String)
    ensures
        r@ == bare_name(name@),
{
    let cs = text::chars(name);
    let mut inner = name.to_string();
    let mut n: usize = cs.len();
    let mut going = true;
    proof {
        reveal_strlit("::");
    }
    while going && n > 0
        invariant
            n <= cs@.len(),
            cs@ == name@,
            "::"@.len() == 2,
            "::"@[0] == ':',
            "::"@[1] == ':',
            going ==> inner@ == name@ && last_at(name@, "::"@, name@.len() as int) == last_at(
                name@,
                "::"@,
                n as int,
            ),
            !going ==> last_at(name@, "::"@, name@.len() as int) is Some && inner@ == name@.skip(
                last_at(name@, "::"@, name@.len() as int)->0 + 2,
            ),
        decreases n, (if going { 1int } else { 0int }),
    {
        let hit = n < cs.len() && cs[n - 1] == ':' && cs[n] == ':';
        proof {
            if n < cs@.len() {
                assert(name@.subrange(n - 1, n + 1) =~= seq![name@[n - 1], name@[n as int]]);
                assert("::"@ =~= seq![':', ':']);
                if text::occurs_at(name@, "::"@, n - 1) {
                    assert(name@.subrange(n - 1, n + 1)[0] == ':');
                    assert(name@.subrange(n - 1, n + 1)[1] == ':');
                }
            }
            assert(hit == text::occurs_at(name@, "::"@, n - 1));
        }
        if hit {
            inner = text::piece(&cs, n + 1, cs.len());
            assert(inner@ =~= name@.skip(n + 1));
            going = false;
        } else {
            n -= 1;
        }
    }
    match text::rsplit_once(inner.as_str(), '.') {
        Some((_, last)) => last,
        None => inner,
    }
}

/// The declaration that a node makes: its name and its kind.
pub open spec fn declaration(t: Seq<NodeText>, s: Seq<char>, l: LangText, i: int) -> Option<
    (Seq<char>, Seq<char>),
> {
    match (names::declared_kind(t, i, l), names::declaration_name(t, s, i, l.names)) {
        (Some(kind), Some(name)) => if !text::listed(l.import_types, t[i].kind) && name.len() > 0 {
            Some((name, kind))
        } else {
            None
        },
        _ => None,
    }
}

/// The declarations that the first `n` nodes make: (name, node, kind).
pub open spec fn declarations(
    t: Seq<NodeText>,
    s: Seq<char>,
    l: LangText,
    list: Seq<int>,
    n: nat,
) -> Seq<(Seq<char>, int, Seq<char>)>
    decreases n,
{
    if n == 0 {
        Seq::empty()
    } else {
        let rest = declarations(t, s, l, list, (n - 1) as nat);
        match declaration(t, s, l, list[n - 1]) {
            Some((name, kind)) => rest.push((name, list[n - 1], kind)),
            None => rest,
        }
    }
}

/// The declarations of a file.
pub open spec fn file_declarations(t: Seq<NodeText>, s: Seq<char>, l: LangText) -> Seq<
    (Seq<char>, int, Seq<char>),
> {
    declarations(t, s, l, tops(t, l), tops(t, l).len())
}

/// The names of the declarations.
pub open spec fn declared_names(decls: Seq<(Seq<char>, int, Seq<char>)>) -> Seq<Seq<char>> {
    Seq::new(decls.len(), |i: int| decls[i].0)
}

/// The local names among the first `n` pairs.
pub open spec fn locals_upto(names: Seq<(Seq<char>, Seq<char>)>, n: nat) -> Seq<Seq<char>>
    decreases n,
{
    if n == 0 {
        Seq::empty()
    } else {
        let rest = locals_upto(names, (n - 1) as nat);
        if names[n - 1].0 != "*"@ {
            rest.push(names[n - 1].0)
        } else {
            rest
        }
    }
}

/// The local names that the first `n` imports bring in.
pub open spec fn imported_upto(imports: Seq<ImportText>, n: nat) -> Seq<Seq<char>>
    decreases n,
{
    if n == 0 {
        Seq::empty()
    } else {
        imported_upto(imports, (n - 1) as nat) + locals_upto(
            imports[n - 1].names,
            imports[n - 1].names.len(),
        )
    }
}

/// The names that an edge of a file can lead to: what the file declares, and
/// what it brings in.
pub struct Reach {
    pub declared: Seq<Seq<char>>,
    pub imported: Seq<Seq<char>>,
}

/// Can an edge lead to the name?
pub open spec fn reaches(r: Reach, name: Seq<char>) -> bool {
    text::listed(r.declared, name) || text::listed(r.imported, name)
}

/// The notes, among the first `n`, whose target an edge can lead to.
pub open spec fn edges_upto(
    notes: Seq<(Seq<char>, Seq<char>, Seq<char>)>,
    r: Reach,
    n: nat,
) -> Seq<(Seq<char>, Seq<char>, Seq<char>)>
    decreases n,
{
    if n == 0 {
        Seq::empty()
    } else {
        let rest = edges_upto(notes, r, (n - 1) as nat);
        if reaches(r, notes[n - 1].0) {
            rest.push(notes[n - 1])
        } else {
            rest
        }
    }
}

/// The targets of the edges.
pub open spec fn targets(edges: Seq<(Seq<char>, Seq<char>, Seq<char>)>) -> Seq<Seq<char>> {
    Seq::new(edges.len(), |i: int| edges[i].0)
}

/// Does a call site come before another?
pub open spec fn site_before(
    a: (Seq<char>, nat, Seq<char>),
    b: (Seq<char>, nat, Seq<char>),
) -> bool {
    text::before(a.0, b.0) || (a.0 == b.0 && (a.1 < b.1 || (a.1 == b.1 && text::before(a.2, b.2))))
}

/// The first place from `i` on whose call site does not come before `x`.
pub open spec fn site_seat(
    v: Seq<(Seq<char>, nat, Seq<char>)>,
    x: (Seq<char>, nat, Seq<char>),
    i: int,
) -> int
    decreases v.len() - i,
{
    if i >= v.len() {
        v.len() as int
    } else if site_before(v[i], x) {
        site_seat(v, x, i + 1)
    } else {
        i
    }
}

/// The call sites with one more, at its place in the order, each once.
pub open spec fn with_site(v: Seq<(Seq<char>, nat, Seq<char>)>, x: (Seq<char>, nat, Seq<char>)) -> Seq<
    (Seq<char>, nat, Seq<char>),
> {
    let p = site_seat(v, x, 0);
    if p < v.len() && v[p] == x {
        v
    } else {
        v.insert(p, x)
    }
}

/// The call sites, among the first `n`, that lead to something known; in
/// order, each once.
pub open spec fn known_sites(
    sites: Seq<(Seq<char>, nat, Seq<char>)>,
    r: Reach,
    n: nat,
) -> Seq<(Seq<char>, nat, Seq<char>)>
    decreases n,
{
    if n == 0 {
        Seq::empty()
    } else {
        let rest = known_sites(sites, r, (n - 1) as nat);
        if reaches(r, sites[n - 1].0) {
            with_site(rest, sites[n - 1])
        } else {
            rest
        }
    }
}

/// The symbol of a declaration.
pub open spec fn symbol(
    t: Seq<NodeText>,
    s: Seq<char>,
    l: LangText,
    r: Reach,
    d: (Seq<char>, int, Seq<char>),
) -> SymbolFacts {
    let i = d.1;
    let c = calls::scope_of(t, i, bare_name(d.0), l.heritage_field);
    let notes = calls::notes_upto(t, s, c, tree::after(t, i));
    let raw = calls::sites_upto(t, s, c, tree::after(t, i));
    let edges = edges_upto(notes, r, notes.len());
    SymbolFacts {
        name: d.0,
        kind: d.2,
        signature: names::signature(t, s, i, l),
        hash: sha256_hex(tree::node_text(s, t[i])),
        refs: order::text_set(targets(edges), edges.len()),
        edges,
        span: (calls::line_number(t[i].start_row), calls::line_number(docs::last_row(t[i]))),
        params: params(t, s, names::unwrapped(t, i, l.names)),
        sites: known_sites(raw, r, raw.len()),
        doc: docs::declaration_doc(t, s, i, l),
    }
}

/// The symbols with one more; of two with the same name the later stands, in
/// the place of the earlier.
pub open spec fn with_symbol(v: Seq<SymbolFacts>, x: SymbolFacts, k: nat) -> Seq<SymbolFacts>
    decreases v.len() - k,
{
    if k >= v.len() {
        v.push(x)
    } else if v[k as int].name == x.name {
        v.update(k as int, x)
    } else {
        with_symbol(v, x, k + 1)
    }
}

/// The symbols of the first `n` declarations.
pub open spec fn symbols_upto(
    t: Seq<NodeText>,
    s: Seq<char>,
    l: LangText,
    r: Reach,
    decls: Seq<(Seq<char>, int, Seq<char>)>,
    n: nat,
) -> Seq<SymbolFacts>
    decreases n,
{
    if n == 0 {
        Seq::empty()
    } else {
        with_symbol(
            symbols_upto(t, s, l, r, decls, (n - 1) as nat),
            symbol(t, s, l, r, decls[n - 1]),
            0,
        )
    }
}

/// The names that an edge of a file can lead to.
pub open spec fn file_reach(t: Seq<NodeText>, s: Seq<char>, l: LangText) -> Reach {
    let imports = imports::file_imports(t, s, l);
    Reach {
        declared: declared_names(file_declarations(t, s, l)),
        imported: imported_upto(imports, imports.len()),
    }
}

/// What a file says, given its tree: nothing beyond its language where the
/// tree is damaged.
pub open spec fn outline(t: Seq<NodeText>, s: Seq<char>, l: LangText) -> FileFacts {
    if t[0].error || misses(t, 0) {
        FileFacts {
            status: "partial"@,
            language: l.name,
            symbols: Seq::empty(),
            imports: Seq::empty(),
            doc: text::no_text(),
        }
    } else {
        let decls = file_declarations(t, s, l);
        FileFacts {
            status: "clean"@,
            language: l.name,
            symbols: symbols_upto(t, s, l, file_reach(t, s, l), decls, decls.len()),
            imports: imports::file_imports(t, s, l),
            doc: docs::file_doc(t, s, l),
        }
    }
}

/// Does every symbol have a name of its own?
pub open spec fn distinct_names(v: Seq<SymbolFacts>) -> bool {
    forall|i: int, j: int| 0 <= i < j < v.len() ==> (#[trigger] v[i]).name != (#[trigger] v[j]).name
}

/// One more symbol keeps the names apart.
proof fn lemma_with_symbol(v: Seq<SymbolFacts>, x: SymbolFacts, k: nat)
    requires
        distinct_names(v),
        k <= v.len(),
        forall|i: int| 0 <= i < k ==> (#[trigger] v[i]).name != x.name,
    ensures
        distinct_names(with_symbol(v, x, k)),
    decreases v.len() - k,
{
    if k < v.len() && v[k as int].name != x.name {
        lemma_with_symbol(v, x, k + 1);
    }
}

/// The symbols of declarations have names of their own.
proof fn lemma_symbols_upto(
    t: Seq<NodeText>,
    s: Seq<char>,
    l: LangText,
    r: Reach,
    decls: Seq<(Seq<char>, int, Seq<char>)>,
    n: nat,
)
    ensures
        distinct_names(symbols_upto(t, s, l, r, decls, n)),
    decreases n,
{
    if n > 0 {
        lemma_symbols_upto(t, s, l, r, decls, (n - 1) as nat);
        lemma_with_symbol(
            symbols_upto(t, s, l, r, decls, (n - 1) as nat),
            symbol(t, s, l, r, decls[n - 1]),
            0,
        );
    }
}

/// A file declares each of its symbols once: a duplicate declaration stands in
/// the place of the earlier one.
pub proof fn law_each_symbol_once(t: Seq<NodeText>, s: Seq<char>, l: LangText)
    ensures
        distinct_names(outline(t, s, l).symbols),
{
    let decls = file_declarations(t, s, l);
    lemma_symbols_upto(t, s, l, file_reach(t, s, l), decls, decls.len());
}

/// What a file says: nothing where no language takes it, or the parser makes
/// no tree of it.
pub open spec fn parsed(path: Seq<char>, content: Seq<char>) -> Option<FileFacts> {
    match langs::lang_of_ext(extension(path)) {
        None => None,
        Some(l) => match tree::syntax_of(langs::grammar_slot(l.name)->0, content) {
            None => None,
            Some(t) => Some(outline(t, content, l)),
        },
    }
}

// ------------------------------------------------------------------- doing

/// Can an edge lead to the name?
fn is_reached(declared: &Vec<String>, imported: &Vec<String>, name: &str) -> (r: bool)
    ensures
        r == reaches(
            (Reach { declared: text::texts(declared@), imported: text::texts(imported@) }),
            name@,
        ),
{
    text::is_listed(declared, name) || text::is_listed(imported, name)
}

/// The declarations of a file.
fn declarations_of(t: &SyntaxTree, src: &Source, spec: &LangSpec) -> (r: Vec<
    (String, usize, &'static str),
>)
    requires
        t@.len() > 0,
        src.valid(),
    ensures
        decl_texts(r@) == file_declarations(t@, src@, spec@),
        forall|a: int| 0 <= a < r@.len() ==> (#[trigger] r@[a]).1 < t@.len(),
{
    let list = top_level(t, spec);
    let ghost all = tops(t@, spec@);
    let mut out: Vec<(String, usize, &'static str)> = Vec::new();
    let mut k: usize = 0;
    assert(decl_texts(out@) =~= Seq::<(Seq<char>, int, Seq<char>)>::empty());
    while k < list.len()
        invariant
            k <= list.len(),
            src.valid(),
            tree::ints(list@) == all,
            forall|a: int| 0 <= a < list@.len() ==> #[trigger] list@[a] < t@.len(),
            forall|a: int| 0 <= a < out@.len() ==> (#[trigger] out@[a]).1 < t@.len(),
            decl_texts(out@) == declarations(t@, src@, spec@, all, k as nat),
        decreases list.len() - k,
    {
        assert(all[k as int] == list@[k as int]);
        let i = list[k];
        if !spec.is_import(t.nodes[i].kind) {
            match (names::kind_of(t, i, spec), names::name_of(t, src, i, spec)) {
                (Some(kind), Some(name)) => {
                    if text::chars(name.as_str()).len() > 0 {
                        let ghost before = decl_texts(out@);
                        let ghost x = (name@, i as int, kind@);
                        out.push((name, i, kind));
                        assert(decl_texts(out@) =~= before.push(x));
                    }
                },
                _ => {},
            }
        }
        k += 1;
    }
    assert(all.len() == list@.len());
    out
}

/// The texts of a list of declarations.
pub open spec fn decl_texts(v: Seq<(String, usize, &'static str)>) -> Seq<
    (Seq<char>, int, Seq<char>),
> {
    Seq::new(v.len(), |i: int| (v[i].0@, v[i].1 as int, v[i].2@))
}

/// The local names that the imports bring in.
fn imported_names(imports: &Vec<Import>) -> (r: Vec<String>)
    ensures
        text::texts(r@) == imported_upto(imports::imports_text(imports@), imports@.len()),
{
    let ghost all = imports::imports_text(imports@);
    let mut out: Vec<String> = Vec::new();
    let mut k: usize = 0;
    assert(text::texts(out@) =~= Seq::<Seq<char>>::empty());
    while k < imports.len()
        invariant
            k <= imports.len(),
            all == imports::imports_text(imports@),
            text::texts(out@) == imported_upto(all, k as nat),
        decreases imports.len() - k,
    {
        assert(all[k as int] == imports@[k as int]@);
        let pairs = &imports[k].names;
        let ghost these = text::text_pairs(pairs@);
        let ghost done = text::texts(out@);
        assert(these == all[k as int].names);
        let mut j: usize = 0;
        assert(done + Seq::<Seq<char>>::empty() =~= done);
        while j < pairs.len()
            invariant
                j <= pairs.len(),
                these == text::text_pairs(pairs@),
                text::texts(out@) == done + locals_upto(these, j as nat),
            decreases pairs.len() - j,
        {
            assert(these[j as int] == (pairs@[j as int].0@, pairs@[j as int].1@));
            if !text::same(pairs[j].0.as_str(), "*") {
                let name = pairs[j].0.clone();
                proof {
                    text::lemma_texts_push(out@, name);
                    assert((done + locals_upto(these, j as nat)).push(name@) =~= done
                        + locals_upto(these, j as nat).push(name@));
                }
                out.push(name);
            }
            j += 1;
        }
        k += 1;
    }
    out
}

/// The edges that lead to something known.
fn known_edges(
    notes: Vec<(String, String, String)>,
    declared: &Vec<String>,
    imported: &Vec<String>,
) -> (r: Vec<(String, String, String)>)
    ensures
        graph::triples(r@) == edges_upto(
            graph::triples(notes@),
            (Reach { declared: text::texts(declared@), imported: text::texts(imported@) }),
            notes@.len(),
        ),
{
    let ghost reach = Reach { declared: text::texts(declared@), imported: text::texts(imported@) };
    let ghost all = graph::triples(notes@);
    let mut out: Vec<(String, String, String)> = Vec::new();
    let mut k: usize = 0;
    assert(graph::triples(out@) =~= Seq::<(Seq<char>, Seq<char>, Seq<char>)>::empty());
    while k < notes.len()
        invariant
            k <= notes.len(),
            all == graph::triples(notes@),
            reach == (Reach { declared: text::texts(declared@), imported: text::texts(imported@) }),
            graph::triples(out@) == edges_upto(all, reach, k as nat),
        decreases notes.len() - k,
    {
        assert(all[k as int] == (
            notes@[k as int].0@,
            notes@[k as int].1@,
            notes@[k as int].2@,
        ));
        if is_reached(declared, imported, notes[k].0.as_str()) {
            let ghost before = graph::triples(out@);
            out.push((notes[k].0.clone(), notes[k].1.clone(), notes[k].2.clone()));
            assert(graph::triples(out@) =~= before.push(all[k as int]));
        }
        k += 1;
    }
    out
}

/// The targets of the edges, in order, each once.
fn refs_of(edges: &Vec<(String, String, String)>) -> (r: Vec<String>)
    ensures
        text::texts(r@) == order::text_set(targets(graph::triples(edges@)), edges@.len()),
{
    let ghost all = targets(graph::triples(edges@));
    let mut out: Vec<String> = Vec::new();
    let mut k: usize = 0;
    assert(text::texts(out@) =~= Seq::<Seq<char>>::empty());
    while k < edges.len()
        invariant
            k <= edges.len(),
            all == targets(graph::triples(edges@)),
            text::texts(out@) == order::text_set(all, k as nat),
            table::ordered(text::texts(out@)),
        decreases edges.len() - k,
    {
        assert(all[k as int] == edges@[k as int].0@);
        let _ = order::add_text(&mut out, edges[k].0.clone());
        k += 1;
    }
    out
}

/// Adds a call site at its place in the order, unless it is there.
fn add_site(v: &mut Vec<(String, u32, String)>, x: (String, u32, String))
    ensures
        calls::site_texts(final(v)@) == with_site(calls::site_texts(old(v)@), (x.0@, x.1 as nat, x.2@)),
{
    let ghost done = calls::site_texts(v@);
    let ghost said = (x.0@, x.1 as nat, x.2@);
    let mut p: usize = 0;
    while p < v.len() && (text::comes_before(v[p].0.as_str(), x.0.as_str()) || (text::same(
        v[p].0.as_str(),
        x.0.as_str(),
    ) && (v[p].1 < x.1 || (v[p].1 == x.1 && text::comes_before(v[p].2.as_str(), x.2.as_str())))))
        invariant
            p <= v.len(),
            done == calls::site_texts(v@),
            said == (x.0@, x.1 as nat, x.2@),
            site_seat(done, said, 0) == site_seat(done, said, p as int),
        decreases v.len() - p,
    {
        assert(done[p as int] == (v@[p as int].0@, v@[p as int].1 as nat, v@[p as int].2@));
        p += 1;
    }
    assert(p < v.len() ==> done[p as int] == (
        v@[p as int].0@,
        v@[p as int].1 as nat,
        v@[p as int].2@,
    ));
    assert(done.len() == v@.len());
    if p < v.len() && text::same(v[p].0.as_str(), x.0.as_str()) && v[p].1 == x.1 && text::same(
        v[p].2.as_str(),
        x.2.as_str(),
    ) {
        return;
    }
    v.insert(p, x);
    assert(calls::site_texts(v@) =~= done.insert(p as int, said));
}

/// The call sites that lead to something known; in order, each once.
fn sites_of(
    raw: Vec<(String, u32, String)>,
    declared: &Vec<String>,
    imported: &Vec<String>,
) -> (r: Vec<(String, u32, String)>)
    ensures
        calls::site_texts(r@) == known_sites(
            calls::site_texts(raw@),
            (Reach { declared: text::texts(declared@), imported: text::texts(imported@) }),
            raw@.len(),
        ),
{
    let ghost reach = Reach { declared: text::texts(declared@), imported: text::texts(imported@) };
    let ghost all = calls::site_texts(raw@);
    let mut out: Vec<(String, u32, String)> = Vec::new();
    let mut k: usize = 0;
    assert(calls::site_texts(out@) =~= Seq::<(Seq<char>, nat, Seq<char>)>::empty());
    while k < raw.len()
        invariant
            k <= raw.len(),
            all == calls::site_texts(raw@),
            reach == (Reach { declared: text::texts(declared@), imported: text::texts(imported@) }),
            calls::site_texts(out@) == known_sites(all, reach, k as nat),
        decreases raw.len() - k,
    {
        assert(all[k as int] == (
            raw@[k as int].0@,
            raw@[k as int].1 as nat,
            raw@[k as int].2@,
        ));
        if is_reached(declared, imported, raw[k].0.as_str()) {
            add_site(&mut out, (raw[k].0.clone(), raw[k].1, raw[k].2.clone()));
        }
        k += 1;
    }
    out
}

/// The symbol of a declaration.
fn symbol_of(
    t: &SyntaxTree,
    src: &Source,
    spec: &LangSpec,
    declared: &Vec<String>,
    imported: &Vec<String>,
    name: &String,
    i: usize,
    kind: &'static str,
) -> (r: Symbol)
    requires
        i < t@.len(),
        src.valid(),
    ensures
        r@ == symbol(
            t@,
            src@,
            spec@,
            (Reach { declared: text::texts(declared@), imported: text::texts(imported@) }),
            (name@, i as int, kind@),
        ),
{
    let own = bare(name.as_str());
    let (notes, raw) = calls::edges_in(t, src, i, spec, own.as_str());
    let edges = known_edges(notes, declared, imported);
    let refs = refs_of(&edges);
    let sites = sites_of(raw, declared, imported);
    let text = t.text(i, src);
    let inner = names::unwrap(t, i, spec);
    Symbol {
        name: name.clone(),
        kind: kind.to_string(),
        signature: names::signature_of(t, src, i, spec),
        hash: sha256(text.as_str()),
        refs,
        edges,
        span: (t.nodes[i].start_row.wrapping_add(1), docs::end_row(t, i).wrapping_add(1)),
        params: params_of(t, src, inner),
        sites,
        doc: docs::doc_of(t, src, i, spec),
    }
}

/// Adds a symbol; of two with the same name the later stands, in the place of
/// the earlier.
fn add_symbol(v: &mut Vec<Symbol>, x: Symbol)
    ensures
        symbol_facts(final(v)@) == with_symbol(symbol_facts(old(v)@), x@, 0),
{
    let ghost done = symbol_facts(v@);
    let mut k: usize = 0;
    while k < v.len() && !text::same(v[k].name.as_str(), x.name.as_str())
        invariant
            k <= v.len(),
            done == symbol_facts(v@),
            with_symbol(done, x@, 0) == with_symbol(done, x@, k as nat),
        decreases v.len() - k,
    {
        assert(done[k as int] == v@[k as int]@);
        k += 1;
    }
    assert(k < v.len() ==> done[k as int] == v@[k as int]@);
    let ghost said = x@;
    if k < v.len() {
        v.set(k, x);
        assert(symbol_facts(v@) =~= done.update(k as int, said));
    } else {
        v.push(x);
        assert(symbol_facts(v@) =~= done.push(said));
    }
}

/// What a file says, given its tree and its source.
pub fn outline_of(t: &SyntaxTree, content: &str, spec: &LangSpec) -> (r: ParseOutput)
    requires
        t@.len() > 0,
    ensures
        r@ == outline(t@, content@, spec@),
{
    if t.nodes[0].error || has_missing(t, 0) {
        let symbols: Vec<Symbol> = Vec::new();
        let imports: Vec<Import> = Vec::new();
        assert(symbol_facts(symbols@) =~= Seq::<SymbolFacts>::empty());
        assert(imports::imports_text(imports@) =~= Seq::<ImportText>::empty());
        return ParseOutput {
            status: "partial",
            language: spec.name,
            symbols,
            imports,
            doc: String::new(),
        };
    }
    let src = Source::new(content);
    let imports = imports::imports_of(t, &src, spec);
    let imported = imported_names(&imports);
    let decls = declarations_of(t, &src, spec);
    let ghost all = file_declarations(t@, src@, spec@);
    let ghost reach = file_reach(t@, src@, spec@);
    let mut declared: Vec<String> = Vec::new();
    let mut k: usize = 0;
    while k < decls.len()
        invariant
            k <= decls.len(),
            decl_texts(decls@) == all,
            text::texts(declared@) =~= declared_names(all).take(k as int),
        decreases decls.len() - k,
    {
        assert(all[k as int] == (
            decls@[k as int].0@,
            decls@[k as int].1 as int,
            decls@[k as int].2@,
        ));
        let name = decls[k].0.clone();
        proof {
            text::lemma_texts_push(declared@, name);
        }
        declared.push(name);
        k += 1;
    }
    assert(all.len() == decls@.len());
    assert(text::texts(declared@) =~= declared_names(all));
    assert(imports::imports_text(imports@).len() == imports@.len());
    assert(reach == (Reach { declared: text::texts(declared@), imported: text::texts(imported@) }));
    let mut symbols: Vec<Symbol> = Vec::new();
    let mut k: usize = 0;
    assert(symbol_facts(symbols@) =~= Seq::<SymbolFacts>::empty());
    while k < decls.len()
        invariant
            k <= decls.len(),
            src.valid(),
            decl_texts(decls@) == all,
            forall|a: int| 0 <= a < decls@.len() ==> (#[trigger] decls@[a]).1 < t@.len(),
            reach == (Reach { declared: text::texts(declared@), imported: text::texts(imported@) }),
            symbol_facts(symbols@) == symbols_upto(t@, src@, spec@, reach, all, k as nat),
        decreases decls.len() - k,
    {
        assert(all[k as int] == (
            decls@[k as int].0@,
            decls@[k as int].1 as int,
            decls@[k as int].2@,
        ));
        let x = symbol_of(
            t,
            &src,
            spec,
            &declared,
            &imported,
            &decls[k].0,
            decls[k].1,
            decls[k].2,
        );
        add_symbol(&mut symbols, x);
        k += 1;
    }
    ParseOutput {
        status: "clean",
        language: spec.name,
        symbols,
        imports,
        doc: docs::module_doc_of(t, &src, spec),
    }
}

/// The text of what a parse says, where it says something.
pub open spec fn opt_facts(o: Option<ParseOutput>) -> Option<FileFacts> {
    match o {
        Some(x) => Some(x@),
        None => None,
    }
}

/// What a file says.
pub fn parse(path: &str, content: &str) -> (r: Option<ParseOutput>)
    ensures
        opt_facts(r) == parsed(path@, content@),
{
    let ext = extension_of(path);
    match langs::spec_for_ext(ext.as_str()) {
        None => None,
        Some(spec) => {
            proof {
                langs::lemma_lang_of_ext(ext@);
            }
            match tree::syntax(langs::language_of(spec.name), content) {
                None => None,
                Some(tree) => Some(outline_of(&tree, content, &spec)),
            }
        },
    }
}

} // verus!

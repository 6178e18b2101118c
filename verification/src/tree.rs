//! Syntax trees as plain lists of nodes.
//!
//! A tree holds its nodes in the order in which a walk from the root meets
//! them, each with its depth: what lies below a node is the run of deeper
//! nodes behind it. The parser's own trees are read into such a list once,
//! and everything after that works on the list.
use vstd::prelude::*;
use crate::text;
use tree_sitter::{Range, Tree};

verus! {

/// One node of a syntax tree.
pub struct Node {
    pub kind: &'static str,
    pub named: bool,
    /// stands for something that the source lacks
    pub missing: bool,
    /// holds an error, or is one
    pub error: bool,
    pub depth: u32,
    /// first byte, and the byte behind the last
    pub start: usize,
    pub end: usize,
    pub start_row: u32,
    pub end_row: u32,
    pub end_column: usize,
    /// (name of a field, place of the node that it holds)
    pub fields: Vec<(&'static str, usize)>,
}

/// A tree, as the list of its nodes.
pub struct SyntaxTree {
    pub nodes: Vec<Node>,
}

/// What a node says.
pub struct NodeText {
    pub kind: Seq<char>,
    pub named: bool,
    pub missing: bool,
    pub error: bool,
    pub depth: int,
    pub start: nat,
    pub end: nat,
    pub start_row: nat,
    pub end_row: nat,
    pub end_column: nat,
    pub fields: Seq<(Seq<char>, int)>,
}

/// The names and places of a node's fields.
pub open spec fn field_texts(v: Seq<(&'static str, usize)>) -> Seq<(Seq<char>, int)> {
    Seq::new(v.len(), |i: int| (v[i].0@, v[i].1 as int))
}

impl View for Node {
    type V = NodeText;

    open spec fn view(&self) -> NodeText {
        NodeText {
            kind: self.kind@,
            named: self.named,
            missing: self.missing,
            error: self.error,
            depth: self.depth as int,
            start: self.start as nat,
            end: self.end as nat,
            start_row: self.start_row as nat,
            end_row: self.end_row as nat,
            end_column: self.end_column as nat,
            fields: field_texts(self.fields@),
        }
    }
}

impl View for SyntaxTree {
    type V = Seq<NodeText>;

    open spec fn view(&self) -> Seq<NodeText> {
        node_texts(self.nodes@)
    }
}

/// What a list of nodes says.
pub open spec fn node_texts(v: Seq<Node>) -> Seq<NodeText> {
    Seq::new(v.len(), |i: int| v[i]@)
}

// ----------------------------------------------------------- the parser

/// `tree_sitter::Tree`: a tree that a parser made. What is inside it is known
/// only by `tree_nodes`.
#[verifier::external_type_specification]
#[verifier::external_body]
pub struct ExTree(Tree);

/// What the nodes of a parser's tree say: the root first, each node before the
/// nodes below it, and those in the order of the source.
pub uninterp spec fn tree_nodes(tree: Tree) -> Seq<NodeText>;

/// The nodes of the tree that the parser makes of a source with the grammar
/// of a language, where it makes one.
pub uninterp spec fn syntax_of(grammar: int, source: Seq<char>) -> Option<Seq<NodeText>>;

/// `tree_sitter::Parser::parse`, without an older tree, by a parser on which
/// `set_language` set the grammar at the place of the language in the table
/// of languages. What tree comes out, and that one does, depends on grammar
/// and source alone.
#[verifier::external_body]
fn parse_text(grammar: usize, source: &str) -> (r: Option<Tree>)
    requires
        grammar < 12,
    ensures
        match r {
            Some(tree) => syntax_of(grammar as int, source@) == Some(tree_nodes(tree)),
            None => syntax_of(grammar as int, source@) is None,
        },
{
    let (ts, tsx) = (tree_sitter_typescript::LANGUAGE_TYPESCRIPT, tree_sitter_typescript::LANGUAGE_TSX);
    let (python, javascript) = (tree_sitter_python::LANGUAGE, tree_sitter_javascript::LANGUAGE);
    let (go, rust, java) = (tree_sitter_go::LANGUAGE, tree_sitter_rust::LANGUAGE, tree_sitter_java::LANGUAGE);
    let (sharp, ruby, c) = (tree_sitter_c_sharp::LANGUAGE, tree_sitter_ruby::LANGUAGE, tree_sitter_c::LANGUAGE);
    let (cpp, php) = (tree_sitter_cpp::LANGUAGE, tree_sitter_php::LANGUAGE_PHP);
    let grammars = [python, ts, tsx, javascript, go, rust, java, sharp, ruby, c, cpp, php];
    let mut parser = tree_sitter::Parser::new();
    parser.set_language(&grammars[grammar].into()).ok()?;
    parser.parse(source, None)
}

/// What the nodes of a tree say, their fields aside: the places that
/// `goto_descendant` takes a `tree_sitter::TreeCursor` to, from the root on,
/// and for each what `tree_sitter::Node` and the cursor's `depth` tell. The
/// root counts as its own first descendant, so there is at least that one
/// node. The nodes come without fields.
#[verifier::external_body]
fn shapes_of(tree: &Tree) -> (r: Vec<Node>)
    ensures
        r@.len() == tree_nodes(*tree).len(),
        r@.len() > 0,
        forall|i: int|
            0 <= i < r@.len() ==> #[trigger] without_fields(r@[i]@) == without_fields(
                tree_nodes(*tree)[i],
            ),
{
    let (mut out, mut cursor) = (Vec::new(), tree.walk());
    for i in 0..tree.root_node().descendant_count() {
        cursor.goto_descendant(i);
        let (n, depth) = (cursor.node(), cursor.depth());
        let (kind, named, missing, error) = (n.kind(), n.is_named(), n.is_missing(), n.has_error());
        let Range { start_byte: start, end_byte: end, start_point: from, end_point: to } = n.range();
        let (start_row, end_row, end_column) = (from.row as u32, to.row as u32, to.column);
        let fields = vec![];
        out.push(Node { kind, named, missing, error, depth, start, end, start_row, end_row, end_column, fields });
    }
    out
}

/// A node's own id, and for each field of the grammar its name and the id of
/// the node that it holds.
pub struct Link {
    pub id: usize,
    pub held: Vec<(Option<&'static str>, Option<usize>)>,
}

/// The first place from `k` on of a node with the id.
pub open spec fn id_place(v: Seq<Link>, id: usize, k: nat) -> Option<int>
    decreases v.len() - k,
{
    if k >= v.len() {
        None
    } else if v[k as int].id == id {
        Some(k as int)
    } else {
        id_place(v, id, k + 1)
    }
}

/// The names and places of what the first `n` fields of the node at place `i`
/// hold: the nodes from there on with the ids that the fields have.
pub open spec fn fields_upto(v: Seq<Link>, i: int, n: nat) -> Seq<(Seq<char>, int)>
    decreases n,
{
    if n == 0 {
        Seq::empty()
    } else {
        let rest = fields_upto(v, i, (n - 1) as nat);
        match v[i].held@[n - 1] {
            (Some(name), Some(id)) => match id_place(v, id, i as nat) {
                Some(at) => rest.push((name@, at)),
                None => rest,
            },
            _ => rest,
        }
    }
}

/// The ids of the nodes of a tree, and of what their fields hold: from the root
/// on, at each place that `goto_descendant` takes a `tree_sitter::TreeCursor`
/// to, `tree_sitter::Node::id`, and for every field of the grammar its name and
/// the id of `child_by_field_id`. Within a tree no two nodes have one id, and a
/// node comes before the nodes below it, so the ids tell where the nodes stand
/// that the fields hold.
#[verifier::external_body]
fn links_of(tree: &Tree) -> (r: Vec<Link>)
    ensures
        r@.len() == tree_nodes(*tree).len(),
        forall|i: int|
            0 <= i < r@.len() ==> fields_upto(r@, i, (#[trigger] r@[i]).held@.len()) == tree_nodes(
                *tree,
            )[i].fields,
{
    let (mut out, mut cursor, grammar) = (Vec::new(), tree.walk(), tree.language());
    for i in 0..tree.root_node().descendant_count() {
        cursor.goto_descendant(i);
        let n = cursor.node();
        let child = |f| n.child_by_field_id(f).map(|c| c.id());
        let held = (1..=grammar.field_count() as u16).map(|f| (grammar.field_name_for_id(f), child(f)));
        out.push(Link { id: n.id(), held: held.collect() });
    }
    out
}

/// The first place from `k` on of a node with the id.
fn find_id(v: &Vec<Link>, id: usize, k: usize) -> (r: Option<usize>)
    ensures
        opt_int(r) == id_place(v@, id, k as nat),
{
    let mut j: usize = k;
    while j < v.len()
        invariant
            k <= j,
            id_place(v@, id, k as nat) == id_place(v@, id, j as nat),
        decreases v.len() - j,
    {
        if v[j].id == id {
            return Some(j);
        }
        j += 1;
    }
    None
}

/// The names and places of what the fields of a node hold.
fn fields_at(v: &Vec<Link>, i: usize) -> (r: Vec<(&'static str, usize)>)
    requires
        i < v@.len(),
    ensures
        field_texts(r@) == fields_upto(v@, i as int, v@[i as int].held@.len()),
{
    let mut out: Vec<(&'static str, usize)> = Vec::new();
    let mut k: usize = 0;
    assert(field_texts(out@) =~= Seq::<(Seq<char>, int)>::empty());
    while k < v[i].held.len()
        invariant
            i < v@.len(),
            k <= v@[i as int].held@.len(),
            field_texts(out@) == fields_upto(v@, i as int, k as nat),
        decreases v@[i as int].held@.len() - k,
    {
        match v[i].held[k] {
            (Some(name), Some(id)) => match find_id(v, id, i) {
                Some(at) => {
                    let ghost before = field_texts(out@);
                    out.push((name, at));
                    assert(field_texts(out@) =~= before.push((name@, at as int)));
                },
                None => {},
            },
            _ => {},
        }
        k += 1;
    }
    out
}

/// What a node says, its fields aside.
pub open spec fn without_fields(n: NodeText) -> NodeText {
    NodeText { fields: Seq::empty(), ..n }
}

/// The tree that the grammar makes of the source, where it makes one.
pub fn syntax(grammar: usize, source: &str) -> (r: Option<SyntaxTree>)
    requires
        grammar < 12,
    ensures
        match r {
            Some(tree) => syntax_of(grammar as int, source@) == Some(tree@) && tree@.len() > 0,
            None => syntax_of(grammar as int, source@) is None,
        },
{
    match parse_text(grammar, source) {
        None => None,
        Some(tree) => {
            let mut nodes = shapes_of(&tree);
            let links = links_of(&tree);
            let ghost shapes = nodes@;
            let ghost all = tree_nodes(tree);
            let mut i: usize = 0;
            while i < nodes.len()
                invariant
                    i <= nodes.len(),
                    nodes@.len() == shapes.len() == all.len() == links@.len(),
                    forall|j: int| i <= j < nodes@.len() ==> nodes@[j] == #[trigger] shapes[j],
                    forall|j: int| 0 <= j < i ==> (#[trigger] nodes@[j])@ == all[j],
                    forall|j: int|
                        0 <= j < shapes.len() ==> #[trigger] without_fields(shapes[j]@)
                            == without_fields(all[j]),
                    forall|j: int|
                        0 <= j < links@.len() ==> fields_upto(
                            links@,
                            j,
                            (#[trigger] links@[j]).held@.len(),
                        ) == all[j].fields,
                decreases nodes.len() - i,
            {
                let f = fields_at(&links, i);
                assert(field_texts(f@) == all[i as int].fields);
                assert(without_fields(shapes[i as int]@) == without_fields(all[i as int]));
                nodes[i].fields = f;
                assert(nodes@[i as int]@ == all[i as int]);
                i += 1;
            }
            assert(node_texts(nodes@) =~= all);
            Some(SyntaxTree { nodes })
        },
    }
}

// ------------------------------------------------------------ the source

/// A source, with the character at each of its bytes.
pub struct Source {
    pub chars: Vec<char>,
    pub places: Vec<Option<usize>>,
}

/// The place of a character, as a number without a bound.
pub open spec fn place_text(o: Option<usize>) -> Option<nat> {
    match o {
        Some(p) => Some(p as nat),
        None => None,
    }
}

impl View for Source {
    type V = Seq<char>;

    open spec fn view(&self) -> Seq<char> {
        self.chars@
    }
}

impl Source {
    /// Every byte of the source has its place.
    pub open spec fn valid(&self) -> bool {
        &&& self.places@.len() == text::byte_len(self@) + 1
        &&& forall|b: int|
            0 <= b < self.places@.len() ==> place_text(#[trigger] self.places@[b]) == text::char_pos(
                self@,
                b as nat,
            )
    }

    /// Reads a source.
    pub fn new(text: &str) -> (r: Source)
        ensures
            r.valid(),
            r@ == text@,
    {
        let cs = text::chars(text);
        let places = places_of(&cs);
        Source { chars: cs, places }
    }

    /// The place of the character that starts at a byte; the byte behind the
    /// last character has the place behind the last.
    pub fn place(&self, at: usize) -> (r: Option<usize>)
        requires
            self.valid(),
        ensures
            place_text(r) == text::char_pos(self@, at as nat),
            r is Some ==> r->0 <= self@.len(),
    {
        proof {
            if text::char_pos(self@, at as nat) is Some {
                text::lemma_char_pos(self@, at as nat, 0);
            }
        }
        if at < self.places.len() {
            assert(place_text(self.places@[at as int]) == text::char_pos(self@, at as nat));
            self.places[at]
        } else {
            proof {
                if text::char_pos(self@, at as nat) is Some {
                    text::lemma_bytes_grow(self@, text::char_pos(self@, at as nat)->0, self@.len());
                }
            }
            None
        }
    }

    /// The text between two bytes.
    pub fn slice(&self, from: usize, to: usize) -> (r: String)
        requires
            self.valid(),
        ensures
            r@ == text_between(self@, from as nat, to as nat),
    {
        match (self.place(from), self.place(to)) {
            (Some(a), Some(b)) => {
                if a <= b {
                    text::piece(&self.chars, a, b)
                } else {
                    String::new()
                }
            },
            _ => String::new(),
        }
    }
}

/// The text between two bytes. Where one of them is not the first of a
/// character, or they are out of order, there is none.
pub open spec fn text_between(s: Seq<char>, from: nat, to: nat) -> Seq<char> {
    match (text::char_pos(s, from), text::char_pos(s, to)) {
        (Some(a), Some(b)) => if a <= b {
            s.subrange(a as int, b as int)
        } else {
            text::no_text()
        },
        _ => text::no_text(),
    }
}

/// The text of a node.
pub open spec fn node_text(s: Seq<char>, n: NodeText) -> Seq<char> {
    text_between(s, n.start, n.end)
}

// -------------------------------------------------------- the nodes below

/// The first place from `j` on whose node is no deeper than `d`.
pub open spec fn end_from(t: Seq<NodeText>, d: int, j: int) -> int
    decreases t.len() - j,
{
    if j >= t.len() {
        t.len() as int
    } else if t[j].depth <= d {
        j
    } else {
        end_from(t, d, j + 1)
    }
}

/// The place behind what lies below a node.
pub open spec fn after(t: Seq<NodeText>, i: int) -> int {
    end_from(t, t[i].depth, i + 1)
}

/// Is `j` a child of `i`, if it lies below it?
pub open spec fn is_kid(t: Seq<NodeText>, i: int, j: int, named: bool) -> bool {
    t[j].depth == t[i].depth + 1 && (named ==> t[j].named)
}

/// The children of `i` before place `n`.
pub open spec fn kids_upto(t: Seq<NodeText>, i: int, named: bool, n: int) -> Seq<int>
    decreases n,
{
    if n <= 0 || n <= i + 1 {
        Seq::empty()
    } else {
        let rest = kids_upto(t, i, named, n - 1);
        if is_kid(t, i, n - 1, named) {
            rest.push(n - 1)
        } else {
            rest
        }
    }
}

/// The children of a node, in order.
pub open spec fn kids(t: Seq<NodeText>, i: int) -> Seq<int> {
    kids_upto(t, i, false, after(t, i))
}

/// The named children of a node, in order.
pub open spec fn named_kids(t: Seq<NodeText>, i: int) -> Seq<int> {
    kids_upto(t, i, true, after(t, i))
}

/// What lies below a node ends behind it, within the tree.
pub proof fn lemma_after(t: Seq<NodeText>, d: int, j: int)
    requires
        0 <= j <= t.len(),
    ensures
        j <= end_from(t, d, j) <= t.len(),
        forall|k: int| j <= k < end_from(t, d, j) ==> (#[trigger] t[k]).depth > d,
    decreases t.len() - j,
{
    if j < t.len() && t[j].depth > d {
        lemma_after(t, d, j + 1);
    }
}

/// Children lie behind their parent, each behind the one before it.
pub proof fn lemma_kids_upto(t: Seq<NodeText>, i: int, named: bool, n: int)
    requires
        0 <= i,
    ensures
        forall|a: int|
            0 <= a < kids_upto(t, i, named, n).len() ==> i < #[trigger] kids_upto(
                t,
                i,
                named,
                n,
            )[a] < n && is_kid(t, i, kids_upto(t, i, named, n)[a], named),
        forall|a: int, b: int|
            0 <= a < b < kids_upto(t, i, named, n).len() ==> #[trigger] kids_upto(
                t,
                i,
                named,
                n,
            )[a] < #[trigger] kids_upto(t, i, named, n)[b],
        kids_upto(t, i, named, n).len() <= n || n < 0,
    decreases n,
{
    if n > 0 && n > i + 1 {
        lemma_kids_upto(t, i, named, n - 1);
    }
}

/// Children lie behind their parent, within the tree.
pub proof fn lemma_kids(t: Seq<NodeText>, i: int)
    requires
        0 <= i < t.len(),
    ensures
        i < after(t, i) <= t.len(),
        forall|a: int| 0 <= a < kids(t, i).len() ==> i < #[trigger] kids(t, i)[a] < after(t, i),
        forall|a: int|
            0 <= a < named_kids(t, i).len() ==> i < #[trigger] named_kids(t, i)[a] < after(t, i),
{
    lemma_after(t, t[i].depth, i + 1);
    lemma_kids_upto(t, i, false, after(t, i));
    lemma_kids_upto(t, i, true, after(t, i));
}

/// Places, as numbers without a bound.
pub open spec fn ints(v: Seq<usize>) -> Seq<int> {
    Seq::new(v.len(), |i: int| v[i] as int)
}

/// An optional place, as a number without a bound.
pub open spec fn opt_int(o: Option<usize>) -> Option<int> {
    match o {
        Some(i) => Some(i as int),
        None => None,
    }
}

/// What the field of a list that has the name holds, from entry `k` on.
pub open spec fn held_from(fields: Seq<(Seq<char>, int)>, name: Seq<char>, k: nat) -> Option<int>
    decreases fields.len() - k,
{
    if k >= fields.len() {
        None
    } else if fields[k as int].0 == name {
        Some(fields[k as int].1)
    } else {
        held_from(fields, name, k + 1)
    }
}

/// The node that a field of a node holds. It lies further on in the tree.
pub open spec fn field(t: Seq<NodeText>, i: int, name: Seq<char>) -> Option<int> {
    match held_from(t[i].fields, name, 0) {
        Some(k) => if i < k < t.len() {
            Some(k)
        } else {
            None
        },
        None => None,
    }
}

/// The first of the nodes from the `k`th on whose kind is wanted.
pub open spec fn first_from(
    t: Seq<NodeText>,
    list: Seq<int>,
    want: spec_fn(Seq<char>) -> bool,
    k: nat,
) -> Option<int>
    decreases list.len() - k,
{
    if k >= list.len() {
        None
    } else if want(t[list[k as int]].kind) {
        Some(list[k as int])
    } else {
        first_from(t, list, want, k + 1)
    }
}

/// The first named child whose kind is wanted.
pub open spec fn first_kid(t: Seq<NodeText>, i: int, want: spec_fn(Seq<char>) -> bool) -> Option<
    int,
> {
    first_from(t, named_kids(t, i), want, 0)
}

/// A node found among others is one of them.
pub proof fn lemma_first_from(
    t: Seq<NodeText>,
    list: Seq<int>,
    want: spec_fn(Seq<char>) -> bool,
    k: nat,
)
    ensures
        first_from(t, list, want, k) is Some ==> exists|a: int|
            k <= a < list.len() && #[trigger] list[a] == first_from(t, list, want, k)->0 && want(
                t[list[a]].kind,
            ),
    decreases list.len() - k,
{
    if k < list.len() && !want(t[list[k as int]].kind) {
        lemma_first_from(t, list, want, k + 1);
    }
}

/// A child found by its kind lies below its parent.
pub proof fn lemma_first_kid(t: Seq<NodeText>, i: int, want: spec_fn(Seq<char>) -> bool)
    requires
        0 <= i < t.len(),
    ensures
        first_kid(t, i, want) is Some ==> i < first_kid(t, i, want)->0 < after(t, i) <= t.len(),
{
    lemma_first_from(t, named_kids(t, i), want, 0);
    lemma_kids(t, i);
}

/// Either of two nodes, the first where there is one.
pub open spec fn either(a: Option<int>, b: Option<int>) -> Option<int> {
    if a is Some {
        a
    } else {
        b
    }
}

/// The node of depth `d` nearest before place `j` on, under the same parent.
pub open spec fn sibling_below(t: Seq<NodeText>, d: int, j: int) -> Option<int>
    decreases j,
{
    if j <= 0 || t[j - 1].depth < d {
        None
    } else if t[j - 1].depth == d {
        Some(j - 1)
    } else {
        sibling_below(t, d, j - 1)
    }
}

/// The sibling before a node.
pub open spec fn prev_sibling(t: Seq<NodeText>, i: int) -> Option<int> {
    sibling_below(t, t[i].depth, i)
}

/// The text of an optional node; none has no text.
pub open spec fn text_or_none(s: Seq<char>, t: Seq<NodeText>, o: Option<int>) -> Seq<char> {
    match o {
        Some(i) => node_text(s, t[i]),
        None => text::no_text(),
    }
}

/// The text of an optional node, where there is one.
pub open spec fn opt_node_text(s: Seq<char>, t: Seq<NodeText>, o: Option<int>) -> Option<
    Seq<char>,
> {
    match o {
        Some(i) => Some(node_text(s, t[i])),
        None => None,
    }
}

/// The places of the characters, byte by byte.
fn places_of(cs: &Vec<char>) -> (r: Vec<Option<usize>>)
    ensures
        r@.len() == text::byte_len(cs@) + 1,
        forall|b: int|
            0 <= b < r@.len() ==> place_text(#[trigger] r@[b]) == text::char_pos(cs@, b as nat),
{
    let mut out: Vec<Option<usize>> = Vec::new();
    let mut i: usize = 0;
    while i < cs.len()
        invariant
            i <= cs.len(),
            out@.len() == text::bytes_upto(cs@, i as nat),
            forall|b: int|
                0 <= b < out@.len() ==> place_text(#[trigger] out@[b]) == text::char_pos(cs@, b as nat),
        decreases cs.len() - i,
    {
        proof {
            text::lemma_char_pos_at(cs@, i as nat, 0);
        }
        let ghost done = out@;
        out.push(Some(i));
        let w = text::width_of(cs[i]);
        let mut k: u128 = 1;
        while k < w
            invariant
                1 <= k <= w,
                i < cs.len(),
                w == text::width(cs@[i as int]),
                done.len() == text::bytes_upto(cs@, i as nat),
                out@.len() == done.len() + k,
                forall|b: int|
                    0 <= b < out@.len() ==> place_text(#[trigger] out@[b]) == text::char_pos(
                        cs@,
                        b as nat,
                    ),
            decreases w - k,
        {
            proof {
                lemma_char_pos_inside(cs@, i as nat, (done.len() + k) as nat);
            }
            out.push(None);
            k += 1;
        }
        i += 1;
    }
    proof {
        text::lemma_char_pos_at(cs@, cs@.len(), 0);
    }
    out.push(Some(cs.len()));
    out
}

/// A byte inside a character starts none.
proof fn lemma_char_pos_inside(s: Seq<char>, p: nat, at: nat)
    requires
        p < s.len(),
        text::bytes_upto(s, p) < at < text::bytes_upto(s, p) + text::width(s[p as int]),
    ensures
        text::char_pos(s, at) is None,
{
    if text::char_pos(s, at) is Some {
        text::lemma_char_pos(s, at, 0);
        let q = text::char_pos(s, at)->0;
        if q <= p {
            text::lemma_bytes_grow(s, q, p);
        } else {
            text::lemma_bytes_grow(s, p + 1, q);
        }
    }
}

impl SyntaxTree {
    /// The place behind what lies below a node.
    pub fn after(&self, i: usize) -> (r: usize)
        requires
            i < self@.len(),
        ensures
            r == after(self@, i as int),
            i < r <= self@.len(),
    {
        assert(self@.len() == self.nodes.len());
        let depth = self.nodes[i].depth;
        let mut j: usize = i + 1;
        while j < self.nodes.len() && self.nodes[j].depth > depth
            invariant
                i < j <= self.nodes.len(),
                depth == self@[i as int].depth,
                after(self@, i as int) == end_from(self@, depth as int, j as int),
            decreases self.nodes.len() - j,
        {
            j += 1;
        }
        j
    }

    /// The children of a node before place `n`, all or the named ones.
    fn some_kids(&self, i: usize, named: bool) -> (r: Vec<usize>)
        requires
            i < self@.len(),
        ensures
            ints(r@) == kids_upto(self@, i as int, named, after(self@, i as int)),
    {
        let end = self.after(i);
        let mut out: Vec<usize> = Vec::new();
        let mut j: usize = i + 1;
        while j < end
            invariant
                i < j <= end <= self@.len(),
                ints(out@) == kids_upto(self@, i as int, named, j as int),
            decreases end - j,
        {
            let ghost before = out@;
            if self.nodes[j].depth as u64 == self.nodes[i].depth as u64 + 1 && (!named
                || self.nodes[j].named) {
                out.push(j);
                assert(ints(out@) =~= ints(before).push(j as int));
            }
            j += 1;
        }
        out
    }

    /// The children of a node, in order.
    pub fn children(&self, i: usize) -> (r: Vec<usize>)
        requires
            i < self@.len(),
        ensures
            ints(r@) == kids(self@, i as int),
            forall|a: int| 0 <= a < r@.len() ==> i < #[trigger] r@[a] < self@.len(),
    {
        proof {
            lemma_kids(self@, i as int);
        }
        let r = self.some_kids(i, false);
        assert forall|a: int| 0 <= a < r@.len() implies i < #[trigger] r@[a] < self@.len() by {
            assert(r@[a] == kids(self@, i as int)[a]);
        }
        r
    }

    /// The named children of a node, in order.
    pub fn named_children(&self, i: usize) -> (r: Vec<usize>)
        requires
            i < self@.len(),
        ensures
            ints(r@) == named_kids(self@, i as int),
            forall|a: int| 0 <= a < r@.len() ==> i < #[trigger] r@[a] < self@.len(),
    {
        proof {
            lemma_kids(self@, i as int);
        }
        let r = self.some_kids(i, true);
        assert forall|a: int| 0 <= a < r@.len() implies i < #[trigger] r@[a] < self@.len() by {
            assert(r@[a] == named_kids(self@, i as int)[a]);
        }
        r
    }

    /// The node that a field of a node holds.
    pub fn field(&self, i: usize, name: &str) -> (r: Option<usize>)
        requires
            i < self@.len(),
        ensures
            opt_int(r) == field(self@, i as int, name@),
            r is Some ==> i < r->0 < self@.len(),
    {
        let fields = &self.nodes[i].fields;
        let ghost all = self@[i as int].fields;
        assert(all == field_texts(fields@));
        let mut k: usize = 0;
        while k < fields.len()
            invariant
                k <= fields.len(),
                all == field_texts(fields@),
                all == self@[i as int].fields,
                held_from(all, name@, 0) == held_from(all, name@, k as nat),
            decreases fields.len() - k,
        {
            assert(all[k as int] == (fields@[k as int].0@, fields@[k as int].1 as int));
            if text::same(fields[k].0, name) {
                let at: usize = fields[k].1;
                return if i < at && at < self.nodes.len() {
                    Some(at)
                } else {
                    None
                };
            }
            k += 1;
        }
        None
    }

    /// The first named child whose kind is wanted.
    pub(crate) fn first_kid<F: Fn(&str) -> bool>(
        &self,
        i: usize,
        f: F,
        Ghost(want): Ghost<spec_fn(Seq<char>) -> bool>,
    ) -> (r: Option<usize>)
        requires
            i < self@.len(),
            forall|k: &str| #[trigger] call_requires(f, (k,)),
            forall|k: &str, b: bool| #[trigger] call_ensures(f, (k,), b) ==> b == want(k@),
        ensures
            opt_int(r) == first_kid(self@, i as int, want),
            r is Some ==> i < r->0 < self@.len(),
    {
        let list = self.named_children(i);
        proof {
            lemma_first_kid(self@, i as int, want);
        }
        let ghost all = named_kids(self@, i as int);
        let mut k: usize = 0;
        while k < list.len()
            invariant
                k <= list.len(),
                i < self@.len(),
                ints(list@) == all,
                all == named_kids(self@, i as int),
                forall|a: int| 0 <= a < list@.len() ==> i < #[trigger] list@[a] < self@.len(),
                forall|k: &str| #[trigger] call_requires(f, (k,)),
                forall|k: &str, b: bool| #[trigger] call_ensures(f, (k,), b) ==> b == want(k@),
                first_kid(self@, i as int, want) == first_from(self@, all, want, k as nat),
            decreases list.len() - k,
        {
            assert(all[k as int] == list@[k as int]);
            if f(self.nodes[list[k]].kind) {
                return Some(list[k]);
            }
            k += 1;
        }
        None
    }

    /// The sibling before a node.
    pub fn prev_sibling(&self, i: usize) -> (r: Option<usize>)
        requires
            i < self@.len(),
        ensures
            opt_int(r) == prev_sibling(self@, i as int),
            r is Some ==> r->0 < i,
    {
        let depth = self.nodes[i].depth;
        let mut j: usize = i;
        while j > 0 && self.nodes[j - 1].depth > depth
            invariant
                j <= i < self@.len(),
                depth == self@[i as int].depth,
                prev_sibling(self@, i as int) == sibling_below(self@, depth as int, j as int),
            decreases j,
        {
            j -= 1;
        }
        if j > 0 && self.nodes[j - 1].depth == depth {
            Some(j - 1)
        } else {
            None
        }
    }

    /// The text of a node.
    pub fn text(&self, i: usize, src: &Source) -> (r: String)
        requires
            i < self@.len(),
            src.valid(),
        ensures
            r@ == node_text(src@, self@[i as int]),
    {
        src.slice(self.nodes[i].start, self.nodes[i].end)
    }

    /// The text of an optional node; none has no text.
    pub fn text_of(&self, o: Option<usize>, src: &Source) -> (r: String)
        requires
            o is Some ==> o->0 < self@.len(),
            src.valid(),
        ensures
            r@ == text_or_none(src@, self@, opt_int(o)),
    {
        match o {
            Some(i) => self.text(i, src),
            None => String::new(),
        }
    }
}

} // verus!

//! Typed edit ops: what an agent asks for, read from JSON and told in JSON.
use vstd::prelude::*;
use crate::text;
use crate::table;
use crate::json;
use crate::json::{Doc, Json};

verus! {

/// A typed edit.
#[derive(Debug, Clone, PartialEq)]
pub enum Op {
    Rename { symbol: String, new_name: String },
    AddParam {
        path: String,
        symbol: String,
        name: String,
        type_: Option<String>,
        default: Option<String>,
        /// The expression every call site passes; absent means call sites
        /// are left alone and listed, for the model to decide one by one.
        call_arg: Option<String>,
    },
    RemoveParam { path: String, symbol: String, name: String },
    /// Append one expression to every call of `symbol`, under the given path
    /// prefixes only, when callers in different layers need different
    /// expressions (`payload["region"]` in handlers, `settings.REGION` in
    /// jobs). The definition is not touched: that is `add_param`'s job.
    /// `optional`: a recipe replayed against a target whose callers lack this
    /// layer changes nothing here instead of refusing the batch.
    PassArg { path: String, symbol: String, arg: String, within: Vec<String>, optional: bool },
    /// Replace a function's body with the given text; the signature, its
    /// docstring position and the surrounding indentation are the parser's to
    /// keep. The op an agent emits instead of reading a file to edit it.
    ReplaceBody { path: String, symbol: String, body: String },
}

/// What an op says.
pub enum OpText {
    Rename { symbol: Seq<char>, new_name: Seq<char> },
    AddParam {
        path: Seq<char>,
        symbol: Seq<char>,
        name: Seq<char>,
        type_: Option<Seq<char>>,
        default: Option<Seq<char>>,
        call_arg: Option<Seq<char>>,
    },
    RemoveParam { path: Seq<char>, symbol: Seq<char>, name: Seq<char> },
    PassArg {
        path: Seq<char>,
        symbol: Seq<char>,
        arg: Seq<char>,
        within: Seq<Seq<char>>,
        optional: bool,
    },
    ReplaceBody { path: Seq<char>, symbol: Seq<char>, body: Seq<char> },
}

impl View for Op {
    type V = OpText;

    open spec fn view(&self) -> OpText {
        match *self {
            Op::Rename { symbol, new_name } => OpText::Rename {
                symbol: symbol@,
                new_name: new_name@,
            },
            Op::AddParam { path, symbol, name, type_, default, call_arg } => OpText::AddParam {
                path: path@,
                symbol: symbol@,
                name: name@,
                type_: text::opt_text(type_),
                default: text::opt_text(default),
                call_arg: text::opt_text(call_arg),
            },
            Op::RemoveParam { path, symbol, name } => OpText::RemoveParam {
                path: path@,
                symbol: symbol@,
                name: name@,
            },
            Op::PassArg { path, symbol, arg, within, optional } => OpText::PassArg {
                path: path@,
                symbol: symbol@,
                arg: arg@,
                within: text::texts(within@),
                optional,
            },
            Op::ReplaceBody { path, symbol, body } => OpText::ReplaceBody {
                path: path@,
                symbol: symbol@,
                body: body@,
            },
        }
    }
}

/// What a list of ops says.
pub open spec fn op_texts(v: Seq<Op>) -> Seq<OpText> {
    Seq::new(v.len(), |i: int| v[i]@)
}

/// The name of an op's kind.
pub open spec fn op_kind(op: OpText) -> Seq<char> {
    match op {
        OpText::Rename { .. } => "rename"@,
        OpText::AddParam { .. } => "add_param"@,
        OpText::RemoveParam { .. } => "remove_param"@,
        OpText::PassArg { .. } => "pass_arg"@,
        OpText::ReplaceBody { .. } => "replace_body"@,
    }
}

/// The file that an op is declared against, where it is, and the symbol that
/// it is about.
pub open spec fn op_target(op: OpText) -> (Option<Seq<char>>, Seq<char>) {
    match op {
        OpText::Rename { symbol, .. } => (None, symbol),
        OpText::AddParam { path, symbol, .. } => (Some(path), symbol),
        OpText::RemoveParam { path, symbol, .. } => (Some(path), symbol),
        OpText::PassArg { path, symbol, .. } => (Some(path), symbol),
        OpText::ReplaceBody { path, symbol, .. } => (Some(path), symbol),
    }
}

/// The text of an optional literal or borrowed text.
pub open spec fn opt_view(o: Option<&str>) -> Option<Seq<char>> {
    match o {
        Some(s) => Some(s@),
        None => None,
    }
}

/// An object with one more member, where there is a text for it.
pub open spec fn with_words(
    v: Seq<(Seq<char>, Doc)>,
    key: Seq<char>,
    words: Option<Seq<char>>,
) -> Seq<(Seq<char>, Doc)> {
    match words {
        Some(s) => table::put(v, key, Doc::Text(s)),
        None => v,
    }
}

/// An op in the shape that declaring an intent takes.
pub open spec fn operation(op: OpText) -> Doc {
    match op {
        OpText::Rename { symbol, new_name } => json::object_doc(
            seq![
                ("op"@, Doc::Text("rename"@)),
                ("symbol"@, Doc::Text(symbol)),
                ("new_name"@, Doc::Text(new_name)),
            ],
        ),
        OpText::AddParam { symbol, name, type_, default, .. } => Doc::Object(
            with_words(
                with_words(
                    json::object_upto(
                        seq![
                            ("op"@, Doc::Text("add_param"@)),
                            ("symbol"@, Doc::Text(symbol)),
                            ("name"@, Doc::Text(name)),
                        ],
                        3,
                    ),
                    "type"@,
                    type_,
                ),
                "default"@,
                default,
            ),
        ),
        OpText::RemoveParam { symbol, name, .. } => json::object_doc(
            seq![
                ("op"@, Doc::Text("remove_param"@)),
                ("symbol"@, Doc::Text(symbol)),
                ("name"@, Doc::Text(name)),
            ],
        ),
        OpText::PassArg { symbol, .. } => json::object_doc(
            seq![("op"@, Doc::Text("modify"@)), ("symbol"@, Doc::Text(symbol))],
        ),
        OpText::ReplaceBody { symbol, .. } => json::object_doc(
            seq![("op"@, Doc::Text("modify"@)), ("symbol"@, Doc::Text(symbol))],
        ),
    }
}

impl Op {
    /// The name of the op's kind.
    pub fn kind(&self) -> (r: &'static str)
        ensures
            r@ == op_kind(self@),
    {
        match self {
            Op::Rename { .. } => "rename",
            Op::AddParam { .. } => "add_param",
            Op::RemoveParam { .. } => "remove_param",
            Op::PassArg { .. } => "pass_arg",
            Op::ReplaceBody { .. } => "replace_body",
        }
    }

    /// The symbol the op is about and the file it is declared against, for
    /// the intent that announces a batch before it lands.
    pub fn target(&self) -> (r: (Option<&str>, &str))
        ensures
            (opt_view(r.0), r.1@) == op_target(self@),
    {
        match self {
            Op::Rename { symbol, .. } => (None, symbol.as_str()),
            Op::AddParam { path, symbol, .. } => (Some(path.as_str()), symbol.as_str()),
            Op::RemoveParam { path, symbol, .. } => (Some(path.as_str()), symbol.as_str()),
            Op::PassArg { path, symbol, .. } => (Some(path.as_str()), symbol.as_str()),
            Op::ReplaceBody { path, symbol, .. } => (Some(path.as_str()), symbol.as_str()),
        }
    }

    /// The op in the shape that declaring an intent takes.
    pub fn as_operation(&self) -> (r: Json)
        ensures
            r@ == operation(self@),
    {
        match self {
            Op::Rename { symbol, new_name } => {
                let v: Vec<(&'static str, Json)> = vec![
                    ("op", json::text("rename")),
                    ("symbol", json::text(symbol.as_str())),
                    ("new_name", json::text(new_name.as_str())),
                ];
                assert(json::entry_docs(v@) =~= seq![
                    ("op"@, Doc::Text("rename"@)),
                    ("symbol"@, Doc::Text(symbol@)),
                    ("new_name"@, Doc::Text(new_name@)),
                ]);
                json::object(v)
            },
            Op::AddParam { symbol, name, type_, default, .. } => {
                let ghost all = seq![
                    ("op"@, Doc::Text("add_param"@)),
                    ("symbol"@, Doc::Text(symbol@)),
                    ("name"@, Doc::Text(name@)),
                ];
                let mut v: Vec<(String, Json)> = Vec::new();
                assert(json::members(v@) =~= json::object_upto(all, 0));
                json::set_member(&mut v, "op", json::text("add_param"));
                assert(json::members(v@) == json::object_upto(all, 1));
                json::set_member(&mut v, "symbol", json::text(symbol.as_str()));
                assert(json::members(v@) == json::object_upto(all, 2));
                json::set_member(&mut v, "name", json::text(name.as_str()));
                assert(json::members(v@) == json::object_upto(all, 3));
                match type_ {
                    Some(s) => {
                        json::set_member(&mut v, "type", json::text(s.as_str()));
                    },
                    None => {},
                }
                match default {
                    Some(s) => {
                        json::set_member(&mut v, "default", json::text(s.as_str()));
                    },
                    None => {},
                }
                proof {
                    json::lemma_object(v);
                }
                Json::Object(v)
            },
            Op::RemoveParam { symbol, name, .. } => {
                let v: Vec<(&'static str, Json)> = vec![
                    ("op", json::text("remove_param")),
                    ("symbol", json::text(symbol.as_str())),
                    ("name", json::text(name.as_str())),
                ];
                assert(json::entry_docs(v@) =~= seq![
                    ("op"@, Doc::Text("remove_param"@)),
                    ("symbol"@, Doc::Text(symbol@)),
                    ("name"@, Doc::Text(name@)),
                ]);
                json::object(v)
            },
            Op::PassArg { symbol, .. } => modify(symbol.as_str()),
            Op::ReplaceBody { symbol, .. } => modify(symbol.as_str()),
        }
    }
}

/// A plain change of a symbol, in the shape that declaring an intent takes.
fn modify(symbol: &str) -> (r: Json)
    ensures
        r@ == json::object_doc(seq![("op"@, Doc::Text("modify"@)), ("symbol"@, Doc::Text(symbol@))]),
{
    let v: Vec<(&'static str, Json)> = vec![
        ("op", json::text("modify")),
        ("symbol", json::text(symbol)),
    ];
    assert(json::entry_docs(v@) =~= seq![
        ("op"@, Doc::Text("modify"@)),
        ("symbol"@, Doc::Text(symbol@)),
    ]);
    json::object(v)
}

// ----------------------------------------------------------------- reading

/// The text of a member that must be there and not be empty.
pub open spec fn needed(d: Doc, key: Seq<char>) -> Result<Seq<char>, Seq<char>> {
    match json::member_words(d, key) {
        Some(s) => if s.len() > 0 {
            Ok(s)
        } else {
            Err(key + " is required"@)
        },
        None => Err(key + " is required"@),
    }
}

/// The text of a member, where it is there and not empty.
pub open spec fn given(d: Doc, key: Seq<char>) -> Option<Seq<char>> {
    match json::member_words(d, key) {
        Some(s) => if s.len() > 0 {
            Some(s)
        } else {
            None
        },
        None => None,
    }
}

/// The truth value of a member; false where it is none.
pub open spec fn flag(d: Doc, key: Seq<char>) -> bool {
    match json::member(d, key) {
        Some(x) => json::as_truth(x) == Some(true),
        None => false,
    }
}

/// The texts of three members that must be there, in this order.
pub open spec fn needed3(d: Doc, a: Seq<char>, b: Seq<char>, c: Seq<char>) -> Result<
    (Seq<char>, Seq<char>, Seq<char>),
    Seq<char>,
> {
    match needed(d, a) {
        Err(e) => Err(e),
        Ok(x) => match needed(d, b) {
            Err(e) => Err(e),
            Ok(y) => match needed(d, c) {
                Err(e) => Err(e),
                Ok(z) => Ok((x, y, z)),
            },
        },
    }
}

/// The op that a JSON value stands for, or why it stands for none.
pub open spec fn op_of(d: Doc) -> Result<OpText, Seq<char>> {
    match json::member_words(d, "op"@) {
        None => Err("op is required"@),
        Some(op) => if op == "rename"@ {
            match needed(d, "symbol"@) {
                Err(e) => Err(e),
                Ok(symbol) => match needed(d, "new_name"@) {
                    Err(e) => Err(e),
                    Ok(new_name) => Ok(OpText::Rename { symbol, new_name }),
                },
            }
        } else if op == "add_param"@ {
            match needed3(d, "path"@, "symbol"@, "name"@) {
                Err(e) => Err(e),
                Ok((path, symbol, name)) => Ok(
                    OpText::AddParam {
                        path,
                        symbol,
                        name,
                        type_: given(d, "type"@),
                        default: given(d, "default"@),
                        call_arg: given(d, "call_arg"@),
                    },
                ),
            }
        } else if op == "remove_param"@ {
            match needed3(d, "path"@, "symbol"@, "name"@) {
                Err(e) => Err(e),
                Ok((path, symbol, name)) => Ok(OpText::RemoveParam { path, symbol, name }),
            }
        } else if op == "replace_body"@ {
            match needed3(d, "path"@, "symbol"@, "body"@) {
                Err(e) => Err(e),
                Ok((path, symbol, body)) => Ok(OpText::ReplaceBody { path, symbol, body }),
            }
        } else if op == "pass_arg"@ {
            match needed3(d, "path"@, "symbol"@, "arg"@) {
                Err(e) => Err(e),
                Ok((path, symbol, arg)) => Ok(
                    OpText::PassArg {
                        path,
                        symbol,
                        arg,
                        within: json::texts_at(d, "in"@),
                        optional: flag(d, "optional"@),
                    },
                ),
            }
        } else {
            Err("unsupported op: "@ + op)
        },
    }
}

/// What reading an op said.
pub open spec fn op_result(r: Result<Op, String>) -> Result<OpText, Seq<char>> {
    match r {
        Ok(op) => Ok(op@),
        Err(e) => Err(e@),
    }
}

/// The text of a member that must be there and not be empty.
fn need(v: &Json, key: &str) -> (r: Result<String, String>)
    ensures
        match r {
            Ok(s) => needed(v@, key@) == Ok::<Seq<char>, Seq<char>>(s@),
            Err(e) => needed(v@, key@) == Err::<Seq<char>, Seq<char>>(e@),
        },
{
    match optional(v, key) {
        Some(s) => Ok(s),
        None => Err(text::cat2(key, " is required")),
    }
}

/// The text of a member, where it is there and not empty.
fn optional(v: &Json, key: &str) -> (r: Option<String>)
    ensures
        text::opt_text(r) == given(v@, key@),
{
    match v.get(key) {
        Some(x) => match x.as_str() {
            Some(s) => {
                if text::chars(s).len() > 0 {
                    Some(s.to_string())
                } else {
                    None
                }
            },
            None => None,
        },
        None => None,
    }
}

/// The texts of three members that must be there, in this order.
fn need3(v: &Json, a: &str, b: &str, c: &str) -> (r: Result<(String, String, String), String>)
    ensures
        match r {
            Ok((x, y, z)) => needed3(v@, a@, b@, c@) == Ok::<
                (Seq<char>, Seq<char>, Seq<char>),
                Seq<char>,
            >((x@, y@, z@)),
            Err(e) => needed3(v@, a@, b@, c@) == Err::<
                (Seq<char>, Seq<char>, Seq<char>),
                Seq<char>,
            >(e@),
        },
{
    match need(v, a) {
        Err(e) => Err(e),
        Ok(x) => match need(v, b) {
            Err(e) => Err(e),
            Ok(y) => match need(v, c) {
                Err(e) => Err(e),
                Ok(z) => Ok((x, y, z)),
            },
        },
    }
}

/// One op from its JSON shape, or why it is none.
pub fn parse_op(v: &Json) -> (r: Result<Op, String>)
    ensures
        op_result(r) == op_of(v@),
{
    let op = match v.get("op") {
        Some(x) => x.as_str(),
        None => None,
    };
    match op {
        None => Err("op is required".to_string()),
        Some(op) => {
            if text::same(op, "rename") {
                match need(v, "symbol") {
                    Err(e) => Err(e),
                    Ok(symbol) => match need(v, "new_name") {
                        Err(e) => Err(e),
                        Ok(new_name) => Ok(Op::Rename { symbol, new_name }),
                    },
                }
            } else if text::same(op, "add_param") {
                match need3(v, "path", "symbol", "name") {
                    Err(e) => Err(e),
                    Ok((path, symbol, name)) => Ok(
                        Op::AddParam {
                            path,
                            symbol,
                            name,
                            type_: optional(v, "type"),
                            default: optional(v, "default"),
                            call_arg: optional(v, "call_arg"),
                        },
                    ),
                }
            } else if text::same(op, "remove_param") {
                match need3(v, "path", "symbol", "name") {
                    Err(e) => Err(e),
                    Ok((path, symbol, name)) => Ok(Op::RemoveParam { path, symbol, name }),
                }
            } else if text::same(op, "replace_body") {
                match need3(v, "path", "symbol", "body") {
                    Err(e) => Err(e),
                    Ok((path, symbol, body)) => Ok(Op::ReplaceBody { path, symbol, body }),
                }
            } else if text::same(op, "pass_arg") {
                match need3(v, "path", "symbol", "arg") {
                    Err(e) => Err(e),
                    Ok((path, symbol, arg)) => {
                        let optional = match v.get("optional") {
                            Some(x) => match x.as_bool() {
                                Some(b) => b,
                                None => false,
                            },
                            None => false,
                        };
                        let within = v.texts_at("in");
                        Ok(Op::PassArg { path, symbol, arg, within, optional })
                    },
                }
            } else {
                Err(text::cat2("unsupported op: ", op))
            }
        },
    }
}

/// The ops that the first `n` items of a batch stand for, or why the first
/// that stands for none does not.
pub open spec fn batch_upto(items: Seq<Doc>, n: nat) -> Result<Seq<OpText>, Seq<char>>
    decreases n,
{
    if n == 0 {
        Ok(Seq::empty())
    } else {
        match batch_upto(items, (n - 1) as nat) {
            Err(e) => Err(e),
            Ok(rest) => match op_of(items[n - 1]) {
                Ok(op) => Ok(rest.push(op)),
                Err(e) => Err("op "@ + text::decimal(n) + ": "@ + e),
            },
        }
    }
}

/// The ops that a JSON value stands for: one op, or a batch of them.
pub open spec fn ops_of(d: Doc) -> Result<Seq<OpText>, Seq<char>> {
    match d {
        Doc::List(items) => if items.len() == 0 {
            Err("the batch is empty"@)
        } else {
            batch_upto(items, items.len())
        },
        Doc::Object(_) => match op_of(d) {
            Ok(op) => Ok(seq![op]),
            Err(e) => Err(e),
        },
        _ => Err("the op must be a JSON object or a list of them"@),
    }
}

/// What reading ops said.
pub open spec fn ops_result(r: Result<Vec<Op>, String>) -> Result<Seq<OpText>, Seq<char>> {
    match r {
        Ok(v) => Ok(op_texts(v@)),
        Err(e) => Err(e@),
    }
}

/// Once an item of a batch stands for no op, the batch does not.
proof fn lemma_batch_fails(items: Seq<Doc>, k: nat, n: nat)
    requires
        k <= n,
        batch_upto(items, k) is Err,
    ensures
        batch_upto(items, n) == batch_upto(items, k),
    decreases n - k,
{
    if k < n {
        lemma_batch_fails(items, k, (n - 1) as nat);
    }
}

/// One op, or a list of them, from JSON. A list is a batch: applied in order
/// against the same in-memory files, all or nothing.
pub fn parse_ops(v: &Json) -> (r: Result<Vec<Op>, String>)
    ensures
        ops_result(r) == ops_of(v@),
{
    match v {
        Json::List(items) => {
            proof {
                json::lemma_list(*items);
            }
            let ghost all = json::docs(items@);
            if items.len() == 0 {
                return Err("the batch is empty".to_string());
            }
            let mut out: Vec<Op> = Vec::new();
            let mut k: usize = 0;
            assert(op_texts(out@) =~= Seq::<OpText>::empty());
            while k < items.len()
                invariant
                    k <= items.len(),
                    all == json::docs(items@),
                    v@ == Doc::List(all),
                    all.len() > 0,
                    batch_upto(all, k as nat) == Ok::<Seq<OpText>, Seq<char>>(op_texts(out@)),
                decreases items.len() - k,
            {
                assert(all[k as int] == items@[k as int]@);
                match parse_op(&items[k]) {
                    Ok(op) => {
                        let ghost before = op_texts(out@);
                        let ghost said = op@;
                        out.push(op);
                        assert(op_texts(out@) =~= before.push(said));
                    },
                    Err(e) => {
                        let n = text::number(k as u64 + 1);
                        let r = text::cat4("op ", n.as_str(), ": ", e.as_str());
                        proof {
                            lemma_batch_fails(all, (k + 1) as nat, all.len());
                        }
                        return Err(r);
                    },
                }
                k += 1;
            }
            Ok(out)
        },
        Json::Object(_) => match parse_op(v) {
            Ok(op) => {
                let mut out: Vec<Op> = Vec::new();
                out.push(op);
                assert(op_texts(out@) =~= seq![op@]);
                Ok(out)
            },
            Err(e) => Err(e),
        },
        _ => Err("the op must be a JSON object or a list of them".to_string()),
    }
}

/// A rename reads back from the shape that announces it. The other ops leave
/// out what their announcement does not need.
pub proof fn law_a_rename_reads_back(symbol: Seq<char>, new_name: Seq<char>)
    requires
        symbol.len() > 0,
        new_name.len() > 0,
    ensures
        op_of(operation(OpText::Rename { symbol, new_name })) == Ok::<OpText, Seq<char>>(
            (OpText::Rename { symbol, new_name }),
        ),
{
    let fields = seq![
        ("op"@, Doc::Text("rename"@)),
        ("symbol"@, Doc::Text(symbol)),
        ("new_name"@, Doc::Text(new_name)),
    ];
    reveal_strlit("op");
    reveal_strlit("symbol");
    reveal_strlit("new_name");
    assert("op"@.len() == 2 && "symbol"@.len() == 6 && "new_name"@.len() == 8);
    json::lemma_object_member(fields, 0);
    json::lemma_object_member(fields, 1);
    json::lemma_object_member(fields, 2);
}

} // verus!

//! One table entry per language. Adding a language is a `LangSpec`, never a
//! new engine.
use vstd::prelude::*;
use crate::text;

verus! {

/// How a language writes its imports.
#[derive(Clone, Copy, PartialEq, Eq, Structural)]
pub enum ImportStyle {
    Python,
    TsLike,
    Go,
    Rust,
    Java,
    CSharp,
    Ruby,
    CLike,
    Php,
}

/// How a language names its declarations.
#[derive(Clone, Copy, PartialEq, Eq, Structural)]
pub enum NameStyle {
    /// the `name` field, unwrapping decorated definitions
    Python,
    /// `name`, or the first variable_declarator inside a lexical declaration
    TsLike,
    Go,
    Rust,
    /// follow declarator chains (C, C++)
    CLike,
    /// plain `name` field
    Field,
}

/// How the head of a declaration is cut.
#[derive(Clone, Copy, PartialEq, Eq, Structural)]
pub enum SigStyle {
    /// declaration text to the body, trailing ':' stripped, uncapped
    Python,
    /// whitespace-collapsed, capped at 200, trailing '{=' stripped
    TsLike,
    /// whitespace-collapsed, capped at 200, trailing '{=:;' stripped
    Generic,
}

/// What the parser needs to know of a language.
pub struct LangSpec {
    pub name: &'static str,
    pub exts: Vec<&'static str>,
    /// (node kind, kind of declaration)
    pub decls: Vec<(&'static str, &'static str)>,
    pub containers: Vec<&'static str>,
    pub import_types: Vec<&'static str>,
    pub heritage_field: Option<&'static str>,
    pub imports: ImportStyle,
    pub names: NameStyle,
    pub sig: SigStyle,
}

/// The texts of a language's table entry.
pub struct LangText {
    pub name: Seq<char>,
    pub exts: Seq<Seq<char>>,
    pub decls: Seq<(Seq<char>, Seq<char>)>,
    pub containers: Seq<Seq<char>>,
    pub import_types: Seq<Seq<char>>,
    pub heritage_field: Option<Seq<char>>,
    pub imports: ImportStyle,
    pub names: NameStyle,
    pub sig: SigStyle,
}

/// The texts of a list of literals.
pub open spec fn strs(v: Seq<&'static str>) -> Seq<Seq<char>> {
    Seq::new(v.len(), |i: int| v[i]@)
}

/// The texts of a list of literal pairs.
pub open spec fn str_pairs(v: Seq<(&'static str, &'static str)>) -> Seq<(Seq<char>, Seq<char>)> {
    Seq::new(v.len(), |i: int| (v[i].0@, v[i].1@))
}

/// The text of an optional literal.
pub open spec fn opt_str(o: Option<&'static str>) -> Option<Seq<char>> {
    match o {
        Some(s) => Some(s@),
        None => None,
    }
}

impl View for LangSpec {
    type V = LangText;

    open spec fn view(&self) -> LangText {
        LangText {
            name: self.name@,
            exts: strs(self.exts@),
            decls: str_pairs(self.decls@),
            containers: strs(self.containers@),
            import_types: strs(self.import_types@),
            heritage_field: opt_str(self.heritage_field),
            imports: self.imports,
            names: self.names,
            sig: self.sig,
        }
    }
}

/// The texts of a list of table entries.
pub open spec fn lang_texts(v: Seq<LangSpec>) -> Seq<LangText> {
    Seq::new(v.len(), |i: int| v[i]@)
}

/// What the first pair from the `i`th on that starts with `key` ends with.
pub open spec fn paired_from(v: Seq<(Seq<char>, Seq<char>)>, key: Seq<char>, i: nat) -> Option<
    Seq<char>,
>
    decreases v.len() - i,
{
    if i >= v.len() {
        None
    } else if v[i as int].0 == key {
        Some(v[i as int].1)
    } else {
        paired_from(v, key, i + 1)
    }
}

/// Is `s` one of the literals?
fn is_among(v: &Vec<&'static str>, s: &str) -> (r: bool)
    ensures
        r == text::listed(strs(v@), s@),
{
    let mut i: usize = 0;
    while i < v.len()
        invariant
            i <= v.len(),
            forall|j: int| 0 <= j < i ==> #[trigger] strs(v@)[j] != s@,
        decreases v.len() - i,
    {
        assert(strs(v@)[i as int] == v@[i as int]@);
        if text::same(v[i], s) {
            return true;
        }
        i += 1;
    }
    false
}

impl LangSpec {
    /// What kind of declaration a node of this kind is, if it is one.
    pub fn kind_of(&self, node_kind: &str) -> (r: Option<&'static str>)
        ensures
            opt_str(r) == paired_from(self@.decls, node_kind@, 0),
    {
        let mut i: usize = 0;
        while i < self.decls.len()
            invariant
                i <= self.decls.len(),
                paired_from(self@.decls, node_kind@, 0) == paired_from(
                    self@.decls,
                    node_kind@,
                    i as nat,
                ),
            decreases self.decls.len() - i,
        {
            assert(self@.decls[i as int] == (
                self.decls@[i as int].0@,
                self.decls@[i as int].1@,
            ));
            if text::same(self.decls[i].0, node_kind) {
                return Some(self.decls[i].1);
            }
            i += 1;
        }
        None
    }

    /// Does a node of this kind only hold declarations of its own?
    pub fn is_container(&self, node_kind: &str) -> (r: bool)
        ensures
            r == text::listed(self@.containers, node_kind@),
    {
        is_among(&self.containers, node_kind)
    }

    /// Is a node of this kind an import, and no declaration?
    pub fn is_import(&self, node_kind: &str) -> (r: bool)
        ensures
            r == text::listed(self@.import_types, node_kind@),
    {
        is_among(&self.import_types, node_kind)
    }
}

/// What TypeScript declares.
pub open spec fn ts_decls_text() -> Seq<(Seq<char>, Seq<char>)> {
    seq![
        ("function_declaration"@, "function"@),
        ("generator_function_declaration"@, "function"@),
        ("class_declaration"@, "class"@),
        ("abstract_class_declaration"@, "class"@),
        ("interface_declaration"@, "interface"@),
        ("type_alias_declaration"@, "type"@),
        ("enum_declaration"@, "enum"@),
        ("lexical_declaration"@, "variable"@),
        ("variable_declaration"@, "variable"@),
        ("export_statement"@, "definition"@),
    ]
}

/// What TypeScript declares.
fn ts_decls() -> (r: Vec<(&'static str, &'static str)>)
    ensures
        str_pairs(r@) == ts_decls_text(),
{
    let v: Vec<(&'static str, &'static str)> = vec![
        ("function_declaration", "function"),
        ("generator_function_declaration", "function"),
        ("class_declaration", "class"),
        ("abstract_class_declaration", "class"),
        ("interface_declaration", "interface"),
        ("type_alias_declaration", "type"),
        ("enum_declaration", "enum"),
        ("lexical_declaration", "variable"),
        ("variable_declaration", "variable"),
        ("export_statement", "definition"),
    ];
    assert(str_pairs(v@) =~= ts_decls_text());
    v
}

/// What JavaScript declares.
pub open spec fn js_decls_text() -> Seq<(Seq<char>, Seq<char>)> {
    seq![
        ("function_declaration"@, "function"@),
        ("generator_function_declaration"@, "function"@),
        ("class_declaration"@, "class"@),
        ("lexical_declaration"@, "variable"@),
        ("variable_declaration"@, "variable"@),
        ("export_statement"@, "definition"@),
    ]
}

/// What JavaScript declares.
fn js_decls() -> (r: Vec<(&'static str, &'static str)>)
    ensures
        str_pairs(r@) == js_decls_text(),
{
    let v: Vec<(&'static str, &'static str)> = vec![
        ("function_declaration", "function"),
        ("generator_function_declaration", "function"),
        ("class_declaration", "class"),
        ("lexical_declaration", "variable"),
        ("variable_declaration", "variable"),
        ("export_statement", "definition"),
    ];
    assert(str_pairs(v@) =~= js_decls_text());
    v
}

/// What C declares.
pub open spec fn c_decls_text() -> Seq<(Seq<char>, Seq<char>)> {
    seq![
        ("function_definition"@, "function"@),
        ("struct_specifier"@, "struct"@),
        ("union_specifier"@, "union"@),
        ("enum_specifier"@, "enum"@),
        ("type_definition"@, "type"@),
        ("declaration"@, "declaration"@),
    ]
}

/// What C declares.
fn c_decls() -> (r: Vec<(&'static str, &'static str)>)
    ensures
        str_pairs(r@) == c_decls_text(),
{
    let v: Vec<(&'static str, &'static str)> = vec![
        ("function_definition", "function"),
        ("struct_specifier", "struct"),
        ("union_specifier", "union"),
        ("enum_specifier", "enum"),
        ("type_definition", "type"),
        ("declaration", "declaration"),
    ];
    assert(str_pairs(v@) =~= c_decls_text());
    v
}

/// What C++ declares.
pub open spec fn cpp_decls_text() -> Seq<(Seq<char>, Seq<char>)> {
    seq![
        ("function_definition"@, "function"@),
        ("struct_specifier"@, "struct"@),
        ("union_specifier"@, "union"@),
        ("enum_specifier"@, "enum"@),
        ("type_definition"@, "type"@),
        ("declaration"@, "declaration"@),
        ("class_specifier"@, "class"@),
        ("alias_declaration"@, "type"@),
        ("template_declaration"@, "definition"@),
        ("concept_definition"@, "concept"@),
    ]
}

/// What C++ declares.
fn cpp_decls() -> (r: Vec<(&'static str, &'static str)>)
    ensures
        str_pairs(r@) == cpp_decls_text(),
{
    let v: Vec<(&'static str, &'static str)> = vec![
        ("function_definition", "function"),
        ("struct_specifier", "struct"),
        ("union_specifier", "union"),
        ("enum_specifier", "enum"),
        ("type_definition", "type"),
        ("declaration", "declaration"),
        ("class_specifier", "class"),
        ("alias_declaration", "type"),
        ("template_declaration", "definition"),
        ("concept_definition", "concept"),
    ];
    assert(str_pairs(v@) =~= cpp_decls_text());
    v
}

/// The table entry of Python.
pub open spec fn python_text() -> LangText {
    LangText {
        name: "python"@,
        exts: seq![".py"@, ".pyi"@],
        decls: seq![
                ("function_definition"@, "function"@),
                ("class_definition"@, "class"@),
                ("decorated_definition"@, "definition"@),
            ],
        containers: Seq::empty(),
        import_types: seq!["import_statement"@, "import_from_statement"@, "future_import_statement"@],
        heritage_field: Some("superclasses"@),
        imports: ImportStyle::Python,
        names: NameStyle::Python,
        sig: SigStyle::Python,
    }
}

/// The table entry of Python.
fn python_spec() -> (r: LangSpec)
    ensures
        r@ == python_text(),
{
    let exts: Vec<&'static str> = vec![".py", ".pyi"];
    let decls: Vec<(&'static str, &'static str)> = vec![
        ("function_definition", "function"),
        ("class_definition", "class"),
        ("decorated_definition", "definition"),
    ];
    let containers: Vec<&'static str> = Vec::new();
    let import_types: Vec<&'static str> = vec!["import_statement", "import_from_statement", "future_import_statement"];
    assert(strs(exts@) =~= python_text().exts);
    assert(str_pairs(decls@) =~= python_text().decls);
    assert(strs(containers@) =~= python_text().containers);
    assert(strs(import_types@) =~= python_text().import_types);
    LangSpec {
        name: "python",
        exts,
        decls,
        containers,
        import_types,
        heritage_field: Some("superclasses"),
        imports: ImportStyle::Python,
        names: NameStyle::Python,
        sig: SigStyle::Python,
    }
}

/// The table entry of TypeScript.
pub open spec fn typescript_text() -> LangText {
    LangText {
        name: "typescript"@,
        exts: seq![".ts"@, ".mts"@, ".cts"@],
        decls: ts_decls_text(),
        containers: Seq::empty(),
        import_types: seq!["import_statement"@],
        heritage_field: None,
        imports: ImportStyle::TsLike,
        names: NameStyle::TsLike,
        sig: SigStyle::TsLike,
    }
}

/// The table entry of TypeScript.
fn typescript_spec() -> (r: LangSpec)
    ensures
        r@ == typescript_text(),
{
    let exts: Vec<&'static str> = vec![".ts", ".mts", ".cts"];
    let decls: Vec<(&'static str, &'static str)> = ts_decls();
    let containers: Vec<&'static str> = Vec::new();
    let import_types: Vec<&'static str> = vec!["import_statement"];
    assert(strs(exts@) =~= typescript_text().exts);
    assert(str_pairs(decls@) =~= typescript_text().decls);
    assert(strs(containers@) =~= typescript_text().containers);
    assert(strs(import_types@) =~= typescript_text().import_types);
    LangSpec {
        name: "typescript",
        exts,
        decls,
        containers,
        import_types,
        heritage_field: None,
        imports: ImportStyle::TsLike,
        names: NameStyle::TsLike,
        sig: SigStyle::TsLike,
    }
}

/// The table entry of TSX.
pub open spec fn tsx_text() -> LangText {
    LangText {
        name: "tsx"@,
        exts: seq![".tsx"@],
        decls: ts_decls_text(),
        containers: Seq::empty(),
        import_types: seq!["import_statement"@],
        heritage_field: None,
        imports: ImportStyle::TsLike,
        names: NameStyle::TsLike,
        sig: SigStyle::TsLike,
    }
}

/// The table entry of TSX.
fn tsx_spec() -> (r: LangSpec)
    ensures
        r@ == tsx_text(),
{
    let exts: Vec<&'static str> = vec![".tsx"];
    let decls: Vec<(&'static str, &'static str)> = ts_decls();
    let containers: Vec<&'static str> = Vec::new();
    let import_types: Vec<&'static str> = vec!["import_statement"];
    assert(strs(exts@) =~= tsx_text().exts);
    assert(str_pairs(decls@) =~= tsx_text().decls);
    assert(strs(containers@) =~= tsx_text().containers);
    assert(strs(import_types@) =~= tsx_text().import_types);
    LangSpec {
        name: "tsx",
        exts,
        decls,
        containers,
        import_types,
        heritage_field: None,
        imports: ImportStyle::TsLike,
        names: NameStyle::TsLike,
        sig: SigStyle::TsLike,
    }
}

/// The table entry of JavaScript.
pub open spec fn javascript_text() -> LangText {
    LangText {
        name: "javascript"@,
        exts: seq![".js"@, ".jsx"@, ".mjs"@, ".cjs"@],
        decls: js_decls_text(),
        containers: Seq::empty(),
        import_types: seq!["import_statement"@],
        heritage_field: None,
        imports: ImportStyle::TsLike,
        names: NameStyle::TsLike,
        sig: SigStyle::TsLike,
    }
}

/// The table entry of JavaScript.
fn javascript_spec() -> (r: LangSpec)
    ensures
        r@ == javascript_text(),
{
    let exts: Vec<&'static str> = vec![".js", ".jsx", ".mjs", ".cjs"];
    let decls: Vec<(&'static str, &'static str)> = js_decls();
    let containers: Vec<&'static str> = Vec::new();
    let import_types: Vec<&'static str> = vec!["import_statement"];
    assert(strs(exts@) =~= javascript_text().exts);
    assert(str_pairs(decls@) =~= javascript_text().decls);
    assert(strs(containers@) =~= javascript_text().containers);
    assert(strs(import_types@) =~= javascript_text().import_types);
    LangSpec {
        name: "javascript",
        exts,
        decls,
        containers,
        import_types,
        heritage_field: None,
        imports: ImportStyle::TsLike,
        names: NameStyle::TsLike,
        sig: SigStyle::TsLike,
    }
}

/// The table entry of Go.
pub open spec fn go_text() -> LangText {
    LangText {
        name: "go"@,
        exts: seq![".go"@],
        decls: seq![
                ("function_declaration"@, "function"@),
                ("method_declaration"@, "method"@),
                ("type_spec"@, "type"@),
                ("var_spec"@, "variable"@),
                ("const_spec"@, "constant"@),
            ],
        containers: seq!["type_declaration"@, "var_declaration"@, "const_declaration"@],
        import_types: seq!["import_declaration"@, "package_clause"@],
        heritage_field: None,
        imports: ImportStyle::Go,
        names: NameStyle::Go,
        sig: SigStyle::Generic,
    }
}

/// The table entry of Go.
fn go_spec() -> (r: LangSpec)
    ensures
        r@ == go_text(),
{
    let exts: Vec<&'static str> = vec![".go"];
    let decls: Vec<(&'static str, &'static str)> = vec![
        ("function_declaration", "function"),
        ("method_declaration", "method"),
        ("type_spec", "type"),
        ("var_spec", "variable"),
        ("const_spec", "constant"),
    ];
    let containers: Vec<&'static str> = vec!["type_declaration", "var_declaration", "const_declaration"];
    let import_types: Vec<&'static str> = vec!["import_declaration", "package_clause"];
    assert(strs(exts@) =~= go_text().exts);
    assert(str_pairs(decls@) =~= go_text().decls);
    assert(strs(containers@) =~= go_text().containers);
    assert(strs(import_types@) =~= go_text().import_types);
    LangSpec {
        name: "go",
        exts,
        decls,
        containers,
        import_types,
        heritage_field: None,
        imports: ImportStyle::Go,
        names: NameStyle::Go,
        sig: SigStyle::Generic,
    }
}

/// The table entry of Rust.
pub open spec fn rust_text() -> LangText {
    LangText {
        name: "rust"@,
        exts: seq![".rs"@],
        decls: seq![
                ("function_item"@, "function"@),
                ("function_signature_item"@, "function"@),
                ("struct_item"@, "struct"@),
                ("enum_item"@, "enum"@),
                ("union_item"@, "union"@),
                ("trait_item"@, "trait"@),
                ("impl_item"@, "impl"@),
                ("mod_item"@, "module"@),
                ("const_item"@, "constant"@),
                ("static_item"@, "constant"@),
                ("type_item"@, "type"@),
                ("macro_definition"@, "macro"@),
            ],
        containers: Seq::empty(),
        import_types: seq!["use_declaration"@, "extern_crate_declaration"@],
        heritage_field: None,
        imports: ImportStyle::Rust,
        names: NameStyle::Rust,
        sig: SigStyle::Generic,
    }
}

/// The table entry of Rust.
fn rust_spec() -> (r: LangSpec)
    ensures
        r@ == rust_text(),
{
    let exts: Vec<&'static str> = vec![".rs"];
    let decls: Vec<(&'static str, &'static str)> = vec![
        ("function_item", "function"),
        ("function_signature_item", "function"),
        ("struct_item", "struct"),
        ("enum_item", "enum"),
        ("union_item", "union"),
        ("trait_item", "trait"),
        ("impl_item", "impl"),
        ("mod_item", "module"),
        ("const_item", "constant"),
        ("static_item", "constant"),
        ("type_item", "type"),
        ("macro_definition", "macro"),
    ];
    let containers: Vec<&'static str> = Vec::new();
    let import_types: Vec<&'static str> = vec!["use_declaration", "extern_crate_declaration"];
    assert(strs(exts@) =~= rust_text().exts);
    assert(str_pairs(decls@) =~= rust_text().decls);
    assert(strs(containers@) =~= rust_text().containers);
    assert(strs(import_types@) =~= rust_text().import_types);
    LangSpec {
        name: "rust",
        exts,
        decls,
        containers,
        import_types,
        heritage_field: None,
        imports: ImportStyle::Rust,
        names: NameStyle::Rust,
        sig: SigStyle::Generic,
    }
}

/// The table entry of Java.
pub open spec fn java_text() -> LangText {
    LangText {
        name: "java"@,
        exts: seq![".java"@],
        decls: seq![
                ("class_declaration"@, "class"@),
                ("interface_declaration"@, "interface"@),
                ("enum_declaration"@, "enum"@),
                ("record_declaration"@, "record"@),
                ("annotation_type_declaration"@, "annotation"@),
            ],
        containers: Seq::empty(),
        import_types: seq!["import_declaration"@, "package_declaration"@],
        heritage_field: None,
        imports: ImportStyle::Java,
        names: NameStyle::Field,
        sig: SigStyle::Generic,
    }
}

/// The table entry of Java.
fn java_spec() -> (r: LangSpec)
    ensures
        r@ == java_text(),
{
    let exts: Vec<&'static str> = vec![".java"];
    let decls: Vec<(&'static str, &'static str)> = vec![
        ("class_declaration", "class"),
        ("interface_declaration", "interface"),
        ("enum_declaration", "enum"),
        ("record_declaration", "record"),
        ("annotation_type_declaration", "annotation"),
    ];
    let containers: Vec<&'static str> = Vec::new();
    let import_types: Vec<&'static str> = vec!["import_declaration", "package_declaration"];
    assert(strs(exts@) =~= java_text().exts);
    assert(str_pairs(decls@) =~= java_text().decls);
    assert(strs(containers@) =~= java_text().containers);
    assert(strs(import_types@) =~= java_text().import_types);
    LangSpec {
        name: "java",
        exts,
        decls,
        containers,
        import_types,
        heritage_field: None,
        imports: ImportStyle::Java,
        names: NameStyle::Field,
        sig: SigStyle::Generic,
    }
}

/// The table entry of C#.
pub open spec fn c_sharp_text() -> LangText {
    LangText {
        name: "c_sharp"@,
        exts: seq![".cs"@],
        decls: seq![
                ("class_declaration"@, "class"@),
                ("interface_declaration"@, "interface"@),
                ("struct_declaration"@, "struct"@),
                ("enum_declaration"@, "enum"@),
                ("record_declaration"@, "record"@),
                ("record_struct_declaration"@, "record"@),
                ("delegate_declaration"@, "delegate"@),
            ],
        containers: seq!["namespace_declaration"@],
        import_types: seq!["using_directive"@, "file_scoped_namespace_declaration"@, "global_statement"@],
        heritage_field: None,
        imports: ImportStyle::CSharp,
        names: NameStyle::Field,
        sig: SigStyle::Generic,
    }
}

/// The table entry of C#.
fn c_sharp_spec() -> (r: LangSpec)
    ensures
        r@ == c_sharp_text(),
{
    let exts: Vec<&'static str> = vec![".cs"];
    let decls: Vec<(&'static str, &'static str)> = vec![
        ("class_declaration", "class"),
        ("interface_declaration", "interface"),
        ("struct_declaration", "struct"),
        ("enum_declaration", "enum"),
        ("record_declaration", "record"),
        ("record_struct_declaration", "record"),
        ("delegate_declaration", "delegate"),
    ];
    let containers: Vec<&'static str> = vec!["namespace_declaration"];
    let import_types: Vec<&'static str> = vec!["using_directive", "file_scoped_namespace_declaration", "global_statement"];
    assert(strs(exts@) =~= c_sharp_text().exts);
    assert(str_pairs(decls@) =~= c_sharp_text().decls);
    assert(strs(containers@) =~= c_sharp_text().containers);
    assert(strs(import_types@) =~= c_sharp_text().import_types);
    LangSpec {
        name: "c_sharp",
        exts,
        decls,
        containers,
        import_types,
        heritage_field: None,
        imports: ImportStyle::CSharp,
        names: NameStyle::Field,
        sig: SigStyle::Generic,
    }
}

/// The table entry of Ruby.
pub open spec fn ruby_text() -> LangText {
    LangText {
        name: "ruby"@,
        exts: seq![".rb"@],
        decls: seq![
                ("class"@, "class"@),
                ("module"@, "module"@),
                ("method"@, "function"@),
                ("singleton_method"@, "function"@),
            ],
        containers: Seq::empty(),
        import_types: Seq::empty(),
        heritage_field: None,
        imports: ImportStyle::Ruby,
        names: NameStyle::Field,
        sig: SigStyle::Generic,
    }
}

/// The table entry of Ruby.
fn ruby_spec() -> (r: LangSpec)
    ensures
        r@ == ruby_text(),
{
    let exts: Vec<&'static str> = vec![".rb"];
    let decls: Vec<(&'static str, &'static str)> = vec![
        ("class", "class"),
        ("module", "module"),
        ("method", "function"),
        ("singleton_method", "function"),
    ];
    let containers: Vec<&'static str> = Vec::new();
    let import_types: Vec<&'static str> = Vec::new();
    assert(strs(exts@) =~= ruby_text().exts);
    assert(str_pairs(decls@) =~= ruby_text().decls);
    assert(strs(containers@) =~= ruby_text().containers);
    assert(strs(import_types@) =~= ruby_text().import_types);
    LangSpec {
        name: "ruby",
        exts,
        decls,
        containers,
        import_types,
        heritage_field: None,
        imports: ImportStyle::Ruby,
        names: NameStyle::Field,
        sig: SigStyle::Generic,
    }
}

/// The table entry of C.
pub open spec fn c_text() -> LangText {
    LangText {
        name: "c"@,
        exts: seq![".c"@, ".h"@],
        decls: c_decls_text(),
        containers: seq!["preproc_ifdef"@, "preproc_if"@, "linkage_specification"@],
        import_types: seq!["preproc_include"@, "preproc_def"@, "preproc_function_def"@, "preproc_call"@],
        heritage_field: None,
        imports: ImportStyle::CLike,
        names: NameStyle::CLike,
        sig: SigStyle::Generic,
    }
}

/// The table entry of C.
fn c_spec() -> (r: LangSpec)
    ensures
        r@ == c_text(),
{
    let exts: Vec<&'static str> = vec![".c", ".h"];
    let decls: Vec<(&'static str, &'static str)> = c_decls();
    let containers: Vec<&'static str> = vec!["preproc_ifdef", "preproc_if", "linkage_specification"];
    let import_types: Vec<&'static str> = vec!["preproc_include", "preproc_def", "preproc_function_def", "preproc_call"];
    assert(strs(exts@) =~= c_text().exts);
    assert(str_pairs(decls@) =~= c_text().decls);
    assert(strs(containers@) =~= c_text().containers);
    assert(strs(import_types@) =~= c_text().import_types);
    LangSpec {
        name: "c",
        exts,
        decls,
        containers,
        import_types,
        heritage_field: None,
        imports: ImportStyle::CLike,
        names: NameStyle::CLike,
        sig: SigStyle::Generic,
    }
}

/// The table entry of C++.
pub open spec fn cpp_text() -> LangText {
    LangText {
        name: "cpp"@,
        exts: seq![".cc"@, ".cpp"@, ".cxx"@, ".hpp"@, ".hh"@, ".hxx"@],
        decls: cpp_decls_text(),
        containers: seq!["namespace_definition"@, "preproc_ifdef"@, "preproc_if"@, "linkage_specification"@],
        import_types: seq!["preproc_include"@, "preproc_def"@, "preproc_function_def"@, "preproc_call"@, "using_declaration"@],
        heritage_field: None,
        imports: ImportStyle::CLike,
        names: NameStyle::CLike,
        sig: SigStyle::Generic,
    }
}

/// The table entry of C++.
fn cpp_spec() -> (r: LangSpec)
    ensures
        r@ == cpp_text(),
{
    let exts: Vec<&'static str> = vec![".cc", ".cpp", ".cxx", ".hpp", ".hh", ".hxx"];
    let decls: Vec<(&'static str, &'static str)> = cpp_decls();
    let containers: Vec<&'static str> = vec!["namespace_definition", "preproc_ifdef", "preproc_if", "linkage_specification"];
    let import_types: Vec<&'static str> = vec!["preproc_include", "preproc_def", "preproc_function_def", "preproc_call", "using_declaration"];
    assert(strs(exts@) =~= cpp_text().exts);
    assert(str_pairs(decls@) =~= cpp_text().decls);
    assert(strs(containers@) =~= cpp_text().containers);
    assert(strs(import_types@) =~= cpp_text().import_types);
    LangSpec {
        name: "cpp",
        exts,
        decls,
        containers,
        import_types,
        heritage_field: None,
        imports: ImportStyle::CLike,
        names: NameStyle::CLike,
        sig: SigStyle::Generic,
    }
}

/// The table entry of PHP.
pub open spec fn php_text() -> LangText {
    LangText {
        name: "php"@,
        exts: seq![".php"@],
        decls: seq![
                ("function_definition"@, "function"@),
                ("class_declaration"@, "class"@),
                ("interface_declaration"@, "interface"@),
                ("trait_declaration"@, "trait"@),
                ("enum_declaration"@, "enum"@),
            ],
        containers: seq!["namespace_definition"@],
        import_types: seq!["namespace_use_declaration"@, "php_tag"@, "text_interpolation"@],
        heritage_field: None,
        imports: ImportStyle::Php,
        names: NameStyle::Field,
        sig: SigStyle::Generic,
    }
}

/// The table entry of PHP.
fn php_spec() -> (r: LangSpec)
    ensures
        r@ == php_text(),
{
    let exts: Vec<&'static str> = vec![".php"];
    let decls: Vec<(&'static str, &'static str)> = vec![
        ("function_definition", "function"),
        ("class_declaration", "class"),
        ("interface_declaration", "interface"),
        ("trait_declaration", "trait"),
        ("enum_declaration", "enum"),
    ];
    let containers: Vec<&'static str> = vec!["namespace_definition"];
    let import_types: Vec<&'static str> = vec!["namespace_use_declaration", "php_tag", "text_interpolation"];
    assert(strs(exts@) =~= php_text().exts);
    assert(str_pairs(decls@) =~= php_text().decls);
    assert(strs(containers@) =~= php_text().containers);
    assert(strs(import_types@) =~= php_text().import_types);
    LangSpec {
        name: "php",
        exts,
        decls,
        containers,
        import_types,
        heritage_field: None,
        imports: ImportStyle::Php,
        names: NameStyle::Field,
        sig: SigStyle::Generic,
    }
}

/// The table of languages.
pub open spec fn lang_table() -> Seq<LangText> {
    seq![
        python_text(),
        typescript_text(),
        tsx_text(),
        javascript_text(),
        go_text(),
        rust_text(),
        java_text(),
        c_sharp_text(),
        ruby_text(),
        c_text(),
        cpp_text(),
        php_text(),
    ]
}

/// The table of languages, one entry per language.
pub fn specs() -> (r: Vec<LangSpec>)
    ensures
        lang_texts(r@) == lang_table(),
{
    let v: Vec<LangSpec> = vec![
        python_spec(),
        typescript_spec(),
        tsx_spec(),
        javascript_spec(),
        go_spec(),
        rust_spec(),
        java_spec(),
        c_sharp_spec(),
        ruby_spec(),
        c_spec(),
        cpp_spec(),
        php_spec(),
    ];
    assert(lang_texts(v@) =~= lang_table());
    v
}

/// The first entry from the `i`th on that takes files with the extension.
pub open spec fn lang_from(table: Seq<LangText>, ext: Seq<char>, i: nat) -> Option<LangText>
    decreases table.len() - i,
{
    if i >= table.len() {
        None
    } else if text::listed(table[i as int].exts, ext) {
        Some(table[i as int])
    } else {
        lang_from(table, ext, i + 1)
    }
}

/// The entry of the language that takes files with the extension.
pub open spec fn lang_of_ext(ext: Seq<char>) -> Option<LangText> {
    lang_from(lang_table(), ext, 0)
}

/// The entry of the language that takes files with the extension.
pub fn spec_for_ext(ext: &str) -> (r: Option<LangSpec>)
    ensures
        match r {
            Some(spec) => lang_of_ext(ext@) == Some(spec@),
            None => lang_of_ext(ext@) is None,
        },
{
    let mut table = specs();
    let mut i: usize = 0;
    while i < table.len()
        invariant
            i <= table.len(),
            lang_texts(table@) == lang_table(),
            lang_of_ext(ext@) == lang_from(lang_table(), ext@, i as nat),
        decreases table.len() - i,
    {
        assert(lang_texts(table@)[i as int] == table@[i as int]@);
        if is_among(&table[i].exts, ext) {
            return Some(table.swap_remove(i));
        }
        i += 1;
    }
    None
}

/// The place of a language in the table.
pub open spec fn grammar_slot(name: Seq<char>) -> Option<int> {
    if name == "python"@ {
        Some(0)
    } else if name == "typescript"@ {
        Some(1)
    } else if name == "tsx"@ {
        Some(2)
    } else if name == "javascript"@ {
        Some(3)
    } else if name == "go"@ {
        Some(4)
    } else if name == "rust"@ {
        Some(5)
    } else if name == "java"@ {
        Some(6)
    } else if name == "c_sharp"@ {
        Some(7)
    } else if name == "ruby"@ {
        Some(8)
    } else if name == "c"@ {
        Some(9)
    } else if name == "cpp"@ {
        Some(10)
    } else if name == "php"@ {
        Some(11)
    } else {
        None
    }
}

/// The grammar registered for a language: its place in the table of
/// languages, which the parser's table of grammars follows.
pub fn language_of(name: &str) -> (r: usize)
    requires
        grammar_slot(name@) is Some,
    ensures
        grammar_slot(name@) == Some(r as int),
        r < 12,
{
    if text::same(name, "python") {
        0
    } else if text::same(name, "typescript") {
        1
    } else if text::same(name, "tsx") {
        2
    } else if text::same(name, "javascript") {
        3
    } else if text::same(name, "go") {
        4
    } else if text::same(name, "rust") {
        5
    } else if text::same(name, "java") {
        6
    } else if text::same(name, "c_sharp") {
        7
    } else if text::same(name, "ruby") {
        8
    } else if text::same(name, "c") {
        9
    } else if text::same(name, "cpp") {
        10
    } else {
        11
    }
}

/// Every language of the table has its grammar at its own place.
pub proof fn law_every_language_has_a_grammar(i: int)
    requires
        0 <= i < lang_table().len(),
    ensures
        grammar_slot(lang_table()[i].name) == Some(i),
{
    let table = lang_table();
    assert(table[0].name == "python"@);
    assert(table[1].name == "typescript"@);
    assert(table[2].name == "tsx"@);
    assert(table[3].name == "javascript"@);
    assert(table[4].name == "go"@);
    assert(table[5].name == "rust"@);
    assert(table[6].name == "java"@);
    assert(table[7].name == "c_sharp"@);
    assert(table[8].name == "ruby"@);
    assert(table[9].name == "c"@);
    assert(table[10].name == "cpp"@);
    assert(table[11].name == "php"@);
    reveal_strlit("python");
    reveal_strlit("typescript");
    reveal_strlit("tsx");
    reveal_strlit("javascript");
    reveal_strlit("go");
    reveal_strlit("rust");
    reveal_strlit("java");
    reveal_strlit("c_sharp");
    reveal_strlit("ruby");
    reveal_strlit("c");
    reveal_strlit("cpp");
    reveal_strlit("php");
    assert("typescript"@[0] != "javascript"@[0]);
    assert("rust"@[0] != "java"@[0]);
    assert("rust"@[2] != "ruby"@[2]);
    assert("java"@[0] != "ruby"@[0]);
    assert("tsx"@[0] != "cpp"@[0]);
    assert("tsx"@[0] != "php"@[0]);
    assert("cpp"@[0] != "php"@[0]);
}

/// An entry found by extension is one of the table.
proof fn lemma_lang_from(table: Seq<LangText>, ext: Seq<char>, i: nat)
    ensures
        lang_from(table, ext, i) is Some ==> exists|k: int|
            0 <= k < table.len() && #[trigger] table[k] == lang_from(table, ext, i)->0,
    decreases table.len() - i,
{
    if i < table.len() && !text::listed(table[i as int].exts, ext) {
        lemma_lang_from(table, ext, i + 1);
    }
}

/// A language found by extension has a grammar.
pub proof fn lemma_lang_of_ext(ext: Seq<char>)
    ensures
        lang_of_ext(ext) is Some ==> grammar_slot(lang_of_ext(ext)->0.name) is Some,
{
    lemma_lang_from(lang_table(), ext, 0);
    if lang_of_ext(ext) is Some {
        let k = choose|k: int|
            0 <= k < lang_table().len() && #[trigger] lang_table()[k] == lang_of_ext(ext)->0;
        law_every_language_has_a_grammar(k);
    }
}

} // verus!

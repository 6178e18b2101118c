//! Kinds of syntax nodes, by what they mean to the engine.
use vstd::prelude::*;
use crate::text;

verus! {

/// Does a node of this kind name something?
pub open spec fn ident_kind(k: Seq<char>) -> bool {
    ||| k == "identifier"@
    ||| k == "type_identifier"@
    ||| k == "constant"@
    ||| k == "name"@
    ||| k == "field_identifier"@
    ||| k == "package_identifier"@
    ||| k == "namespace_identifier"@
    ||| k == "scoped_type_identifier"@
}

/// Does a node of this kind name something?
pub fn is_ident_kind(k: &str) -> (r: bool)
    ensures
        r == ident_kind(k@),
{
    text::same(k, "identifier")
        || text::same(k, "type_identifier")
        || text::same(k, "constant")
        || text::same(k, "name")
        || text::same(k, "field_identifier")
        || text::same(k, "package_identifier")
        || text::same(k, "namespace_identifier")
        || text::same(k, "scoped_type_identifier")
}

/// Is a node of this kind a call?
pub open spec fn call_kind(k: Seq<char>) -> bool {
    ||| k == "call"@
    ||| k == "call_expression"@
    ||| k == "method_invocation"@
    ||| k == "invocation_expression"@
    ||| k == "function_call_expression"@
    ||| k == "member_call_expression"@
    ||| k == "scoped_call_expression"@
    ||| k == "nullsafe_member_call_expression"@
    ||| k == "macro_invocation"@
    ||| k == "object_creation_expression"@
    ||| k == "new_expression"@
    ||| k == "generic_function"@
    ||| k == "composite_literal"@
}

/// Is a node of this kind a call?
pub fn is_call_kind(k: &str) -> (r: bool)
    ensures
        r == call_kind(k@),
{
    text::same(k, "call")
        || text::same(k, "call_expression")
        || text::same(k, "method_invocation")
        || text::same(k, "invocation_expression")
        || text::same(k, "function_call_expression")
        || text::same(k, "member_call_expression")
        || text::same(k, "scoped_call_expression")
        || text::same(k, "nullsafe_member_call_expression")
        || text::same(k, "macro_invocation")
        || text::same(k, "object_creation_expression")
        || text::same(k, "new_expression")
        || text::same(k, "generic_function")
        || text::same(k, "composite_literal")
}

/// Does a node of this kind say what a declaration inherits from?
pub open spec fn heritage_kind(k: Seq<char>) -> bool {
    ||| k == "class_heritage"@
    ||| k == "extends_clause"@
    ||| k == "implements_clause"@
    ||| k == "superclass"@
    ||| k == "super_interfaces"@
    ||| k == "base_list"@
    ||| k == "base_clause"@
    ||| k == "class_interface_clause"@
    ||| k == "extends_type_clause"@
    ||| k == "base_class_clause"@
    ||| k == "trait_bounds"@
    ||| k == "delegation_specifiers"@
}

/// Does a node of this kind say what a declaration inherits from?
pub fn is_heritage_kind(k: &str) -> (r: bool)
    ensures
        r == heritage_kind(k@),
{
    text::same(k, "class_heritage")
        || text::same(k, "extends_clause")
        || text::same(k, "implements_clause")
        || text::same(k, "superclass")
        || text::same(k, "super_interfaces")
        || text::same(k, "base_list")
        || text::same(k, "base_clause")
        || text::same(k, "class_interface_clause")
        || text::same(k, "extends_type_clause")
        || text::same(k, "base_class_clause")
        || text::same(k, "trait_bounds")
        || text::same(k, "delegation_specifiers")
}

/// Does a node of this kind wrap the expression that it is about?
pub open spec fn wrapper_kind(k: Seq<char>) -> bool {
    ||| k == "generic_type"@
    ||| k == "parenthesized_expression"@
    ||| k == "non_null_expression"@
    ||| k == "as_expression"@
    ||| k == "await_expression"@
    ||| k == "unary_expression"@
    ||| k == "type_arguments"@
    ||| k == "generic_name"@
    ||| k == "reference_type"@
    ||| k == "pointer_type"@
}

/// Does a node of this kind wrap the expression that it is about?
pub fn is_wrapper_kind(k: &str) -> (r: bool)
    ensures
        r == wrapper_kind(k@),
{
    text::same(k, "generic_type")
        || text::same(k, "parenthesized_expression")
        || text::same(k, "non_null_expression")
        || text::same(k, "as_expression")
        || text::same(k, "await_expression")
        || text::same(k, "unary_expression")
        || text::same(k, "type_arguments")
        || text::same(k, "generic_name")
        || text::same(k, "reference_type")
        || text::same(k, "pointer_type")
}

/// Is a node of this kind the body of a declaration?
pub open spec fn body_kind(k: Seq<char>) -> bool {
    ||| k == "block"@
    ||| k == "statement_block"@
    ||| k == "class_body"@
    ||| k == "declaration_list"@
    ||| k == "compound_statement"@
    ||| k == "field_declaration_list"@
    ||| k == "enum_body"@
    ||| k == "interface_body"@
    ||| k == "body_statement"@
    ||| k == "enum_variant_list"@
    ||| k == "enumerator_list"@
    ||| k == "enum_declaration_list"@
    ||| k == "function_body"@
    ||| k == "impl_body"@
    ||| k == "trait_body"@
    ||| k == "namespace_body"@
}

/// Is a node of this kind the body of a declaration?
pub fn is_body_kind(k: &str) -> (r: bool)
    ensures
        r == body_kind(k@),
{
    text::same(k, "block")
        || text::same(k, "statement_block")
        || text::same(k, "class_body")
        || text::same(k, "declaration_list")
        || text::same(k, "compound_statement")
        || text::same(k, "field_declaration_list")
        || text::same(k, "enum_body")
        || text::same(k, "interface_body")
        || text::same(k, "body_statement")
        || text::same(k, "enum_variant_list")
        || text::same(k, "enumerator_list")
        || text::same(k, "enum_declaration_list")
        || text::same(k, "function_body")
        || text::same(k, "impl_body")
        || text::same(k, "trait_body")
        || text::same(k, "namespace_body")
}

/// Does a node of this kind end a chain of declarators?
pub open spec fn clike_name_kind(k: Seq<char>) -> bool {
    ||| k == "identifier"@
    ||| k == "type_identifier"@
    ||| k == "field_identifier"@
    ||| k == "qualified_identifier"@
    ||| k == "operator_name"@
    ||| k == "destructor_name"@
}

/// Does a node of this kind end a chain of declarators?
pub fn is_clike_name_kind(k: &str) -> (r: bool)
    ensures
        r == clike_name_kind(k@),
{
    text::same(k, "identifier")
        || text::same(k, "type_identifier")
        || text::same(k, "field_identifier")
        || text::same(k, "qualified_identifier")
        || text::same(k, "operator_name")
        || text::same(k, "destructor_name")
}

/// Is a node of this kind a comment?
pub open spec fn comment_kind(k: Seq<char>) -> bool {
    ||| k == "comment"@
    ||| k == "line_comment"@
    ||| k == "block_comment"@
    ||| k == "doc_comment"@
}

/// Is a node of this kind a comment?
pub fn is_comment_kind(k: &str) -> (r: bool)
    ensures
        r == comment_kind(k@),
{
    text::same(k, "comment")
        || text::same(k, "line_comment")
        || text::same(k, "block_comment")
        || text::same(k, "doc_comment")
}

/// Can a template declare a node of this kind?
pub open spec fn templated_kind(k: Seq<char>) -> bool {
    ||| k == "function_definition"@
    ||| k == "class_specifier"@
    ||| k == "struct_specifier"@
    ||| k == "declaration"@
    ||| k == "alias_declaration"@
    ||| k == "concept_definition"@
}

/// Can a template declare a node of this kind?
pub fn is_templated_kind(k: &str) -> (r: bool)
    ensures
        r == templated_kind(k@),
{
    text::same(k, "function_definition")
        || text::same(k, "class_specifier")
        || text::same(k, "struct_specifier")
        || text::same(k, "declaration")
        || text::same(k, "alias_declaration")
        || text::same(k, "concept_definition")
}

/// Does a node of this kind hold what its container declares?
pub open spec fn inner_kind(k: Seq<char>) -> bool {
    ||| k == "declaration_list"@
    ||| k == "compound_statement"@
    ||| k == "block"@
    ||| k == "import_spec_list"@
}

/// Does a node of this kind hold what its container declares?
pub fn is_inner_kind(k: &str) -> (r: bool)
    ensures
        r == inner_kind(k@),
{
    text::same(k, "declaration_list")
        || text::same(k, "compound_statement")
        || text::same(k, "block")
        || text::same(k, "import_spec_list")
}

/// Does a node of this kind declare variables?
pub open spec fn variables_kind(k: Seq<char>) -> bool {
    ||| k == "lexical_declaration"@
    ||| k == "variable_declaration"@
}

/// Does a node of this kind declare variables?
pub fn is_variables_kind(k: &str) -> (r: bool)
    ensures
        r == variables_kind(k@),
{
    text::same(k, "lexical_declaration")
        || text::same(k, "variable_declaration")
}

/// For a kind that reaches for a member: the field that holds the object, and
/// the field that holds the member. An empty name stands for no field.
pub open spec fn member_text(k: Seq<char>) -> Option<(Seq<char>, Seq<char>)> {
    if k == "attribute"@ {
        Some(("object"@, "attribute"@))
    } else if k == "member_expression"@ {
        Some(("object"@, "property"@))
    } else if k == "selector_expression"@ {
        Some(("operand"@, "field"@))
    } else if k == "scoped_identifier"@ {
        Some(("path"@, "name"@))
    } else if k == "field_access"@ {
        Some(("object"@, "field"@))
    } else if k == "member_access_expression"@ {
        Some(("expression"@, "name"@))
    } else if k == "qualified_name"@ {
        Some(("qualifier"@, "name"@))
    } else if k == "scoped_call_expression"@ {
        Some(("scope"@, "name"@))
    } else if k == "class_constant_access_expression"@ {
        Some((""@, ""@))
    } else if k == "member_call_expression"@ {
        Some(("object"@, "name"@))
    } else if k == "scope_resolution"@ {
        Some(("scope"@, "name"@))
    } else if k == "qualified_identifier"@ {
        Some(("scope"@, "name"@))
    } else if k == "field_expression"@ {
        Some(("argument"@, "field"@))
    } else {
        None
    }
}

/// The texts of an optional pair of literals.
pub open spec fn opt_lits(o: Option<(&'static str, &'static str)>) -> Option<
    (Seq<char>, Seq<char>),
> {
    match o {
        Some((a, b)) => Some((a@, b@)),
        None => None,
    }
}

/// For a kind that reaches for a member: the field that holds the object, and
/// the field that holds the member.
pub fn member_fields(k: &str) -> (r: Option<(&'static str, &'static str)>)
    ensures
        opt_lits(r) == member_text(k@),
{
    if text::same(k, "attribute") {
        Some(("object", "attribute"))
    } else if text::same(k, "member_expression") {
        Some(("object", "property"))
    } else if text::same(k, "selector_expression") {
        Some(("operand", "field"))
    } else if text::same(k, "scoped_identifier") {
        Some(("path", "name"))
    } else if text::same(k, "field_access") {
        Some(("object", "field"))
    } else if text::same(k, "member_access_expression") {
        Some(("expression", "name"))
    } else if text::same(k, "qualified_name") {
        Some(("qualifier", "name"))
    } else if text::same(k, "scoped_call_expression") {
        Some(("scope", "name"))
    } else if text::same(k, "class_constant_access_expression") {
        Some(("", ""))
    } else if text::same(k, "member_call_expression") {
        Some(("object", "name"))
    } else if text::same(k, "scope_resolution") {
        Some(("scope", "name"))
    } else if text::same(k, "qualified_identifier") {
        Some(("scope", "name"))
    } else if text::same(k, "field_expression") {
        Some(("argument", "field"))
    } else {
        None
    }
}

} // verus!

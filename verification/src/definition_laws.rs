//! What the ops do to a definition: which one is meant, where a parameter
//! goes, what a rename reaches, and how a new body is fitted in.
use vstd::prelude::*;
use crate::tree;
use crate::text;
use crate::table;
use crate::edit;
use crate::bodies;
use crate::changes;
use crate::changes::{ChangeText, Family};
use crate::edit_laws;
use crate::tree::NodeText;

verus! {

// -------------------------------------------------------- which definition

/// Is the node a definition of the function, in the language's own words?
pub open spec fn is_definition(
    t: Seq<NodeText>,
    s: Seq<char>,
    f: Family,
    j: int,
    symbol: Seq<char>,
) -> bool {
    &&& match f {
        Family::Python => t[j].kind == "function_definition"@,
        Family::Ts => t[j].kind == "function_declaration"@ || t[j].kind == "method_definition"@
            || t[j].kind == "generator_function_declaration"@,
    }
    &&& exists|n: int|
        tree::field(t, j, "name"@) == Some(n) && tree::node_text(s, #[trigger] t[n]) == symbol
}

/// What is defined at a node, said by its kind and its name.
proof fn lemma_defined(
    t: Seq<NodeText>,
    s: Seq<char>,
    f: Family,
    symbol: Seq<char>,
    part: Seq<char>,
    j: int,
)
    ensures
        changes::defined_at(t, s, f, symbol, part, j) == (if is_definition(t, s, f, j, symbol) {
            tree::field(t, j, part)
        } else {
            None
        }),
{
    if let Some(n) = tree::field(t, j, "name"@) {
        assert(tree::node_text(s, t[n]) == tree::node_text(s, t[n]));
    }
}

/// The first definition of the function that has the part is the one that is
/// meant, and there is none where no definition has it.
pub proof fn law_the_first_definition_is_meant(
    t: Seq<NodeText>,
    s: Seq<char>,
    f: Family,
    symbol: Seq<char>,
    part: Seq<char>,
    from: int,
    j: int,
)
    requires
        0 <= from <= j <= t.len(),
        forall|i: int|
            from <= i < j ==> !(#[trigger] is_definition(t, s, f, i, symbol) && tree::field(
                t,
                i,
                part,
            ) is Some),
    ensures
        j == t.len() ==> changes::definition_from(t, s, f, symbol, part, from) is None,
        j < t.len() && is_definition(t, s, f, j, symbol) && tree::field(t, j, part) is Some
            ==> changes::definition_from(t, s, f, symbol, part, from) == Some(
            (j, tree::field(t, j, part)->0),
        ),
    decreases j - from,
{
    if from < t.len() {
        lemma_defined(t, s, f, symbol, part, from);
    }
    if from < j {
        assert(!(is_definition(t, s, f, from, symbol) && tree::field(t, from, part) is Some));
        law_the_first_definition_is_meant(t, s, f, symbol, part, from + 1, j);
    }
}

// -------------------------------------------------------------- parameters

/// A parameter is written as its name, its type behind a colon and its default
/// behind an equals sign, each where it has one.
pub proof fn law_a_parameter_is_written_so(
    name: Seq<char>,
    type_: Seq<char>,
    default: Seq<char>,
)
    ensures
        changes::param_text(name, None, None) == name,
        changes::param_text(name, Some(type_), None) == name + ": "@ + type_,
        changes::param_text(name, None, Some(default)) == name + " = "@ + default,
        changes::param_text(name, Some(type_), Some(default)) == name + ": "@ + type_ + " = "@
            + default,
{
    assert(name + (": "@ + type_) =~= name + ": "@ + type_);
    assert(name + (" = "@ + default) =~= name + " = "@ + default);
    assert(name + ": "@ + type_ + (" = "@ + default) =~= name + ": "@ + type_ + " = "@ + default);
}

/// Does the parameter at the node take all further arguments?
pub open spec fn is_splat(t: Seq<NodeText>, i: int) -> bool {
    ||| t[i].kind == "list_splat_pattern"@
    ||| t[i].kind == "dictionary_splat_pattern"@
    ||| t[i].kind == "keyword_separator"@
    ||| t[i].kind == "rest_pattern"@
}

/// Does the parameter at the node take all further arguments, with a type or
/// without?
pub open spec fn is_open_ended(t: Seq<NodeText>, i: int) -> bool {
    is_splat(t, i) || (t[i].kind == "typed_parameter"@ || t[i].kind == "required_parameter"@
        || t[i].kind == "optional_parameter"@) && tree::named_kids(t, i).len() > 0 && is_splat(
        t,
        tree::named_kids(t, i)[0],
    )
}

/// The first parameter that takes all further arguments is found.
proof fn lemma_rest(t: Seq<NodeText>, list: Seq<int>, k: nat, a: int)
    requires
        k <= a <= list.len(),
        forall|b: int| k <= b < a ==> !is_open_ended(t, #[trigger] list[b]),
    ensures
        a == list.len() ==> changes::rest_from(t, list, k) is None,
        a < list.len() && is_open_ended(t, list[a]) ==> changes::rest_from(t, list, k) == Some(
            list[a],
        ),
    decreases a - k,
{
    if k < a {
        assert(!is_open_ended(t, list[k as int]));
        lemma_rest(t, list, k + 1, a);
    }
}

/// A new parameter goes last, behind a comma where there are others; but
/// before the first one that takes all further arguments, with a comma behind
/// it.
pub proof fn law_a_new_parameter_goes_last(
    t: Seq<NodeText>,
    list: int,
    param: Seq<char>,
    a: int,
)
    requires
        0 <= a <= tree::named_kids(t, list).len(),
        forall|b: int| 0 <= b < a ==> !is_open_ended(t, #[trigger] tree::named_kids(t, list)[b]),
    ensures
        a == tree::named_kids(t, list).len() ==> {
            let c = changes::param_added(t, list, param);
            &&& edit_laws::goes_before_bracket(t, list, c)
            &&& a == 0 ==> c.text == param
            &&& a > 0 ==> c.text == ", "@ + param
        },
        a < tree::named_kids(t, list).len() && is_open_ended(t, tree::named_kids(t, list)[a]) ==> {
            let c = changes::param_added(t, list, param);
            &&& c.start == t[tree::named_kids(t, list)[a]].start
            &&& c.end == c.start
            &&& c.text == param + ", "@
        },
{
    lemma_rest(t, tree::named_kids(t, list), 0, a);
}

/// Does the parameter at the node have the name, whatever it wears: alone,
/// with a type, with a default?
pub open spec fn is_param(
    t: Seq<NodeText>,
    s: Seq<char>,
    f: Family,
    i: int,
    name: Seq<char>,
) -> bool {
    ||| t[i].kind == "identifier"@ && tree::node_text(s, t[i]) == name
    ||| f == Family::Python && t[i].kind == "typed_parameter"@ && tree::named_kids(t, i).len() > 0
        && tree::node_text(s, t[tree::named_kids(t, i)[0]]) == name
    ||| f == Family::Python && (t[i].kind == "default_parameter"@ || t[i].kind
        == "typed_default_parameter"@) && field_reads(t, s, i, "name"@, name)
    ||| f == Family::Ts && (t[i].kind == "required_parameter"@ || t[i].kind
        == "optional_parameter"@) && field_reads(t, s, i, "pattern"@, name)
}

/// Does the field of the node read so?
pub open spec fn field_reads(
    t: Seq<NodeText>,
    s: Seq<char>,
    i: int,
    field: Seq<char>,
    name: Seq<char>,
) -> bool {
    exists|k: int|
        tree::field(t, i, field) == Some(k) && tree::node_text(s, #[trigger] t[k]) == name
}

/// A parameter of the name declares it.
proof fn lemma_is_param(t: Seq<NodeText>, s: Seq<char>, f: Family, i: int, name: Seq<char>)
    ensures
        is_param(t, s, f, i, name) == (changes::param_named(t, s, f, i) == Some(name)),
{
    reveal_strlit("identifier");
    reveal_strlit("typed_parameter");
    reveal_strlit("default_parameter");
    reveal_strlit("typed_default_parameter");
    reveal_strlit("required_parameter");
    reveal_strlit("optional_parameter");
    assert("identifier"@.len() == 10 && "typed_parameter"@.len() == 15);
    assert("default_parameter"@.len() == 17 && "typed_default_parameter"@.len() == 23);
    assert("required_parameter"@.len() == 18 && "optional_parameter"@.len() == 18);
    if let Some(k) = tree::field(t, i, "name"@) {
        assert(tree::node_text(s, t[k]) == tree::node_text(s, t[k]));
    }
    if let Some(k) = tree::field(t, i, "pattern"@) {
        assert(tree::node_text(s, t[k]) == tree::node_text(s, t[k]));
    }
}

/// The place of a parameter is that of the first of its name.
pub proof fn law_a_parameter_is_found_by_its_name(
    t: Seq<NodeText>,
    s: Seq<char>,
    f: Family,
    list: Seq<int>,
    name: Seq<char>,
    k: nat,
    a: nat,
)
    requires
        k <= a <= list.len(),
        forall|b: int| k <= b < a ==> !is_param(t, s, f, #[trigger] list[b], name),
    ensures
        a == list.len() ==> changes::param_place(t, s, f, list, name, k) is None,
        a < list.len() && is_param(t, s, f, list[a as int], name) ==> changes::param_place(
            t,
            s,
            f,
            list,
            name,
            k,
        ) == Some(a),
    decreases a - k,
{
    if k < list.len() {
        lemma_is_param(t, s, f, list[k as int], name);
    }
    if k < a {
        assert(!is_param(t, s, f, list[k as int], name));
        law_a_parameter_is_found_by_its_name(t, s, f, list, name, k + 1, a);
    }
}

/// The first definition of the function is the one whose parameter goes,
/// where it has one of the name.
pub proof fn law_the_parameter_is_that_of_the_definition(
    t: Seq<NodeText>,
    s: Seq<char>,
    f: Family,
    symbol: Seq<char>,
    name: Seq<char>,
    from: int,
    j: int,
    list: int,
    a: nat,
)
    requires
        0 <= from <= j < t.len(),
        forall|i: int| from <= i < j ==> !#[trigger] is_definition(t, s, f, i, symbol),
        is_definition(t, s, f, j, symbol),
        tree::field(t, j, "parameters"@) == Some(list),
        a < tree::named_kids(t, list).len(),
        is_param(t, s, f, tree::named_kids(t, list)[a as int], name),
        forall|b: int|
            0 <= b < a ==> !is_param(t, s, f, #[trigger] tree::named_kids(t, list)[b], name),
    ensures
        changes::param_from(t, s, f, symbol, name, from) == Some((list, a)),
    decreases j - from,
{
    lemma_defined(t, s, f, symbol, "parameters"@, from);
    if from < j {
        assert(!is_definition(t, s, f, from, symbol));
        law_the_parameter_is_that_of_the_definition(
            t,
            s,
            f,
            symbol,
            name,
            from + 1,
            j,
            list,
            a,
        );
    } else {
        law_a_parameter_is_found_by_its_name(t, s, f, tree::named_kids(t, list), name, 0, a);
    }
}

// ----------------------------------------------------------------- renaming

/// Is the node an identifier, in the language's own words?
pub open spec fn is_identifier(t: Seq<NodeText>, f: Family, k: int) -> bool {
    ||| t[k].kind == "identifier"@
    ||| f == Family::Ts && (t[k].kind == "property_identifier"@ || t[k].kind
        == "shorthand_property_identifier"@)
}

/// A rename reaches every identifier that reads as the symbol: its text is
/// replaced by the new name.
pub proof fn law_a_rename_reaches_every_identifier(
    t: Seq<NodeText>,
    s: Seq<char>,
    f: Family,
    symbol: Seq<char>,
    new_name: Seq<char>,
    n: nat,
    k: int,
)
    requires
        0 <= k < n <= t.len(),
        is_identifier(t, f, k),
        tree::node_text(s, t[k]) == symbol,
    ensures
        edit::rename_changes(t, s, f, symbol, new_name, n).contains(
            (ChangeText { start: t[k].start, end: t[k].end, text: new_name }),
        ),
    decreases n,
{
    let c = ChangeText { start: t[k].start, end: t[k].end, text: new_name };
    let rest = edit::rename_changes(t, s, f, symbol, new_name, (n - 1) as nat);
    let all = edit::rename_changes(t, s, f, symbol, new_name, n);
    if k == n - 1 {
        assert(all[rest.len() as int] == c);
    } else {
        law_a_rename_reaches_every_identifier(t, s, f, symbol, new_name, (n - 1) as nat, k);
        let m = choose|m: int| 0 <= m < rest.len() && rest[m] == c;
        assert(all[m] == c);
    }
}

/// What a rename makes of the files, of one of them in particular.
proof fn lemma_renamed_file(
    files: Seq<(Seq<char>, Seq<char>)>,
    symbol: Seq<char>,
    new_name: Seq<char>,
    n: nat,
    i: int,
    f: Family,
    t: Seq<NodeText>,
)
    requires
        n <= files.len(),
        0 <= i < files.len(),
        table::ordered(table::keys(files)),
        changes::family(files[i].0) == Some(f),
        changes::tree_of(files[i].0, files[i].1) == Some(t),
        edit::rename_changes(t, files[i].1, f, symbol, new_name, t.len()).len() > 0,
    ensures
        edit::renamed_upto(files, symbol, new_name, n) matches Some(done) ==> {
            &&& table::ordered(table::keys(done.files))
            &&& i < n ==> changes::spliced(
                files[i].1,
                edit::rename_changes(t, files[i].1, f, symbol, new_name, t.len()),
            ) is Some
            &&& i < n ==> table::value(done.files, files[i].0) == changes::spliced(
                files[i].1,
                edit::rename_changes(t, files[i].1, f, symbol, new_name, t.len()),
            )
        },
    decreases n,
{
    if n > 0 {
        lemma_renamed_file(files, symbol, new_name, (n - 1) as nat, i, f, t);
        if let Some(done) = edit::renamed_upto(files, symbol, new_name, (n - 1) as nat) {
            let (path, s) = files[n - 1];
            if let (Some(g), Some(u)) = (changes::family(path), changes::tree_of(path, s)) {
                let v = edit::rename_changes(u, s, g, symbol, new_name, u.len());
                if v.len() > 0 {
                    if let Some(new) = changes::spliced(s, v) {
                        table::lemma_put(done.files, path, new);
                        if i != n - 1 {
                            edit_laws::lemma_keys_differ(files, i, n - 1);
                        }
                    }
                }
            }
        }
    }
}

/// A rename changes every given file that names the symbol: what the file
/// holds afterwards is what comes of replacing each of its identifiers that
/// read as the symbol. It is refused where no file names it.
pub proof fn law_a_rename_changes_every_file(
    files: Seq<(Seq<char>, Seq<char>)>,
    symbol: Seq<char>,
    new_name: Seq<char>,
    i: int,
    f: Family,
    t: Seq<NodeText>,
    k: int,
)
    requires
        table::ordered(table::keys(files)),
        0 <= i < files.len(),
        changes::family(files[i].0) == Some(f),
        changes::tree_of(files[i].0, files[i].1) == Some(t),
        0 <= k < t.len(),
        is_identifier(t, f, k),
        tree::node_text(files[i].1, t[k]) == symbol,
    ensures
        edit::rename_outcome(files, symbol, new_name) matches Some(r) ==> (r matches Ok(w)
            && table::value(w.files, files[i].0) == changes::spliced(
            files[i].1,
            edit::rename_changes(t, files[i].1, f, symbol, new_name, t.len()),
        ) && edit::rename_changes(t, files[i].1, f, symbol, new_name, t.len()).contains(
            (ChangeText { start: t[k].start, end: t[k].end, text: new_name }),
        )),
{
    let s = files[i].1;
    law_a_rename_reaches_every_identifier(t, s, f, symbol, new_name, t.len(), k);
    let v = edit::rename_changes(t, s, f, symbol, new_name, t.len());
    assert(v.len() > 0);
    lemma_renamed_file(files, symbol, new_name, files.len(), i, f, t);
    if let Some(done) = edit::renamed_upto(files, symbol, new_name, files.len()) {
        assert(done.files.len() > 0);
    }
}

// ---------------------------------------------------------- the definition

/// Adding a parameter changes the definition first: the one edit of the
/// defining file that comes before any call is the one that puts the
/// parameter, as it is written, where a new parameter goes.
pub proof fn law_add_param_changes_the_definition(
    def_path: Seq<char>,
    symbol: Seq<char>,
    name: Seq<char>,
    type_: Option<Seq<char>>,
    default: Option<Seq<char>>,
    call_arg: Option<Seq<char>>,
    files: Seq<(Seq<char>, Seq<char>)>,
    f: Family,
    s: Seq<char>,
    t: Seq<NodeText>,
    j: int,
    list: int,
)
    requires
        table::ordered(table::keys(files)),
        changes::family(def_path) == Some(f),
        table::value(files, def_path) == Some(s),
        changes::tree_of(def_path, s) == Some(t),
        0 <= j < t.len(),
        is_definition(t, s, f, j, symbol),
        tree::field(t, j, "parameters"@) == Some(list),
        forall|i: int|
            0 <= i < j ==> !(#[trigger] is_definition(t, s, f, i, symbol) && tree::field(
                t,
                i,
                "parameters"@,
            ) is Some),
    ensures
        edit::add_outcome(files, def_path, symbol, name, type_, default, call_arg) matches Some(r)
            ==> (r matches Ok(w) && w.layers.len() > 0 && w.layers[0].path == def_path
            && w.layers[0].content == s && w.layers[0].changes == changes::ranked(
            seq![changes::param_added(t, list, changes::param_text(name, type_, default))],
        )),
{
    law_the_first_definition_is_meant(t, s, f, symbol, "parameters"@, 0, j);
    let d = changes::param_added(t, list, changes::param_text(name, type_, default));
    if let Some(start) = edit::edited(def_path, s, d) {
        let wish = match call_arg {
            Some(arg) => edit::WishText::PassNamed { name, arg },
            None => edit::WishText::Tell,
        };
        edit_laws::lemma_edited_alone(def_path, s, d);
        edit_laws::lemma_layers_stay(
            start,
            files,
            f,
            def_path,
            symbol,
            Seq::empty(),
            wish,
            files.len(),
        );
    }
}

/// Replacing a body replaces the whole of the body that the definition has,
/// and nothing else, by the new one fitted in; a blank body is refused.
pub proof fn law_replace_body_replaces_the_body(
    def_path: Seq<char>,
    symbol: Seq<char>,
    body: Seq<char>,
    files: Seq<(Seq<char>, Seq<char>)>,
    f: Family,
    s: Seq<char>,
    t: Seq<NodeText>,
    j: int,
    block: int,
    a: nat,
    b: nat,
    e: nat,
)
    requires
        changes::family(def_path) == Some(f),
        table::value(files, def_path) == Some(s),
        changes::tree_of(def_path, s) == Some(t),
        0 <= j < t.len(),
        is_definition(t, s, f, j, symbol),
        tree::field(t, j, "body"@) == Some(block),
        forall|i: int|
            0 <= i < j ==> !(#[trigger] is_definition(t, s, f, i, symbol) && tree::field(
                t,
                i,
                "body"@,
            ) is Some),
        text::char_pos(s, t[j].start) == Some(a),
        text::char_pos(s, t[block].start) == Some(b),
        text::char_pos(s, t[block].end) == Some(e),
        t[block].start <= t[block].end,
    ensures
        text::trimmed(body).len() == 0 ==> (edit::body_outcome(
            files,
            def_path,
            symbol,
            body,
        ) matches Some(r) && r is Err),
        text::trimmed(body).len() > 0 ==> (edit::body_outcome(
            files,
            def_path,
            symbol,
            body,
        ) matches Some(Ok(w)) && table::value(w.files, def_path) == Some(
            s.take(b as int) + bodies::fitted(s, f, a as int, b as int, body) + s.skip(e as int),
        ) && w.files.len() == 1),
{
    law_the_first_definition_is_meant(t, s, f, symbol, "body"@, 0, j);
    let c = ChangeText {
        start: t[block].start,
        end: t[block].end,
        text: bodies::fitted(s, f, a as int, b as int, body),
    };
    edit_laws::law_a_single_change_is_made(s, c, b, e);
    edit_laws::lemma_edited_alone(def_path, s, c);
}

// ----------------------------------------------------------------- refusals

/// Each op on a definition is refused with what is wrong: a file without typed
/// edits, one that was not given, a symbol that it does not define, a
/// parameter that the symbol does not have.
pub proof fn law_refusals_say_what_is_wrong(
    files: Seq<(Seq<char>, Seq<char>)>,
    def_path: Seq<char>,
    symbol: Seq<char>,
    name: Seq<char>,
)
    ensures
        changes::family(def_path) is None ==> edit::remove_outcome(files, def_path, symbol, name)
            == Some(
            Err::<edit::WorkText, Seq<char>>(
                def_path + ": language not supported for typed edits"@,
            ),
        ),
        changes::family(def_path) is Some && table::value(files, def_path) is None
            ==> edit::remove_outcome(files, def_path, symbol, name) == Some(
            Err::<edit::WorkText, Seq<char>>(def_path + " is not among the given files"@),
        ),
        (changes::family(def_path) matches Some(f) && table::value(files, def_path) matches Some(s)
            && changes::tree_of(def_path, s) matches Some(t) && changes::param_from(
            t,
            s,
            f,
            symbol,
            name,
            0,
        ) is None) ==> edit::remove_outcome(files, def_path, symbol, name) == Some(
            Err::<edit::WorkText, Seq<char>>(
                symbol + " in "@ + def_path + " has no parameter "@ + name,
            ),
        ),
{
}

/// A definition that is not there takes no parameter.
pub proof fn law_what_is_not_defined_takes_no_parameter(
    files: Seq<(Seq<char>, Seq<char>)>,
    def_path: Seq<char>,
    symbol: Seq<char>,
    name: Seq<char>,
    type_: Option<Seq<char>>,
    default: Option<Seq<char>>,
    call_arg: Option<Seq<char>>,
    f: Family,
    s: Seq<char>,
    t: Seq<NodeText>,
)
    requires
        changes::family(def_path) == Some(f),
        table::value(files, def_path) == Some(s),
        changes::tree_of(def_path, s) == Some(t),
        forall|i: int| 0 <= i < t.len() ==> !#[trigger] is_definition(t, s, f, i, symbol),
    ensures
        edit::add_outcome(files, def_path, symbol, name, type_, default, call_arg) == Some(
            Err::<edit::WorkText, Seq<char>>(symbol + " is not defined in "@ + def_path),
        ),
{
    law_the_first_definition_is_meant(t, s, f, symbol, "parameters"@, 0, t.len() as int);
}

/// An edit of a file whose name ends so is one of Python or of a script; other
/// languages have no typed edits.
pub proof fn law_families_go_by_language(path: Seq<char>)
    ensures
        match crate::langs::lang_of_ext(crate::engine::extension(path)) {
            None => changes::family(path) is None,
            Some(l) => {
                &&& l.name == "python"@ ==> changes::family(path) == Some(Family::Python)
                &&& l.name == "typescript"@ || l.name == "tsx"@ || l.name == "javascript"@
                    ==> changes::family(path) == Some(Family::Ts)
                &&& l.name != "python"@ && l.name != "typescript"@ && l.name != "tsx"@ && l.name
                    != "javascript"@ ==> changes::family(path) is None
            },
        },
{
    reveal_strlit("python");
    reveal_strlit("typescript");
    reveal_strlit("tsx");
    reveal_strlit("javascript");
    assert("python"@.len() == 6 && "typescript"@.len() == 10 && "tsx"@.len() == 3
        && "javascript"@.len() == 10);
}

} // verus!

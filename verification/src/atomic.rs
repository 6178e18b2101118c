//! Write-then-rename, because every reader here is another agent.
//!
//! Records are read by processes we do not control, at moments we do not
//! choose. A half-written file is a parse error in somebody else's session,
//! so nothing is ever written in place: a temporary file in the same
//! directory takes the bytes, and the rename publishes them in one step.
use vstd::prelude::*;
use crate::text;

verus! {

/// The name of the temporary file for a file, at a moment. A path without a
/// file name counts as one named blast.
pub open spec fn temp_text(file: Option<Seq<char>>, stamp: Seq<char>) -> Seq<char> {
    let name = match file {
        Some(n) => n,
        None => "blast"@,
    };
    "."@ + name + "."@ + stamp + ".tmp"@
}

/// The name of the temporary file for a file, at a moment.
pub fn temp_name(file: &Option<String>, stamp: &str) -> (r: String)
    ensures
        r@ == temp_text(text::opt_text(*file), stamp@),
{
    match file {
        Some(name) => text::cat5(".", name.as_str(), ".", stamp, ".tmp"),
        None => text::cat5(".", "blast", ".", stamp, ".tmp"),
    }
}

/// The extension of a file name: what follows its last dot, where something
/// stands before that dot.
pub open spec fn extension(name: Seq<char>) -> Option<Seq<char>> {
    match text::cut_last(name, '.') {
        Some((stem, ext)) => if stem.len() > 0 && name != ".."@ {
            Some(ext)
        } else {
            None
        },
        None => None,
    }
}

/// Is a file of this name a record?
pub fn is_record(name: &str) -> (r: bool)
    ensures
        r == (extension(name@) == Some("json"@)),
{
    match text::rsplit_once(name, '.') {
        Some((stem, ext)) => text::chars(stem.as_str()).len() > 0 && !text::same(name, "..") && text::same(
            ext.as_str(),
            "json",
        ),
        None => false,
    }
}

/// The extension of a name that ends in a dot and an extension without dots.
proof fn lemma_extension(name: Seq<char>, stem: Seq<char>, ext: Seq<char>)
    requires
        name == stem + seq!['.'] + ext,
        stem.len() > 0,
        ext.len() > 0,
        forall|i: int| 0 <= i < ext.len() ==> #[trigger] ext[i] != '.',
    ensures
        extension(name) == Some(ext),
{
    let at = stem.len() as int;
    assert(name[at] == '.');
    text::lemma_last_below(name, '.', name.len() as int);
    let found = text::last_of(name, '.');
    assert(found is Some);
    let k = found->0;
    if k > at {
        assert(name[k] == ext[k - at - 1]);
    }
    assert(name.subrange(at + 1, name.len() as int) =~= ext);
    assert(name.take(at) =~= stem);
    reveal_strlit("..");
    if name == ".."@ {
        assert(name.last() == ext.last());
    }
}

/// A file that is being written is no record: no reader looks at it.
pub proof fn law_a_temporary_file_is_no_record(file: Option<Seq<char>>, stamp: Seq<char>)
    ensures
        extension(temp_text(file, stamp)) != Some("json"@),
{
    let name = match file {
        Some(n) => n,
        None => "blast"@,
    };
    let stem = "."@ + name + "."@ + stamp;
    reveal_strlit("tmp");
    reveal_strlit(".tmp");
    reveal_strlit("json");
    reveal_strlit(".");
    assert(".tmp"@ =~= seq!['.'] + "tmp"@);
    assert(temp_text(file, stamp) =~= stem + seq!['.'] + "tmp"@);
    lemma_extension(temp_text(file, stamp), stem, "tmp"@);
    assert("tmp"@.len() != "json"@.len());
}

/// Every agent's record is one.
pub proof fn law_a_record_is_found(agent: Seq<char>)
    requires
        agent.len() > 0,
    ensures
        extension(agent + ".json"@) == Some("json"@),
{
    reveal_strlit("json");
    reveal_strlit(".json");
    assert(".json"@ =~= seq!['.'] + "json"@);
    assert(agent + ".json"@ =~= agent + seq!['.'] + "json"@);
    lemma_extension(agent + ".json"@, agent, "json"@);
}

} // verus!

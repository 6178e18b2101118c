//! Which language takes a file.
use vstd::prelude::*;
use crate::text;
use crate::langs;

verus! {

/// The name of the language that takes files with the extension.
pub open spec fn language_of(ext: Seq<char>) -> Option<Seq<char>> {
    match langs::lang_of_ext(ext) {
        Some(l) => Some(l.name),
        None => None,
    }
}

/// The first entry that takes the extension is found.
proof fn lemma_found(ext: Seq<char>, i: nat, k: int)
    requires
        i <= k < langs::lang_table().len(),
        text::listed(langs::lang_table()[k].exts, ext),
        forall|j: int| i <= j < k ==> !text::listed((#[trigger] langs::lang_table()[j]).exts, ext),
    ensures
        langs::lang_from(langs::lang_table(), ext, i) == Some(langs::lang_table()[k]),
    decreases k - i,
{
    if i < k {
        assert(!text::listed(langs::lang_table()[i as int].exts, ext));
        lemma_found(ext, i + 1, k);
    }
}

/// Is the extension spelled otherwise than the others?
spec fn is_none_of(ext: Seq<char>, list: Seq<Seq<char>>) -> bool {
    forall|i: int| 0 <= i < list.len() ==> #[trigger] list[i] != ext
}

/// An extension of the list at place `k` of the table, that none of the lists
/// before has, tells the language there.
proof fn lemma_told(ext: Seq<char>, k: int, m: int)
    requires
        0 <= k < 12,
        0 <= m < langs::lang_table()[k].exts.len(),
        langs::lang_table()[k].exts[m] == ext,
        forall|j: int| 0 <= j < k ==> is_none_of(ext, (#[trigger] langs::lang_table()[j]).exts),
    ensures
        language_of(ext) == Some(langs::lang_table()[k].name),
{
    assert forall|j: int| 0 <= j < k implies !text::listed(
        (#[trigger] langs::lang_table()[j]).exts,
        ext,
    ) by {
        assert(is_none_of(ext, langs::lang_table()[j].exts));
    }
    lemma_found(ext, 0, k);
}

/// The extensions are told apart by their spelling.
proof fn lemma_spellings()
    ensures
        ".py"@ =~= seq!['.', 'p', 'y'],
        ".pyi"@ =~= seq!['.', 'p', 'y', 'i'],
        ".ts"@ =~= seq!['.', 't', 's'],
        ".mts"@ =~= seq!['.', 'm', 't', 's'],
        ".cts"@ =~= seq!['.', 'c', 't', 's'],
        ".tsx"@ =~= seq!['.', 't', 's', 'x'],
        ".js"@ =~= seq!['.', 'j', 's'],
        ".jsx"@ =~= seq!['.', 'j', 's', 'x'],
        ".mjs"@ =~= seq!['.', 'm', 'j', 's'],
        ".cjs"@ =~= seq!['.', 'c', 'j', 's'],
        ".go"@ =~= seq!['.', 'g', 'o'],
        ".rs"@ =~= seq!['.', 'r', 's'],
        ".java"@ =~= seq!['.', 'j', 'a', 'v', 'a'],
        ".cs"@ =~= seq!['.', 'c', 's'],
        ".rb"@ =~= seq!['.', 'r', 'b'],
        ".c"@ =~= seq!['.', 'c'],
        ".h"@ =~= seq!['.', 'h'],
        ".cpp"@ =~= seq!['.', 'c', 'p', 'p'],
        ".hpp"@ =~= seq!['.', 'h', 'p', 'p'],
        ".php"@ =~= seq!['.', 'p', 'h', 'p'],
        ".cc"@ =~= seq!['.', 'c', 'c'],
        ".cxx"@ =~= seq!['.', 'c', 'x', 'x'],
        ".hh"@ =~= seq!['.', 'h', 'h'],
        ".hxx"@ =~= seq!['.', 'h', 'x', 'x'],
{
    reveal_strlit(".py");
    reveal_strlit(".pyi");
    reveal_strlit(".ts");
    reveal_strlit(".mts");
    reveal_strlit(".cts");
    reveal_strlit(".tsx");
    reveal_strlit(".js");
    reveal_strlit(".jsx");
    reveal_strlit(".mjs");
    reveal_strlit(".cjs");
    reveal_strlit(".go");
    reveal_strlit(".rs");
    reveal_strlit(".java");
    reveal_strlit(".cs");
    reveal_strlit(".rb");
    reveal_strlit(".c");
    reveal_strlit(".h");
    reveal_strlit(".cpp");
    reveal_strlit(".hpp");
    reveal_strlit(".php");
    reveal_strlit(".cc");
    reveal_strlit(".cxx");
    reveal_strlit(".hh");
    reveal_strlit(".hxx");
}

/// The files of Python, of the script languages and of Go tell their language
/// by their extension.
pub proof fn law_scripts_tell_their_language()
    ensures
        language_of(".py"@) == Some("python"@),
        language_of(".pyi"@) == Some("python"@),
        language_of(".ts"@) == Some("typescript"@),
        language_of(".mts"@) == Some("typescript"@),
        language_of(".cts"@) == Some("typescript"@),
        language_of(".tsx"@) == Some("tsx"@),
        language_of(".js"@) == Some("javascript"@),
        language_of(".jsx"@) == Some("javascript"@),
        language_of(".mjs"@) == Some("javascript"@),
        language_of(".cjs"@) == Some("javascript"@),
        language_of(".go"@) == Some("go"@),
{
    lemma_spellings();
    let t = langs::lang_table();
    assert(t[0].exts == seq![".py"@, ".pyi"@] && t[0].name == "python"@);
    assert(t[1].exts == seq![".ts"@, ".mts"@, ".cts"@] && t[1].name == "typescript"@);
    assert(t[2].exts == seq![".tsx"@] && t[2].name == "tsx"@);
    assert(t[3].exts == seq![".js"@, ".jsx"@, ".mjs"@, ".cjs"@] && t[3].name == "javascript"@);
    assert(t[4].exts == seq![".go"@] && t[4].name == "go"@);
    lemma_told(".py"@, 0, 0);
    lemma_told(".pyi"@, 0, 1);
    assert forall|a: Seq<char>| a.len() > 1 && #[trigger] a[1] != 'p' implies is_none_of(
        a,
        t[0].exts,
    ) by {}
    assert(".ts"@[1] == 't' && ".mts"@[1] == 'm' && ".cts"@[1] == 'c' && ".tsx"@[1] == 't');
    assert(".js"@[1] == 'j' && ".jsx"@[1] == 'j' && ".mjs"@[1] == 'm' && ".cjs"@[1] == 'c');
    assert(".go"@[1] == 'g');
    lemma_told(".ts"@, 1, 0);
    lemma_told(".mts"@, 1, 1);
    lemma_told(".cts"@, 1, 2);
    assert(is_none_of(".tsx"@, t[1].exts)) by {
        assert(".tsx"@.last() == 'x');
    }
    lemma_told(".tsx"@, 2, 0);
    assert(is_none_of(".js"@, t[1].exts) && is_none_of(".js"@, t[2].exts)) by {
        assert(".js"@[1] == 'j');
    }
    lemma_told(".js"@, 3, 0);
    assert(is_none_of(".jsx"@, t[1].exts) && is_none_of(".jsx"@, t[2].exts)) by {
        assert(".jsx"@[1] == 'j');
    }
    lemma_told(".jsx"@, 3, 1);
    assert(is_none_of(".mjs"@, t[1].exts) && is_none_of(".mjs"@, t[2].exts)) by {
        assert(".mjs"@[2] == 'j' && ".mts"@[2] == 't' && ".cts"@[2] == 't');
    }
    lemma_told(".mjs"@, 3, 2);
    assert(is_none_of(".cjs"@, t[1].exts) && is_none_of(".cjs"@, t[2].exts)) by {
        assert(".cjs"@[2] == 'j' && ".mts"@[2] == 't' && ".cts"@[2] == 't');
    }
    lemma_told(".cjs"@, 3, 3);
    assert(is_none_of(".go"@, t[1].exts) && is_none_of(".go"@, t[2].exts) && is_none_of(
        ".go"@,
        t[3].exts,
    )) by {
        assert(".go"@[1] == 'g');
    }
    lemma_told(".go"@, 4, 0);
}

/// The files of Rust, Java, C# and Ruby tell their language by their
/// extension.
pub proof fn law_other_files_tell_their_language()
    ensures
        language_of(".rs"@) == Some("rust"@),
        language_of(".java"@) == Some("java"@),
        language_of(".cs"@) == Some("c_sharp"@),
        language_of(".rb"@) == Some("ruby"@),
{
    lemma_spellings();
    let t = langs::lang_table();
    assert(t[0].exts == seq![".py"@, ".pyi"@]);
    assert(t[1].exts == seq![".ts"@, ".mts"@, ".cts"@]);
    assert(t[2].exts == seq![".tsx"@]);
    assert(t[3].exts == seq![".js"@, ".jsx"@, ".mjs"@, ".cjs"@]);
    assert(t[4].exts == seq![".go"@]);
    assert(t[5].exts == seq![".rs"@] && t[5].name == "rust"@);
    assert(t[6].exts == seq![".java"@] && t[6].name == "java"@);
    assert(t[7].exts == seq![".cs"@] && t[7].name == "c_sharp"@);
    assert(t[8].exts == seq![".rb"@] && t[8].name == "ruby"@);
    assert forall|j: int| 0 <= j < 5 implies is_none_of(".rs"@, (#[trigger] t[j]).exts) by {
        assert(".rs"@[1] == 'r');
        assert(j == 0 || j == 1 || j == 2 || j == 3 || j == 4);
    }
    lemma_told(".rs"@, 5, 0);
    assert forall|j: int| 0 <= j < 6 implies is_none_of(".java"@, (#[trigger] t[j]).exts) by {
        assert(".java"@.len() == 5);
        assert(j == 0 || j == 1 || j == 2 || j == 3 || j == 4 || j == 5);
    }
    lemma_told(".java"@, 6, 0);
    assert forall|j: int| 0 <= j < 7 implies is_none_of(".cs"@, (#[trigger] t[j]).exts) by {
        assert(".cs"@.len() == 3 && ".cs"@[1] == 'c');
        assert(j == 0 || j == 1 || j == 2 || j == 3 || j == 4 || j == 5 || j == 6);
    }
    lemma_told(".cs"@, 7, 0);
    assert forall|j: int| 0 <= j < 8 implies is_none_of(".rb"@, (#[trigger] t[j]).exts) by {
        assert(".rb"@.len() == 3 && ".rb"@[1] == 'r' && ".rb"@[2] == 'b');
        assert(j == 0 || j == 1 || j == 2 || j == 3 || j == 4 || j == 5 || j == 6 || j == 7);
    }
    lemma_told(".rb"@, 8, 0);
}

/// The files of C, C++ and PHP tell their language by their extension.
pub proof fn law_headers_tell_their_language()
    ensures
        language_of(".c"@) == Some("c"@),
        language_of(".h"@) == Some("c"@),
        language_of(".cc"@) == Some("cpp"@),
        language_of(".cpp"@) == Some("cpp"@),
        language_of(".hpp"@) == Some("cpp"@),
        language_of(".php"@) == Some("php"@),
{
    lemma_spellings();
    let t = langs::lang_table();
    assert(t[0].exts == seq![".py"@, ".pyi"@]);
    assert(t[1].exts == seq![".ts"@, ".mts"@, ".cts"@]);
    assert(t[2].exts == seq![".tsx"@]);
    assert(t[3].exts == seq![".js"@, ".jsx"@, ".mjs"@, ".cjs"@]);
    assert(t[4].exts == seq![".go"@]);
    assert(t[5].exts == seq![".rs"@]);
    assert(t[6].exts == seq![".java"@]);
    assert(t[7].exts == seq![".cs"@]);
    assert(t[8].exts == seq![".rb"@]);
    assert(t[9].exts == seq![".c"@, ".h"@] && t[9].name == "c"@);
    assert(t[10].exts == seq![".cc"@, ".cpp"@, ".cxx"@, ".hpp"@, ".hh"@, ".hxx"@] && t[10].name
        == "cpp"@);
    assert(t[11].exts == seq![".php"@] && t[11].name == "php"@);
    lemma_not_before(".c"@, 9);
    lemma_told(".c"@, 9, 0);
    lemma_not_before(".h"@, 9);
    lemma_told(".h"@, 9, 1);
    lemma_not_before(".cc"@, 10);
    lemma_told(".cc"@, 10, 0);
    lemma_not_before(".cpp"@, 10);
    lemma_told(".cpp"@, 10, 1);
    lemma_not_before(".hpp"@, 10);
    lemma_told(".hpp"@, 10, 3);
    lemma_not_before(".php"@, 11);
    lemma_told(".php"@, 11, 0);
}

/// An extension that ends in a `c`, an `h` or a `p` is none of those before.
proof fn lemma_not_before(ext: Seq<char>, k: int)
    requires
        k == 9 && (ext == ".c"@ || ext == ".h"@) || k == 10 && (ext == ".cc"@ || ext == ".cpp"@
            || ext == ".hpp"@) || k == 11 && ext == ".php"@,
    ensures
        forall|j: int| 0 <= j < k ==> is_none_of(ext, (#[trigger] langs::lang_table()[j]).exts),
{
    lemma_spellings();
    let t = langs::lang_table();
    let z = ext.last();
    assert(z == 'c' || z == 'h' || z == 'p');
    assert(".py"@.last() == 'y' && ".pyi"@.last() == 'i' && ".ts"@.last() == 's');
    assert(".mts"@.last() == 's' && ".cts"@.last() == 's' && ".tsx"@.last() == 'x');
    assert(".js"@.last() == 's' && ".jsx"@.last() == 'x' && ".mjs"@.last() == 's');
    assert(".cjs"@.last() == 's' && ".go"@.last() == 'o' && ".rs"@.last() == 's');
    assert(".java"@.last() == 'a' && ".cs"@.last() == 's' && ".rb"@.last() == 'b');
    assert forall|j: int| 0 <= j < k implies is_none_of(ext, (#[trigger] t[j]).exts) by {
        if j == 0 {
            assert(t[0].exts == seq![".py"@, ".pyi"@]);
        } else if j == 1 {
            assert(t[1].exts == seq![".ts"@, ".mts"@, ".cts"@]);
        } else if j == 2 {
            assert(t[2].exts == seq![".tsx"@]);
        } else if j == 3 {
            assert(t[3].exts == seq![".js"@, ".jsx"@, ".mjs"@, ".cjs"@]);
        } else if j == 4 {
            assert(t[4].exts == seq![".go"@]);
        } else if j == 5 {
            assert(t[5].exts == seq![".rs"@]);
        } else if j == 6 {
            assert(t[6].exts == seq![".java"@]);
        } else if j == 7 {
            assert(t[7].exts == seq![".cs"@]);
        } else if j == 8 {
            assert(t[8].exts == seq![".rb"@]);
        } else if j == 9 {
            assert(t[9].exts == seq![".c"@, ".h"@]);
            assert(ext.len() > 2 && ".c"@.len() == 2 && ".h"@.len() == 2);
        } else {
            assert(j == 10);
            assert(t[10].exts == seq![".cc"@, ".cpp"@, ".cxx"@, ".hpp"@, ".hh"@, ".hxx"@]);
            assert(ext[1] == 'p' && ".cc"@[1] == 'c' && ".cpp"@[1] == 'c' && ".cxx"@[1] == 'c');
            assert(".hpp"@[1] == 'h' && ".hh"@[1] == 'h' && ".hxx"@[1] == 'h');
        }
    }
}

} // verus!

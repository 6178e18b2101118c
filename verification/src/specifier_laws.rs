//! Which file a relative specifier names, as an edit looks for calls.
use vstd::prelude::*;
use crate::text;
use crate::changes;
use crate::module_laws;
use crate::text_laws;

verus! {

/// The steps of plain segments around one that stays, or one that is gone down
/// and up again, are the plain ones.
proof fn lemma_steps(
    above: Seq<Seq<char>>,
    step: Seq<Seq<char>>,
    below: Seq<Seq<char>>,
    n: nat,
)
    requires
        forall|i: int| 0 <= i < above.len() ==> module_laws::is_plain_part(#[trigger] above[i]),
        forall|i: int| 0 <= i < below.len() ==> module_laws::is_plain_part(#[trigger] below[i]),
        n <= below.len(),
        step == seq!["."@] || step.len() == 2 && module_laws::is_plain_part(step[0]) && step[1]
            == ".."@,
    ensures
        changes::steps_upto(above + step + below, above.len() + step.len() + n) == above
            + below.take(n as int),
    decreases n,
{
    let all = above + step + below;
    reveal_strlit(".");
    reveal_strlit("..");
    assert("."@.len() == 1 && ".."@.len() == 2);
    let m = above.len();
    if n == 0 {
        assert forall|i: int| 0 <= i < m implies module_laws::is_plain_part(#[trigger] all[i]) by {
            assert(all[i] == above[i]);
        }
        lemma_steps_plain(all, m);
        assert(all.take(m as int) =~= above);
        if step.len() == 1 {
            assert(all[m as int] == "."@);
            assert(changes::steps_upto(all, m + 1) == above);
        } else {
            assert(all[m as int] == step[0]);
            assert(all[m as int + 1] == ".."@);
            assert(changes::steps_upto(all, m + 1) == above.push(step[0]));
            assert(above.push(step[0]).drop_last() =~= above);
            assert(changes::steps_upto(all, m + 2) == above);
        }
        assert(above + below.take(0) =~= above);
    } else {
        lemma_steps(above, step, below, (n - 1) as nat);
        assert(all[m + step.len() + n - 1] == below[n - 1]);
        assert(module_laws::is_plain_part(below[n - 1]));
        assert((above + below.take(n - 1)).push(below[n - 1]) =~= above + below.take(n as int));
    }
}

/// Plain segments are followed one by one.
proof fn lemma_steps_plain(parts: Seq<Seq<char>>, n: nat)
    requires
        n <= parts.len(),
        forall|i: int| 0 <= i < n ==> module_laws::is_plain_part(#[trigger] parts[i]),
    ensures
        changes::steps_upto(parts, n) == parts.take(n as int),
    decreases n,
{
    if n == 0 {
        assert(parts.take(0) =~= Seq::<Seq<char>>::empty());
    } else {
        lemma_steps_plain(parts, (n - 1) as nat);
        assert(module_laws::is_plain_part(parts[n - 1]));
        assert(parts.take(n as int) =~= parts.take(n - 1).push(parts[n - 1]));
    }
}

/// A path with its extension has the rest for its stem, and its directory
/// before its last slash.
proof fn lemma_cuts(dir: Seq<char>, file: Seq<char>, stem: Seq<char>, ext: Seq<char>)
    requires
        !file.contains('/'),
        !ext.contains('.'),
    ensures
        changes::parent_dir(dir + seq!['/'] + file) == dir,
        changes::stem(stem + seq!['.'] + ext) == stem,
{
    let path = dir + seq!['/'] + file;
    let at = dir.len() as int;
    text::lemma_last_below(path, '/', path.len() as int);
    assert(path[at] == '/');
    assert forall|k: int| at < k < path.len() implies path[k] != '/' by {
        assert(path[k] == file[k - at - 1]);
    }
    assert(path.take(at) =~= dir);
    let whole = stem + seq!['.'] + ext;
    let dot = stem.len() as int;
    text::lemma_last_below(whole, '.', whole.len() as int);
    assert(whole[dot] == '.');
    assert forall|k: int| dot < k < whole.len() implies whole[k] != '.' by {
        assert(whole[k] == ext[k - dot - 1]);
    }
    assert(whole.take(dot) =~= stem);
}

/// A specifier with a dot and a slash names the file of that name beside the
/// importing one, whatever its extension.
pub proof fn law_a_relative_specifier_names_the_file_beside(
    dir: Seq<char>,
    file: Seq<char>,
    name: Seq<char>,
    ext: Seq<char>,
)
    requires
        module_laws::is_plain(dir),
        !file.contains('/'),
        module_laws::is_plain_part(name),
        !ext.contains('.'),
    ensures
        changes::names_module(
            dir + seq!['/'] + name + seq!['.'] + ext,
            dir + seq!['/'] + file,
            seq!['.', '/'] + name,
        ),
{
    let module = seq!['.', '/'] + name;
    let stem = dir + seq!['/'] + name;
    lemma_cuts(dir, file, stem, ext);
    reveal_strlit(".");
    reveal_strlit("./");
    reveal_strlit("/");
    assert("/"@ =~= seq!['/']);
    assert(!"."@.contains('/'));
    assert(module.take(2) =~= "./"@);
    let a = text::split_on(dir, '/');
    module_laws::lemma_plain_part(name);
    module_laws::lemma_plain_both(dir, name);
    let b = text::split_on(name, '/');
    let p = dir + seq!['/'] + "."@;
    let full = p + seq!['/'] + name;
    text::lemma_split_both(dir, '/', "."@);
    text::lemma_split_both(p, '/', name);
    text_laws::lemma_split_whole("."@, '/');
    assert(full =~= dir + "/"@ + module);
    lemma_steps(a, seq!["."@], b, b.len());
    assert(b.take(b.len() as int) =~= b);
    text_laws::law_joining_undoes_splitting(stem, '/');
    assert(changes::followed(full) == stem);
}

/// A specifier with two dots and a slash names the file of that name in the
/// directory above the importing one.
pub proof fn law_a_relative_specifier_names_the_file_above(
    dir: Seq<char>,
    sub: Seq<char>,
    file: Seq<char>,
    name: Seq<char>,
    ext: Seq<char>,
)
    requires
        module_laws::is_plain(dir),
        module_laws::is_plain_part(sub),
        !file.contains('/'),
        module_laws::is_plain_part(name),
        !ext.contains('.'),
    ensures
        changes::names_module(
            dir + seq!['/'] + name + seq!['.'] + ext,
            dir + seq!['/'] + sub + seq!['/'] + file,
            seq!['.', '.', '/'] + name,
        ),
{
    let module = seq!['.', '.', '/'] + name;
    let stem = dir + seq!['/'] + name;
    let here = dir + seq!['/'] + sub;
    lemma_cuts(here, file, stem, ext);
    reveal_strlit("..");
    reveal_strlit("../");
    reveal_strlit("/");
    assert("/"@ =~= seq!['/']);
    assert(!".."@.contains('/'));
    assert(module.take(3) =~= "../"@);
    let a = text::split_on(dir, '/');
    module_laws::lemma_plain_part(name);
    module_laws::lemma_plain_part(sub);
    module_laws::lemma_plain_both(dir, name);
    let b = text::split_on(name, '/');
    let r = here + seq!['/'] + ".."@;
    let full = r + seq!['/'] + name;
    text::lemma_split_both(dir, '/', sub);
    text::lemma_split_both(here, '/', ".."@);
    text::lemma_split_both(r, '/', name);
    text_laws::lemma_split_whole(".."@, '/');
    assert(full =~= here + "/"@ + module);
    lemma_steps(a, seq![sub, ".."@], b, b.len());
    assert(a + seq![sub] + seq![".."@] + b =~= a + seq![sub, ".."@] + b);
    assert(b.take(b.len() as int) =~= b);
    text_laws::law_joining_undoes_splitting(stem, '/');
    assert(changes::followed(full) == stem);
}

} // verus!

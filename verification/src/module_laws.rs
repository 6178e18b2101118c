//! Which file of the repository a module string points at, language by
//! language.
use vstd::prelude::*;
use crate::text;
use crate::graph;
use crate::text_laws;

verus! {

// ------------------------------------------------------------------- paths

/// Is this a segment that a path keeps: not empty, and no step?
pub open spec fn is_plain_part(part: Seq<char>) -> bool {
    part.len() > 0 && part != "."@ && part != ".."@ && !part.contains('/')
}

/// Is this a path of such segments, with slashes between them alone?
pub open spec fn is_plain(path: Seq<char>) -> bool {
    forall|i: int|
        0 <= i < text::split_on(path, '/').len() ==> is_plain_part(
            #[trigger] text::split_on(path, '/')[i],
        )
}

/// Two plain paths with a slash between them are one.
pub proof fn lemma_plain_both(a: Seq<char>, b: Seq<char>)
    requires
        is_plain(a),
        is_plain(b),
    ensures
        is_plain(a + seq!['/'] + b),
        text::split_on(a + seq!['/'] + b, '/') == text::split_on(a, '/') + text::split_on(b, '/'),
{
    text::lemma_split_both(a, '/', b);
    let x = text::split_on(a, '/');
    let y = text::split_on(b, '/');
    let all = text::split_on(a + seq!['/'] + b, '/');
    assert forall|i: int| 0 <= i < all.len() implies is_plain_part(#[trigger] all[i]) by {
        if i < x.len() {
            assert(all[i] == x[i]);
        } else {
            assert(all[i] == y[i - x.len()]);
        }
    }
}

/// A plain segment alone is a plain path.
pub proof fn lemma_plain_part(part: Seq<char>)
    requires
        is_plain_part(part),
    ensures
        is_plain(part),
        text::split_on(part, '/') == seq![part],
{
    text_laws::lemma_split_whole(part, '/');
    let v = text::split_on(part, '/');
    assert forall|i: int| 0 <= i < v.len() implies is_plain_part(#[trigger] v[i]) by {
        assert(v[i] == part);
    }
}

/// A plain path starts and ends with something other than a slash.
proof fn lemma_plain_ends(path: Seq<char>)
    requires
        is_plain(path),
    ensures
        path.len() > 0,
        path[0] != '/',
        path.last() != '/',
{
    text::lemma_split_first(path, '/');
    let v = text::split_on(path, '/');
    assert(is_plain_part(v[0]));
    text::lemma_next_of(path, '/', 0);
    if path.len() > 0 && path[0] == '/' {
        assert(text::next_of(path, '/', 0) == 0);
        assert(v[0].len() == 0);
    }
    if path.len() > 0 && path.last() == '/' {
        let front = path.drop_last();
        text::lemma_split_both(front, '/', text::no_text());
        assert(front + seq!['/'] + text::no_text() =~= path);
        text_laws::lemma_split_whole(text::no_text(), '/');
        assert(v.last() == text::no_text());
        assert(is_plain_part(v[v.len() - 1]));
    }
}

/// Plain segments are all kept.
proof fn lemma_norm_plain(parts: Seq<Seq<char>>, absolute: bool, n: nat)
    requires
        n <= parts.len(),
        forall|i: int| 0 <= i < n ==> is_plain_part(#[trigger] parts[i]),
    ensures
        graph::norm_upto(parts, absolute, n) == parts.take(n as int),
    decreases n,
{
    if n == 0 {
        assert(parts.take(0) =~= Seq::<Seq<char>>::empty());
    } else {
        lemma_norm_plain(parts, absolute, (n - 1) as nat);
        assert(is_plain_part(parts[n - 1]));
        assert(parts.take(n as int) =~= parts.take(n - 1).push(parts[n - 1]));
    }
}

/// A plain path has nothing to resolve.
pub proof fn law_a_plain_path_stays(path: Seq<char>)
    requires
        is_plain(path),
    ensures
        graph::normalized(path) == path,
{
    let parts = text::split_on(path, '/');
    lemma_plain_ends(path);
    reveal_strlit("/");
    assert("/"@ =~= seq!['/']);
    if text::has_prefix(path, "/"@) {
        assert(path.take(1)[0] == path[0]);
    }
    lemma_norm_plain(parts, false, parts.len());
    assert(parts.take(parts.len() as int) =~= parts);
    text_laws::law_joining_undoes_splitting(path, '/');
}

/// What a step in the middle does to the segments around it: a dot is left
/// out, two dots take the segment before them along.
proof fn lemma_norm_step(
    above: Seq<Seq<char>>,
    step: Seq<Seq<char>>,
    below: Seq<Seq<char>>,
    n: nat,
)
    requires
        forall|i: int| 0 <= i < above.len() ==> is_plain_part(#[trigger] above[i]),
        forall|i: int| 0 <= i < below.len() ==> is_plain_part(#[trigger] below[i]),
        n <= below.len(),
        step == seq!["."@] || step.len() == 2 && is_plain_part(step[0]) && step[1] == ".."@,
    ensures
        graph::norm_upto(above + step + below, false, above.len() + step.len() + n) == above
            + below.take(n as int),
    decreases n,
{
    let all = above + step + below;
    reveal_strlit(".");
    reveal_strlit("..");
    assert("."@.len() == 1 && ".."@.len() == 2);
    let m = above.len();
    if n == 0 {
        assert forall|i: int| 0 <= i < m implies is_plain_part(#[trigger] all[i]) by {
            assert(all[i] == above[i]);
        }
        lemma_norm_plain(all, false, m);
        assert(all.take(m as int) =~= above);
        if step.len() == 1 {
            assert(all[m as int] == "."@);
            assert(graph::norm_upto(all, false, m + 1) == above);
        } else {
            assert(all[m as int] == step[0]);
            assert(all[m as int + 1] == ".."@);
            assert(graph::norm_upto(all, false, m + 1) == above.push(step[0]));
            assert(above.push(step[0]).drop_last() =~= above);
            assert(graph::norm_upto(all, false, m + 2) == above);
        }
        assert(above + below.take(0) =~= above);
    } else {
        lemma_norm_step(above, step, below, (n - 1) as nat);
        assert(all[m + step.len() + n - 1] == below[n - 1]);
        assert(is_plain_part(below[n - 1]));
        assert((above + below.take(n - 1)).push(below[n - 1]) =~= above + below.take(n as int));
    }
}

/// A step that stays and a step up are resolved where they stand.
pub proof fn law_steps_are_resolved(dir: Seq<char>, sub: Seq<char>, rest: Seq<char>)
    requires
        is_plain(dir),
        is_plain_part(sub),
        is_plain(rest),
    ensures
        graph::normalized(dir + seq!['/', '.', '/'] + rest) == dir + seq!['/'] + rest,
        graph::normalized(dir + seq!['/'] + sub + seq!['/', '.', '.', '/'] + rest) == dir
            + seq!['/'] + rest,
{
    reveal_strlit(".");
    reveal_strlit("..");
    reveal_strlit("/");
    assert("/"@ =~= seq!['/']);
    assert(!"."@.contains('/') && !".."@.contains('/'));
    lemma_plain_ends(dir);
    let a = text::split_on(dir, '/');
    let b = text::split_on(rest, '/');
    lemma_plain_both(dir, rest);
    let whole = dir + seq!['/'] + rest;
    text_laws::law_joining_undoes_splitting(whole, '/');
    assert(b.take(b.len() as int) =~= b);
    lemma_plain_ends(whole);
    // one dot
    let p = dir + seq!['/'] + "."@;
    let one = p + seq!['/'] + rest;
    text::lemma_split_both(dir, '/', "."@);
    text::lemma_split_both(p, '/', rest);
    text_laws::lemma_split_whole("."@, '/');
    assert(one =~= dir + seq!['/', '.', '/'] + rest);
    lemma_norm_step(a, seq!["."@], b, b.len());
    assert(one[0] == dir[0]);
    if text::has_prefix(one, "/"@) {
        assert(one.take(1)[0] == one[0]);
    }
    // two dots
    let q = dir + seq!['/'] + sub;
    let r = q + seq!['/'] + ".."@;
    let two = r + seq!['/'] + rest;
    lemma_plain_part(sub);
    text::lemma_split_both(dir, '/', sub);
    text::lemma_split_both(q, '/', ".."@);
    text::lemma_split_both(r, '/', rest);
    text_laws::lemma_split_whole(".."@, '/');
    assert(two =~= dir + seq!['/'] + sub + seq!['/', '.', '.', '/'] + rest);
    lemma_norm_step(a, seq![sub, ".."@], b, b.len());
    assert(a + seq![sub] + seq![".."@] + b =~= a + seq![sub, ".."@] + b);
    assert(two[0] == dir[0]);
    if text::has_prefix(two, "/"@) {
        assert(two.take(1)[0] == two[0]);
    }
}

/// The directory of a file below a directory is that directory.
pub proof fn law_a_file_lies_in_its_directory(dir: Seq<char>, file: Seq<char>)
    requires
        dir.len() > 0,
        !file.contains('/'),
    ensures
        graph::dir_part(dir + seq!['/'] + file) == dir,
        graph::dir_part(file).len() == 0,
{
    let path = dir + seq!['/'] + file;
    text::lemma_last_below(path, '/', path.len() as int);
    let at = dir.len() as int;
    assert(path[at] == '/');
    assert forall|k: int| at < k < path.len() implies path[k] != '/' by {
        assert(path[k] == file[k - at - 1]);
    }
    assert(text::last_of(path, '/') == Some(at));
    assert(path.take(at) =~= dir);
    text::lemma_last_below(file, '/', file.len() as int);
    assert(text::last_of(file, '/') is None);
}

/// What is read from a directory is written behind it with a slash.
proof fn lemma_path_join(dir: Seq<char>, rest: Seq<char>)
    requires
        dir.len() > 0,
        dir.last() != '/',
        rest.len() > 0,
        rest[0] != '/',
    ensures
        graph::path_join(dir, rest) == dir + seq!['/'] + rest,
{
    reveal_strlit("/");
    assert("/"@ =~= seq!['/']);
    if text::has_prefix(rest, "/"@) {
        assert(rest.take(1)[0] == rest[0]);
    }
    assert(!"/"@.contains(dir.last()));
    assert(text::out_end(dir, "/"@, dir.len() as int) == dir.len());
    assert(text::shed_end(dir, "/"@) =~= dir);
}

/// The first file that a language looks for comes first where it is known.
proof fn lemma_first_candidate(
    stem: Seq<char>,
    language: Seq<char>,
    known: Seq<Seq<char>>,
    ext: Seq<char>,
)
    requires
        graph::ext_list(language).len() > 0,
        graph::ext_list(language)[0] == ext,
        is_plain(stem + ext),
        text::listed(known, stem + ext),
    ensures
        graph::known_file(stem, language, known) == Some(stem + ext),
{
    law_a_plain_path_stays(stem + ext);
    let cands = graph::candidate_paths(stem, language);
    assert(cands[0] == stem + ext);
}

/// A plain path with an extension is one.
proof fn lemma_plain_ext(dir: Seq<char>, name: Seq<char>, ext: Seq<char>)
    requires
        is_plain(dir),
        is_plain_part(name),
        ext.len() > 1,
        !ext.contains('/'),
    ensures
        is_plain(dir + seq!['/'] + name),
        is_plain(dir + seq!['/'] + name + ext),
        is_plain_part(name + ext),
{
    let part = name + ext;
    reveal_strlit(".");
    reveal_strlit("..");
    assert("."@.len() == 1 && ".."@.len() == 2);
    assert(part.len() > 2);
    assert(!part.contains('/')) by {
        if part.contains('/') {
            let k = choose|k: int| 0 <= k < part.len() && part[k] == '/';
            if k < name.len() {
                assert(name[k] == '/');
            } else {
                assert(ext[k - name.len()] == '/');
            }
        }
    }
    lemma_plain_part(name);
    lemma_plain_part(part);
    lemma_plain_both(dir, name);
    lemma_plain_both(dir, part);
    assert(dir + seq!['/'] + name + ext =~= dir + seq!['/'] + part);
}

// ------------------------------------------------------------------ Python

/// A dot before a name points at the file of that name in the importing file's
/// own package, where there is one.
pub proof fn law_a_python_dot_points_beside(
    dir: Seq<char>,
    file: Seq<char>,
    name: Seq<char>,
    known: Seq<Seq<char>>,
)
    requires
        is_plain(dir),
        !file.contains('/'),
        is_plain_part(name),
        !name.contains('.'),
        !text::is_white(name.last()),
        text::listed(known, dir + seq!['/'] + name + ".py"@),
    ensures
        graph::module_target(seq!['.'] + name, dir + seq!['/'] + file, "python"@, known) == Some(
            dir + seq!['/'] + name + ".py"@,
        ),
{
    let module = seq!['.'] + name;
    let from = dir + seq!['/'] + file;
    reveal_strlit(".py");
    assert(!".py"@.contains('/'));
    lemma_plain_ends(dir);
    lemma_plain_ext(dir, name, ".py"@);
    law_a_file_lies_in_its_directory(dir, file);
    lemma_dots(seq!['.'], name);
    assert(name.contains(name[0]));
    lemma_path_join(dir, name);
    lemma_first_candidate(dir + seq!['/'] + name, "python"@, known, ".py"@);
    assert(graph::climbed(dir, 0) == dir);
}

/// Two dots before a name point at the file of that name in the package above,
/// where there is one.
pub proof fn law_two_python_dots_point_above(
    dir: Seq<char>,
    sub: Seq<char>,
    file: Seq<char>,
    name: Seq<char>,
    known: Seq<Seq<char>>,
)
    requires
        is_plain(dir),
        is_plain_part(sub),
        !file.contains('/'),
        is_plain_part(name),
        !name.contains('.'),
        !text::is_white(name.last()),
        text::listed(known, dir + seq!['/'] + name + ".py"@),
    ensures
        graph::module_target(
            seq!['.', '.'] + name,
            dir + seq!['/'] + sub + seq!['/'] + file,
            "python"@,
            known,
        ) == Some(dir + seq!['/'] + name + ".py"@),
{
    let from = dir + seq!['/'] + sub + seq!['/'] + file;
    reveal_strlit(".py");
    assert(!".py"@.contains('/'));
    lemma_plain_ends(dir);
    lemma_plain_ext(dir, name, ".py"@);
    law_a_file_lies_in_its_directory(dir + seq!['/'] + sub, file);
    law_a_file_lies_in_its_directory(dir, sub);
    lemma_dots(seq!['.', '.'], name);
    assert(name.contains(name[0]));
    lemma_path_join(dir, name);
    lemma_first_candidate(dir + seq!['/'] + name, "python"@, known, ".py"@);
    reveal_with_fuel(graph::climbed, 3);
    assert(graph::climbed(dir + seq!['/'] + sub, 1) == dir);
}

/// Where the dots before a name end, and what stands behind them.
proof fn lemma_dots(dots: Seq<char>, name: Seq<char>)
    requires
        dots == seq!['.'] || dots == seq!['.', '.'],
        name.len() > 0,
        !name.contains('.'),
        !text::is_white(name.last()),
    ensures
        text::trimmed(dots + name) == dots + name,
        text::has_prefix(dots + name, "."@),
        text::out_from(dots + name, "."@, 0) == dots.len(),
        (dots + name).skip(dots.len() as int) == name,
        text::swapped(name, '.', '/') == name,
{
    let s = dots + name;
    let none = text::no_text();
    reveal_strlit(".");
    assert("."@ =~= seq!['.']);
    assert("."@[0] == '.');
    assert(s[0] == '.' && s.last() == name.last());
    text::law_trimming_takes_the_margins(none, s, none);
    assert(none + s + none =~= s);
    assert(s.take(1) =~= "."@);
    assert(name.contains(name[0]));
    let n = dots.len() as int;
    assert(s[n] == name[0]);
    assert(!"."@.contains(s[n]));
    assert(text::out_from(s, "."@, n) == n);
    assert("."@.contains(s[0]));
    if n == 2 {
        assert("."@.contains(s[1]));
        assert(text::out_from(s, "."@, 1) == n);
    }
    assert(text::out_from(s, "."@, 0) == n);
    assert(s.skip(n) =~= name);
    assert(text::swapped(name, '.', '/') =~= name) by {
        assert forall|k: int| 0 <= k < name.len() implies name[k] != '.' by {
            assert(name.contains(name[k]));
        }
    }
}

/// Does the file at the path go by the stem with one of the extensions, as
/// whole segments?
pub open spec fn ends_with_path(path: Seq<char>, tail: Seq<char>) -> bool {
    path == tail || text::has_suffix(path, seq!['/'] + tail)
}

/// A known path that ends with a candidate is a hit.
proof fn lemma_hit(known: Seq<Seq<char>>, candidate: Seq<char>, n: nat, x: Seq<char>)
    requires
        n <= known.len(),
        candidate.len() > 0 && candidate[0] != '/',
    ensures
        text::listed(graph::hits_upto(known, candidate, n), x) <==> text::listed(
            known.take(n as int),
            x,
        ) && ends_with_path(x, candidate),
    decreases n,
{
    reveal_strlit("/");
    assert("/"@ =~= seq!['/']);
    assert(!"/"@.contains(candidate[0]));
    assert(text::out_from(candidate, "/"@, 0) == 0);
    assert(candidate.skip(0) =~= candidate);
    let all = graph::hits_upto(known, candidate, n);
    if n > 0 {
        lemma_hit(known, candidate, (n - 1) as nat, x);
        let rest = graph::hits_upto(known, candidate, (n - 1) as nat);
        let less = known.take(n - 1);
        let part = known.take(n as int);
        if text::listed(all, x) {
            let k = choose|k: int| 0 <= k < all.len() && #[trigger] all[k] == x;
            if k < rest.len() {
                assert(rest[k] == x);
                assert(text::listed(rest, x));
                let m = choose|m: int| 0 <= m < less.len() && #[trigger] less[m] == x;
                assert(part[m] == x);
            } else {
                assert(part[n - 1] == x);
            }
        }
        if text::listed(part, x) && ends_with_path(x, candidate) {
            let m = choose|m: int| 0 <= m < part.len() && #[trigger] part[m] == x;
            if m < n - 1 {
                assert(less[m] == x);
                assert(text::listed(less, x));
                let k = choose|k: int| 0 <= k < rest.len() && #[trigger] rest[k] == x;
                assert(all[k] == x);
            } else {
                assert(all[rest.len() as int] == x);
            }
        }
    }
}

/// The hits of all candidates are those of each.
proof fn lemma_all_hits(
    known: Seq<Seq<char>>,
    cands: Seq<Seq<char>>,
    n: nat,
    k: int,
    x: Seq<char>,
)
    requires
        0 <= k < n <= cands.len(),
        text::listed(graph::hits_upto(known, cands[k], known.len()), x),
    ensures
        text::listed(graph::all_hits_upto(known, cands, n), x),
    decreases n,
{
    let rest = graph::all_hits_upto(known, cands, (n - 1) as nat);
    let last = graph::hits_upto(known, cands[n - 1], known.len());
    if k == n - 1 {
        let m = choose|m: int| 0 <= m < last.len() && #[trigger] last[m] == x;
        assert((rest + last)[rest.len() + m] == x);
    } else {
        lemma_all_hits(known, cands, (n - 1) as nat, k, x);
        let m = choose|m: int| 0 <= m < rest.len() && #[trigger] rest[m] == x;
        assert((rest + last)[m] == x);
    }
}

/// There is a best one wherever there is one.
proof fn lemma_nearest_some(hits: Seq<Seq<char>>, near: Seq<char>, n: nat)
    requires
        1 <= n <= hits.len(),
    ensures
        graph::nearest_upto(hits, near, n) is Some,
    decreases n,
{
    if n > 1 {
        lemma_nearest_some(hits, near, (n - 1) as nat);
    }
}

/// A stem with an extension that the language looks for finds its file: where
/// a known path ends with both, as whole segments, there is a target.
proof fn lemma_suffix_found(
    stem: Seq<char>,
    language: Seq<char>,
    known: Seq<Seq<char>>,
    near: Seq<char>,
    k: int,
    x: Seq<char>,
)
    requires
        0 <= k < graph::ext_list(language).len(),
        is_plain(stem),
        is_plain(stem + graph::ext_list(language)[k]),
        text::listed(known, x),
        ends_with_path(x, stem + graph::ext_list(language)[k]),
    ensures
        graph::suffix_target(stem, known, language, near) is Some,
{
    lemma_unslashed(stem);
    let ext = graph::ext_list(language)[k];
    let cands = graph::candidate_paths(stem, language);
    law_a_plain_path_stays(stem + ext);
    lemma_plain_ends(stem + ext);
    assert(cands[k] == stem + ext);
    lemma_hit(known, stem + ext, known.len(), x);
    assert(known.take(known.len() as int) =~= known);
    lemma_all_hits(known, cands, cands.len(), k, x);
    let hits = graph::all_hits_upto(known, cands, cands.len());
    let m = choose|m: int| 0 <= m < hits.len() && #[trigger] hits[m] == x;
    lemma_nearest_some(hits, near, hits.len());
    lemma_plain_ends(stem);
}

/// A plain path has no slashes at its ends.
proof fn lemma_unslashed(path: Seq<char>)
    requires
        is_plain(path),
    ensures
        graph::unslashed(path) == path,
{
    lemma_plain_ends(path);
    reveal_strlit("/");
    assert(!"/"@.contains(path[0]) && !"/"@.contains(path.last()));
    assert(text::out_from(path, "/"@, 0) == 0);
    assert(path.skip(0) =~= path);
    assert(text::out_end(path, "/"@, path.len() as int) == path.len());
    assert(path.take(path.len() as int) =~= path);
}

/// A module written in dots finds its file: where a known path ends with the
/// same path in slashes, as a module or a package, there is a target.
pub proof fn law_a_python_module_finds_its_file(
    module: Seq<char>,
    from: Seq<char>,
    known: Seq<Seq<char>>,
    x: Seq<char>,
)
    requires
        module.len() > 0,
        module[0] != '.',
        !text::is_white(module[0]) && !text::is_white(module.last()),
        is_plain(text::swapped(module, '.', '/')),
        is_plain(text::swapped(module, '.', '/') + ".py"@),
        text::listed(known, x),
        ends_with_path(x, text::swapped(module, '.', '/') + ".py"@),
    ensures
        graph::module_target(module, from, "python"@, known) is Some,
{
    let none = text::no_text();
    text::law_trimming_takes_the_margins(none, module, none);
    assert(none + module + none =~= module);
    reveal_strlit(".");
    if text::has_prefix(module, "."@) {
        assert(module.take(1)[0] == module[0]);
    }
    lemma_suffix_found(text::swapped(module, '.', '/'), "python"@, known, from, 0, x);
}

// -------------------------------------------- TypeScript and JavaScript

/// A relative specifier points at the file that its path names, where there is
/// one.
proof fn lemma_relative(
    module: Seq<char>,
    from: Seq<char>,
    stem: Seq<char>,
    known: Seq<Seq<char>>,
    x: Seq<char>,
)
    requires
        module.len() > 0,
        module[0] == '.',
        !text::is_white(module.last()),
        graph::normalized(graph::path_join(graph::dir_part(from), module)) == stem,
        !graph::is_script_ext(graph::ext_split(stem).1),
        graph::known_file(stem, "typescript"@, known) == Some(x),
    ensures
        graph::module_target(module, from, "typescript"@, known) == Some(x),
{
    let none = text::no_text();
    text::law_trimming_takes_the_margins(none, module, none);
    assert(none + module + none =~= module);
    lemma_language_names();
    lemma_dot_first(module);
}

/// A specifier that starts with a dot and a slash points at the file of that
/// name beside the importing one; in TypeScript the one that ends in `.ts`
/// comes first.
pub proof fn law_a_relative_specifier_points_beside(
    dir: Seq<char>,
    file: Seq<char>,
    name: Seq<char>,
    known: Seq<Seq<char>>,
)
    requires
        is_plain(dir),
        !file.contains('/'),
        is_plain_part(name),
        !name.contains('.'),
        !text::is_white(name.last()),
        text::listed(known, dir + seq!['/'] + name + ".ts"@),
    ensures
        graph::module_target(
            seq!['.', '/'] + name,
            dir + seq!['/'] + file,
            "typescript"@,
            known,
        ) == Some(dir + seq!['/'] + name + ".ts"@),
{
    let one = seq!['.', '/'] + name;
    let stem = dir + seq!['/'] + name;
    reveal_strlit(".ts");
    assert(!".ts"@.contains('/'));
    lemma_plain_ends(dir);
    lemma_plain_part(name);
    lemma_plain_ext(dir, name, ".ts"@);
    lemma_no_ext(dir, name);
    lemma_script(stem, known);
    law_steps_are_resolved(dir, name, name);
    law_a_file_lies_in_its_directory(dir, file);
    lemma_path_join(dir, one);
    assert(dir + seq!['/'] + one =~= dir + seq!['/', '.', '/'] + name);
    assert(one.last() == name.last());
    lemma_relative(one, dir + seq!['/'] + file, stem, known, stem + ".ts"@);
}

/// A specifier that starts with two dots and a slash points at the file of
/// that name in the directory above.
pub proof fn law_a_relative_specifier_points_above(
    dir: Seq<char>,
    sub: Seq<char>,
    file: Seq<char>,
    name: Seq<char>,
    known: Seq<Seq<char>>,
)
    requires
        is_plain(dir),
        is_plain_part(sub),
        !file.contains('/'),
        is_plain_part(name),
        !name.contains('.'),
        !text::is_white(name.last()),
        text::listed(known, dir + seq!['/'] + name + ".ts"@),
    ensures
        graph::module_target(
            seq!['.', '.', '/'] + name,
            dir + seq!['/'] + sub + seq!['/'] + file,
            "typescript"@,
            known,
        ) == Some(dir + seq!['/'] + name + ".ts"@),
{
    let two = seq!['.', '.', '/'] + name;
    let stem = dir + seq!['/'] + name;
    let here = dir + seq!['/'] + sub;
    reveal_strlit(".ts");
    assert(!".ts"@.contains('/'));
    lemma_plain_part(name);
    lemma_plain_ext(dir, name, ".ts"@);
    lemma_no_ext(dir, name);
    lemma_script(stem, known);
    law_steps_are_resolved(dir, sub, name);
    law_a_file_lies_in_its_directory(here, file);
    assert(sub.contains(sub.last()));
    assert(here.last() == sub.last());
    lemma_path_join(here, two);
    assert(here + seq!['/'] + two =~= dir + seq!['/'] + sub + seq!['/', '.', '.', '/'] + name);
    assert(two.last() == name.last());
    lemma_relative(two, here + seq!['/'] + file, stem, known, stem + ".ts"@);
}

/// A text that starts with a dot starts so.
proof fn lemma_dot_first(s: Seq<char>)
    requires
        s.len() > 0,
        s[0] == '.',
    ensures
        text::has_prefix(s, "."@),
{
    reveal_strlit(".");
    assert(s.take(1) =~= "."@);
}

/// The languages of scripts are told apart from Python by their spelling.
proof fn lemma_language_names()
    ensures
        "typescript"@ != "python"@,
        "rust"@ != "python"@,
        "rust"@ != "typescript"@,
        "rust"@ != "tsx"@,
        "rust"@ != "javascript"@,
{
    reveal_strlit("typescript");
    reveal_strlit("python");
    reveal_strlit("rust");
    reveal_strlit("tsx");
    reveal_strlit("javascript");
    assert("typescript"@.len() == 10 && "python"@.len() == 6 && "rust"@.len() == 4);
    assert("tsx"@.len() == 3 && "javascript"@.len() == 10);
}

/// A file name without a dot has no extension.
proof fn lemma_no_ext(dir: Seq<char>, name: Seq<char>)
    requires
        is_plain(dir),
        is_plain_part(name),
        !name.contains('.'),
    ensures
        graph::ext_split(dir + seq!['/'] + name).1.len() == 0,
        !graph::is_script_ext(graph::ext_split(dir + seq!['/'] + name).1),
{
    let path = dir + seq!['/'] + name;
    text::lemma_last_below(path, '/', path.len() as int);
    let at = dir.len() as int;
    assert(path[at] == '/');
    assert forall|k: int| at < k < path.len() implies path[k] != '/' by {
        assert(path[k] == name[k - at - 1]);
    }
    assert(text::last_of(path, '/') == Some(at));
    assert(path.skip(at + 1) =~= name);
    text::lemma_last_below(name, '.', name.len() as int);
    assert(text::last_of(name, '.') is None) by {
        if let Some(k) = text::last_of(name, '.') {
            assert(name.contains(name[k]));
        }
    }
    reveal_strlit(".js");
    reveal_strlit(".jsx");
    reveal_strlit(".ts");
    reveal_strlit(".tsx");
    reveal_strlit(".mjs");
    reveal_strlit(".cjs");
    assert(".js"@.len() == 3 && ".jsx"@.len() == 4 && ".ts"@.len() == 3 && ".tsx"@.len() == 4
        && ".mjs"@.len() == 4 && ".cjs"@.len() == 4);
}

/// The TypeScript file of a stem comes first.
proof fn lemma_script(stem: Seq<char>, known: Seq<Seq<char>>)
    requires
        is_plain(stem + ".ts"@),
        text::listed(known, stem + ".ts"@),
    ensures
        graph::known_file(stem, "typescript"@, known) == Some(stem + ".ts"@),
{
    lemma_language_names();
    assert(graph::ext_list("typescript"@)[0] == ".ts"@);
    lemma_first_candidate(stem, "typescript"@, known, ".ts"@);
}

/// A specifier that starts neither with a dot nor with one of the repository's
/// own aliases names a package outside it.
pub proof fn law_a_bare_specifier_points_outside(
    module: Seq<char>,
    from: Seq<char>,
    language: Seq<char>,
    known: Seq<Seq<char>>,
)
    requires
        language == "typescript"@ || language == "javascript"@ || language == "tsx"@,
        module.len() > 0,
        module[0] != '.' && module[0] != '@' && module[0] != '~' && module[0] != 's',
        !text::is_white(module[0]) && !text::is_white(module.last()),
    ensures
        graph::module_target(module, from, language, known) is None,
{
    let none = text::no_text();
    text::law_trimming_takes_the_margins(none, module, none);
    assert(none + module + none =~= module);
    reveal_strlit(".");
    reveal_strlit("@/");
    reveal_strlit("~/");
    reveal_strlit("src/");
    reveal_strlit("python");
    reveal_strlit("typescript");
    reveal_strlit("javascript");
    reveal_strlit("tsx");
    assert("python"@.len() == 6 && "typescript"@.len() == 10 && "javascript"@.len() == 10
        && "tsx"@.len() == 3);
    if text::has_prefix(module, "."@) {
        assert(module.take(1)[0] == module[0]);
    }
    if text::has_prefix(module, "@/"@) {
        assert(module.take(2)[0] == module[0]);
    }
    if text::has_prefix(module, "~/"@) {
        assert(module.take(2)[0] == module[0]);
    }
    if text::has_prefix(module, "src/"@) {
        assert(module.take(4)[0] == module[0]);
    }
}

// ----------------------------------------------------------------- the others

/// A header that is known by the path it is written with is that file; else
/// one of that name beside the including file is.
pub proof fn law_a_header_is_found_as_written_or_beside(
    module: Seq<char>,
    dir: Seq<char>,
    file: Seq<char>,
    language: Seq<char>,
    known: Seq<Seq<char>>,
)
    requires
        language == "c"@ || language == "cpp"@,
        is_plain(module),
        !text::is_white(module[0]) && !text::is_white(module.last()),
        is_plain(dir),
        !file.contains('/'),
    ensures
        text::listed(known, module) ==> graph::module_target(
            module,
            dir + seq!['/'] + file,
            language,
            known,
        ) == Some(module),
        !text::listed(known, module) && text::listed(known, dir + seq!['/'] + module)
            ==> graph::module_target(module, dir + seq!['/'] + file, language, known) == Some(
            dir + seq!['/'] + module,
        ),
{
    let none = text::no_text();
    lemma_plain_ends(module);
    lemma_plain_ends(dir);
    text::law_trimming_takes_the_margins(none, module, none);
    assert(none + module + none =~= module);
    law_a_file_lies_in_its_directory(dir, file);
    lemma_path_join(dir, module);
    lemma_plain_both(dir, module);
    law_a_plain_path_stays(dir + seq!['/'] + module);
    reveal_strlit("c");
    reveal_strlit("cpp");
    reveal_strlit("python");
    reveal_strlit("typescript");
    reveal_strlit("tsx");
    reveal_strlit("javascript");
    reveal_strlit("rust");
    reveal_strlit("go");
    reveal_strlit("java");
    reveal_strlit("c_sharp");
    reveal_strlit("php");
    assert("c"@.len() == 1 && "cpp"@.len() == 3 && "cpp"@[0] == 'c');
    assert("python"@.len() == 6 && "typescript"@.len() == 10 && "tsx"@.len() == 3 && "tsx"@[0]
        == 't');
    assert("javascript"@.len() == 10 && "rust"@.len() == 4 && "go"@.len() == 2);
    assert("java"@.len() == 4 && "c_sharp"@.len() == 7 && "php"@.len() == 3 && "php"@[0] == 'p');
}

/// A Ruby file that is required by its path is found with its ending, written
/// or not.
pub proof fn law_a_ruby_file_is_found_with_its_ending(
    module: Seq<char>,
    from: Seq<char>,
    known: Seq<Seq<char>>,
)
    requires
        is_plain(module),
        is_plain(module + ".rb"@),
        module[0] != '.',
        !text::is_white(module[0]) && !text::is_white(module.last()),
        !text::has_suffix(module, ".rb"@),
        text::listed(known, module + ".rb"@),
    ensures
        graph::module_target(module, from, "ruby"@, known) == Some(module + ".rb"@),
        graph::module_target(module + ".rb"@, from, "ruby"@, known) == Some(module + ".rb"@),
{
    let none = text::no_text();
    let full = module + ".rb"@;
    lemma_plain_ends(module);
    text::law_trimming_takes_the_margins(none, module, none);
    assert(none + module + none =~= module);
    reveal_strlit(".rb");
    assert(full.last() == 'b' && full[0] == module[0]);
    text::law_trimming_takes_the_margins(none, full, none);
    assert(none + full + none =~= full);
    assert(full.skip(full.len() - 3) =~= ".rb"@);
    assert(full.take(full.len() - 3) =~= module);
    reveal_strlit(".");
    if text::has_prefix(module, "."@) {
        assert(module.take(1)[0] == module[0]);
    }
    if text::has_prefix(full, "."@) {
        assert(full.take(1)[0] == full[0]);
    }
    lemma_late_languages();
    law_a_plain_path_stays(full);
    let cands = graph::candidate_paths(module, "ruby"@);
    assert(graph::ext_list("ruby"@) == seq![".rb"@]);
    assert(cands[0] == full);
    let here = graph::dir_part(from);
    assert(graph::first_beside_from(cands, here, known, 0) == Some(full));
}

/// The languages that are looked up last are told apart from the others by
/// their spelling.
proof fn lemma_late_languages()
    ensures
        "ruby"@ != "python"@ && "ruby"@ != "typescript"@ && "ruby"@ != "tsx"@ && "ruby"@
            != "javascript"@ && "ruby"@ != "rust"@ && "ruby"@ != "go"@ && "ruby"@ != "java"@
            && "ruby"@ != "c_sharp"@ && "ruby"@ != "php"@ && "ruby"@ != "c"@ && "ruby"@ != "cpp"@,
        "java"@ != "python"@ && "java"@ != "typescript"@ && "java"@ != "tsx"@ && "java"@
            != "javascript"@ && "java"@ != "rust"@ && "java"@ != "go"@ && "java"@ != "ruby"@
            && "java"@ != "php"@,
        "go"@ != "python"@ && "go"@ != "typescript"@ && "go"@ != "tsx"@ && "go"@ != "javascript"@
            && "go"@ != "rust"@,
{
    reveal_strlit("ruby");
    reveal_strlit("python");
    reveal_strlit("typescript");
    reveal_strlit("tsx");
    reveal_strlit("javascript");
    reveal_strlit("rust");
    reveal_strlit("go");
    reveal_strlit("java");
    reveal_strlit("c_sharp");
    reveal_strlit("php");
    reveal_strlit("c");
    reveal_strlit("cpp");
    assert("ruby"@.len() == 4 && "python"@.len() == 6 && "typescript"@.len() == 10);
    assert("tsx"@.len() == 3 && "javascript"@.len() == 10 && "rust"@.len() == 4);
    assert("go"@.len() == 2 && "java"@.len() == 4 && "c_sharp"@.len() == 7 && "php"@.len() == 3);
    assert("c"@.len() == 1 && "cpp"@.len() == 3);
    assert("ruby"@[2] == 'b' && "rust"@[2] == 's' && "java"@[0] == 'j');
    assert("ruby"@[0] == 'r' && "rust"@[0] == 'r');
}

/// A Java name finds its file: where a known path ends with the same name in
/// slashes, with the ending of Java, there is a target.
pub proof fn law_a_java_name_finds_its_file(
    v: Seq<Seq<char>>,
    from: Seq<char>,
    known: Seq<Seq<char>>,
    x: Seq<char>,
)
    requires
        v.len() > 0,
        forall|i: int| 0 <= i < v.len() ==> (#[trigger] v[i]).len() > 0 && !v[i].contains('.'),
        text::trimmed(text::joined(v, seq!['.'])) == text::joined(v, seq!['.']),
        text::joined(v, seq!['.']).len() > 0,
        is_plain(text::joined(v, seq!['/'])),
        is_plain(text::joined(v, seq!['/']) + ".java"@),
        text::listed(known, x),
        ends_with_path(x, text::joined(v, seq!['/']) + ".java"@),
    ensures
        graph::module_target(text::joined(v, seq!['.']), from, "java"@, known) is Some,
{
    lemma_late_languages();
    crate::import_text_laws::lemma_parts(v, '.');
    reveal_strlit("/");
    assert("/"@ =~= seq!['/']);
    assert(graph::ext_list("java"@) == seq![".java"@]);
    lemma_suffix_found(text::joined(v, seq!['/']), "java"@, known, from, 0, x);
}

} // verus!

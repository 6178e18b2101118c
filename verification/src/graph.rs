//! Resolving a file's raw name-level edges into a cross-file graph.
//!
//! The parser records, per declaration, the names it touches and how. This
//! turns those names into edges between real repo paths by following each
//! file's imports, per language, because a module string means something
//! different in Go than in Rust than in Ruby.
//!
//! Every edge carries how confident the resolution is:
//!
//!   extracted  the target is named by an import, or is in the same file
//!   inferred   resolved by a unique name match across the repo
//!   ambiguous  several files define that name; the nearest was chosen
//!
//! Nothing is invented. A module outside the repo resolves honestly to an
//! `ext:` node rather than being guessed at, because a wrong edge is worse
//! than a missing one.
use vstd::prelude::*;
use crate::table;
use crate::text;

verus! {

/// The target is named by an import, or is in the same file.
pub const EXTRACTED: &'static str = "extracted";

/// Resolved by a unique name match across the repo.
pub const INFERRED: &'static str = "inferred";

/// Several files define that name; the nearest was chosen.
pub const AMBIGUOUS: &'static str = "ambiguous";

// -------------------------------------------------------------------- paths

/// The strings of a list of literals.
pub open spec fn strs(v: Seq<&str>) -> Seq<Seq<char>> {
    Seq::new(v.len(), |i: int| v[i]@)
}

/// Strings of their own for a list of literals.
pub fn owned(v: Vec<&str>) -> (r: Vec<String>)
    ensures
        text::texts(r@) == strs(v@),
{
    let mut out: Vec<String> = Vec::new();
    let mut i: usize = 0;
    while i < v.len()
        invariant
            i <= v.len(),
            out.len() == i,
            forall|j: int| 0 <= j < i ==> (#[trigger] out@[j])@ == v@[j]@,
        decreases v.len() - i,
    {
        out.push(v[i].to_string());
        i += 1;
    }
    assert(text::texts(out@) =~= strs(v@));
    out
}

/// What a language appends to a module's path to find its file.
pub open spec fn ext_list(language: Seq<char>) -> Seq<Seq<char>> {
    if language == "python"@ {
        seq![".py"@, "/__init__.py"@, ".pyi"@]
    } else if language == "typescript"@ {
        seq![
            ".ts"@,
            ".tsx"@,
            ".d.ts"@,
            "/index.ts"@,
            "/index.tsx"@,
            ".js"@,
            ".jsx"@,
            "/index.js"@,
        ]
    } else if language == "tsx"@ {
        seq![".tsx"@, ".ts"@, "/index.tsx"@, "/index.ts"@, ".js"@, ".jsx"@]
    } else if language == "javascript"@ {
        seq![
            ".js"@,
            ".jsx"@,
            ".mjs"@,
            ".cjs"@,
            "/index.js"@,
            "/index.jsx"@,
            ".ts"@,
            ".tsx"@,
            "/index.ts"@,
        ]
    } else if language == "rust"@ {
        seq![".rs"@, "/mod.rs"@]
    } else if language == "ruby"@ {
        seq![".rb"@]
    } else if language == "php"@ {
        seq![".php"@]
    } else if language == "java"@ {
        seq![".java"@]
    } else if language == "c_sharp"@ {
        seq![".cs"@]
    } else {
        seq![""@]
    }
}

/// Where a language looks for a file when it sees a module name.
pub fn ext_candidates(language: &str) -> (r: Vec<String>)
    ensures
        text::texts(r@) == ext_list(language@),
{
    let v: Vec<&str> = if text::same(language, "python") {
        vec![".py", "/__init__.py", ".pyi"]
    } else if text::same(language, "typescript") {
        vec![".ts", ".tsx", ".d.ts", "/index.ts", "/index.tsx", ".js", ".jsx", "/index.js"]
    } else if text::same(language, "tsx") {
        vec![".tsx", ".ts", "/index.tsx", "/index.ts", ".js", ".jsx"]
    } else if text::same(language, "javascript") {
        vec![
            ".js",
            ".jsx",
            ".mjs",
            ".cjs",
            "/index.js",
            "/index.jsx",
            ".ts",
            ".tsx",
            "/index.ts",
        ]
    } else if text::same(language, "rust") {
        vec![".rs", "/mod.rs"]
    } else if text::same(language, "ruby") {
        vec![".rb"]
    } else if text::same(language, "php") {
        vec![".php"]
    } else if text::same(language, "java") {
        vec![".java"]
    } else if text::same(language, "c_sharp") {
        vec![".cs"]
    } else {
        vec![""]
    };
    assert(strs(v@) =~= ext_list(language@));
    owned(v)
}

/// `path::symbol`.
pub open spec fn node_name(path: Seq<char>, symbol: Seq<char>) -> Seq<char> {
    path + "::"@ + symbol
}

/// `path::symbol` for a file's symbol, the id every edge is written in.
pub fn node_id(path: &str, symbol: &str) -> (r: String)
    ensures
        r@ == node_name(path@, symbol@),
{
    text::cat3(path, "::", symbol)
}

/// The directory part of a path: what stands before its last slash.
pub open spec fn dir_part(path: Seq<char>) -> Seq<char> {
    match text::last_of(path, '/') {
        Some(i) => if i == 0 {
            "/"@
        } else {
            path.take(i)
        },
        None => text::no_text(),
    }
}

/// The directory part of a path.
pub fn dirname(path: &str) -> (r: String)
    ensures
        r@ == dir_part(path@),
{
    let x = text::chars(path);
    match text::last_char(&x, '/', x.len()) {
        Some(i) => {
            if i == 0 {
                "/".to_string()
            } else {
                let r = text::piece(&x, 0, i);
                assert(r@ =~= path@.take(i as int));
                r
            }
        },
        None => String::new(),
    }
}

/// Where the last segment of a path starts.
pub open spec fn base_at(path: Seq<char>) -> int {
    match text::last_of(path, '/') {
        Some(i) => i + 1,
        None => 0,
    }
}

/// A path cut before the extension of its last segment. A segment whose only
/// dot is its first character has none.
pub open spec fn ext_split(path: Seq<char>) -> (Seq<char>, Seq<char>) {
    match text::last_of(path.skip(base_at(path)), '.') {
        Some(dot) => if dot > 0 {
            (path.take(base_at(path) + dot), path.skip(base_at(path) + dot))
        } else {
            (path, text::no_text())
        },
        None => (path, text::no_text()),
    }
}

/// A path cut before the extension of its last segment.
pub fn splitext(path: &str) -> (r: (String, String))
    ensures
        (r.0@, r.1@) == ext_split(path@),
{
    let x = text::chars(path);
    let from: usize = match text::last_char(&x, '/', x.len()) {
        Some(i) => i + 1,
        None => 0,
    };
    let base = text::piece(&x, from, x.len());
    assert(base@ =~= path@.skip(base_at(path@)));
    let y = text::chars(base.as_str());
    match text::last_char(&y, '.', y.len()) {
        Some(dot) => {
            if dot > 0 {
                assert(from + dot <= x.len());
                let a = text::piece(&x, 0, from + dot);
                let b = text::piece(&x, from + dot, x.len());
                assert(a@ =~= path@.take(base_at(path@) + dot));
                assert(b@ =~= path@.skip(base_at(path@) + dot));
                (a, b)
            } else {
                (path.to_string(), String::new())
            }
        },
        None => (path.to_string(), String::new()),
    }
}

/// The segments that are left of the first `n` of `parts` once `.`, empty
/// segments and `..` are resolved.
pub open spec fn norm_upto(parts: Seq<Seq<char>>, absolute: bool, n: nat) -> Seq<Seq<char>>
    decreases n,
{
    if n == 0 {
        Seq::empty()
    } else {
        let done = norm_upto(parts, absolute, (n - 1) as nat);
        let part = parts[n - 1];
        if part == text::no_text() || part == "."@ {
            done
        } else if part == ".."@ {
            if done.len() > 0 && done.last() != ".."@ {
                done.drop_last()
            } else if !absolute {
                done.push(".."@)
            } else {
                done
            }
        } else {
            done.push(part)
        }
    }
}

/// What a path starts from: two slashes where it starts with exactly two, one
/// where it starts with any other number of them.
pub open spec fn path_start(path: Seq<char>) -> Seq<char> {
    if text::has_prefix(path, "//"@) && !text::has_prefix(path, "///"@) {
        "//"@
    } else if text::has_prefix(path, "/"@) {
        "/"@
    } else {
        text::no_text()
    }
}

/// `posixpath.normpath`: a path with its `.`, `..` and empty segments
/// resolved, lexically.
pub open spec fn normalized(path: Seq<char>) -> Seq<char> {
    let absolute = text::has_prefix(path, "/"@);
    let parts = text::split_on(path, '/');
    let kept = text::joined(norm_upto(parts, absolute, parts.len()), "/"@);
    if absolute {
        path_start(path) + kept
    } else if kept.len() == 0 {
        "."@
    } else {
        kept
    }
}

/// `posixpath.normpath`, lexically.
pub fn normpath(path: &str) -> (r: String)
    ensures
        r@ == normalized(path@),
{
    let absolute: bool = text::starts_with(path, "/");
    let segments = text::split(path, '/');
    let mut parts: Vec<String> = Vec::new();
    let mut i: usize = 0;
    while i < segments.len()
        invariant
            i <= segments.len(),
            text::texts(parts@) == norm_upto(text::texts(segments@), absolute, i as nat),
        decreases segments.len() - i,
    {
        assert(text::texts(segments@)[i as int] == segments@[i as int]@);
        let part = segments[i].as_str();
        let ghost done = text::texts(parts@);
        if part.is_empty() || text::same(part, ".") {
            assert(part@.len() == 0 ==> part@ =~= text::no_text());
        } else if text::same(part, "..") {
            let climb: bool = parts.len() > 0 && !text::same(parts[parts.len() - 1].as_str(), "..");
            assert(parts.len() > 0 ==> done.last() == parts@[parts@.len() - 1]@);
            if climb {
                let ghost old_parts = parts@;
                parts.pop();
                assert(text::texts(parts@) =~= done.drop_last());
            } else if !absolute {
                let up = "..".to_string();
                proof {
                    text::lemma_texts_push(parts@, up);
                }
                parts.push(up);
            }
        } else {
            let s = part.to_string();
            proof {
                text::lemma_texts_push(parts@, s);
            }
            parts.push(s);
        }
        i += 1;
    }
    let kept = text::join(&parts, "/");
    if text::starts_with(path, "//") && !text::starts_with(path, "///") {
        proof {
            reveal_strlit("/");
            reveal_strlit("//");
            assert(path@.take(1) =~= "/"@);
        }
        text::cat2("//", kept.as_str())
    } else if absolute {
        text::cat2("/", kept.as_str())
    } else if kept.as_str().is_empty() {
        ".".to_string()
    } else {
        kept
    }
}

/// `rest` read from the directory `base`.
pub open spec fn path_join(base: Seq<char>, rest: Seq<char>) -> Seq<char> {
    if text::has_prefix(rest, "/"@) || base.len() == 0 {
        rest
    } else {
        text::shed_end(base, "/"@) + "/"@ + rest
    }
}

/// `rest` read from the directory `base`.
pub fn join_path(base: &str, rest: &str) -> (r: String)
    ensures
        r@ == path_join(base@, rest@),
{
    if text::starts_with(rest, "/") {
        return rest.to_string();
    }
    if base.is_empty() {
        return rest.to_string();
    }
    text::cat3(text::trim_end_set(base, "/").as_str(), "/", rest)
}

/// The files a module's path could name in a language, in order of
/// preference.
pub open spec fn candidate_paths(stem: Seq<char>, language: Seq<char>) -> Seq<Seq<char>> {
    Seq::new(ext_list(language).len(), |i: int| normalized(stem + ext_list(language)[i]))
}

/// The files a module's path could name in a language.
pub fn candidates(stem: &str, language: &str) -> (r: Vec<String>)
    ensures
        text::texts(r@) == candidate_paths(stem@, language@),
{
    let exts = ext_candidates(language);
    let mut out: Vec<String> = Vec::new();
    let mut i: usize = 0;
    while i < exts.len()
        invariant
            i <= exts.len(),
            text::texts(exts@) == ext_list(language@),
            out.len() == i,
            forall|j: int|
                0 <= j < i ==> (#[trigger] out@[j])@ == candidate_paths(stem@, language@)[j],
        decreases exts.len() - i,
    {
        assert(text::texts(exts@)[i as int] == exts@[i as int]@);
        let p = normpath(text::cat2(stem, exts[i].as_str()).as_str());
        out.push(p);
        i += 1;
    }
    assert(text::texts(out@) =~= candidate_paths(stem@, language@));
    out
}

// -------------------------------------------------------- choosing one path

/// Does the path `a` come before `b`: shorter first, then by spelling?
pub open spec fn shorter(a: Seq<char>, b: Seq<char>) -> bool {
    text::byte_len(a) < text::byte_len(b) || (text::byte_len(a) == text::byte_len(b) && text::before(a, b))
}

/// Does the path `a` come before `b`: shorter first, then by spelling?
pub fn is_shorter(a: &str, b: &str) -> (r: bool)
    ensures
        r == shorter(a@, b@),
{
    let m: u128 = text::byte_length(a);
    let n: u128 = text::byte_length(b);
    m < n || (m == n && text::comes_before(a, b))
}

/// How many leading segments two paths share, from the `i`th on.
pub open spec fn shared_from(a: Seq<Seq<char>>, b: Seq<Seq<char>>, i: nat) -> nat
    decreases a.len() - i,
{
    if i < a.len() && i < b.len() && a[i as int] == b[i as int] {
        shared_from(a, b, i + 1) + 1
    } else {
        0
    }
}

/// How many leading segments two paths share.
pub open spec fn shared(a: Seq<char>, b: Seq<char>) -> nat {
    shared_from(text::split_on(a, '/'), text::split_on(b, '/'), 0)
}

/// How many leading segments two paths share.
pub fn shared_segments(a: &str, b: &str) -> (r: usize)
    ensures
        r == shared(a@, b@),
{
    let x = text::split(a, '/');
    let y = text::split(b, '/');
    let mut i: usize = 0;
    while i < x.len() && i < y.len() && text::same(x[i].as_str(), y[i].as_str())
        invariant
            text::texts(x@) == text::split_on(a@, '/'),
            text::texts(y@) == text::split_on(b@, '/'),
            i <= x.len(),
            i <= y.len(),
            shared(a@, b@) == i + shared_from(text::texts(x@), text::texts(y@), i as nat),
        decreases x.len() - i,
    {
        assert(text::texts(x@)[i as int] == x@[i as int]@);
        assert(text::texts(y@)[i as int] == y@[i as int]@);
        i += 1;
    }
    assert(i < x.len() ==> text::texts(x@)[i as int] == x@[i as int]@);
    assert(i < y.len() ==> text::texts(y@)[i as int] == y@[i as int]@);
    i
}

/// Is `a` a better answer than `b` for a file at `near`? One that shares more
/// leading directories is; an empty `near` asks for the shortest.
pub open spec fn nearer(a: Seq<char>, b: Seq<char>, near: Seq<char>) -> bool {
    if near.len() == 0 || shared(a, near) == shared(b, near) {
        shorter(a, b)
    } else {
        shared(a, near) > shared(b, near)
    }
}

/// The best of the first `n` paths for a file at `near`.
pub open spec fn nearest_upto(hits: Seq<Seq<char>>, near: Seq<char>, n: nat) -> Option<Seq<char>>
    decreases n,
{
    if n == 0 {
        None
    } else {
        match nearest_upto(hits, near, (n - 1) as nat) {
            None => Some(hits[n - 1]),
            Some(best) => if nearer(hits[n - 1], best, near) {
                Some(hits[n - 1])
            } else {
                Some(best)
            },
        }
    }
}

/// The best path for a file at `near`.
pub open spec fn nearest(hits: Seq<Seq<char>>, near: Seq<char>) -> Option<Seq<char>> {
    nearest_upto(hits, near, hits.len())
}

/// The best path for a file at `near`.
pub fn pick(hits: &Vec<String>, near: &str) -> (r: Option<String>)
    ensures
        text::opt_text(r) == nearest(text::texts(hits@), near@),
{
    let mut best: Option<String> = None;
    let mut i: usize = 0;
    while i < hits.len()
        invariant
            i <= hits.len(),
            text::opt_text(best) == nearest_upto(text::texts(hits@), near@, i as nat),
        decreases hits.len() - i,
    {
        assert(text::texts(hits@)[i as int] == hits@[i as int]@);
        let take: bool = match &best {
            None => true,
            Some(b) => {
                let a = hits[i].as_str();
                if near.is_empty() {
                    is_shorter(a, b.as_str())
                } else {
                    let m: usize = shared_segments(a, near);
                    let n: usize = shared_segments(b.as_str(), near);
                    if m == n {
                        is_shorter(a, b.as_str())
                    } else {
                        m > n
                    }
                }
            },
        };
        if take {
            best = Some(hits[i].clone());
        }
        i += 1;
    }
    best
}

/// Does the path end with the candidate, as whole segments?
pub open spec fn names_file(path: Seq<char>, candidate: Seq<char>) -> bool {
    path == candidate || text::has_suffix(path, "/"@ + text::shed_start(candidate, "/"@))
}

/// Those of the first `n` known paths that end with the candidate.
pub open spec fn hits_upto(known: Seq<Seq<char>>, candidate: Seq<char>, n: nat) -> Seq<Seq<char>>
    decreases n,
{
    if n == 0 {
        Seq::empty()
    } else {
        let done = hits_upto(known, candidate, (n - 1) as nat);
        if names_file(known[n - 1], candidate) {
            done.push(known[n - 1])
        } else {
            done
        }
    }
}

/// The known paths that end with one of the first `n` candidates.
pub open spec fn all_hits_upto(
    known: Seq<Seq<char>>,
    cands: Seq<Seq<char>>,
    n: nat,
) -> Seq<Seq<char>>
    decreases n,
{
    if n == 0 {
        Seq::empty()
    } else {
        all_hits_upto(known, cands, (n - 1) as nat) + hits_upto(known, cands[n - 1], known.len())
    }
}

/// `s` without the slashes at its ends.
pub open spec fn unslashed(s: Seq<char>) -> Seq<char> {
    text::shed_end(text::shed_start(s, "/"@), "/"@)
}

/// The known path ending with `tail` (plus a language extension), preferring
/// one that shares the most leading directories with `near`.
pub open spec fn suffix_target(
    tail: Seq<char>,
    known: Seq<Seq<char>>,
    language: Seq<char>,
    near: Seq<char>,
) -> Option<Seq<char>> {
    let cands = candidate_paths(unslashed(tail), language);
    if unslashed(tail).len() == 0 {
        None
    } else {
        nearest(all_hits_upto(known, cands, cands.len()), near)
    }
}

/// The known path ending with `tail` (plus a language extension), preferring
/// one that shares the most leading directories with `near`.
pub fn suffix_match(tail: &str, known: &Vec<String>, language: &str, near: &str) -> (r: Option<
    String,
>)
    ensures
        text::opt_text(r) == suffix_target(tail@, text::texts(known@), language@, near@),
{
    let tail = text::trim_end_set(text::trim_start_set(tail, "/").as_str(), "/");
    if tail.as_str().is_empty() {
        return None;
    }
    let cands = candidates(tail.as_str(), language);
    let mut hits: Vec<String> = Vec::new();
    let mut i: usize = 0;
    while i < cands.len()
        invariant
            i <= cands.len(),
            text::texts(hits@) == all_hits_upto(text::texts(known@), text::texts(cands@), i as nat),
        decreases cands.len() - i,
    {
        assert(text::texts(cands@)[i as int] == cands@[i as int]@);
        let ghost done = text::texts(hits@);
        let needle = text::cat2("/", text::trim_start_set(cands[i].as_str(), "/").as_str());
        let mut j: usize = 0;
        while j < known.len()
            invariant
                i < cands.len(),
                j <= known.len(),
                needle@ == "/"@ + text::shed_start(cands@[i as int]@, "/"@),
                text::texts(hits@) == done + hits_upto(text::texts(known@), cands@[i as int]@, j as nat),
            decreases known.len() - j,
        {
            assert(text::texts(known@)[j as int] == known@[j as int]@);
            let ghost so_far = hits_upto(text::texts(known@), cands@[i as int]@, j as nat);
            if text::same(known[j].as_str(), cands[i].as_str()) || text::ends_with(
                known[j].as_str(),
                needle.as_str(),
            ) {
                let s = known[j].clone();
                proof {
                    text::lemma_texts_push(hits@, s);
                }
                hits.push(s);
                assert(text::texts(hits@) =~= done + so_far.push(known@[j as int]@));
            }
            j += 1;
        }
        i += 1;
    }
    pick(&hits, near)
}

/// Is the directory `dir` the one `tail` names, as whole segments?
pub open spec fn names_dir(dir: Seq<char>, tail: Seq<char>) -> bool {
    dir == tail || text::has_suffix(dir, "/"@ + tail)
}

/// The directories of the first `n` known paths that end with `tail`.
pub open spec fn dirs_upto(known: Seq<Seq<char>>, tail: Seq<char>, n: nat) -> Seq<Seq<char>>
    decreases n,
{
    if n == 0 {
        Seq::empty()
    } else {
        let done = dirs_upto(known, tail, (n - 1) as nat);
        if names_dir(dir_part(known[n - 1]), tail) {
            done.push(dir_part(known[n - 1]))
        } else {
            done
        }
    }
}

/// The shortest directory of the known paths that ends with `tail`, written
/// with a slash at its end.
pub open spec fn dir_target(tail: Seq<char>, known: Seq<Seq<char>>) -> Option<Seq<char>> {
    match nearest(dirs_upto(known, unslashed(tail), known.len()), text::no_text()) {
        Some(dir) => Some(dir + "/"@),
        None => None,
    }
}

/// A directory (returned with a trailing slash) whose path ends with `tail`.
pub fn dir_match(tail: &str, known: &Vec<String>) -> (r: Option<String>)
    ensures
        text::opt_text(r) == dir_target(tail@, text::texts(known@)),
{
    let tail = text::trim_end_set(text::trim_start_set(tail, "/").as_str(), "/");
    let needle = text::cat2("/", tail.as_str());
    let mut hits: Vec<String> = Vec::new();
    let mut i: usize = 0;
    while i < known.len()
        invariant
            i <= known.len(),
            needle@ == "/"@ + tail@,
            text::texts(hits@) == dirs_upto(text::texts(known@), tail@, i as nat),
        decreases known.len() - i,
    {
        assert(text::texts(known@)[i as int] == known@[i as int]@);
        let dir = dirname(known[i].as_str());
        if text::same(dir.as_str(), tail.as_str()) || text::ends_with(dir.as_str(), needle.as_str()) {
            proof {
                text::lemma_texts_push(hits@, dir);
            }
            hits.push(dir);
        }
        i += 1;
    }
    let none = String::new();
    match pick(&hits, none.as_str()) {
        Some(dir) => Some(text::cat2(dir.as_str(), "/")),
        None => None,
    }
}

// ------------------------------------------------------------------ modules

/// The first path from the `i`th candidate on that is known.
pub open spec fn first_known_from(
    cands: Seq<Seq<char>>,
    known: Seq<Seq<char>>,
    i: nat,
) -> Option<Seq<char>>
    decreases cands.len() - i,
{
    if i >= cands.len() {
        None
    } else if text::listed(known, cands[i as int]) {
        Some(cands[i as int])
    } else {
        first_known_from(cands, known, i + 1)
    }
}

/// The first file `stem` could name in the language that is known.
pub open spec fn known_file(
    stem: Seq<char>,
    language: Seq<char>,
    known: Seq<Seq<char>>,
) -> Option<Seq<char>> {
    first_known_from(candidate_paths(stem, language), known, 0)
}

/// The first file `stem` could name in the language that is known.
pub fn find_known(stem: &str, language: &str, known: &Vec<String>) -> (r: Option<String>)
    ensures
        text::opt_text(r) == known_file(stem@, language@, text::texts(known@)),
{
    let cands = candidates(stem, language);
    let mut i: usize = 0;
    while i < cands.len()
        invariant
            i <= cands.len(),
            text::texts(cands@) == candidate_paths(stem@, language@),
            known_file(stem@, language@, text::texts(known@)) == first_known_from(
                text::texts(cands@),
                text::texts(known@),
                i as nat,
            ),
        decreases cands.len() - i,
    {
        assert(text::texts(cands@)[i as int] == cands@[i as int]@);
        if text::is_listed(known, cands[i].as_str()) {
            return Some(cands[i].clone());
        }
        i += 1;
    }
    None
}

/// The directory `n` levels above `path`.
pub open spec fn climbed(path: Seq<char>, n: nat) -> Seq<char>
    decreases n,
{
    if n == 0 {
        path
    } else {
        dir_part(climbed(path, (n - 1) as nat))
    }
}

/// The directory `n` levels above `path`.
pub fn climb(path: &str, n: usize) -> (r: String)
    ensures
        r@ == climbed(path@, n as nat),
{
    let mut base: String = path.to_string();
    let mut i: usize = 0;
    while i < n
        invariant
            i <= n,
            base@ == climbed(path@, i as nat),
        decreases n - i,
    {
        base = dirname(base.as_str());
        i += 1;
    }
    base
}

/// Where a Python module string points: a dotted path, or dots that climb
/// from the importing package.
pub open spec fn python_target(
    module: Seq<char>,
    from_path: Seq<char>,
    known: Seq<Seq<char>>,
) -> Option<Seq<char>> {
    if text::has_prefix(module, "."@) {
        let dots = text::out_from(module, "."@, 0);
        let rest = text::swapped(module.skip(dots), '.', '/');
        let base = climbed(dir_part(from_path), (dots - 1) as nat);
        let stem = if rest.len() == 0 {
            base
        } else {
            path_join(base, rest)
        };
        match known_file(stem, "python"@, known) {
            Some(file) => Some(file),
            None => if rest.len() == 0 {
                dir_target(stem, known)
            } else {
                None
            },
        }
    } else {
        suffix_target(text::swapped(module, '.', '/'), known, "python"@, from_path)
    }
}

/// Where a Python module string points.
fn resolve_python(module: &str, from_path: &str, known: &Vec<String>) -> (r: Option<String>)
    ensures
        text::opt_text(r) == python_target(module@, from_path@, text::texts(known@)),
{
    if text::starts_with(module, ".") {
        let x = text::chars(module);
        let dot = text::chars(".");
        proof {
            reveal_strlit(".");
            assert(module@.take(1)[0] == module@[0]);
            assert("."@[0] == '.');
            assert("."@.contains(module@[0]));
        }
        let dots: usize = text::next_out(&x, &dot, 1);
        let tail = text::piece(&x, dots, x.len());
        assert(tail@ =~= module@.skip(dots as int));
        let rest = text::swap(tail.as_str(), '.', '/');
        let base = climb(dirname(from_path).as_str(), dots - 1);
        let stem = if rest.as_str().is_empty() {
            base
        } else {
            join_path(base.as_str(), rest.as_str())
        };
        match find_known(stem.as_str(), "python", known) {
            Some(file) => Some(file),
            None => {
                if rest.as_str().is_empty() {
                    dir_match(stem.as_str(), known)
                } else {
                    None
                }
            },
        }
    } else {
        suffix_match(text::swap(module, '.', '/').as_str(), known, "python", from_path)
    }
}

/// Is this an extension a script import may spell out?
pub open spec fn is_script_ext(ext: Seq<char>) -> bool {
    ext == ".js"@ || ext == ".jsx"@ || ext == ".ts"@ || ext == ".tsx"@ || ext == ".mjs"@ || ext
        == ".cjs"@
}

/// What stands after the first slash; the whole where there is none.
pub open spec fn after_slash(s: Seq<char>) -> Seq<char> {
    if text::next_of(s, '/', 0) < s.len() {
        s.skip(text::next_of(s, '/', 0) + 1)
    } else {
        s
    }
}

/// Where a TypeScript or JavaScript module string points: a relative file, a
/// path under the repo's own alias, or a package outside it.
pub open spec fn script_target(
    module: Seq<char>,
    from_path: Seq<char>,
    language: Seq<char>,
    known: Seq<Seq<char>>,
) -> Option<Seq<char>> {
    if text::has_prefix(module, "."@) {
        let full = normalized(path_join(dir_part(from_path), module));
        let stem = if is_script_ext(ext_split(full).1) {
            ext_split(full).0
        } else {
            full
        };
        match known_file(stem, language, known) {
            Some(file) => Some(file),
            None => if text::listed(known, stem) {
                Some(stem)
            } else {
                None
            },
        }
    } else if text::has_prefix(module, "@/"@) || text::has_prefix(module, "~/"@) || text::has_prefix(module, "src/"@) {
        let trimmed = if text::has_prefix(module, "@"@) || text::has_prefix(module, "~"@) {
            after_slash(module)
        } else {
            module
        };
        suffix_target(ext_split(trimmed).0, known, language, from_path)
    } else {
        None
    }
}

/// Where a TypeScript or JavaScript module string points.
fn resolve_script(module: &str, from_path: &str, language: &str, known: &Vec<String>) -> (r: Option<
    String,
>)
    ensures
        text::opt_text(r) == script_target(module@, from_path@, language@, text::texts(known@)),
{
    if text::starts_with(module, ".") {
        let full = normpath(join_path(dirname(from_path).as_str(), module).as_str());
        let (base, ext) = splitext(full.as_str());
        let e = ext.as_str();
        let stem = if text::same(e, ".js") || text::same(e, ".jsx") || text::same(e, ".ts") || text::same(e, ".tsx")
            || text::same(e, ".mjs") || text::same(e, ".cjs") {
            base
        } else {
            full
        };
        match find_known(stem.as_str(), language, known) {
            Some(file) => Some(file),
            None => {
                if text::is_listed(known, stem.as_str()) {
                    Some(stem)
                } else {
                    None
                }
            },
        }
    } else if text::starts_with(module, "@/") || text::starts_with(module, "~/") || text::starts_with(module, "src/") {
        let trimmed: String = if text::starts_with(module, "@") || text::starts_with(module, "~") {
            let x = text::chars(module);
            let k: usize = text::next_char(&x, '/', 0);
            if k < x.len() {
                let t = text::piece(&x, k + 1, x.len());
                assert(t@ =~= module@.skip(k + 1));
                t
            } else {
                module.to_string()
            }
        } else {
            module.to_string()
        };
        let (base, _ext) = splitext(trimmed.as_str());
        suffix_match(base.as_str(), known, language, from_path)
    } else {
        None
    }
}

/// How many `super` segments follow the `i`th.
pub open spec fn supers_from(parts: Seq<Seq<char>>, i: nat) -> nat
    decreases parts.len() - i,
{
    if i < parts.len() && parts[i as int] == "super"@ {
        supers_from(parts, i + 1) + 1
    } else {
        0
    }
}

/// The segments from the `k`th on as a path under `base`.
pub open spec fn under(base: Seq<char>, parts: Seq<Seq<char>>, k: nat) -> Seq<char> {
    if k >= parts.len() {
        base
    } else {
        path_join(base, text::joined(parts.skip(k as int), "/"@))
    }
}

/// The segments from the `k`th on as a path under `base`.
fn path_under(base: &str, parts: &Vec<String>, k: usize) -> (r: String)
    ensures
        r@ == under(base@, text::texts(parts@), k as nat),
{
    if k >= parts.len() {
        return base.to_string();
    }
    let mut rest: Vec<String> = Vec::new();
    let mut i: usize = k;
    while i < parts.len()
        invariant
            k <= i <= parts.len(),
            rest.len() == i - k,
            forall|j: int| 0 <= j < i - k ==> (#[trigger] rest@[j])@ == parts@[j + k]@,
        decreases parts.len() - i,
    {
        rest.push(parts[i].clone());
        i += 1;
    }
    assert(text::texts(rest@) =~= text::texts(parts@).skip(k as int));
    join_path(base, text::join(&rest, "/").as_str())
}

/// Where a Rust module path points, from its segments.
pub open spec fn rust_target(
    module: Seq<char>,
    from_path: Seq<char>,
    known: Seq<Seq<char>>,
) -> Option<Seq<char>> {
    let parts = text::filled(text::split_str_on(module, "::"@));
    if parts.len() == 0 {
        None
    } else if parts[0] != "crate"@ && parts[0] != "super"@ && parts[0] != "self"@ {
        suffix_target(text::joined(parts, "/"@), known, "rust"@, from_path)
    } else {
        let stem = if parts[0] == "crate"@ {
            let root = match dir_target("src"@, known) {
                Some(dir) => text::shed_end(dir, "/"@),
                None => text::no_text(),
            };
            under(root, parts, 1)
        } else if parts[0] == "super"@ {
            let n = supers_from(parts, 0);
            under(climbed(dir_part(from_path), n), parts, n)
        } else {
            under(dir_part(from_path), parts, 1)
        };
        match known_file(stem, "rust"@, known) {
            Some(file) => Some(file),
            None => dir_target(stem, known),
        }
    }
}

/// Where a Rust module path points.
fn resolve_rust(module: &str, from_path: &str, known: &Vec<String>) -> (r: Option<String>)
    ensures
        text::opt_text(r) == rust_target(module@, from_path@, text::texts(known@)),
{
    proof {
        reveal_strlit("::");
    }
    let pieces = text::split_str(module, "::");
    let parts = text::drop_empty(&pieces);
    if parts.len() == 0 {
        return None;
    }
    assert(text::texts(parts@)[0] == parts@[0]@);
    let here = dirname(from_path);
    let head = parts[0].as_str();
    let stem = if text::same(head, "crate") {
        let root: String = match dir_match("src", known) {
            Some(dir) => text::trim_end_set(dir.as_str(), "/"),
            None => String::new(),
        };
        path_under(root.as_str(), &parts, 1)
    } else if text::same(head, "super") {
        let mut n: usize = 0;
        while n < parts.len() && text::same(parts[n].as_str(), "super")
            invariant
                n <= parts.len(),
                supers_from(text::texts(parts@), 0) == n + supers_from(text::texts(parts@), n as nat),
            decreases parts.len() - n,
        {
            assert(text::texts(parts@)[n as int] == parts@[n as int]@);
            n += 1;
        }
        assert(n < parts.len() ==> text::texts(parts@)[n as int] == parts@[n as int]@);
        path_under(climb(here.as_str(), n).as_str(), &parts, n)
    } else if text::same(head, "self") {
        path_under(here.as_str(), &parts, 1)
    } else {
        return suffix_match(text::join(&parts, "/").as_str(), known, "rust", from_path);
    };
    match find_known(stem.as_str(), "rust", known) {
        Some(file) => Some(file),
        None => dir_match(stem.as_str(), known),
    }
}

/// Where a Go import path points: the directory its last segment names, where
/// the path could be one of the repo's own.
pub open spec fn go_target(module: Seq<char>, known: Seq<Seq<char>>) -> Option<Seq<char>> {
    if text::contains(text::split_on(module, '/')[0], "."@) || text::contains(module, "/"@) {
        dir_target(text::split_on(text::shed_end(module, "/"@), '/').last(), known)
    } else {
        None
    }
}

/// Where a Go import path points.
fn resolve_go(module: &str, known: &Vec<String>) -> (r: Option<String>)
    ensures
        text::opt_text(r) == go_target(module@, text::texts(known@)),
{
    let heads = text::split(module, '/');
    assert(text::texts(heads@)[0] == heads@[0]@);
    if text::has(heads[0].as_str(), ".") || text::has(module, "/") {
        let tails = text::split(text::trim_end_set(module, "/").as_str(), '/');
        assert(text::texts(tails@).last() == tails@[tails@.len() - 1]@);
        dir_match(tails[tails.len() - 1].as_str(), known)
    } else {
        None
    }
}

/// The segments in the case directories of the language are written in.
pub open spec fn lowered(parts: Seq<Seq<char>>, language: Seq<char>) -> Seq<Seq<char>> {
    Seq::new(
        parts.len(),
        |i: int|
            if language == "java"@ {
                text::lowercase(parts[i])
            } else {
                parts[i]
            },
    )
}

/// Where a Java, C# or PHP name points: a file, or else a directory.
pub open spec fn package_target(
    module: Seq<char>,
    from_path: Seq<char>,
    language: Seq<char>,
    known: Seq<Seq<char>>,
) -> Option<Seq<char>> {
    let separator = if language == "php"@ {
        '\\'
    } else {
        '.'
    };
    let parts = text::filled(text::split_on(module, separator));
    if parts.len() == 0 {
        None
    } else {
        match suffix_target(text::joined(parts, "/"@), known, language, from_path) {
            Some(file) => Some(file),
            None => match dir_target(text::joined(lowered(parts, language), "/"@), known) {
                Some(dir) => Some(dir),
                None => dir_target(text::joined(parts, "/"@), known),
            },
        }
    }
}

/// Where a Java, C# or PHP name points.
fn resolve_package(
    module: &str,
    from_path: &str,
    language: &str,
    known: &Vec<String>,
) -> (r: Option<String>)
    ensures
        text::opt_text(r) == package_target(module@, from_path@, language@, text::texts(known@)),
{
    let separator: char = if text::same(language, "php") {
        '\\'
    } else {
        '.'
    };
    let pieces = text::split(module, separator);
    let parts = text::drop_empty(&pieces);
    if parts.len() == 0 {
        return None;
    }
    let path = text::join(&parts, "/");
    if let Some(exact) = suffix_match(path.as_str(), known, language, from_path) {
        return Some(exact);
    }
    let java: bool = text::same(language, "java");
    let mut low: Vec<String> = Vec::new();
    let mut i: usize = 0;
    while i < parts.len()
        invariant
            i <= parts.len(),
            low.len() == i,
            java == (language@ == "java"@),
            forall|j: int|
                0 <= j < i ==> (#[trigger] low@[j])@ == lowered(text::texts(parts@), language@)[j],
        decreases parts.len() - i,
    {
        assert(text::texts(parts@)[i as int] == parts@[i as int]@);
        if java {
            low.push(text::to_lowercase(parts[i].as_str()));
        } else {
            low.push(parts[i].clone());
        }
        i += 1;
    }
    assert(text::texts(low@) =~= lowered(text::texts(parts@), language@));
    match dir_match(text::join(&low, "/").as_str(), known) {
        Some(dir) => Some(dir),
        None => dir_match(path.as_str(), known),
    }
}

/// Where a C or C++ header name points: as written, beside the file, or
/// anywhere it ends a path.
pub open spec fn header_target(
    module: Seq<char>,
    from_path: Seq<char>,
    language: Seq<char>,
    known: Seq<Seq<char>>,
) -> Option<Seq<char>> {
    let beside = normalized(path_join(dir_part(from_path), module));
    if text::listed(known, module) {
        Some(module)
    } else if text::listed(known, beside) {
        Some(beside)
    } else {
        suffix_target(module, known, language, from_path)
    }
}

/// Where a C or C++ header name points.
fn resolve_header(module: &str, from_path: &str, language: &str, known: &Vec<String>) -> (r: Option<
    String,
>)
    ensures
        text::opt_text(r) == header_target(module@, from_path@, language@, text::texts(known@)),
{
    if text::is_listed(known, module) {
        return Some(module.to_string());
    }
    let beside = normpath(join_path(dirname(from_path).as_str(), module).as_str());
    if text::is_listed(known, beside.as_str()) {
        return Some(beside);
    }
    suffix_match(module, known, language, from_path)
}

/// The first path from the `i`th candidate on that is known, as it stands or
/// read from `here`.
pub open spec fn first_beside_from(
    cands: Seq<Seq<char>>,
    here: Seq<char>,
    known: Seq<Seq<char>>,
    i: nat,
) -> Option<Seq<char>>
    decreases cands.len() - i,
{
    if i >= cands.len() {
        None
    } else {
        let beside = normalized(path_join(here, cands[i as int]));
        if text::listed(known, cands[i as int]) {
            Some(cands[i as int])
        } else if text::listed(known, beside) {
            Some(beside)
        } else {
            first_beside_from(cands, here, known, i + 1)
        }
    }
}

/// Where a Ruby require points.
pub open spec fn ruby_target(
    module: Seq<char>,
    from_path: Seq<char>,
    known: Seq<Seq<char>>,
) -> Option<Seq<char>> {
    let here = dir_part(from_path);
    let bare = match text::without_suffix(module, ".rb"@) {
        Some(s) => s,
        None => module,
    };
    let stem = if text::has_prefix(module, "."@) {
        normalized(path_join(here, bare))
    } else {
        bare
    };
    match first_beside_from(candidate_paths(stem, "ruby"@), here, known, 0) {
        Some(file) => Some(file),
        None => suffix_target(stem, known, "ruby"@, from_path),
    }
}

/// Where a Ruby require points.
fn resolve_ruby(module: &str, from_path: &str, known: &Vec<String>) -> (r: Option<String>)
    ensures
        text::opt_text(r) == ruby_target(module@, from_path@, text::texts(known@)),
{
    let here = dirname(from_path);
    let bare: String = match text::strip_suffix(module, ".rb") {
        Some(s) => s,
        None => module.to_string(),
    };
    let stem = if text::starts_with(module, ".") {
        normpath(join_path(here.as_str(), bare.as_str()).as_str())
    } else {
        bare
    };
    let cands = candidates(stem.as_str(), "ruby");
    let mut i: usize = 0;
    while i < cands.len()
        invariant
            i <= cands.len(),
            here@ == dir_part(from_path@),
            text::texts(cands@) == candidate_paths(stem@, "ruby"@),
            first_beside_from(text::texts(cands@), here@, text::texts(known@), 0) == first_beside_from(
                text::texts(cands@),
                here@,
                text::texts(known@),
                i as nat,
            ),
            ruby_target(module@, from_path@, text::texts(known@)) == (match first_beside_from(
                text::texts(cands@),
                here@,
                text::texts(known@),
                0,
            ) {
                Some(file) => Some(file),
                None => suffix_target(stem@, text::texts(known@), "ruby"@, from_path@),
            }),
        decreases cands.len() - i,
    {
        assert(text::texts(cands@)[i as int] == cands@[i as int]@);
        if text::is_listed(known, cands[i].as_str()) {
            return Some(cands[i].clone());
        }
        let beside = normpath(join_path(here.as_str(), cands[i].as_str()).as_str());
        if text::is_listed(known, beside.as_str()) {
            return Some(beside);
        }
        i += 1;
    }
    suffix_match(stem.as_str(), known, "ruby", from_path)
}

/// The repo path a module string points at, or none for something outside
/// the repo. A slash at its end means a package directory.
pub open spec fn module_target(
    module: Seq<char>,
    from_path: Seq<char>,
    language: Seq<char>,
    known: Seq<Seq<char>>,
) -> Option<Seq<char>> {
    let m = text::trimmed(module);
    if m.len() == 0 {
        None
    } else if language == "python"@ {
        python_target(m, from_path, known)
    } else if language == "typescript"@ || language == "tsx"@ || language == "javascript"@ {
        script_target(m, from_path, language, known)
    } else if language == "rust"@ {
        rust_target(m, from_path, known)
    } else if language == "go"@ {
        go_target(m, known)
    } else if language == "java"@ || language == "c_sharp"@ || language == "php"@ {
        package_target(m, from_path, language, known)
    } else if language == "c"@ || language == "cpp"@ {
        header_target(m, from_path, language, known)
    } else if language == "ruby"@ {
        ruby_target(m, from_path, known)
    } else {
        suffix_target(text::swapped(m, '.', '/'), known, language, from_path)
    }
}

/// The repo path a module string points at, or `None` for something outside
/// the repo. A trailing slash means a package directory.
pub fn resolve_module(module: &str, from_path: &str, language: &str, known: &Vec<String>) -> (r:
    Option<String>)
    ensures
        text::opt_text(r) == module_target(module@, from_path@, language@, text::texts(known@)),
{
    let trimmed = text::trim(module);
    let m = trimmed.as_str();
    if m.is_empty() {
        return None;
    }
    if text::same(language, "python") {
        resolve_python(m, from_path, known)
    } else if text::same(language, "typescript") || text::same(language, "tsx") || text::same(language, "javascript") {
        resolve_script(m, from_path, language, known)
    } else if text::same(language, "rust") {
        resolve_rust(m, from_path, known)
    } else if text::same(language, "go") {
        resolve_go(m, known)
    } else if text::same(language, "java") || text::same(language, "c_sharp") || text::same(language, "php") {
        resolve_package(m, from_path, language, known)
    } else if text::same(language, "c") || text::same(language, "cpp") {
        resolve_header(m, from_path, language, known)
    } else if text::same(language, "ruby") {
        resolve_ruby(m, from_path, known)
    } else {
        suffix_match(text::swap(m, '.', '/').as_str(), known, language, from_path)
    }
}

// -------------------------------------------------------------------- edges

/// One symbol's raw edges, as the parser recorded them.
pub struct SymbolEdges<'a> {
    pub name: &'a str,
    /// (target name, member accessed on it, edge kind)
    pub edges: &'a [(String, String, String)],
}

/// What a file imports from one module.
pub struct ImportSpec {
    pub module: String,
    /// (local name, name in the module); "*" as the second means the whole
    /// module
    pub names: Vec<(String, String)>,
}

/// An edge between two nodes.
pub struct Edge {
    pub from: String,
    pub to: String,
    pub kind: String,
    pub confidence: &'static str,
}

/// The texts of one symbol's raw edges.
pub struct SymbolText {
    pub name: Seq<char>,
    pub edges: Seq<(Seq<char>, Seq<char>, Seq<char>)>,
}

/// The texts of one import.
pub struct ImportText {
    pub module: Seq<char>,
    pub names: Seq<(Seq<char>, Seq<char>)>,
}

/// The texts of one edge.
pub struct EdgeText {
    pub from: Seq<char>,
    pub to: Seq<char>,
    pub kind: Seq<char>,
    pub confidence: Seq<char>,
}

/// The texts of a list of string triples.
pub open spec fn triples(v: Seq<(String, String, String)>) -> Seq<
    (Seq<char>, Seq<char>, Seq<char>),
> {
    Seq::new(v.len(), |i: int| (v[i].0@, v[i].1@, v[i].2@))
}

impl<'a> View for SymbolEdges<'a> {
    type V = SymbolText;

    open spec fn view(&self) -> SymbolText {
        SymbolText { name: self.name@, edges: triples(self.edges@) }
    }
}

impl View for ImportSpec {
    type V = ImportText;

    open spec fn view(&self) -> ImportText {
        ImportText { module: self.module@, names: text::text_pairs(self.names@) }
    }
}

impl View for Edge {
    type V = EdgeText;

    open spec fn view(&self) -> EdgeText {
        EdgeText {
            from: self.from@,
            to: self.to@,
            kind: self.kind@,
            confidence: self.confidence@,
        }
    }
}

/// The texts of a list of symbols.
pub open spec fn symbol_texts(v: Seq<SymbolEdges>) -> Seq<SymbolText> {
    Seq::new(v.len(), |i: int| v[i]@)
}

/// The texts of a list of imports.
pub open spec fn import_texts(v: Seq<ImportSpec>) -> Seq<ImportText> {
    Seq::new(v.len(), |i: int| v[i]@)
}

/// The texts of a list of edges.
pub open spec fn edge_texts(v: Seq<Edge>) -> Seq<EdgeText> {
    Seq::new(v.len(), |i: int| v[i]@)
}

/// Which files define which name: a table from names to paths.
pub open spec fn index_texts(v: Seq<(String, Vec<String>)>) -> Seq<(Seq<char>, Seq<Seq<char>>)> {
    Seq::new(v.len(), |i: int| (v[i].0@, text::texts(v[i].1@)))
}

/// One file among the files of its repository.
pub struct Setting {
    pub path: Seq<char>,
    pub language: Seq<char>,
    pub symbols: Seq<SymbolText>,
    pub imports: Seq<ImportText>,
    pub known: Seq<Seq<char>>,
    pub index: Seq<(Seq<char>, Seq<Seq<char>>)>,
}

/// The names the file itself declares.
pub open spec fn declares(symbols: Seq<SymbolText>, name: Seq<char>) -> bool {
    exists|i: int| 0 <= i < symbols.len() && (#[trigger] symbols[i]).name == name
}

/// What the last of the first `n` names bound as `local` stands for.
pub open spec fn last_named(names: Seq<(Seq<char>, Seq<char>)>, local: Seq<char>, n: nat) -> Option<
    Seq<char>,
>
    decreases n,
{
    if n == 0 {
        None
    } else if names[n - 1].0 == local {
        Some(names[n - 1].1)
    } else {
        last_named(names, local, (n - 1) as nat)
    }
}

/// The module and the name in it that the first `n` imports bind `local` to;
/// a later import binds over an earlier one.
pub open spec fn binding(imports: Seq<ImportText>, local: Seq<char>, n: nat) -> Option<
    (Seq<char>, Seq<char>),
>
    decreases n,
{
    if n == 0 || local == "*"@ {
        None
    } else {
        match last_named(imports[n - 1].names, local, imports[n - 1].names.len()) {
            Some(exported) => Some((imports[n - 1].module, exported)),
            None => binding(imports, local, (n - 1) as nat),
        }
    }
}

/// Does the file at `path` define `name`?
pub open spec fn defines(
    index: Seq<(Seq<char>, Seq<Seq<char>>)>,
    path: Seq<char>,
    name: Seq<char>,
) -> bool {
    match table::value(index, name) {
        Some(paths) => text::listed(paths, path),
        None => false,
    }
}

/// The files that define `name`.
pub open spec fn definers(index: Seq<(Seq<char>, Seq<Seq<char>>)>, name: Seq<char>) -> Seq<
    Seq<char>,
> {
    match table::value(index, name) {
        Some(paths) => paths,
        None => Seq::empty(),
    }
}

/// Those of the first `n` paths that lie in the directory `dir`.
pub open spec fn in_dir_upto(paths: Seq<Seq<char>>, dir: Seq<char>, n: nat) -> Seq<Seq<char>>
    decreases n,
{
    if n == 0 {
        Seq::empty()
    } else {
        let done = in_dir_upto(paths, dir, (n - 1) as nat);
        if dir_part(paths[n - 1]) == dir {
            done.push(paths[n - 1])
        } else {
            done
        }
    }
}

/// Those of the first `n` paths that are not `path`.
pub open spec fn elsewhere_upto(paths: Seq<Seq<char>>, path: Seq<char>, n: nat) -> Seq<Seq<char>>
    decreases n,
{
    if n == 0 {
        Seq::empty()
    } else {
        let done = elsewhere_upto(paths, path, (n - 1) as nat);
        if paths[n - 1] != path {
            done.push(paths[n - 1])
        } else {
            done
        }
    }
}

/// Where the file's modules point.
#[verifier::opaque]
pub open spec fn points_at(f: Setting, module: Seq<char>) -> Option<Seq<char>> {
    module_target(module, f.path, f.language, f.known)
}

/// Does the import bring in everything its module holds?
pub open spec fn is_wildcard(import: ImportText) -> bool {
    exists|j: int| 0 <= j < import.names.len() && (#[trigger] import.names[j]).0 == "*"@
}

/// Does what an import points at cover the file at `candidate`: as the file
/// itself, or as a directory above it?
pub open spec fn covers(target: Option<Seq<char>>, candidate: Seq<char>) -> bool {
    match target {
        Some(w) => candidate == w || (text::has_suffix(w, "/"@) && text::has_prefix(candidate, w)),
        None => false,
    }
}

/// Does one of the file's wildcard imports cover the file at `candidate`?
pub open spec fn under_wildcard(f: Setting, candidate: Seq<char>) -> bool {
    exists|i: int|
        0 <= i < f.imports.len() && is_wildcard(#[trigger] f.imports[i]) && covers(
            points_at(f, f.imports[i].module),
            candidate,
        )
}

/// Those of the first `n` paths that a wildcard import covers.
pub open spec fn wild_upto(f: Setting, paths: Seq<Seq<char>>, n: nat) -> Seq<Seq<char>>
    decreases n,
{
    if n == 0 {
        Seq::empty()
    } else {
        let done = wild_upto(f, paths, (n - 1) as nat);
        if under_wildcard(f, paths[n - 1]) {
            done.push(paths[n - 1])
        } else {
            done
        }
    }
}

/// The name of something outside the repository.
pub open spec fn outside_name(module: Seq<char>, tail: Seq<char>) -> Seq<char> {
    text::shed_end("ext:"@ + module + "."@ + tail, "."@)
}

/// Where a name bound by an import leads, and how sure that is.
pub open spec fn bound_end(
    f: Setting,
    module: Seq<char>,
    exported: Seq<char>,
    member: Seq<char>,
) -> (Seq<char>, Seq<char>) {
    match points_at(f, module) {
        None => {
            let tail = if member.len() > 0 {
                member
            } else if exported != "*"@ && exported != "default"@ {
                exported
            } else {
                text::no_text()
            };
            (outside_name(module, tail), EXTRACTED@)
        },
        Some(t) => if text::has_suffix(t, "/"@) {
            let paths = definers(f.index, member);
            let hit = if member.len() > 0 {
                nearest(in_dir_upto(paths, text::shed_end(t, "/"@), paths.len()), text::no_text())
            } else {
                None
            };
            match hit {
                Some(file) => (node_name(file, member), EXTRACTED@),
                None => (node_name(text::shed_end(t, "/"@) + "/"@, text::no_text()), INFERRED@),
            }
        } else if exported == "*"@ || exported == "default"@ {
            if member.len() > 0 && defines(f.index, t, member) {
                (node_name(t, member), EXTRACTED@)
            } else if exported == "default"@ {
                (node_name(t, text::no_text()), INFERRED@)
            } else {
                (node_name(t, text::no_text()), EXTRACTED@)
            }
        } else if defines(f.index, t, exported) {
            (node_name(t, exported), EXTRACTED@)
        } else {
            (node_name(t, exported), INFERRED@)
        },
    }
}

/// Where a name nothing in the file binds leads: to a file that defines it, if
/// any does, and to the nearest where several do. Files that a wildcard import
/// covers come first, those beside the file next.
pub open spec fn free_end(f: Setting, target: Seq<char>) -> Option<(Seq<char>, Seq<char>)> {
    let paths = definers(f.index, target);
    let all = elsewhere_upto(paths, f.path, paths.len());
    let wild = wild_upto(f, all, all.len());
    let beside = in_dir_upto(all, dir_part(f.path), all.len());
    let pool = if wild.len() > 0 {
        wild
    } else if beside.len() > 0 {
        beside
    } else {
        all
    };
    match nearest(pool, f.path) {
        Some(file) => Some(
            (
                node_name(file, target),
                if all.len() == 1 {
                    INFERRED@
                } else {
                    AMBIGUOUS@
                },
            ),
        ),
        None => None,
    }
}

/// Where a name the symbol touches leads, and how sure that is.
pub open spec fn edge_end(f: Setting, symbol: Seq<char>, target: Seq<char>, member: Seq<char>) -> Option<
    (Seq<char>, Seq<char>),
> {
    if declares(f.symbols, target) && target != symbol {
        Some((node_name(f.path, target), EXTRACTED@))
    } else {
        match binding(f.imports, target, f.imports.len()) {
            Some(b) => Some(bound_end(f, b.0, b.1, member)),
            None => free_end(f, target),
        }
    }
}

/// How telling an edge's kind is: the lower, the more.
pub open spec fn kind_rank(kind: Seq<char>) -> nat {
    if kind == "inherits"@ {
        0
    } else if kind == "calls"@ {
        1
    } else if kind == "uses_type"@ {
        2
    } else if kind == "references"@ {
        3
    } else {
        4
    }
}

/// Does an edge come before another: by where it starts, then by where it
/// leads?
pub open spec fn edge_before(a: EdgeText, b: EdgeText) -> bool {
    text::before(a.from, b.from) || (a.from == b.from && text::before(a.to, b.to))
}

/// The first place from `i` on whose edge does not come before `e`.
pub open spec fn edge_seat(edges: Seq<EdgeText>, e: EdgeText, i: int) -> int
    decreases edges.len() - i,
{
    if i >= edges.len() {
        edges.len() as int
    } else if edge_before(edges[i], e) {
        edge_seat(edges, e, i + 1)
    } else {
        i
    }
}

/// The edges with `e` among them; of two edges between the same ends the more
/// telling one is kept, and the earlier one where they tell as much.
pub open spec fn with_edge(edges: Seq<EdgeText>, e: EdgeText) -> Seq<EdgeText> {
    let p = edge_seat(edges, e, 0);
    if p < edges.len() && edges[p].from == e.from && edges[p].to == e.to {
        if kind_rank(e.kind) < kind_rank(edges[p].kind) {
            edges.update(p, e)
        } else {
            edges
        }
    } else {
        edges.insert(p, e)
    }
}

/// The edges found so far, and the one that a raw edge of the symbol gives.
pub open spec fn with_raw(
    f: Setting,
    symbol: Seq<char>,
    raw: (Seq<char>, Seq<char>, Seq<char>),
    done: Seq<EdgeText>,
) -> Seq<EdgeText> {
    let from = node_name(f.path, symbol);
    match edge_end(f, symbol, raw.0, raw.1) {
        Some(end) => if end.0 == from {
            done
        } else {
            with_edge(done, EdgeText { from: from, to: end.0, kind: raw.2, confidence: end.1 })
        },
        None => done,
    }
}

/// The edges found so far, and those of the symbol's first `n` raw edges.
pub open spec fn symbol_edges_upto(
    f: Setting,
    symbol: SymbolText,
    n: nat,
    done: Seq<EdgeText>,
) -> Seq<EdgeText>
    decreases n,
{
    if n == 0 {
        done
    } else {
        with_raw(
            f,
            symbol.name,
            symbol.edges[n - 1],
            symbol_edges_upto(f, symbol, (n - 1) as nat, done),
        )
    }
}

/// The edges of the file's first `n` symbols.
pub open spec fn file_edges_upto(f: Setting, n: nat) -> Seq<EdgeText>
    decreases n,
{
    if n == 0 {
        Seq::empty()
    } else {
        let symbol = f.symbols[n - 1];
        symbol_edges_upto(f, symbol, symbol.edges.len(), file_edges_upto(f, (n - 1) as nat))
    }
}

/// The edges of a file.
pub open spec fn file_edges(f: Setting) -> Seq<EdgeText> {
    file_edges_upto(f, f.symbols.len())
}

/// Are the edges in order, no two between the same ends?
pub open spec fn edges_ordered(edges: Seq<EdgeText>) -> bool {
    forall|i: int, j: int|
        0 <= i < j < edges.len() ==> edge_before(#[trigger] edges[i], #[trigger] edges[j])
}

/// The order of edges is transitive.
proof fn lemma_edge_before_trans(a: EdgeText, b: EdgeText, c: EdgeText)
    requires
        edge_before(a, b),
        edge_before(b, c),
    ensures
        edge_before(a, c),
{
    if text::before(a.from, b.from) && text::before(b.from, c.from) {
        text::lemma_before_trans(a.from, b.from, c.from, 0);
    }
    if text::before(a.to, b.to) && text::before(b.to, c.to) {
        text::lemma_before_trans(a.to, b.to, c.to, 0);
    }
}

/// What the seat of an edge means.
proof fn lemma_edge_seat(edges: Seq<EdgeText>, e: EdgeText, i: int)
    requires
        0 <= i <= edges.len(),
    ensures
        i <= edge_seat(edges, e, i) <= edges.len(),
        forall|j: int| i <= j < edge_seat(edges, e, i) ==> edge_before(#[trigger] edges[j], e),
        edge_seat(edges, e, i) < edges.len() ==> !edge_before(edges[edge_seat(edges, e, i)], e),
    decreases edges.len() - i,
{
    if i < edges.len() && edge_before(edges[i], e) {
        lemma_edge_seat(edges, e, i + 1);
    }
}

/// Adding an edge keeps the order.
proof fn lemma_with_edge(edges: Seq<EdgeText>, e: EdgeText)
    requires
        edges_ordered(edges),
    ensures
        edges_ordered(with_edge(edges, e)),
        forall|i: int|
            0 <= i < with_edge(edges, e).len() ==> (#[trigger] with_edge(edges, e)[i]) == e
                || edges.contains(with_edge(edges, e)[i]),
{
    lemma_edge_seat(edges, e, 0);
    let p = edge_seat(edges, e, 0);
    let out = with_edge(edges, e);
    if p < edges.len() && edges[p].from == e.from && edges[p].to == e.to {
        assert forall|i: int| 0 <= i < out.len() implies (#[trigger] out[i]) == e
            || edges.contains(out[i]) by {
            assert(edges.contains(edges[i]));
        }
        assert forall|i: int, j: int| 0 <= i < j < out.len() implies edge_before(
            #[trigger] out[i],
            #[trigger] out[j],
        ) by {
            assert(edge_before(edges[i], edges[j]));
        }
    } else {
        if p < edges.len() {
            text::lemma_before_total(edges[p].from, e.from, 0);
            text::lemma_before_total(edges[p].to, e.to, 0);
            assert(edge_before(e, edges[p]));
        }
        assert forall|i: int| 0 <= i < out.len() implies (#[trigger] out[i]) == e
            || edges.contains(out[i]) by {
            if i < p {
                assert(out[i] == edges[i]);
            } else if i > p {
                assert(out[i] == edges[i - 1]);
            }
        }
        assert forall|i: int, j: int| 0 <= i < j < out.len() implies edge_before(
            #[trigger] out[i],
            #[trigger] out[j],
        ) by {
            if j < p {
                assert(edge_before(edges[i], edges[j]));
            } else if j == p {
            } else if i < p {
                assert(edge_before(edges[i], edges[j - 1]));
            } else if i == p {
                if j - 1 > p {
                    assert(edge_before(edges[p], edges[j - 1]));
                    lemma_edge_before_trans(e, edges[p], edges[j - 1]);
                }
            } else {
                assert(edge_before(edges[i - 1], edges[j - 1]));
            }
        }
    }
}

/// Is this a file of the repository, or the directory of one?
pub open spec fn in_repo(known: Seq<Seq<char>>, t: Seq<char>) -> bool {
    text::listed(known, t) || exists|k: int|
        0 <= k < known.len() && t == dir_part(#[trigger] known[k]) + "/"@
}

/// The nearest of the hits is one of them.
proof fn lemma_nearest(hits: Seq<Seq<char>>, near: Seq<char>, n: nat)
    requires
        n <= hits.len(),
    ensures
        nearest_upto(hits, near, n) matches Some(x) ==> text::listed(hits, x),
        nearest_upto(hits, near, n) is None <==> n == 0,
    decreases n,
{
    if n > 0 {
        lemma_nearest(hits, near, (n - 1) as nat);
        assert(text::listed(hits, hits[n - 1]));
    }
}

/// Every hit is a file of the repository.
proof fn lemma_hits(known: Seq<Seq<char>>, candidate: Seq<char>, n: nat, x: Seq<char>)
    requires
        n <= known.len(),
        text::listed(hits_upto(known, candidate, n), x),
    ensures
        text::listed(known, x),
    decreases n,
{
    if n > 0 {
        let done = hits_upto(known, candidate, (n - 1) as nat);
        let all = hits_upto(known, candidate, n);
        let i = choose|i: int| 0 <= i < all.len() && #[trigger] all[i] == x;
        if i < done.len() {
            assert(done[i] == x);
            lemma_hits(known, candidate, (n - 1) as nat, x);
        } else {
            assert(known[n - 1] == x);
        }
    }
}

/// Every hit of every candidate is a file of the repository.
proof fn lemma_all_hits(known: Seq<Seq<char>>, cands: Seq<Seq<char>>, n: nat, x: Seq<char>)
    requires
        n <= cands.len(),
        text::listed(all_hits_upto(known, cands, n), x),
    ensures
        text::listed(known, x),
    decreases n,
{
    if n > 0 {
        let done = all_hits_upto(known, cands, (n - 1) as nat);
        let more = hits_upto(known, cands[n - 1], known.len());
        let all = all_hits_upto(known, cands, n);
        let i = choose|i: int| 0 <= i < all.len() && #[trigger] all[i] == x;
        if i < done.len() {
            assert(done[i] == x);
            lemma_all_hits(known, cands, (n - 1) as nat, x);
        } else {
            assert(more[i - done.len()] == x);
            lemma_hits(known, cands[n - 1], known.len(), x);
        }
    }
}

/// A match by suffix is a file of the repository.
proof fn lemma_suffix_target(
    tail: Seq<char>,
    known: Seq<Seq<char>>,
    language: Seq<char>,
    near: Seq<char>,
)
    ensures
        suffix_target(tail, known, language, near) matches Some(t) ==> text::listed(known, t),
{
    let cands = candidate_paths(unslashed(tail), language);
    let hits = all_hits_upto(known, cands, cands.len());
    if let Some(t) = suffix_target(tail, known, language, near) {
        lemma_nearest(hits, near, hits.len());
        lemma_all_hits(known, cands, cands.len(), t);
    }
}

/// Every directory found is the directory of a file.
proof fn lemma_dirs(known: Seq<Seq<char>>, tail: Seq<char>, n: nat, x: Seq<char>)
    requires
        n <= known.len(),
        text::listed(dirs_upto(known, tail, n), x),
    ensures
        exists|k: int| 0 <= k < known.len() && x == dir_part(#[trigger] known[k]),
    decreases n,
{
    if n > 0 {
        let done = dirs_upto(known, tail, (n - 1) as nat);
        let all = dirs_upto(known, tail, n);
        let i = choose|i: int| 0 <= i < all.len() && #[trigger] all[i] == x;
        if i < done.len() {
            assert(done[i] == x);
            lemma_dirs(known, tail, (n - 1) as nat, x);
        } else {
            assert(x == dir_part(known[n - 1]));
        }
    }
}

/// A match by directory is the directory of a file.
proof fn lemma_dir_target(tail: Seq<char>, known: Seq<Seq<char>>)
    ensures
        dir_target(tail, known) matches Some(t) ==> in_repo(known, t),
{
    let dirs = dirs_upto(known, unslashed(tail), known.len());
    if let Some(x) = nearest(dirs, text::no_text()) {
        lemma_nearest(dirs, text::no_text(), dirs.len());
        lemma_dirs(known, unslashed(tail), known.len(), x);
    }
}

/// The first known candidate is known.
proof fn lemma_first_known(cands: Seq<Seq<char>>, known: Seq<Seq<char>>, i: nat)
    ensures
        first_known_from(cands, known, i) matches Some(t) ==> text::listed(known, t),
    decreases cands.len() - i,
{
    if i < cands.len() {
        lemma_first_known(cands, known, i + 1);
    }
}

/// The first known candidate, in itself or beside a file, is known.
proof fn lemma_first_beside(
    cands: Seq<Seq<char>>,
    here: Seq<char>,
    known: Seq<Seq<char>>,
    i: nat,
)
    ensures
        first_beside_from(cands, here, known, i) matches Some(t) ==> text::listed(known, t),
    decreases cands.len() - i,
{
    if i < cands.len() {
        lemma_first_beside(cands, here, known, i + 1);
    }
}

/// A module never points at anything but a file of the repository, or the
/// directory of one.
pub proof fn law_modules_point_into_the_repo(
    module: Seq<char>,
    from_path: Seq<char>,
    language: Seq<char>,
    known: Seq<Seq<char>>,
)
    ensures
        module_target(module, from_path, language, known) matches Some(t) ==> in_repo(known, t),
{
    assert forall|tail: Seq<char>, lang: Seq<char>, near: Seq<char>| (
    #[trigger] suffix_target(tail, known, lang, near)) is Some implies text::listed(
        known,
        suffix_target(tail, known, lang, near)->0,
    ) by {
        lemma_suffix_target(tail, known, lang, near);
    }
    assert forall|tail: Seq<char>| (#[trigger] dir_target(tail, known)) is Some implies in_repo(
        known,
        dir_target(tail, known)->0,
    ) by {
        lemma_dir_target(tail, known);
    }
    assert forall|cands: Seq<Seq<char>>, i: nat| (
    #[trigger] first_known_from(cands, known, i)) is Some implies text::listed(
        known,
        first_known_from(cands, known, i)->0,
    ) by {
        lemma_first_known(cands, known, i);
    }
    assert forall|cands: Seq<Seq<char>>, here: Seq<char>, i: nat| (
    #[trigger] first_beside_from(cands, here, known, i)) is Some implies text::listed(
        known,
        first_beside_from(cands, here, known, i)->0,
    ) by {
        lemma_first_beside(cands, here, known, i);
    }
}

/// Is there such a node: in the file itself, in a file that defines the
/// symbol, or in a file or directory of the repository?
pub open spec fn is_node(f: Setting, path: Seq<char>, symbol: Seq<char>) -> bool {
    ||| path == f.path && declares(f.symbols, symbol)
    ||| text::listed(definers(f.index, symbol), path)
    ||| in_repo(f.known, path)
    ||| exists|dir: Seq<char>| #[trigger]
        in_repo(f.known, dir) && text::has_suffix(dir, "/"@) && path == text::shed_end(dir, "/"@)
            + "/"@
}

/// Is this where an edge may lead: to a node that there is, or to something
/// outside the repository that a module of the file names?
pub open spec fn leads_somewhere(f: Setting, to: Seq<char>) -> bool {
    ||| exists|path: Seq<char>, symbol: Seq<char>| #[trigger]
        node_name(path, symbol) == to && is_node(f, path, symbol)
    ||| exists|module: Seq<char>, tail: Seq<char>|
        points_at(f, module) is None && to == #[trigger] outside_name(module, tail)
}

/// The paths of a file's own directory are among the paths.
proof fn lemma_in_dir(paths: Seq<Seq<char>>, dir: Seq<char>, n: nat, x: Seq<char>)
    requires
        n <= paths.len(),
        text::listed(in_dir_upto(paths, dir, n), x),
    ensures
        text::listed(paths, x),
    decreases n,
{
    if n > 0 {
        let done = in_dir_upto(paths, dir, (n - 1) as nat);
        let all = in_dir_upto(paths, dir, n);
        let i = choose|i: int| 0 <= i < all.len() && #[trigger] all[i] == x;
        if i < done.len() {
            assert(done[i] == x);
            lemma_in_dir(paths, dir, (n - 1) as nat, x);
        } else {
            assert(paths[n - 1] == x);
        }
    }
}

/// The paths elsewhere are among the paths.
proof fn lemma_elsewhere(paths: Seq<Seq<char>>, path: Seq<char>, n: nat, x: Seq<char>)
    requires
        n <= paths.len(),
        text::listed(elsewhere_upto(paths, path, n), x),
    ensures
        text::listed(paths, x),
    decreases n,
{
    if n > 0 {
        let done = elsewhere_upto(paths, path, (n - 1) as nat);
        let all = elsewhere_upto(paths, path, n);
        let i = choose|i: int| 0 <= i < all.len() && #[trigger] all[i] == x;
        if i < done.len() {
            assert(done[i] == x);
            lemma_elsewhere(paths, path, (n - 1) as nat, x);
        } else {
            assert(paths[n - 1] == x);
        }
    }
}

/// The paths that a wildcard covers are among the paths.
proof fn lemma_wild(f: Setting, paths: Seq<Seq<char>>, n: nat, x: Seq<char>)
    requires
        n <= paths.len(),
        text::listed(wild_upto(f, paths, n), x),
    ensures
        text::listed(paths, x),
    decreases n,
{
    if n > 0 {
        let done = wild_upto(f, paths, (n - 1) as nat);
        let all = wild_upto(f, paths, n);
        let i = choose|i: int| 0 <= i < all.len() && #[trigger] all[i] == x;
        if i < done.len() {
            assert(done[i] == x);
            lemma_wild(f, paths, (n - 1) as nat, x);
        } else {
            assert(paths[n - 1] == x);
        }
    }
}

/// A name bound by an import leads somewhere.
proof fn lemma_bound_end(f: Setting, module: Seq<char>, exported: Seq<char>, member: Seq<char>)
    ensures
        leads_somewhere(f, bound_end(f, module, exported, member).0),
{
    let to = bound_end(f, module, exported, member).0;
    match points_at(f, module) {
        None => {
            let tail = if member.len() > 0 {
                member
            } else if exported != "*"@ && exported != "default"@ {
                exported
            } else {
                text::no_text()
            };
            assert(to == outside_name(module, tail));
        },
        Some(t) => {
            assert(in_repo(f.known, t)) by {
                reveal(points_at);
                law_modules_point_into_the_repo(module, f.path, f.language, f.known);
            }
            if text::has_suffix(t, "/"@) {
                let paths = definers(f.index, member);
                let beside = in_dir_upto(paths, text::shed_end(t, "/"@), paths.len());
                lemma_nearest(beside, text::no_text(), beside.len());
                let hit = nearest(beside, text::no_text());
                if member.len() > 0 && hit is Some {
                    lemma_in_dir(paths, text::shed_end(t, "/"@), paths.len(), hit->0);
                    assert(to == node_name(hit->0, member));
                    assert(is_node(f, hit->0, member));
                } else {
                    let dir = text::shed_end(t, "/"@) + "/"@;
                    assert(is_node(f, dir, text::no_text()));
                    assert(to == node_name(dir, text::no_text()));
                }
            } else {
                assert(is_node(f, t, member));
                assert(is_node(f, t, exported));
                assert(is_node(f, t, text::no_text()));
            }
        },
    }
}

/// A name that nothing binds leads to a file that defines it.
proof fn lemma_free_end(f: Setting, target: Seq<char>)
    ensures
        free_end(f, target) matches Some(end) ==> leads_somewhere(f, end.0),
{
    let paths = definers(f.index, target);
    let all = elsewhere_upto(paths, f.path, paths.len());
    let wild = wild_upto(f, all, all.len());
    let beside = in_dir_upto(all, dir_part(f.path), all.len());
    let pool = if wild.len() > 0 {
        wild
    } else if beside.len() > 0 {
        beside
    } else {
        all
    };
    if let Some(file) = nearest(pool, f.path) {
        lemma_nearest(pool, f.path, pool.len());
        if wild.len() > 0 {
            lemma_wild(f, all, all.len(), file);
        } else if beside.len() > 0 {
            lemma_in_dir(all, dir_part(f.path), all.len(), file);
        }
        lemma_elsewhere(paths, f.path, paths.len(), file);
        assert(is_node(f, file, target));
        let end = free_end(f, target)->0;
        assert(end.0 == node_name(file, target));
    }
}

/// Wherever an edge leads, there is something.
proof fn lemma_edge_end(f: Setting, symbol: Seq<char>, target: Seq<char>, member: Seq<char>)
    ensures
        edge_end(f, symbol, target, member) matches Some(end) ==> leads_somewhere(f, end.0),
{
    if declares(f.symbols, target) && target != symbol {
        assert(is_node(f, f.path, target));
        let end = edge_end(f, symbol, target, member)->0;
        assert(end.0 == node_name(f.path, target));
    } else {
        match binding(f.imports, target, f.imports.len()) {
            Some(b) => lemma_bound_end(f, b.0, b.1, member),
            None => lemma_free_end(f, target),
        }
    }
}

/// Is this an edge the file may have: from one of its own symbols, to
/// something else that there is, of one of the three confidences?
pub open spec fn edge_fits(f: Setting, e: EdgeText) -> bool {
    &&& e.from != e.to
    &&& exists|k: int|
        0 <= k < f.symbols.len() && e.from == node_name(f.path, (#[trigger] f.symbols[k]).name)
    &&& leads_somewhere(f, e.to)
    &&& (e.confidence == EXTRACTED@ || e.confidence == INFERRED@ || e.confidence == AMBIGUOUS@)
}

/// The edges of one more symbol keep the order and fit the file.
proof fn lemma_symbol_edges(f: Setting, k: int, n: nat, done: Seq<EdgeText>)
    requires
        0 <= k < f.symbols.len(),
        n <= f.symbols[k].edges.len(),
        edges_ordered(done),
        forall|i: int| 0 <= i < done.len() ==> edge_fits(f, #[trigger] done[i]),
    ensures
        edges_ordered(symbol_edges_upto(f, f.symbols[k], n, done)),
        forall|i: int|
            0 <= i < symbol_edges_upto(f, f.symbols[k], n, done).len() ==> edge_fits(
                f,
                #[trigger] symbol_edges_upto(f, f.symbols[k], n, done)[i],
            ),
    decreases n,
{
    if n > 0 {
        let symbol = f.symbols[k];
        let prior = symbol_edges_upto(f, symbol, (n - 1) as nat, done);
        let raw = symbol.edges[n - 1];
        lemma_symbol_edges(f, k, (n - 1) as nat, done);
        lemma_edge_end(f, symbol.name, raw.0, raw.1);
        let from = node_name(f.path, symbol.name);
        match edge_end(f, symbol.name, raw.0, raw.1) {
            Some(end) => {
                if end.0 != from {
                    let e = EdgeText { from: from, to: end.0, kind: raw.2, confidence: end.1 };
                    lemma_with_edge(prior, e);
                    assert(edge_fits(f, e));
                    let out = with_edge(prior, e);
                    assert forall|i: int| 0 <= i < out.len() implies edge_fits(
                        f,
                        #[trigger] out[i],
                    ) by {
                        if out[i] != e {
                            let j = choose|j: int| 0 <= j < prior.len() && prior[j] == out[i];
                            assert(edge_fits(f, prior[j]));
                        }
                    }
                }
            },
            None => {},
        }
    }
}

/// Nothing is invented: the edges of a file come in order of their ends, no
/// two between the same ends; none leads back to where it starts; each starts
/// at a symbol of the file, leads to something that there is, and says how
/// sure it is.
pub proof fn law_nothing_is_invented(f: Setting, n: nat)
    requires
        n <= f.symbols.len(),
    ensures
        edges_ordered(file_edges_upto(f, n)),
        forall|i: int|
            0 <= i < file_edges_upto(f, n).len() ==> edge_fits(f, #[trigger] file_edges_upto(f, n)[i]),
    decreases n,
{
    if n > 0 {
        law_nothing_is_invented(f, (n - 1) as nat);
        lemma_symbol_edges(
            f,
            n - 1,
            f.symbols[n - 1].edges.len(),
            file_edges_upto(f, (n - 1) as nat),
        );
    }
}

/// The files that define `name`.
fn paths_of(index: &Vec<(String, Vec<String>)>, name: &str) -> (r: Vec<String>)
    requires
        table::ordered(table::stored_keys(index@)),
    ensures
        text::texts(r@) == definers(index_texts(index@), name@),
{
    assert(table::stored_keys(index@) =~= table::keys(index_texts(index@)));
    match table::find(index, name) {
        Some(i) => text::copy_texts(&index[i].1),
        None => {
            let none: Vec<String> = Vec::new();
            assert(text::texts(none@) =~= Seq::empty());
            none
        },
    }
}

/// Does the file at `path` define `name`?
fn is_defined(index: &Vec<(String, Vec<String>)>, path: &str, name: &str) -> (r: bool)
    requires
        table::ordered(table::stored_keys(index@)),
    ensures
        r == defines(index_texts(index@), path@, name@),
{
    assert(table::stored_keys(index@) =~= table::keys(index_texts(index@)));
    match table::find(index, name) {
        Some(i) => text::is_listed(&index[i].1, path),
        None => false,
    }
}

/// Those of the paths that lie in the directory `dir`.
fn in_dir(paths: &Vec<String>, dir: &str) -> (r: Vec<String>)
    ensures
        text::texts(r@) == in_dir_upto(text::texts(paths@), dir@, paths@.len()),
{
    let mut out: Vec<String> = Vec::new();
    let mut i: usize = 0;
    while i < paths.len()
        invariant
            i <= paths.len(),
            text::texts(out@) == in_dir_upto(text::texts(paths@), dir@, i as nat),
        decreases paths.len() - i,
    {
        assert(text::texts(paths@)[i as int] == paths@[i as int]@);
        if text::same(dirname(paths[i].as_str()).as_str(), dir) {
            let s = paths[i].clone();
            proof {
                text::lemma_texts_push(out@, s);
            }
            out.push(s);
        }
        i += 1;
    }
    out
}

/// Those of the paths that are not `path`.
fn elsewhere(paths: &Vec<String>, path: &str) -> (r: Vec<String>)
    ensures
        text::texts(r@) == elsewhere_upto(text::texts(paths@), path@, paths@.len()),
{
    let mut out: Vec<String> = Vec::new();
    let mut i: usize = 0;
    while i < paths.len()
        invariant
            i <= paths.len(),
            text::texts(out@) == elsewhere_upto(text::texts(paths@), path@, i as nat),
        decreases paths.len() - i,
    {
        assert(text::texts(paths@)[i as int] == paths@[i as int]@);
        if !text::same(paths[i].as_str(), path) {
            let s = paths[i].clone();
            proof {
                text::lemma_texts_push(out@, s);
            }
            out.push(s);
        }
        i += 1;
    }
    out
}

/// Does the file declare `name`?
fn is_declared(symbols: &[SymbolEdges], name: &str) -> (r: bool)
    ensures
        r == declares(symbol_texts(symbols@), name@),
{
    let mut i: usize = 0;
    while i < symbols.len()
        invariant
            i <= symbols.len(),
            forall|j: int| 0 <= j < i ==> (#[trigger] symbol_texts(symbols@)[j]).name != name@,
        decreases symbols.len() - i,
    {
        assert(symbol_texts(symbols@)[i as int] == symbols@[i as int]@);
        if text::same(symbols[i].name, name) {
            return true;
        }
        i += 1;
    }
    false
}

/// What the last name bound as `local` stands for.
fn named_last(names: &Vec<(String, String)>, local: &str) -> (r: Option<String>)
    ensures
        text::opt_text(r) == last_named(text::text_pairs(names@), local@, names@.len()),
{
    let mut i: usize = names.len();
    while i > 0
        invariant
            i <= names.len(),
            last_named(text::text_pairs(names@), local@, names@.len()) == last_named(
                text::text_pairs(names@),
                local@,
                i as nat,
            ),
        decreases i,
    {
        assert(text::text_pairs(names@)[i - 1] == (names@[i - 1].0@, names@[i - 1].1@));
        if text::same(names[i - 1].0.as_str(), local) {
            return Some(names[i - 1].1.clone());
        }
        i -= 1;
    }
    None
}

/// The module and the name in it that the imports bind `local` to.
fn bound_to(imports: &[ImportSpec], local: &str) -> (r: Option<(String, String)>)
    ensures
        text::opt_pair(r) == binding(import_texts(imports@), local@, imports@.len()),
{
    if text::same(local, "*") {
        return None;
    }
    let mut i: usize = imports.len();
    while i > 0
        invariant
            i <= imports.len(),
            local@ != "*"@,
            binding(import_texts(imports@), local@, imports@.len()) == binding(
                import_texts(imports@),
                local@,
                i as nat,
            ),
        decreases i,
    {
        assert(import_texts(imports@)[i - 1] == imports@[i - 1]@);
        if let Some(exported) = named_last(&imports[i - 1].names, local) {
            return Some((imports[i - 1].module.clone(), exported));
        }
        i -= 1;
    }
    None
}

/// Does the import bring in everything?
fn brings_all(import: &ImportSpec) -> (r: bool)
    ensures
        r == is_wildcard(import@),
{
    let mut i: usize = 0;
    while i < import.names.len()
        invariant
            i <= import.names.len(),
            forall|j: int| 0 <= j < i ==> (#[trigger] import@.names[j]).0 != "*"@,
        decreases import.names.len() - i,
    {
        assert(import@.names[i as int] == (
            import.names@[i as int].0@,
            import.names@[i as int].1@,
        ));
        if text::same(import.names[i].0.as_str(), "*") {
            return true;
        }
        i += 1;
    }
    false
}

/// What the wildcard imports point at, one place for each import.
pub open spec fn wildcard_targets(f: Setting) -> Seq<Option<Seq<char>>> {
    Seq::new(
        f.imports.len(),
        |i: int|
            if is_wildcard(f.imports[i]) {
                points_at(f, f.imports[i].module)
            } else {
                None
            },
    )
}

/// The texts of a list of optional strings.
pub open spec fn opt_texts(v: Seq<Option<String>>) -> Seq<Option<Seq<char>>> {
    Seq::new(v.len(), |i: int| text::opt_text(v[i]))
}

/// Does one of the wildcard imports cover the file at `candidate`?
fn is_covered(targets: &Vec<Option<String>>, candidate: &str, Ghost(f): Ghost<Setting>) -> (r: bool)
    requires
        opt_texts(targets@) == wildcard_targets(f),
    ensures
        r == under_wildcard(f, candidate@),
{
    let ghost wanted = wildcard_targets(f);
    assert(wanted.len() == targets.len());
    let mut j: usize = 0;
    while j < targets.len()
        invariant
            j <= targets.len(),
            opt_texts(targets@) == wanted,
            wanted == wildcard_targets(f),
            wanted.len() == targets.len(),
            forall|k: int| 0 <= k < j ==> !covers(#[trigger] wanted[k], candidate@),
        decreases targets.len() - j,
    {
        assert(opt_texts(targets@)[j as int] == text::opt_text(targets@[j as int]));
        if let Some(w) = &targets[j] {
            if text::same(candidate, w.as_str()) || (text::ends_with(w.as_str(), "/")
                && text::starts_with(candidate, w.as_str())) {
                assert(covers(wanted[j as int], candidate@));
                assert(is_wildcard(f.imports[j as int]));
                return true;
            }
        }
        j += 1;
    }
    assert forall|i: int|
        0 <= i < f.imports.len() && is_wildcard(#[trigger] f.imports[i]) implies !covers(
        points_at(f, f.imports[i].module),
        candidate@,
    ) by {
        assert(wanted[i] == points_at(f, f.imports[i].module));
    }
    false
}

/// Those of the paths that a wildcard import covers.
fn under_wildcards(Ghost(f): Ghost<Setting>, targets: &Vec<Option<String>>, paths: &Vec<String>) -> (r:
    Vec<String>)
    requires
        opt_texts(targets@) == wildcard_targets(f),
    ensures
        text::texts(r@) == wild_upto(f, text::texts(paths@), paths@.len()),
{
    let mut out: Vec<String> = Vec::new();
    let mut i: usize = 0;
    while i < paths.len()
        invariant
            i <= paths.len(),
            opt_texts(targets@) == wildcard_targets(f),
            text::texts(out@) == wild_upto(f, text::texts(paths@), i as nat),
        decreases paths.len() - i,
    {
        assert(text::texts(paths@)[i as int] == paths@[i as int]@);
        if is_covered(targets, paths[i].as_str(), Ghost(f)) {
            let s = paths[i].clone();
            proof {
                text::lemma_texts_push(out@, s);
            }
            out.push(s);
        }
        i += 1;
    }
    out
}

/// Where the wildcard imports point, one place for each import.
fn wildcards(path: &str, language: &str, imports: &[ImportSpec], known: &Vec<String>) -> (r: Vec<
    Option<String>,
>)
    ensures
        forall|f: Setting|
            f.path == path@ && f.language == language@ && f.imports == import_texts(imports@)
                && f.known == text::texts(known@) ==> opt_texts(r@) == #[trigger] wildcard_targets(f),
{
    let mut out: Vec<Option<String>> = Vec::new();
    let mut i: usize = 0;
    while i < imports.len()
        invariant
            i <= imports.len(),
            out.len() == i,
            forall|j: int|
                #![trigger out@[j]]
                0 <= j < i ==> text::opt_text(out@[j]) == (if is_wildcard(import_texts(imports@)[j]) {
                    module_target(
                        import_texts(imports@)[j].module,
                        path@,
                        language@,
                        text::texts(known@),
                    )
                } else {
                    None
                }),
        decreases imports.len() - i,
    {
        assert(import_texts(imports@)[i as int] == imports@[i as int]@);
        if brings_all(&imports[i]) {
            out.push(resolve_module(imports[i].module.as_str(), path, language, known));
        } else {
            out.push(None);
        }
        i += 1;
    }
    assert forall|f: Setting|
        f.path == path@ && f.language == language@ && f.imports == import_texts(imports@) && f.known
            == text::texts(known@) implies opt_texts(out@) == #[trigger] wildcard_targets(f) by {
        reveal(points_at);
        assert(opt_texts(out@) =~= wildcard_targets(f));
    }
    out
}

/// The pair of texts a resolved end holds.
pub open spec fn end_text(o: Option<(String, &'static str)>) -> Option<(Seq<char>, Seq<char>)> {
    match o {
        Some(p) => Some((p.0@, p.1@)),
        None => None,
    }
}

/// Where a name bound by an import leads, and how sure that is.
fn resolve_bound(
    path: &str,
    language: &str,
    known: &Vec<String>,
    index: &Vec<(String, Vec<String>)>,
    module: &str,
    exported: &str,
    member: &str,
    Ghost(f): Ghost<Setting>,
) -> (r: (String, &'static str))
    requires
        table::ordered(table::stored_keys(index@)),
        f.path == path@,
        f.language == language@,
        f.known == text::texts(known@),
        f.index == index_texts(index@),
    ensures
        (r.0@, r.1@) == bound_end(f, module@, exported@, member@),
{
    reveal(points_at);
    let whole: bool = text::same(exported, "*") || text::same(exported, "default");
    match resolve_module(module, path, language, known) {
        None => {
            let tail: &str = if !member.is_empty() {
                member
            } else if !whole {
                exported
            } else {
                ""
            };
            proof {
                reveal_strlit("");
                assert(""@ =~= text::no_text());
            }
            let id = text::cat4("ext:", module, ".", tail);
            (text::trim_end_set(id.as_str(), "."), EXTRACTED)
        },
        Some(t) => {
            if text::ends_with(t.as_str(), "/") {
                let dir = text::trim_end_set(t.as_str(), "/");
                let hit: Option<String> = if member.is_empty() {
                    None
                } else {
                    let paths = paths_of(index, member);
                    let inside = in_dir(&paths, dir.as_str());
                    let none = String::new();
                    pick(&inside, none.as_str())
                };
                match hit {
                    Some(file) => (node_id(file.as_str(), member), EXTRACTED),
                    None => {
                        let none = String::new();
                        (node_id(text::cat2(dir.as_str(), "/").as_str(), none.as_str()), INFERRED)
                    },
                }
            } else if whole {
                let none = String::new();
                if !member.is_empty() && is_defined(index, t.as_str(), member) {
                    (node_id(t.as_str(), member), EXTRACTED)
                } else if text::same(exported, "default") {
                    (node_id(t.as_str(), none.as_str()), INFERRED)
                } else {
                    (node_id(t.as_str(), none.as_str()), EXTRACTED)
                }
            } else if is_defined(index, t.as_str(), exported) {
                (node_id(t.as_str(), exported), EXTRACTED)
            } else {
                (node_id(t.as_str(), exported), INFERRED)
            }
        },
    }
}

/// Where a name nothing in the file binds leads.
fn resolve_free(
    path: &str,
    index: &Vec<(String, Vec<String>)>,
    targets: &Vec<Option<String>>,
    target: &str,
    Ghost(f): Ghost<Setting>,
) -> (r: Option<(String, &'static str)>)
    requires
        table::ordered(table::stored_keys(index@)),
        f.path == path@,
        f.index == index_texts(index@),
        opt_texts(targets@) == wildcard_targets(f),
    ensures
        end_text(r) == free_end(f, target@),
{
    let paths = paths_of(index, target);
    let all = elsewhere(&paths, path);
    let wild = under_wildcards(Ghost(f), targets, &all);
    let beside = in_dir(&all, dirname(path).as_str());
    let sure: &'static str = if all.len() == 1 {
        INFERRED
    } else {
        AMBIGUOUS
    };
    assert(text::texts(all@).len() == all@.len());
    let pool = if wild.len() > 0 {
        wild
    } else if beside.len() > 0 {
        beside
    } else {
        all
    };
    match pick(&pool, path) {
        Some(file) => Some((node_id(file.as_str(), target), sure)),
        None => None,
    }
}

/// How telling an edge's kind is.
pub fn rank(kind: &str) -> (r: u8)
    ensures
        r == kind_rank(kind@),
{
    if text::same(kind, "inherits") {
        0
    } else if text::same(kind, "calls") {
        1
    } else if text::same(kind, "uses_type") {
        2
    } else if text::same(kind, "references") {
        3
    } else {
        4
    }
}

/// Adds an edge, keeping the more telling of two between the same ends.
fn add_edge(edges: &mut Vec<Edge>, e: Edge)
    ensures
        edge_texts(final(edges)@) == with_edge(edge_texts(old(edges)@), e@),
{
    let ghost done = edge_texts(edges@);
    let ghost added = e@;
    let mut p: usize = 0;
    while p < edges.len() && (text::comes_before(edges[p].from.as_str(), e.from.as_str()) || (text::same(
        edges[p].from.as_str(),
        e.from.as_str(),
    ) && text::comes_before(edges[p].to.as_str(), e.to.as_str())))
        invariant
            p <= edges.len(),
            done == edge_texts(edges@),
            added == e@,
            edge_seat(done, added, 0) == edge_seat(done, added, p as int),
        decreases edges.len() - p,
    {
        assert(done[p as int] == edges@[p as int]@);
        p += 1;
    }
    assert(p < edges.len() ==> done[p as int] == edges@[p as int]@);
    if p < edges.len() && text::same(edges[p].from.as_str(), e.from.as_str()) && text::same(
        edges[p].to.as_str(),
        e.to.as_str(),
    ) {
        if rank(e.kind.as_str()) < rank(edges[p].kind.as_str()) {
            edges.set(p, e);
            assert(edge_texts(edges@) =~= done.update(p as int, added));
        }
    } else {
        edges.insert(p, e);
        assert(edge_texts(edges@) =~= done.insert(p as int, added));
    }
}

/// Resolve one file's edges against the current file set.
///
/// `name_index` is a table from each name to the files that define it.
pub fn resolve_edges(
    path: &str,
    language: &str,
    symbols: &[SymbolEdges],
    imports: &[ImportSpec],
    known: &Vec<String>,
    name_index: &Vec<(String, Vec<String>)>,
) -> (r: Vec<Edge>)
    requires
        table::ordered(table::stored_keys(name_index@)),
    ensures
        edge_texts(r@) == file_edges(
            (Setting {
                path: path@,
                language: language@,
                symbols: symbol_texts(symbols@),
                imports: import_texts(imports@),
                known: text::texts(known@),
                index: index_texts(name_index@),
            }),
        ),
{
    let ghost f = Setting {
        path: path@,
        language: language@,
        symbols: symbol_texts(symbols@),
        imports: import_texts(imports@),
        known: text::texts(known@),
        index: index_texts(name_index@),
    };
    let targets = wildcards(path, language, imports, known);
    assert(opt_texts(targets@) == wildcard_targets(f));
    let mut edges: Vec<Edge> = Vec::new();
    assert(edge_texts(edges@) =~= Seq::empty());
    let mut i: usize = 0;
    while i < symbols.len()
        invariant
            i <= symbols.len(),
            table::ordered(table::stored_keys(name_index@)),
            f == (Setting {
                path: path@,
                language: language@,
                symbols: symbol_texts(symbols@),
                imports: import_texts(imports@),
                known: text::texts(known@),
                index: index_texts(name_index@),
            }),
            opt_texts(targets@) == wildcard_targets(f),
            edge_texts(edges@) == file_edges_upto(f, i as nat),
        decreases symbols.len() - i,
    {
        let symbol = &symbols[i];
        let ghost st = symbol@;
        assert(symbol_texts(symbols@)[i as int] == st);
        let ghost done = edge_texts(edges@);
        let from = node_id(path, symbol.name);
        let mut j: usize = 0;
        while j < symbol.edges.len()
            invariant
                j <= symbol.edges.len(),
                st == symbol@,
                from@ == node_name(path@, st.name),
                table::ordered(table::stored_keys(name_index@)),
                f == (Setting {
                    path: path@,
                    language: language@,
                    symbols: symbol_texts(symbols@),
                    imports: import_texts(imports@),
                    known: text::texts(known@),
                    index: index_texts(name_index@),
                }),
                opt_texts(targets@) == wildcard_targets(f),
                edge_texts(edges@) == symbol_edges_upto(f, st, j as nat, done),
            decreases symbol.edges.len() - j,
        {
            let raw = &symbol.edges[j];
            assert(st.edges[j as int] == (raw.0@, raw.1@, raw.2@));
            let target = raw.0.as_str();
            let member = raw.1.as_str();
            let end: Option<(String, &'static str)> = if !text::same(target, symbol.name) && is_declared(
                symbols,
                target,
            ) {
                Some((node_id(path, target), EXTRACTED))
            } else {
                match bound_to(imports, target) {
                    Some((module, exported)) => Some(
                        resolve_bound(
                            path,
                            language,
                            known,
                            name_index,
                            module.as_str(),
                            exported.as_str(),
                            member,
                            Ghost(f),
                        ),
                    ),
                    None => resolve_free(path, name_index, &targets, target, Ghost(f)),
                }
            };
            assert(end_text(end) == edge_end(f, st.name, raw.0@, raw.1@));
            if let Some((to, confidence)) = end {
                if !text::same(to.as_str(), from.as_str()) {
                    add_edge(
                        &mut edges,
                        Edge { from: from.clone(), to, kind: raw.2.clone(), confidence },
                    );
                }
            }
            j += 1;
        }
        i += 1;
    }
    edges
}

} // verus!

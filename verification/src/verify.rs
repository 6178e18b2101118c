//! Which tests an edit could have broken, how to run them, and what a run
//! said.
use vstd::prelude::*;
use crate::text;
use crate::radius;
use crate::langs;
use crate::json;
use crate::json::{Doc, Json};

verus! {

/// How deep to walk callers before deciding which tests matter.
pub const DEPTH: usize = 3;

/// How many dependents are looked at.
pub const MAX_DEPENDENTS: usize = 200;

/// How many test files are run.
pub const MAX_TESTS: usize = 12;

/// How many failing tests a verdict names.
pub const MAX_FAILING: usize = 20;

// ------------------------------------------------------------------- tests

/// Does the path look like a test's?
pub open spec fn test_path(path: Seq<char>) -> bool {
    let lower = text::lowercase(path);
    let base = match text::cut_last(lower, '/') {
        Some((_, base)) => base,
        None => lower,
    };
    ||| text::has_prefix(base, "test_"@)
    ||| text::has_suffix(base, "_test.py"@)
    ||| text::contains(base, ".test."@)
    ||| text::contains(base, ".spec."@)
    ||| text::contains(lower, "/tests/"@)
    ||| text::contains(lower, "/test/"@)
    ||| text::has_prefix(lower, "tests/"@)
    ||| text::has_prefix(lower, "test/"@)
}

/// Does the path look like a test's?
pub fn looks_like_test(path: &str) -> (r: bool)
    ensures
        r == test_path(path@),
{
    let lower = text::to_lowercase(path);
    let base = match text::rsplit_once(lower.as_str(), '/') {
        Some((_, base)) => base,
        None => lower.clone(),
    };
    text::starts_with(base.as_str(), "test_") || text::ends_with(base.as_str(), "_test.py") || text::has(
        base.as_str(),
        ".test.",
    ) || text::has(base.as_str(), ".spec.") || text::has(lower.as_str(), "/tests/") || text::has(
        lower.as_str(),
        "/test/",
    ) || text::starts_with(lower.as_str(), "tests/") || text::starts_with(lower.as_str(), "test/")
}

/// The nodes of the first `n` files.
pub open spec fn roots_upto(index: Doc, changed: Seq<Seq<char>>, n: nat) -> Seq<Seq<char>>
    decreases n,
{
    if n == 0 {
        Seq::empty()
    } else {
        roots_upto(index, changed, (n - 1) as nat) + radius::file_nodes(index, changed[n - 1])
    }
}

/// The tests listed, with the file where it is a test that is not listed yet.
pub open spec fn with_test(v: Seq<Seq<char>>, path: Seq<char>) -> Seq<Seq<char>> {
    if test_path(path) && !text::listed(v, path) {
        v.push(path)
    } else {
        v
    }
}

/// The tests among the first `n` files.
pub open spec fn own_tests(changed: Seq<Seq<char>>, n: nat) -> Seq<Seq<char>>
    decreases n,
{
    if n == 0 {
        Seq::empty()
    } else {
        with_test(own_tests(changed, (n - 1) as nat), changed[n - 1])
    }
}

/// The tests listed, with those among the files from the `k`th on, until there
/// are enough.
pub open spec fn tests_from(v: Seq<Seq<char>>, files: Seq<Seq<char>>, k: nat) -> Seq<Seq<char>>
    decreases files.len() - k,
{
    if k >= files.len() {
        v
    } else {
        let next = with_test(v, files[k as int]);
        if next.len() >= MAX_TESTS {
            next
        } else {
            tests_from(next, files, k + 1)
        }
    }
}

/// Which test files cover the symbols that just changed: a changed test file
/// is its own test, and then come those of everything that reaches them.
pub open spec fn covering(index: Doc, changed: Seq<Seq<char>>) -> Seq<Seq<char>> {
    let own = own_tests(changed, changed.len());
    let roots = roots_upto(index, changed, changed.len());
    if roots.len() == 0 {
        own
    } else {
        let found = radius::dependents(index, roots, DEPTH as nat, MAX_DEPENDENTS as nat);
        tests_from(own, radius::files_upto(found, found.len()), 0)
    }
}

/// Adds a file to the tests where it is one that is not listed yet.
fn add_test(v: &mut Vec<String>, path: &String)
    ensures
        text::texts(final(v)@) == with_test(text::texts(old(v)@), path@),
{
    if looks_like_test(path.as_str()) && !text::is_listed(v, path.as_str()) {
        let path = path.clone();
        proof {
            text::lemma_texts_push(v@, path);
        }
        v.push(path);
    }
}

/// Which test files cover the symbols that just changed.
pub fn tests_for(index: &Json, changed: &Vec<String>) -> (r: Vec<String>)
    ensures
        text::texts(r@) == covering(index@, text::texts(changed@)),
{
    let ghost all = text::texts(changed@);
    let mut roots: Vec<String> = Vec::new();
    let mut k: usize = 0;
    assert(text::texts(roots@) =~= Seq::<Seq<char>>::empty());
    while k < changed.len()
        invariant
            k <= changed.len(),
            all == text::texts(changed@),
            text::texts(roots@) == roots_upto(index@, all, k as nat),
        decreases changed.len() - k,
    {
        assert(all[k as int] == changed@[k as int]@);
        let mut more = radius::symbols_in(index, changed[k].as_str());
        let ghost before = roots@;
        let ghost added = more@;
        roots.append(&mut more);
        assert(text::texts(roots@) =~= text::texts(before) + text::texts(added));
        k += 1;
    }
    assert(all.len() == changed@.len());
    let mut out: Vec<String> = Vec::new();
    assert(text::texts(out@) =~= Seq::<Seq<char>>::empty());
    // a changed test file is its own test
    let mut k: usize = 0;
    while k < changed.len()
        invariant
            k <= changed.len(),
            all == text::texts(changed@),
            text::texts(out@) == own_tests(all, k as nat),
        decreases changed.len() - k,
    {
        assert(all[k as int] == changed@[k as int]@);
        add_test(&mut out, &changed[k]);
        k += 1;
    }
    assert(text::texts(roots@).len() == roots@.len());
    if roots.len() == 0 {
        return out;
    }
    let found = radius::of(index, &roots, DEPTH, MAX_DEPENDENTS);
    assert(radius::dependent_texts(found@).len() == found@.len());
    let files = radius::files_of(&found);
    let ghost paths = text::texts(files@);
    let ghost whole = tests_from(text::texts(out@), paths, 0);
    let mut k: usize = 0;
    let mut going = true;
    while going && k < files.len()
        invariant
            k <= files.len(),
            paths == text::texts(files@),
            going ==> whole == tests_from(text::texts(out@), paths, k as nat),
            !going ==> whole == text::texts(out@),
        decreases (if going { 1int } else { 0int }), files.len() - k,
    {
        assert(paths[k as int] == files@[k as int]@);
        add_test(&mut out, &files[k]);
        assert(text::texts(out@).len() == out@.len());
        if out.len() >= MAX_TESTS {
            going = false;
        } else {
            k += 1;
        }
    }
    assert(paths.len() == files@.len());
    out
}

/// Does every text look like a test's path, and come once?
pub open spec fn proper_tests(v: Seq<Seq<char>>) -> bool {
    &&& forall|i: int| 0 <= i < v.len() ==> test_path(#[trigger] v[i])
    &&& forall|i: int, j: int| 0 <= i < j < v.len() ==> #[trigger] v[i] != #[trigger] v[j]
}

/// Adding a test keeps the list proper.
proof fn lemma_with_test(v: Seq<Seq<char>>, path: Seq<char>)
    requires
        proper_tests(v),
    ensures
        proper_tests(with_test(v, path)),
{
    let r = with_test(v, path);
    if test_path(path) && !text::listed(v, path) {
        assert forall|i: int, j: int| 0 <= i < j < r.len() implies #[trigger] r[i]
            != #[trigger] r[j] by {
            assert(r[i] == v[i]);
        }
    }
}

/// The tests of the changed files are proper.
proof fn lemma_own_tests(changed: Seq<Seq<char>>, n: nat)
    ensures
        proper_tests(own_tests(changed, n)),
    decreases n,
{
    if n > 0 {
        lemma_own_tests(changed, (n - 1) as nat);
        lemma_with_test(own_tests(changed, (n - 1) as nat), changed[n - 1]);
    }
}

/// Adding tests of files keeps the list proper.
proof fn lemma_tests_from(v: Seq<Seq<char>>, files: Seq<Seq<char>>, k: nat)
    requires
        proper_tests(v),
    ensures
        proper_tests(tests_from(v, files, k)),
    decreases files.len() - k,
{
    if k < files.len() {
        lemma_with_test(v, files[k as int]);
        if with_test(v, files[k as int]).len() < MAX_TESTS {
            lemma_tests_from(with_test(v, files[k as int]), files, k + 1);
        }
    }
}

/// Only tests are run, and none twice.
pub proof fn law_only_tests_and_once(index: Doc, changed: Seq<Seq<char>>)
    ensures
        proper_tests(covering(index, changed)),
{
    let roots = roots_upto(index, changed, changed.len());
    lemma_own_tests(changed, changed.len());
    if roots.len() > 0 {
        let found = radius::dependents(index, roots, DEPTH as nat, MAX_DEPENDENTS as nat);
        lemma_tests_from(
            own_tests(changed, changed.len()),
            radius::files_upto(found, found.len()),
            0,
        );
    }
}

/// A test that is listed stays listed.
proof fn lemma_tests_stay(v: Seq<Seq<char>>, files: Seq<Seq<char>>, k: nat, p: Seq<char>)
    requires
        text::listed(v, p),
    ensures
        text::listed(tests_from(v, files, k), p),
    decreases files.len() - k,
{
    if k < files.len() {
        let next = with_test(v, files[k as int]);
        lemma_test_added(v, files[k as int], p);
        if next.len() < MAX_TESTS {
            lemma_tests_stay(next, files, k + 1, p);
        }
    }
}

/// Adding a test keeps the others, and lists it.
proof fn lemma_test_added(v: Seq<Seq<char>>, path: Seq<char>, p: Seq<char>)
    ensures
        text::listed(v, p) ==> text::listed(with_test(v, path), p),
        test_path(path) ==> text::listed(with_test(v, path), path),
{
    let next = with_test(v, path);
    if text::listed(v, p) {
        let i = choose|i: int| 0 <= i < v.len() && #[trigger] v[i] == p;
        assert(next[i] == p);
    }
    if test_path(path) && !text::listed(v, path) {
        assert(next[v.len() as int] == path);
    }
}

/// Every test among the files is listed, as long as there are not enough.
proof fn lemma_tests_found(v: Seq<Seq<char>>, files: Seq<Seq<char>>, k: nat, i: int)
    requires
        k <= i < files.len(),
        test_path(files[i]),
        tests_from(v, files, k).len() < MAX_TESTS,
    ensures
        text::listed(tests_from(v, files, k), files[i]),
    decreases files.len() - k,
{
    let next = with_test(v, files[k as int]);
    lemma_test_added(v, files[k as int], files[k as int]);
    if k == i {
        lemma_tests_stay(next, files, k + 1, files[i]);
    } else {
        lemma_tests_found(next, files, k + 1, i);
    }
}

/// A changed test file is its own test.
proof fn lemma_own_tests_found(changed: Seq<Seq<char>>, n: nat, i: int)
    requires
        0 <= i < n <= changed.len(),
        test_path(changed[i]),
    ensures
        text::listed(own_tests(changed, n), changed[i]),
    decreases n,
{
    let rest = own_tests(changed, (n - 1) as nat);
    if i < n - 1 {
        lemma_own_tests_found(changed, (n - 1) as nat, i);
    }
    lemma_test_added(rest, changed[n - 1], changed[i]);
}

/// Every covering test is run: a changed test file always, and as long as
/// there are not enough, every test file that something lives in that reaches
/// what changed.
pub proof fn law_every_covering_test_is_run(index: Doc, changed: Seq<Seq<char>>, p: Seq<char>)
    requires
        test_path(p),
    ensures
        text::listed(changed, p) ==> text::listed(covering(index, changed), p),
        ({
            let roots = roots_upto(index, changed, changed.len());
            let found = radius::dependents(index, roots, DEPTH as nat, MAX_DEPENDENTS as nat);
            roots.len() > 0 && covering(index, changed).len() < MAX_TESTS && text::listed(
                radius::files_upto(found, found.len()),
                p,
            ) ==> text::listed(covering(index, changed), p)
        }),
{
    let roots = roots_upto(index, changed, changed.len());
    let found = radius::dependents(index, roots, DEPTH as nat, MAX_DEPENDENTS as nat);
    let files = radius::files_upto(found, found.len());
    let own = own_tests(changed, changed.len());
    if text::listed(changed, p) {
        let i = choose|i: int| 0 <= i < changed.len() && #[trigger] changed[i] == p;
        lemma_own_tests_found(changed, changed.len(), i);
        lemma_tests_stay(own, files, 0, p);
    }
    if roots.len() > 0 && covering(index, changed).len() < MAX_TESTS && text::listed(files, p) {
        let i = choose|i: int| 0 <= i < files.len() && #[trigger] files[i] == p;
        lemma_tests_found(own, files, 0, i);
    }
}

/// Is one of the path's directories, at any depth, named so?
pub open spec fn goes_through(path: Seq<char>, name: Seq<char>) -> bool {
    exists|i: int|
        #![trigger text::occurs_at(path, name, i)]
        text::occurs_at(path, name, i) && (i == 0 || path[i - 1] == '/') && i + name.len()
            < path.len() && path[i + name.len()] == '/'
}

/// Is `file` what the path ends in, after its last slash?
pub open spec fn ends_in_file(path: Seq<char>, file: Seq<char>) -> bool {
    &&& text::has_suffix(path, file)
    &&& file.len() == path.len() || path[path.len() - file.len() - 1] == '/'
    &&& !file.contains('/')
}

/// A directory named so stands at the start of the path, or between slashes.
proof fn lemma_goes_through(path: Seq<char>, name: Seq<char>, between: Seq<char>, first: Seq<char>)
    requires
        between == seq!['/'] + name + seq!['/'],
        first == name + seq!['/'],
    ensures
        goes_through(path, name) == (text::contains(path, between) || text::has_prefix(path, first)),
{
    if text::contains(path, between) {
        let i = choose|i: int| #[trigger] text::occurs_at(path, between, i);
        let part = path.subrange(i, i + between.len());
        assert(path.subrange(i + 1, i + 1 + name.len()) =~= name) by {
            assert forall|k: int| 0 <= k < name.len() implies path[i + 1 + k] == name[k] by {
                assert(part[k + 1] == between[k + 1]);
            }
        }
        assert(part[0] == '/' && part[name.len() as int + 1] == '/');
        assert(text::occurs_at(path, name, i + 1));
    }
    if text::has_prefix(path, first) {
        let part = path.take(first.len() as int);
        assert(path.subrange(0, name.len() as int) =~= name) by {
            assert forall|k: int| 0 <= k < name.len() implies path[k] == name[k] by {
                assert(part[k] == first[k]);
            }
        }
        assert(part[name.len() as int] == '/');
        assert(text::occurs_at(path, name, 0));
    }
    if goes_through(path, name) {
        let i = choose|i: int|
            #![trigger text::occurs_at(path, name, i)]
            text::occurs_at(path, name, i) && (i == 0 || path[i - 1] == '/') && i + name.len()
                < path.len() && path[i + name.len()] == '/';
        let part = path.subrange(i, i + name.len());
        if i == 0 {
            assert(path.take(first.len() as int) =~= first) by {
                assert forall|k: int| 0 <= k < name.len() implies path[k] == name[k] by {
                    assert(part[k] == path[k]);
                }
            }
        } else {
            assert(path.subrange(i - 1, i - 1 + between.len()) =~= between) by {
                assert forall|k: int| 0 <= k < name.len() implies path[i + k] == name[k] by {
                    assert(part[k] == path[i + k]);
                }
            }
            assert(text::occurs_at(path, between, i - 1));
        }
    }
}

/// A path is a test's where it goes through a directory named `tests` or
/// `test`, or where its file's name starts with `test_`, ends with `_test.py`,
/// or has `.test.` or `.spec.` in it; in any case, and nowhere else.
pub proof fn law_what_a_test_path_is(path: Seq<char>, file: Seq<char>)
    requires
        ends_in_file(text::lowercase(path), file),
    ensures
        test_path(path) <==> {
            ||| goes_through(text::lowercase(path), "tests"@)
            ||| goes_through(text::lowercase(path), "test"@)
            ||| text::has_prefix(file, "test_"@)
            ||| text::has_suffix(file, "_test.py"@)
            ||| text::contains(file, ".test."@)
            ||| text::contains(file, ".spec."@)
        },
{
    let lower = text::lowercase(path);
    reveal_strlit("tests");
    reveal_strlit("test");
    reveal_strlit("/tests/");
    reveal_strlit("/test/");
    reveal_strlit("tests/");
    reveal_strlit("test/");
    assert("/tests/"@ =~= seq!['/'] + "tests"@ + seq!['/']);
    assert("/test/"@ =~= seq!['/'] + "test"@ + seq!['/']);
    assert("tests/"@ =~= "tests"@ + seq!['/']);
    assert("test/"@ =~= "test"@ + seq!['/']);
    lemma_goes_through(lower, "tests"@, "/tests/"@, "tests/"@);
    lemma_goes_through(lower, "test"@, "/test/"@, "test/"@);
    text::lemma_last_below(lower, '/', lower.len() as int);
    let at = lower.len() - file.len();
    assert forall|k: int| at <= k < lower.len() implies lower[k] != '/' by {
        assert(lower.skip(at)[k - at] == file[k - at]);
    }
    if text::last_of(lower, '/') is Some {
        assert(text::last_of(lower, '/')->0 == at - 1);
    } else if at > 0 {
        assert(lower[at - 1] == '/');
    }
    assert(lower.skip(0) =~= lower);
}

/// A file under a directory named `tests` or `test`, at any depth and whatever
/// its own name, is a test.
pub proof fn law_files_under_a_test_directory_are_tests(
    path: Seq<char>,
    above: Seq<char>,
    below: Seq<char>,
)
    ensures
        text::lowercase(path) == above + "/tests/"@ + below ==> test_path(path),
        text::lowercase(path) == above + "/test/"@ + below ==> test_path(path),
        text::lowercase(path) == "tests/"@ + below ==> test_path(path),
        text::lowercase(path) == "test/"@ + below ==> test_path(path),
{
    let lower = text::lowercase(path);
    let n = above.len() as int;
    if lower == above + "/tests/"@ + below {
        assert(lower.subrange(n, n + "/tests/"@.len()) =~= "/tests/"@);
        assert(text::occurs_at(lower, "/tests/"@, n));
    }
    if lower == above + "/test/"@ + below {
        assert(lower.subrange(n, n + "/test/"@.len()) =~= "/test/"@);
        assert(text::occurs_at(lower, "/test/"@, n));
    }
    if lower == "tests/"@ + below {
        assert(lower.take("tests/"@.len() as int) =~= "tests/"@);
    }
    if lower == "test/"@ + below {
        assert(lower.take("test/"@.len() as int) =~= "test/"@);
    }
}

/// A path without `test` and `spec` anywhere in it is no test's.
pub proof fn law_other_paths_are_no_tests(path: Seq<char>)
    requires
        !text::contains(text::lowercase(path), "test"@),
        !text::contains(text::lowercase(path), "spec"@),
    ensures
        !test_path(path),
{
    let lower = text::lowercase(path);
    reveal_strlit("test");
    reveal_strlit("spec");
    reveal_strlit("test_");
    reveal_strlit("_test.py");
    reveal_strlit(".test.");
    reveal_strlit(".spec.");
    reveal_strlit("/tests/");
    reveal_strlit("/test/");
    reveal_strlit("tests/");
    reveal_strlit("test/");
    text::lemma_last_below(lower, '/', lower.len() as int);
    let at: int = match text::last_of(lower, '/') {
        Some(k) => k + 1,
        None => 0,
    };
    let base = lower.skip(at);
    assert(lower.skip(0) =~= lower);
    if test_path(path) {
        if text::has_prefix(base, "test_"@) {
            lemma_word_within(lower, at, "test_"@, "test"@, 0);
        } else if text::has_suffix(base, "_test.py"@) {
            assert(lower.subrange(lower.len() - 8, lower.len() as int) =~= base.skip(
                base.len() - 8,
            ));
            lemma_word_within(lower, lower.len() - 8, "_test.py"@, "test"@, 1);
        } else if text::contains(base, ".test."@) {
            let i = choose|i: int| #[trigger] text::occurs_at(base, ".test."@, i);
            assert(lower.subrange(at + i, at + i + 6) =~= base.subrange(i, i + 6));
            lemma_word_within(lower, at + i, ".test."@, "test"@, 1);
        } else if text::contains(base, ".spec."@) {
            let i = choose|i: int| #[trigger] text::occurs_at(base, ".spec."@, i);
            assert(lower.subrange(at + i, at + i + 6) =~= base.subrange(i, i + 6));
            lemma_word_within(lower, at + i, ".spec."@, "spec"@, 1);
        } else if text::contains(lower, "/tests/"@) {
            let i = choose|i: int| #[trigger] text::occurs_at(lower, "/tests/"@, i);
            lemma_word_within(lower, i, "/tests/"@, "test"@, 1);
        } else if text::contains(lower, "/test/"@) {
            let i = choose|i: int| #[trigger] text::occurs_at(lower, "/test/"@, i);
            lemma_word_within(lower, i, "/test/"@, "test"@, 1);
        } else if text::has_prefix(lower, "tests/"@) {
            lemma_word_within(lower, 0, "tests/"@, "test"@, 0);
        } else {
            lemma_word_within(lower, 0, "test/"@, "test"@, 0);
        }
    }
}

/// What occurs in a text occurs wherever that text does.
proof fn lemma_word_within(s: Seq<char>, at: int, outer: Seq<char>, inner: Seq<char>, k: int)
    requires
        0 <= at,
        at + outer.len() <= s.len(),
        s.subrange(at, at + outer.len()) == outer || s.skip(at).take(outer.len() as int) == outer,
        0 <= k,
        k + inner.len() <= outer.len(),
        forall|j: int| 0 <= j < inner.len() ==> outer[k + j] == #[trigger] inner[j],
    ensures
        text::contains(s, inner),
{
    assert(s.skip(at).take(outer.len() as int) =~= s.subrange(at, at + outer.len()));
    let part = s.subrange(at, at + outer.len());
    assert(s.subrange(at + k, at + k + inner.len()) =~= inner) by {
        assert forall|j: int| 0 <= j < inner.len() implies s[at + k + j] == inner[j] by {
            assert(part[k + j] == outer[k + j]);
        }
    }
    assert(text::occurs_at(s, inner, at + k));
}

// ------------------------------------------------------------- the command

/// The names at the root of a repository that tell how its tests are run.
pub fn markers() -> (r: Vec<&'static str>)
    ensures
        langs::strs(r@) == marker_texts(),
{
    let v = vec![
        "pytest.ini",
        "pyproject.toml",
        "setup.cfg",
        "tox.ini",
        "Cargo.toml",
        "go.mod",
        "package.json",
    ];
    assert(langs::strs(v@) =~= marker_texts());
    v
}

/// The names at the root of a repository that tell how its tests are run.
pub open spec fn marker_texts() -> Seq<Seq<char>> {
    seq![
        "pytest.ini"@,
        "pyproject.toml"@,
        "setup.cfg"@,
        "tox.ini"@,
        "Cargo.toml"@,
        "go.mod"@,
        "package.json"@,
    ]
}

/// The test command for a repository: what its configuration says, else a
/// guess from the names at its root.
pub open spec fn test_command(config: Option<Doc>, present: Seq<Seq<char>>) -> Option<Seq<char>> {
    let said = match config {
        Some(d) => json::member_words(d, "test"@),
        None => None,
    };
    if said is Some && text::trimmed(said->0).len() > 0 {
        said
    } else if text::listed(present, "pytest.ini"@) || text::listed(present, "pyproject.toml"@) || text::listed(
        present,
        "setup.cfg"@,
    ) || text::listed(present, "tox.ini"@) {
        Some("python -m pytest -q"@)
    } else if text::listed(present, "Cargo.toml"@) {
        Some("cargo test --quiet"@)
    } else if text::listed(present, "go.mod"@) {
        Some("go test ./..."@)
    } else if text::listed(present, "package.json"@) {
        Some("npm test --silent"@)
    } else {
        None
    }
}

/// What an optional value says.
pub open spec fn held_doc(o: Option<Json>) -> Option<Doc> {
    match o {
        Some(j) => Some(j@),
        None => None,
    }
}

/// The test command for a repository: what its configuration says, else a
/// guess from the names at its root. A wrong guess is why the configuration
/// has that key.
pub fn command_for(config: &Option<Json>, present: &Vec<String>) -> (r: Option<String>)
    ensures
        text::opt_text(r) == test_command(held_doc(*config), text::texts(present@)),
{
    match config {
        Some(j) => match j.get("test") {
            Some(x) => match x.as_str() {
                Some(cmd) => {
                    let bare = text::trim(cmd);
                    if text::chars(bare.as_str()).len() > 0 {
                        return Some(cmd.to_string());
                    }
                },
                None => {},
            },
            None => {},
        },
        None => {},
    }
    if text::is_listed(present, "pytest.ini") || text::is_listed(present, "pyproject.toml") || text::is_listed(
        present,
        "setup.cfg",
    ) || text::is_listed(present, "tox.ini") {
        Some("python -m pytest -q".to_string())
    } else if text::is_listed(present, "Cargo.toml") {
        Some("cargo test --quiet".to_string())
    } else if text::is_listed(present, "go.mod") {
        Some("go test ./...".to_string())
    } else if text::is_listed(present, "package.json") {
        Some("npm test --silent".to_string())
    } else {
        None
    }
}

/// The command line that runs the tests.
pub fn command_line(base: &str, tests: &Vec<String>) -> (r: String)
    ensures
        r@ == base@ + " "@ + text::joined(text::texts(tests@), " "@),
{
    let list = text::join(tests, " ");
    text::cat3(base, " ", list.as_str())
}

// ------------------------------------------------------------- the verdict

/// A text without the prefix, as often as it has it.
pub open spec fn less_prefixes(s: Seq<char>, p: Seq<char>) -> Seq<char>
    decreases s.len(),
{
    if p.len() > 0 && text::has_prefix(s, p) {
        less_prefixes(s.skip(p.len() as int), p)
    } else {
        s
    }
}

/// A text without the suffix, as often as it has it.
pub open spec fn less_suffixes(s: Seq<char>, p: Seq<char>) -> Seq<char>
    decreases s.len(),
{
    if p.len() > 0 && text::has_suffix(s, p) {
        less_suffixes(s.take(s.len() - p.len()), p)
    } else {
        s
    }
}

/// What stands before the first blank.
pub open spec fn first_word(s: Seq<char>) -> Seq<char> {
    s.take(text::next_of(s, ' ', 0))
}

/// The failing test that a line names, in the shapes the common runners use.
pub open spec fn failing_name(raw: Seq<char>) -> Option<Seq<char>> {
    let line = text::trimmed(raw);
    if text::has_prefix(line, "FAILED "@) {
        Some(first_word(line.skip(7)))
    } else if text::has_prefix(line, "ERROR "@) {
        Some(first_word(line.skip(6)))
    } else if text::has_prefix(line, "test "@) && text::has_suffix(line, "... FAILED"@) {
        Some(text::trimmed(less_suffixes(less_prefixes(line, "test "@), "... FAILED"@)))
    } else if text::has_prefix(line, "--- FAIL:"@) {
        Some(first_word(text::trimmed(less_prefixes(line, "--- FAIL:"@))))
    } else if text::has_prefix(line, "\u{2715} "@) {
        Some(text::trimmed(line.skip(2)))
    } else if text::has_prefix(line, "\u{d7} "@) {
        Some(text::trimmed(line.skip(2)))
    } else {
        None
    }
}

/// The failing tests that the first `n` lines name, each once, up to enough.
pub open spec fn failing_upto(lines: Seq<Seq<char>>, n: nat) -> Seq<Seq<char>>
    decreases n,
{
    if n == 0 {
        Seq::empty()
    } else {
        let rest = failing_upto(lines, (n - 1) as nat);
        match failing_name(lines[n - 1]) {
            Some(name) => if rest.len() < MAX_FAILING && name.len() > 0 && !text::listed(rest, name) {
                rest.push(name)
            } else {
                rest
            },
            None => rest,
        }
    }
}

/// The failing tests that a run's output names.
pub open spec fn failing(output: Seq<char>) -> Seq<Seq<char>> {
    failing_upto(text::lines_of(output), text::lines_of(output).len())
}

/// A text without the prefix, as often as it has it.
fn drop_prefixes(s: &str, p: &str) -> (r: String)
    requires
        p@.len() > 0,
    ensures
        r@ == less_prefixes(s@, p@),
{
    let mut out = s.to_string();
    let mut going = true;
    while going
        invariant
            p@.len() > 0,
            less_prefixes(s@, p@) == less_prefixes(out@, p@),
            !going ==> !text::has_prefix(out@, p@),
        decreases out@.len(), (if going { 1int } else { 0int }),
    {
        match text::strip_prefix(out.as_str(), p) {
            Some(rest) => {
                out = rest;
            },
            None => {
                going = false;
            },
        }
    }
    out
}

/// A text without the suffix, as often as it has it.
fn drop_suffixes(s: &str, p: &str) -> (r: String)
    requires
        p@.len() > 0,
    ensures
        r@ == less_suffixes(s@, p@),
{
    let mut out = s.to_string();
    let mut going = true;
    while going
        invariant
            p@.len() > 0,
            less_suffixes(s@, p@) == less_suffixes(out@, p@),
            !going ==> !text::has_suffix(out@, p@),
        decreases out@.len(), (if going { 1int } else { 0int }),
    {
        match text::strip_suffix(out.as_str(), p) {
            Some(rest) => {
                out = rest;
            },
            None => {
                going = false;
            },
        }
    }
    out
}

/// What stands before the first blank.
fn word(s: &str) -> (r: String)
    ensures
        r@ == first_word(s@),
{
    let cs = text::chars(s);
    let at = text::next_char(&cs, ' ', 0);
    let r = text::piece(&cs, 0, at);
    assert(r@ =~= first_word(s@));
    r
}

/// The failing test that a line names.
fn name_in(raw: &str) -> (r: Option<String>)
    ensures
        text::opt_text(r) == failing_name(raw@),
{
    let line = text::trim(raw);
    proof {
        reveal_strlit("FAILED ");
        reveal_strlit("ERROR ");
        reveal_strlit("test ");
        reveal_strlit("... FAILED");
        reveal_strlit("--- FAIL:");
        reveal_strlit("\u{2715} ");
        reveal_strlit("\u{d7} ");
    }
    match text::strip_prefix(line.as_str(), "FAILED ") {
        Some(rest) => {
            return Some(word(rest.as_str()));
        },
        None => {},
    }
    match text::strip_prefix(line.as_str(), "ERROR ") {
        Some(rest) => {
            return Some(word(rest.as_str()));
        },
        None => {},
    }
    if text::starts_with(line.as_str(), "test ") && text::ends_with(line.as_str(), "... FAILED") {
        let front = drop_prefixes(line.as_str(), "test ");
        let both = drop_suffixes(front.as_str(), "... FAILED");
        return Some(text::trim(both.as_str()));
    }
    if text::starts_with(line.as_str(), "--- FAIL:") {
        let front = drop_prefixes(line.as_str(), "--- FAIL:");
        let bare = text::trim(front.as_str());
        return Some(word(bare.as_str()));
    }
    match text::strip_prefix(line.as_str(), "\u{2715} ") {
        Some(rest) => {
            return Some(text::trim(rest.as_str()));
        },
        None => {},
    }
    match text::strip_prefix(line.as_str(), "\u{d7} ") {
        Some(rest) => {
            return Some(text::trim(rest.as_str()));
        },
        None => {},
    }
    None
}

/// The failing test names a runner printed, in the shapes the common ones
/// use. Names, not tracebacks: the agent needs to know what broke, and can
/// run the test itself if it wants the detail.
pub fn failing_lines(output: &str) -> (r: Vec<String>)
    ensures
        text::texts(r@) == failing(output@),
{
    let all = text::lines(output);
    let ghost whole = text::texts(all@);
    let mut out: Vec<String> = Vec::new();
    let mut k: usize = 0;
    assert(text::texts(out@) =~= Seq::<Seq<char>>::empty());
    while k < all.len()
        invariant
            k <= all.len(),
            whole == text::texts(all@),
            text::texts(out@) == failing_upto(whole, k as nat),
        decreases all.len() - k,
    {
        assert(whole[k as int] == all@[k as int]@);
        assert(text::texts(out@).len() == out@.len());
        match name_in(all[k].as_str()) {
            Some(name) => {
                if out.len() < MAX_FAILING && text::chars(name.as_str()).len() > 0 && !text::is_listed(
                    &out,
                    name.as_str(),
                ) {
                    proof {
                        text::lemma_texts_push(out@, name);
                    }
                    out.push(name);
                }
            },
            None => {},
        }
        k += 1;
    }
    assert(whole.len() == all@.len());
    out
}

/// The same failure is not listed twice, none is without a name, and there
/// are no more than a verdict has room for.
pub proof fn law_failures_once(lines: Seq<Seq<char>>, n: nat)
    ensures
        failing_upto(lines, n).len() <= MAX_FAILING,
        forall|i: int|
            0 <= i < failing_upto(lines, n).len() ==> (#[trigger] failing_upto(lines, n)[i]).len()
                > 0,
        forall|i: int, j: int|
            0 <= i < j < failing_upto(lines, n).len() ==> #[trigger] failing_upto(lines, n)[i]
                != #[trigger] failing_upto(lines, n)[j],
    decreases n,
{
    if n > 0 {
        law_failures_once(lines, (n - 1) as nat);
        let rest = failing_upto(lines, (n - 1) as nat);
        let all = failing_upto(lines, n);
        assert forall|i: int, j: int| 0 <= i < j < all.len() implies #[trigger] all[i]
            != #[trigger] all[j] by {
            assert(all[i] == rest[i]);
            if j < rest.len() {
                assert(all[j] == rest[j]);
            }
        }
    }
}

/// A failure that a line names is listed, unless there is no room left.
proof fn lemma_failure_listed(lines: Seq<Seq<char>>, n: nat, i: int)
    requires
        0 <= i < n,
        failing_name(lines[i]) is Some,
        failing_name(lines[i])->0.len() > 0,
    ensures
        text::listed(failing_upto(lines, n), failing_name(lines[i])->0) || failing_upto(lines, n).len()
            >= MAX_FAILING,
    decreases n,
{
    let name = failing_name(lines[i])->0;
    let rest = failing_upto(lines, (n - 1) as nat);
    let all = failing_upto(lines, n);
    if i < n - 1 {
        lemma_failure_listed(lines, (n - 1) as nat, i);
        if text::listed(rest, name) {
            let k = choose|k: int| 0 <= k < rest.len() && #[trigger] rest[k] == name;
            assert(all[k] == name);
        }
    } else if all != rest {
        assert(all[rest.len() as int] == name);
    }
}

/// The first line from the `k`th on that names the failure.
pub open spec fn first_naming(lines: Seq<Seq<char>>, name: Seq<char>, k: nat) -> nat
    decreases lines.len() - k,
{
    if k >= lines.len() || failing_name(lines[k as int]) == Some(name) {
        k
    } else {
        first_naming(lines, name, k + 1)
    }
}

/// The first line that names the failure is one that does, with none before.
proof fn lemma_first_naming(lines: Seq<Seq<char>>, name: Seq<char>, k: nat, m: nat)
    requires
        k <= m < lines.len(),
        failing_name(lines[m as int]) == Some(name),
        forall|i: int| k <= i < m ==> failing_name(#[trigger] lines[i]) != Some(name),
    ensures
        first_naming(lines, name, k) == m,
    decreases m - k,
{
    if k < m {
        assert(failing_name(lines[k as int]) != Some(name));
        lemma_first_naming(lines, name, k + 1, m);
    }
}

/// Failures are listed in the order in which they first appear, and each
/// appears among the lines read.
pub proof fn law_failures_in_order(lines: Seq<Seq<char>>, n: nat)
    requires
        n <= lines.len(),
    ensures
        forall|i: int|
            0 <= i < failing_upto(lines, n).len() ==> first_naming(
                lines,
                #[trigger] failing_upto(lines, n)[i],
                0,
            ) < n,
        forall|i: int, j: int|
            0 <= i < j < failing_upto(lines, n).len() ==> first_naming(
                lines,
                #[trigger] failing_upto(lines, n)[i],
                0,
            ) < first_naming(lines, #[trigger] failing_upto(lines, n)[j], 0),
    decreases n,
{
    if n > 0 {
        law_failures_in_order(lines, (n - 1) as nat);
        let rest = failing_upto(lines, (n - 1) as nat);
        let all = failing_upto(lines, n);
        if all != rest {
            let name = failing_name(lines[n - 1])->0;
            assert forall|i: int| 0 <= i < n - 1 implies failing_name(#[trigger] lines[i]) != Some(
                name,
            ) by {
                if failing_name(lines[i]) == Some(name) {
                    lemma_failure_listed(lines, (n - 1) as nat, i);
                }
            }
            lemma_first_naming(lines, name, 0, (n - 1) as nat);
        }
        assert forall|i: int| 0 <= i < all.len() implies first_naming(lines, #[trigger] all[i], 0)
            < n by {
            if i < rest.len() {
                assert(all[i] == rest[i]);
            }
        }
        assert forall|i: int, j: int| 0 <= i < j < all.len() implies first_naming(
            lines,
            #[trigger] all[i],
            0,
        ) < first_naming(lines, #[trigger] all[j], 0) by {
            assert(all[i] == rest[i]);
            if j < rest.len() {
                assert(all[j] == rest[j]);
            }
        }
    }
}

/// A line names the same failure with its carriage return and without.
proof fn lemma_name_in_line(raw: Seq<char>)
    ensures
        failing_name(text::without_cr(raw)) == failing_name(raw),
        raw.len() == 0 ==> failing_name(raw) is None,
{
    text::lemma_trimmed_line(raw);
    text::lemma_trimmed_len(raw);
    reveal_strlit("FAILED ");
    reveal_strlit("ERROR ");
    reveal_strlit("test ");
    reveal_strlit("--- FAIL:");
    reveal_strlit("\u{2715} ");
    reveal_strlit("\u{d7} ");
}

/// The failures that lines name are those that the pieces between line feeds
/// do.
proof fn lemma_failing_pieces(v: Seq<Seq<char>>, n: nat)
    requires
        n <= v.len(),
    ensures
        failing_upto(text::lines_upto(v, n), text::lines_upto(v, n).len()) == failing_upto(v, n),
    decreases n,
{
    if n > 0 {
        lemma_failing_pieces(v, (n - 1) as nat);
        lemma_name_in_line(v[n - 1]);
        let done = text::lines_upto(v, (n - 1) as nat);
        let all = text::lines_upto(v, n);
        if all.len() > done.len() {
            lemma_failing_start(done, seq![all.last()], done.len());
            assert(all =~= done + seq![all.last()]);
        }
    }
}

/// The failures of the first lines do not depend on the lines that follow.
proof fn lemma_failing_start(lines: Seq<Seq<char>>, more: Seq<Seq<char>>, n: nat)
    requires
        n <= lines.len(),
    ensures
        failing_upto(lines + more, n) == failing_upto(lines, n),
    decreases n,
{
    if n > 0 {
        lemma_failing_start(lines, more, (n - 1) as nat);
        assert((lines + more)[n - 1] == lines[n - 1]);
    }
}

/// Lines that come again name no failure that is not listed yet.
proof fn lemma_failing_again(lines: Seq<Seq<char>>, n: nat)
    requires
        n <= lines.len(),
    ensures
        failing_upto(lines + lines, lines.len() + n) == failing_upto(lines, lines.len()),
    decreases n,
{
    if n == 0 {
        lemma_failing_start(lines, lines, lines.len());
    } else {
        lemma_failing_again(lines, (n - 1) as nat);
        assert((lines + lines)[lines.len() + n - 1] == lines[n - 1]);
        if failing_name(lines[n - 1]) is Some && failing_name(lines[n - 1])->0.len() > 0 {
            lemma_failure_listed(lines, lines.len(), n - 1);
        }
    }
}

/// An output that comes twice names what it names once.
pub proof fn law_failures_of_output_repeated(output: Seq<char>)
    ensures
        failing(output + "\n"@ + output) == failing(output),
{
    reveal_strlit("\n");
    assert("\n"@ =~= seq!['\n']);
    let pieces = text::split_on(output, '\n');
    let twice = text::split_on(output + "\n"@ + output, '\n');
    text::lemma_split_both(output, '\n', output);
    lemma_failing_pieces(pieces, pieces.len());
    lemma_failing_pieces(twice, twice.len());
    lemma_failing_again(pieces, pieces.len());
}

/// Is the text a word: something, with nothing white in it?
pub open spec fn is_word(n: Seq<char>) -> bool {
    n.len() > 0 && forall|i: int| 0 <= i < n.len() ==> !text::is_white(#[trigger] n[i])
}

/// Does the text have no white character at its start and at its end?
pub open spec fn has_no_margins(n: Seq<char>) -> bool {
    n.len() > 0 && !text::is_white(n[0]) && !text::is_white(n.last())
}

/// What follows a word after a blank is not part of it, whether the end of
/// the line was trimmed or not.
proof fn lemma_word_after(head: Seq<char>, n: Seq<char>, rest: Seq<char>)
    requires
        head.len() > 0,
        !text::is_white(head[0]),
        is_word(n),
    ensures
        ({
            let line = text::trimmed(head + n + rest);
            let k = head.len() as int;
            &&& k + n.len() <= line.len()
            &&& line.take(k) == head
            &&& line.skip(k).take(n.len() as int) == n
            &&& line == (head + n + rest).take(line.len() as int)
        }),
        rest.len() == 0 || rest[0] == ' ' ==> first_word(
            text::trimmed(head + n + rest).skip(head.len() as int),
        ) == n,
{
    let s = head + n + rest;
    let k = head.len() as int;
    assert(s[0] == head[0]);
    assert(s[k + n.len() - 1] == n.last());
    text::lemma_trimmed_start(s, k + n.len() - 1);
    let line = text::trimmed(s);
    assert(line.take(k) =~= head);
    assert(line.skip(k).take(n.len() as int) =~= n);
    if rest.len() == 0 || rest[0] == ' ' {
        let t = line.skip(k);
        assert forall|j: int| 0 <= j < n.len() implies t[j] != ' ' by {
            assert(t[j] == n[j]);
        }
        if t.len() > n.len() {
            assert(t[n.len() as int] == rest[0]);
        }
        text::lemma_next_of_at(t, ' ', 0, n.len() as int);
        assert(first_word(t) =~= n);
    }
}

/// A line `FAILED n` or `ERROR n`, whatever follows after a blank, names `n`
/// as failing.
pub proof fn law_pytest_lines_name_the_failure(n: Seq<char>, rest: Seq<char>)
    requires
        is_word(n),
        rest.len() == 0 || rest[0] == ' ',
    ensures
        failing_name("FAILED "@ + n + rest) == Some(n),
        failing_name("ERROR "@ + n + rest) == Some(n),
{
    reveal_strlit("FAILED ");
    reveal_strlit("ERROR ");
    lemma_word_after("FAILED "@, n, rest);
    lemma_word_after("ERROR "@, n, rest);
    let a = text::trimmed("FAILED "@ + n + rest);
    let b = text::trimmed("ERROR "@ + n + rest);
    assert(text::has_prefix(a, "FAILED "@));
    assert(text::has_prefix(b, "ERROR "@));
    assert(b[0] == b.take(6)[0]);
    if text::has_prefix(b, "FAILED "@) {
        assert(b.take(7)[0] == b[0]);
    }
}

/// A line `--- FAIL: n`, whatever follows after a blank, names `n` as failing.
pub proof fn law_go_lines_name_the_failure(n: Seq<char>, rest: Seq<char>)
    requires
        is_word(n),
        rest.len() == 0 || rest[0] == ' ',
    ensures
        failing_name("--- FAIL: "@ + n + rest) == Some(n),
{
    reveal_strlit("--- FAIL:");
    reveal_strlit("--- FAIL: ");
    reveal_strlit("FAILED ");
    reveal_strlit("ERROR ");
    reveal_strlit("test ");
    let head = "--- FAIL: "@;
    lemma_word_after(head, n, rest);
    let line = text::trimmed(head + n + rest);
    assert(line[0] == line.take(10)[0]);
    assert(line.take(9) =~= line.take(10).take(9));
    assert("--- FAIL:"@ =~= head.take(9));
    if text::has_prefix(line, "FAILED "@) {
        assert(line.take(7)[0] == line[0]);
    }
    if text::has_prefix(line, "ERROR "@) {
        assert(line.take(6)[0] == line[0]);
    }
    if text::has_prefix(line, "test "@) {
        assert(line.take(5)[0] == line[0]);
    }
    let front = line.skip(9);
    assert(front[0] == line[9]);
    assert(line[9] == line.take(10)[9]);
    if text::has_prefix(front, "--- FAIL:"@) {
        assert(front.take(9)[0] == front[0]);
    }
    reveal_with_fuel(less_prefixes, 2);
    assert(less_prefixes(line, "--- FAIL:"@) == front);
    // what is left is a blank, the word and more of the line
    let t = line.skip(10);
    let gap = seq![' '];
    assert(front =~= gap + t + text::no_text());
    assert(t[0] == line.skip(10).take(n.len() as int)[0]);
    assert(t.last() == line.last());
    let s = head + n + rest;
    assert(s[0] == head[0]);
    assert(s[10 + n.len() - 1] == n.last());
    text::lemma_trimmed_start(s, 10 + n.len() - 1);
    assert(text::is_white(' '));
    text::law_trimming_takes_the_margins(gap, t, text::no_text());
}

/// A line `test n ... FAILED` names `n` as failing. Every `test ` at its start
/// is taken off, so a name that starts with one is not told from it.
pub proof fn law_cargo_lines_name_the_failure(n: Seq<char>)
    requires
        has_no_margins(n),
        n != "test"@,
        !text::has_prefix(n, "test "@),
    ensures
        failing_name("test "@ + n + " ... FAILED"@) == Some(n),
{
    reveal_strlit("FAILED ");
    reveal_strlit("ERROR ");
    reveal_strlit("test ");
    reveal_strlit("test");
    reveal_strlit("... FAILED");
    reveal_strlit(" ... FAILED");
    let line = "test "@ + n + " ... FAILED"@;
    let none = text::no_text();
    assert(line[0] == 't' && line.last() == 'D');
    text::law_trimming_takes_the_margins(none, line, none);
    assert(none + line + none =~= line);
    if text::has_prefix(line, "FAILED "@) {
        assert(line.take(7)[0] == line[0]);
    }
    if text::has_prefix(line, "ERROR "@) {
        assert(line.take(6)[0] == line[0]);
    }
    assert(line.take(5) =~= "test "@);
    assert(line.skip(line.len() - 10) =~= "... FAILED"@);
    let front = line.skip(5);
    assert(front =~= n + " ... FAILED"@);
    if text::has_prefix(front, "test "@) {
        let part = front.take(5);
        assert(part =~= "test "@);
        if n.len() >= 5 {
            assert(n.take(5) =~= part);
        } else if n.len() == 4 {
            assert(n =~= "test"@) by {
                assert(n[0] == part[0] && n[1] == part[1] && n[2] == part[2] && n[3] == part[3]);
            }
        } else {
            assert(part[n.len() as int] == ' ');
            assert(false);
        }
    }
    reveal_with_fuel(less_prefixes, 2);
    assert(less_prefixes(line, "test "@) == front);
    assert(front.skip(front.len() - 10) =~= "... FAILED"@);
    let bare = front.take(front.len() - 10);
    assert(bare =~= n + seq![' ']);
    if text::has_suffix(bare, "... FAILED"@) {
        assert(bare.skip(bare.len() - 10)[9] == ' ');
    }
    reveal_with_fuel(less_suffixes, 2);
    assert(less_suffixes(front, "... FAILED"@) == bare);
    assert(text::is_white(' '));
    text::law_trimming_takes_the_margins(none, n, seq![' ']);
    assert(none + n + seq![' '] =~= bare);
}

/// A line with a cross and a blank in front names what follows as failing.
pub proof fn law_crossed_lines_name_the_failure(n: Seq<char>)
    requires
        has_no_margins(n),
    ensures
        failing_name(seq!['\u{2715}', ' '] + n) == Some(n),
        failing_name(seq!['\u{d7}', ' '] + n) == Some(n),
{
    reveal_strlit("FAILED ");
    reveal_strlit("ERROR ");
    reveal_strlit("test ");
    reveal_strlit("--- FAIL:");
    reveal_strlit("\u{2715} ");
    reveal_strlit("\u{d7} ");
    let none = text::no_text();
    text::law_trimming_takes_the_margins(none, n, none);
    assert(none + n + none =~= n);
    lemma_crossed_line('\u{2715}', n);
    lemma_crossed_line('\u{d7}', n);
    assert("\u{2715} "@ =~= seq!['\u{2715}', ' ']);
    assert("\u{d7} "@ =~= seq!['\u{d7}', ' ']);
    let b = seq!['\u{d7}', ' '] + n;
    if text::has_prefix(b, "\u{2715} "@) {
        assert(b.take(2)[0] == b[0]);
    }
}

/// A line with a mark in front is trimmed already, and starts as no other.
proof fn lemma_crossed_line(mark: char, n: Seq<char>)
    requires
        has_no_margins(n),
        mark == '\u{2715}' || mark == '\u{d7}',
    ensures
        ({
            let line = seq![mark, ' '] + n;
            &&& text::trimmed(line) == line
            &&& line.take(2) == seq![mark, ' ']
            &&& line.skip(2) == n
            &&& !text::has_prefix(line, "FAILED "@)
            &&& !text::has_prefix(line, "ERROR "@)
            &&& !text::has_prefix(line, "test "@)
            &&& !text::has_prefix(line, "--- FAIL:"@)
        }),
{
    reveal_strlit("FAILED ");
    reveal_strlit("ERROR ");
    reveal_strlit("test ");
    reveal_strlit("--- FAIL:");
    let none = text::no_text();
    let line = seq![mark, ' '] + n;
    assert(line[0] == mark && line.last() == n.last());
    text::law_trimming_takes_the_margins(none, line, none);
    assert(none + line + none =~= line);
    assert(line.take(2) =~= seq![mark, ' ']);
    assert(line.skip(2) =~= n);
    if text::has_prefix(line, "FAILED "@) {
        assert(line.take(7)[0] == line[0]);
    }
    if text::has_prefix(line, "ERROR "@) {
        assert(line.take(6)[0] == line[0]);
    }
    if text::has_prefix(line, "test "@) {
        assert(line.take(5)[0] == line[0]);
    }
    if text::has_prefix(line, "--- FAIL:"@) {
        assert(line.take(9)[0] == line[0]);
    }
}

/// White characters around a line do not change what it names.
pub proof fn law_margins_do_not_matter(raw: Seq<char>)
    ensures
        failing_name(text::trimmed(raw)) == failing_name(raw),
{
    text::law_trimming_twice_is_once(raw);
}

/// A line that holds none of the marks of a failure names nothing.
pub proof fn law_other_lines_name_nothing(raw: Seq<char>)
    requires
        !text::contains(raw, "FAILED"@),
        !text::contains(raw, "ERROR"@),
        !text::contains(raw, "FAIL:"@),
        !raw.contains('\u{2715}'),
        !raw.contains('\u{d7}'),
    ensures
        failing_name(raw) is None,
{
    reveal_strlit("FAILED");
    reveal_strlit("ERROR");
    reveal_strlit("FAIL:");
    reveal_strlit("FAILED ");
    reveal_strlit("ERROR ");
    reveal_strlit("... FAILED");
    reveal_strlit("--- FAIL:");
    reveal_strlit("\u{2715} ");
    reveal_strlit("\u{d7} ");
    let line = text::trimmed(raw);
    let at = text::lemma_trimmed_inside(raw);
    assert forall|w: Seq<char>| text::contains(line, w) implies #[trigger] text::contains(raw, w) by {
        let i = choose|i: int| #[trigger] text::occurs_at(line, w, i);
        assert(raw.subrange(at + i, at + i + w.len()) =~= line.subrange(i, i + w.len()));
        assert(text::occurs_at(raw, w, at + i));
    }
    if text::has_prefix(line, "FAILED "@) {
        lemma_word_within(line, 0, "FAILED "@, "FAILED"@, 0);
    }
    if text::has_prefix(line, "ERROR "@) {
        lemma_word_within(line, 0, "ERROR "@, "ERROR"@, 0);
    }
    if text::has_suffix(line, "... FAILED"@) {
        assert(line.subrange(line.len() - 10, line.len() as int) =~= line.skip(line.len() - 10));
        lemma_word_within(line, line.len() - 10, "... FAILED"@, "FAILED"@, 4);
    }
    if text::has_prefix(line, "--- FAIL:"@) {
        lemma_word_within(line, 0, "--- FAIL:"@, "FAIL:"@, 4);
    }
    if text::has_prefix(line, "\u{2715} "@) {
        assert(line.take(2)[0] == raw[at]);
        assert(raw.contains(raw[at]));
    }
    if text::has_prefix(line, "\u{d7} "@) {
        assert(line.take(2)[0] == raw[at]);
        assert(raw.contains(raw[at]));
    }
}

/// A line `test n ... ok` names nothing, whatever the test is called.
pub proof fn law_passing_lines_name_nothing(n: Seq<char>)
    ensures
        failing_name("test "@ + n + " ... ok"@) is None,
{
    reveal_strlit("FAILED ");
    reveal_strlit("ERROR ");
    reveal_strlit("test ");
    reveal_strlit("... FAILED");
    reveal_strlit("--- FAIL:");
    reveal_strlit("\u{2715} ");
    reveal_strlit("\u{d7} ");
    reveal_strlit(" ... ok");
    let line = "test "@ + n + " ... ok"@;
    let none = text::no_text();
    assert(line[0] == 't' && line.last() == 'k');
    text::law_trimming_takes_the_margins(none, line, none);
    assert(none + line + none =~= line);
    if text::has_prefix(line, "FAILED "@) {
        assert(line.take(7)[0] == line[0]);
    }
    if text::has_prefix(line, "ERROR "@) {
        assert(line.take(6)[0] == line[0]);
    }
    if text::has_suffix(line, "... FAILED"@) {
        assert(line.skip(line.len() - 10)[9] == line.last());
    }
    if text::has_prefix(line, "--- FAIL:"@) {
        assert(line.take(9)[0] == line[0]);
    }
    if text::has_prefix(line, "\u{2715} "@) {
        assert(line.take(2)[0] == line[0]);
    }
    if text::has_prefix(line, "\u{d7} "@) {
        assert(line.take(2)[0] == line[0]);
    }
}

/// An output names what its lines name: a failure that a line names is
/// listed as long as there is room, and what is listed is named by a line.
pub proof fn law_an_output_names_what_its_lines_name(output: Seq<char>, i: int, name: Seq<char>)
    ensures
        0 <= i < text::lines_of(output).len() && failing_name(text::lines_of(output)[i]) == Some(
            name,
        ) && name.len() > 0 && failing(output).len() < 20 ==> text::listed(failing(output), name),
        text::listed(failing(output), name) ==> exists|j: int|
            0 <= j < text::lines_of(output).len() && failing_name(
                #[trigger] text::lines_of(output)[j],
            ) == Some(name),
{
    let lines = text::lines_of(output);
    if 0 <= i < lines.len() && failing_name(lines[i]) == Some(name) && name.len() > 0 {
        lemma_failure_listed(lines, lines.len(), i);
    }
    if text::listed(failing(output), name) {
        lemma_listed_is_named(lines, lines.len(), name);
    }
}

/// What is listed is named by a line.
proof fn lemma_listed_is_named(lines: Seq<Seq<char>>, n: nat, name: Seq<char>)
    requires
        n <= lines.len(),
        text::listed(failing_upto(lines, n), name),
    ensures
        exists|j: int| 0 <= j < n && failing_name(#[trigger] lines[j]) == Some(name),
    decreases n,
{
    if n > 0 {
        let rest = failing_upto(lines, (n - 1) as nat);
        let all = failing_upto(lines, n);
        let k = choose|k: int| 0 <= k < all.len() && #[trigger] all[k] == name;
        if k < rest.len() {
            assert(rest[k] == all[k]);
            lemma_listed_is_named(lines, (n - 1) as nat, name);
        } else {
            assert(failing_name(lines[n - 1]) == Some(name));
        }
    }
}

/// Of two runs, the second names after the first what the first did not name
/// yet: what the lines of the first name comes first, unchanged.
pub proof fn law_later_lines_only_add(lines: Seq<Seq<char>>, more: Seq<Seq<char>>)
    ensures
        failing_upto(lines, lines.len()).is_prefix_of(
            failing_upto(lines + more, lines.len() + more.len()),
        ),
    decreases more.len(),
{
    if more.len() == 0 {
        assert(lines + more =~= lines);
    } else {
        let less = more.drop_last();
        law_later_lines_only_add(lines, less);
        let n = (lines.len() + less.len()) as nat;
        lemma_failing_start(lines + less, seq![more.last()], n);
        assert((lines + less) + seq![more.last()] =~= lines + more);
        let a = failing_upto(lines, lines.len());
        let b = failing_upto(lines + less, n);
        let c = failing_upto(lines + more, n + 1);
        assert(c.take(a.len() as int) =~= b.take(a.len() as int));
    }
}

/// The record of a test run. The times come as written: how long the run
/// took, and when it ended.
pub open spec fn verdict_doc(
    ok: bool,
    command: Seq<char>,
    changed: Seq<Seq<char>>,
    tests: Seq<Seq<char>>,
    output: Seq<char>,
    elapsed: Seq<char>,
    ts: Seq<char>,
) -> Doc {
    json::object_doc(
        seq![
            ("v"@, Doc::Number(text::decimal(1))),
            ("ok"@, Doc::Bool(ok)),
            ("command"@, Doc::Text(command)),
            ("changed"@, Doc::List(json::text_docs(changed))),
            ("tests"@, Doc::List(json::text_docs(tests))),
            ("failing"@, Doc::List(json::text_docs(failing(output)))),
            ("elapsed_s"@, Doc::Number(elapsed)),
            ("ts"@, Doc::Number(ts)),
        ],
    )
}

/// The record of a test run.
pub fn verdict(
    ok: bool,
    command: &str,
    changed: &Vec<String>,
    tests: &Vec<String>,
    output: &str,
    elapsed: &str,
    ts: &str,
) -> (r: Json)
    ensures
        r@ == verdict_doc(
            ok,
            command@,
            text::texts(changed@),
            text::texts(tests@),
            output@,
            elapsed@,
            ts@,
        ),
{
    let failed = failing_lines(output);
    let v: Vec<(&'static str, Json)> = vec![
        ("v", json::count(1)),
        ("ok", Json::Bool(ok)),
        ("command", json::text(command)),
        ("changed", json::text_list(changed)),
        ("tests", json::text_list(tests)),
        ("failing", json::text_list(&failed)),
        ("elapsed_s", Json::Number(elapsed.to_string())),
        ("ts", Json::Number(ts.to_string())),
    ];
    assert(json::entry_docs(v@) =~= seq![
        ("v"@, Doc::Number(text::decimal(1))),
        ("ok"@, Doc::Bool(ok)),
        ("command"@, Doc::Text(command@)),
        ("changed"@, Doc::List(json::text_docs(text::texts(changed@)))),
        ("tests"@, Doc::List(json::text_docs(text::texts(tests@)))),
        ("failing"@, Doc::List(json::text_docs(failing(output@)))),
        ("elapsed_s"@, Doc::Number(elapsed@)),
        ("ts"@, Doc::Number(ts@)),
    ]);
    json::object(v)
}

/// A verdict reads back as it was written.
pub proof fn law_a_verdict_reads_back(
    ok: bool,
    command: Seq<char>,
    changed: Seq<Seq<char>>,
    tests: Seq<Seq<char>>,
    output: Seq<char>,
    elapsed: Seq<char>,
    ts: Seq<char>,
)
    ensures
        json::member(verdict_doc(ok, command, changed, tests, output, elapsed, ts), "ok"@) == Some(
            Doc::Bool(ok),
        ),
        json::texts_at(
            verdict_doc(ok, command, changed, tests, output, elapsed, ts),
            "changed"@,
        ) == changed,
        json::texts_at(
            verdict_doc(ok, command, changed, tests, output, elapsed, ts),
            "failing"@,
        ) == failing(output),
{
    let fields = seq![
        ("v"@, Doc::Number(text::decimal(1))),
        ("ok"@, Doc::Bool(ok)),
        ("command"@, Doc::Text(command)),
        ("changed"@, Doc::List(json::text_docs(changed))),
        ("tests"@, Doc::List(json::text_docs(tests))),
        ("failing"@, Doc::List(json::text_docs(failing(output)))),
        ("elapsed_s"@, Doc::Number(elapsed)),
        ("ts"@, Doc::Number(ts)),
    ];
    reveal_strlit("ok");
    reveal_strlit("command");
    reveal_strlit("changed");
    reveal_strlit("tests");
    reveal_strlit("failing");
    reveal_strlit("elapsed_s");
    reveal_strlit("ts");
    assert("ok"@.len() == 2 && "ts"@.len() == 2 && "tests"@.len() == 5);
    assert("command"@.len() == 7 && "changed"@.len() == 7 && "failing"@.len() == 7);
    assert("elapsed_s"@.len() == 9);
    assert("ok"@[0] != "ts"@[0] && "changed"@[0] != "failing"@[0]);
    json::lemma_object_member(fields, 1);
    json::lemma_object_member(fields, 3);
    json::lemma_object_member(fields, 5);
    json::lemma_text_docs(changed, changed.len());
    json::lemma_text_docs(failing(output), failing(output).len());
    assert(changed.take(changed.len() as int) =~= changed);
    assert(failing(output).take(failing(output).len() as int) =~= failing(output));
}

} // verus!

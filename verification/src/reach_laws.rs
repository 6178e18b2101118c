//! What a change reaches, and which tests are run for it, said of the edges
//! that the index holds.
use vstd::prelude::*;
use crate::text;
use crate::json;
use crate::radius;
use crate::verify;
use crate::json::Doc;
use crate::radius::DependentText;

verus! {

/// Does the index hold an edge from the caller to the callee, its first two
/// texts?
pub open spec fn has_edge(index: Doc, caller: Seq<char>, callee: Seq<char>) -> bool {
    exists|v: Seq<Doc>, k: int|
        #![trigger v[k]]
        json::member(index, "edges"@) == Some(Doc::List(v)) && 0 <= k < v.len() && is_edge(
            v[k],
            caller,
            callee,
        )
}

/// Is the value an edge from the caller to the callee?
pub open spec fn is_edge(d: Doc, caller: Seq<char>, callee: Seq<char>) -> bool {
    d matches Doc::List(pair) && pair.len() >= 2 && pair[0] == Doc::Text(caller) && pair[1]
        == Doc::Text(callee)
}

/// An edge makes its first end a caller of its second, and nothing else does.
pub proof fn law_an_edge_leads_from_caller_to_callee(
    index: Doc,
    caller: Seq<char>,
    callee: Seq<char>,
)
    ensures
        text::listed(radius::callers(radius::backwards(index), callee), caller) <==> has_edge(
            index,
            caller,
            callee,
        ),
{
    if let Some(Doc::List(v)) = json::member(index, "edges"@) {
        radius::law_callers_are_the_edges(v, v.len(), caller, callee);
        if has_edge(index, caller, callee) {
            let (w, k) = choose|w: Seq<Doc>, k: int|
                #![trigger w[k]]
                json::member(index, "edges"@) == Some(Doc::List(w)) && 0 <= k < w.len() && is_edge(
                    w[k],
                    caller,
                    callee,
                );
            assert(radius::edge_ends(v[k]) == Some((caller, callee)));
        }
        if text::listed(radius::callers(radius::backwards(index), callee), caller) {
            let k = choose|k: int|
                0 <= k < v.len() && radius::edge_ends(#[trigger] v[k]) == Some((caller, callee));
            assert(is_edge(v[k], caller, callee));
        }
    }
}

/// A node is its path and its symbol with two colons between them.
pub proof fn law_a_node_reads_as_path_and_symbol(path: Seq<char>, symbol: Seq<char>)
    requires
        !path.contains(':'),
    ensures
        radius::halves(path + "::"@ + symbol) == (path, symbol),
{
    let id = path + "::"@ + symbol;
    reveal_strlit("::");
    text::lemma_find(id, "::"@, 0);
    let n = path.len() as int;
    assert(id.subrange(n, n + 2) =~= "::"@);
    assert(text::occurs_at(id, "::"@, n));
    assert forall|i: int| 0 <= i < n implies !text::occurs_at(id, "::"@, i) by {
        if text::occurs_at(id, "::"@, i) {
            assert(id.subrange(i, i + 2)[0] == id[i]);
            assert(id[i] == path[i]);
            assert(path.contains(path[i]));
        }
    }
    assert(id.take(n) =~= path);
    assert(id.skip(n + 2) =~= symbol);
}

/// A caller of what is on a walk, nearer than its end, is on it too, at most a
/// hop further, as long as there is room.
pub proof fn law_callers_are_reached(
    index: Doc,
    roots: Seq<Seq<char>>,
    depth: nat,
    limit: nat,
    caller: Seq<char>,
    callee: Seq<char>,
    at: nat,
)
    requires
        has_edge(index, caller, callee),
        at < depth,
        radius::dependents(index, roots, depth, limit).len() < limit,
        radius::near(
            radius::whole_walk(radius::backwards(index), roots, depth, limit),
            callee,
            at,
        ),
    ensures
        radius::near(
            radius::whole_walk(radius::backwards(index), roots, depth, limit),
            caller,
            at + 1,
        ),
{
    let back = radius::backwards(index);
    let q = radius::whole_walk(back, roots, depth, limit);
    radius::law_walk_starts_at_the_roots(index, roots, depth, limit);
    law_an_edge_leads_from_caller_to_callee(index, caller, callee);
    let i = choose|i: int| 0 <= i < q.len() && (#[trigger] q[i]).0 == callee && q[i].1 <= at;
    let list = radius::callers(back, callee);
    let c = choose|c: int| 0 <= c < list.len() && #[trigger] list[c] == caller;
    radius::law_all_callers(index, roots, depth, limit, i, c);
    let j = choose|j: int|
        0 <= j < q.len() && (#[trigger] q[j]).0 == caller && q[j].1 <= q[i].1 + 1;
    assert(q[j].0 == caller && q[j].1 <= at + 1);
}

/// The roots are on the walk, no hop away.
proof fn lemma_roots_are_near(
    index: Doc,
    roots: Seq<Seq<char>>,
    depth: nat,
    limit: nat,
    root: Seq<char>,
)
    requires
        text::listed(roots, root),
    ensures
        radius::near(
            radius::whole_walk(radius::backwards(index), roots, depth, limit),
            root,
            0,
        ),
{
    let q = radius::whole_walk(radius::backwards(index), roots, depth, limit);
    radius::law_walk_starts_at_the_roots(index, roots, depth, limit);
    let i = choose|i: int| 0 <= i < roots.len() && #[trigger] roots[i] == root;
    assert(q.take(roots.len() as int)[i] == radius::roots_walk(roots)[i]);
    assert(q[i].0 == root && q[i].1 == 0);
}

/// What is on the walk and is no root is a dependent.
proof fn lemma_near_is_dependent(
    index: Doc,
    roots: Seq<Seq<char>>,
    depth: nat,
    limit: nat,
    node: Seq<char>,
    at: nat,
) -> (m: int)
    requires
        !text::listed(roots, node),
        radius::near(
            radius::whole_walk(radius::backwards(index), roots, depth, limit),
            node,
            at,
        ),
    ensures
        0 <= m < radius::dependents(index, roots, depth, limit).len(),
        radius::dependents(index, roots, depth, limit)[m].path == radius::halves(node).0,
        radius::dependents(index, roots, depth, limit)[m].symbol == radius::halves(node).1,
        1 <= radius::dependents(index, roots, depth, limit)[m].depth <= at,
{
    let q = radius::whole_walk(radius::backwards(index), roots, depth, limit);
    radius::law_walk_starts_at_the_roots(index, roots, depth, limit);
    let j = choose|j: int| 0 <= j < q.len() && (#[trigger] q[j]).0 == node && q[j].1 <= at;
    if j < roots.len() {
        assert(q.take(roots.len() as int)[j] == radius::roots_walk(roots)[j]);
        assert(roots[j] == node);
    }
    radius::law_nearest_first(index, roots, depth, limit, j, j);
    j - roots.len()
}

/// A symbol that calls one that changed is in its radius, a hop away, as long
/// as there is room.
pub proof fn law_a_caller_is_in_the_radius(
    index: Doc,
    roots: Seq<Seq<char>>,
    depth: nat,
    limit: nat,
    path: Seq<char>,
    symbol: Seq<char>,
    callee: Seq<char>,
) -> (m: int)
    requires
        text::listed(roots, callee),
        !text::listed(roots, path + "::"@ + symbol),
        !path.contains(':'),
        has_edge(index, path + "::"@ + symbol, callee),
        depth >= 1,
        radius::dependents(index, roots, depth, limit).len() < limit,
    ensures
        0 <= m < radius::dependents(index, roots, depth, limit).len(),
        radius::dependents(index, roots, depth, limit)[m] == (DependentText {
            path,
            symbol,
            depth: 1,
        }),
{
    let caller = path + "::"@ + symbol;
    lemma_roots_are_near(index, roots, depth, limit, callee);
    law_callers_are_reached(index, roots, depth, limit, caller, callee, 0);
    law_a_node_reads_as_path_and_symbol(path, symbol);
    lemma_near_is_dependent(index, roots, depth, limit, caller, 1)
}

/// Everything in a radius calls something that is a hop nearer, by an edge of
/// the index.
pub proof fn law_only_callers_are_in_the_radius(
    index: Doc,
    roots: Seq<Seq<char>>,
    depth: nat,
    limit: nat,
    j: int,
) -> (i: int)
    requires
        roots.len() <= j < radius::whole_walk(
            radius::backwards(index),
            roots,
            depth,
            limit,
        ).len(),
    ensures
        0 <= i < j,
        ({
            let q = radius::whole_walk(radius::backwards(index), roots, depth, limit);
            q[j].1 == q[i].1 + 1 && has_edge(index, q[j].0, q[i].0)
        }),
{
    let q = radius::whole_walk(radius::backwards(index), roots, depth, limit);
    radius::law_only_callers(index, roots, depth, limit, j);
    let i = choose|i: int|
        0 <= i < j && q[j].1 == (#[trigger] q[i]).1 + 1 && text::listed(
            radius::callers(radius::backwards(index), q[i].0),
            q[j].0,
        );
    law_an_edge_leads_from_caller_to_callee(index, q[j].0, q[i].0);
    i
}

/// The nodes of a file are its path with each of the symbols that the index
/// has for it.
pub proof fn law_a_files_symbols_are_its_nodes(
    index: Doc,
    path: Seq<char>,
    files: Doc,
    file: Doc,
    v: Seq<(Seq<char>, Doc)>,
    k: int,
)
    requires
        json::member(index, "files"@) == Some(files),
        json::member(files, path) == Some(file),
        json::member(file, "symbols"@) == Some(Doc::Object(v)),
        0 <= k < v.len(),
    ensures
        radius::file_nodes(index, path).len() == v.len(),
        radius::file_nodes(index, path)[k] == path + "::"@ + v[k].0,
{
    lemma_nodes(path, v, v.len(), k);
}

/// The nodes of a list of symbols.
proof fn lemma_nodes(path: Seq<char>, v: Seq<(Seq<char>, Doc)>, n: nat, k: int)
    requires
        n <= v.len(),
    ensures
        radius::nodes_upto(path, v, n).len() == n,
        0 <= k < n ==> radius::nodes_upto(path, v, n)[k] == path + "::"@ + v[k].0,
    decreases n,
{
    if n > 0 {
        lemma_nodes(path, v, (n - 1) as nat, k);
    }
}

/// The nodes of a changed file are among the roots.
proof fn lemma_roots_of_file(
    index: Doc,
    changed: Seq<Seq<char>>,
    n: nat,
    i: int,
    node: Seq<char>,
)
    requires
        0 <= i < n <= changed.len(),
        text::listed(radius::file_nodes(index, changed[i]), node),
    ensures
        text::listed(verify::roots_upto(index, changed, n), node),
    decreases n,
{
    let rest = verify::roots_upto(index, changed, (n - 1) as nat);
    let last = radius::file_nodes(index, changed[n - 1]);
    if i == n - 1 {
        let k = choose|k: int| 0 <= k < last.len() && #[trigger] last[k] == node;
        assert((rest + last)[rest.len() + k] == node);
    } else {
        lemma_roots_of_file(index, changed, (n - 1) as nat, i, node);
        let k = choose|k: int| 0 <= k < rest.len() && #[trigger] rest[k] == node;
        assert((rest + last)[k] == node);
    }
}

/// A test file that something in it reaches is run, as long as there is room.
proof fn lemma_reached_test_is_run(
    index: Doc,
    changed: Seq<Seq<char>>,
    path: Seq<char>,
    symbol: Seq<char>,
    at: nat,
)
    requires
        verify::test_path(path),
        !path.contains(':'),
        ({
            let roots = verify::roots_upto(index, changed, changed.len());
            &&& roots.len() > 0
            &&& !text::listed(roots, path + "::"@ + symbol)
            &&& radius::near(
                radius::whole_walk(radius::backwards(index), roots, 3, 200),
                path + "::"@ + symbol,
                at,
            )
        }),
        verify::covering(index, changed).len() < 12,
    ensures
        text::listed(verify::covering(index, changed), path),
{
    let roots = verify::roots_upto(index, changed, changed.len());
    let found = radius::dependents(index, roots, 3, 200);
    law_a_node_reads_as_path_and_symbol(path, symbol);
    let m = lemma_near_is_dependent(index, roots, 3, 200, path + "::"@ + symbol, at);
    radius::law_files_once(found, found.len());
    assert(text::listed(radius::files_upto(found, found.len()), found[m].path));
    verify::law_every_covering_test_is_run(index, changed, path);
}

/// A test that calls a symbol of a file that changed is run, as long as there
/// is room: the edge from the test to the symbol is enough.
pub proof fn law_a_test_that_calls_what_changed_is_run(
    index: Doc,
    changed: Seq<Seq<char>>,
    i: int,
    callee: Seq<char>,
    path: Seq<char>,
    symbol: Seq<char>,
)
    requires
        0 <= i < changed.len(),
        text::listed(radius::file_nodes(index, changed[i]), callee),
        verify::test_path(path),
        !path.contains(':'),
        has_edge(index, path + "::"@ + symbol, callee),
        !text::listed(
            verify::roots_upto(index, changed, changed.len()),
            path + "::"@ + symbol,
        ),
        radius::dependents(
            index,
            verify::roots_upto(index, changed, changed.len()),
            3,
            200,
        ).len() < 200,
        verify::covering(index, changed).len() < 12,
    ensures
        text::listed(verify::covering(index, changed), path),
{
    let roots = verify::roots_upto(index, changed, changed.len());
    lemma_roots_of_file(index, changed, changed.len(), i, callee);
    lemma_roots_are_near(index, roots, 3, 200, callee);
    law_callers_are_reached(index, roots, 3, 200, path + "::"@ + symbol, callee, 0);
    lemma_reached_test_is_run(index, changed, path, symbol, 1);
}

/// A test that reaches a symbol of a file that changed by three calls is run
/// too, as long as there is room.
pub proof fn law_a_test_three_calls_away_is_run(
    index: Doc,
    changed: Seq<Seq<char>>,
    i: int,
    callee: Seq<char>,
    first: Seq<char>,
    second: Seq<char>,
    path: Seq<char>,
    symbol: Seq<char>,
)
    requires
        0 <= i < changed.len(),
        text::listed(radius::file_nodes(index, changed[i]), callee),
        verify::test_path(path),
        !path.contains(':'),
        has_edge(index, first, callee),
        has_edge(index, second, first),
        has_edge(index, path + "::"@ + symbol, second),
        !text::listed(
            verify::roots_upto(index, changed, changed.len()),
            path + "::"@ + symbol,
        ),
        radius::dependents(
            index,
            verify::roots_upto(index, changed, changed.len()),
            3,
            200,
        ).len() < 200,
        verify::covering(index, changed).len() < 12,
    ensures
        text::listed(verify::covering(index, changed), path),
{
    let roots = verify::roots_upto(index, changed, changed.len());
    lemma_roots_of_file(index, changed, changed.len(), i, callee);
    lemma_roots_are_near(index, roots, 3, 200, callee);
    law_callers_are_reached(index, roots, 3, 200, first, callee, 0);
    law_callers_are_reached(index, roots, 3, 200, second, first, 1);
    law_callers_are_reached(index, roots, 3, 200, path + "::"@ + symbol, second, 2);
    lemma_reached_test_is_run(index, changed, path, symbol, 3);
}

/// Every test that is run is one of the files that changed, or lives in a file
/// that something reaches them from, and a path that looks like a test's.
pub proof fn law_only_tests_of_the_radius_are_run(
    index: Doc,
    changed: Seq<Seq<char>>,
    p: Seq<char>,
)
    requires
        text::listed(verify::covering(index, changed), p),
    ensures
        verify::test_path(p),
        text::listed(changed, p) || ({
            let roots = verify::roots_upto(index, changed, changed.len());
            let found = radius::dependents(index, roots, 3, 200);
            exists|m: int| 0 <= m < found.len() && (#[trigger] found[m]).path == p
        }),
{
    verify::law_only_tests_and_once(index, changed);
    let all = verify::covering(index, changed);
    let k = choose|k: int| 0 <= k < all.len() && #[trigger] all[k] == p;
    let own = verify::own_tests(changed, changed.len());
    let roots = verify::roots_upto(index, changed, changed.len());
    let found = radius::dependents(index, roots, 3, 200);
    let files = radius::files_upto(found, found.len());
    radius::law_files_once(found, found.len());
    lemma_own_are_changed(changed, changed.len(), p);
    if roots.len() > 0 {
        lemma_tests_are_files(own, files, 0, p);
        if text::listed(files, p) {
            let i = choose|i: int| 0 <= i < files.len() && #[trigger] files[i] == p;
        }
    }
}

/// The tests of the changed files are changed files.
proof fn lemma_own_are_changed(changed: Seq<Seq<char>>, n: nat, p: Seq<char>)
    requires
        n <= changed.len(),
    ensures
        text::listed(verify::own_tests(changed, n), p) ==> text::listed(changed, p),
    decreases n,
{
    if n > 0 {
        lemma_own_are_changed(changed, (n - 1) as nat, p);
        let rest = verify::own_tests(changed, (n - 1) as nat);
        let all = verify::own_tests(changed, n);
        if text::listed(all, p) {
            let k = choose|k: int| 0 <= k < all.len() && #[trigger] all[k] == p;
            if k < rest.len() {
                assert(rest[k] == p);
            } else {
                assert(changed[n - 1] == p);
            }
        }
    }
}

/// The tests added are among the files.
proof fn lemma_tests_are_files(
    v: Seq<Seq<char>>,
    files: Seq<Seq<char>>,
    k: nat,
    p: Seq<char>,
)
    ensures
        text::listed(verify::tests_from(v, files, k), p) ==> text::listed(v, p) || text::listed(
            files,
            p,
        ),
    decreases files.len() - k,
{
    if k < files.len() {
        let next = verify::with_test(v, files[k as int]);
        if text::listed(next, p) {
            let i = choose|i: int| 0 <= i < next.len() && #[trigger] next[i] == p;
            if i < v.len() {
                assert(v[i] == p);
            } else {
                assert(files[k as int] == p);
            }
        }
        if next.len() < verify::MAX_TESTS {
            lemma_tests_are_files(next, files, k + 1, p);
        }
    }
}

} // verus!

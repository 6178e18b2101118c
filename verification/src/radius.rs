//! What breaks if this changes.
//!
//! The index stores edges pointing from a caller to what it calls. Blast
//! radius is that read backwards: start at the symbol somebody just edited
//! and walk the callers, then their callers, breadth first. The answer is the
//! set of files whose tests are worth running, and it is computed from the
//! parser's edges rather than from a name search, so a rename does not
//! silently lose half the callers.
use vstd::prelude::*;
use crate::text;
use crate::table;
use crate::order;
use crate::json;
use crate::graph;
use crate::json::{Doc, Json};

verus! {

/// What reaches a symbol that changed.
pub struct Dependent {
    pub path: String,
    pub symbol: String,
    /// hops from the symbol that changed: 1 is a direct caller
    pub depth: usize,
}

/// What a dependent says.
pub struct DependentText {
    pub path: Seq<char>,
    pub symbol: Seq<char>,
    pub depth: nat,
}

impl View for Dependent {
    type V = DependentText;

    open spec fn view(&self) -> DependentText {
        DependentText { path: self.path@, symbol: self.symbol@, depth: self.depth as nat }
    }
}

/// What a list of dependents says.
pub open spec fn dependent_texts(v: Seq<Dependent>) -> Seq<DependentText> {
    Seq::new(v.len(), |i: int| v[i]@)
}

// ------------------------------------------------------------------ callers

/// The two ends of an edge of the index: (caller, callee).
pub open spec fn edge_ends(edge: Doc) -> Option<(Seq<char>, Seq<char>)> {
    match edge {
        Doc::List(pair) => if pair.len() >= 2 {
            match (json::as_text(pair[0]), json::as_text(pair[1])) {
                (Some(from), Some(to)) => Some((from, to)),
                _ => None,
            }
        } else {
            None
        },
        _ => None,
    }
}

/// The callers of a node.
pub open spec fn callers(back: Seq<(Seq<char>, Seq<Seq<char>>)>, node: Seq<char>) -> Seq<Seq<char>> {
    match table::value(back, node) {
        Some(v) => v,
        None => Seq::empty(),
    }
}

/// The callers that the first `n` edges give each node: in order, each once.
pub open spec fn callers_upto(edges: Seq<Doc>, n: nat) -> Seq<(Seq<char>, Seq<Seq<char>>)>
    decreases n,
{
    if n == 0 {
        Seq::empty()
    } else {
        let back = callers_upto(edges, (n - 1) as nat);
        match edge_ends(edges[n - 1]) {
            Some((from, to)) => table::put(back, to, order::with_text(callers(back, to), from)),
            None => back,
        }
    }
}

/// The edges of an index turned round: each node, with its callers.
pub open spec fn backwards(index: Doc) -> Seq<(Seq<char>, Seq<Seq<char>>)> {
    match json::member_items(index, "edges"@) {
        Some(edges) => callers_upto(edges, edges.len()),
        None => Seq::empty(),
    }
}

/// Are the callers of every node in order?
pub open spec fn callers_ordered(v: Seq<(String, Vec<String>)>) -> bool {
    &&& table::ordered(table::stored_keys(v))
    &&& forall|i: int| 0 <= i < v.len() ==> table::ordered(text::texts((#[trigger] v[i]).1@))
}

/// The two ends of an edge of the index.
fn ends_of(edge: &Json) -> (r: Option<(String, String)>)
    ensures
        text::opt_pair(r) == edge_ends(edge@),
{
    match edge.as_array() {
        None => None,
        Some(pair) => {
            assert(json::docs(pair@).len() == pair@.len());
            if pair.len() < 2 {
                return None;
            }
            assert(json::docs(pair@)[0] == pair@[0]@);
            assert(json::docs(pair@)[1] == pair@[1]@);
            match (pair[0].as_str(), pair[1].as_str()) {
                (Some(from), Some(to)) => Some((from.to_string(), to.to_string())),
                _ => None,
            }
        },
    }
}

/// Adds a caller of a node.
pub fn add_caller(back: &mut Vec<(String, Vec<String>)>, to: String, from: String)
    requires
        callers_ordered(old(back)@),
    ensures
        graph::index_texts(final(back)@) == table::put(
            graph::index_texts(old(back)@),
            to@,
            order::with_text(callers(graph::index_texts(old(back)@), to@), from@),
        ),
        callers_ordered(final(back)@),
{
    let ghost all = graph::index_texts(back@);
    assert(table::stored_keys(back@) =~= table::keys(all));
    let p = table::find_seat(back, to.as_str());
    assert(p < back.len() ==> table::keys(all)[p as int] == back@[p as int].0@);
    let here = p < back.len() && text::same(back[p].0.as_str(), to.as_str());
    let mut list = if here {
        text::copy_texts(&back[p].1)
    } else {
        Vec::new()
    };
    proof {
        if !here {
            assert(text::texts(list@) =~= Seq::<Seq<char>>::empty());
        } else {
            assert(all[p as int] == (back@[p as int].0@, text::texts(back@[p as int].1@)));
        }
        assert(text::texts(list@) == callers(all, to@));
    }
    let _ = order::add_text(&mut list, from);
    let ghost before = back@;
    let ghost key = to@;
    let ghost said = text::texts(list@);
    proof {
        table::lemma_put(all, key, said);
    }
    table::set(back, to, list);
    assert(graph::index_texts(back@) =~= table::put(all, key, said));
    assert forall|i: int| 0 <= i < back@.len() implies table::ordered(
        text::texts((#[trigger] back@[i]).1@),
    ) by {
        if here {
            if i != p {
                assert(back@[i] == before[i]);
            }
        } else if i < p {
            assert(back@[i] == before[i]);
        } else if i > p {
            assert(back@[i] == before[i - 1]);
        }
    }
}

/// The edges of an index turned round: each node, with its callers.
pub fn callers_of(index: &Json) -> (r: Vec<(String, Vec<String>)>)
    ensures
        graph::index_texts(r@) == backwards(index@),
        callers_ordered(r@),
{
    let mut back: Vec<(String, Vec<String>)> = Vec::new();
    assert(graph::index_texts(back@) =~= Seq::<(Seq<char>, Seq<Seq<char>>)>::empty());
    let edges = match index.get("edges") {
        Some(x) => x.as_array(),
        None => None,
    };
    match edges {
        None => back,
        Some(edges) => {
            let ghost all = json::docs(edges@);
            let mut k: usize = 0;
            while k < edges.len()
                invariant
                    k <= edges.len(),
                    all == json::docs(edges@),
                    callers_ordered(back@),
                    graph::index_texts(back@) == callers_upto(all, k as nat),
                decreases edges.len() - k,
            {
                assert(all[k as int] == edges@[k as int]@);
                match ends_of(&edges[k]) {
                    Some((from, to)) => {
                        add_caller(&mut back, to, from);
                    },
                    None => {},
                }
                k += 1;
            }
            back
        },
    }
}

// ------------------------------------------------------------------ the walk

/// The names on a walk.
pub open spec fn walked(q: Seq<(Seq<char>, nat)>) -> Seq<Seq<char>> {
    Seq::new(q.len(), |i: int| q[i].0)
}

/// A walk with the callers of a node added that are not on it yet, from the
/// `k`th on, at distance `at`, as long as there is room for more.
pub open spec fn visit(
    q: Seq<(Seq<char>, nat)>,
    list: Seq<Seq<char>>,
    at: nat,
    room: nat,
    k: nat,
) -> Seq<(Seq<char>, nat)>
    decreases list.len() - k,
{
    if k >= list.len() || q.len() >= room {
        q
    } else if text::listed(walked(q), list[k as int]) {
        visit(q, list, at, room, k + 1)
    } else {
        visit(q.push((list[k as int], at)), list, at, room, k + 1)
    }
}

/// A walk continued breadth first from its `h`th node on, out to `depth`
/// hops, until it has `room` nodes.
pub open spec fn walk(
    back: Seq<(Seq<char>, Seq<Seq<char>>)>,
    q: Seq<(Seq<char>, nat)>,
    depth: nat,
    room: nat,
    h: nat,
) -> Seq<(Seq<char>, nat)>
    decreases
            (if q.len() < room {
                room as int
            } else {
                q.len() as int
            }) - h,
{
    if h >= q.len() {
        q
    } else if q[h as int].1 >= depth || q.len() >= room {
        walk(back, q, depth, room, h + 1)
    } else {
        proof {
            lemma_visit(q, callers(back, q[h as int].0), q[h as int].1 + 1, room, 0);
        }
        walk(
            back,
            visit(q, callers(back, q[h as int].0), q[h as int].1 + 1, room, 0),
            depth,
            room,
            h + 1,
        )
    }
}

/// The start of a walk.
pub open spec fn roots_walk(roots: Seq<Seq<char>>) -> Seq<(Seq<char>, nat)> {
    Seq::new(roots.len(), |i: int| (roots[i], 0nat))
}

/// The whole walk from the roots, the roots included.
pub open spec fn whole_walk(
    back: Seq<(Seq<char>, Seq<Seq<char>>)>,
    roots: Seq<Seq<char>>,
    depth: nat,
    limit: nat,
) -> Seq<(Seq<char>, nat)> {
    walk(back, roots_walk(roots), depth, roots.len() + limit, 0)
}

/// The path and the symbol of a node.
pub open spec fn halves(id: Seq<char>) -> (Seq<char>, Seq<char>) {
    match text::find_from(id, "::"@, 0) {
        Some(at) => (id.take(at), id.skip(at + 2)),
        None => (id, text::no_text()),
    }
}

/// The dependent that a node on a walk stands for.
pub open spec fn dependent(x: (Seq<char>, nat)) -> DependentText {
    DependentText { path: halves(x.0).0, symbol: halves(x.0).1, depth: x.1 }
}

/// Everything that reaches the roots, out to `depth` hops, `limit` at most.
pub open spec fn dependents(index: Doc, roots: Seq<Seq<char>>, depth: nat, limit: nat) -> Seq<
    DependentText,
> {
    let q = whole_walk(backwards(index), roots, depth, limit);
    Seq::new((q.len() - roots.len()) as nat, |i: int| dependent(q[roots.len() + i]))
}

/// Visiting only adds to a walk: names that are not on it, at the distance
/// given, while there is room.
pub proof fn lemma_visit(
    q: Seq<(Seq<char>, nat)>,
    list: Seq<Seq<char>>,
    at: nat,
    room: nat,
    k: nat,
)
    ensures
        q.len() <= visit(q, list, at, room, k).len(),
        visit(q, list, at, room, k).take(q.len() as int) == q,
        visit(q, list, at, room, k).len() <= room || visit(q, list, at, room, k) == q,
        forall|j: int|
            q.len() <= j < visit(q, list, at, room, k).len() ==> (#[trigger] visit(
                q,
                list,
                at,
                room,
                k,
            )[j]).1 == at && text::listed(list, visit(q, list, at, room, k)[j].0) && !text::listed(
                walked(visit(q, list, at, room, k).take(j)),
                visit(q, list, at, room, k)[j].0,
            ),
        visit(q, list, at, room, k).len() < room ==> forall|c: int|
            k <= c < list.len() ==> text::listed(
                walked(visit(q, list, at, room, k)),
                #[trigger] list[c],
            ),
    decreases list.len() - k,
{
    let r = visit(q, list, at, room, k);
    if k >= list.len() || q.len() >= room {
        assert(r.take(q.len() as int) =~= q);
    } else if text::listed(walked(q), list[k as int]) {
        lemma_visit(q, list, at, room, k + 1);
        lemma_walked_grows(q, r, list[k as int]);
    } else {
        let next = q.push((list[k as int], at));
        lemma_visit(next, list, at, room, k + 1);
        assert(r.take(q.len() as int) =~= r.take(next.len() as int).take(q.len() as int));
        assert(next.take(q.len() as int) =~= q);
        assert(r[q.len() as int] == r.take(next.len() as int)[q.len() as int]);
        assert(r.len() <= room || r == next);
        assert(walked(next)[q.len() as int] == list[k as int]);
        lemma_walked_grows(next, r, list[k as int]);
    }
}

/// What is on a walk stays on it.
proof fn lemma_walked_grows(a: Seq<(Seq<char>, nat)>, b: Seq<(Seq<char>, nat)>, x: Seq<char>)
    requires
        a.len() <= b.len(),
        b.take(a.len() as int) == a,
        text::listed(walked(a), x),
    ensures
        text::listed(walked(b), x),
{
    let i = choose|i: int| 0 <= i < walked(a).len() && #[trigger] walked(a)[i] == x;
    assert(b.take(a.len() as int)[i] == b[i]);
    assert(walked(b)[i] == x);
}

/// The roots are no hop away, everything else at least one, and at most as
/// many as asked for. Nearer nodes come first, and nothing is further than one
/// hop behind the `h`th node, which is visited next.
pub open spec fn distances_fit(q: Seq<(Seq<char>, nat)>, roots: nat, depth: nat, h: nat) -> bool {
    &&& forall|j: int| 0 <= j < roots ==> (#[trigger] q[j]).1 == 0
    &&& forall|j: int| roots <= j < q.len() ==> 1 <= (#[trigger] q[j]).1 <= depth
    &&& forall|i: int, j: int|
        0 <= i <= j < q.len() ==> (#[trigger] q[i]).1 <= (#[trigger] q[j]).1
    &&& forall|j: int| h < q.len() && 0 <= j < q.len() ==> (#[trigger] q[j]).1 <= q[h as int].1 + 1
}

/// No node comes twice.
pub open spec fn nodes_once(q: Seq<(Seq<char>, nat)>, roots: nat) -> bool {
    forall|j: int|
        roots <= j < q.len() ==> !text::listed(walked(q.take(j)), (#[trigger] q[j]).0)
}

/// Does the `j`th node call one that is a hop nearer?
pub open spec fn calls_nearer(
    back: Seq<(Seq<char>, Seq<Seq<char>>)>,
    q: Seq<(Seq<char>, nat)>,
    j: int,
) -> bool {
    exists|i: int|
        0 <= i < j && q[j].1 == (#[trigger] q[i]).1 + 1 && text::listed(
            callers(back, q[i].0),
            q[j].0,
        )
}

/// Are the callers of the `i`th node on the walk, at most a hop further?
pub open spec fn callers_near(
    back: Seq<(Seq<char>, Seq<Seq<char>>)>,
    q: Seq<(Seq<char>, nat)>,
    i: int,
) -> bool {
    forall|c: int|
        0 <= c < callers(back, q[i].0).len() ==> near(
            q,
            #[trigger] callers(back, q[i].0)[c],
            q[i].1 + 1,
        )
}

/// What holds of a walk whose first `h` nodes have been visited: every node
/// calls one that is a hop nearer, and the callers of every node visited are
/// there.
pub open spec fn walk_fits(
    back: Seq<(Seq<char>, Seq<Seq<char>>)>,
    q: Seq<(Seq<char>, nat)>,
    roots: nat,
    depth: nat,
    room: nat,
    h: nat,
) -> bool {
    &&& roots <= q.len() <= room
    &&& distances_fit(q, roots, depth, h)
    &&& nodes_once(q, roots)
    &&& forall|j: int| roots <= j < q.len() ==> #[trigger] calls_nearer(back, q, j)
    &&& q.len() < room ==> forall|i: int|
        0 <= i < h && i < q.len() && q[i].1 < depth ==> #[trigger] callers_near(back, q, i)
}

/// Is the name on the walk, at most so far away?
pub open spec fn near(q: Seq<(Seq<char>, nat)>, name: Seq<char>, at: nat) -> bool {
    exists|j: int| 0 <= j < q.len() && (#[trigger] q[j]).0 == name && q[j].1 <= at
}

/// A node that calls a nearer one still does on a longer walk.
proof fn lemma_calls_nearer(
    back: Seq<(Seq<char>, Seq<Seq<char>>)>,
    q: Seq<(Seq<char>, nat)>,
    r: Seq<(Seq<char>, nat)>,
    j: int,
)
    requires
        0 <= j < q.len() <= r.len(),
        forall|i: int| 0 <= i < q.len() ==> #[trigger] r[i] == q[i],
        calls_nearer(back, q, j),
    ensures
        calls_nearer(back, r, j),
{
    let i = choose|i: int|
        0 <= i < j && q[j].1 == (#[trigger] q[i]).1 + 1 && text::listed(
            callers(back, q[i].0),
            q[j].0,
        );
    assert(r[i] == q[i]);
    assert(r[j] == q[j]);
}

/// Callers that are near on a walk are near on a longer one.
proof fn lemma_callers_near(
    back: Seq<(Seq<char>, Seq<Seq<char>>)>,
    q: Seq<(Seq<char>, nat)>,
    r: Seq<(Seq<char>, nat)>,
    i: int,
)
    requires
        0 <= i < q.len() <= r.len(),
        forall|k: int| 0 <= k < q.len() ==> #[trigger] r[k] == q[k],
        callers_near(back, q, i),
    ensures
        callers_near(back, r, i),
{
    assert(r[i] == q[i]);
    assert forall|c: int| 0 <= c < callers(back, r[i].0).len() implies near(
        r,
        #[trigger] callers(back, r[i].0)[c],
        r[i].1 + 1,
    ) by {
        let name = callers(back, q[i].0)[c];
        assert(near(q, name, q[i].1 + 1));
        let j = choose|j: int|
            0 <= j < q.len() && (#[trigger] q[j]).0 == name && q[j].1 <= q[i].1 + 1;
        assert(r[j] == q[j]);
    }
}

/// After a visit the callers of the node visited are near.
proof fn lemma_visited(
    back: Seq<(Seq<char>, Seq<Seq<char>>)>,
    r: Seq<(Seq<char>, nat)>,
    h: int,
)
    requires
        0 <= h < r.len(),
        forall|j: int| 0 <= j < r.len() ==> (#[trigger] r[j]).1 <= r[h].1 + 1,
        forall|c: int|
            0 <= c < callers(back, r[h].0).len() ==> text::listed(
                walked(r),
                #[trigger] callers(back, r[h].0)[c],
            ),
    ensures
        callers_near(back, r, h),
{
    assert forall|c: int| 0 <= c < callers(back, r[h].0).len() implies near(
        r,
        #[trigger] callers(back, r[h].0)[c],
        r[h].1 + 1,
    ) by {
        let name = callers(back, r[h].0)[c];
        let j = choose|j: int| 0 <= j < walked(r).len() && #[trigger] walked(r)[j] == name;
        assert(r[j].0 == name);
    }
}

/// Visiting the next node keeps what holds of a walk.
proof fn lemma_walk_step(
    back: Seq<(Seq<char>, Seq<Seq<char>>)>,
    q: Seq<(Seq<char>, nat)>,
    roots: nat,
    depth: nat,
    room: nat,
    h: nat,
)
    requires
        walk_fits(back, q, roots, depth, room, h),
        h < q.len(),
        q[h as int].1 < depth,
        q.len() < room,
    ensures
        walk_fits(
            back,
            visit(q, callers(back, q[h as int].0), q[h as int].1 + 1, room, 0),
            roots,
            depth,
            room,
            h + 1,
        ),
{
    let list = callers(back, q[h as int].0);
    let at = q[h as int].1 + 1;
    let r = visit(q, list, at, room, 0);
    lemma_visit(q, list, at, room, 0);
    assert forall|j: int| 0 <= j < q.len() implies #[trigger] r[j] == q[j] by {
        assert(r.take(q.len() as int)[j] == r[j]);
    }
    assert(distances_fit(r, roots, depth, h + 1)) by {
        assert forall|j: int| 0 <= j < r.len() implies (#[trigger] r[j]).1 <= at by {
            if j < q.len() {
                assert(r[j] == q[j]);
            }
        }
        assert forall|i: int, j: int| 0 <= i <= j < r.len() implies (#[trigger] r[i]).1 <= (
        #[trigger] r[j]).1 by {
            if j < q.len() {
                assert(r[i] == q[i] && r[j] == q[j]);
            }
        }
        assert(r[h as int] == q[h as int]);
    }
    assert(nodes_once(r, roots)) by {
        assert forall|j: int| roots <= j < r.len() implies !text::listed(
            walked(r.take(j)),
            (#[trigger] r[j]).0,
        ) by {
            if j < q.len() {
                assert(r.take(j) =~= q.take(j));
                assert(r[j] == q[j]);
            }
        }
    }
    assert forall|j: int| roots <= j < r.len() implies #[trigger] calls_nearer(back, r, j) by {
        if j < q.len() {
            assert(calls_nearer(back, q, j));
            lemma_calls_nearer(back, q, r, j);
        } else {
            assert(r[h as int] == q[h as int]);
        }
    }
    if r.len() < room {
        assert forall|i: int| 0 <= i < h + 1 && i < r.len() && r[i].1 < depth implies
            #[trigger] callers_near(back, r, i) by {
            assert(r[i] == q[i]);
            if i < h {
                assert(callers_near(back, q, i));
                lemma_callers_near(back, q, r, i);
            } else {
                lemma_visited(back, r, i);
            }
        }
    }
}

/// What holds of a walk holds of it to its end.
proof fn lemma_walk(
    back: Seq<(Seq<char>, Seq<Seq<char>>)>,
    q: Seq<(Seq<char>, nat)>,
    roots: nat,
    depth: nat,
    room: nat,
    h: nat,
)
    requires
        walk_fits(back, q, roots, depth, room, h),
        h <= q.len(),
    ensures
        walk_fits(
            back,
            walk(back, q, depth, room, h),
            roots,
            depth,
            room,
            walk(back, q, depth, room, h).len(),
        ),
        q.len() <= walk(back, q, depth, room, h).len(),
        walk(back, q, depth, room, h).take(q.len() as int) == q,
    decreases
            (if q.len() < room {
                room as int
            } else {
                q.len() as int
            }) - h,
{
    let r = walk(back, q, depth, room, h);
    if h >= q.len() {
        assert(r.take(q.len() as int) =~= q);
    } else if q[h as int].1 >= depth || q.len() >= room {
        lemma_walk(back, q, roots, depth, room, h + 1);
    } else {
        let list = callers(back, q[h as int].0);
        let next = visit(q, list, q[h as int].1 + 1, room, 0);
        lemma_visit(q, list, q[h as int].1 + 1, room, 0);
        lemma_walk_step(back, q, roots, depth, room, h);
        lemma_walk(back, next, roots, depth, room, h + 1);
        assert(r.take(q.len() as int) =~= r.take(next.len() as int).take(q.len() as int));
    }
}

/// What holds of the whole walk.
proof fn lemma_whole_walk(
    back: Seq<(Seq<char>, Seq<Seq<char>>)>,
    roots: Seq<Seq<char>>,
    depth: nat,
    limit: nat,
)
    ensures
        walk_fits(
            back,
            whole_walk(back, roots, depth, limit),
            roots.len(),
            depth,
            roots.len() + limit,
            whole_walk(back, roots, depth, limit).len(),
        ),
        whole_walk(back, roots, depth, limit).take(roots.len() as int) == roots_walk(roots),
{
    lemma_walk(back, roots_walk(roots), roots.len(), depth, roots.len() + limit, 0);
}

/// The walk starts with the roots, no hop away, and finds `limit` nodes at
/// most beyond them.
pub proof fn law_walk_starts_at_the_roots(
    index: Doc,
    roots: Seq<Seq<char>>,
    depth: nat,
    limit: nat,
)
    ensures
        whole_walk(backwards(index), roots, depth, limit).take(roots.len() as int) == roots_walk(
            roots,
        ),
        roots.len() <= whole_walk(backwards(index), roots, depth, limit).len() <= roots.len()
            + limit,
{
    lemma_whole_walk(backwards(index), roots, depth, limit);
}

/// Each node is visited once: a dependent is no root, and none comes twice,
/// so a cycle does not go round forever.
pub proof fn law_each_node_once(
    index: Doc,
    roots: Seq<Seq<char>>,
    depth: nat,
    limit: nat,
    i: int,
    j: int,
)
    requires
        0 <= i < j < whole_walk(backwards(index), roots, depth, limit).len(),
        roots.len() <= j,
    ensures
        whole_walk(backwards(index), roots, depth, limit)[i].0 != whole_walk(
            backwards(index),
            roots,
            depth,
            limit,
        )[j].0,
{
    let q = whole_walk(backwards(index), roots, depth, limit);
    lemma_whole_walk(backwards(index), roots, depth, limit);
    assert(!text::listed(walked(q.take(j)), q[j].0));
    assert(walked(q.take(j))[i] == q[i].0);
}

/// The walk goes outward: nearer nodes come first, none is further than the
/// depth given, and all but the roots are at least one hop away.
pub proof fn law_nearest_first(
    index: Doc,
    roots: Seq<Seq<char>>,
    depth: nat,
    limit: nat,
    i: int,
    j: int,
)
    requires
        0 <= i <= j < whole_walk(backwards(index), roots, depth, limit).len(),
        roots.len() <= j,
    ensures
        whole_walk(backwards(index), roots, depth, limit)[i].1 <= whole_walk(
            backwards(index),
            roots,
            depth,
            limit,
        )[j].1,
        1 <= whole_walk(backwards(index), roots, depth, limit)[j].1 <= depth,
{
    let q = whole_walk(backwards(index), roots, depth, limit);
    lemma_whole_walk(backwards(index), roots, depth, limit);
    assert(q[i].1 <= q[j].1);
}

/// Nothing is invented: a dependent calls something on the walk that is one
/// hop nearer.
pub proof fn law_only_callers(
    index: Doc,
    roots: Seq<Seq<char>>,
    depth: nat,
    limit: nat,
    j: int,
)
    requires
        roots.len() <= j < whole_walk(backwards(index), roots, depth, limit).len(),
    ensures
        exists|i: int|
            0 <= i < j && whole_walk(backwards(index), roots, depth, limit)[j].1
                == (#[trigger] whole_walk(backwards(index), roots, depth, limit)[i]).1 + 1
                && text::listed(
                callers(
                    backwards(index),
                    whole_walk(backwards(index), roots, depth, limit)[i].0,
                ),
                whole_walk(backwards(index), roots, depth, limit)[j].0,
            ),
{
    let q = whole_walk(backwards(index), roots, depth, limit);
    lemma_whole_walk(backwards(index), roots, depth, limit);
    assert(calls_nearer(backwards(index), q, j));
}

/// Nothing is lost: as long as the limit is not reached, every caller of a
/// node on the walk that is nearer than the depth given is on the walk too,
/// at most one hop further.
pub proof fn law_all_callers(
    index: Doc,
    roots: Seq<Seq<char>>,
    depth: nat,
    limit: nat,
    i: int,
    c: int,
)
    requires
        whole_walk(backwards(index), roots, depth, limit).len() < roots.len() + limit,
        0 <= i < whole_walk(backwards(index), roots, depth, limit).len(),
        whole_walk(backwards(index), roots, depth, limit)[i].1 < depth,
        0 <= c < callers(
            backwards(index),
            whole_walk(backwards(index), roots, depth, limit)[i].0,
        ).len(),
    ensures
        near(
            whole_walk(backwards(index), roots, depth, limit),
            callers(
                backwards(index),
                whole_walk(backwards(index), roots, depth, limit)[i].0,
            )[c],
            whole_walk(backwards(index), roots, depth, limit)[i].1 + 1,
        ),
{
    let q = whole_walk(backwards(index), roots, depth, limit);
    lemma_whole_walk(backwards(index), roots, depth, limit);
    assert(callers_near(backwards(index), q, i));
}

/// What the callers table says of an edge: the index gives a caller for every
/// edge, and no caller without one.
pub proof fn law_callers_are_the_edges(edges: Seq<Doc>, n: nat, from: Seq<char>, to: Seq<char>)
    requires
        n <= edges.len(),
    ensures
        text::listed(callers(callers_upto(edges, n), to), from) <==> exists|k: int|
            0 <= k < n && edge_ends(#[trigger] edges[k]) == Some((from, to)),
        table::ordered(table::keys(callers_upto(edges, n))),
        table::ordered(callers(callers_upto(edges, n), to)),
    decreases n,
{
    if n > 0 {
        let back = callers_upto(edges, (n - 1) as nat);
        law_callers_are_the_edges(edges, (n - 1) as nat, from, to);
        match edge_ends(edges[n - 1]) {
            Some((a, b)) => {
                law_callers_are_the_edges(edges, (n - 1) as nat, a, b);
                order::lemma_with_text(callers(back, b), a);
                table::lemma_put(back, b, order::with_text(callers(back, b), a));
                if b == to {
                    assert(callers(callers_upto(edges, n), to) == order::with_text(
                        callers(back, b),
                        a,
                    ));
                } else {
                    assert(table::value(callers_upto(edges, n), to) == table::value(back, to));
                }
                if exists|k: int|
                    0 <= k < n && edge_ends(#[trigger] edges[k]) == Some((from, to)) {
                    let k = choose|k: int|
                        0 <= k < n && edge_ends(#[trigger] edges[k]) == Some((from, to));
                    assert(k < n - 1 || k == n - 1);
                }
                if a == from && b == to {
                    assert(edge_ends(edges[n - 1]) == Some((from, to)));
                }
            },
            None => {
                if exists|k: int|
                    0 <= k < n && edge_ends(#[trigger] edges[k]) == Some((from, to)) {
                    let k = choose|k: int|
                        0 <= k < n && edge_ends(#[trigger] edges[k]) == Some((from, to));
                    assert(k < n - 1);
                }
            },
        }
    }
}

/// The names and distances on a walk, as texts.
pub open spec fn walk_texts(v: Seq<(String, usize)>) -> Seq<(Seq<char>, nat)> {
    Seq::new(v.len(), |i: int| (v[i].0@, v[i].1 as nat))
}

/// The path and the symbol of a node.
pub fn split(id: &str) -> (r: (String, String))
    ensures
        (r.0@, r.1@) == halves(id@),
{
    let cs = text::chars(id);
    let mark = text::chars("::");
    proof {
        reveal_strlit("::");
        text::lemma_find(id@, "::"@, 0);
    }
    match text::find_at(&cs, &mark, 0) {
        Some(at) => {
            let a = text::piece(&cs, 0, at);
            let b = text::piece(&cs, at + 2, cs.len());
            assert(a@ =~= id@.take(at as int));
            assert(b@ =~= id@.skip(at + 2));
            (a, b)
        },
        None => (id.to_string(), String::new()),
    }
}

/// The callers of a node.
fn find_callers(back: &Vec<(String, Vec<String>)>, node: &str) -> (r: Vec<String>)
    requires
        callers_ordered(back@),
    ensures
        text::texts(r@) == callers(graph::index_texts(back@), node@),
{
    let ghost all = graph::index_texts(back@);
    assert(table::stored_keys(back@) =~= table::keys(all));
    match table::find(back, node) {
        Some(p) => {
            assert(all[p as int] == (back@[p as int].0@, text::texts(back@[p as int].1@)));
            text::copy_texts(&back[p].1)
        },
        None => {
            let none: Vec<String> = Vec::new();
            assert(text::texts(none@) =~= Seq::<Seq<char>>::empty());
            none
        },
    }
}

/// Does the set hold just the names on the walk?
pub open spec fn seen_fits(seen: Seq<Seq<char>>, q: Seq<(Seq<char>, nat)>) -> bool {
    &&& table::ordered(seen)
    &&& forall|x: Seq<char>| #[trigger] text::listed(seen, x) <==> text::listed(walked(q), x)
}

/// Adding a name to the walk and to the set keeps them together.
proof fn lemma_seen(seen: Seq<Seq<char>>, q: Seq<(Seq<char>, nat)>, x: (Seq<char>, nat))
    requires
        seen_fits(seen, q),
    ensures
        seen_fits(order::with_text(seen, x.0), q.push(x)),
{
    order::lemma_with_text(seen, x.0);
    let next = q.push(x);
    assert forall|y: Seq<char>| #[trigger] text::listed(order::with_text(seen, x.0), y) <==> text::listed(
        walked(next),
        y,
    ) by {
        if text::listed(walked(q), y) {
            let i = choose|i: int| 0 <= i < walked(q).len() && #[trigger] walked(q)[i] == y;
            assert(walked(next)[i] == y);
        }
        if y == x.0 {
            assert(walked(next)[q.len() as int] == y);
        }
        if text::listed(walked(next), y) && y != x.0 {
            let i = choose|i: int|
                0 <= i < walked(next).len() && #[trigger] walked(next)[i] == y;
            assert(walked(q)[i] == y);
        }
    }
}

/// Visits the callers of a node.
fn visit_all(
    q: &mut Vec<(String, usize)>,
    seen: &mut Vec<String>,
    list: &Vec<String>,
    at: usize,
    start: usize,
    limit: usize,
)
    requires
        seen_fits(text::texts(old(seen)@), walk_texts(old(q)@)),
        start <= old(q)@.len(),
    ensures
        walk_texts(final(q)@) == visit(
            walk_texts(old(q)@),
            text::texts(list@),
            at as nat,
            (start + limit) as nat,
            0,
        ),
        seen_fits(text::texts(final(seen)@), walk_texts(final(q)@)),
        start <= final(q)@.len(),
{
    let ghost whole = visit(
        walk_texts(q@),
        text::texts(list@),
        at as nat,
        (start + limit) as nat,
        0,
    );
    let mut k: usize = 0;
    while k < list.len() && q.len() - start < limit
        invariant
            k <= list.len(),
            start <= q@.len(),
            seen_fits(text::texts(seen@), walk_texts(q@)),
            whole == visit(
                walk_texts(q@),
                text::texts(list@),
                at as nat,
                (start + limit) as nat,
                k as nat,
            ),
        decreases list.len() - k,
    {
        assert(text::texts(list@)[k as int] == list@[k as int]@);
        let name = list[k].clone();
        let ghost before = walk_texts(q@);
        let ghost had = text::texts(seen@);
        if order::add_text(seen, name.clone()) {
            proof {
                lemma_seen(had, before, (name@, at as nat));
            }
            q.push((name, at));
            assert(walk_texts(q@) =~= before.push((list@[k as int]@, at as nat)));
        } else {
            proof {
                table::lemma_holds(had, name@);
                assert(text::texts(seen@) == had);
            }
        }
        k += 1;
    }
    assert(walk_texts(q@).len() == q@.len());
    assert(text::texts(list@).len() == list@.len());
}

/// Everything that reaches `roots`, out to `depth` hops, `limit` at most.
pub fn of(index: &Json, roots: &Vec<String>, depth: usize, limit: usize) -> (r: Vec<Dependent>)
    ensures
        dependent_texts(r@) == dependents(index@, text::texts(roots@), depth as nat, limit as nat),
{
    let back = callers_of(index);
    let ghost table = backwards(index@);
    let start = roots.len();
    let ghost room = (start + limit) as nat;
    let mut q: Vec<(String, usize)> = Vec::new();
    let mut seen: Vec<String> = Vec::new();
    let mut k: usize = 0;
    assert(walk_texts(q@) =~= roots_walk(text::texts(roots@)).take(0));
    assert(text::texts(seen@) =~= Seq::<Seq<char>>::empty());
    assert(walked(walk_texts(q@)) =~= Seq::<Seq<char>>::empty());
    while k < roots.len()
        invariant
            k <= roots.len(),
            q@.len() == k,
            walk_texts(q@) == roots_walk(text::texts(roots@)).take(k as int),
            seen_fits(text::texts(seen@), walk_texts(q@)),
        decreases roots.len() - k,
    {
        assert(text::texts(roots@)[k as int] == roots@[k as int]@);
        let ghost before = walk_texts(q@);
        proof {
            lemma_seen(text::texts(seen@), before, (roots@[k as int]@, 0nat));
        }
        let _ = order::add_text(&mut seen, roots[k].clone());
        q.push((roots[k].clone(), 0));
        assert(walk_texts(q@) =~= before.push((roots@[k as int]@, 0nat)));
        k += 1;
        assert(walk_texts(q@) =~= roots_walk(text::texts(roots@)).take(k as int));
    }
    assert(walk_texts(q@) =~= roots_walk(text::texts(roots@)));
    let ghost whole = whole_walk(table, text::texts(roots@), depth as nat, limit as nat);
    let mut h: usize = 0;
    while h < q.len()
        invariant
            h <= q.len(),
            start <= q.len(),
            start == roots@.len(),
            room == start + limit,
            callers_ordered(back@),
            graph::index_texts(back@) == table,
            seen_fits(text::texts(seen@), walk_texts(q@)),
            whole == walk(table, walk_texts(q@), depth as nat, room, h as nat),
        decreases (if q.len() < room { room as int } else { q.len() as int }) - h,
    {
        let ghost now = walk_texts(q@);
        assert(now[h as int] == (q@[h as int].0@, q@[h as int].1 as nat));
        let at = q[h].1;
        if at < depth && q.len() - start < limit {
            let list = find_callers(&back, q[h].0.as_str());
            proof {
                lemma_visit(now, text::texts(list@), (at + 1) as nat, room, 0);
            }
            visit_all(&mut q, &mut seen, &list, at + 1, start, limit);
            assert(walk_texts(q@).len() == q@.len());
        }
        h += 1;
    }
    assert(walk_texts(q@) == whole);
    let mut out: Vec<Dependent> = Vec::new();
    let ghost all = dependents(index@, text::texts(roots@), depth as nat, limit as nat);
    let mut k: usize = start;
    while k < q.len()
        invariant
            start <= k <= q.len(),
            start == text::texts(roots@).len(),
            walk_texts(q@) == whole,
            whole == whole_walk(backwards(index@), text::texts(roots@), depth as nat, limit as nat),
            all == dependents(index@, text::texts(roots@), depth as nat, limit as nat),
            dependent_texts(out@) =~= all.take(k - start),
        decreases q.len() - k,
    {
        assert(whole[k as int] == (q@[k as int].0@, q@[k as int].1 as nat));
        let (path, symbol) = split(q[k].0.as_str());
        let x = Dependent { path, symbol, depth: q[k].1 };
        let ghost before = dependent_texts(out@);
        let ghost said = x@;
        assert(said == all[k - start]);
        out.push(x);
        assert(dependent_texts(out@) =~= before.push(said));
        k += 1;
    }
    assert(walk_texts(q@).len() == q@.len());
    assert(dependent_texts(out@) =~= all);
    out
}

// -------------------------------------------------------------------- files

/// The nodes of the first `n` symbols.
pub open spec fn nodes_upto(path: Seq<char>, v: Seq<(Seq<char>, Doc)>, n: nat) -> Seq<Seq<char>>
    decreases n,
{
    if n == 0 {
        Seq::empty()
    } else {
        nodes_upto(path, v, (n - 1) as nat).push(graph::node_name(path, v[n - 1].0))
    }
}

/// The symbols that a file defines, as nodes.
pub open spec fn file_nodes(index: Doc, path: Seq<char>) -> Seq<Seq<char>> {
    match json::member(index, "files"@) {
        None => Seq::empty(),
        Some(files) => match json::member(files, path) {
            None => Seq::empty(),
            Some(file) => match json::member(file, "symbols"@) {
                Some(Doc::Object(v)) => nodes_upto(path, v, v.len()),
                _ => Seq::empty(),
            },
        },
    }
}

/// The symbols that a file defines, as nodes.
pub fn symbols_in(index: &Json, path: &str) -> (r: Vec<String>)
    ensures
        text::texts(r@) == file_nodes(index@, path@),
{
    let mut out: Vec<String> = Vec::new();
    assert(text::texts(out@) =~= Seq::<Seq<char>>::empty());
    let files = match index.get("files") {
        Some(x) => x,
        None => {
            return out;
        },
    };
    let file = match files.get(path) {
        Some(x) => x,
        None => {
            return out;
        },
    };
    let symbols = match file.get("symbols") {
        Some(x) => x,
        None => {
            return out;
        },
    };
    match symbols.as_object() {
        None => out,
        Some(v) => {
            let ghost all = json::members(v@);
            let mut k: usize = 0;
            while k < v.len()
                invariant
                    k <= v.len(),
                    all == json::members(v@),
                    text::texts(out@) == nodes_upto(path@, all, k as nat),
                decreases v.len() - k,
            {
                assert(all[k as int] == (v@[k as int].0@, v@[k as int].1@));
                let node = graph::node_id(path, v[k].0.as_str());
                proof {
                    text::lemma_texts_push(out@, node);
                }
                out.push(node);
                k += 1;
            }
            out
        },
    }
}

/// The files of the first `n` dependents, each where it first comes.
pub open spec fn files_upto(v: Seq<DependentText>, n: nat) -> Seq<Seq<char>>
    decreases n,
{
    if n == 0 {
        Seq::empty()
    } else {
        let rest = files_upto(v, (n - 1) as nat);
        if text::listed(rest, v[n - 1].path) {
            rest
        } else {
            rest.push(v[n - 1].path)
        }
    }
}

/// The distinct files a set of dependents lives in, nearest hop first.
pub fn files_of(dependents: &Vec<Dependent>) -> (r: Vec<String>)
    ensures
        text::texts(r@) == files_upto(dependent_texts(dependents@), dependents@.len()),
{
    let ghost all = dependent_texts(dependents@);
    let mut out: Vec<String> = Vec::new();
    let mut k: usize = 0;
    assert(text::texts(out@) =~= Seq::<Seq<char>>::empty());
    while k < dependents.len()
        invariant
            k <= dependents.len(),
            all == dependent_texts(dependents@),
            text::texts(out@) == files_upto(all, k as nat),
        decreases dependents.len() - k,
    {
        assert(all[k as int] == dependents@[k as int]@);
        if !text::is_listed(&out, dependents[k].path.as_str()) {
            let path = dependents[k].path.clone();
            proof {
                text::lemma_texts_push(out@, path);
            }
            out.push(path);
        }
        k += 1;
    }
    out
}

/// No file is listed twice, and every dependent's file is listed.
pub proof fn law_files_once(v: Seq<DependentText>, n: nat)
    requires
        n <= v.len(),
    ensures
        forall|i: int, j: int|
            0 <= i < j < files_upto(v, n).len() ==> #[trigger] files_upto(v, n)[i]
                != #[trigger] files_upto(v, n)[j],
        forall|k: int| 0 <= k < n ==> text::listed(files_upto(v, n), (#[trigger] v[k]).path),
        forall|i: int|
            0 <= i < files_upto(v, n).len() ==> exists|k: int|
                0 <= k < n && (#[trigger] v[k]).path == #[trigger] files_upto(v, n)[i],
    decreases n,
{
    if n > 0 {
        law_files_once(v, (n - 1) as nat);
        let rest = files_upto(v, (n - 1) as nat);
        let all = files_upto(v, n);
        assert forall|k: int| 0 <= k < n implies text::listed(all, (#[trigger] v[k]).path) by {
            if k < n - 1 {
                assert(text::listed(rest, v[k].path));
                let i = choose|i: int| 0 <= i < rest.len() && #[trigger] rest[i] == v[k].path;
                assert(all[i] == v[k].path);
            } else if !text::listed(rest, v[n - 1].path) {
                assert(all[rest.len() as int] == v[k].path);
            }
        }
        assert forall|i: int| 0 <= i < all.len() implies exists|k: int|
            0 <= k < n && (#[trigger] v[k]).path == #[trigger] all[i] by {
            if i < rest.len() {
                assert(rest[i] == all[i]);
                let k = choose|k: int| 0 <= k < n - 1 && (#[trigger] v[k]).path == rest[i];
                assert(v[k].path == all[i]);
            } else {
                assert(v[n - 1].path == all[i]);
            }
        }
        assert forall|i: int, j: int| 0 <= i < j < all.len() implies #[trigger] all[i]
            != #[trigger] all[j] by {
            if j < rest.len() {
                assert(rest[i] != rest[j]);
            } else {
                assert(all[i] == rest[i]);
            }
        }
    }
}

} // verus!

//! The protocol: one small record per live agent, in a directory they share.
//!
//! There is no daemon, no port and no broker. An agent announces itself by
//! writing a record under its own name and withdraws by deleting it; if it
//! dies without withdrawing, the record ages out on its own stamp. Reading the
//! room is reading the directory.
use vstd::prelude::*;
use crate::text;
use crate::order;
use crate::json;
use crate::engine;
use crate::config;
use crate::json::{Doc, Json};
use crate::order::Ranked;

verus! {

/// A record older than this is nobody: the agent exited, crashed, or moved on
/// without saying so. Every writer refreshes well inside it.
pub const STALE_AFTER_S: u64 = 180;

/// The directory of the records.
pub fn dir(root: &str) -> (r: String)
    ensures
        r@ == config::below(config::below(root@, config::DIR@), "peers"@),
{
    let home = config::dir_of(root);
    config::join_name(home.as_str(), "peers")
}

/// The name of an agent's record.
pub fn file_name(agent: &str) -> (r: String)
    ensures
        r@ == agent@ + ".json"@,
{
    text::cat2(agent, ".json")
}

/// The id of an agent.
pub open spec fn agent_text(session: Seq<char>, worker: Seq<char>) -> Seq<char> {
    engine::sha256_hex(session + "|"@ + worker).take(12)
}

/// A stable id for this agent: its session if the harness gave it one, plus
/// the subagent id when the call came from inside one, so a conversation
/// running three workers shows as three hands rather than one.
pub fn agent_id(session: &str, worker: &str) -> (r: String)
    ensures
        r@ == agent_text(session@, worker@),
        r@.len() == 12,
        forall|i: int| 0 <= i < r@.len() ==> engine::is_hex(#[trigger] r@[i]),
{
    let seed = text::cat3(session, "|", worker);
    let digest = engine::sha256(seed.as_str());
    let cs = text::chars(digest.as_str());
    let r = text::piece(&cs, 0, 12);
    assert(r@ =~= digest@.take(12));
    r
}

/// What an agent says of itself.
pub struct Announce<'a> {
    pub agent: &'a str,
    pub harness: &'a str,
    pub action: &'a str,
    pub path: &'a str,
    pub symbols: &'a Vec<String>,
    pub branch: &'a str,
}

/// The record of an agent. The stamp comes as written.
pub open spec fn record_doc(
    agent: Seq<char>,
    harness: Seq<char>,
    action: Seq<char>,
    path: Seq<char>,
    symbols: Seq<Seq<char>>,
    branch: Seq<char>,
    pid: nat,
    ts: Seq<char>,
) -> Doc {
    json::object_doc(
        seq![
            ("v"@, Doc::Number(text::decimal(1))),
            ("agent"@, Doc::Text(agent)),
            ("harness"@, Doc::Text(harness)),
            ("action"@, Doc::Text(action)),
            ("path"@, Doc::Text(path)),
            ("symbols"@, Doc::List(json::text_docs(symbols))),
            ("branch"@, Doc::Text(branch)),
            ("pid"@, Doc::Number(text::decimal(pid))),
            ("ts"@, Doc::Number(ts)),
        ],
    )
}

/// The record that says what this agent is doing.
pub fn record(what: &Announce, pid: u32, ts: &str) -> (r: Json)
    ensures
        r@ == record_doc(
            what.agent@,
            what.harness@,
            what.action@,
            what.path@,
            text::texts(what.symbols@),
            what.branch@,
            pid as nat,
            ts@,
        ),
{
    let v: Vec<(&'static str, Json)> = vec![
        ("v", json::count(1)),
        ("agent", json::text(what.agent)),
        ("harness", json::text(what.harness)),
        ("action", json::text(what.action)),
        ("path", json::text(what.path)),
        ("symbols", json::text_list(what.symbols)),
        ("branch", json::text(what.branch)),
        ("pid", json::count(pid as u64)),
        ("ts", Json::Number(ts.to_string())),
    ];
    assert(json::entry_docs(v@) =~= seq![
        ("v"@, Doc::Number(text::decimal(1))),
        ("agent"@, Doc::Text(what.agent@)),
        ("harness"@, Doc::Text(what.harness@)),
        ("action"@, Doc::Text(what.action@)),
        ("path"@, Doc::Text(what.path@)),
        ("symbols"@, Doc::List(json::text_docs(text::texts(what.symbols@)))),
        ("branch"@, Doc::Text(what.branch@)),
        ("pid"@, Doc::Number(text::decimal(pid as nat))),
        ("ts"@, Doc::Number(ts@)),
    ]);
    json::object(v)
}

/// Another agent. Its age is in whole seconds; the rank orders agents by
/// their exact age.
pub struct Peer {
    pub agent: String,
    pub harness: String,
    pub action: String,
    pub path: String,
    pub symbols: Vec<String>,
    pub branch: String,
    pub age: u64,
    pub rank: u64,
}

/// What another agent's record says.
pub struct PeerText {
    pub agent: Seq<char>,
    pub harness: Seq<char>,
    pub action: Seq<char>,
    pub path: Seq<char>,
    pub symbols: Seq<Seq<char>>,
    pub branch: Seq<char>,
    pub age: nat,
    pub rank: nat,
}

impl View for Peer {
    type V = PeerText;

    open spec fn view(&self) -> PeerText {
        PeerText {
            agent: self.agent@,
            harness: self.harness@,
            action: self.action@,
            path: self.path@,
            symbols: text::texts(self.symbols@),
            branch: self.branch@,
            age: self.age as nat,
            rank: self.rank as nat,
        }
    }
}

/// What the records of other agents say.
pub open spec fn peer_texts(v: Seq<Peer>) -> Seq<PeerText> {
    Seq::new(v.len(), |i: int| v[i]@)
}

impl Ranked for Peer {
    type Text = PeerText;

    open spec fn says(self) -> PeerText {
        self@
    }

    /// The younger record comes first.
    open spec fn below(a: PeerText, b: PeerText) -> bool {
        a.rank < b.rank
    }

    fn is_below(&self, other: &Self) -> (r: bool) {
        self.rank < other.rank
    }
}

/// The agent that a record tells of, where it is another than `me`. Unknown
/// fields are ignored, and what is missing or of another kind is empty.
pub open spec fn peer(record: Doc, me: Seq<char>, age: nat, rank: nat) -> Option<PeerText> {
    let agent = json::words_at(record, "agent"@);
    if agent.len() == 0 || agent == me {
        None
    } else {
        Some(
            PeerText {
                agent,
                harness: json::words_at(record, "harness"@),
                action: json::words_at(record, "action"@),
                path: json::words_at(record, "path"@),
                symbols: json::texts_at(record, "symbols"@),
                branch: json::words_at(record, "branch"@),
                age,
                rank,
            },
        )
    }
}

/// A record as a reader finds it: what it says, and how old it is. The age is
/// in whole seconds, `more` tells whether it is more than those, and the rank
/// orders records by their exact age.
pub struct Seen {
    pub record: Json,
    pub age: u64,
    pub more: bool,
    pub rank: u64,
}

/// What a record found says.
pub struct SeenText {
    pub record: Doc,
    pub age: nat,
    pub more: bool,
    pub rank: nat,
}

impl View for Seen {
    type V = SeenText;

    open spec fn view(&self) -> SeenText {
        SeenText {
            record: self.record@,
            age: self.age as nat,
            more: self.more,
            rank: self.rank as nat,
        }
    }
}

/// What the records found say.
pub open spec fn seen_texts(v: Seq<Seen>) -> Seq<SeenText> {
    Seq::new(v.len(), |i: int| v[i]@)
}

/// Is a record of this age nobody?
pub open spec fn stale(age: nat, more: bool) -> bool {
    age > STALE_AFTER_S || (age == STALE_AFTER_S && more)
}

/// Is a record of this age nobody? Then it may be swept.
pub fn is_stale(age: u64, more: bool) -> (r: bool)
    ensures
        r == stale(age as nat, more),
{
    age > STALE_AFTER_S || (age == STALE_AFTER_S && more)
}

/// The agent that a record found tells of, where it is live and another than
/// `me`.
pub open spec fn live_peer(found: SeenText, me: Seq<char>) -> Option<PeerText> {
    if stale(found.age, found.more) {
        None
    } else {
        peer(found.record, me, found.age, found.rank)
    }
}

/// The other agents that the first `n` records tell of.
pub open spec fn peers_upto(records: Seq<SeenText>, me: Seq<char>, n: nat) -> Seq<PeerText>
    decreases n,
{
    if n == 0 {
        Seq::empty()
    } else {
        let rest = peers_upto(records, me, (n - 1) as nat);
        match live_peer(records[n - 1], me) {
            Some(p) => rest.push(p),
            None => rest,
        }
    }
}

/// Everyone else who is live here, the youngest record first.
pub open spec fn room_of(records: Seq<SeenText>, me: Seq<char>) -> Seq<PeerText> {
    order::sorted::<Peer>(peers_upto(records, me, records.len()))
}

/// The agent that a record tells of, where it is another than `me`.
fn peer_of(record: &Json, me: &str, age: u64, rank: u64) -> (r: Option<Peer>)
    ensures
        match r {
            Some(p) => peer(record@, me@, age as nat, rank as nat) == Some(p@),
            None => peer(record@, me@, age as nat, rank as nat) is None,
        },
{
    let agent = record.text_at("agent");
    if text::chars(agent.as_str()).len() == 0 || text::same(agent.as_str(), me) {
        return None;
    }
    Some(
        Peer {
            agent,
            harness: record.text_at("harness"),
            action: record.text_at("action"),
            path: record.text_at("path"),
            symbols: record.texts_at("symbols"),
            branch: record.text_at("branch"),
            age,
            rank,
        },
    )
}

/// Everyone else who is live here, the youngest record first.
pub fn others(records: &Vec<Seen>, me: &str) -> (r: Vec<Peer>)
    ensures
        peer_texts(r@) == room_of(seen_texts(records@), me@),
{
    let ghost all = seen_texts(records@);
    let mut out: Vec<Peer> = Vec::new();
    let mut k: usize = 0;
    assert(peer_texts(out@) =~= Seq::<PeerText>::empty());
    while k < records.len()
        invariant
            k <= records.len(),
            all == seen_texts(records@),
            peer_texts(out@) == peers_upto(all, me@, k as nat),
        decreases records.len() - k,
    {
        let found = &records[k];
        assert(all[k as int] == found@);
        if !is_stale(found.age, found.more) {
            match peer_of(&found.record, me, found.age, found.rank) {
                Some(p) => {
                    let ghost before = peer_texts(out@);
                    let ghost said = p@;
                    out.push(p);
                    assert(peer_texts(out@) =~= before.push(said));
                },
                None => {},
            }
        }
        k += 1;
    }
    assert(order::all_say(out@) =~= peer_texts(out@));
    let r = order::sort(out);
    assert(order::all_say(r@) =~= peer_texts(r@));
    r
}

/// Whoever the first `n` records tell of stands in one of them, and the other
/// way round.
proof fn lemma_peers(records: Seq<SeenText>, me: Seq<char>, n: nat, p: PeerText)
    requires
        n <= records.len(),
    ensures
        peers_upto(records, me, n).contains(p) <==> exists|i: int|
            0 <= i < n && live_peer(#[trigger] records[i], me) == Some(p),
    decreases n,
{
    if n > 0 {
        lemma_peers(records, me, (n - 1) as nat, p);
        let rest = peers_upto(records, me, (n - 1) as nat);
        let all = peers_upto(records, me, n);
        if all.contains(p) {
            let k = choose|k: int| 0 <= k < all.len() && all[k] == p;
            if k < rest.len() {
                assert(rest[k] == p);
            } else {
                assert(live_peer(records[n - 1], me) == Some(p));
            }
        }
        if rest.contains(p) {
            let k = choose|k: int| 0 <= k < rest.len() && rest[k] == p;
            assert(all[k] == p);
        }
        if live_peer(records[n - 1], me) == Some(p) {
            assert(all[rest.len() as int] == p);
        }
    }
}

/// The room is exactly the live records of the others: none is lost, none is
/// made up.
pub proof fn law_the_room_is_the_live_records(records: Seq<SeenText>, me: Seq<char>, p: PeerText)
    ensures
        room_of(records, me).contains(p) <==> exists|i: int|
            0 <= i < records.len() && live_peer(#[trigger] records[i], me) == Some(p),
{
    let peers = peers_upto(records, me, records.len());
    lemma_peers(records, me, records.len(), p);
    order::lemma_sorted_contains::<Peer>(peers, p);
}

/// An agent never sees itself, and never one without a name.
pub proof fn law_nobody_sees_themselves(records: Seq<SeenText>, me: Seq<char>, p: PeerText)
    requires
        room_of(records, me).contains(p),
    ensures
        p.agent != me,
        p.agent.len() > 0,
{
    law_the_room_is_the_live_records(records, me, p);
}

/// A record older than the stale window is nobody.
pub proof fn law_nobody_is_stale(records: Seq<SeenText>, me: Seq<char>, p: PeerText)
    requires
        room_of(records, me).contains(p),
    ensures
        p.age <= STALE_AFTER_S,
{
    law_the_room_is_the_live_records(records, me, p);
}

/// Whoever said something last comes first.
pub proof fn law_youngest_first(records: Seq<SeenText>, me: Seq<char>, i: int, j: int)
    requires
        0 <= i < j < room_of(records, me).len(),
    ensures
        room_of(records, me)[i].rank <= room_of(records, me)[j].rank,
{
    let peers = peers_upto(records, me, records.len());
    order::lemma_sorted_order::<Peer>(peers, peers.len());
    assert(!Peer::below(room_of(records, me)[j], room_of(records, me)[i]));
}

/// A record reads back as it was written, by anyone but its writer.
pub proof fn law_a_record_reads_back(
    agent: Seq<char>,
    harness: Seq<char>,
    action: Seq<char>,
    path: Seq<char>,
    symbols: Seq<Seq<char>>,
    branch: Seq<char>,
    pid: nat,
    ts: Seq<char>,
    me: Seq<char>,
    found: SeenText,
)
    requires
        found.record == record_doc(agent, harness, action, path, symbols, branch, pid, ts),
        agent.len() > 0,
        agent != me,
        !stale(found.age, found.more),
    ensures
        live_peer(found, me) == Some(
            (PeerText {
                agent,
                harness,
                action,
                path,
                symbols,
                branch,
                age: found.age,
                rank: found.rank,
            }),
        ),
{
    let fields = seq![
        ("v"@, Doc::Number(text::decimal(1))),
        ("agent"@, Doc::Text(agent)),
        ("harness"@, Doc::Text(harness)),
        ("action"@, Doc::Text(action)),
        ("path"@, Doc::Text(path)),
        ("symbols"@, Doc::List(json::text_docs(symbols))),
        ("branch"@, Doc::Text(branch)),
        ("pid"@, Doc::Number(text::decimal(pid))),
        ("ts"@, Doc::Number(ts)),
    ];
    reveal_strlit("v");
    reveal_strlit("agent");
    reveal_strlit("harness");
    reveal_strlit("action");
    reveal_strlit("path");
    reveal_strlit("symbols");
    reveal_strlit("branch");
    reveal_strlit("pid");
    reveal_strlit("ts");
    assert("v"@.len() == 1 && "ts"@.len() == 2 && "pid"@.len() == 3 && "path"@.len() == 4);
    assert("agent"@.len() == 5 && "action"@.len() == 6 && "branch"@.len() == 6);
    assert("harness"@.len() == 7 && "symbols"@.len() == 7);
    assert("harness"@[0] != "symbols"@[0]);
    assert("action"@[0] != "branch"@[0]);
    json::lemma_object_member(fields, 1);
    json::lemma_object_member(fields, 2);
    json::lemma_object_member(fields, 3);
    json::lemma_object_member(fields, 4);
    json::lemma_object_member(fields, 5);
    json::lemma_object_member(fields, 6);
    json::lemma_text_docs(symbols, symbols.len());
    assert(symbols.take(symbols.len() as int) =~= symbols);
}

/// How long ago something was.
pub open spec fn ago_text(s: nat) -> Seq<char> {
    if s < 10 {
        "just now"@
    } else if s < 90 {
        text::decimal(s) + "s ago"@
    } else {
        text::decimal(s / 60) + "m ago"@
    }
}

/// How long ago something was, from whole seconds.
pub fn ago(s: u64) -> (r: String)
    ensures
        r@ == ago_text(s as nat),
{
    if s < 10 {
        "just now".to_string()
    } else if s < 90 {
        let n = text::number(s);
        text::cat2(n.as_str(), "s ago")
    } else {
        let n = text::number(s / 60);
        text::cat2(n.as_str(), "m ago")
    }
}

} // verus!

//! Where we are, and whether we should be here at all.
use vstd::prelude::*;
use crate::text;
use crate::langs;

verus! {

/// The directory Blast keeps its index and its peer records in.
pub const DIR: &'static str = ".blast";

/// A directory on the way up from where the agent was, and what it holds.
pub struct Ancestor {
    pub path: String,
    /// it holds a `.git`
    pub git: bool,
    /// it holds a `.blast`
    pub blast: bool,
}

/// What a directory on the way up says.
pub struct AncestorText {
    pub path: Seq<char>,
    pub git: bool,
    pub blast: bool,
}

impl View for Ancestor {
    type V = AncestorText;

    open spec fn view(&self) -> AncestorText {
        AncestorText { path: self.path@, git: self.git, blast: self.blast }
    }
}

/// What the directories on the way up say.
pub open spec fn ancestor_texts(v: Seq<Ancestor>) -> Seq<AncestorText> {
    Seq::new(v.len(), |i: int| v[i]@)
}

/// The first directory from the `k`th on that holds a `.git`.
pub open spec fn git_from(v: Seq<AncestorText>, k: nat) -> Option<Seq<char>>
    decreases v.len() - k,
{
    if k >= v.len() {
        None
    } else if v[k as int].git {
        Some(v[k as int].path)
    } else {
        git_from(v, k + 1)
    }
}

/// The first directory from the `k`th on that holds a `.blast`.
pub open spec fn blast_from(v: Seq<AncestorText>, k: nat) -> Option<Seq<char>>
    decreases v.len() - k,
{
    if k >= v.len() {
        None
    } else if v[k as int].blast {
        Some(v[k as int].path)
    } else {
        blast_from(v, k + 1)
    }
}

/// The repository root: the nearest ancestor holding a `.git`, else the
/// nearest holding a `.blast`, else the directory itself.
pub open spec fn root_of(from: Seq<char>, v: Seq<AncestorText>) -> Seq<char> {
    match git_from(v, 0) {
        Some(path) => path,
        None => match blast_from(v, 0) {
            Some(path) => path,
            None => from,
        },
    }
}

/// The repository root: the nearest ancestor holding a `.git`, else the
/// nearest holding a `.blast`, else the directory itself. Walking up matters
/// because a hook fires with whatever working directory the agent had. The
/// ancestors come nearest first, the directory itself among them.
pub fn repo_root(from: &str, ancestors: &Vec<Ancestor>) -> (r: String)
    ensures
        r@ == root_of(from@, ancestor_texts(ancestors@)),
{
    let ghost all = ancestor_texts(ancestors@);
    let mut k: usize = 0;
    while k < ancestors.len()
        invariant
            k <= ancestors.len(),
            all == ancestor_texts(ancestors@),
            git_from(all, 0) == git_from(all, k as nat),
        decreases ancestors.len() - k,
    {
        assert(all[k as int] == ancestors@[k as int]@);
        if ancestors[k].git {
            return ancestors[k].path.clone();
        }
        k += 1;
    }
    let mut k: usize = 0;
    while k < ancestors.len()
        invariant
            k <= ancestors.len(),
            all == ancestor_texts(ancestors@),
            git_from(all, 0) is None,
            blast_from(all, 0) == blast_from(all, k as nat),
        decreases ancestors.len() - k,
    {
        assert(all[k as int] == ancestors@[k as int]@);
        if ancestors[k].blast {
            return ancestors[k].path.clone();
        }
        k += 1;
    }
    from.to_string()
}

/// Hosted coordinators: the directory that each keeps its `config.json` in,
/// and its name.
pub open spec fn coordinator_texts() -> Seq<(Seq<char>, Seq<char>)> {
    seq![(".collide"@, "Collide"@)]
}

/// Hosted coordinators: the directory that each keeps its `config.json` in,
/// and its name.
pub fn coordinators() -> (r: Vec<(&'static str, &'static str)>)
    ensures
        langs::str_pairs(r@) == coordinator_texts(),
{
    let v: Vec<(&'static str, &'static str)> = vec![(".collide", "Collide")];
    assert(langs::str_pairs(v@) =~= coordinator_texts());
    v
}

/// The name of the first coordinator from the `k`th on whose directory is
/// among those configured.
pub open spec fn configured_from(present: Seq<Seq<char>>, k: nat) -> Option<Seq<char>>
    decreases coordinator_texts().len() - k,
{
    if k >= coordinator_texts().len() {
        None
    } else if text::listed(present, coordinator_texts()[k as int].0) {
        Some(coordinator_texts()[k as int].1)
    } else {
        configured_from(present, k + 1)
    }
}

/// Is a hosted coordinator already running this repo?
///
/// Blast is the local half of a problem that also has a hosted answer. When
/// one is configured here it is a strict superset of what we do, so we stand
/// down rather than brief the agent twice and bill it for both. `present`
/// names the coordinators' directories that hold a `config.json`.
pub fn coordinator_present(present: &Vec<String>) -> (r: Option<String>)
    ensures
        text::opt_text(r) == configured_from(text::texts(present@), 0),
{
    let all = coordinators();
    let ghost table = coordinator_texts();
    let mut k: usize = 0;
    assert(langs::str_pairs(all@).len() == all@.len());
    while k < all.len()
        invariant
            k <= all.len() == table.len(),
            table == coordinator_texts(),
            langs::str_pairs(all@) == table,
            configured_from(text::texts(present@), 0) == configured_from(text::texts(present@), k as nat),
        decreases all.len() - k,
    {
        assert(table[k as int] == (all@[k as int].0@, all@[k as int].1@));
        if text::is_listed(present, all[k].0) {
            return Some(all[k].1.to_string());
        }
        k += 1;
    }
    None
}

/// `BLAST_ALONE=1` keeps Blast working even when a coordinator is configured:
/// useful when you want the local check and nothing else.
pub fn forced_alone(value: Option<&str>) -> (r: bool)
    ensures
        r == (value is Some && value->0@ == "1"@),
{
    match value {
        Some(v) => text::same(v, "1"),
        None => false,
    }
}

/// A name below a directory; the name itself where there is no directory.
pub open spec fn below(dir: Seq<char>, name: Seq<char>) -> Seq<char> {
    if dir.len() == 0 || dir[dir.len() - 1] == '/' {
        dir + name
    } else {
        dir + "/"@ + name
    }
}

/// A name below a directory; the name itself where there is no directory.
pub fn join_name(dir: &str, name: &str) -> (r: String)
    ensures
        r@ == below(dir@, name@),
{
    let cs = text::chars(dir);
    if cs.len() == 0 || cs[cs.len() - 1] == '/' {
        text::cat2(dir, name)
    } else {
        text::cat3(dir, "/", name)
    }
}

/// The directory Blast keeps its things in.
pub fn dir_of(root: &str) -> (r: String)
    ensures
        r@ == below(root@, DIR@),
{
    join_name(root, DIR)
}

} // verus!

//! Call sites that were left alone, followed through later edits.
//!
//! An op may leave the calls of a symbol as they are and only list them. What
//! a later op does to the file moves such a call, replaces it with the text
//! around it, or changes it at last. A call is known by where its arguments
//! start, and every edit tells where that is afterwards.
use vstd::prelude::*;
use crate::changes;
use crate::text;
use crate::changes::{Change, ChangeText};

verus! {

/// A call that was left alone: its file, the line it was on, and the character
/// that its arguments start at.
pub struct Site {
    pub path: String,
    pub line: u64,
    pub place: usize,
}

/// What a site says.
pub struct SiteText {
    pub path: Seq<char>,
    pub line: nat,
    pub place: nat,
}

impl View for Site {
    type V = SiteText;

    open spec fn view(&self) -> SiteText {
        SiteText { path: self.path@, line: self.line as nat, place: self.place as nat }
    }
}

/// What a list of sites says.
pub open spec fn site_texts(v: Seq<Site>) -> Seq<SiteText> {
    Seq::new(v.len(), |i: int| v[i]@)
}

/// The file and line of each site.
pub open spec fn spots_of(v: Seq<SiteText>) -> Seq<(Seq<char>, nat)> {
    Seq::new(v.len(), |i: int| (v[i].path, v[i].line))
}

/// One edit of one file: what the file held, the changes that were made, the
/// one that starts furthest on first, and the places of the calls they change.
pub struct Layer {
    pub path: String,
    pub content: String,
    pub changes: Vec<Change>,
    pub touched: Vec<usize>,
}

/// What an edit says.
pub struct LayerText {
    pub path: Seq<char>,
    pub content: Seq<char>,
    pub changes: Seq<ChangeText>,
    pub touched: Seq<nat>,
}

/// Places, as numbers without a bound.
pub open spec fn places(v: Seq<usize>) -> Seq<nat> {
    Seq::new(v.len(), |i: int| v[i] as nat)
}

impl View for Layer {
    type V = LayerText;

    open spec fn view(&self) -> LayerText {
        LayerText {
            path: self.path@,
            content: self.content@,
            changes: changes::change_texts(self.changes@),
            touched: places(self.touched@),
        }
    }
}

/// What a list of edits says.
pub open spec fn layer_texts(v: Seq<Layer>) -> Seq<LayerText> {
    Seq::new(v.len(), |i: int| v[i]@)
}

// --------------------------------------------------------------- following

/// A site after one edit. It is no longer left alone where the edit changes
/// the call, and gone where the edit replaces it.
pub open spec fn after_layer(l: LayerText, x: SiteText) -> Option<SiteText> {
    if l.path != x.path {
        Some(x)
    } else if l.touched.contains(x.place) || x.place > l.content.len() || !changes::apart(
        l.content,
        l.changes,
    ) {
        None
    } else {
        match changes::place_upto(l.content, l.changes, x.place, l.changes.len()) {
            Some(p) => Some(SiteText { place: p, ..x }),
            None => None,
        }
    }
}

/// A site after the first `n` edits.
pub open spec fn after_layers(v: Seq<LayerText>, x: SiteText, n: nat) -> Option<SiteText>
    decreases n,
{
    if n == 0 {
        Some(x)
    } else {
        match after_layers(v, x, (n - 1) as nat) {
            Some(y) => after_layer(v[n - 1], y),
            None => None,
        }
    }
}

/// Those of the first `n` sites that are still left alone after the edits.
pub open spec fn carried(sites: Seq<SiteText>, v: Seq<LayerText>, n: nat) -> Seq<SiteText>
    decreases n,
{
    if n == 0 {
        Seq::empty()
    } else {
        let rest = carried(sites, v, (n - 1) as nat);
        match after_layers(v, sites[n - 1], v.len()) {
            Some(x) => rest.push(x),
            None => rest,
        }
    }
}

/// Is the place among the others?
fn has_place(v: &Vec<usize>, p: usize) -> (r: bool)
    ensures
        r == places(v@).contains(p as nat),
{
    let ghost all = places(v@);
    let mut k: usize = 0;
    while k < v.len()
        invariant
            k <= v.len() == all.len(),
            all == places(v@),
            forall|i: int| 0 <= i < k ==> #[trigger] all[i] != p as nat,
        decreases v.len() - k,
    {
        assert(all[k as int] == v@[k as int] as nat);
        if v[k] == p {
            return true;
        }
        k += 1;
    }
    false
}

/// What an optional site says.
pub open spec fn opt_site(o: Option<Site>) -> Option<SiteText> {
    match o {
        Some(x) => Some(x@),
        None => None,
    }
}

/// A site after one edit.
pub fn follow(l: &Layer, x: Site) -> (r: Option<Site>)
    ensures
        opt_site(r) == after_layer(l@, x@),
{
    if !text::same(l.path.as_str(), x.path.as_str()) {
        return Some(x);
    }
    let cs = text::chars(l.content.as_str());
    if has_place(&l.touched, x.place) || x.place > cs.len() || !changes::lie_apart(
        &cs,
        &l.changes,
    ) {
        return None;
    }
    match changes::follow_place(l.content.as_str(), &l.changes, x.place) {
        Some(place) => Some(Site { path: x.path, line: x.line, place }),
        None => None,
    }
}

/// Once a site is changed or gone, later edits do not bring it back.
proof fn lemma_gone(v: Seq<LayerText>, x: SiteText, k: nat, n: nat)
    requires
        k <= n,
        after_layers(v, x, k) is None,
    ensures
        after_layers(v, x, n) is None,
    decreases n - k,
{
    if k < n {
        lemma_gone(v, x, k, (n - 1) as nat);
    }
}

/// A site after all the edits.
fn follow_all(v: &Vec<Layer>, x: &Site) -> (r: Option<Site>)
    ensures
        opt_site(r) == after_layers(layer_texts(v@), x@, v@.len()),
{
    let ghost all = layer_texts(v@);
    let mut at = Site { path: x.path.clone(), line: x.line, place: x.place };
    let mut k: usize = 0;
    while k < v.len()
        invariant
            k <= v.len() == all.len(),
            all == layer_texts(v@),
            after_layers(all, x@, k as nat) == Some(at@),
        decreases v.len() - k,
    {
        assert(all[k as int] == v@[k as int]@);
        match follow(&v[k], at) {
            Some(next) => {
                at = next;
            },
            None => {
                proof {
                    lemma_gone(all, x@, (k + 1) as nat, all.len());
                }
                return None;
            },
        }
        k += 1;
    }
    Some(at)
}

/// The sites that are still left alone after the edits.
pub fn carry(sites: &Vec<Site>, v: &Vec<Layer>) -> (r: Vec<Site>)
    ensures
        site_texts(r@) == carried(site_texts(sites@), layer_texts(v@), sites@.len()),
{
    let ghost all = site_texts(sites@);
    let ghost layers = layer_texts(v@);
    let mut out: Vec<Site> = Vec::new();
    let mut k: usize = 0;
    assert(site_texts(out@) =~= Seq::<SiteText>::empty());
    assert(layers.len() == v@.len());
    while k < sites.len()
        invariant
            k <= sites.len() == all.len(),
            all == site_texts(sites@),
            layers == layer_texts(v@),
            layers.len() == v@.len(),
            site_texts(out@) == carried(all, layers, k as nat),
        decreases sites.len() - k,
    {
        assert(all[k as int] == sites@[k as int]@);
        match follow_all(v, &sites[k]) {
            Some(x) => {
                let ghost before = site_texts(out@);
                let ghost said = x@;
                out.push(x);
                assert(site_texts(out@) =~= before.push(said));
            },
            None => {},
        }
        k += 1;
    }
    out
}

// -------------------------------------------------------------------- laws

/// Following a site through edits and then others is following it through all
/// of them.
proof fn lemma_after_both(a: Seq<LayerText>, b: Seq<LayerText>, x: SiteText, n: nat)
    requires
        n <= b.len(),
    ensures
        after_layers(a + b, x, a.len() + n) == match after_layers(a, x, a.len()) {
            Some(y) => after_layers(b, y, n),
            None => None,
        },
    decreases n,
{
    if n == 0 {
        lemma_after_first(a, b, x, a.len());
    } else {
        lemma_after_both(a, b, x, (n - 1) as nat);
        assert((a + b)[a.len() + n - 1] == b[n - 1]);
    }
}

/// Where a site is after the first edits does not depend on the rest.
proof fn lemma_after_first(a: Seq<LayerText>, b: Seq<LayerText>, x: SiteText, n: nat)
    requires
        n <= a.len(),
    ensures
        after_layers(a + b, x, n) == after_layers(a, x, n),
    decreases n,
{
    if n > 0 {
        lemma_after_first(a, b, x, (n - 1) as nat);
        assert((a + b)[n - 1] == a[n - 1]);
    }
}

/// What stays of the start of a list does not depend on the rest.
proof fn lemma_carried_first(u: Seq<SiteText>, v: Seq<SiteText>, l: Seq<LayerText>, n: nat)
    requires
        n <= u.len(),
    ensures
        carried(u + v, l, n) == carried(u, l, n),
    decreases n,
{
    if n > 0 {
        lemma_carried_first(u, v, l, (n - 1) as nat);
        assert((u + v)[n - 1] == u[n - 1]);
    }
}

/// Following two lists is following each.
pub proof fn lemma_carried_both(u: Seq<SiteText>, v: Seq<SiteText>, l: Seq<LayerText>, n: nat)
    requires
        n <= v.len(),
    ensures
        carried(u + v, l, u.len() + n) == carried(u, l, u.len()) + carried(v, l, n),
    decreases n,
{
    if n == 0 {
        lemma_carried_first(u, v, l, u.len());
    } else {
        lemma_carried_both(u, v, l, (n - 1) as nat);
        assert((u + v)[u.len() + n - 1] == v[n - 1]);
    }
    assert(carried(u + v, l, u.len() + n) =~= carried(u, l, u.len()) + carried(v, l, n));
}

/// Following sites through edits and then others is following them through all
/// of them.
pub proof fn lemma_carried_twice(
    v: Seq<SiteText>,
    a: Seq<LayerText>,
    b: Seq<LayerText>,
    n: nat,
)
    requires
        n <= v.len(),
    ensures
        carried(carried(v, a, n), b, carried(v, a, n).len()) == carried(v, a + b, n),
    decreases n,
{
    if n > 0 {
        lemma_carried_twice(v, a, b, (n - 1) as nat);
        lemma_after_both(a, b, v[n - 1], b.len());
        let rest = carried(v, a, (n - 1) as nat);
        if let Some(x) = after_layers(a, v[n - 1], a.len()) {
            assert(rest.push(x) =~= rest + seq![x]);
            lemma_carried_first(rest, seq![x], b, rest.len());
            assert((rest + seq![x])[rest.len() as int] == x);
        }
    }
}

/// A site in a file that no edit is to stays where it is.
proof fn lemma_after_elsewhere(v: Seq<LayerText>, x: SiteText, n: nat)
    requires
        n <= v.len(),
        forall|j: int| 0 <= j < v.len() ==> (#[trigger] v[j]).path != x.path,
    ensures
        after_layers(v, x, n) == Some(x),
    decreases n,
{
    if n > 0 {
        lemma_after_elsewhere(v, x, (n - 1) as nat);
    }
}

/// Sites in files that no edit is to stay where they are.
pub proof fn lemma_carried_elsewhere(sites: Seq<SiteText>, v: Seq<LayerText>, n: nat)
    requires
        n <= sites.len(),
        forall|i: int, j: int|
            0 <= i < sites.len() && 0 <= j < v.len() ==> (#[trigger] v[j]).path != (
            #[trigger] sites[i]).path,
    ensures
        carried(sites, v, n) == sites.take(n as int),
    decreases n,
{
    if n > 0 {
        lemma_carried_elsewhere(sites, v, (n - 1) as nat);
        lemma_after_elsewhere(v, sites[n - 1], v.len());
    }
    assert(carried(sites, v, n) =~= sites.take(n as int));
}

/// Where nothing is edited, sites stay as they are.
pub proof fn lemma_carried_none(v: Seq<SiteText>, n: nat)
    requires
        n <= v.len(),
    ensures
        carried(v, Seq::empty(), n) == v.take(n as int),
    decreases n,
{
    if n > 0 {
        lemma_carried_none(v, (n - 1) as nat);
    }
    assert(carried(v, Seq::empty(), n) =~= v.take(n as int));
}

} // verus!

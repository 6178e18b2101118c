//! JSON values: documents as the program reads and writes them.
//!
//! The members of an object stand in the order of their names, each once, as
//! the parser and the printer keep them.
use vstd::prelude::*;
use crate::text;
use crate::table;

verus! {

/// A JSON value. The members of an object are in the order of their keys.
#[derive(Debug, PartialEq)]
pub enum Json {
    Null,
    Bool(bool),
    /// a number, as it is written
    Number(String),
    Text(String),
    List(Vec<Json>),
    Object(Vec<(String, Json)>),
}

/// What a JSON value says.
pub enum Doc {
    Null,
    Bool(bool),
    Number(Seq<char>),
    Text(Seq<char>),
    List(Seq<Doc>),
    Object(Seq<(Seq<char>, Doc)>),
}

/// What a JSON value says.
pub open spec fn doc(j: Json) -> Doc
    decreases j,
{
    match j {
        Json::Null => Doc::Null,
        Json::Bool(b) => Doc::Bool(b),
        Json::Number(n) => Doc::Number(n@),
        Json::Text(s) => Doc::Text(s@),
        Json::List(v) => Doc::List(
            Seq::new(
                v@.len(),
                |i: int|
                    if 0 <= i < v@.len() {
                        doc(v@[i])
                    } else {
                        Doc::Null
                    },
            ),
        ),
        Json::Object(v) => Doc::Object(
            Seq::new(
                v@.len(),
                |i: int|
                    if 0 <= i < v@.len() {
                        (v@[i].0@, doc(v@[i].1))
                    } else {
                        (Seq::empty(), Doc::Null)
                    },
            ),
        ),
    }
}

impl View for Json {
    type V = Doc;

    open spec fn view(&self) -> Doc {
        doc(*self)
    }
}

/// What a list of values says.
pub open spec fn docs(v: Seq<Json>) -> Seq<Doc> {
    Seq::new(v.len(), |i: int| v[i]@)
}

/// What a list of members says.
pub open spec fn members(v: Seq<(String, Json)>) -> Seq<(Seq<char>, Doc)> {
    Seq::new(v.len(), |i: int| (v[i].0@, v[i].1@))
}

/// A list says what its items say.
pub proof fn lemma_list(v: Vec<Json>)
    ensures
        Json::List(v)@ == Doc::List(docs(v@)),
{
    let d = Json::List(v)@;
    assert(d->List_0 =~= docs(v@));
}

/// An object says what its members say.
pub proof fn lemma_object(v: Vec<(String, Json)>)
    ensures
        Json::Object(v)@ == Doc::Object(members(v@)),
{
    let d = Json::Object(v)@;
    assert(d->Object_0 =~= members(v@));
}

// ----------------------------------------------------------------- reading

/// The first member from the `k`th on that has the name.
pub open spec fn member_from(v: Seq<(Seq<char>, Doc)>, key: Seq<char>, k: nat) -> Option<Doc>
    decreases v.len() - k,
{
    if k >= v.len() {
        None
    } else if v[k as int].0 == key {
        Some(v[k as int].1)
    } else {
        member_from(v, key, k + 1)
    }
}

/// Where the first member from the `k`th on stands that has the name.
pub open spec fn place_from(v: Seq<(Seq<char>, Doc)>, key: Seq<char>, k: nat) -> Option<int>
    decreases v.len() - k,
{
    if k >= v.len() {
        None
    } else if v[k as int].0 == key {
        Some(k as int)
    } else {
        place_from(v, key, k + 1)
    }
}

/// The members with the one that has the name set to a value, in whatever
/// order they are; where none has it, it goes where its order puts it.
pub open spec fn placed(v: Seq<(Seq<char>, Doc)>, key: Seq<char>, x: Doc) -> Seq<(Seq<char>, Doc)> {
    match place_from(v, key, 0) {
        Some(i) => v.update(i, (key, x)),
        None => table::put(v, key, x),
    }
}

/// The member of an object that has the name.
pub open spec fn member(d: Doc, key: Seq<char>) -> Option<Doc> {
    match d {
        Doc::Object(v) => member_from(v, key, 0),
        _ => None,
    }
}

/// The text that a value is.
pub open spec fn as_text(d: Doc) -> Option<Seq<char>> {
    match d {
        Doc::Text(s) => Some(s),
        _ => None,
    }
}

/// The truth value that a value is.
pub open spec fn as_truth(d: Doc) -> Option<bool> {
    match d {
        Doc::Bool(b) => Some(b),
        _ => None,
    }
}

/// The list that a value is.
pub open spec fn as_items(d: Doc) -> Option<Seq<Doc>> {
    match d {
        Doc::List(v) => Some(v),
        _ => None,
    }
}

/// The list that a member is.
pub open spec fn member_items(d: Doc, key: Seq<char>) -> Option<Seq<Doc>> {
    match member(d, key) {
        Some(x) => as_items(x),
        None => None,
    }
}

/// The text that a member is.
pub open spec fn member_words(d: Doc, key: Seq<char>) -> Option<Seq<char>> {
    match member(d, key) {
        Some(x) => as_text(x),
        None => None,
    }
}

/// The text that a member is; none where it is no text.
pub open spec fn words_at(d: Doc, key: Seq<char>) -> Seq<char> {
    match member_words(d, key) {
        Some(s) => s,
        None => text::no_text(),
    }
}

/// The texts among the first `n` items.
pub open spec fn texts_upto(v: Seq<Doc>, n: nat) -> Seq<Seq<char>>
    decreases n,
{
    if n == 0 {
        Seq::empty()
    } else {
        let rest = texts_upto(v, (n - 1) as nat);
        match as_text(v[n - 1]) {
            Some(s) => rest.push(s),
            None => rest,
        }
    }
}

/// The texts in the list that a member is.
pub open spec fn texts_at(d: Doc, key: Seq<char>) -> Seq<Seq<char>> {
    match member_items(d, key) {
        Some(v) => texts_upto(v, v.len()),
        None => Seq::empty(),
    }
}

/// What an optional value says.
pub open spec fn opt_doc(o: Option<&Json>) -> Option<Doc> {
    match o {
        Some(j) => Some(j@),
        None => None,
    }
}

impl Json {
    /// The member of an object that has the name.
    pub fn get(&self, key: &str) -> (r: Option<&Json>)
        ensures
            opt_doc(r) == member(self@, key@),
            r is Some ==> decreases_to!(self => r->0),
    {
        match self {
            Json::Object(v) => {
                let ghost all = members(v@);
                proof {
                    lemma_object(*v);
                }
                let mut k: usize = 0;
                while k < v.len()
                    invariant
                        k <= v.len(),
                        self == Json::Object(*v),
                        all == members(v@),
                        member(self@, key@) == member_from(all, key@, k as nat),
                    decreases v.len() - k,
                {
                    assert(all[k as int] == (v@[k as int].0@, v@[k as int].1@));
                    if text::same(v[k].0.as_str(), key) {
                        return Some(&v[k].1);
                    }
                    k += 1;
                }
                None
            },
            _ => None,
        }
    }

    /// The text that a value is.
    pub fn as_str(&self) -> (r: Option<&str>)
        ensures
            match r {
                Some(s) => as_text(self@) == Some(s@),
                None => as_text(self@) is None,
            },
    {
        match self {
            Json::Text(s) => Some(s.as_str()),
            _ => None,
        }
    }

    /// The truth value that a value is.
    pub fn as_bool(&self) -> (r: Option<bool>)
        ensures
            r == as_truth(self@),
    {
        match self {
            Json::Bool(b) => Some(*b),
            _ => None,
        }
    }

    /// The list that a value is.
    pub fn as_array(&self) -> (r: Option<&Vec<Json>>)
        ensures
            match r {
                Some(v) => *self == Json::List(*v) && as_items(self@) == Some(docs(v@)),
                None => as_items(self@) is None,
            },
    {
        match self {
            Json::List(v) => {
                proof {
                    lemma_list(*v);
                }
                Some(v)
            },
            _ => None,
        }
    }

    /// The members of an object.
    pub fn as_object(&self) -> (r: Option<&Vec<(String, Json)>>)
        ensures
            match r {
                Some(v) => *self == Json::Object(*v) && self@ == Doc::Object(members(v@)),
                None => !(self@ is Object),
            },
    {
        match self {
            Json::Object(v) => {
                proof {
                    lemma_object(*v);
                }
                Some(v)
            },
            _ => None,
        }
    }

    /// The text that a member is; none where it is no text.
    pub fn text_at(&self, key: &str) -> (r: String)
        ensures
            r@ == words_at(self@, key@),
    {
        match self.get(key) {
            Some(x) => match x.as_str() {
                Some(s) => s.to_string(),
                None => String::new(),
            },
            None => String::new(),
        }
    }

    /// The texts in the list that a member is.
    pub fn texts_at(&self, key: &str) -> (r: Vec<String>)
        ensures
            text::texts(r@) == texts_at(self@, key@),
    {
        let mut out: Vec<String> = Vec::new();
        assert(text::texts(out@) =~= Seq::<Seq<char>>::empty());
        match self.get(key) {
            Some(x) => match x.as_array() {
                Some(v) => {
                    let ghost all = docs(v@);
                    let mut k: usize = 0;
                    while k < v.len()
                        invariant
                            k <= v.len(),
                            all == docs(v@),
                            text::texts(out@) == texts_upto(all, k as nat),
                        decreases v.len() - k,
                    {
                        assert(all[k as int] == v@[k as int]@);
                        match v[k].as_str() {
                            Some(s) => {
                                let s = s.to_string();
                                proof {
                                    text::lemma_texts_push(out@, s);
                                }
                                out.push(s);
                            },
                            None => {},
                        }
                        k += 1;
                    }
                    out
                },
                None => out,
            },
            None => out,
        }
    }

    /// The same value again.
    pub fn copy(&self) -> (r: Json)
        ensures
            r@ == self@,
        decreases self,
    {
        match self {
            Json::Null => Json::Null,
            Json::Bool(b) => Json::Bool(*b),
            Json::Number(n) => Json::Number(n.clone()),
            Json::Text(s) => Json::Text(s.clone()),
            Json::List(v) => {
                let mut out: Vec<Json> = Vec::new();
                let mut k: usize = 0;
                while k < v.len()
                    invariant
                        k <= v.len(),
                        self == Json::List(*v),
                        out@.len() == k,
                        forall|j: int| 0 <= j < k ==> (#[trigger] out@[j])@ == v@[j]@,
                    decreases v.len() - k,
                {
                    assert(decreases_to!(self => self->List_0));
                    assert(decreases_to!(v => v@));
                    assert(decreases_to!(v@ => v@[k as int]));
                    let x = v[k].copy();
                    out.push(x);
                    k += 1;
                }
                proof {
                    lemma_list(*v);
                    lemma_list(out);
                    assert(docs(out@) =~= docs(v@));
                }
                Json::List(out)
            },
            Json::Object(v) => {
                let mut out: Vec<(String, Json)> = Vec::new();
                let mut k: usize = 0;
                while k < v.len()
                    invariant
                        k <= v.len(),
                        self == Json::Object(*v),
                        out@.len() == k,
                        forall|j: int|
                            0 <= j < k ==> (#[trigger] out@[j]).0@ == v@[j].0@ && out@[j].1@
                                == v@[j].1@,
                    decreases v.len() - k,
                {
                    assert(decreases_to!(self => self->Object_0));
                    assert(decreases_to!(v => v@));
                    assert(decreases_to!(v@ => v@[k as int]));
                    assert(decreases_to!(v@[k as int] => v@[k as int].1));
                    let x = v[k].1.copy();
                    out.push((v[k].0.clone(), x));
                    k += 1;
                }
                proof {
                    lemma_object(*v);
                    lemma_object(out);
                    assert(members(out@) =~= members(v@));
                }
                Json::Object(out)
            },
        }
    }
}

/// In an object whose members are in order, looking a name up and looking it
/// for from the front come to the same.
pub proof fn lemma_member_value(v: Seq<(Seq<char>, Doc)>, key: Seq<char>)
    requires
        table::ordered(table::keys(v)),
    ensures
        member_from(v, key, 0) == table::value(v, key),
{
    lemma_member_at(v, key, 0);
    table::lemma_holds(table::keys(v), key);
    if member_from(v, key, 0) is Some {
        let i = choose|i: int|
            0 <= i < v.len() && (#[trigger] v[i]).0 == key && member_from(v, key, 0) == Some(
                v[i].1,
            );
        table::lemma_value(v, i);
    } else if table::value(v, key) is Some {
        let p = table::seat(table::keys(v), key);
        table::lemma_seat(table::keys(v), key, 0);
        assert(v[p].0 == key);
    }
}

/// A member has the name where it is found, and no earlier one has it.
pub proof fn lemma_place_from(v: Seq<(Seq<char>, Doc)>, key: Seq<char>, k: nat)
    ensures
        match place_from(v, key, k) {
            Some(i) => k <= i < v.len() && v[i].0 == key && member_from(v, key, k) == Some(v[i].1)
                && forall|j: int| k <= j < i ==> (#[trigger] v[j]).0 != key,
            None => member_from(v, key, k) is None && forall|j: int|
                k <= j < v.len() ==> (#[trigger] v[j]).0 != key,
        },
    decreases v.len() - k,
{
    if k < v.len() {
        lemma_place_from(v, key, k + 1);
    }
}

/// A member that was set is found.
pub proof fn lemma_placed(v: Seq<(Seq<char>, Doc)>, key: Seq<char>, x: Doc)
    ensures
        member_from(placed(v, key, x), key, 0) == Some(x),
{
    lemma_place_from(v, key, 0);
    let w = placed(v, key, x);
    lemma_place_from(w, key, 0);
    match place_from(v, key, 0) {
        Some(i) => {
            assert(w[i].0 == key);
            if place_from(w, key, 0) is Some {
                let j = place_from(w, key, 0)->0;
                if j < i {
                    assert(w[j] == v[j]);
                }
            }
        },
        None => {
            let p = table::seat(table::keys(v), key);
            table::lemma_seat(table::keys(v), key, 0);
            if table::holds(table::keys(v), key) {
                assert(v[p].0 == key);
            }
            assert(w[p] == (key, x));
            if place_from(w, key, 0) is Some {
                let j = place_from(w, key, 0)->0;
                if j < p {
                    assert(w[j] == v[j]);
                } else if j > p {
                    assert(w[j] == v[j - 1]);
                }
            }
        },
    }
}

/// Where members are in order, setting one by its name is setting it in the
/// table.
pub proof fn lemma_placed_in_order(v: Seq<(Seq<char>, Doc)>, key: Seq<char>, x: Doc)
    requires
        table::ordered(table::keys(v)),
    ensures
        placed(v, key, x) == table::put(v, key, x),
{
    lemma_place_from(v, key, 0);
    if let Some(i) = place_from(v, key, 0) {
        assert(table::keys(v)[i] == key);
        table::lemma_place(table::keys(v), key, i);
    }
}

/// A member found stands somewhere, and one that stands somewhere is found.
proof fn lemma_member_at(v: Seq<(Seq<char>, Doc)>, key: Seq<char>, k: nat)
    ensures
        member_from(v, key, k) is Some ==> exists|i: int|
            k <= i < v.len() && (#[trigger] v[i]).0 == key && member_from(v, key, k) == Some(
                v[i].1,
            ),
        member_from(v, key, k) is None ==> forall|i: int|
            k <= i < v.len() ==> (#[trigger] v[i]).0 != key,
    decreases v.len() - k,
{
    if k < v.len() && v[k as int].0 != key {
        lemma_member_at(v, key, k + 1);
    }
}

// ----------------------------------------------------------------- writing

/// The texts as a list of values.
pub open spec fn text_docs(v: Seq<Seq<char>>) -> Seq<Doc> {
    Seq::new(v.len(), |i: int| Doc::Text(v[i]))
}

/// An object of the members, put in one after the other.
pub open spec fn object_upto(v: Seq<(Seq<char>, Doc)>, n: nat) -> Seq<(Seq<char>, Doc)>
    decreases n,
{
    if n == 0 {
        Seq::empty()
    } else {
        table::put(object_upto(v, (n - 1) as nat), v[n - 1].0, v[n - 1].1)
    }
}

/// An object of the members.
pub open spec fn object_doc(v: Seq<(Seq<char>, Doc)>) -> Doc {
    Doc::Object(object_upto(v, v.len()))
}

/// An object made of entries holds each whose key comes no more.
pub proof fn lemma_object_upto(v: Seq<(Seq<char>, Doc)>, n: nat, i: int)
    requires
        0 <= i < n <= v.len(),
        forall|j: int| i < j < n ==> (#[trigger] v[j]).0 != v[i].0,
    ensures
        table::ordered(table::keys(object_upto(v, n))),
        table::value(object_upto(v, n), v[i].0) == Some(v[i].1),
    decreases n,
{
    let rest = object_upto(v, (n - 1) as nat);
    if n == 1 {
        assert(table::keys(rest) =~= Seq::<Seq<char>>::empty());
    } else if i < n - 1 {
        lemma_object_upto(v, (n - 1) as nat, i);
    } else {
        lemma_object_upto(v, (n - 1) as nat, n - 2);
    }
    table::lemma_put(rest, v[n - 1].0, v[n - 1].1);
}

/// An object made of entries has each as a member, where no other has its
/// key.
pub proof fn lemma_object_member(v: Seq<(Seq<char>, Doc)>, i: int)
    requires
        0 <= i < v.len(),
        forall|j: int| i < j < v.len() ==> (#[trigger] v[j]).0 != v[i].0,
    ensures
        member(object_doc(v), v[i].0) == Some(v[i].1),
{
    lemma_object_upto(v, v.len(), i);
    lemma_member_value(object_upto(v, v.len()), v[i].0);
}

/// A list of texts gives back its texts.
pub proof fn lemma_text_docs(v: Seq<Seq<char>>, n: nat)
    requires
        n <= v.len(),
    ensures
        texts_upto(text_docs(v), n) == v.take(n as int),
    decreases n,
{
    if n == 0 {
        assert(v.take(0) =~= Seq::<Seq<char>>::empty());
    } else {
        lemma_text_docs(v, (n - 1) as nat);
        assert(v.take(n as int) =~= v.take(n - 1).push(v[n - 1]));
    }
}

/// Sets the member that has the name, in whatever order the members are.
pub fn place_member(v: &mut Vec<(String, Json)>, key: &str, x: Json)
    ensures
        members(final(v)@) == placed(members(old(v)@), key@, x@),
{
    let ghost all = members(v@);
    let ghost said = x@;
    let mut k: usize = 0;
    while k < v.len()
        invariant
            k <= v.len() == all.len(),
            all == members(v@),
            place_from(all, key@, 0) == place_from(all, key@, k as nat),
        ensures
            k <= v.len() == all.len(),
            place_from(all, key@, 0) == (if k < all.len() {
                Some(k as int)
            } else {
                None
            }),
        decreases v.len() - k,
    {
        assert(all[k as int] == (v@[k as int].0@, v@[k as int].1@));
        if text::same(v[k].0.as_str(), key) {
            break;
        }
        k += 1;
    }
    if k < v.len() {
        v.set(k, (key.to_string(), x));
        assert(members(v@) =~= all.update(k as int, (key@, said)));
    } else {
        set_member(v, key, x);
    }
}

/// Sets a member of an object.
pub fn set_member(v: &mut Vec<(String, Json)>, key: &str, x: Json)
    ensures
        members(final(v)@) == table::put(members(old(v)@), key@, x@),
{
    let ghost all = members(v@);
    let ghost ks = table::keys(all);
    let ghost said = x@;
    let mut p: usize = 0;
    while p < v.len() && text::comes_before(v[p].0.as_str(), key)
        invariant
            p <= v.len(),
            all == members(v@),
            ks == table::keys(all),
            table::seat(ks, key@) == table::seat_from(ks, key@, p as int),
        decreases v.len() - p,
    {
        assert(ks[p as int] == v@[p as int].0@);
        p += 1;
    }
    assert(p < v.len() ==> ks[p as int] == v@[p as int].0@);
    assert(ks.len() == v@.len());
    if p < v.len() && text::same(v[p].0.as_str(), key) {
        v.set(p, (key.to_string(), x));
        assert(members(v@) =~= all.update(p as int, (key@, said)));
    } else {
        v.insert(p, (key.to_string(), x));
        assert(members(v@) =~= all.insert(p as int, (key@, said)));
    }
}

/// A text.
pub fn text(s: &str) -> (r: Json)
    ensures
        r@ == Doc::Text(s@),
{
    Json::Text(s.to_string())
}

/// A number.
pub fn count(n: u64) -> (r: Json)
    ensures
        r@ == Doc::Number(text::decimal(n as nat)),
{
    Json::Number(text::number(n))
}

/// The texts as a list of values.
pub fn text_list(v: &Vec<String>) -> (r: Json)
    ensures
        r@ == Doc::List(text_docs(text::texts(v@))),
{
    let mut out: Vec<Json> = Vec::new();
    let mut k: usize = 0;
    while k < v.len()
        invariant
            k <= v.len(),
            out@.len() == k,
            forall|j: int| 0 <= j < k ==> (#[trigger] out@[j])@ == Doc::Text(v@[j]@),
        decreases v.len() - k,
    {
        out.push(Json::Text(v[k].clone()));
        k += 1;
    }
    proof {
        lemma_list(out);
        assert(docs(out@) =~= text_docs(text::texts(v@)));
    }
    Json::List(out)
}

/// The texts of a list of literal names and values.
pub open spec fn entry_docs(v: Seq<(&'static str, Json)>) -> Seq<(Seq<char>, Doc)> {
    Seq::new(v.len(), |i: int| (v[i].0@, v[i].1@))
}

/// An object of the members.
pub fn object(v: Vec<(&'static str, Json)>) -> (r: Json)
    ensures
        r@ == object_doc(entry_docs(v@)),
{
    let mut rest = v;
    let ghost all = entry_docs(rest@);
    let mut out: Vec<(String, Json)> = Vec::new();
    let ghost mut n: nat = 0;
    assert(members(out@) =~= Seq::<(Seq<char>, Doc)>::empty());
    while rest.len() > 0
        invariant
            n + rest@.len() == all.len(),
            forall|j: int|
                0 <= j < rest@.len() ==> ((#[trigger] rest@[j]).0@, rest@[j].1@) == all[n + j],
            members(out@) == object_upto(all, n),
        decreases rest.len(),
    {
        let ghost before = rest@;
        let (key, x) = rest.remove(0);
        assert((key@, x@) == all[n as int]);
        set_member(&mut out, key, x);
        proof {
            n = n + 1;
            assert forall|j: int| 0 <= j < rest@.len() implies (
                (#[trigger] rest@[j]).0@,
                rest@[j].1@,
            ) == all[n + j] by {
                assert(rest@[j] == before[j + 1]);
            }
        }
    }
    proof {
        lemma_object(out);
    }
    Json::Object(out)
}

} // verus!

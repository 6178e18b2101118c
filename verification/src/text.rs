//! Text as sequences of characters: the small vocabulary of searching,
//! cutting, splitting and joining that every other module is stated in.
//!
//! Positions are counted in characters. Where a length in bytes matters (the
//! order of paths, the offsets a parser reports), `byte_len` gives it.
use vstd::prelude::*;
use vstd::string::*;

verus! {

// ---------------------------------------------------------------- std items

/// `String::push` appends one character to the end of the string.
pub assume_specification[ String::push ](s: &mut String, c: char)
    ensures
        final(s)@ == old(s)@.push(c),
;

/// `str`'s `==` compares the characters of two strings.
pub assume_specification[ <str as PartialEq>::eq ](s: &str, other: &str) -> (r: bool)
    ensures
        r == (s@ == other@),
;

/// Is the character white space? The code points are those of Unicode's
/// `White_Space` property.
pub open spec fn is_white(c: char) -> bool {
    let x = c as u32;
    ||| 0x9 <= x <= 0xd
    ||| x == 0x20
    ||| x == 0x85
    ||| x == 0xa0
    ||| x == 0x1680
    ||| 0x2000 <= x <= 0x200a
    ||| x == 0x2028
    ||| x == 0x2029
    ||| x == 0x202f
    ||| x == 0x205f
    ||| x == 0x3000
}

/// Is the character white space?
pub fn white(c: char) -> (r: bool)
    ensures
        r == is_white(c),
{
    let x: u32 = c as u32;
    0x9 <= x && x <= 0xd || x == 0x20 || x == 0x85 || x == 0xa0 || x == 0x1680 || 0x2000 <= x && x
        <= 0x200a || x == 0x2028 || x == 0x2029 || x == 0x202f || x == 0x205f || x == 0x3000
}

/// What `str::to_lowercase` returns.
pub uninterp spec fn lowercase(s: Seq<char>) -> Seq<char>;

/// The lower case of an ASCII character.
pub open spec fn ascii_lower(c: char) -> char {
    if 'A' <= c <= 'Z' {
        ((c as u32 + 32) as u32) as char
    } else {
        c
    }
}

/// `str::to_lowercase`. An ASCII text has each of its letters lowered on its
/// own; for any other text the result is the one `lowercase` names.
#[verifier::external_body]
pub(crate) fn to_lowercase(s: &str) -> (r: String)
    ensures
        r@ == lowercase(s@),
        (forall|i: int| 0 <= i < s@.len() ==> (#[trigger] s@[i] as u32) < 128) ==> r@ == s@.map_values(
            |c: char| ascii_lower(c),
        ),
{
    s.to_lowercase()
}

// ------------------------------------------------------------ lists of text

/// The texts a list of strings holds.
pub open spec fn texts(v: Seq<String>) -> Seq<Seq<char>> {
    Seq::new(v.len(), |i: int| v[i]@)
}

/// The pairs of texts a list of string pairs holds.
pub open spec fn text_pairs(v: Seq<(String, String)>) -> Seq<(Seq<char>, Seq<char>)> {
    Seq::new(v.len(), |i: int| (v[i].0@, v[i].1@))
}

/// What `texts` holds after one more string.
pub proof fn lemma_texts_push(v: Seq<String>, s: String)
    ensures
        texts(v.push(s)) == texts(v).push(s@),
{
    assert(texts(v.push(s)) =~= texts(v).push(s@));
}

/// What `text_pairs` holds after one more pair.
pub proof fn lemma_text_pairs_push(v: Seq<(String, String)>, p: (String, String))
    ensures
        text_pairs(v.push(p)) == text_pairs(v).push((p.0@, p.1@)),
{
    assert(text_pairs(v.push(p)) =~= text_pairs(v).push((p.0@, p.1@)));
}

/// Do the two texts hold the same characters?
pub fn same(a: &str, b: &str) -> (r: bool)
    ensures
        r == (a@ == b@),
{
    a.eq(b)
}

/// Is `s` one of the texts of `list`?
pub open spec fn listed(list: Seq<Seq<char>>, s: Seq<char>) -> bool {
    exists|i: int| 0 <= i < list.len() && #[trigger] list[i] == s
}

/// Is `s` in the list?
pub fn is_listed(list: &Vec<String>, s: &str) -> (r: bool)
    ensures
        r == listed(texts(list@), s@),
{
    let mut i: usize = 0;
    while i < list.len()
        invariant
            i <= list.len(),
            forall|j: int| 0 <= j < i ==> #[trigger] texts(list@)[j] != s@,
        decreases list.len() - i,
    {
        if same(list[i].as_str(), s) {
            assert(texts(list@)[i as int] == s@);
            return true;
        }
        i += 1;
    }
    false
}

/// Copies of the strings of a list.
pub fn copy_texts(list: &Vec<String>) -> (r: Vec<String>)
    ensures
        texts(r@) == texts(list@),
{
    let mut out: Vec<String> = Vec::new();
    let mut i: usize = 0;
    while i < list.len()
        invariant
            i <= list.len(),
            out.len() == i,
            forall|j: int| 0 <= j < i ==> (#[trigger] out@[j])@ == list@[j]@,
        decreases list.len() - i,
    {
        out.push(list[i].clone());
        i += 1;
    }
    assert(texts(out@) =~= texts(list@));
    out
}

/// Copies of the pairs of a list.
pub fn copy_pairs(list: &Vec<(String, String)>) -> (r: Vec<(String, String)>)
    ensures
        text_pairs(r@) == text_pairs(list@),
{
    let mut out: Vec<(String, String)> = Vec::new();
    let mut i: usize = 0;
    while i < list.len()
        invariant
            i <= list.len(),
            out.len() == i,
            forall|j: int|
                0 <= j < i ==> (#[trigger] out@[j]).0@ == list@[j].0@ && out@[j].1@ == list@[j].1@,
        decreases list.len() - i,
    {
        out.push((list[i].0.clone(), list[i].1.clone()));
        i += 1;
    }
    assert(text_pairs(out@) =~= text_pairs(list@));
    out
}

// ------------------------------------------------------- characters and text

/// The characters of `s`, in order.
pub fn chars(s: &str) -> (r: Vec<char>)
    ensures
        r@ == s@,
{
    let mut out: Vec<char> = Vec::new();
    for c in it: s.chars()
        invariant
            out@ == s@.take(it.index() as int),
            it.seq() == s@,
    {
        out.push(c);
        assert(s@.take(it.index() as int).push(c) =~= s@.take(it.index() + 1));
    }
    assert(s@.take(s@.len() as int) =~= s@);
    out
}

/// The characters of `cs` from `from` up to `to`, as a string.
pub fn piece(cs: &Vec<char>, from: usize, to: usize) -> (r: String)
    requires
        from <= to <= cs.len(),
    ensures
        r@ == cs@.subrange(from as int, to as int),
{
    let mut out: String = String::new();
    let mut i: usize = from;
    while i < to
        invariant
            from <= i <= to <= cs.len(),
            out@ == cs@.subrange(from as int, i as int),
        decreases to - i,
    {
        out.push(cs[i]);
        i += 1;
        assert(cs@.subrange(from as int, i - 1).push(cs@[i - 1]) =~= cs@.subrange(
            from as int,
            i as int,
        ));
    }
    out
}

/// The text with no characters.
pub open spec fn no_text() -> Seq<char> {
    Seq::empty()
}

/// The two texts, one after the other.
pub fn cat2(a: &str, b: &str) -> (r: String)
    ensures
        r@ == a@ + b@,
{
    let mut out: String = a.to_string();
    out.append(b);
    out
}

/// The three texts, one after the other.
pub fn cat3(a: &str, b: &str, c: &str) -> (r: String)
    ensures
        r@ == a@ + b@ + c@,
{
    let mut out: String = cat2(a, b);
    out.append(c);
    out
}

/// The four texts, one after the other.
pub fn cat4(a: &str, b: &str, c: &str, d: &str) -> (r: String)
    ensures
        r@ == a@ + b@ + c@ + d@,
{
    let mut out: String = cat3(a, b, c);
    out.append(d);
    out
}

/// The five texts, one after the other.
pub fn cat5(a: &str, b: &str, c: &str, d: &str, e: &str) -> (r: String)
    ensures
        r@ == a@ + b@ + c@ + d@ + e@,
{
    let mut out: String = cat4(a, b, c, d);
    out.append(e);
    out
}

// ------------------------------------------------------------------- length

/// How many bytes the UTF-8 encoding of a character takes.
pub open spec fn width(c: char) -> nat {
    if (c as u32) < 0x80 {
        1
    } else if (c as u32) < 0x800 {
        2
    } else if (c as u32) < 0x10000 {
        3
    } else {
        4
    }
}

/// How many bytes the first `n` characters of `s` take.
pub open spec fn bytes_upto(s: Seq<char>, n: nat) -> nat
    decreases n,
{
    if n == 0 {
        0
    } else {
        bytes_upto(s, (n - 1) as nat) + width(s[n - 1])
    }
}

/// The length of `s` in bytes.
pub open spec fn byte_len(s: Seq<char>) -> nat {
    bytes_upto(s, s.len())
}

/// The width of one character.
pub fn width_of(c: char) -> (r: u128)
    ensures
        r == width(c),
{
    let n: u32 = c as u32;
    if n < 0x80 {
        1
    } else if n < 0x800 {
        2
    } else if n < 0x10000 {
        3
    } else {
        4
    }
}

/// The length of `s` in bytes.
pub fn byte_length(s: &str) -> (r: u128)
    ensures
        r == byte_len(s@),
{
    let cs = chars(s);
    let mut total: u128 = 0;
    let mut i: usize = 0;
    while i < cs.len()
        invariant
            cs@ == s@,
            i <= cs.len(),
            total == bytes_upto(s@, i as nat),
            total <= 4 * i,
        decreases cs.len() - i,
    {
        total = total + width_of(cs[i]);
        i += 1;
    }
    total
}

/// The character position that lies `at` bytes into `s`, looking from
/// position `n` on; none where a character straddles that byte or the text
/// ends before it.
pub open spec fn char_pos_from(s: Seq<char>, at: nat, n: nat) -> Option<nat>
    decreases s.len() - n,
{
    if bytes_upto(s, n) == at {
        Some(n)
    } else if n >= s.len() {
        None
    } else {
        char_pos_from(s, at, n + 1)
    }
}

/// The character position that lies `at` bytes into `s`.
pub open spec fn char_pos(s: Seq<char>, at: nat) -> Option<nat> {
    char_pos_from(s, at, 0)
}

/// A position found lies in the text and at the byte asked for.
pub proof fn lemma_char_pos(s: Seq<char>, at: nat, n: nat)
    requires
        n <= s.len(),
        char_pos_from(s, at, n) is Some,
    ensures
        n <= char_pos_from(s, at, n)->0 <= s.len(),
        bytes_upto(s, char_pos_from(s, at, n)->0) == at,
    decreases s.len() - n,
{
    if bytes_upto(s, n) != at && n < s.len() {
        lemma_char_pos(s, at, n + 1);
    }
}

/// A later position is more bytes in.
pub proof fn lemma_bytes_grow(s: Seq<char>, a: nat, b: nat)
    requires
        a <= b,
    ensures
        bytes_upto(s, a) + (b - a) <= bytes_upto(s, b),
    decreases b - a,
{
    if a < b {
        lemma_bytes_grow(s, a, (b - 1) as nat);
    }
}

/// The byte at which a character starts is that character's.
pub proof fn lemma_char_pos_at(s: Seq<char>, p: nat, n: nat)
    requires
        n <= p <= s.len(),
    ensures
        char_pos_from(s, bytes_upto(s, p), n) == Some(p),
    decreases p - n,
{
    lemma_bytes_grow(s, n, p);
    if n < p {
        lemma_char_pos_at(s, p, n + 1);
    }
}

/// Positions keep the order of the bytes they lie at.
pub proof fn lemma_char_pos_order(s: Seq<char>, a: nat, b: nat)
    requires
        char_pos(s, a) is Some,
        char_pos(s, b) is Some,
        a <= b,
    ensures
        char_pos(s, a)->0 <= char_pos(s, b)->0,
{
    lemma_char_pos(s, a, 0);
    lemma_char_pos(s, b, 0);
    if char_pos(s, a)->0 > char_pos(s, b)->0 {
        lemma_bytes_grow(s, char_pos(s, b)->0, char_pos(s, a)->0);
    }
}

/// The character position that lies `at` bytes into the text.
pub fn char_position(cs: &Vec<char>, at: usize) -> (r: Option<usize>)
    ensures
        match r {
            Some(i) => char_pos(cs@, at as nat) == Some(i as nat),
            None => char_pos(cs@, at as nat) is None,
        },
{
    let mut total: u128 = 0;
    let mut i: usize = 0;
    while i < cs.len()
        invariant
            i <= cs.len(),
            total == bytes_upto(cs@, i as nat),
            total <= 4 * i,
            char_pos(cs@, at as nat) == char_pos_from(cs@, at as nat, i as nat),
        decreases cs.len() - i,
    {
        if total == at as u128 {
            return Some(i);
        }
        total = total + width_of(cs[i]);
        i += 1;
    }
    if total == at as u128 {
        Some(i)
    } else {
        None
    }
}

// -------------------------------------------------------------------- order

/// Does `a` come before `b`, comparing character by character from `i` on?
pub open spec fn before_from(a: Seq<char>, b: Seq<char>, i: int) -> bool
    decreases b.len() - i,
{
    if i >= b.len() {
        false
    } else if i >= a.len() {
        true
    } else if a[i] != b[i] {
        a[i] < b[i]
    } else {
        before_from(a, b, i + 1)
    }
}

/// Does `a` come strictly before `b` in the order of strings?
pub open spec fn before(a: Seq<char>, b: Seq<char>) -> bool {
    before_from(a, b, 0)
}

/// Does `a` come strictly before `b` in the order of strings?
pub fn comes_before(a: &str, b: &str) -> (r: bool)
    ensures
        r == before(a@, b@),
{
    let x = chars(a);
    let y = chars(b);
    let mut i: usize = 0;
    while i < y.len()
        invariant
            x@ == a@,
            y@ == b@,
            i <= y.len(),
            i <= x.len(),
            before(a@, b@) == before_from(a@, b@, i as int),
        decreases y.len() - i,
    {
        if i >= x.len() {
            return true;
        }
        if x[i] != y[i] {
            return x[i] < y[i];
        }
        i += 1;
    }
    false
}

/// Two texts neither of which comes before the other are one text.
pub proof fn lemma_before_total(a: Seq<char>, b: Seq<char>, i: int)
    requires
        0 <= i <= a.len(),
        i <= b.len(),
        forall|j: int| 0 <= j < i ==> a[j] == b[j],
    ensures
        before_from(a, b, i) || before_from(b, a, i) || a == b,
        !(before_from(a, b, i) && before_from(b, a, i)),
        a == b ==> !before_from(a, b, i),
    decreases a.len() + b.len() - i,
{
    if i >= b.len() || i >= a.len() {
        if i == a.len() && i == b.len() {
            assert(a =~= b);
        }
    } else if a[i] == b[i] {
        lemma_before_total(a, b, i + 1);
    }
}

/// The order of strings is transitive.
pub proof fn lemma_before_trans(a: Seq<char>, b: Seq<char>, c: Seq<char>, i: int)
    requires
        0 <= i,
        before_from(a, b, i),
        before_from(b, c, i),
    ensures
        before_from(a, c, i),
    decreases b.len() - i,
{
    if i < a.len() && i < b.len() && i < c.len() && a[i] == b[i] && b[i] == c[i] {
        lemma_before_trans(a, b, c, i + 1);
    }
}

// ---------------------------------------------------------------- searching

/// Does `s` start with `p`?
pub open spec fn has_prefix(s: Seq<char>, p: Seq<char>) -> bool {
    p.len() <= s.len() && s.take(p.len() as int) == p
}

/// Does `s` end with `p`?
pub open spec fn has_suffix(s: Seq<char>, p: Seq<char>) -> bool {
    p.len() <= s.len() && s.skip(s.len() - p.len()) == p
}

/// Does `p` occur in `s` at position `i`?
pub open spec fn occurs_at(s: Seq<char>, p: Seq<char>, i: int) -> bool {
    0 <= i && i + p.len() <= s.len() && s.subrange(i, i + p.len()) == p
}

/// The first position from `i` on at which `p` occurs in `s`.
pub open spec fn find_from(s: Seq<char>, p: Seq<char>, i: int) -> Option<int>
    decreases s.len() - i,
{
    if i + p.len() > s.len() {
        None
    } else if occurs_at(s, p, i) {
        Some(i)
    } else if i >= s.len() {
        None
    } else {
        find_from(s, p, i + 1)
    }
}

/// Does `p` occur anywhere in `s`?
pub open spec fn contains(s: Seq<char>, p: Seq<char>) -> bool {
    exists|i: int| #[trigger] occurs_at(s, p, i)
}

/// What a position found by `find_from` means.
pub proof fn lemma_find(s: Seq<char>, p: Seq<char>, i: int)
    requires
        0 <= i,
    ensures
        match find_from(s, p, i) {
            Some(k) => i <= k && occurs_at(s, p, k) && forall|j: int|
                i <= j < k ==> !#[trigger] occurs_at(s, p, j),
            None => forall|j: int| i <= j ==> !#[trigger] occurs_at(s, p, j),
        },
    decreases s.len() - i,
{
    if i + p.len() <= s.len() && !occurs_at(s, p, i) && i < s.len() {
        lemma_find(s, p, i + 1);
    }
}

/// Does `p` occur in `s` at position `i`?
fn is_at(s: &Vec<char>, p: &Vec<char>, i: usize) -> (r: bool)
    requires
        i <= s.len(),
    ensures
        r == occurs_at(s@, p@, i as int),
{
    if s.len() - i < p.len() {
        return false;
    }
    let mut j: usize = 0;
    while j < p.len()
        invariant
            j <= p.len(),
            i + p.len() <= s.len(),
            forall|k: int| 0 <= k < j ==> s@[i + k] == p@[k],
        decreases p.len() - j,
    {
        if s[i + j] != p[j] {
            assert(s@.subrange(i as int, i + p@.len())[j as int] != p@[j as int]);
            return false;
        }
        j += 1;
    }
    assert(s@.subrange(i as int, i + p@.len()) =~= p@);
    true
}

/// The first position from `from` on at which `p` occurs in `s`.
pub fn find_at(s: &Vec<char>, p: &Vec<char>, from: usize) -> (r: Option<usize>)
    requires
        from <= s.len(),
    ensures
        match r {
            Some(k) => find_from(s@, p@, from as int) == Some(k as int) && from <= k && k + p@.len()
                <= s@.len(),
            None => find_from(s@, p@, from as int) is None,
        },
{
    let mut i: usize = from;
    while i < s.len()
        invariant
            from <= i <= s.len(),
            find_from(s@, p@, from as int) == find_from(s@, p@, i as int),
        decreases s.len() - i,
    {
        if is_at(s, p, i) {
            return Some(i);
        }
        i += 1;
    }
    if p.len() == 0 {
        assert(s@.subrange(i as int, i as int) =~= p@);
        Some(i)
    } else {
        None
    }
}

/// Does `s` start with `p`?
pub fn starts_with(s: &str, p: &str) -> (r: bool)
    ensures
        r == has_prefix(s@, p@),
{
    let x = chars(s);
    let y = chars(p);
    let r = is_at(&x, &y, 0);
    assert(p@.len() <= s@.len() ==> s@.subrange(0, p@.len() as int) =~= s@.take(p@.len() as int));
    r
}

/// Does `s` end with `p`?
pub fn ends_with(s: &str, p: &str) -> (r: bool)
    ensures
        r == has_suffix(s@, p@),
{
    let x = chars(s);
    let y = chars(p);
    if y.len() > x.len() {
        return false;
    }
    let at: usize = x.len() - y.len();
    let r = is_at(&x, &y, at);
    assert(s@.subrange(at as int, at + p@.len()) =~= s@.skip(s@.len() - p@.len()));
    r
}

/// Does `p` occur anywhere in `s`?
pub fn has(s: &str, p: &str) -> (r: bool)
    ensures
        r == contains(s@, p@),
{
    let x = chars(s);
    let y = chars(p);
    proof {
        lemma_find(s@, p@, 0);
    }
    match find_at(&x, &y, 0) {
        Some(_) => true,
        None => false,
    }
}

/// `s` without the prefix `p`, where it has it.
pub open spec fn without_prefix(s: Seq<char>, p: Seq<char>) -> Option<Seq<char>> {
    if has_prefix(s, p) {
        Some(s.skip(p.len() as int))
    } else {
        None
    }
}

/// `s` without the suffix `p`, where it has it.
pub open spec fn without_suffix(s: Seq<char>, p: Seq<char>) -> Option<Seq<char>> {
    if has_suffix(s, p) {
        Some(s.take(s.len() - p.len()))
    } else {
        None
    }
}

/// The text an optional string holds.
pub open spec fn opt_text(o: Option<String>) -> Option<Seq<char>> {
    match o {
        Some(s) => Some(s@),
        None => None,
    }
}

/// `s` without the prefix `p`, where it has it.
pub fn strip_prefix(s: &str, p: &str) -> (r: Option<String>)
    ensures
        opt_text(r) == without_prefix(s@, p@),
{
    if starts_with(s, p) {
        let x = chars(s);
        let n: usize = chars(p).len();
        let r = piece(&x, n, x.len());
        assert(r@ =~= s@.skip(p@.len() as int));
        Some(r)
    } else {
        None
    }
}

/// `s` without the suffix `p`, where it has it.
pub fn strip_suffix(s: &str, p: &str) -> (r: Option<String>)
    ensures
        opt_text(r) == without_suffix(s@, p@),
{
    if ends_with(s, p) {
        let x = chars(s);
        let n: usize = chars(p).len();
        let r = piece(&x, 0, x.len() - n);
        assert(r@ =~= s@.take(s@.len() - p@.len()));
        Some(r)
    } else {
        None
    }
}

/// The last position below `n` that holds `c`.
pub open spec fn last_below(s: Seq<char>, c: char, n: int) -> Option<int>
    decreases n,
{
    if n <= 0 {
        None
    } else if s[n - 1] == c {
        Some(n - 1)
    } else {
        last_below(s, c, n - 1)
    }
}

/// The last position of `c` in `s`.
pub open spec fn last_of(s: Seq<char>, c: char) -> Option<int> {
    last_below(s, c, s.len() as int)
}

/// The last position below `n` that holds `c`.
pub fn last_char(s: &Vec<char>, c: char, n: usize) -> (r: Option<usize>)
    requires
        n <= s.len(),
    ensures
        match r {
            Some(k) => last_below(s@, c, n as int) == Some(k as int) && k < n && s@[k as int] == c,
            None => last_below(s@, c, n as int) is None,
        },
{
    let mut i: usize = n;
    while i > 0
        invariant
            i <= n <= s.len(),
            last_below(s@, c, n as int) == last_below(s@, c, i as int),
        decreases i,
    {
        if s[i - 1] == c {
            return Some(i - 1);
        }
        i -= 1;
    }
    None
}

/// What stands before and after the last `c` of `s`, where it holds one.
pub open spec fn cut_last(s: Seq<char>, c: char) -> Option<(Seq<char>, Seq<char>)> {
    match last_of(s, c) {
        Some(i) => Some((s.take(i), s.skip(i + 1))),
        None => None,
    }
}

/// The last position below `n` is below `n`.
pub proof fn lemma_last_below(s: Seq<char>, c: char, n: int)
    requires
        n <= s.len(),
    ensures
        last_below(s, c, n) is Some ==> 0 <= last_below(s, c, n)->0 < n && s[last_below(s, c, n)->0]
            == c,
        last_below(s, c, n) is None ==> forall|i: int| 0 <= i < n ==> s[i] != c,
        last_below(s, c, n) is Some ==> forall|i: int| last_below(s, c, n)->0 < i < n ==> s[i] != c,
    decreases n,
{
    if n > 0 && s[n - 1] != c {
        lemma_last_below(s, c, n - 1);
    }
}

/// The pair of texts an optional pair of strings holds.
pub open spec fn opt_pair(o: Option<(String, String)>) -> Option<(Seq<char>, Seq<char>)> {
    match o {
        Some(p) => Some((p.0@, p.1@)),
        None => None,
    }
}

/// What stands before and after the last `c` of `s`, where it holds one.
pub fn rsplit_once(s: &str, c: char) -> (r: Option<(String, String)>)
    ensures
        opt_pair(r) == cut_last(s@, c),
{
    let x = chars(s);
    match last_char(&x, c, x.len()) {
        Some(i) => {
            let a = piece(&x, 0, i);
            let b = piece(&x, i + 1, x.len());
            assert(a@ =~= s@.take(i as int));
            assert(b@ =~= s@.skip(i + 1));
            Some((a, b))
        },
        None => None,
    }
}

/// The first position from `i` on that holds `c`; the length where none does.
pub open spec fn next_of(s: Seq<char>, c: char, i: int) -> int
    decreases s.len() - i,
{
    if i >= s.len() {
        s.len() as int
    } else if s[i] == c {
        i
    } else {
        next_of(s, c, i + 1)
    }
}

/// The first position from `i` on that holds `c`; the length where none does.
pub fn next_char(s: &Vec<char>, c: char, from: usize) -> (r: usize)
    requires
        from <= s.len(),
    ensures
        r == next_of(s@, c, from as int),
        from <= r <= s.len(),
        r < s.len() ==> s@[r as int] == c,
{
    let mut i: usize = from;
    while i < s.len()
        invariant
            from <= i <= s.len(),
            next_of(s@, c, from as int) == next_of(s@, c, i as int),
        decreases s.len() - i,
    {
        if s[i] == c {
            return i;
        }
        i += 1;
    }
    i
}

/// Where the first `c` at or after `i` stands.
pub proof fn lemma_next_of(s: Seq<char>, c: char, i: int)
    requires
        0 <= i <= s.len(),
    ensures
        i <= next_of(s, c, i) <= s.len(),
        next_of(s, c, i) < s.len() ==> s[next_of(s, c, i)] == c,
        forall|j: int| i <= j < next_of(s, c, i) ==> s[j] != c,
    decreases s.len() - i,
{
    if i < s.len() && s[i] != c {
        lemma_next_of(s, c, i + 1);
    }
}

// ---------------------------------------------------------------- splitting

/// The pieces of `s` from position `i` on, cut at every `c`.
pub open spec fn split_from(s: Seq<char>, c: char, i: int) -> Seq<Seq<char>>
    decreases s.len() - i,
{
    if i < 0 || i > s.len() {
        Seq::empty()
    } else {
        let k = next_of(s, c, i);
        if k < i || k >= s.len() {
            seq![s.subrange(i, s.len() as int)]
        } else {
            seq![s.subrange(i, k)] + split_from(s, c, k + 1)
        }
    }
}

/// The pieces of `s`, cut at every `c`.
pub open spec fn split_on(s: Seq<char>, c: char) -> Seq<Seq<char>> {
    split_from(s, c, 0)
}

/// There is always a first piece, and it ends where the first `c` stands.
pub proof fn lemma_split_first(s: Seq<char>, c: char)
    ensures
        split_on(s, c).len() >= 1,
        split_on(s, c)[0] == s.take(next_of(s, c, 0)),
{
    lemma_next_of(s, c, 0);
    let k = next_of(s, c, 0);
    assert(s.subrange(0, k) =~= s.take(k));
}

/// In two texts with a `c` between them, the next `c` is that of the first
/// one, or the one between them.
pub proof fn lemma_next_in_both(a: Seq<char>, c: char, b: Seq<char>, i: int)
    requires
        0 <= i <= a.len(),
    ensures
        next_of(a + seq![c] + b, c, i) == next_of(a, c, i),
    decreases a.len() - i,
{
    let s = a + seq![c] + b;
    if i < a.len() {
        assert(s[i] == a[i]);
        lemma_next_in_both(a, c, b, i + 1);
    } else {
        assert(s[i] == c);
    }
}

/// The pieces of two texts with a `c` between them, from a place in the first
/// one on.
proof fn lemma_split_across(a: Seq<char>, c: char, b: Seq<char>, i: int)
    requires
        0 <= i <= a.len(),
    ensures
        split_from(a + seq![c] + b, c, i) == split_from(a, c, i) + split_from(
            a + seq![c] + b,
            c,
            a.len() as int + 1,
        ),
    decreases a.len() - i,
{
    let s = a + seq![c] + b;
    let k = next_of(a, c, i);
    lemma_next_in_both(a, c, b, i);
    lemma_next_of(a, c, i);
    assert(s.subrange(i, k) =~= a.subrange(i, k));
    if k < a.len() {
        lemma_split_across(a, c, b, k + 1);
    }
    assert(split_from(s, c, i) =~= split_from(a, c, i) + split_from(s, c, a.len() as int + 1));
}

/// A later start finds the same places, moved.
pub proof fn lemma_next_moved(front: Seq<char>, s: Seq<char>, c: char, i: int)
    requires
        0 <= i <= s.len(),
    ensures
        next_of(front + s, c, front.len() + i) == front.len() + next_of(s, c, i),
    decreases s.len() - i,
{
    if i < s.len() {
        assert((front + s)[front.len() + i] == s[i]);
        lemma_next_moved(front, s, c, i + 1);
    }
}

/// What stands before the start does not matter to the pieces.
proof fn lemma_split_moved(front: Seq<char>, s: Seq<char>, c: char, i: int)
    requires
        0 <= i <= s.len(),
    ensures
        split_from(front + s, c, front.len() + i) == split_from(s, c, i),
    decreases s.len() - i,
{
    let k = next_of(s, c, i);
    lemma_next_moved(front, s, c, i);
    lemma_next_of(s, c, i);
    let n = front.len() as int;
    assert((front + s).subrange(n + i, n + k) =~= s.subrange(i, k));
    if k < s.len() {
        lemma_split_moved(front, s, c, k + 1);
    }
    assert(split_from(front + s, c, n + i) =~= split_from(s, c, i));
}

/// The pieces of two texts with a `c` between them are those of the first and
/// those of the second.
pub proof fn lemma_split_both(a: Seq<char>, c: char, b: Seq<char>)
    ensures
        split_on(a + seq![c] + b, c) == split_on(a, c) + split_on(b, c),
{
    lemma_split_across(a, c, b, 0);
    lemma_split_moved(a + seq![c], b, c, 0);
}

/// The pieces of `s`, cut at every `c`.
pub fn split(s: &str, c: char) -> (r: Vec<String>)
    ensures
        texts(r@) == split_on(s@, c),
        r.len() >= 1,
{
    let x = chars(s);
    let mut out: Vec<String> = Vec::new();
    let mut i: usize = 0;
    loop
        invariant
            x@ == s@,
            i <= x.len(),
            texts(out@) + split_from(s@, c, i as int) =~= split_on(s@, c),
        decreases x.len() - i,
    {
        let k: usize = next_char(&x, c, i);
        let p = piece(&x, i, k);
        proof {
            lemma_texts_push(out@, p);
        }
        let ghost whole = texts(out@) + split_from(s@, c, i as int);
        out.push(p);
        if k >= x.len() {
            assert(texts(out@) =~= whole);
            return out;
        }
        assert(texts(out@) + split_from(s@, c, k + 1) =~= whole);
        i = k + 1;
    }
}

/// The pieces of `s` from position `i` on, cut at every occurrence of `p`.
pub open spec fn split_str_from(s: Seq<char>, p: Seq<char>, i: int) -> Seq<Seq<char>>
    decreases s.len() - i,
{
    if i < 0 || i > s.len() || p.len() == 0 {
        Seq::empty()
    } else {
        match find_from(s, p, i) {
            Some(k) => if k < i || k + p.len() > s.len() {
                Seq::empty()
            } else {
                seq![s.subrange(i, k)] + split_str_from(s, p, k + p.len())
            },
            None => seq![s.subrange(i, s.len() as int)],
        }
    }
}

/// The pieces of `s`, cut at every occurrence of `p`.
pub open spec fn split_str_on(s: Seq<char>, p: Seq<char>) -> Seq<Seq<char>> {
    split_str_from(s, p, 0)
}

/// The pieces of `s`, cut at every occurrence of `p`.
pub fn split_str(s: &str, p: &str) -> (r: Vec<String>)
    requires
        p@.len() > 0,
    ensures
        texts(r@) == split_str_on(s@, p@),
        r.len() >= 1,
{
    let x = chars(s);
    let y = chars(p);
    let mut out: Vec<String> = Vec::new();
    let mut i: usize = 0;
    loop
        invariant
            x@ == s@,
            y@ == p@,
            p@.len() > 0,
            i <= x.len(),
            texts(out@) + split_str_from(s@, p@, i as int) =~= split_str_on(s@, p@),
        decreases x.len() - i,
    {
        let ghost whole = texts(out@) + split_str_from(s@, p@, i as int);
        match find_at(&x, &y, i) {
            Some(k) => {
                let part = piece(&x, i, k);
                proof {
                    lemma_texts_push(out@, part);
                }
                out.push(part);
                assert(texts(out@) + split_str_from(s@, p@, k + p@.len()) =~= whole);
                i = k + y.len();
            },
            None => {
                let part = piece(&x, i, x.len());
                proof {
                    lemma_texts_push(out@, part);
                }
                out.push(part);
                assert(texts(out@) =~= whole);
                return out;
            },
        }
    }
}

/// The first `n` texts of `v`, without the empty ones.
pub open spec fn filled_upto(v: Seq<Seq<char>>, n: nat) -> Seq<Seq<char>>
    decreases n,
{
    if n == 0 {
        Seq::empty()
    } else {
        let done = filled_upto(v, (n - 1) as nat);
        if v[n - 1].len() == 0 {
            done
        } else {
            done.push(v[n - 1])
        }
    }
}

/// The texts of `v`, without the empty ones.
pub open spec fn filled(v: Seq<Seq<char>>) -> Seq<Seq<char>> {
    filled_upto(v, v.len())
}

/// The strings of `v`, without the empty ones.
pub fn drop_empty(v: &Vec<String>) -> (r: Vec<String>)
    ensures
        texts(r@) == filled(texts(v@)),
{
    let mut out: Vec<String> = Vec::new();
    let mut i: usize = 0;
    while i < v.len()
        invariant
            i <= v.len(),
            texts(out@) == filled_upto(texts(v@), i as nat),
        decreases v.len() - i,
    {
        assert(texts(v@)[i as int] == v@[i as int]@);
        if !v[i].as_str().is_empty() {
            let s = v[i].clone();
            proof {
                lemma_texts_push(out@, s);
            }
            out.push(s);
        }
        i += 1;
    }
    out
}

// ------------------------------------------------------------------ joining

/// The first `n` texts of `v`, with `sep` between them.
pub open spec fn join_upto(v: Seq<Seq<char>>, sep: Seq<char>, n: nat) -> Seq<char>
    decreases n,
{
    if n == 0 {
        Seq::empty()
    } else if n == 1 {
        v[0]
    } else {
        join_upto(v, sep, (n - 1) as nat) + sep + v[n - 1]
    }
}

/// The texts of `v`, with `sep` between them.
pub open spec fn joined(v: Seq<Seq<char>>, sep: Seq<char>) -> Seq<char> {
    join_upto(v, sep, v.len())
}

/// The first `n` strings of `v`, with `sep` between them.
pub fn join_first(v: &Vec<String>, n: usize, sep: &str) -> (r: String)
    requires
        n <= v.len(),
    ensures
        r@ == join_upto(texts(v@), sep@, n as nat),
{
    let mut out: String = String::new();
    let mut i: usize = 0;
    while i < n
        invariant
            i <= n <= v.len(),
            out@ == join_upto(texts(v@), sep@, i as nat),
        decreases n - i,
    {
        assert(texts(v@)[i as int] == v@[i as int]@);
        if i > 0 {
            out.append(sep);
        } else {
            assert(out@ + v@[0]@ =~= v@[0]@);
        }
        out.append(v[i].as_str());
        i += 1;
    }
    out
}

/// The strings of `v`, with `sep` between them.
pub fn join(v: &Vec<String>, sep: &str) -> (r: String)
    ensures
        r@ == joined(texts(v@), sep@),
{
    join_first(v, v.len(), sep)
}

// ----------------------------------------------------------------- trimming

/// The first position from `i` on that is not white.
pub open spec fn ink_from(s: Seq<char>, i: int) -> int
    decreases s.len() - i,
{
    if i >= s.len() {
        s.len() as int
    } else if is_white(s[i]) {
        ink_from(s, i + 1)
    } else {
        i
    }
}

/// The end of what is left of the first `n` characters once the white ones
/// at their end are dropped.
pub open spec fn ink_end(s: Seq<char>, n: int) -> int
    decreases n,
{
    if n <= 0 {
        0
    } else if is_white(s[n - 1]) {
        ink_end(s, n - 1)
    } else {
        n
    }
}

/// `s` without the white characters at its end.
pub open spec fn trimmed_end(s: Seq<char>) -> Seq<char> {
    s.take(ink_end(s, s.len() as int))
}

/// `s` without the white characters at its start and at its end.
pub open spec fn trimmed(s: Seq<char>) -> Seq<char> {
    trimmed_end(s).skip(ink_from(trimmed_end(s), 0))
}

/// The first position from `from` on that is not white.
pub fn next_ink(s: &Vec<char>, from: usize) -> (r: usize)
    requires
        from <= s.len(),
    ensures
        r == ink_from(s@, from as int),
        from <= r <= s.len(),
{
    let mut i: usize = from;
    while i < s.len()
        invariant
            from <= i <= s.len(),
            ink_from(s@, from as int) == ink_from(s@, i as int),
        decreases s.len() - i,
    {
        if !white(s[i]) {
            return i;
        }
        i += 1;
    }
    i
}

/// Where the ink of the first `n` characters ends.
fn last_ink(s: &Vec<char>, n: usize) -> (r: usize)
    requires
        n <= s.len(),
    ensures
        r == ink_end(s@, n as int),
        r <= n,
{
    let mut i: usize = n;
    while i > 0
        invariant
            i <= n <= s.len(),
            ink_end(s@, n as int) == ink_end(s@, i as int),
        decreases i,
    {
        if !white(s[i - 1]) {
            return i;
        }
        i -= 1;
    }
    0
}

/// `s` without the white characters at its end.
pub fn trim_end(s: &str) -> (r: String)
    ensures
        r@ == trimmed_end(s@),
{
    let x = chars(s);
    let n: usize = last_ink(&x, x.len());
    let r = piece(&x, 0, n);
    assert(r@ =~= trimmed_end(s@));
    r
}

/// `s` without the white characters at its start and at its end.
pub fn trim(s: &str) -> (r: String)
    ensures
        r@ == trimmed(s@),
{
    let x = chars(trim_end(s).as_str());
    let i: usize = next_ink(&x, 0);
    let r = piece(&x, i, x.len());
    assert(r@ =~= trimmed(s@));
    r
}

/// The first position from `i` on whose character `set` does not hold.
pub open spec fn out_from(s: Seq<char>, set: Seq<char>, i: int) -> int
    decreases s.len() - i,
{
    if i >= s.len() {
        s.len() as int
    } else if set.contains(s[i]) {
        out_from(s, set, i + 1)
    } else {
        i
    }
}

/// The end of what is left of the first `n` characters once those of `set`
/// at their end are dropped.
pub open spec fn out_end(s: Seq<char>, set: Seq<char>, n: int) -> int
    decreases n,
{
    if n <= 0 {
        0
    } else if set.contains(s[n - 1]) {
        out_end(s, set, n - 1)
    } else {
        n
    }
}

/// `s` without the characters of `set` at its start.
pub open spec fn shed_start(s: Seq<char>, set: Seq<char>) -> Seq<char> {
    s.skip(out_from(s, set, 0))
}

/// `s` without the characters of `set` at its end.
pub open spec fn shed_end(s: Seq<char>, set: Seq<char>) -> Seq<char> {
    s.take(out_end(s, set, s.len() as int))
}

/// Is `c` one of the characters of `set`?
fn is_one_of(set: &Vec<char>, c: char) -> (r: bool)
    ensures
        r == set@.contains(c),
{
    let mut i: usize = 0;
    while i < set.len()
        invariant
            i <= set.len(),
            forall|j: int| 0 <= j < i ==> set@[j] != c,
        decreases set.len() - i,
    {
        if set[i] == c {
            return true;
        }
        i += 1;
    }
    false
}

/// The first position from `from` on whose character `set` does not hold.
pub fn next_out(s: &Vec<char>, set: &Vec<char>, from: usize) -> (r: usize)
    requires
        from <= s.len(),
    ensures
        r == out_from(s@, set@, from as int),
        from <= r <= s.len(),
{
    let mut i: usize = from;
    while i < s.len()
        invariant
            from <= i <= s.len(),
            out_from(s@, set@, from as int) == out_from(s@, set@, i as int),
        decreases s.len() - i,
    {
        if !is_one_of(set, s[i]) {
            return i;
        }
        i += 1;
    }
    i
}

/// `s` without the characters of `set` at its start.
pub fn trim_start_set(s: &str, set: &str) -> (r: String)
    ensures
        r@ == shed_start(s@, set@),
{
    let x = chars(s);
    let y = chars(set);
    let i: usize = next_out(&x, &y, 0);
    let r = piece(&x, i, x.len());
    assert(r@ =~= shed_start(s@, set@));
    r
}

/// Where what is left of `s` ends once the characters of `set` at its end
/// are dropped.
fn last_out(s: &Vec<char>, set: &Vec<char>) -> (r: usize)
    ensures
        r == out_end(s@, set@, s@.len() as int),
        r <= s.len(),
{
    let mut i: usize = s.len();
    while i > 0
        invariant
            i <= s.len(),
            out_end(s@, set@, s@.len() as int) == out_end(s@, set@, i as int),
        decreases i,
    {
        if !is_one_of(set, s[i - 1]) {
            return i;
        }
        i -= 1;
    }
    0
}

/// `s` without the characters of `set` at its end.
pub fn trim_end_set(s: &str, set: &str) -> (r: String)
    ensures
        r@ == shed_end(s@, set@),
{
    let x = chars(s);
    let y = chars(set);
    let n: usize = last_out(&x, &y);
    let r = piece(&x, 0, n);
    assert(r@ =~= shed_end(s@, set@));
    r
}

/// What is left of a text whose end was shed is no longer than the text.
pub proof fn lemma_shed_end_len(s: Seq<char>, set: Seq<char>, n: int)
    requires
        0 <= n <= s.len(),
    ensures
        0 <= out_end(s, set, n) <= n,
    decreases n,
{
    if n > 0 && set.contains(s[n - 1]) {
        lemma_shed_end_len(s, set, n - 1);
    }
}

/// The ink ends within the text.
proof fn lemma_ink_end(s: Seq<char>, n: int)
    requires
        0 <= n <= s.len(),
    ensures
        0 <= ink_end(s, n) <= n,
    decreases n,
{
    if n > 0 && is_white(s[n - 1]) {
        lemma_ink_end(s, n - 1);
    }
}

/// A trimmed text is no longer than the text.
pub proof fn lemma_trimmed_len(s: Seq<char>)
    ensures
        trimmed(s).len() <= s.len(),
{
    lemma_ink_end(s, s.len() as int);
    lemma_ink_from(s, 0);
    let t = trimmed_end(s);
    lemma_ink_from(t, 0);
}

/// Where the ink of the first `n` characters ends, given the white ones at
/// their end.
proof fn lemma_ink_end_at(s: Seq<char>, m: int, n: int)
    requires
        0 <= m <= n <= s.len(),
        forall|i: int| m <= i < n ==> is_white(#[trigger] s[i]),
        m == 0 || !is_white(s[m - 1]),
    ensures
        ink_end(s, n) == m,
    decreases n,
{
    if m < n {
        assert(is_white(s[n - 1]));
        lemma_ink_end_at(s, m, n - 1);
    }
}

/// Where the ink from `i` on starts, given the white characters before it.
proof fn lemma_ink_from_at(s: Seq<char>, i: int, m: int)
    requires
        0 <= i <= m <= s.len(),
        forall|j: int| i <= j < m ==> is_white(#[trigger] s[j]),
        m == s.len() || !is_white(s[m]),
    ensures
        ink_from(s, i) == m,
    decreases m - i,
{
    if i < m {
        assert(is_white(s[i]));
        lemma_ink_from_at(s, i + 1, m);
    }
}

/// Trimming takes the white characters around a text, and nothing of the
/// text.
pub proof fn law_trimming_takes_the_margins(a: Seq<char>, t: Seq<char>, b: Seq<char>)
    requires
        forall|i: int| 0 <= i < a.len() ==> is_white(#[trigger] a[i]),
        forall|i: int| 0 <= i < b.len() ==> is_white(#[trigger] b[i]),
        t.len() > 0 ==> !is_white(t[0]) && !is_white(t.last()),
    ensures
        trimmed(a + t + b) == t,
{
    let s = a + t + b;
    if t.len() == 0 {
        assert forall|i: int| 0 <= i < s.len() implies is_white(#[trigger] s[i]) by {
            if i < a.len() {
                assert(s[i] == a[i]);
            } else {
                assert(s[i] == b[i - a.len()]);
            }
        }
        lemma_ink_end_at(s, 0, s.len() as int);
        assert(trimmed(s) =~= t);
    } else {
        let m = (a.len() + t.len()) as int;
        assert(s[m - 1] == t.last());
        assert forall|i: int| m <= i < s.len() implies is_white(#[trigger] s[i]) by {
            assert(s[i] == b[i - m]);
        }
        lemma_ink_end_at(s, m, s.len() as int);
        let e = trimmed_end(s);
        assert(e =~= a + t);
        assert(e[a.len() as int] == t[0]);
        assert forall|i: int| 0 <= i < a.len() implies is_white(#[trigger] e[i]) by {
            assert(e[i] == a[i]);
        }
        lemma_ink_from_at(e, 0, a.len() as int);
        assert(trimmed(s) =~= t);
    }
}

/// A text that starts with ink is trimmed at its end alone, and keeps all it
/// has up to any character that is not white.
pub proof fn lemma_trimmed_start(s: Seq<char>, k: int)
    requires
        0 <= k < s.len(),
        !is_white(s[0]),
        !is_white(s[k]),
    ensures
        k < trimmed(s).len() <= s.len(),
        trimmed(s) == s.take(trimmed(s).len() as int),
        !is_white(trimmed(s).last()),
{
    let n = s.len() as int;
    lemma_ink_end(s, n);
    lemma_ink_end_after(s, n, k);
    let e = trimmed_end(s);
    assert(e[0] == s[0]);
    lemma_ink_from_at(e, 0, 0);
    assert(trimmed(s) =~= e);
}

/// The ink ends after every character that is not white, and on one.
proof fn lemma_ink_end_after(s: Seq<char>, n: int, k: int)
    requires
        0 <= k < n <= s.len(),
        !is_white(s[k]),
    ensures
        k < ink_end(s, n) <= n,
        !is_white(s[ink_end(s, n) - 1]),
    decreases n,
{
    if is_white(s[n - 1]) {
        lemma_ink_end_after(s, n - 1, k);
    }
}

/// Where the first `c` stands, given that none stands before.
pub proof fn lemma_next_of_at(s: Seq<char>, c: char, i: int, k: int)
    requires
        0 <= i <= k <= s.len(),
        forall|j: int| i <= j < k ==> s[j] != c,
        k == s.len() || s[k] == c,
    ensures
        next_of(s, c, i) == k,
    decreases k - i,
{
    if i < k {
        lemma_next_of_at(s, c, i + 1, k);
    }
}

/// A trimmed text starts and ends with ink, and is a part of the text.
pub proof fn lemma_trimmed_inside(s: Seq<char>) -> (at: int)
    ensures
        0 <= at <= at + trimmed(s).len() <= s.len(),
        trimmed(s) == s.subrange(at, at + trimmed(s).len()),
        trimmed(s).len() > 0 ==> !is_white(trimmed(s)[0]) && !is_white(trimmed(s).last()),
{
    let n = s.len() as int;
    lemma_ink_end(s, n);
    let e = trimmed_end(s);
    lemma_ink_from(e, 0);
    let at = ink_from(e, 0);
    if at < e.len() {
        lemma_ink_end_after(s, n, at);
    }
    assert(trimmed(s) =~= s.subrange(at, at + trimmed(s).len()));
    at
}

/// What is trimmed has no margins left to trim.
pub proof fn law_trimming_twice_is_once(s: Seq<char>)
    ensures
        trimmed(trimmed(s)) == trimmed(s),
{
    let t = trimmed(s);
    let at = lemma_trimmed_inside(s);
    law_trimming_takes_the_margins(no_text(), t, no_text());
    assert(no_text() + t + no_text() =~= t);
}

// -------------------------------------------------------- lines and words

/// Does the character stand between words? Those are the white ones, and the
/// separators of files, groups, records and units, as Python's `str.split`
/// has it.
pub open spec fn is_space(c: char) -> bool {
    is_white(c) || 0x1c <= c as u32 <= 0x1f
}

/// Does the character stand between words?
fn spaces(c: char) -> (r: bool)
    ensures
        r == is_space(c),
{
    let n: u32 = c as u32;
    white(c) || 0x1c <= n && n <= 0x1f
}

/// The first position from `i` on that is part of a word.
pub open spec fn word_from(s: Seq<char>, i: int) -> int
    decreases s.len() - i,
{
    if i >= s.len() {
        s.len() as int
    } else if is_space(s[i]) {
        word_from(s, i + 1)
    } else {
        i
    }
}

/// The first position from `i` on that stands between words.
pub open spec fn space_from(s: Seq<char>, i: int) -> int
    decreases s.len() - i,
{
    if i >= s.len() {
        s.len() as int
    } else if is_space(s[i]) {
        i
    } else {
        space_from(s, i + 1)
    }
}

/// The first position from `from` on that is part of a word.
fn next_word(s: &Vec<char>, from: usize) -> (r: usize)
    requires
        from <= s.len(),
    ensures
        r == word_from(s@, from as int),
        from <= r <= s.len(),
        r < s.len() ==> !is_space(s@[r as int]),
{
    let mut i: usize = from;
    while i < s.len()
        invariant
            from <= i <= s.len(),
            word_from(s@, from as int) == word_from(s@, i as int),
        decreases s.len() - i,
    {
        if !spaces(s[i]) {
            return i;
        }
        i += 1;
    }
    i
}

/// The first position from `from` on that stands between words.
fn next_space(s: &Vec<char>, from: usize) -> (r: usize)
    requires
        from <= s.len(),
    ensures
        r == space_from(s@, from as int),
        from <= r <= s.len(),
        from < s.len() && !is_space(s@[from as int]) ==> r > from,
{
    let mut i: usize = from;
    while i < s.len()
        invariant
            from <= i <= s.len(),
            space_from(s@, from as int) == space_from(s@, i as int),
            i == from || from < s.len() && !is_space(s@[from as int]),
        decreases s.len() - i,
    {
        if spaces(s[i]) {
            return i;
        }
        i += 1;
    }
    i
}

/// The words of `s` from position `i` on: its maximal runs of characters
/// that do not stand between words.
pub open spec fn words_from(s: Seq<char>, i: int) -> Seq<Seq<char>>
    decreases s.len() - i,
{
    let a = word_from(s, i);
    let b = space_from(s, a);
    if i < 0 || a < i || a >= s.len() || b <= a || b > s.len() {
        Seq::empty()
    } else {
        seq![s.subrange(a, b)] + words_from(s, b)
    }
}

/// The words of `s`.
pub open spec fn words(s: Seq<char>) -> Seq<Seq<char>> {
    words_from(s, 0)
}

/// Where the next character that is not white stands.
pub proof fn lemma_ink_from(s: Seq<char>, i: int)
    requires
        0 <= i <= s.len(),
    ensures
        i <= ink_from(s, i) <= s.len(),
        ink_from(s, i) < s.len() ==> !is_white(s[ink_from(s, i)]),
        forall|j: int| i <= j < ink_from(s, i) ==> is_white(#[trigger] s[j]),
    decreases s.len() - i,
{
    if i < s.len() && is_white(s[i]) {
        lemma_ink_from(s, i + 1);
    }
}

/// The words of `s`.
pub fn split_words(s: &str) -> (r: Vec<String>)
    ensures
        texts(r@) == words(s@),
{
    let x = chars(s);
    let mut out: Vec<String> = Vec::new();
    let mut i: usize = 0;
    loop
        invariant
            x@ == s@,
            i <= x.len(),
            texts(out@) + words_from(s@, i as int) =~= words(s@),
        decreases x.len() - i,
    {
        let a: usize = next_word(&x, i);
        let ghost whole = texts(out@) + words_from(s@, i as int);
        if a >= x.len() {
            assert(texts(out@) =~= whole);
            return out;
        }
        let b: usize = next_space(&x, a);
        let w = piece(&x, a, b);
        proof {
            lemma_texts_push(out@, w);
        }
        out.push(w);
        assert(texts(out@) + words_from(s@, b as int) =~= whole);
        i = b;
    }
}

/// `s` with every run of characters between words made one space, and none at
/// the ends: Python's `" ".join(s.split())`.
pub open spec fn collapsed(s: Seq<char>) -> Seq<char> {
    joined(words(s), " "@)
}

/// `s` with every run of characters between words made one space, and none at
/// the ends: Python's `" ".join(s.split())`.
pub fn collapse(s: &str) -> (r: String)
    ensures
        r@ == collapsed(s@),
{
    let w = split_words(s);
    join(&w, " ")
}

/// A line as it stands before its line feed: without the carriage return
/// that belongs to the break.
pub open spec fn without_cr(s: Seq<char>) -> Seq<char> {
    if s.len() > 0 && s.last() == '\r' {
        s.drop_last()
    } else {
        s
    }
}

/// The first `n` lines of a text cut at its line feeds into `v`.
pub open spec fn lines_upto(v: Seq<Seq<char>>, n: nat) -> Seq<Seq<char>>
    decreases n,
{
    if n == 0 {
        Seq::empty()
    } else {
        let done = lines_upto(v, (n - 1) as nat);
        if n < v.len() {
            done.push(without_cr(v[n - 1]))
        } else if v[n - 1].len() == 0 {
            done
        } else {
            done.push(v[n - 1])
        }
    }
}

/// The lines of `s`: ended by a line feed, or a carriage return and a line
/// feed; an empty last line is none.
pub open spec fn lines_of(s: Seq<char>) -> Seq<Seq<char>> {
    lines_upto(split_on(s, '\n'), split_on(s, '\n').len())
}

/// Where the ink ends does not depend on what follows.
proof fn lemma_ink_end_before(s: Seq<char>, n: int)
    requires
        0 <= n < s.len(),
    ensures
        ink_end(s.drop_last(), n) == ink_end(s, n),
    decreases n,
{
    if n > 0 {
        lemma_ink_end_before(s, n - 1);
    }
}

/// A line is trimmed to the same text with its carriage return and without.
pub proof fn lemma_trimmed_line(s: Seq<char>)
    ensures
        trimmed(without_cr(s)) == trimmed(s),
{
    if s.len() > 0 && s.last() == '\r' {
        let t = s.drop_last();
        let n = s.len() - 1;
        lemma_ink_end_before(s, n);
        lemma_ink_end(t, n);
        assert(ink_end(s, n + 1) == ink_end(s, n));
        assert(trimmed_end(t) =~= trimmed_end(s));
    }
}

/// The lines of `s`.
pub fn lines(s: &str) -> (r: Vec<String>)
    ensures
        texts(r@) == lines_of(s@),
{
    let parts = split(s, '\n');
    let mut out: Vec<String> = Vec::new();
    let mut i: usize = 0;
    while i < parts.len()
        invariant
            i <= parts.len(),
            texts(parts@) == split_on(s@, '\n'),
            texts(out@) == lines_upto(texts(parts@), i as nat),
        decreases parts.len() - i,
    {
        assert(texts(parts@)[i as int] == parts@[i as int]@);
        let x = chars(parts[i].as_str());
        if i + 1 < parts.len() {
            let n: usize = if x.len() > 0 && x[x.len() - 1] == '\r' {
                x.len() - 1
            } else {
                x.len()
            };
            let line = piece(&x, 0, n);
            assert(line@ =~= without_cr(parts@[i as int]@));
            proof {
                lemma_texts_push(out@, line);
            }
            out.push(line);
        } else if x.len() > 0 {
            let line = piece(&x, 0, x.len());
            assert(line@ =~= parts@[i as int]@);
            proof {
                lemma_texts_push(out@, line);
            }
            out.push(line);
        }
        i += 1;
    }
    out
}

// ---------------------------------------------------------------- rewriting

/// `s` with every `a` made a `b`.
pub open spec fn swapped(s: Seq<char>, a: char, b: char) -> Seq<char> {
    Seq::new(s.len(), |i: int| if s[i] == a { b } else { s[i] })
}

/// `s` with every `a` made a `b`.
pub fn swap(s: &str, a: char, b: char) -> (r: String)
    ensures
        r@ == swapped(s@, a, b),
{
    let x = chars(s);
    let mut out: String = String::new();
    let mut i: usize = 0;
    while i < x.len()
        invariant
            x@ == s@,
            i <= x.len(),
            out@ == swapped(s@, a, b).take(i as int),
        decreases x.len() - i,
    {
        let c: char = if x[i] == a {
            b
        } else {
            x[i]
        };
        out.push(c);
        i += 1;
        assert(swapped(s@, a, b).take(i - 1).push(c) =~= swapped(s@, a, b).take(i as int));
    }
    assert(swapped(s@, a, b).take(s@.len() as int) =~= swapped(s@, a, b));
    out
}

/// `s` without the first occurrence of `p`.
pub open spec fn without_first(s: Seq<char>, p: Seq<char>) -> Seq<char> {
    match find_from(s, p, 0) {
        Some(k) => s.take(k) + s.skip(k + p.len()),
        None => s,
    }
}

/// `s` without the first occurrence of `p`.
pub fn remove_first(s: &str, p: &str) -> (r: String)
    ensures
        r@ == without_first(s@, p@),
{
    let x = chars(s);
    let y = chars(p);
    match find_at(&x, &y, 0) {
        Some(k) => {
            let n: usize = y.len();
            assert(k + n <= x.len());
            let a = piece(&x, 0, k);
            let b = piece(&x, k + n, x.len());
            assert(a@ =~= s@.take(k as int));
            assert(b@ =~= s@.skip(k + p@.len()));
            cat2(a.as_str(), b.as_str())
        },
        None => s.to_string(),
    }
}

/// At most the first `limit` characters of `s`.
pub open spec fn first_chars(s: Seq<char>, limit: nat) -> Seq<char> {
    if s.len() <= limit {
        s
    } else {
        s.take(limit as int)
    }
}

/// At most the first `limit` characters of `s`.
pub fn take_chars(s: &str, limit: usize) -> (r: String)
    ensures
        r@ == first_chars(s@, limit as nat),
{
    let x = chars(s);
    if x.len() <= limit {
        s.to_string()
    } else {
        let r = piece(&x, 0, limit);
        assert(r@ =~= s@.take(limit as int));
        r
    }
}

// ------------------------------------------------------------------ numbers

/// The digit `d`.
pub open spec fn digit(d: nat) -> char {
    if d == 0 {
        '0'
    } else if d == 1 {
        '1'
    } else if d == 2 {
        '2'
    } else if d == 3 {
        '3'
    } else if d == 4 {
        '4'
    } else if d == 5 {
        '5'
    } else if d == 6 {
        '6'
    } else if d == 7 {
        '7'
    } else if d == 8 {
        '8'
    } else {
        '9'
    }
}

/// `n` written in decimal.
pub open spec fn decimal(n: nat) -> Seq<char>
    decreases n,
{
    if n < 10 {
        seq![digit(n)]
    } else {
        decimal(n / 10).push(digit(n % 10))
    }
}

/// The digit `d`.
fn digit_of(d: u64) -> (r: char)
    requires
        d < 10,
    ensures
        r == digit(d as nat),
{
    match d {
        0 => '0',
        1 => '1',
        2 => '2',
        3 => '3',
        4 => '4',
        5 => '5',
        6 => '6',
        7 => '7',
        8 => '8',
        _ => '9',
    }
}

/// `n` written in decimal.
pub fn number(n: u64) -> (r: String)
    ensures
        r@ == decimal(n as nat),
    decreases n,
{
    if n < 10 {
        let mut out: String = String::new();
        out.push(digit_of(n));
        assert(out@ =~= decimal(n as nat));
        out
    } else {
        let mut out: String = number(n / 10);
        out.push(digit_of(n % 10));
        out
    }
}

} // verus!

//! How texts are cut and put together.
use vstd::prelude::*;
use crate::text;

verus! {

/// The first of some texts stands in front of the others put together.
pub proof fn lemma_joined_front(x: Seq<char>, rest: Seq<Seq<char>>, sep: Seq<char>, n: nat)
    requires
        1 <= n <= rest.len(),
    ensures
        text::join_upto(seq![x] + rest, sep, n + 1) == x + sep + text::join_upto(rest, sep, n),
    decreases n,
{
    let all = seq![x] + rest;
    assert(all[n as int] == rest[n - 1]);
    if n == 1 {
        assert(text::join_upto(all, sep, 1) == x);
        assert(text::join_upto(all, sep, 2) =~= x + sep + rest[0]);
    } else {
        lemma_joined_front(x, rest, sep, (n - 1) as nat);
        assert(text::join_upto(all, sep, n + 1) =~= x + sep + text::join_upto(rest, sep, n));
    }
}

/// The pieces from a place on, put together, are what stands from there on.
proof fn lemma_joined_pieces(s: Seq<char>, c: char, i: int)
    requires
        0 <= i <= s.len(),
    ensures
        text::split_from(s, c, i).len() >= 1,
        text::joined(text::split_from(s, c, i), seq![c]) == s.skip(i),
    decreases s.len() - i,
{
    text::lemma_next_of(s, c, i);
    let k = text::next_of(s, c, i);
    let v = text::split_from(s, c, i);
    if k >= s.len() {
        assert(v =~= seq![s.subrange(i, s.len() as int)]);
        assert(s.subrange(i, s.len() as int) =~= s.skip(i));
    } else {
        lemma_joined_pieces(s, c, k + 1);
        let rest = text::split_from(s, c, k + 1);
        lemma_joined_front(s.subrange(i, k), rest, seq![c], rest.len());
        assert(v =~= seq![s.subrange(i, k)] + rest);
        assert(s.subrange(i, k) + seq![c] + s.skip(k + 1) =~= s.skip(i));
    }
}

/// The pieces of a text, put together with what it was cut at, are the text.
pub proof fn law_joining_undoes_splitting(s: Seq<char>, c: char)
    ensures
        text::joined(text::split_on(s, c), seq![c]) == s,
{
    lemma_joined_pieces(s, c, 0);
    assert(s.skip(0) =~= s);
}

/// A text without the character is cut into itself alone.
pub proof fn lemma_split_whole(s: Seq<char>, c: char)
    requires
        !s.contains(c),
    ensures
        text::split_on(s, c) == seq![s],
{
    assert forall|j: int| 0 <= j < s.len() implies s[j] != c by {
        assert(s.contains(s[j]));
    }
    text::lemma_next_of_at(s, c, 0, s.len() as int);
    assert(text::split_on(s, c) =~= seq![s.subrange(0, s.len() as int)]);
    assert(s.subrange(0, s.len() as int) =~= s);
}

/// Pieces without the character, put together with it, are cut into the same
/// pieces again.
pub proof fn law_splitting_undoes_joining(v: Seq<Seq<char>>, c: char, n: nat)
    requires
        1 <= n <= v.len(),
        forall|i: int| 0 <= i < n ==> !(#[trigger] v[i]).contains(c),
    ensures
        text::split_on(text::join_upto(v, seq![c], n), c) == v.take(n as int),
    decreases n,
{
    if n == 1 {
        assert(!v[0].contains(c));
        lemma_split_whole(v[0], c);
        assert(v.take(1) =~= seq![v[0]]);
    } else {
        law_splitting_undoes_joining(v, c, (n - 1) as nat);
        assert(!v[n - 1].contains(c));
        lemma_split_whole(v[n - 1], c);
        text::lemma_split_both(text::join_upto(v, seq![c], (n - 1) as nat), c, v[n - 1]);
        assert(v.take(n as int) =~= v.take(n - 1) + seq![v[n - 1]]);
    }
}

/// The lines of pieces with one more in front.
proof fn lemma_lines_front(x: Seq<char>, v: Seq<Seq<char>>, n: nat)
    requires
        n <= v.len(),
        v.len() >= 1,
    ensures
        text::lines_upto(seq![x] + v, n + 1) == seq![text::without_cr(x)] + text::lines_upto(v, n),
    decreases n,
{
    let all = seq![x] + v;
    if n == 0 {
        assert(all[0] == x);
        reveal_with_fuel(text::lines_upto, 2);
        assert(text::lines_upto(all, 1) =~= seq![text::without_cr(x)]);
        assert(text::lines_upto(all, 1) =~= seq![text::without_cr(x)] + text::lines_upto(v, 0));
    } else {
        lemma_lines_front(x, v, (n - 1) as nat);
        assert(all[n as int] == v[n - 1]);
        assert(text::lines_upto(all, n + 1) =~= seq![text::without_cr(x)] + text::lines_upto(v, n));
    }
}

/// A text's first line ends at its first line feed, with the carriage return
/// before it left out, and the other lines are those of what follows.
pub proof fn law_lines_end_at_line_feeds(line: Seq<char>, rest: Seq<char>)
    requires
        !line.contains('\n'),
    ensures
        text::lines_of(line + seq!['\n'] + rest) == seq![text::without_cr(line)]
            + text::lines_of(rest),
        line.len() > 0 ==> text::lines_of(line) == seq![line],
        text::lines_of(text::no_text()).len() == 0,
{
    text::lemma_split_both(line, '\n', rest);
    lemma_split_whole(line, '\n');
    let v = text::split_on(rest, '\n');
    text::lemma_split_first(rest, '\n');
    lemma_lines_front(line, v, v.len());
    reveal_with_fuel(text::lines_upto, 2);
    if line.len() > 0 {
        assert(text::lines_of(line) =~= seq![line]);
    }
    lemma_split_whole(text::no_text(), '\n');
}

/// The next word starts behind the spaces.
proof fn lemma_word_from_at(s: Seq<char>, i: int, m: int)
    requires
        0 <= i <= m <= s.len(),
        forall|k: int| i <= k < m ==> text::is_space(#[trigger] s[k]),
        m == s.len() || !text::is_space(s[m]),
    ensures
        text::word_from(s, i) == m,
    decreases m - i,
{
    if i < m {
        assert(text::is_space(s[i]));
        lemma_word_from_at(s, i + 1, m);
    }
}

/// A word ends before the next space.
proof fn lemma_space_from_at(s: Seq<char>, i: int, m: int)
    requires
        0 <= i <= m <= s.len(),
        forall|k: int| i <= k < m ==> !text::is_space(#[trigger] s[k]),
        m == s.len() || text::is_space(s[m]),
    ensures
        text::space_from(s, i) == m,
    decreases m - i,
{
    if i < m {
        assert(!text::is_space(s[i]));
        lemma_space_from_at(s, i + 1, m);
    }
}

/// The words do not depend on what stands before the place they are read from.
proof fn lemma_words_moved(front: Seq<char>, s: Seq<char>, i: int)
    requires
        0 <= i <= s.len(),
    ensures
        text::words_from(front + s, front.len() + i) == text::words_from(s, i),
    decreases s.len() - i,
{
    let w = front + s;
    let n = front.len() as int;
    lemma_word_from_moved(front, s, i);
    lemma_word_from_in(s, i);
    let a = text::word_from(s, i);
    lemma_space_from_moved(front, s, a);
    lemma_space_from_in(s, a);
    let b = text::space_from(s, a);
    if a < s.len() && b > a {
        lemma_words_moved(front, s, b);
        assert(w.subrange(n + a, n + b) =~= s.subrange(a, b));
    }
}

/// The next word is within the text.
proof fn lemma_word_from_in(s: Seq<char>, i: int)
    requires
        0 <= i <= s.len(),
    ensures
        i <= text::word_from(s, i) <= s.len(),
    decreases s.len() - i,
{
    if i < s.len() && text::is_space(s[i]) {
        lemma_word_from_in(s, i + 1);
    }
}

/// The next space is within the text.
proof fn lemma_space_from_in(s: Seq<char>, i: int)
    requires
        0 <= i <= s.len(),
    ensures
        i <= text::space_from(s, i) <= s.len(),
    decreases s.len() - i,
{
    if i < s.len() && !text::is_space(s[i]) {
        lemma_space_from_in(s, i + 1);
    }
}

/// The next word is found where it is, moved.
proof fn lemma_word_from_moved(front: Seq<char>, s: Seq<char>, i: int)
    requires
        0 <= i <= s.len(),
    ensures
        text::word_from(front + s, front.len() + i) == front.len() + text::word_from(s, i),
    decreases s.len() - i,
{
    if i < s.len() {
        assert((front + s)[front.len() + i] == s[i]);
        if text::is_space(s[i]) {
            lemma_word_from_moved(front, s, i + 1);
        }
    }
}

/// The next space is found where it is, moved.
proof fn lemma_space_from_moved(front: Seq<char>, s: Seq<char>, i: int)
    requires
        0 <= i <= s.len(),
    ensures
        text::space_from(front + s, front.len() + i) == front.len() + text::space_from(s, i),
    decreases s.len() - i,
{
    if i < s.len() {
        assert((front + s)[front.len() + i] == s[i]);
        if !text::is_space(s[i]) {
            lemma_space_from_moved(front, s, i + 1);
        }
    }
}

/// The words of a text are what stands between its spaces: the first is what
/// stands before the first space, and the others are those of what follows.
pub proof fn law_words_stand_between_spaces(word: Seq<char>, space: char, rest: Seq<char>)
    requires
        word.len() > 0,
        forall|k: int| 0 <= k < word.len() ==> !text::is_space(#[trigger] word[k]),
        text::is_space(space),
    ensures
        text::words(word + seq![space] + rest) == seq![word] + text::words(rest),
        text::words(seq![space] + rest) == text::words(rest),
        text::words(word) == seq![word],
{
    let s = word + seq![space] + rest;
    let n = word.len() as int;
    assert forall|k: int| 0 <= k < n implies !text::is_space(#[trigger] s[k]) by {
        assert(s[k] == word[k]);
    }
    assert(s[n] == space);
    lemma_word_from_at(s, 0, 0);
    lemma_space_from_at(s, 0, n);
    assert(s.subrange(0, n) =~= word);
    assert(s.len() > n);
    // behind the word stands the space, and behind it the rest
    lemma_words_moved(word, seq![space] + rest, 0);
    assert(word + (seq![space] + rest) =~= s);
    lemma_words_past_space(space, rest);
    lemma_word_from_at(word, 0, 0);
    lemma_space_from_at(word, 0, n);
    assert(word.subrange(0, n) =~= word);
    lemma_word_from_at(word, n, n);
    assert(text::words_from(word, n) =~= Seq::<Seq<char>>::empty());
    assert(text::words(word) =~= seq![word]);
}

/// A space in front adds no word.
proof fn lemma_words_past_space(space: char, rest: Seq<char>)
    requires
        text::is_space(space),
    ensures
        text::words_from(seq![space] + rest, 0) == text::words_from(rest, 0),
{
    let s = seq![space] + rest;
    assert(s[0] == space);
    assert(text::word_from(s, 0) == text::word_from(s, 1));
    lemma_words_moved(seq![space], rest, 0);
    lemma_word_from_in(s, 1);
    assert(text::words_from(s, 0) == text::words_from(s, 1));
}

/// A text on one line has one blank between its words, however far apart they
/// were, and none at its ends.
pub proof fn law_one_blank_between_words(word: Seq<char>, space: char, rest: Seq<char>)
    requires
        word.len() > 0,
        forall|k: int| 0 <= k < word.len() ==> !text::is_space(#[trigger] word[k]),
        text::is_space(space),
        text::words(rest).len() > 0,
    ensures
        text::collapsed(word + seq![space] + rest) == word + seq![' '] + text::collapsed(rest),
        text::collapsed(seq![space] + rest) == text::collapsed(rest),
        text::collapsed(word) == word,
{
    law_words_stand_between_spaces(word, space, rest);
    let v = text::words(rest);
    lemma_joined_front(word, v, " "@, v.len());
    reveal_strlit(" ");
    assert(" "@ =~= seq![' ']);
}

} // verus!

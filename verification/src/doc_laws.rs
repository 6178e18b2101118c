//! What a declaration says of itself, said of the comments and strings that a
//! source holds.
use vstd::prelude::*;
use crate::tree;
use crate::text;
use crate::docs;
use crate::engine;
use crate::names;
use crate::engine::Reach;
use crate::langs::{LangText, SigStyle};
use crate::tree::NodeText;

verus! {

/// A string between three quotes says what stands between them.
pub proof fn law_a_long_string_says_what_it_quotes(quote: char, body: Seq<char>)
    requires
        quote == '"' || quote == '\'',
    ensures
        docs::literal_text(
            seq![quote, quote, quote] + body + seq![quote, quote, quote],
        ) == body,
{
    let q = seq![quote, quote, quote];
    let raw = q + body + q;
    reveal_strlit("rRbBuUfF");
    reveal_strlit("\"\"\"");
    reveal_strlit("'''");
    assert("\"\"\""@ =~= seq!['"', '"', '"']);
    assert("'''"@ =~= seq!['\'', '\'', '\'']);
    assert(raw[0] == quote);
    assert(!"rRbBuUfF"@.contains(quote));
    assert(text::out_from(raw, "rRbBuUfF"@, 0) == 0);
    assert(raw.skip(0) =~= raw);
    assert(raw.take(3) =~= q);
    assert(raw.skip(raw.len() - 3) =~= q);
    assert(raw.subrange(3, raw.len() - 3) =~= body);
    let marks = seq!["\"\"\""@, "'''"@, "\""@, "'"@];
    if quote == '\'' {
        assert(!docs::quoted_by(raw, marks[0])) by {
            if docs::quoted_by(raw, marks[0]) {
                assert(raw.take(3)[0] == raw[0]);
            }
        }
        assert(docs::unquoted_by(raw, marks, 0) == docs::unquoted_by(raw, marks, 1));
        assert(docs::quoted_by(raw, marks[1]));
        assert(docs::unquoted_by(raw, marks, 1) == body);
    } else {
        assert(docs::quoted_by(raw, marks[0]));
        assert(docs::unquoted_by(raw, marks, 0) == body);
    }
}

/// A function or class of a Python file is documented by the string that its
/// body starts with; one whose body starts with something else is not.
pub proof fn law_a_docstring_documents(
    t: Seq<NodeText>,
    s: Seq<char>,
    i: int,
    l: LangText,
    body: int,
    quote: char,
    words: Seq<char>,
)
    requires
        l.name == "python"@,
        tree::field(t, names::unwrapped(t, i, l.names), "body"@) == Some(body),
        tree::named_kids(t, body).len() > 0,
        t[tree::named_kids(t, body)[0]].kind != "comment"@,
    ensures
        ({
            let first = tree::named_kids(t, body)[0];
            let inner = tree::named_kids(t, first);
            &&& t[first].kind != "expression_statement"@ ==> docs::declaration_doc(
                t,
                s,
                i,
                l,
            ).len() == 0
            &&& t[first].kind == "expression_statement"@ && inner.len() > 0 && t[inner[0]].kind
                == "string"@ && (quote == '"' || quote == '\'') && tree::node_text(s, t[inner[0]])
                == seq![quote, quote, quote] + words + seq![quote, quote, quote]
                ==> docs::declaration_doc(t, s, i, l) == docs::cleaned(words)
        }),
{
    let list = tree::named_kids(t, body);
    let want = |k: Seq<char>| k != "comment"@;
    assert(tree::first_from(t, list, want, 0) == Some(list[0]));
    if quote == '"' || quote == '\'' {
        law_a_long_string_says_what_it_quotes(quote, words);
    }
}

/// A line of comment says its words, without the mark before them.
pub proof fn law_a_comment_line_says_its_words(words: Seq<char>)
    requires
        words.len() > 0,
        !text::is_white(words[0]) && !text::is_white(words.last()),
        words.last() != '/',
    ensures
        docs::comment_line(seq!['/', '/', ' '] + words) == words,
        docs::comment_line(seq!['#', ' '] + words) == words,
{
    let none = text::no_text();
    reveal_strlit("/**");
    reveal_strlit("/*!");
    reveal_strlit("/*");
    reveal_strlit("*/");
    reveal_strlit("///");
    reveal_strlit("//!");
    reveal_strlit("//");
    reveal_strlit("*");
    reveal_strlit("#");
    let opens = seq!["/**"@, "/*!"@, "/*"@];
    let marks = seq!["///"@, "//!"@, "//"@, "*"@, "#"@];
    assert(text::is_white(' '));
    text::law_trimming_takes_the_margins(seq![' '], words, none);
    assert(seq![' '] + words + none =~= seq![' '] + words);
    reveal_with_fuel(docs::unmarked, 6);
    // two slashes
    let a = seq!['/', '/', ' '] + words;
    assert(a.last() == words.last());
    text::law_trimming_takes_the_margins(none, a, none);
    assert(none + a + none =~= a);
    lemma_no_prefix(a, opens[0], 1);
    lemma_no_prefix(a, opens[1], 1);
    lemma_no_prefix(a, opens[2], 1);
    assert(docs::unmarked(a, opens, 0) == a);
    lemma_no_close(a);
    lemma_no_prefix(a, marks[0], 2);
    lemma_no_prefix(a, marks[1], 2);
    assert(a.take(2) =~= "//"@);
    assert(a.skip(2) =~= seq![' '] + words);
    assert(docs::unmarked(a, marks, 0) == a.skip(2));
    // a hash
    let b = seq!['#', ' '] + words;
    assert(b.last() == words.last());
    text::law_trimming_takes_the_margins(none, b, none);
    assert(none + b + none =~= b);
    lemma_no_prefix(b, opens[0], 0);
    lemma_no_prefix(b, opens[1], 0);
    lemma_no_prefix(b, opens[2], 0);
    assert(docs::unmarked(b, opens, 0) == b);
    lemma_no_close(b);
    lemma_no_prefix(b, marks[0], 0);
    lemma_no_prefix(b, marks[1], 0);
    lemma_no_prefix(b, marks[2], 0);
    lemma_no_prefix(b, marks[3], 0);
    assert(b.take(1) =~= "#"@);
    assert(b.skip(1) =~= seq![' '] + words);
    assert(docs::unmarked(b, marks, 0) == b.skip(1));
}

/// A text with another character at a place does not start so.
proof fn lemma_no_prefix(s: Seq<char>, p: Seq<char>, k: int)
    requires
        0 <= k < p.len(),
        k < s.len(),
        s[k] != p[k],
    ensures
        text::without_prefix(s, p) is None,
{
    if text::has_prefix(s, p) {
        assert(s.take(p.len() as int)[k] == s[k]);
    }
}

/// A text that ends in something else does not end a block of comment.
proof fn lemma_no_close(s: Seq<char>)
    requires
        s.len() > 0,
        s.last() != '/',
    ensures
        text::without_suffix(s, "*/"@) is None,
{
    reveal_strlit("*/");
    if text::has_suffix(s, "*/"@) {
        assert(s.skip(s.len() - 2)[1] == s.last());
    }
}

/// A declaration in another language is documented by the comments that end
/// right above it, and by none where a line is empty between them.
pub proof fn law_comments_right_above_document(
    t: Seq<NodeText>,
    s: Seq<char>,
    i: int,
    at: int,
    row: nat,
)
    requires
        0 <= at,
        t[at].kind == "comment"@ || t[at].kind == "line_comment"@,
        tree::prev_sibling(t, at) is None,
    ensures
        docs::last_row(t[at]) + 1 == row ==> docs::comments_above(t, s, Some(at), row) == seq![
            tree::node_text(s, t[at]),
        ],
        docs::last_row(t[at]) + 1 != row ==> docs::comments_above(t, s, Some(at), row).len() == 0,
{
    reveal_with_fuel(docs::comments_above, 3);
    if docs::last_row(t[at]) + 1 == row {
        assert(docs::comments_above(t, s, None, t[at].start_row) =~= Seq::<Seq<char>>::empty());
        assert(docs::comments_above(t, s, Some(at), row) =~= seq![tree::node_text(s, t[at])]);
    }
}

/// Documentation ends before the first line that starts with a tag.
pub proof fn law_documentation_ends_at_a_tag(lines: Seq<Seq<char>>, k: nat)
    requires
        k < lines.len(),
        text::trimmed(lines[k as int]).len() > 0,
    ensures
        text::trimmed(lines[k as int])[0] == '@' ==> docs::telling_from(lines, k).len() == 0,
        text::trimmed(lines[k as int])[0] != '@' ==> docs::telling_from(lines, k) == seq![
            text::trimmed(lines[k as int]),
        ] + docs::telling_from(lines, k + 1),
{
}

/// A declaration spans the lines, counted from one, from the one it starts on
/// to the last one it is on.
pub proof fn law_a_symbol_spans_its_lines(
    t: Seq<NodeText>,
    s: Seq<char>,
    l: LangText,
    r: Reach,
    d: (Seq<char>, int, Seq<char>),
)
    requires
        t[d.1].start_row + 1 < 0x1_0000_0000,
        t[d.1].end_row + 1 < 0x1_0000_0000,
        t[d.1].end_column > 0,
    ensures
        engine::symbol(t, s, l, r, d).span == (t[d.1].start_row + 1, t[d.1].end_row + 1),
        engine::symbol(t, s, l, r, d).hash == engine::sha256_hex(tree::node_text(s, t[d.1])),
{
}

/// A Python declaration reads as its head on one line, without the colon.
pub proof fn law_a_python_head_reads_without_its_colon(
    t: Seq<NodeText>,
    s: Seq<char>,
    i: int,
    l: LangText,
    body: int,
    head: Seq<char>,
)
    requires
        l.sig == SigStyle::Python,
        tree::field(t, names::unwrapped(t, i, l.names), "body"@) == Some(body),
        text::collapsed(
            tree::text_between(s, t[names::unwrapped(t, i, l.names)].start, t[body].start),
        ) == head + seq![':'],
        head.len() > 0,
        head.last() != ':',
        !text::is_white(head[0]) && !text::is_white(head.last()),
    ensures
        names::signature(t, s, i, l) == head,
{
    let line = head + seq![':'];
    let n = line.len() as int;
    let none = text::no_text();
    reveal_strlit(":");
    assert(":"@[0] == ':');
    assert(":"@.contains(line[n - 1]));
    assert(line[n - 2] == head.last());
    assert(!":"@.contains(line[n - 2]));
    assert(text::out_end(line, ":"@, n) == text::out_end(line, ":"@, n - 1));
    assert(text::out_end(line, ":"@, n - 1) == n - 1);
    assert(text::shed_end(line, ":"@) =~= head);
    text::law_trimming_takes_the_margins(none, head, none);
    assert(none + head + none =~= head);
}

} // verus!

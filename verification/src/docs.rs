//! Documentation: what a declaration or a file says about itself.
use vstd::prelude::*;
use crate::tree;
use crate::text;
use crate::names;
use crate::langs;
use crate::kinds;
use crate::langs::{LangSpec, LangText};
use crate::tree::{NodeText, Source, SyntaxTree};

verus! {

// ------------------------------------------------------------- the wording

/// The lines of a text that document something, from the `k`th on: no blank
/// ones, and none from the first tag (`@param`) on.
pub open spec fn telling_from(lines: Seq<Seq<char>>, k: nat) -> Seq<Seq<char>>
    decreases lines.len() - k,
{
    if k >= lines.len() {
        Seq::empty()
    } else {
        let line = text::trimmed(lines[k as int]);
        if line.len() == 0 {
            telling_from(lines, k + 1)
        } else if line[0] == '@' {
            Seq::empty()
        } else {
            seq![line] + telling_from(lines, k + 1)
        }
    }
}

/// Documentation up to its first tag line, on one line, capped.
pub open spec fn cleaned(raw: Seq<char>) -> Seq<char> {
    text::first_chars(text::collapsed(text::joined(telling_from(text::lines_of(raw), 0), " "@)), 600)
}

/// Documentation up to its first tag line, on one line, capped.
pub fn clean_doc(raw: &str) -> (r: String)
    ensures
        r@ == cleaned(raw@),
{
    let all = text::lines(raw);
    let ghost whole = telling_from(text::texts(all@), 0);
    let mut out: Vec<String> = Vec::new();
    let mut k: usize = 0;
    let mut stop = false;
    assert(text::texts(out@) =~= Seq::<Seq<char>>::empty());
    assert(whole =~= text::texts(out@) + whole);
    while k < all.len() && !stop
        invariant
            k <= all.len(),
            text::texts(all@) == text::lines_of(raw@),
            whole == telling_from(text::lines_of(raw@), 0),
            !stop ==> whole == text::texts(out@) + telling_from(text::texts(all@), k as nat),
            stop ==> whole == text::texts(out@),
        decreases all.len() - k, (if stop { 0int } else { 1int }),
    {
        assert(text::texts(all@)[k as int] == all@[k as int]@);
        let line = text::trim(all[k].as_str());
        let cs = text::chars(line.as_str());
        if cs.len() == 0 {
            k += 1;
        } else if cs[0] == '@' {
            stop = true;
            assert(whole =~= text::texts(out@));
        } else {
            let ghost before = text::texts(out@);
            let ghost rest = telling_from(text::texts(all@), (k + 1) as nat);
            proof {
                text::lemma_texts_push(out@, line);
            }
            out.push(line);
            assert(before + (seq![line@] + rest) =~= text::texts(out@) + rest);
            k += 1;
        }
    }
    assert(whole =~= text::texts(out@));
    let line = text::join(&out, " ");
    let line = text::collapse(line.as_str());
    text::take_chars(line.as_str(), 600)
}

/// A text without the first of the marks, from the `k`th on, that it starts
/// with.
pub open spec fn unmarked(s: Seq<char>, marks: Seq<Seq<char>>, k: nat) -> Seq<char>
    decreases marks.len() - k,
{
    if k >= marks.len() {
        s
    } else {
        match text::without_prefix(s, marks[k as int]) {
            Some(rest) => rest,
            None => unmarked(s, marks, k + 1),
        }
    }
}

/// A text without the first of the marks that it starts with.
fn unmark(s: &str, marks: Vec<&'static str>) -> (r: String)
    ensures
        r@ == unmarked(s@, langs::strs(marks@), 0),
{
    let mut k: usize = 0;
    while k < marks.len()
        invariant
            k <= marks.len(),
            unmarked(s@, langs::strs(marks@), 0) == unmarked(s@, langs::strs(marks@), k as nat),
        decreases marks.len() - k,
    {
        assert(langs::strs(marks@)[k as int] == marks@[k as int]@);
        match text::strip_prefix(s, marks[k]) {
            Some(rest) => {
                return rest;
            },
            None => {},
        }
        k += 1;
    }
    s.to_string()
}

/// The words of a line of comment, without what marks it as one.
pub open spec fn comment_line(line: Seq<char>) -> Seq<char> {
    let opened = unmarked(text::trimmed(line), seq!["/**"@, "/*!"@, "/*"@], 0);
    let closed = match text::without_suffix(opened, "*/"@) {
        Some(rest) => rest,
        None => opened,
    };
    text::trimmed(unmarked(text::trimmed(closed), seq!["///"@, "//!"@, "//"@, "*"@, "#"@], 0))
}

/// The words of a line of comment, without what marks it as one.
fn comment_words(line: &str) -> (r: String)
    ensures
        r@ == comment_line(line@),
{
    let opens = vec!["/**", "/*!", "/*"];
    let marks = vec!["///", "//!", "//", "*", "#"];
    assert(langs::strs(opens@) =~= seq!["/**"@, "/*!"@, "/*"@]);
    assert(langs::strs(marks@) =~= seq!["///"@, "//!"@, "//"@, "*"@, "#"@]);
    let bare = text::trim(line);
    let opened = unmark(bare.as_str(), opens);
    let closed = match text::strip_suffix(opened.as_str(), "*/") {
        Some(rest) => rest,
        None => opened,
    };
    let inner = text::trim(closed.as_str());
    let words = unmark(inner.as_str(), marks);
    text::trim(words.as_str())
}

/// The words of the first `n` lines of a comment.
pub open spec fn comment_lines(lines: Seq<Seq<char>>, n: nat) -> Seq<Seq<char>>
    decreases n,
{
    if n == 0 {
        Seq::empty()
    } else {
        comment_lines(lines, (n - 1) as nat).push(comment_line(lines[n - 1]))
    }
}

/// The words of the first `n` comments, line by line.
pub open spec fn words_of(chunks: Seq<Seq<char>>, n: nat) -> Seq<Seq<char>>
    decreases n,
{
    if n == 0 {
        Seq::empty()
    } else {
        words_of(chunks, (n - 1) as nat) + comment_lines(
            text::lines_of(chunks[n - 1]),
            text::lines_of(chunks[n - 1]).len(),
        )
    }
}

/// What a run of comments says.
pub open spec fn comment_text(chunks: Seq<Seq<char>>) -> Seq<char> {
    text::joined(words_of(chunks, chunks.len()), "\n"@)
}

/// The words of the lines of a comment.
fn lines_in(chunk: &str) -> (r: Vec<String>)
    ensures
        text::texts(r@) == comment_lines(text::lines_of(chunk@), text::lines_of(chunk@).len()),
{
    let all = text::lines(chunk);
    let mut out: Vec<String> = Vec::new();
    let mut k: usize = 0;
    assert(text::texts(out@) =~= Seq::<Seq<char>>::empty());
    while k < all.len()
        invariant
            k <= all.len(),
            text::texts(all@) == text::lines_of(chunk@),
            text::texts(out@) == comment_lines(text::lines_of(chunk@), k as nat),
        decreases all.len() - k,
    {
        assert(text::texts(all@)[k as int] == all@[k as int]@);
        let words = comment_words(all[k].as_str());
        proof {
            text::lemma_texts_push(out@, words);
        }
        out.push(words);
        k += 1;
    }
    assert(text::texts(all@).len() == all@.len());
    out
}

/// What a run of comments says.
pub fn strip_comment_markers(chunks: &Vec<String>) -> (r: String)
    ensures
        r@ == comment_text(text::texts(chunks@)),
{
    let mut out: Vec<String> = Vec::new();
    let mut k: usize = 0;
    assert(text::texts(out@) =~= Seq::<Seq<char>>::empty());
    while k < chunks.len()
        invariant
            k <= chunks.len(),
            text::texts(out@) == words_of(text::texts(chunks@), k as nat),
        decreases chunks.len() - k,
    {
        assert(text::texts(chunks@)[k as int] == chunks@[k as int]@);
        let mut more = lines_in(chunks[k].as_str());
        let ghost before = out@;
        let ghost added = more@;
        out.append(&mut more);
        assert(text::texts(out@) =~= text::texts(before) + text::texts(added));
        k += 1;
    }
    text::join(&out, "\n")
}

/// Does the quote stand on both sides of the text?
pub open spec fn quoted_by(s: Seq<char>, q: Seq<char>) -> bool {
    s.len() >= 2 * q.len() && text::has_prefix(s, q) && text::has_suffix(s, q)
}

/// A text without the first of the quotes, from the `k`th on, that stands on
/// both sides of it.
pub open spec fn unquoted_by(s: Seq<char>, marks: Seq<Seq<char>>, k: nat) -> Seq<char>
    decreases marks.len() - k,
{
    if k >= marks.len() {
        s
    } else if quoted_by(s, marks[k as int]) {
        s.subrange(marks[k as int].len() as int, s.len() - marks[k as int].len())
    } else {
        unquoted_by(s, marks, k + 1)
    }
}

/// What a string literal says.
pub open spec fn literal_text(raw: Seq<char>) -> Seq<char> {
    unquoted_by(text::shed_start(raw, "rRbBuUfF"@), seq!["\"\"\""@, "'''"@, "\""@, "'"@], 0)
}

/// What a string literal says.
pub fn strip_string_quotes(raw: &str) -> (r: String)
    ensures
        r@ == literal_text(raw@),
{
    let body = text::trim_start_set(raw, "rRbBuUfF");
    let marks = vec!["\"\"\"", "'''", "\"", "'"];
    let ghost all = seq!["\"\"\""@, "'''"@, "\""@, "'"@];
    assert(langs::strs(marks@) =~= all);
    let cs = text::chars(body.as_str());
    let mut k: usize = 0;
    while k < marks.len()
        invariant
            k <= marks.len(),
            cs@ == body@,
            body@ == text::shed_start(raw@, "rRbBuUfF"@),
            literal_text(raw@) == unquoted_by(body@, all, 0),
            langs::strs(marks@) == all,
            unquoted_by(body@, all, 0) == unquoted_by(body@, all, k as nat),
        decreases marks.len() - k,
    {
        assert(langs::strs(marks@)[k as int] == marks@[k as int]@);
        let n = text::chars(marks[k]).len();
        if cs.len() / 2 >= n && text::starts_with(body.as_str(), marks[k]) && text::ends_with(
            body.as_str(),
            marks[k],
        ) {
            return text::piece(&cs, n, cs.len() - n);
        }
        k += 1;
    }
    body
}

// --------------------------------------------------------------- docstrings

/// A Python docstring: the first statement of a body, where it is a bare
/// string.
pub open spec fn docstring(t: Seq<NodeText>, s: Seq<char>, body: int) -> Option<Seq<char>> {
    match tree::first_kid(t, body, |k: Seq<char>| k != "comment"@) {
        Some(first) => if t[first].kind == "expression_statement"@ && tree::named_kids(t, first).len()
            > 0 && t[tree::named_kids(t, first)[0]].kind == "string"@ {
            Some(cleaned(literal_text(tree::node_text(s, t[tree::named_kids(t, first)[0]]))))
        } else {
            None
        },
        None => None,
    }
}

/// Is this another kind than a comment's?
fn is_no_comment(k: &str) -> (r: bool)
    ensures
        r == (k@ != "comment"@),
{
    !text::same(k, "comment")
}

/// A Python docstring: the first statement of a body, where it is a bare
/// string.
pub fn docstring_in(t: &SyntaxTree, src: &Source, body: usize) -> (r: Option<String>)
    requires
        body < t@.len(),
        src.valid(),
    ensures
        text::opt_text(r) == docstring(t@, src@, body as int),
{
    match t.first_kid(body, is_no_comment, Ghost(|k: Seq<char>| k != "comment"@)) {
        None => None,
        Some(first) => {
            if !text::same(t.nodes[first].kind, "expression_statement") {
                return None;
            }
            let list = t.named_children(first);
            let ghost all = tree::named_kids(t@, first as int);
            assert(all.len() == list@.len());
            if list.len() == 0 {
                return None;
            }
            assert(all[0] == list@[0]);
            if !text::same(t.nodes[list[0]].kind, "string") {
                return None;
            }
            let raw = t.text(list[0], src);
            let words = strip_string_quotes(raw.as_str());
            Some(clean_doc(words.as_str()))
        },
    }
}

/// The text, or none.
pub open spec fn or_nothing(o: Option<Seq<char>>) -> Seq<char> {
    match o {
        Some(s) => s,
        None => text::no_text(),
    }
}

// ----------------------------------------------------------------- comments

/// The last row that a node is on: one that ends before the first column of a
/// row is not on that row.
pub open spec fn last_row(n: NodeText) -> nat {
    if n.end_column == 0 && n.end_row > n.start_row {
        (n.end_row - 1) as nat
    } else {
        n.end_row
    }
}

/// The last row that a node is on.
pub fn end_row(t: &SyntaxTree, i: usize) -> (r: u32)
    requires
        i < t@.len(),
    ensures
        r == last_row(t@[i as int]),
{
    let n = &t.nodes[i];
    if n.end_column == 0 && n.end_row > n.start_row {
        n.end_row - 1
    } else {
        n.end_row
    }
}

/// Is the node a comment of its own that ends right above the row?
pub open spec fn comment_above(t: Seq<NodeText>, i: int, row: nat) -> bool {
    &&& kinds::comment_kind(t[i].kind)
    &&& last_row(t[i]) + 1 == row
    &&& match tree::prev_sibling(t, i) {
        // a comment trailing the previous statement is that statement's
        Some(b) => last_row(t[b]) != t[i].start_row,
        None => true,
    }
}

/// The comments that stand right above a row without a gap, top down, the
/// lowest of them at `at`.
pub open spec fn comments_above(t: Seq<NodeText>, s: Seq<char>, at: Option<int>, row: nat) -> Seq<
    Seq<char>,
>
    decreases
            match at {
                Some(i) => i + 1,
                None => 0,
            },
{
    match at {
        None => Seq::empty(),
        Some(i) => if i >= 0 && comment_above(t, i, row) {
            let next = tree::prev_sibling(t, i);
            if next is Some && !(0 <= next->0 < i) {
                Seq::empty()
            } else {
                comments_above(t, s, next, t[i].start_row).push(tree::node_text(s, t[i]))
            }
        } else {
            Seq::empty()
        },
    }
}

/// What a declaration says about itself: its docstring in Python, elsewhere
/// the comments right above it.
pub open spec fn declaration_doc(t: Seq<NodeText>, s: Seq<char>, i: int, l: LangText) -> Seq<char> {
    if l.name == "python"@ {
        match tree::field(t, names::unwrapped(t, i, l.names), "body"@) {
            Some(body) => or_nothing(docstring(t, s, body)),
            None => text::no_text(),
        }
    } else {
        cleaned(comment_text(comments_above(t, s, tree::prev_sibling(t, i), t[i].start_row)))
    }
}

/// Is the node a comment of its own that ends right above the row?
fn is_comment_above(t: &SyntaxTree, i: usize, row: u32) -> (r: bool)
    requires
        i < t@.len(),
    ensures
        r == comment_above(t@, i as int, row as nat),
{
    if !kinds::is_comment_kind(t.nodes[i].kind) || end_row(t, i) as u64 + 1 != row as u64 {
        return false;
    }
    match t.prev_sibling(i) {
        Some(b) => end_row(t, b) != t.nodes[i].start_row,
        None => true,
    }
}

/// What a declaration says about itself.
pub fn doc_of(t: &SyntaxTree, src: &Source, i: usize, spec: &LangSpec) -> (r: String)
    requires
        i < t@.len(),
        src.valid(),
    ensures
        r@ == declaration_doc(t@, src@, i as int, spec@),
{
    if text::same(spec.name, "python") {
        let inner = names::unwrap(t, i, spec);
        return match t.field(inner, "body") {
            Some(body) => match docstring_in(t, src, body) {
                Some(doc) => doc,
                None => String::new(),
            },
            None => String::new(),
        };
    }
    let mut chunks: Vec<String> = Vec::new();
    let mut row = t.nodes[i].start_row;
    let mut at = t.prev_sibling(i);
    let ghost whole = comments_above(t@, src@, tree::prev_sibling(t@, i as int), row as nat);
    let mut going = true;
    assert(text::texts(chunks@) =~= Seq::<Seq<char>>::empty());
    assert(whole + text::texts(chunks@) =~= whole);
    while going
        invariant
            src.valid(),
            at is Some ==> at->0 < t@.len(),
            going ==> whole == comments_above(t@, src@, tree::opt_int(at), row as nat) + text::texts(chunks@),
            !going ==> whole == text::texts(chunks@),
        decreases
                (if going { 1int } else { 0int }),
                match at {
                    Some(k) => k + 1,
                    None => 0,
                },
    {
        match at {
            None => {
                assert(Seq::<Seq<char>>::empty() + text::texts(chunks@) =~= text::texts(chunks@));
                going = false;
            },
            Some(k) => {
                if is_comment_above(t, k, row) {
                    let words = t.text(k, src);
                    let ghost above = comments_above(
                        t@,
                        src@,
                        tree::prev_sibling(t@, k as int),
                        t@[k as int].start_row,
                    );
                    let ghost before = text::texts(chunks@);
                    chunks.insert(0, words);
                    assert(text::texts(chunks@) =~= seq![words@] + before);
                    assert(above.push(words@) + before =~= above + (seq![words@] + before));
                    row = t.nodes[k].start_row;
                    at = t.prev_sibling(k);
                } else {
                    assert(Seq::<Seq<char>>::empty() + text::texts(chunks@) =~= text::texts(chunks@));
                    going = false;
                }
            },
        }
    }
    let words = strip_comment_markers(&chunks);
    clean_doc(words.as_str())
}

// ------------------------------------------------------------------ a file

/// Up to where the nodes from the `k`th on are comments without a gap.
pub open spec fn header_end(t: Seq<NodeText>, list: Seq<int>, k: nat) -> nat
    decreases list.len() - k,
{
    if k >= list.len() || !kinds::comment_kind(t[list[k as int]].kind) || (k > 0
        && t[list[k as int]].start_row > last_row(t[list[k - 1]]) + 1) {
        k
    } else {
        header_end(t, list, k + 1)
    }
}

/// The texts of the first `n` nodes.
pub open spec fn node_texts_upto(t: Seq<NodeText>, s: Seq<char>, list: Seq<int>, n: nat) -> Seq<
    Seq<char>,
>
    decreases n,
{
    if n == 0 {
        Seq::empty()
    } else {
        node_texts_upto(t, s, list, (n - 1) as nat).push(tree::node_text(s, t[list[n - 1]]))
    }
}

/// Does a header that ends on `row` document the node behind it instead of
/// the file?
pub open spec fn touches(t: Seq<NodeText>, i: int, row: nat) -> bool {
    &&& !kinds::comment_kind(t[i].kind)
    &&& t[i].kind != "package_clause"@
    &&& t[i].start_row == row + 1
}

/// What a file says about itself: its docstring in Python, elsewhere the
/// comments at its top, where a blank line parts them from the first node.
pub open spec fn file_doc(t: Seq<NodeText>, s: Seq<char>, l: LangText) -> Seq<char> {
    let list = tree::named_kids(t, 0);
    let n = header_end(t, list, 0);
    if l.name == "python"@ {
        or_nothing(docstring(t, s, 0))
    } else if n == 0 {
        text::no_text()
    } else if n < list.len() && touches(t, list[n as int], last_row(t[list[n - 1]])) {
        text::no_text()
    } else {
        cleaned(comment_text(node_texts_upto(t, s, list, n)))
    }
}

/// What a file says about itself.
pub fn module_doc_of(t: &SyntaxTree, src: &Source, spec: &LangSpec) -> (r: String)
    requires
        t@.len() > 0,
        src.valid(),
    ensures
        r@ == file_doc(t@, src@, spec@),
{
    if text::same(spec.name, "python") {
        return match docstring_in(t, src, 0) {
            Some(doc) => doc,
            None => String::new(),
        };
    }
    let list = t.named_children(0);
    let ghost all = tree::named_kids(t@, 0);
    let mut chunks: Vec<String> = Vec::new();
    let mut n: usize = 0;
    let mut going = true;
    assert(text::texts(chunks@) =~= Seq::<Seq<char>>::empty());
    while going && n < list.len()
        invariant
            n <= list.len(),
            src.valid(),
            tree::ints(list@) == all,
            forall|a: int| 0 <= a < list@.len() ==> #[trigger] list@[a] < t@.len(),
            text::texts(chunks@) == node_texts_upto(t@, src@, all, n as nat),
            going ==> header_end(t@, all, 0) == header_end(t@, all, n as nat),
            !going ==> header_end(t@, all, 0) == n,
        decreases (if going { 1int } else { 0int }), list.len() - n,
    {
        assert(all[n as int] == list@[n as int]);
        let gap = if n > 0 {
            assert(all[n - 1] == list@[n - 1]);
            t.nodes[list[n]].start_row as u64 > end_row(t, list[n - 1]) as u64 + 1
        } else {
            false
        };
        if gap || !kinds::is_comment_kind(t.nodes[list[n]].kind) {
            going = false;
        } else {
            let words = t.text(list[n], src);
            proof {
                text::lemma_texts_push(chunks@, words);
            }
            chunks.push(words);
            n += 1;
        }
    }
    assert(all.len() == list@.len());
    if n == 0 {
        return String::new();
    }
    assert(all[n - 1] == list@[n - 1]);
    if n < list.len() {
        assert(all[n as int] == list@[n as int]);
        let next = &t.nodes[list[n]];
        if !kinds::is_comment_kind(next.kind) && !text::same(next.kind, "package_clause")
            && next.start_row as u64 == end_row(t, list[n - 1]) as u64 + 1 {
            return String::new();
        }
    }
    let words = strip_comment_markers(&chunks);
    clean_doc(words.as_str())
}

/// Documentation is capped: no declaration's and no file's is longer than 600
/// characters.
pub proof fn law_docs_are_capped(t: Seq<NodeText>, s: Seq<char>, i: int, l: LangText)
    ensures
        declaration_doc(t, s, i, l).len() <= 600,
        file_doc(t, s, l).len() <= 600,
{
    assert forall|raw: Seq<char>| (#[trigger] cleaned(raw)).len() <= 600 by {}
    assert forall|body: int|
        (#[trigger] docstring(t, s, body)) is Some implies or_nothing(
        docstring(t, s, body),
    ).len() <= 600 by {}
}

} // verus!

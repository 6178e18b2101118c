//! Function bodies as text: how they are indented, and how a new one is
//! fitted in.
use vstd::prelude::*;
use crate::text;
use crate::changes::Family;

verus! {

/// Is this a blank or a tab?
pub open spec fn is_blank(c: char) -> bool {
    c == ' ' || c == '\t'
}

/// The first position from `i` on that is neither a blank nor a tab.
pub open spec fn indent_end(s: Seq<char>, i: int) -> int
    decreases s.len() - i,
{
    if i < s.len() && is_blank(s[i]) {
        indent_end(s, i + 1)
    } else {
        i
    }
}

/// The first position from `i` on that is neither a blank nor a tab.
fn find_indent_end(s: &Vec<char>, i: usize) -> (r: usize)
    requires
        i <= s.len(),
    ensures
        r == indent_end(s@, i as int),
        i <= r <= s.len(),
{
    let mut k: usize = i;
    while k < s.len() && (s[k] == ' ' || s[k] == '\t')
        invariant
            i <= k <= s.len(),
            indent_end(s@, i as int) == indent_end(s@, k as int),
        decreases s.len() - k,
    {
        k += 1;
    }
    k
}

/// The indentation unit that the lines from the `k`th on show: the leading
/// whitespace of the first indented line, or four spaces.
pub open spec fn unit_from(lines: Seq<Seq<char>>, k: nat) -> Seq<char>
    decreases lines.len() - k,
{
    if k >= lines.len() {
        "    "@
    } else {
        let line = lines[k as int];
        let n = indent_end(line, 0);
        if 0 < n < line.len() {
            line.take(n)
        } else {
            unit_from(lines, k + 1)
        }
    }
}

/// The indentation unit a file uses: the leading whitespace of the first
/// indented line, or four spaces.
pub open spec fn unit_of(s: Seq<char>) -> Seq<char> {
    unit_from(text::lines_of(s), 0)
}

/// The indentation unit a file uses: the leading whitespace of the first
/// indented line, or four spaces.
pub fn indent_unit(src: &str) -> (r: String)
    ensures
        r@ == unit_of(src@),
{
    let all = text::lines(src);
    let ghost whole = text::texts(all@);
    let mut k: usize = 0;
    while k < all.len()
        invariant
            k <= all.len(),
            whole == text::texts(all@),
            whole == text::lines_of(src@),
            unit_of(src@) == unit_from(whole, k as nat),
        decreases all.len() - k,
    {
        assert(whole[k as int] == all@[k as int]@);
        let cs = text::chars(all[k].as_str());
        let n = find_indent_end(&cs, 0);
        if n > 0 && n < cs.len() {
            let ws = text::piece(&cs, 0, n);
            assert(ws@ =~= cs@.take(n as int));
            return ws;
        }
        k += 1;
    }
    "    ".to_string()
}

/// Where the line of a position starts.
pub open spec fn line_start(s: Seq<char>, p: int) -> int {
    match text::last_below(s, '\n', p) {
        Some(at) => at + 1,
        None => 0,
    }
}

/// What the line of a position starts with.
pub open spec fn indent_at(s: Seq<char>, p: int) -> Seq<char> {
    s.subrange(line_start(s, p), indent_end(s, line_start(s, p)))
}

/// What the line of a position starts with.
pub fn line_indent(s: &Vec<char>, p: usize) -> (r: String)
    requires
        p <= s.len(),
    ensures
        r@ == indent_at(s@, p as int),
{
    proof {
        text::lemma_last_below(s@, '\n', p as int);
    }
    let from: usize = match text::last_char(s, '\n', p) {
        Some(at) => at + 1,
        None => 0,
    };
    let to = find_indent_end(s, from);
    text::piece(s, from, to)
}

/// The least indentation of those of the first `n` lines that are not blank.
pub open spec fn common_upto(lines: Seq<Seq<char>>, n: nat) -> Option<int>
    decreases n,
{
    if n == 0 {
        None
    } else {
        let rest = common_upto(lines, (n - 1) as nat);
        let line = lines[n - 1];
        if text::trimmed(line).len() == 0 {
            rest
        } else {
            match rest {
                Some(least) => if indent_end(line, 0) < least {
                    Some(indent_end(line, 0))
                } else {
                    rest
                },
                None => Some(indent_end(line, 0)),
            }
        }
    }
}

/// The indentation that all lines share; none where all are blank.
pub open spec fn common_indent(lines: Seq<Seq<char>>) -> int {
    match common_upto(lines, lines.len()) {
        Some(n) => n,
        None => 0,
    }
}

/// A line without the shared indentation, behind a new one. A line with
/// nothing left is empty, and the first line may stay where it is.
pub open spec fn moved_line(
    line: Seq<char>,
    common: int,
    indent: Seq<char>,
    stays: bool,
) -> Seq<char> {
    let bare = if text::trimmed(line).len() == 0 || common >= line.len() {
        text::no_text()
    } else {
        line.skip(common)
    };
    if bare.len() == 0 {
        text::no_text()
    } else if stays {
        bare
    } else {
        indent + bare
    }
}

/// The first `n` lines behind a new indentation.
pub open spec fn moved_upto(
    lines: Seq<Seq<char>>,
    common: int,
    indent: Seq<char>,
    first: bool,
    n: nat,
) -> Seq<Seq<char>>
    decreases n,
{
    if n == 0 {
        Seq::empty()
    } else {
        moved_upto(lines, common, indent, first, (n - 1) as nat).push(
            moved_line(lines[n - 1], common, indent, n == 1 && !first),
        )
    }
}

/// The lines of a body.
pub open spec fn body_lines(body: Seq<char>) -> Seq<Seq<char>> {
    text::lines_of(text::trimmed_end(body))
}

/// A body with its shared indentation removed, every line then indented anew,
/// the first only where asked.
pub open spec fn reindented(body: Seq<char>, indent: Seq<char>, first: bool) -> Seq<char> {
    let all = body_lines(body);
    text::joined(moved_upto(all, common_indent(all), indent, first, all.len()), "\n"@)
}

/// The indentation that all lines share.
fn find_common(all: &Vec<String>) -> (r: usize)
    ensures
        r == common_indent(text::texts(all@)),
{
    let ghost whole = text::texts(all@);
    let mut least: Option<usize> = None;
    let mut k: usize = 0;
    while k < all.len()
        invariant
            k <= all.len(),
            whole == text::texts(all@),
            common_upto(whole, k as nat) == match least {
                Some(n) => Some(n as int),
                None => None,
            },
        decreases all.len() - k,
    {
        assert(whole[k as int] == all@[k as int]@);
        let bare = text::trim(all[k].as_str());
        if text::chars(bare.as_str()).len() > 0 {
            let cs = text::chars(all[k].as_str());
            let n = find_indent_end(&cs, 0);
            least = match least {
                Some(m) => if n < m {
                    Some(n)
                } else {
                    Some(m)
                },
                None => Some(n),
            };
        }
        k += 1;
    }
    assert(whole.len() == all@.len());
    match least {
        Some(n) => n,
        None => 0,
    }
}

/// A line without the shared indentation, behind a new one.
fn move_line(line: &str, common: usize, indent: &str, stays: bool) -> (r: String)
    ensures
        r@ == moved_line(line@, common as int, indent@, stays),
{
    let bare = text::trim(line);
    let cs = text::chars(line);
    if text::chars(bare.as_str()).len() == 0 || common >= cs.len() {
        return String::new();
    }
    let rest = text::piece(&cs, common, cs.len());
    assert(rest@ =~= line@.skip(common as int));
    if stays {
        rest
    } else {
        text::cat2(indent, rest.as_str())
    }
}

/// A body with its shared indentation removed, every line then indented anew,
/// the first only where asked.
pub fn reindent(body: &str, indent: &str, first: bool) -> (r: String)
    ensures
        r@ == reindented(body@, indent@, first),
{
    let body = text::trim_end(body);
    let all = text::lines(body.as_str());
    let ghost whole = text::texts(all@);
    let common = find_common(&all);
    let mut out: Vec<String> = Vec::new();
    let mut k: usize = 0;
    assert(text::texts(out@) =~= Seq::<Seq<char>>::empty());
    while k < all.len()
        invariant
            k <= all.len(),
            whole == text::texts(all@),
            text::texts(out@) == moved_upto(whole, common as int, indent@, first, k as nat),
        decreases all.len() - k,
    {
        assert(whole[k as int] == all@[k as int]@);
        let line = move_line(all[k].as_str(), common, indent, k == 0 && !first);
        proof {
            text::lemma_texts_push(out@, line);
        }
        out.push(line);
        k += 1;
    }
    assert(whole.len() == all@.len());
    text::join(&out, "\n")
}

/// The text to put in the place of a body that starts at position `start`, of
/// a definition that starts at position `def`.
pub open spec fn fitted(s: Seq<char>, f: Family, def: int, start: int, body: Seq<char>) -> Seq<char> {
    let outer = indent_at(s, def);
    let inner = outer + unit_of(s);
    match f {
        // right after the colon, a new body goes on lines of its own
        Family::Python => if text::has_suffix(text::shed_end(s.take(start), " \t"@), ":"@) {
            "\n"@ + reindented(body, inner, true)
        } else {
            reindented(body, inner, false)
        },
        Family::Ts => "{\n"@ + reindented(body, inner, true) + "\n"@ + outer + "}"@,
    }
}

/// The text to put in the place of a body.
pub fn fit_body(s: &Vec<char>, text: &str, f: Family, def: usize, start: usize, body: &str) -> (r:
    String)
    requires
        s@ == text@,
        def <= s.len(),
        start <= s.len(),
    ensures
        r@ == fitted(text@, f, def as int, start as int, body@),
{
    let outer = line_indent(s, def);
    let unit = indent_unit(text);
    let inner = text::cat2(outer.as_str(), unit.as_str());
    match f {
        Family::Python => {
            let front = text::piece(s, 0, start);
            assert(front@ =~= text@.take(start as int));
            let bare = text::trim_end_set(front.as_str(), " \t");
            if text::ends_with(bare.as_str(), ":") {
                let lines = reindent(body, inner.as_str(), true);
                text::cat2("\n", lines.as_str())
            } else {
                reindent(body, inner.as_str(), false)
            }
        },
        Family::Ts => {
            let lines = reindent(body, inner.as_str(), true);
            text::cat5("{\n", lines.as_str(), "\n", outer.as_str(), "}")
        },
    }
}

// ------------------------------------------------------------------- laws

/// Where the blanks and tabs from a place on end.
proof fn lemma_indent_end_at(s: Seq<char>, i: int, m: int)
    requires
        0 <= i <= m <= s.len(),
        forall|k: int| i <= k < m ==> s[k] == ' ' || s[k] == '\t',
        m == s.len() || (s[m] != ' ' && s[m] != '\t'),
    ensures
        indent_end(s, i) == m,
    decreases m - i,
{
    if i < m {
        lemma_indent_end_at(s, i + 1, m);
    }
}

/// Is the line indented by the blanks and tabs, with something behind them?
pub open spec fn is_indented_by(line: Seq<char>, ws: Seq<char>) -> bool {
    &&& ws.len() < line.len()
    &&& line.take(ws.len() as int) == ws
    &&& forall|k: int| 0 <= k < ws.len() ==> #[trigger] ws[k] == ' ' || ws[k] == '\t'
    &&& line[ws.len() as int] != ' ' && line[ws.len() as int] != '\t'
}

/// The indentation of a line is the blanks and tabs that it starts with.
proof fn lemma_indented(line: Seq<char>, ws: Seq<char>)
    requires
        is_indented_by(line, ws),
    ensures
        indent_end(line, 0) == ws.len(),
{
    assert forall|k: int| 0 <= k < ws.len() implies line[k] == ' ' || line[k] == '\t' by {
        assert(line.take(ws.len() as int)[k] == ws[k]);
    }
    lemma_indent_end_at(line, 0, ws.len() as int);
}

/// A file's unit of indentation is that of its first indented line; four
/// blanks where no line is indented.
pub proof fn law_the_first_indented_line_gives_the_unit(
    lines: Seq<Seq<char>>,
    k: nat,
    a: int,
    ws: Seq<char>,
)
    requires
        k <= a <= lines.len(),
        forall|b: int|
            k <= b < a ==> (#[trigger] lines[b]).len() == 0 || lines[b][0] != ' ' && lines[b][0]
                != '\t',
        a < lines.len() ==> ws.len() > 0 && is_indented_by(lines[a], ws),
    ensures
        a < lines.len() ==> unit_from(lines, k) == ws,
        a == lines.len() ==> unit_from(lines, k) == seq![' ', ' ', ' ', ' '],
    decreases a - k,
{
    reveal_strlit("    ");
    assert("    "@ =~= seq![' ', ' ', ' ', ' ']);
    if k < a {
        assert(lines[k as int].len() == 0 || lines[k as int][0] != ' ' && lines[k as int][0]
            != '\t');
        assert(indent_end(lines[k as int], 0) == 0);
        law_the_first_indented_line_gives_the_unit(lines, k + 1, a, ws);
    } else if a < lines.len() {
        lemma_indented(lines[a], ws);
        assert(lines[a].take(ws.len() as int) =~= ws);
    }
}

/// The shared indentation is that of the line with the least, of those that
/// are not blank: no such line has less, and one has as much.
pub proof fn law_the_shared_indentation_is_the_least(lines: Seq<Seq<char>>, n: nat)
    requires
        n <= lines.len(),
    ensures
        match common_upto(lines, n) {
            None => forall|k: int| 0 <= k < n ==> text::trimmed(#[trigger] lines[k]).len() == 0,
            Some(least) => (forall|k: int|
                0 <= k < n && text::trimmed(#[trigger] lines[k]).len() > 0 ==> least <= indent_end(
                    lines[k],
                    0,
                )) && (exists|k: int|
                0 <= k < n && text::trimmed(#[trigger] lines[k]).len() > 0 && least == indent_end(
                    lines[k],
                    0,
                )),
        },
    decreases n,
{
    if n > 0 {
        law_the_shared_indentation_is_the_least(lines, (n - 1) as nat);
        if text::trimmed(lines[n - 1]).len() > 0 {
            if let Some(least) = common_upto(lines, (n - 1) as nat) {
                let k = choose|k: int|
                    0 <= k < n - 1 && text::trimmed(#[trigger] lines[k]).len() > 0 && least
                        == indent_end(lines[k], 0);
                assert(text::trimmed(lines[k]).len() > 0);
            }
            assert(text::trimmed(lines[n - 1]).len() > 0);
        }
    }
}

/// Every line of a body that is not blank loses the shared indentation and
/// gets the new one in front, the first only where asked; a blank line is
/// empty. So lines keep how far they are indented below one another.
pub proof fn law_lines_move_together(
    lines: Seq<Seq<char>>,
    common: int,
    indent: Seq<char>,
    first: bool,
    n: nat,
    k: int,
)
    requires
        0 <= k < n <= lines.len(),
    ensures
        moved_upto(lines, common, indent, first, n).len() == n,
        text::trimmed(lines[k]).len() == 0 ==> moved_upto(lines, common, indent, first, n)[k].len()
            == 0,
        text::trimmed(lines[k]).len() > 0 && 0 <= common < lines[k].len() && (k > 0 || first)
            ==> moved_upto(lines, common, indent, first, n)[k] == indent + lines[k].skip(common),
        text::trimmed(lines[k]).len() > 0 && 0 <= common < lines[k].len() && k == 0 && !first
            ==> moved_upto(lines, common, indent, first, n)[k] == lines[k].skip(common),
    decreases n,
{
    lemma_moved_len(lines, common, indent, first, n);
    lemma_moved_len(lines, common, indent, first, (n - 1) as nat);
    if k < n - 1 {
        law_lines_move_together(lines, common, indent, first, (n - 1) as nat, k);
    }
}

/// There is one moved line for each.
proof fn lemma_moved_len(
    lines: Seq<Seq<char>>,
    common: int,
    indent: Seq<char>,
    first: bool,
    n: nat,
)
    ensures
        moved_upto(lines, common, indent, first, n).len() == n,
    decreases n,
{
    if n > 0 {
        lemma_moved_len(lines, common, indent, first, (n - 1) as nat);
    }
}

/// A new body of a braced function stands between braces of its own: each on
/// its line, the closing one indented as the definition is, and the lines
/// between them one unit further.
pub proof fn law_a_braced_body_keeps_its_braces(
    s: Seq<char>,
    def: int,
    start: int,
    body: Seq<char>,
)
    ensures
        fitted(s, Family::Ts, def, start, body) == seq!['{', '\n'] + reindented(
            body,
            indent_at(s, def) + unit_of(s),
            true,
        ) + seq!['\n'] + indent_at(s, def) + seq!['}'],
{
    reveal_strlit("{\n");
    reveal_strlit("\n");
    reveal_strlit("}");
    assert("{\n"@ =~= seq!['{', '\n']);
    assert("\n"@ =~= seq!['\n']);
    assert("}"@ =~= seq!['}']);
}

/// A new body of a Python function that stood right behind the colon goes on
/// lines of its own; one that stood on its own lines starts where it did. It
/// is indented one unit further than the definition.
pub proof fn law_a_python_body_goes_on_its_own_lines(
    s: Seq<char>,
    def: int,
    start: int,
    body: Seq<char>,
)
    requires
        0 < start <= s.len(),
    ensures
        s[start - 1] == ':' ==> fitted(s, Family::Python, def, start, body) == seq!['\n']
            + reindented(body, indent_at(s, def) + unit_of(s), true),
        s[start - 1] == '\n' ==> fitted(s, Family::Python, def, start, body) == reindented(
            body,
            indent_at(s, def) + unit_of(s),
            false,
        ),
{
    reveal_strlit("\n");
    reveal_strlit(":");
    reveal_strlit(" \t");
    assert("\n"@ =~= seq!['\n']);
    let front = s.take(start);
    assert(front.last() == s[start - 1]);
    if s[start - 1] == ':' || s[start - 1] == '\n' {
        assert(!" \t"@.contains(front.last()));
        assert(text::out_end(front, " \t"@, start) == start);
        assert(text::shed_end(front, " \t"@) =~= front);
        assert(front.skip(start - 1) =~= seq![s[start - 1]]);
        assert(":"@ =~= seq![':']);
        if s[start - 1] == '\n' {
            assert(seq!['\n'][0] != seq![':'][0]);
        }
    }
}

/// The line of a definition is indented by what stands between the line feed
/// before it and its own first character.
pub proof fn law_a_line_is_indented_by_its_start(
    above: Seq<char>,
    ws: Seq<char>,
    rest: Seq<char>,
)
    requires
        above.len() == 0 || above.last() == '\n',
        forall|k: int| 0 <= k < ws.len() ==> #[trigger] ws[k] == ' ' || ws[k] == '\t',
        rest.len() > 0,
        rest[0] != ' ' && rest[0] != '\t',
    ensures
        indent_at(above + ws + rest, (above.len() + ws.len()) as int) == ws,
{
    let s = above + ws + rest;
    let p = (above.len() + ws.len()) as int;
    let at = above.len() as int;
    text::lemma_last_below(s, '\n', p);
    assert forall|k: int| at <= k < p implies s[k] == ' ' || s[k] == '\t' by {
        assert(s[k] == ws[k - at]);
    }
    if at > 0 {
        assert(s[at - 1] == above.last());
    }
    assert(line_start(s, p) == at);
    assert(s[p] == rest[0]);
    lemma_indent_end_at(s, at, p);
    assert(s.subrange(at, p) =~= ws);
}

} // verus!

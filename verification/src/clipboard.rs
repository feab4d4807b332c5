//! The canvas as text: plain, and as HTML for rich copying.

use vstd::prelude::*;

use crate::grid::{cell_index, on_canvas, Grid, CELLS, COLS, ROWS};

verus! {

/// `String::push` appends one character.
pub assume_specification[ String::push ](s: &mut String, ch: char)
    ensures
        final(s)@ == old(s)@.push(ch),
;

// ---------------------------------------------------------------------------
// Plain text
// ---------------------------------------------------------------------------

/// Columns c0 to c1 of row r.
pub open spec fn row_text(committed: Seq<char>, r: int, c0: int, c1: int) -> Seq<char> {
    committed.subrange(cell_index(c0, r), cell_index(c1, r) + 1)
}

/// Rows r0 to r1 of columns c0 to c1, with a newline between rows.
pub open spec fn region_text(committed: Seq<char>, c0: int, r0: int, c1: int, r1: int) -> Seq<char>
    decreases r1 - r0,
{
    if r1 <= r0 {
        row_text(committed, r0, c0, c1)
    } else {
        region_text(committed, c0, r0, c1, r1 - 1).push('\n') + row_text(committed, r1, c0, c1)
    }
}

/// The whole canvas as text.
pub open spec fn full_text(committed: Seq<char>) -> Seq<char> {
    region_text(committed, 0, 0, COLS - 1, ROWS - 1)
}

/// The text of a region of the canvas. Rows have the width of the region and
/// are separated by newlines.
pub fn text_of_region(committed: &Vec<char>, c0: usize, r0: usize, c1: usize, r1: usize) -> (text: String)
    requires
        committed@.len() == CELLS,
        c0 <= c1,
        r0 <= r1,
        on_canvas(c1 as int, r1 as int),
    ensures
        text@ == region_text(committed@, c0 as int, r0 as int, c1 as int, r1 as int),
{
    let mut text: String = String::new();
    let mut r: usize = r0;
    while r <= r1
        invariant
            committed@.len() == CELLS,
            c0 <= c1,
            r0 <= r <= r1 + 1,
            on_canvas(c1 as int, r1 as int),
            r == r0 ==> text@ == Seq::<char>::empty(),
            r > r0 ==> text@ == region_text(committed@, c0 as int, r0 as int, c1 as int, r - 1),
        decreases r1 + 1 - r,
    {
        if r > r0 {
            text.push('\n');
        }
        let ghost before = text@;
        let mut c: usize = c0;
        while c <= c1
            invariant
                committed@.len() == CELLS,
                c0 <= c <= c1 + 1,
                c0 <= c1,
                r <= r1,
                on_canvas(c1 as int, r1 as int),
                text@ == before + committed@.subrange(
                    cell_index(c0 as int, r as int),
                    cell_index(c as int, r as int),
                ),
            decreases c1 + 1 - c,
        {
            let i: usize = Grid::idx(c, r);
            text.push(committed[i]);
            assert(text@ =~= before + committed@.subrange(
                cell_index(c0 as int, r as int),
                cell_index(c + 1, r as int),
            ));
            c = c + 1;
        }
        assert(text@ =~= before + row_text(committed@, r as int, c0 as int, c1 as int));
        if r == r0 {
            assert(text@ =~= row_text(committed@, r as int, c0 as int, c1 as int));
        }
        r = r + 1;
    }
    text
}

// ---------------------------------------------------------------------------
// HTML
// ---------------------------------------------------------------------------

/// Whether a character is white space, as Unicode has it.
pub open spec fn is_white(ch: char) -> bool {
    ||| '\u{9}' <= ch <= '\u{d}'
    ||| ch == ' '
    ||| ch == '\u{85}'
    ||| ch == '\u{a0}'
    ||| ch == '\u{1680}'
    ||| '\u{2000}' <= ch <= '\u{200a}'
    ||| ch == '\u{2028}'
    ||| ch == '\u{2029}'
    ||| ch == '\u{202f}'
    ||| ch == '\u{205f}'
    ||| ch == '\u{3000}'
}

/// Whether a character is white space.
pub fn white(ch: char) -> (yes: bool)
    ensures
        yes == is_white(ch),
{
    ('\u{9}' <= ch && ch <= '\u{d}') || ch == ' ' || ch == '\u{85}' || ch == '\u{a0}' || ch == '\u{1680}' || (
    '\u{2000}' <= ch && ch <= '\u{200a}') || ch == '\u{2028}' || ch == '\u{2029}' || ch == '\u{202f}' || ch
        == '\u{205f}' || ch == '\u{3000}'
}

/// The position of the first newline from `i` on, or the end.
pub open spec fn line_end(text: Seq<char>, i: int) -> int
    decreases text.len() - i,
{
    if i >= text.len() {
        text.len() as int
    } else if text[i] == '\n' {
        i
    } else {
        line_end(text, i + 1)
    }
}

/// The lines of the text from position `i` on. A newline ends a line, so none
/// follows the last one.
pub open spec fn lines_from(text: Seq<char>, i: int) -> Seq<Seq<char>>
    decreases text.len() + 1 - i,
{
    if i < 0 || i >= text.len() {
        Seq::empty()
    } else {
        proof {
            lemma_line_end(text, i);
        }
        seq![text.subrange(i, line_end(text, i))] + lines_from(text, line_end(text, i) + 1)
    }
}

/// A line ends where it starts or later, and within the text.
pub proof fn lemma_line_end(text: Seq<char>, i: int)
    requires
        0 <= i <= text.len(),
    ensures
        i <= line_end(text, i) <= text.len(),
    decreases text.len() - i,
{
    if i < text.len() && text[i] != '\n' {
        lemma_line_end(text, i + 1);
    }
}

/// The line without the white space at its end.
pub open spec fn trimmed(line: Seq<char>) -> Seq<char>
    decreases line.len(),
{
    if line.len() > 0 && is_white(line.last()) {
        trimmed(line.drop_last())
    } else {
        line
    }
}

/// The lines, trimmed and joined by newlines.
pub open spec fn joined(lines: Seq<Seq<char>>) -> Seq<char>
    decreases lines.len(),
{
    if lines.len() == 0 {
        Seq::empty()
    } else if lines.len() == 1 {
        trimmed(lines[0])
    } else {
        joined(lines.drop_last()).push('\n') + trimmed(lines.last())
    }
}

/// A character as HTML text.
pub open spec fn escaped_char(ch: char) -> Seq<char> {
    if ch == '&' {
        "&amp;"@
    } else if ch == '<' {
        "&lt;"@
    } else if ch == '>' {
        "&gt;"@
    } else {
        seq![ch]
    }
}

/// Text as HTML text.
pub open spec fn escaped(text: Seq<char>) -> Seq<char>
    decreases text.len(),
{
    if text.len() == 0 {
        Seq::empty()
    } else {
        escaped(text.drop_last()) + escaped_char(text.last())
    }
}

/// The tag that opens the HTML form of a text.
pub open spec fn pre_open() -> Seq<char> {
    "<pre style=\"font-family:monospace;line-height:1.2;white-space:pre;padding:4px\">"@
}

/// The HTML form of a text.
pub open spec fn html_of(text: Seq<char>) -> Seq<char> {
    pre_open() + escaped(joined(lines_from(text, 0))) + "</pre>"@
}

/// The characters of a string.
pub fn chars_of(text: &str) -> (chars: Vec<char>)
    ensures
        chars@ == text@,
{
    let mut chars: Vec<char> = Vec::new();
    for ch in it: text.chars()
        invariant
            it.seq() == text@,
            chars@ == text@.take(it.index() as int),
    {
        chars.push(ch);
        assert(chars@ =~= text@.take(it.index() + 1));
    }
    assert(chars@ =~= text@);
    chars
}

/// Append a character as HTML text.
fn push_escaped(html: &mut String, ch: char)
    ensures
        final(html)@ == old(html)@ + escaped_char(ch),
{
    if ch == '&' {
        html.append("&amp;");
    } else if ch == '<' {
        html.append("&lt;");
    } else if ch == '>' {
        html.append("&gt;");
    } else {
        html.push(ch);
        assert(html@ =~= old(html)@ + seq![ch]);
    }
}

/// Escape the characters that are special in HTML text.
pub fn html_escape(text: &str) -> (html: String)
    ensures
        html@ == escaped(text@),
{
    let chars: Vec<char> = chars_of(text);
    let mut html: String = String::new();
    assert(html@ =~= escaped(chars@.take(0)));
    let mut i: usize = 0;
    while i < chars.len()
        invariant
            0 <= i <= chars@.len(),
            html@ == escaped(chars@.take(i as int)),
        decreases chars@.len() - i,
    {
        push_escaped(&mut html, chars[i]);
        assert(chars@.take(i + 1).drop_last() =~= chars@.take(i as int));
        i = i + 1;
    }
    assert(chars@.take(chars@.len() as int) =~= chars@);
    html
}

/// The text with the white space at the end of each line removed.
fn trim_lines(text: &str) -> (out: String)
    ensures
        out@ == joined(lines_from(text@, 0)),
{
    let chars: Vec<char> = chars_of(text);
    let len: usize = chars.len();
    let mut out: String = String::new();
    let ghost mut done: Seq<Seq<char>> = Seq::empty();
    let mut start: usize = 0;
    assert(done + lines_from(chars@, 0) =~= lines_from(chars@, 0));
    while start < len
        invariant
            len == chars@.len(),
            0 <= start <= len,
            out@ == joined(done),
            done.len() == 0 <==> start == 0,
            done + lines_from(chars@, start as int) == lines_from(chars@, 0),
        decreases len - start,
    {
        let mut end: usize = start;
        while end < len && chars[end] != '\n'
            invariant
                len == chars@.len(),
                start <= end <= len,
                line_end(chars@, start as int) == line_end(chars@, end as int),
            decreases len - end,
        {
            end = end + 1;
        }
        let ghost line = chars@.subrange(start as int, end as int);
        let mut stop: usize = end;
        assert(line =~= chars@.subrange(start as int, stop as int));
        while stop > start && white(chars[stop - 1])
            invariant
                len == chars@.len(),
                start <= stop <= end <= len,
                trimmed(line) == trimmed(chars@.subrange(start as int, stop as int)),
            decreases stop,
        {
            assert(chars@.subrange(start as int, stop as int).drop_last() =~= chars@.subrange(
                start as int,
                stop - 1,
            ));
            stop = stop - 1;
        }
        assert(trimmed(line) == chars@.subrange(start as int, stop as int));
        if start > 0 {
            out.push('\n');
        }
        let ghost before = out@;
        let mut i: usize = start;
        while i < stop
            invariant
                len == chars@.len(),
                start <= i <= stop <= len,
                out@ == before + chars@.subrange(start as int, i as int),
            decreases stop - i,
        {
            out.push(chars[i]);
            assert(out@ =~= before + chars@.subrange(start as int, i + 1));
            i = i + 1;
        }
        proof {
            let next = done.push(line);
            assert(next.drop_last() =~= done);
            if done.len() == 0 {
                assert(out@ =~= trimmed(line));
            }
            assert(out@ == joined(next));
            let rest = lines_from(chars@, end + 1);
            assert(lines_from(chars@, start as int) == seq![line] + rest);
            assert(next + rest =~= done + (seq![line] + rest));
            if end == len {
                assert(rest =~= lines_from(chars@, len as int));
            }
            done = next;
        }
        start = if end < len { end + 1 } else { len };
    }
    assert(done =~= done + lines_from(chars@, len as int));
    out
}

/// A text as a styled HTML block: trailing white space of each line removed,
/// special characters escaped, wrapped in a preformatted block.
pub fn html_wrap(text: &str) -> (html: String)
    ensures
        html@ == html_of(text@),
{
    let trimmed_text: String = trim_lines(text);
    let body: String = html_escape(trimmed_text.as_str());
    let mut html: String = "<pre style=\"font-family:monospace;line-height:1.2;white-space:pre;padding:4px\">".to_owned();
    html.append(body.as_str());
    html.append("</pre>");
    html
}

// ---------------------------------------------------------------------------
// Laws
// ---------------------------------------------------------------------------

/// Escaped text holds no angle brackets, so it can neither open nor close a
/// tag.
pub proof fn law_escaped_has_no_brackets(text: Seq<char>, i: int)
    requires
        0 <= i < escaped(text).len(),
    ensures
        escaped(text)[i] != '<' && escaped(text)[i] != '>',
    decreases text.len(),
{
    reveal_strlit("&amp;");
    reveal_strlit("&lt;");
    reveal_strlit("&gt;");
    let head = escaped(text.drop_last());
    if i < head.len() {
        law_escaped_has_no_brackets(text.drop_last(), i);
    } else {
        let k = i - head.len();
        assert(escaped(text)[i] == escaped_char(text.last())[k]);
    }
}

/// Text without special characters is its own HTML text.
pub proof fn law_escaped_keeps_plain_text(text: Seq<char>)
    requires
        forall|i: int| 0 <= i < text.len() ==> text[i] != '&' && text[i] != '<' && text[i] != '>',
    ensures
        escaped(text) == text,
    decreases text.len(),
{
    if text.len() > 0 {
        assert forall|i: int| 0 <= i < text.drop_last().len() implies text.drop_last()[i] != '&'
            && text.drop_last()[i] != '<' && text.drop_last()[i] != '>' by {
            assert(text.drop_last()[i] == text[i]);
        }
        law_escaped_keeps_plain_text(text.drop_last());
        assert(escaped(text) =~= text);
    } else {
        assert(escaped(text) =~= text);
    }
}

/// A trimmed line does not end in white space, and only white space was taken
/// off.
pub proof fn law_trimmed(line: Seq<char>)
    ensures
        trimmed(line).len() <= line.len(),
        trimmed(line) == line.take(trimmed(line).len() as int),
        trimmed(line).len() > 0 ==> !is_white(trimmed(line).last()),
        forall|i: int| trimmed(line).len() <= i < line.len() ==> is_white(#[trigger] line[i]),
    decreases line.len(),
{
    if line.len() > 0 && is_white(line.last()) {
        law_trimmed(line.drop_last());
        assert forall|i: int| trimmed(line).len() <= i < line.len() implies is_white(#[trigger] line[i]) by {
            if i < line.len() - 1 {
                assert(line.drop_last()[i] == line[i]);
            }
        }
        assert(trimmed(line) =~= line.take(trimmed(line).len() as int));
    } else {
        assert(line =~= line.take(line.len() as int));
    }
}

/// The plain text of a region has its full size: every row of the region at its
/// full width, trailing blanks included, and one newline between rows.
pub proof fn law_text_keeps_full_rows(committed: Seq<char>, c0: int, r0: int, c1: int, r1: int)
    requires
        committed.len() == CELLS,
        0 <= c0 <= c1 < COLS,
        0 <= r0 <= r1 < ROWS,
    ensures
        region_text(committed, c0, r0, c1, r1).len() == (c1 - c0 + 2) * (r1 - r0 + 1) - 1,
        forall|c: int, r: int|
            c0 <= c <= c1 && r0 <= r <= r1 ==> region_text(committed, c0, r0, c1, r1)[(c1 - c0 + 2) * (r
                - r0) + (c - c0)] == #[trigger] committed[cell_index(c, r)],
    decreases r1 - r0,
{
    let text = region_text(committed, c0, r0, c1, r1);
    let w = c1 - c0 + 2;
    if r0 < r1 {
        law_text_keeps_full_rows(committed, c0, r0, c1, r1 - 1);
        let above = region_text(committed, c0, r0, c1, r1 - 1);
        assert(w * (r1 - r0 + 1) == w * (r1 - r0) + w) by (nonlinear_arith);
        assert(above.len() == w * (r1 - r0) - 1);
        assert forall|c: int, r: int| c0 <= c <= c1 && r0 <= r <= r1 implies text[w * (r - r0) + (c - c0)]
            == #[trigger] committed[cell_index(c, r)] by {
            if r < r1 {
                assert(0 <= w * (r - r0) + (c - c0) < w * (r1 - r0) - 1) by (nonlinear_arith)
                    requires
                        r0 <= r < r1,
                        c0 <= c <= c1,
                        w == c1 - c0 + 2,
                ;
                assert(above[w * (r - r0) + (c - c0)] == committed[cell_index(c, r)]);
            }
        }
    } else {
        assert(w * (r1 - r0 + 1) == w) by (nonlinear_arith)
            requires
                r1 == r0,
        ;
        assert forall|c: int, r: int| c0 <= c <= c1 && r0 <= r <= r1 implies text[w * (r - r0) + (c - c0)]
            == #[trigger] committed[cell_index(c, r)] by {
            assert(w * (r - r0) == 0) by (nonlinear_arith)
                requires
                    r == r0,
            ;
        }
    }
}

/// The plain text of a region has a newline behind each row but the last.
pub proof fn law_text_separates_rows(committed: Seq<char>, c0: int, r0: int, c1: int, r1: int, r: int)
    requires
        committed.len() == CELLS,
        0 <= c0 <= c1 < COLS,
        0 <= r0 <= r1 < ROWS,
        r0 <= r <= r1,
    ensures
        r < r1 ==> region_text(committed, c0, r0, c1, r1)[(c1 - c0 + 2) * (r - r0) + (c1 - c0 + 1)] == '\n',
    decreases r1 - r0,
{
    if r < r1 {
        let w = c1 - c0 + 2;
        let above = region_text(committed, c0, r0, c1, r1 - 1);
        law_text_keeps_full_rows(committed, c0, r0, c1, r1 - 1);
        assert(r1 - 1 - r0 + 1 == r1 - r0);
        let i = w * (r - r0) + (c1 - c0 + 1);
        if r < r1 - 1 {
            law_text_separates_rows(committed, c0, r0, c1, r1 - 1, r);
            assert(0 <= i < w * (r1 - r0) - 1) by (nonlinear_arith)
                requires
                    r0 <= r < r1 - 1,
                    w >= 2,
                    i == w * (r - r0) + (w - 1),
            ;
        } else {
            assert(i == w * (r1 - r0) - 1) by (nonlinear_arith)
                requires
                    r == r1 - 1,
                    i == w * (r - r0) + (w - 1),
            ;
            assert(i == above.len());
        }
    }
}

proof fn lemma_joined_first(line: Seq<char>, rest: Seq<Seq<char>>)
    requires
        rest.len() > 0,
    ensures
        joined(seq![line] + rest) == trimmed(line).push('\n') + joined(rest),
    decreases rest.len(),
{
    let all = seq![line] + rest;
    assert(all.last() == rest.last());
    if rest.len() == 1 {
        assert(all.drop_last() =~= seq![line]);
        assert(joined(seq![line]) == trimmed(line));
        assert(joined(rest) == trimmed(rest[0]));
    } else {
        assert(all.drop_last() =~= seq![line] + rest.drop_last());
        lemma_joined_first(line, rest.drop_last());
        assert(joined(all) =~= trimmed(line).push('\n') + joined(rest));
    }
}

proof fn lemma_end_of_first_line(text: Seq<char>, i: int, end: int)
    requires
        0 <= i <= end <= text.len(),
        end < text.len() ==> text[end] == '\n',
        forall|k: int| i <= k < end ==> text[k] != '\n',
    ensures
        line_end(text, i) == end,
    decreases end - i,
{
    if i < end {
        lemma_end_of_first_line(text, i + 1, end);
    }
}

proof fn lemma_lines_shifted(line: Seq<char>, rest: Seq<char>, i: int)
    requires
        0 <= i <= rest.len(),
    ensures
        line_end(line.push('\n') + rest, line.len() + 1 + i) == line.len() + 1 + line_end(rest, i),
        lines_from(line.push('\n') + rest, line.len() + 1 + i) == lines_from(rest, i),
    decreases rest.len() - i,
{
    let text = line.push('\n') + rest;
    let n = line.len() + 1;
    if i < rest.len() {
        lemma_line_end(rest, i);
        assert(text[n + i] == rest[i]);
        if rest[i] != '\n' {
            lemma_lines_shifted(line, rest, i + 1);
        }
        let end = line_end(rest, i);
        assert(line_end(text, n + i) == n + end);
        if end < rest.len() {
            lemma_lines_shifted(line, rest, end + 1);
        } else {
            assert(lines_from(text, n + end + 1) =~= lines_from(rest, end + 1));
        }
        assert(text.subrange(n + i, n + end) =~= rest.subrange(i, end));
    }
}

/// The HTML form of a text has its lines without the white space at their ends,
/// line by line, between a tag that opens a preformatted block and one that
/// closes it. `body` stands for what is between the tags before it is escaped.
pub proof fn law_html_line_by_line(line: Seq<char>, rest: Seq<char>)
    requires
        forall|k: int| 0 <= k < line.len() ==> line[k] != '\n',
    ensures
        html_of(line) == pre_open() + escaped(trimmed(line)) + "</pre>"@,
        rest.len() > 0 ==> {
            let body = joined(lines_from(rest, 0));
            &&& html_of(rest) == pre_open() + escaped(body) + "</pre>"@
            &&& html_of(line.push('\n') + rest) == pre_open() + escaped(trimmed(line).push('\n') + body) + "</pre>"@
        },
{
    lemma_end_of_first_line(line, 0, line.len() as int);
    if line.len() > 0 {
        assert(line.subrange(0, line.len() as int) =~= line);
        assert(lines_from(line, line.len() as int + 1) =~= Seq::empty());
        assert(lines_from(line, 0) =~= seq![line]);
    } else {
        assert(lines_from(line, 0) =~= Seq::empty());
        assert(trimmed(line) =~= Seq::empty());
    }
    if rest.len() > 0 {
        let text = line.push('\n') + rest;
        let n = line.len() as int;
        lemma_end_of_first_line(text, 0, n);
        assert(text.subrange(0, n) =~= line);
        lemma_lines_shifted(line, rest, 0);
        assert(lines_from(text, 0) == seq![line] + lines_from(text, n + 1));
        lemma_line_end(rest, 0);
        assert(lines_from(rest, 0).len() > 0);
        lemma_joined_first(line, lines_from(rest, 0));
    }
}

/// Text is escaped character by character: `&`, `<` and `>` become their
/// entities, every other character stays.
pub proof fn law_escaped_by_character(a: Seq<char>, ch: char, b: Seq<char>)
    ensures
        escaped(Seq::empty()) == Seq::<char>::empty(),
        escaped(a + seq![ch] + b) == escaped(a) + (if ch == '&' {
            seq!['&', 'a', 'm', 'p', ';']
        } else if ch == '<' {
            seq!['&', 'l', 't', ';']
        } else if ch == '>' {
            seq!['&', 'g', 't', ';']
        } else {
            seq![ch]
        }) + escaped(b),
    decreases b.len(),
{
    reveal_strlit("&amp;");
    reveal_strlit("&lt;");
    reveal_strlit("&gt;");
    let all = a + seq![ch] + b;
    if b.len() == 0 {
        assert(all.drop_last() =~= a);
        assert(escaped_char(ch) =~= if ch == '&' {
            seq!['&', 'a', 'm', 'p', ';']
        } else if ch == '<' {
            seq!['&', 'l', 't', ';']
        } else if ch == '>' {
            seq!['&', 'g', 't', ';']
        } else {
            seq![ch]
        });
        assert(escaped(all) =~= escaped(a) + escaped_char(ch) + escaped(b));
    } else {
        law_escaped_by_character(a, ch, b.drop_last());
        assert(all.drop_last() =~= a + seq![ch] + b.drop_last());
        assert(all.last() == b.last());
        assert(escaped(b) == escaped(b.drop_last()) + escaped_char(b.last()));
        let mid = if ch == '&' {
            seq!['&', 'a', 'm', 'p', ';']
        } else if ch == '<' {
            seq!['&', 'l', 't', ';']
        } else if ch == '>' {
            seq!['&', 'g', 't', ';']
        } else {
            seq![ch]
        };
        assert(escaped(all) =~= escaped(a) + mid + escaped(b));
    }
}

} // verus!

//! Reading and writing the page: the position written on a cell, how long a
//! button is held, and the comment that says when the page was built.

use vstd::prelude::*;

use crate::clipboard::{chars_of, is_white, lemma_line_end, line_end, white};

verus! {

// ---------------------------------------------------------------------------
// Positions
// ---------------------------------------------------------------------------

/// Whether a character is a decimal digit.
pub open spec fn is_digit(ch: char) -> bool {
    '0' <= ch <= '9'
}

/// The number that digits stand for.
pub open spec fn digits_value(digits: Seq<char>) -> nat
    decreases digits.len(),
{
    if digits.len() == 0 {
        0
    } else {
        (10 * digits_value(digits.drop_last()) + (digits.last() as int - '0' as int)) as nat
    }
}

/// A text without a plus sign at its beginning.
pub open spec fn unsigned_part(text: Seq<char>) -> Seq<char> {
    if text.len() > 0 && text[0] == '+' {
        text.skip(1)
    } else {
        text
    }
}

/// The number that a text stands for: decimal digits, at least one, perhaps
/// after a plus sign, for a number that is not too large.
pub open spec fn number_of(text: Seq<char>) -> Option<usize> {
    let digits = unsigned_part(text);
    if digits.len() > 0 && (forall|i: int| 0 <= i < digits.len() ==> is_digit(#[trigger] digits[i]))
        && digits_value(digits) <= usize::MAX {
        Some(digits_value(digits) as usize)
    } else {
        None
    }
}

proof fn lemma_value_grows(digits: Seq<char>, k: int)
    requires
        0 <= k <= digits.len(),
        forall|i: int| 0 <= i < digits.len() ==> is_digit(#[trigger] digits[i]),
    ensures
        digits_value(digits.take(k)) <= digits_value(digits),
    decreases digits.len() - k,
{
    if k < digits.len() {
        lemma_value_grows(digits, k + 1);
        assert(digits.take(k + 1).drop_last() =~= digits.take(k));
        assert(digits.take(k + 1).last() == digits[k]);
        assert(is_digit(digits[k]));
    } else {
        assert(digits.take(k) =~= digits);
    }
}

/// The number that a text stands for, if it stands for one.
pub fn parse_number(text: &str) -> (number: Option<usize>)
    ensures
        number == number_of(text@),
{
    let chars: Vec<char> = chars_of(text);
    let ghost digits = unsigned_part(text@);
    let start: usize = if chars.len() > 0 && chars[0] == '+' { 1 } else { 0 };
    assert(digits =~= chars@.skip(start as int));
    if chars.len() == start {
        return None;
    }
    let mut value: u128 = 0;
    let mut i: usize = start;
    assert(digits.take(0) =~= Seq::empty());
    while i < chars.len()
        invariant
            start <= 1,
            start <= i <= chars@.len(),
            digits == unsigned_part(text@),
            digits == chars@.skip(start as int),
            forall|k: int| 0 <= k < i - start ==> is_digit(#[trigger] digits[k]),
            value == digits_value(digits.take(i - start)),
            value <= usize::MAX,
        decreases chars@.len() - i,
    {
        let ch: char = chars[i];
        let ghost k = i - start;
        assert(digits[k] == ch);
        if !('0' <= ch && ch <= '9') {
            assert(!is_digit(digits[k]));
            return None;
        }
        let digit: u32 = ch as u32 - '0' as u32;
        assert(digits.take(k + 1).drop_last() =~= digits.take(k));
        value = 10 * value + digit as u128;
        if value > usize::MAX as u128 {
            proof {
                if forall|m: int| 0 <= m < digits.len() ==> is_digit(#[trigger] digits[m]) {
                    lemma_value_grows(digits, k + 1);
                }
            }
            return None;
        }
        i = i + 1;
    }
    assert(digits.take(digits.len() as int) =~= digits);
    Some(value as usize)
}

/// The position that the column and the row written on a cell stand for.
pub fn cell_of(col: &str, row: &str) -> (cell: Option<(usize, usize)>)
    ensures
        cell == match (number_of(col@), number_of(row@)) {
            (Some(c), Some(r)) => Some((c, r)),
            _ => None,
        },
{
    match (parse_number(col), parse_number(row)) {
        (Some(c), Some(r)) => Some((c, r)),
        _ => None,
    }
}

// ---------------------------------------------------------------------------
// Long presses
// ---------------------------------------------------------------------------

/// A button that tells a click from a long press: a timer runs while it is
/// held, and what happens first decides.
#[derive(Clone, Copy, PartialEq, Eq, Structural, Debug)]
pub struct LongPress {
    /// Handle of the running timer.
    pub timer: Option<i32>,
}

impl LongPress {
    /// A button that is not held.
    pub fn new() -> (button: LongPress)
        ensures
            button.timer is None,
    {
        LongPress { timer: None }
    }

    /// The button is pressed and a timer started.
    pub fn press(&mut self, timer: i32)
        ensures
            final(self).timer == Some(timer),
    {
        self.timer = Some(timer);
    }

    /// The timer has run out: a long press.
    pub fn fire(&mut self)
        ensures
            final(self).timer is None,
    {
        self.timer = None;
    }

    /// The button is released. The timer that is returned has to be stopped, and
    /// it was a click; without one the long press has happened already.
    pub fn release(&mut self) -> (stop: Option<i32>)
        ensures
            stop == old(self).timer,
            final(self).timer is None,
    {
        let stop: Option<i32> = self.timer;
        self.timer = None;
        stop
    }

    /// The pointer leaves the button. The timer that is returned has to be
    /// stopped, and it was neither a click nor a long press.
    pub fn leave(&mut self) -> (stop: Option<i32>)
        ensures
            stop == old(self).timer,
            final(self).timer is None,
    {
        let stop: Option<i32> = self.timer;
        self.timer = None;
        stop
    }
}

// ---------------------------------------------------------------------------
// The build comment
// ---------------------------------------------------------------------------

/// A line without the white space at its beginning.
pub open spec fn trimmed_start(line: Seq<char>) -> Seq<char>
    decreases line.len(),
{
    if line.len() > 0 && is_white(line[0]) {
        trimmed_start(line.skip(1))
    } else {
        line
    }
}

/// Whether a line is the build comment of a page.
pub open spec fn is_build_comment(line: Seq<char>) -> bool {
    "<!-- build:"@.is_prefix_of(trimmed_start(line))
}

/// A line as it is in the stamped page: the build comment says the new stamp,
/// any other line is kept.
pub open spec fn stamped_line(line: Seq<char>, stamp: Seq<char>) -> Seq<char> {
    if is_build_comment(line) {
        "<!-- build: "@ + stamp + " -->"@
    } else {
        line
    }
}

/// The line from `i` to its end. A carriage return before the newline belongs
/// to the end of the line.
pub open spec fn line_at(text: Seq<char>, i: int) -> Seq<char> {
    let end = line_end(text, i);
    if i < end < text.len() && text[end - 1] == '\r' {
        text.subrange(i, end - 1)
    } else {
        text.subrange(i, end)
    }
}

/// The page from position `i` on with its build comments stamped.
pub open spec fn stamped_from(text: Seq<char>, i: int, stamp: Seq<char>) -> Seq<char>
    decreases text.len() + 1 - i,
{
    if i < 0 || i >= text.len() {
        Seq::empty()
    } else {
        proof {
            lemma_line_end(text, i);
        }
        let line = stamped_line(line_at(text, i), stamp);
        let end = line_end(text, i);
        if end < text.len() {
            line.push('\n') + stamped_from(text, end + 1, stamp)
        } else {
            line
        }
    }
}

/// Whether a line is the build comment of a page.
fn build_comment(line: &Vec<char>) -> (yes: bool)
    ensures
        yes == is_build_comment(line@),
{
    let opening: Vec<char> = chars_of("<!-- build:");
    let mut start: usize = 0;
    assert(line@.skip(0) =~= line@);
    while start < line.len() && white(line[start])
        invariant
            0 <= start <= line@.len(),
            trimmed_start(line@) == trimmed_start(line@.skip(start as int)),
        decreases line@.len() - start,
    {
        assert(line@.skip(start as int).skip(1) =~= line@.skip(start + 1));
        start = start + 1;
    }
    let ghost rest = line@.skip(start as int);
    assert(trimmed_start(line@) == rest);
    let len: usize = line.len();
    if len - start < opening.len() {
        return false;
    }
    let mut k: usize = 0;
    while k < opening.len()
        invariant
            0 <= k <= opening@.len(),
            len == line@.len(),
            start + opening@.len() <= len,
            opening@ == "<!-- build:"@,
            rest == line@.skip(start as int),
            rest == trimmed_start(line@),
            forall|m: int| 0 <= m < k ==> rest[m] == opening@[m],
        decreases opening@.len() - k,
    {
        if line[start + k] != opening[k] {
            assert(rest[k as int] != opening@[k as int]);
            assert(!(opening@ =~= rest.subrange(0, opening@.len() as int))) by {
                assert(rest.subrange(0, opening@.len() as int)[k as int] == rest[k as int]);
            }
            return false;
        }
        assert(rest[k as int] == line@[start + k]);
        k = k + 1;
    }
    assert(opening@ =~= rest.subrange(0, opening@.len() as int));
    true
}

/// The page with its build comments saying a new stamp, so that a browser does
/// not take it for the one that it has. Everything else is kept, but lines end
/// in newlines alone.
pub fn stamp_page(content: &str, stamp: &str) -> (page: String)
    ensures
        page@ == stamped_from(content@, 0, stamp@),
{
    let chars: Vec<char> = chars_of(content);
    let len: usize = chars.len();
    let mut page: String = String::new();
    let mut start: usize = 0;
    assert(page@ + stamped_from(chars@, 0, stamp@) =~= stamped_from(chars@, 0, stamp@));
    while start < len
        invariant
            len == chars@.len(),
            0 <= start <= len,
            page@ + stamped_from(chars@, start as int, stamp@) == stamped_from(chars@, 0, stamp@),
        decreases len - start,
    {
        let mut end: usize = start;
        while end < len && chars[end] != '\n'
            invariant
                len == chars@.len(),
                start <= end <= len,
                line_end(chars@, start as int) == line_end(chars@, end as int),
            decreases len - end,
        {
            end = end + 1;
        }
        let stop: usize = if start < end && end < len && chars[end - 1] == '\r' { end - 1 } else { end };
        let mut line: Vec<char> = Vec::new();
        let mut i: usize = start;
        while i < stop
            invariant
                len == chars@.len(),
                start <= i <= stop <= len,
                line@ == chars@.subrange(start as int, i as int),
            decreases stop - i,
        {
            line.push(chars[i]);
            i = i + 1;
            assert(line@ =~= chars@.subrange(start as int, i as int));
        }
        assert(line@ == line_at(chars@, start as int));
        let ghost before = page@;
        if build_comment(&line) {
            page.append("<!-- build: ");
            page.append(stamp);
            page.append(" -->");
        } else {
            push_all(&mut page, &line);
        }
        let ghost put = stamped_line(line@, stamp@);
        assert(page@ =~= before + put);
        if end < len {
            page.push('\n');
            proof {
                let rest = stamped_from(chars@, end + 1, stamp@);
                assert(stamped_from(chars@, start as int, stamp@) == put.push('\n') + rest);
                assert(before + (put.push('\n') + rest) =~= page@ + rest);
            }
            start = end + 1;
        } else {
            assert(page@ + stamped_from(chars@, len as int, stamp@) =~= before + put);
            start = len;
        }
    }
    assert(page@ + stamped_from(chars@, len as int, stamp@) =~= page@);
    page
}

/// Append characters.
fn push_all(text: &mut String, chars: &Vec<char>)
    ensures
        final(text)@ == old(text)@ + chars@,
{
    let mut i: usize = 0;
    assert(text@ =~= old(text)@ + chars@.take(0));
    while i < chars.len()
        invariant
            0 <= i <= chars@.len(),
            text@ == old(text)@ + chars@.take(i as int),
        decreases chars@.len() - i,
    {
        text.push(chars[i]);
        i = i + 1;
        assert(text@ =~= old(text)@ + chars@.take(i as int));
    }
    assert(chars@.take(chars@.len() as int) =~= chars@);
}

/// A digit behind a number makes it ten times as large and adds the digit; a
/// digit alone stands for itself, and a plus sign before the digits makes no
/// difference.
pub proof fn law_number_by_digits(text: Seq<char>, n: usize, digit: char)
    requires
        number_of(text) == Some(n),
        '0' <= digit <= '9',
    ensures
        10 * n + (digit as int - 48) <= usize::MAX ==> number_of(text.push(digit)) == Some(
            (10 * n + (digit as int - 48)) as usize,
        ),
        10 * n + (digit as int - 48) > usize::MAX ==> number_of(text.push(digit)) is None,
        number_of(seq![digit]) == Some((digit as int - 48) as usize),
        text[0] != '+' ==> number_of(seq!['+'] + text) == Some(n),
        number_of(Seq::empty()) is None,
{
    let digits = unsigned_part(text);
    let longer = unsigned_part(text.push(digit));
    assert(longer =~= digits.push(digit));
    assert(longer.drop_last() =~= digits);
    assert forall|i: int| 0 <= i < longer.len() implies is_digit(#[trigger] longer[i]) by {
        if i < digits.len() {
            assert(longer[i] == digits[i]);
        }
    }
    let one = seq![digit];
    assert(unsigned_part(one) =~= one);
    assert(one.drop_last() =~= Seq::empty());
    assert(digits_value(one.drop_last()) == 0);
    assert(is_digit(one[0]));
    if text[0] != '+' {
        assert(unsigned_part(seq!['+'] + text) =~= text);
    }
}

/// A text with anything but digits behind its first character stands for no
/// number.
pub proof fn law_no_number(text: Seq<char>, i: int)
    requires
        0 < i < text.len(),
        !('0' <= text[i] <= '9'),
    ensures
        number_of(text) is None,
{
    let digits = unsigned_part(text);
    let k = if text[0] == '+' { i - 1 } else { i };
    assert(digits[k] == text[i]);
    assert(!is_digit(digits[k]));
}

proof fn lemma_no_newline(text: Seq<char>, i: int)
    requires
        0 <= i <= text.len(),
        forall|k: int| i <= k < text.len() ==> text[k] != '\n',
    ensures
        line_end(text, i) == text.len(),
    decreases text.len() - i,
{
    if i < text.len() {
        lemma_no_newline(text, i + 1);
    }
}

proof fn lemma_trimmed_indent(indent: Seq<char>, rest: Seq<char>)
    requires
        forall|k: int| 0 <= k < indent.len() ==> indent[k] == ' ',
        rest.len() > 0,
        rest[0] == '<',
    ensures
        trimmed_start(indent + rest) == rest,
    decreases indent.len(),
{
    let line = indent + rest;
    if indent.len() > 0 {
        assert(line[0] == ' ');
        assert(line.skip(1) =~= indent.skip(1) + rest);
        lemma_trimmed_indent(indent.skip(1), rest);
    } else {
        assert(line =~= rest);
    }
}

/// A build comment, however it is indented and whatever it says, is replaced by
/// one that says the new stamp.
pub proof fn law_build_comment_is_replaced(indent: Seq<char>, rest: Seq<char>, stamp: Seq<char>)
    requires
        forall|k: int| 0 <= k < indent.len() ==> indent[k] == ' ',
        forall|k: int| 0 <= k < rest.len() ==> rest[k] != '\n',
    ensures
        stamped_from(indent + "<!-- build:"@ + rest, 0, stamp) == "<!-- build: "@ + stamp + " -->"@,
{
    reveal_strlit("<!-- build:");
    let comment = "<!-- build:"@ + rest;
    let text = indent + "<!-- build:"@ + rest;
    assert(text =~= indent + comment);
    assert(comment[0] == '<');
    lemma_trimmed_indent(indent, comment);
    assert forall|k: int| 0 <= k < text.len() implies text[k] != '\n' by {
        if k < indent.len() {
            assert(text[k] == indent[k]);
        } else if k < indent.len() + 11 {
            assert(text[k] == "<!-- build:"@[k - indent.len()]);
        } else {
            assert(text[k] == rest[k - indent.len() - 11]);
        }
    }
    lemma_no_newline(text, 0);
    assert(line_at(text, 0) =~= text);
    assert("<!-- build:"@ =~= comment.subrange(0, 11));
    assert(is_build_comment(text));
}

proof fn lemma_line_end_before(text: Seq<char>, i: int, end: int)
    requires
        0 <= i <= end < text.len(),
        text[end] == '\n',
        forall|k: int| i <= k < end ==> text[k] != '\n',
    ensures
        line_end(text, i) == end,
    decreases end - i,
{
    if i < end {
        lemma_line_end_before(text, i + 1, end);
    }
}

proof fn lemma_line_end_shifted(line: Seq<char>, rest: Seq<char>, i: int)
    requires
        0 <= i <= rest.len(),
    ensures
        line_end(line.push('\n') + rest, line.len() + 1 + i) == line.len() + 1 + line_end(rest, i),
    decreases rest.len() - i,
{
    let text = line.push('\n') + rest;
    if i < rest.len() {
        assert(text[line.len() + 1 + i] == rest[i]);
        lemma_line_end_shifted(line, rest, i + 1);
    }
}

proof fn lemma_stamped_shifted(line: Seq<char>, rest: Seq<char>, i: int, stamp: Seq<char>)
    requires
        0 <= i <= rest.len(),
    ensures
        stamped_from(line.push('\n') + rest, line.len() + 1 + i, stamp) == stamped_from(rest, i, stamp),
    decreases rest.len() - i,
{
    let text = line.push('\n') + rest;
    let n = line.len() + 1;
    if i < rest.len() {
        lemma_line_end(rest, i);
        lemma_line_end_shifted(line, rest, i);
        let end = line_end(rest, i);
        assert(text.subrange(n + i, n + end) =~= rest.subrange(i, end));
        if i < end < rest.len() {
            assert(text[n + end - 1] == rest[end - 1]);
            assert(text.subrange(n + i, n + end - 1) =~= rest.subrange(i, end - 1));
        }
        assert(line_at(text, n + i) =~= line_at(rest, i));
        if end < rest.len() {
            lemma_stamped_shifted(line, rest, end + 1, stamp);
        }
    }
}

/// A page is stamped line by line: the first line, then a newline, then the rest
/// as a page of its own.
pub proof fn law_stamping_line_by_line(line: Seq<char>, rest: Seq<char>, stamp: Seq<char>)
    requires
        forall|k: int| 0 <= k < line.len() ==> line[k] != '\n' && line[k] != '\r',
    ensures
        stamped_from(line.push('\n') + rest, 0, stamp) == stamped_from(line, 0, stamp).push('\n') + stamped_from(
            rest,
            0,
            stamp,
        ),
{
    let text = line.push('\n') + rest;
    let n = line.len() as int;
    lemma_line_end_before(text, 0, n);
    lemma_no_newline(line, 0);
    assert(text.subrange(0, n) =~= line);
    if n > 0 {
        assert(text[n - 1] == line[n - 1]);
        assert(line_at(line, 0) =~= line);
    } else {
        reveal_strlit("<!-- build:");
        assert(line =~= Seq::empty());
        assert(stamped_from(line, 0, stamp) =~= Seq::empty());
        assert(!is_build_comment(line));
    }
    assert(line_at(text, 0) =~= line);
    lemma_stamped_shifted(line, rest, 0, stamp);
}

/// A page without a build comment and without carriage returns is not changed.
pub proof fn law_stamping_keeps_other_lines(text: Seq<char>, i: int, stamp: Seq<char>)
    requires
        0 <= i <= text.len(),
        forall|k: int| 0 <= k < text.len() ==> text[k] != '\r',
        forall|k: int| 0 <= k < text.len() ==> !is_build_comment(#[trigger] line_at(text, k)),
    ensures
        stamped_from(text, i, stamp) == text.skip(i),
    decreases text.len() - i,
{
    if i < text.len() {
        lemma_line_end(text, i);
        let end = line_end(text, i);
        assert(!is_build_comment(line_at(text, i)));
        assert(line_at(text, i) == text.subrange(i, end));
        if end < text.len() {
            lemma_ends_in_newline(text, i);
            law_stamping_keeps_other_lines(text, end + 1, stamp);
            assert(text.subrange(i, end).push('\n') + text.skip(end + 1) =~= text.skip(i));
        } else {
            assert(text.subrange(i, end) =~= text.skip(i));
        }
    } else {
        assert(stamped_from(text, i, stamp) =~= text.skip(i));
    }
}

proof fn lemma_ends_in_newline(text: Seq<char>, i: int)
    requires
        0 <= i < text.len(),
        line_end(text, i) < text.len(),
    ensures
        text[line_end(text, i)] == '\n',
    decreases text.len() - i,
{
    if text[i] != '\n' {
        if i + 1 < text.len() {
            lemma_ends_in_newline(text, i + 1);
        }
    }
}

} // verus!

//! Patterns as text: one live cell to a line, written `x,y`.
//!
//! A number is an optional `-` and one or more decimal digits, and has to
//! fit a coordinate. Lines end with a line feed; an empty line stands for no
//! cell, so a text may end with a line feed or without one. Any other line
//! is malformed.

use crate::board::{in_plane, pairs};
use crate::models::{Coordinate, Error};
use vstd::prelude::*;

verus! {

/// The byte `,`, which parts the two numbers of a line.
pub const COMMA: u8 = 44;

/// The byte that ends a line.
pub const LINE_FEED: u8 = 10;

/// The byte `-`, which begins a negative number.
pub const MINUS: u8 = 45;

/// The byte `0`; the other digits follow it.
pub const ZERO: u8 = 48;

/// Whether `b` is a decimal digit.
pub open spec fn is_digit(b: u8) -> bool {
    ZERO <= b <= ZERO + 9
}

/// Whether `s` holds decimal digits only.
pub open spec fn all_digits(s: Seq<u8>) -> bool {
    forall|i: int| 0 <= i < s.len() ==> is_digit(#[trigger] s[i])
}

/// The number that the decimal digits `s` write.
pub open spec fn digits_value(s: Seq<u8>) -> int
    decreases s.len(),
{
    if s.len() == 0 {
        0
    } else {
        10 * digits_value(s.drop_last()) + (s.last() - ZERO)
    }
}

/// The coordinate component that `s` writes, if it writes one.
pub open spec fn number_of(s: Seq<u8>) -> Option<int> {
    if s.len() > 0 && s[0] == MINUS {
        let digits = s.drop_first();
        if digits.len() > 0 && all_digits(digits) && -digits_value(digits) >= i64::MIN {
            Some(-digits_value(digits))
        } else {
            None
        }
    } else if s.len() > 0 && all_digits(s) && digits_value(s) <= i64::MAX {
        Some(digits_value(s))
    } else {
        None
    }
}

/// The place of the first `b` in `s`, or the length of `s` if it holds none.
pub open spec fn first_index(s: Seq<u8>, b: u8) -> nat
    decreases s.len(),
{
    if s.len() == 0 || s[0] == b {
        0
    } else {
        1 + first_index(s.drop_first(), b)
    }
}

/// The cell that a line writes, if it writes one: the number before the
/// first comma and the number after it.
pub open spec fn cell_of_line(line: Seq<u8>) -> Option<(int, int)> {
    let comma = first_index(line, COMMA) as int;
    if comma < line.len() {
        match (number_of(line.take(comma)), number_of(line.skip(comma + 1))) {
            (Some(x), Some(y)) => Some((x, y)),
            _ => None,
        }
    } else {
        None
    }
}

/// Whether a line is neither empty nor a cell.
pub open spec fn malformed(line: Seq<u8>) -> bool {
    line.len() > 0 && cell_of_line(line) is None
}

/// The lines of a text: what stands between its line feeds.
pub open spec fn lines_of(text: Seq<u8>) -> Seq<Seq<u8>>
    decreases text.len(),
{
    let end = first_index(text, LINE_FEED) as int;
    if end < text.len() {
        seq![text.take(end)] + lines_of(text.skip(end + 1))
    } else {
        seq![text]
    }
}

/// The cells that the lines write, in their order; a line that writes none
/// adds none.
pub open spec fn cells_of_lines(lines: Seq<Seq<u8>>) -> Seq<(int, int)>
    decreases lines.len(),
{
    if lines.len() == 0 {
        Seq::empty()
    } else {
        match cell_of_line(lines[0]) {
            Some(c) => seq![c] + cells_of_lines(lines.drop_first()),
            None => cells_of_lines(lines.drop_first()),
        }
    }
}

/// Whether a text is a pattern: whether none of its lines is malformed.
pub open spec fn well_formed(text: Seq<u8>) -> bool {
    forall|i: int| 0 <= i < lines_of(text).len() ==> !malformed(#[trigger] lines_of(text)[i])
}

/// Whether `error` is what a reader of `text` has to report: its first
/// malformed line, with the number of that line, counted from 1.
pub open spec fn reports(error: Error, text: Seq<u8>) -> bool {
    let lines = lines_of(text);
    match error {
        Error::MalformedPattern { line, token } => {
            &&& 1 <= line <= lines.len()
            &&& malformed(lines[line - 1])
            &&& forall|i: int| 0 <= i < line - 1 ==> !malformed(#[trigger] lines[i])
            &&& token@ == lines[line - 1]
        },
    }
}

/// The decimal digits of `n`, without a leading zero but for 0 itself.
pub open spec fn digits_of(n: nat) -> Seq<u8>
    decreases n,
{
    if n < 10 {
        seq![(ZERO + n) as u8]
    } else {
        digits_of(n / 10).push((ZERO + n % 10) as u8)
    }
}

/// A coordinate component as text.
pub open spec fn number_text(v: int) -> Seq<u8> {
    if v < 0 {
        seq![MINUS] + digits_of((-v) as nat)
    } else {
        digits_of(v as nat)
    }
}

/// A cell as a line, without the line feed.
pub open spec fn line_text(c: (int, int)) -> Seq<u8> {
    number_text(c.0).push(COMMA) + number_text(c.1)
}

/// The cells as text: a line for each, in their order, each ended by a line
/// feed.
pub open spec fn pattern_text(cells: Seq<(int, int)>) -> Seq<u8>
    decreases cells.len(),
{
    if cells.len() == 0 {
        Seq::empty()
    } else {
        line_text(cells[0]).push(LINE_FEED) + pattern_text(cells.drop_first())
    }
}

/// Whether `s` holds neither a comma nor a line feed.
pub open spec fn plain(s: Seq<u8>) -> bool {
    forall|i: int| 0 <= i < s.len() ==> #[trigger] s[i] != COMMA && s[i] != LINE_FEED
}

/// The digits of a number write that number.
pub proof fn lemma_digits_of(n: nat)
    ensures
        digits_of(n).len() > 0,
        all_digits(digits_of(n)),
        digits_value(digits_of(n)) == n,
    decreases n,
{
    if n < 10 {
        let s = digits_of(n);
        assert(s.drop_last() =~= Seq::<u8>::empty());
        assert(digits_value(s.drop_last()) == 0);
    } else {
        lemma_digits_of(n / 10);
        let s = digits_of(n);
        assert(s.drop_last() =~= digits_of(n / 10));
        assert(s.last() == (ZERO + n % 10) as u8);
    }
}

/// A component as text is read back as that component.
pub proof fn lemma_number_text(v: int)
    requires
        i64::MIN <= v <= i64::MAX,
    ensures
        number_of(number_text(v)) == Some(v),
        plain(number_text(v)),
        number_text(v).len() > 0,
{
    let s = number_text(v);
    if v < 0 {
        let digits = digits_of((-v) as nat);
        lemma_digits_of((-v) as nat);
        assert(s.drop_first() =~= digits);
        assert forall|i: int| 0 <= i < s.len() implies #[trigger] s[i] != COMMA && s[i]
            != LINE_FEED by {
            if i > 0 {
                assert(is_digit(digits[i - 1]));
            }
        }
    } else {
        lemma_digits_of(v as nat);
        assert(is_digit(s[0]));
        assert forall|i: int| 0 <= i < s.len() implies #[trigger] s[i] != COMMA && s[i]
            != LINE_FEED by {
            assert(is_digit(s[i]));
        }
    }
}

/// A cell as a line is read back as that cell.
pub proof fn lemma_line_text(c: (int, int))
    requires
        in_plane(c),
    ensures
        cell_of_line(line_text(c)) == Some(c),
        line_text(c).len() > 0,
        forall|i: int| 0 <= i < line_text(c).len() ==> line_text(c)[i] != LINE_FEED,
{
    let left = number_text(c.0);
    let right = number_text(c.1);
    let line = line_text(c);
    lemma_number_text(c.0);
    lemma_number_text(c.1);
    assert forall|i: int| 0 <= i < left.len() implies line[i] != COMMA by {
        assert(line[i] == left[i]);
    }
    lemma_first_index_found(line, COMMA, left.len() as int);
    assert(line.take(left.len() as int) =~= left);
    assert(line.skip(left.len() as int + 1) =~= right);
    assert forall|i: int| 0 <= i < line.len() implies line[i] != LINE_FEED by {
        if i < left.len() {
            assert(line[i] == left[i]);
        } else if i > left.len() {
            assert(line[i] == right[i - left.len() - 1]);
        }
    }
}

/// The first line of a text is what stands before its first line feed.
pub proof fn lemma_lines_of_first(line: Seq<u8>, rest: Seq<u8>)
    requires
        forall|i: int| 0 <= i < line.len() ==> line[i] != LINE_FEED,
    ensures
        lines_of(line.push(LINE_FEED) + rest) == seq![line] + lines_of(rest),
{
    let text = line.push(LINE_FEED) + rest;
    assert forall|i: int| 0 <= i < line.len() implies text[i] != LINE_FEED by {
        assert(text[i] == line[i]);
    }
    lemma_first_index_found(text, LINE_FEED, line.len() as int);
    assert(text.take(line.len() as int) =~= line);
    assert(text.skip(line.len() as int + 1) =~= rest);
}

/// Cells that are written as text and read back are the same cells, in the
/// same order.
pub proof fn lemma_round_trip(cells: Seq<(int, int)>)
    requires
        forall|i: int| 0 <= i < cells.len() ==> in_plane(#[trigger] cells[i]),
    ensures
        well_formed(pattern_text(cells)),
        cells_of_lines(lines_of(pattern_text(cells))) == cells,
    decreases cells.len(),
{
    let text = pattern_text(cells);
    if cells.len() == 0 {
        assert(lines_of(text) =~= seq![text]);
        assert(cells_of_lines(lines_of(text).drop_first()) =~= Seq::<(int, int)>::empty());
        assert(cells_of_lines(lines_of(text)) =~= cells);
    } else {
        let rest = cells.drop_first();
        let line = line_text(cells[0]);
        assert forall|i: int| 0 <= i < rest.len() implies in_plane(#[trigger] rest[i]) by {
            assert(rest[i] == cells[i + 1]);
        }
        lemma_round_trip(rest);
        lemma_line_text(cells[0]);
        lemma_lines_of_first(line, pattern_text(rest));
        let lines = lines_of(text);
        assert(lines.drop_first() =~= lines_of(pattern_text(rest)));
        assert(lines[0] == line);
        assert forall|i: int| 0 <= i < lines.len() implies !malformed(#[trigger] lines[i]) by {
            if i > 0 {
                assert(lines[i] == lines_of(pattern_text(rest))[i - 1]);
            }
        }
        assert(cells_of_lines(lines) =~= cells);
    }
}

/// Where `at` is the place of the first `b` in `s`, or the length of `s`
/// if it holds none, `first_index` gives `at`.
proof fn lemma_first_index_found(s: Seq<u8>, b: u8, at: int)
    requires
        0 <= at <= s.len(),
        at < s.len() ==> s[at] == b,
        forall|i: int| 0 <= i < at ==> s[i] != b,
    ensures
        first_index(s, b) == at,
    decreases s.len(),
{
    if at > 0 {
        let rest = s.drop_first();
        assert(s[0] != b);
        assert forall|i: int| 0 <= i < at - 1 implies rest[i] != b by {
            assert(rest[i] == s[i + 1]);
        }
        lemma_first_index_found(rest, b, at - 1);
    }
}

/// Digits never write less than the digits they begin with.
proof fn lemma_digits_value_grows(s: Seq<u8>, n: int)
    requires
        all_digits(s),
        0 <= n <= s.len(),
    ensures
        0 <= digits_value(s.take(n)) <= digits_value(s),
    decreases s.len() - n,
{
    lemma_digits_value_bounds(s.take(n));
    if n < s.len() {
        let longer = s.take(n + 1);
        assert(longer.drop_last() =~= s.take(n));
        assert(is_digit(longer.last()));
        lemma_digits_value_grows(s, n + 1);
    } else {
        assert(s.take(n) =~= s);
    }
}

proof fn lemma_digits_value_bounds(s: Seq<u8>)
    requires
        all_digits(s),
    ensures
        0 <= digits_value(s),
    decreases s.len(),
{
    if s.len() > 0 {
        assert(is_digit(s.last()));
        lemma_digits_value_bounds(s.drop_last());
    }
}

/// The place of the first `b` in `s` at or after `from`, or the length of
/// `s` if there is none.
fn find(s: &[u8], from: usize, b: u8) -> (at: usize)
    requires
        from <= s.len(),
    ensures
        from <= at <= s.len(),
        at == from + first_index(s@.skip(from as int), b),
{
    let mut at: usize = from;
    while at < s.len() && s[at] != b
        invariant
            from <= at <= s.len(),
            forall|i: int| from <= i < at ==> s@[i] != b,
        decreases s.len() - at,
    {
        at += 1;
    }
    proof {
        lemma_first_index_found(s@.skip(from as int), b, at - from);
    }
    at
}

/// The part of `s` from `from` up to `to`, as a vector of its own.
fn copy_range(s: &[u8], from: usize, to: usize) -> (part: Vec<u8>)
    requires
        from <= to <= s.len(),
    ensures
        part@ == s@.subrange(from as int, to as int),
{
    let mut part: Vec<u8> = Vec::new();
    let mut i: usize = from;
    while i < to
        invariant
            from <= i <= to <= s.len(),
            part@ == s@.subrange(from as int, i as int),
        decreases to - i,
    {
        part.push(s[i]);
        i += 1;
    }
    part
}

/// The digits `s[from..]` as a number, if they are digits, at least one,
/// and write no more than `limit`.
fn parse_digits(s: &[u8], from: usize, limit: u64) -> (value: Option<u64>)
    requires
        from <= s.len(),
        limit >= 9,
    ensures
        value matches Some(v) ==> {
            &&& from < s.len()
            &&& all_digits(s@.skip(from as int))
            &&& v == digits_value(s@.skip(from as int))
            &&& v <= limit
        },
        value is None ==> !(from < s.len() && all_digits(s@.skip(from as int)) && digits_value(
            s@.skip(from as int),
        ) <= limit),
{
    let ghost digits = s@.skip(from as int);
    if from >= s.len() {
        return None;
    }
    let mut value: u64 = 0;
    let mut i: usize = from;
    while i < s.len()
        invariant
            from <= i <= s.len(),
            digits == s@.skip(from as int),
            all_digits(digits.take(i - from)),
            value == digits_value(digits.take(i - from)),
            value <= limit,
            limit >= 9,
        decreases s.len() - i,
    {
        let b = s[i];
        proof {
            assert(digits[i - from] == b);
            assert(digits.take(i - from + 1).drop_last() =~= digits.take(i - from));
            assert(digits.take(i - from + 1).last() == b);
        }
        if b < ZERO || b > ZERO + 9 {
            return None;
        }
        let digit: u64 = (b - ZERO) as u64;
        proof {
            assert(all_digits(digits.take(i - from + 1))) by {
                assert forall|j: int| 0 <= j < i - from + 1 implies is_digit(
                    #[trigger] digits.take(i - from + 1)[j],
                ) by {
                    if j < i - from {
                        assert(digits.take(i - from)[j] == digits[j]);
                    }
                }
            }
        }
        if value > (limit - digit) / 10 {
            proof {
                assert(10 * value + digit > limit);
                if all_digits(digits) {
                    lemma_digits_value_grows(digits, i - from + 1);
                }
            }
            return None;
        }
        value = value * 10 + digit;
        i += 1;
    }
    proof {
        assert(digits.take(i - from) =~= digits);
    }
    Some(value)
}

/// The coordinate component that `s` writes, if it writes one.
pub fn parse_number(s: &[u8]) -> (number: Option<i64>)
    ensures
        number matches Some(v) ==> number_of(s@) == Some(v as int),
        number is None ==> number_of(s@) is None,
{
    if s.len() > 0 && s[0] == MINUS {
        proof {
            assert(s@.skip(1) =~= s@.drop_first());
        }
        match parse_digits(s, 1, 0x8000_0000_0000_0000) {
            Some(v) => Some((0 - v as i128) as i64),
            None => None,
        }
    } else {
        proof {
            assert(s@.skip(0) =~= s@);
        }
        match parse_digits(s, 0, 0x7fff_ffff_ffff_ffff) {
            Some(v) => Some(v as i64),
            None => None,
        }
    }
}

/// The cell that a line writes, if it writes one.
pub fn parse_line(line: &[u8]) -> (cell: Option<Coordinate>)
    ensures
        cell matches Some(c) ==> cell_of_line(line@) == Some(c@),
        cell is None ==> cell_of_line(line@) is None,
{
    let comma = find(line, 0, COMMA);
    proof {
        assert(line@.skip(0) =~= line@);
    }
    if comma >= line.len() {
        return None;
    }
    let left = copy_range(line, 0, comma);
    let right = copy_range(line, comma + 1, line.len());
    proof {
        assert(left@ =~= line@.take(comma as int));
        assert(right@ =~= line@.skip(comma + 1));
    }
    match parse_number(left.as_slice()) {
        Some(x) => match parse_number(right.as_slice()) {
            Some(y) => Some(Coordinate::new(x, y)),
            None => None,
        },
        None => None,
    }
}

/// The lines of a text.
pub fn split_lines(text: &[u8]) -> (lines: Vec<Vec<u8>>)
    ensures
        lines@.map_values(|line: Vec<u8>| line@) == lines_of(text@),
{
    let mut lines: Vec<Vec<u8>> = Vec::new();
    let mut start: usize = 0;
    proof {
        assert(text@.skip(0) =~= text@);
        assert(lines@.map_values(|line: Vec<u8>| line@) =~= Seq::<Seq<u8>>::empty());
    }
    loop
        invariant_except_break
            start <= text.len(),
            lines@.map_values(|line: Vec<u8>| line@) + lines_of(text@.skip(start as int))
                == lines_of(text@),
        ensures
            lines@.map_values(|line: Vec<u8>| line@) == lines_of(text@),
        decreases text.len() - start,
    {
        let end = find(text, start, LINE_FEED);
        let line = copy_range(text, start, end);
        let ghost rest = text@.skip(start as int);
        let ghost before = lines@.map_values(|line: Vec<u8>| line@);
        lines.push(line);
        proof {
            assert(line@ =~= rest.take(end - start));
            assert(lines@.map_values(|line: Vec<u8>| line@) =~= before.push(line@));
        }
        if end >= text.len() {
            proof {
                assert(rest.take(end - start) =~= rest);
                assert(lines_of(rest) =~= seq![rest]);
                assert(before.push(line@) =~= before + seq![rest]);
            }
            break;
        }
        proof {
            assert(rest.skip(end - start + 1) =~= text@.skip(end + 1));
            assert(lines_of(rest) =~= seq![line@] + lines_of(text@.skip(end + 1)));
            assert(before.push(line@) + lines_of(text@.skip(end + 1)) =~= before + lines_of(rest));
        }
        start = end + 1;
    }
    lines
}

/// The cells that a text writes, in its order, or the first line of it that
/// is malformed, with its number, counted from 1.
pub fn parse_pattern(text: &[u8]) -> (pattern: Result<Vec<Coordinate>, Error>)
    ensures
        pattern is Ok <==> well_formed(text@),
        pattern matches Ok(cells) ==> pairs(cells@) == cells_of_lines(lines_of(text@)),
        pattern matches Err(error) ==> reports(error, text@),
{
    let mut lines = split_lines(text);
    let ghost all = lines_of(text@);
    let mut cells: Vec<Coordinate> = Vec::new();
    let mut i: usize = 0;
    proof {
        assert(all.skip(0) =~= all);
        assert(pairs(cells@) =~= Seq::<(int, int)>::empty());
    }
    while i < lines.len()
        invariant
            i <= lines.len(),
            all == lines_of(text@),
            lines@.map_values(|line: Vec<u8>| line@) == all,
            forall|j: int| 0 <= j < i ==> !malformed(#[trigger] all[j]),
            pairs(cells@) + cells_of_lines(all.skip(i as int)) == cells_of_lines(all),
        decreases lines.len() - i,
    {
        let ghost before = pairs(cells@);
        proof {
            assert(all[i as int] == lines@[i as int]@);
            assert(all.skip(i as int).drop_first() =~= all.skip(i + 1));
            assert(all.skip(i as int)[0] == all[i as int]);
        }
        match parse_line(lines[i].as_slice()) {
            Some(c) => {
                cells.push(c);
                proof {
                    assert(pairs(cells@) =~= before.push(c@));
                    assert(before.push(c@) + cells_of_lines(all.skip(i + 1)) =~= before + (seq![
                        c@,
                    ] + cells_of_lines(all.skip(i + 1))));
                }
            },
            None => {
                if lines[i].len() > 0 {
                    let token = lines.swap_remove(i);
                    return Err(Error::MalformedPattern { line: i + 1, token });
                }
            },
        }
        i += 1;
    }
    proof {
        assert(all.skip(i as int) =~= Seq::<Seq<u8>>::empty());
        assert(pairs(cells@) + Seq::<(int, int)>::empty() =~= pairs(cells@));
    }
    Ok(cells)
}

/// Appends the decimal digits of `n`.
fn push_digits(out: &mut Vec<u8>, n: u64)
    ensures
        final(out)@ == old(out)@ + digits_of(n as nat),
    decreases n,
{
    if n < 10 {
        out.push(ZERO + n as u8);
        assert(out@ =~= old(out)@ + digits_of(n as nat));
    } else {
        push_digits(out, n / 10);
        out.push(ZERO + (n % 10) as u8);
        assert(out@ =~= old(out)@ + digits_of(n as nat));
    }
}

/// Appends a coordinate component.
fn push_number(out: &mut Vec<u8>, v: i64)
    ensures
        final(out)@ == old(out)@ + number_text(v as int),
{
    if v < 0 {
        out.push(MINUS);
        push_digits(out, (0 - v as i128) as u64);
        assert(out@ =~= old(out)@ + number_text(v as int));
    } else {
        push_digits(out, v as u64);
    }
}

/// The cells as text: a line `x,y` for each, in their order, each ended by
/// a line feed.
pub fn format_pattern(cells: &[Coordinate]) -> (text: Vec<u8>)
    ensures
        text@ == pattern_text(pairs(cells@)),
{
    let mut text: Vec<u8> = Vec::new();
    let mut i: usize = 0;
    let ghost all = pairs(cells@);
    proof {
        assert(all.skip(0) =~= all);
    }
    while i < cells.len()
        invariant
            i <= cells.len(),
            all == pairs(cells@),
            text@ + pattern_text(all.skip(i as int)) == pattern_text(all),
        decreases cells.len() - i,
    {
        let ghost before = text@;
        let ghost rest = all.skip(i as int);
        push_number(&mut text, cells[i].x);
        text.push(COMMA);
        push_number(&mut text, cells[i].y);
        text.push(LINE_FEED);
        proof {
            assert(rest[0] == cells@[i as int]@);
            assert(rest.drop_first() =~= all.skip(i + 1));
            assert(text@ =~= before + line_text(rest[0]).push(LINE_FEED));
            assert(text@ + pattern_text(all.skip(i + 1)) =~= before + pattern_text(rest));
        }
        i += 1;
    }
    proof {
        assert(pattern_text(all.skip(i as int)) =~= Seq::<u8>::empty());
        assert(text@ + Seq::<u8>::empty() =~= text@);
    }
    text
}

} // verus!

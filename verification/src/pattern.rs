//! Reading patterns from text.
//!
//! A pattern is written one cell to a line, as `(x,y)`. A line is read in
//! these steps: the white space around it is taken away; if what is left
//! begins with `(` and ends with `)`, that one pair is taken away; the rest
//! must have exactly one comma, which parts it into two fields; each field,
//! without the white space around it, must be a number of decimal digits
//! that fits in sixteen bits, which a `+` may precede.
//!
//! A line that fails any of these steps names no cell. It is left out, and
//! the lines after it are read as if it had not been there.

use vstd::prelude::*;
use crate::point::Point;

verus! {

/// Whether `c` is white space: a character with the Unicode property
/// `White_Space`.
pub open spec fn is_space(c: char) -> bool {
    let n = c as u32;
    ||| 0x09 <= n <= 0x0d
    ||| n == 0x20
    ||| n == 0x85
    ||| n == 0xa0
    ||| n == 0x1680
    ||| 0x2000 <= n <= 0x200a
    ||| n == 0x2028
    ||| n == 0x2029
    ||| n == 0x202f
    ||| n == 0x205f
    ||| n == 0x3000
}

/// Whether `c` is one of the ten decimal digits.
pub open spec fn is_digit(c: char) -> bool {
    '0' <= c <= '9'
}

/// `s` without the white space it begins with.
pub open spec fn trim_start(s: Seq<char>) -> Seq<char>
    decreases s.len(),
{
    if s.len() > 0 && is_space(s.first()) {
        trim_start(s.drop_first())
    } else {
        s
    }
}

/// `s` without the white space it ends with.
pub open spec fn trim_end(s: Seq<char>) -> Seq<char>
    decreases s.len(),
{
    if s.len() > 0 && is_space(s.last()) {
        trim_end(s.drop_last())
    } else {
        s
    }
}

/// `s` without the white space around it.
pub open spec fn trimmed(s: Seq<char>) -> Seq<char> {
    trim_end(trim_start(s))
}

/// `s` without the one pair of parentheses that encloses it, if there is one.
pub open spec fn unwrapped(s: Seq<char>) -> Seq<char> {
    if s.len() >= 2 && s.first() == '(' && s.last() == ')' {
        s.subrange(1, s.len() - 1)
    } else {
        s
    }
}

/// Where `c` first occurs in `s`, or the length of `s` where it does not
/// occur.
pub open spec fn position(s: Seq<char>, c: char) -> int
    decreases s.len(),
{
    if s.len() == 0 || s.first() == c {
        0
    } else {
        1 + position(s.drop_first(), c)
    }
}

/// The two fields of `s`, which are separated by its only comma; `None` where
/// `s` has no comma or more than one.
pub open spec fn fields(s: Seq<char>) -> Option<(Seq<char>, Seq<char>)> {
    let at = position(s, ',');
    if at < s.len() && position(s.skip(at + 1), ',') == s.len() - (at + 1) {
        Some((s.take(at), s.skip(at + 1)))
    } else {
        None
    }
}

/// The number that the digits `s` denote in decimal.
pub open spec fn digits_value(s: Seq<char>) -> nat
    decreases s.len(),
{
    if s.len() == 0 {
        0
    } else {
        (digits_value(s.drop_last()) * 10 + (s.last() as u32 - '0' as u32)) as nat
    }
}

/// Whether `s` consists of decimal digits only.
pub open spec fn all_digits(s: Seq<char>) -> bool {
    forall|i: int| 0 <= i < s.len() ==> is_digit(#[trigger] s[i])
}

/// The coordinate that `s` denotes: one or more decimal digits, which a
/// single `+` may precede, with a value of at most 65535. `None` for anything
/// else.
pub open spec fn number(s: Seq<char>) -> Option<u16> {
    let digits = if s.len() > 0 && s.first() == '+' {
        s.drop_first()
    } else {
        s
    };
    if digits.len() > 0 && all_digits(digits) && digits_value(digits) <= 0xffff {
        Some(digits_value(digits) as u16)
    } else {
        None
    }
}

/// The cell that the line `line` names, or `None` where the line is no
/// record.
pub open spec fn parse_record(line: Seq<char>) -> Option<Point> {
    match fields(unwrapped(trimmed(line))) {
        Some((left, right)) => match (number(trimmed(left)), number(trimmed(right))) {
            (Some(x), Some(y)) => Some(Point { x, y }),
            _ => None,
        },
        None => None,
    }
}

/// The lines of `text`: the stretches between its line feeds. A line feed at
/// the very end of the text does not begin another line.
pub open spec fn lines_of(text: Seq<char>) -> Seq<Seq<char>>
    decreases text.len(),
{
    if text.len() == 0 {
        Seq::empty()
    } else {
        let end = position(text, '\n');
        if 0 <= end < text.len() {
            seq![text.take(end)] + lines_of(text.skip(end + 1))
        } else {
            seq![text]
        }
    }
}

/// The cells that one line names: its cell where it is a record, none where
/// it is not.
pub open spec fn record_cells(line: Seq<char>) -> Seq<Point> {
    match parse_record(line) {
        Some(p) => seq![p],
        None => Seq::empty(),
    }
}

/// The cells that `lines` name, in the order of the lines.
pub open spec fn parse_lines(lines: Seq<Seq<char>>) -> Seq<Point>
    decreases lines.len(),
{
    if lines.len() == 0 {
        Seq::empty()
    } else {
        record_cells(lines.first()) + parse_lines(lines.drop_first())
    }
}

/// The cells that `text` names, line by line.
pub open spec fn parse_text(text: Seq<char>) -> Seq<Point> {
    parse_lines(lines_of(text))
}

/// Reading lines one after another is reading them together: the cells of
/// `a` followed by `b` are the cells of `a`, then those of `b`. So a line
/// that is no record changes nothing in what the lines around it give, and
/// the cells come in the order of their lines.
pub proof fn lemma_parse_lines_concat(a: Seq<Seq<char>>, b: Seq<Seq<char>>)
    ensures
        parse_lines(a + b) == parse_lines(a) + parse_lines(b),
    decreases a.len(),
{
    if a.len() == 0 {
        assert(a + b == b);
    } else {
        assert((a + b).first() == a.first());
        assert((a + b).drop_first() == a.drop_first() + b);
        lemma_parse_lines_concat(a.drop_first(), b);
    }
}

/// A single line gives its cell where it is a record, and nothing where it
/// is not.
pub proof fn lemma_parse_single_line(line: Seq<char>)
    ensures
        parse_lines(seq![line]) == record_cells(line),
        parse_record(line) is None ==> parse_lines(seq![line]).len() == 0,
        parse_record(line) matches Some(p) ==> parse_lines(seq![line]) == seq![p],
{
    let one = seq![line];
    assert(one.drop_first().len() == 0);
    assert(parse_lines(one.drop_first()) == Seq::<Point>::empty());
    assert(record_cells(line) + Seq::<Point>::empty() == record_cells(line));
}

/// A line that is no record can be left out of the lines without changing
/// the cells that are read.
pub proof fn lemma_malformed_line_skipped(
    before: Seq<Seq<char>>,
    line: Seq<char>,
    after: Seq<Seq<char>>,
)
    requires
        parse_record(line) is None,
    ensures
        parse_lines(before + seq![line] + after) == parse_lines(before + after),
{
    lemma_parse_lines_concat(before + seq![line], after);
    lemma_parse_lines_concat(before, seq![line]);
    lemma_parse_single_line(line);
    lemma_parse_lines_concat(before, after);
    assert(parse_lines(before) + Seq::<Point>::empty() == parse_lines(before));
}

/// The decimal digit for `d`, which is less than ten.
pub open spec fn digit_char(d: nat) -> char {
    ('0' as u32 + d) as char
}

/// The number `n` written in decimal, without leading zeros.
pub open spec fn decimal(n: nat) -> Seq<char>
    decreases n,
{
    if n < 10 {
        seq![digit_char(n)]
    } else {
        decimal(n / 10).push(digit_char(n % 10))
    }
}

/// The record that names the cell `p`: `(x,y)` with nothing else in it.
pub open spec fn written(p: Point) -> Seq<char> {
    seq!['('] + decimal(p.x as nat) + seq![','] + decimal(p.y as nat) + seq![')']
}

/// A number written in decimal reads as itself: it is made of digits, at
/// least one, and their value is the number.
pub proof fn lemma_decimal_reads_back(n: nat)
    ensures
        decimal(n).len() > 0,
        all_digits(decimal(n)),
        digits_value(decimal(n)) == n,
    decreases n,
{
    if n < 10 {
        let s = decimal(n);
        assert(s.len() == 1 && s[0] == digit_char(n));
        assert(s.drop_last().len() == 0);
        assert(digits_value(s.drop_last()) == 0);
    } else {
        lemma_decimal_reads_back(n / 10);
        let s = decimal(n);
        let front = decimal(n / 10);
        assert(s.drop_last() == front);
        assert(s.last() == digit_char(n % 10));
        assert forall|i: int| 0 <= i < s.len() implies is_digit(#[trigger] s[i]) by {
            if i < front.len() {
                assert(s[i] == front[i]);
            }
        }
    }
}

/// Nothing is trimmed from a text that neither begins nor ends with white
/// space.
pub proof fn lemma_trimmed_unchanged(s: Seq<char>)
    requires
        s.len() > 0 ==> !is_space(s.first()) && !is_space(s.last()),
    ensures
        trimmed(s) == s,
{
}

/// Every cell can be written down and read again: the record `(x,y)` of a
/// cell names that cell.
pub proof fn lemma_written_record_is_read(p: Point)
    ensures
        parse_record(written(p)) == Some(p),
{
    let left = decimal(p.x as nat);
    let right = decimal(p.y as nat);
    lemma_decimal_reads_back(p.x as nat);
    lemma_decimal_reads_back(p.y as nat);
    let line = written(p);
    let inner = left + seq![','] + right;
    assert(line.first() == '(' && line.last() == ')');
    lemma_trimmed_unchanged(line);
    assert(line.subrange(1, line.len() - 1) == inner);
    assert(unwrapped(line) == inner);
    assert forall|i: int| 0 <= i < left.len() implies inner[i] != ',' by {
        assert(inner[i] == left[i] && is_digit(left[i]));
    }
    assert(inner[left.len() as int] == ',');
    lemma_position_found(inner, ',', left.len() as int);
    assert(inner.take(left.len() as int) == left);
    assert(inner.skip(left.len() as int + 1) == right);
    assert forall|i: int| 0 <= i < right.len() implies right[i] != ',' by {
        assert(is_digit(right[i]));
    }
    lemma_position_found(right, ',', right.len() as int);
    assert(fields(inner) == Some((left, right)));
    assert(is_digit(left.first()) && is_digit(left.last()));
    assert(is_digit(right.first()) && is_digit(right.last()));
    lemma_trimmed_unchanged(left);
    lemma_trimmed_unchanged(right);
    assert(number(left) == Some(p.x));
    assert(number(right) == Some(p.y));
}

/// The value of the first digits of a number is no more than the value of
/// all of them.
pub proof fn lemma_digits_prefix(s: Seq<char>, k: int)
    requires
        all_digits(s),
        0 <= k <= s.len(),
    ensures
        digits_value(s.take(k)) <= digits_value(s),
    decreases s.len() - k,
{
    if k == s.len() {
        assert(s.take(k) == s);
    } else {
        lemma_digits_prefix(s, k + 1);
        let longer = s.take(k + 1);
        assert(longer.drop_last() == s.take(k));
        assert(is_digit(s[k]) && longer.last() == s[k]);
    }
}

/// Where a character occurs first, it occurs, and not before; where it does
/// not occur, the position is the length.
pub proof fn lemma_position(s: Seq<char>, c: char)
    ensures
        0 <= position(s, c) <= s.len(),
        position(s, c) < s.len() ==> s[position(s, c)] == c,
        forall|i: int| 0 <= i < position(s, c) ==> s[i] != c,
    decreases s.len(),
{
    if s.len() == 0 || s.first() == c {
    } else {
        lemma_position(s.drop_first(), c);
        assert forall|i: int| 0 <= i < position(s, c) implies s[i] != c by {
            if i > 0 {
                assert(s[i] == s.drop_first()[i - 1]);
            }
        }
    }
}

/// A place before which a character does not occur, and at which it occurs or
/// the sequence ends, is its position.
pub proof fn lemma_position_found(s: Seq<char>, c: char, at: int)
    requires
        0 <= at <= s.len(),
        forall|i: int| 0 <= i < at ==> s[i] != c,
        at < s.len() ==> s[at] == c,
    ensures
        position(s, c) == at,
{
    lemma_position(s, c);
    let p = position(s, c);
    if p < at {
        assert(s[p] == c);
    } else if p > at {
        assert(s[at] != c);
    }
}

/// Tells whether `c` is white space.
pub fn is_space_char(c: char) -> (space: bool)
    ensures
        space == is_space(c),
{
    let n: u32 = c as u32;
    (0x09 <= n && n <= 0x0d) || n == 0x20 || n == 0x85 || n == 0xa0 || n == 0x1680 || (0x2000
        <= n && n <= 0x200a) || n == 0x2028 || n == 0x2029 || n == 0x202f || n == 0x205f || n
        == 0x3000
}

/// The characters of `text`, in order.
fn to_chars(text: &str) -> (chars: Vec<char>)
    ensures
        chars@ == text@,
{
    let mut chars: Vec<char> = Vec::new();
    for c in it: text.chars()
        invariant
            chars@ == text@.take(it.index() as int),
            it.seq() == text@,
    {
        chars.push(c);
    }
    chars
}

/// Finds the stretch of `chars[from..to]` that is left when the white space
/// around it is taken away.
fn trim_span(chars: &Vec<char>, from: usize, to: usize) -> (span: (usize, usize))
    requires
        from <= to <= chars@.len(),
    ensures
        from <= span.0 <= span.1 <= to,
        chars@.subrange(span.0 as int, span.1 as int) == trimmed(
            chars@.subrange(from as int, to as int),
        ),
{
    let mut lo = from;
    while lo < to && is_space_char(chars[lo])
        invariant
            from <= lo <= to <= chars@.len(),
            trim_start(chars@.subrange(from as int, to as int)) == trim_start(
                chars@.subrange(lo as int, to as int),
            ),
        decreases to - lo,
    {
        assert(chars@.subrange(lo as int, to as int).drop_first() == chars@.subrange(
            lo as int + 1,
            to as int,
        ));
        lo += 1;
    }
    assert(trim_start(chars@.subrange(lo as int, to as int)) == chars@.subrange(
        lo as int,
        to as int,
    ));
    let mut hi = to;
    while lo < hi && is_space_char(chars[hi - 1])
        invariant
            lo <= hi <= to <= chars@.len(),
            trim_end(chars@.subrange(lo as int, to as int)) == trim_end(
                chars@.subrange(lo as int, hi as int),
            ),
        decreases hi - lo,
    {
        assert(chars@.subrange(lo as int, hi as int).drop_last() == chars@.subrange(
            lo as int,
            hi as int - 1,
        ));
        hi -= 1;
    }
    assert(trim_end(chars@.subrange(lo as int, hi as int)) == chars@.subrange(
        lo as int,
        hi as int,
    ));
    (lo, hi)
}

/// Finds where `c` first occurs in `chars[from..to]`; `to` where it does not.
fn find_char(chars: &Vec<char>, from: usize, to: usize, c: char) -> (at: usize)
    requires
        from <= to <= chars@.len(),
    ensures
        from <= at <= to,
        at - from == position(chars@.subrange(from as int, to as int), c),
{
    let mut at = from;
    while at < to && chars[at] != c
        invariant
            from <= at <= to <= chars@.len(),
            forall|i: int| from <= i < at ==> chars@[i] != c,
        decreases to - at,
    {
        at += 1;
    }
    proof {
        lemma_position_found(chars@.subrange(from as int, to as int), c, at - from);
    }
    at
}

/// Reads the coordinate that `chars[from..to]` denotes.
fn number_span(chars: &Vec<char>, from: usize, to: usize) -> (value: Option<u16>)
    requires
        from <= to <= chars@.len(),
    ensures
        value == number(chars@.subrange(from as int, to as int)),
{
    let ghost whole = chars@.subrange(from as int, to as int);
    let mut i = from;
    if i < to && chars[i] == '+' {
        i += 1;
    }
    let start = i;
    let ghost digits = chars@.subrange(start as int, to as int);
    assert(digits == if whole.len() > 0 && whole.first() == '+' {
        whole.drop_first()
    } else {
        whole
    });
    if start == to {
        return None;
    }
    let mut total: u32 = 0;
    while i < to
        invariant
            from <= start <= i <= to <= chars@.len(),
            digits == chars@.subrange(start as int, to as int),
            digits.len() > 0,
            number(chars@.subrange(from as int, to as int)) == if all_digits(digits)
                && digits_value(digits) <= 0xffff {
                Some(digits_value(digits) as u16)
            } else {
                None
            },
            all_digits(digits.take(i - start)),
            total == digits_value(digits.take(i - start)),
            total <= 0xffff,
        decreases to - i,
    {
        let c = chars[i];
        let ghost seen = digits.take(i - start);
        let ghost more = digits.take(i - start + 1);
        assert(more.drop_last() == seen && more.last() == c);
        assert(digits[i - start] == c);
        if !('0' <= c && c <= '9') {
            return None;
        }
        let next: u32 = total * 10 + (c as u32 - '0' as u32);
        assert(next == digits_value(more));
        if next > 0xffff {
            proof {
                if all_digits(digits) {
                    lemma_digits_prefix(digits, i - start + 1);
                }
            }
            return None;
        }
        assert forall|k: int| 0 <= k < more.len() implies is_digit(#[trigger] more[k]) by {
            if k < seen.len() {
                assert(more[k] == seen[k]);
            }
        }
        total = next;
        i += 1;
    }
    assert(digits.take(i - start) == digits);
    Some(total as u16)
}

/// Reads the cell that the line `chars[from..to]` names.
fn record_span(chars: &Vec<char>, from: usize, to: usize) -> (cell: Option<Point>)
    requires
        from <= to <= chars@.len(),
    ensures
        cell == parse_record(chars@.subrange(from as int, to as int)),
{
    let (outer_lo, outer_hi) = trim_span(chars, from, to);
    let ghost bare = chars@.subrange(outer_lo as int, outer_hi as int);
    let enclosed = outer_hi - outer_lo >= 2 && chars[outer_lo] == '(' && chars[outer_hi - 1]
        == ')';
    assert(enclosed == (bare.len() >= 2 && bare.first() == '(' && bare.last() == ')'));
    let lo = if enclosed {
        outer_lo + 1
    } else {
        outer_lo
    };
    let hi = if enclosed {
        outer_hi - 1
    } else {
        outer_hi
    };
    let ghost inner = chars@.subrange(lo as int, hi as int);
    assert(inner == unwrapped(bare));
    let comma = find_char(chars, lo, hi, ',');
    if comma == hi {
        return None;
    }
    assert(inner.skip(comma - lo + 1) == chars@.subrange(comma as int + 1, hi as int));
    assert(inner.take(comma - lo) == chars@.subrange(lo as int, comma as int));
    let second = find_char(chars, comma + 1, hi, ',');
    if second != hi {
        return None;
    }
    let (left_lo, left_hi) = trim_span(chars, lo, comma);
    let (right_lo, right_hi) = trim_span(chars, comma + 1, hi);
    let x = number_span(chars, left_lo, left_hi);
    let y = number_span(chars, right_lo, right_hi);
    match (x, y) {
        (Some(x), Some(y)) => Some(Point { x, y }),
        _ => None,
    }
}

/// Reads the cell that one line names: `(x,y)`, where the parentheses may be
/// missing and white space may stand around the record and around each
/// number. A line that is no such record gives `None`.
pub fn parse_line(line: &str) -> (cell: Option<Point>)
    ensures
        cell == parse_record(line@),
{
    let chars = to_chars(line);
    assert(chars@.subrange(0, chars@.len() as int) == chars@);
    record_span(&chars, 0, chars.len())
}

/// Reads the cells that a text names, one line after another. The cells come
/// in the order of their lines; lines that are no records are left out.
pub fn parse_pattern(text: &str) -> (cells: Vec<Point>)
    ensures
        cells@ == parse_text(text@),
{
    let chars = to_chars(text);
    let n = chars.len();
    let mut cells: Vec<Point> = Vec::new();
    let mut start: usize = 0;
    assert(chars@.skip(0) == chars@);
    while start < n
        invariant
            start <= n == chars@.len(),
            parse_text(chars@) == cells@ + parse_text(chars@.skip(start as int)),
        decreases n - start,
    {
        let end = find_char(&chars, start, n, '\n');
        let cell = record_span(&chars, start, end);
        let ghost rest = chars@.skip(start as int);
        let ghost line = chars@.subrange(start as int, end as int);
        let ghost before = cells@;
        assert(rest == chars@.subrange(start as int, n as int));
        assert(rest.take(end - start) == line);
        let next = if end < n {
            end + 1
        } else {
            end
        };
        proof {
            let tail = chars@.skip(next as int);
            if end < n {
                assert(rest.skip(end - start + 1) == tail);
                assert(lines_of(rest) == seq![line] + lines_of(tail));
            } else {
                assert(line == rest);
                assert(lines_of(rest) == seq![line]);
                assert(lines_of(tail) == Seq::<Seq<char>>::empty());
                assert(seq![line] + lines_of(tail) == seq![line]);
            }
            lemma_parse_lines_concat(seq![line], lines_of(tail));
            lemma_parse_single_line(line);
            assert(parse_text(rest) == record_cells(line) + parse_text(tail));
        }
        match cell {
            Some(p) => {
                cells.push(p);
                assert(cells@ == before + seq![p]);
            },
            None => {},
        }
        assert(cells@ == before + record_cells(line));
        assert(before + (record_cells(line) + parse_text(chars@.skip(next as int))) == (before
            + record_cells(line)) + parse_text(chars@.skip(next as int)));
        start = next;
    }
    assert(chars@.skip(n as int).len() == 0);
    assert(cells@ + Seq::<Point>::empty() == cells@);
    cells
}

} // verus!

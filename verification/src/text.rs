//! Text: white space, lines, decimal numbers and paths.

use vstd::prelude::*;

verus! {

/// `String::push` appends one character.
pub assume_specification[ String::push ](s: &mut String, c: char)
    ensures
        final(s)@ == old(s)@.push(c),
;

/// The characters of `s`.
pub fn chars_of(s: &str) -> (r: Vec<char>)
    ensures
        r@ == s@,
{
    let mut r: Vec<char> = Vec::new();
    for c in it: s.chars()
        invariant
            it.seq() == s@,
            r@ == s@.take(it.index() as int),
    {
        r.push(c);
    }
    r
}

/// The text that `chars` spell.
pub fn string_of(chars: &[char]) -> (r: String)
    ensures
        r@ == chars@,
{
    let mut r: String = String::new();
    let mut i: usize = 0;
    while i < chars.len()
        invariant
            i <= chars@.len(),
            r@ == chars@.take(i as int),
        decreases chars@.len() - i,
    {
        r.push(chars[i]);
        i = i + 1;
        assert(chars@.take(i as int) =~= chars@.take(i - 1).push(chars@[i - 1]));
    }
    assert(chars@.take(i as int) =~= chars@);
    r
}

/// Whether two texts are the same.
pub fn same_chars(a: &[char], b: &[char]) -> (r: bool)
    ensures
        r == (a@ == b@),
{
    if a.len() != b.len() {
        return false;
    }
    let mut i: usize = 0;
    while i < a.len()
        invariant
            i <= a@.len(),
            a@.len() == b@.len(),
            forall|j: int| 0 <= j < i ==> a@[j] == b@[j],
        decreases a@.len() - i,
    {
        if a[i] != b[i] {
            return false;
        }
        i = i + 1;
    }
    assert(a@ =~= b@);
    true
}

/// Whether `s` is the text `t`.
pub fn same_text(s: &str, t: &str) -> (r: bool)
    ensures
        r == (s@ == t@),
{
    same_chars(&chars_of(s), &chars_of(t))
}

/// The Unicode property `White_Space`.
pub open spec fn is_white_space(c: char) -> bool {
    ||| '\u{9}' <= c <= '\u{d}'
    ||| c == ' '
    ||| c == '\u{85}'
    ||| c == '\u{a0}'
    ||| c == '\u{1680}'
    ||| '\u{2000}' <= c <= '\u{200a}'
    ||| c == '\u{2028}'
    ||| c == '\u{2029}'
    ||| c == '\u{202f}'
    ||| c == '\u{205f}'
    ||| c == '\u{3000}'
}

/// The Unicode property `White_Space`.
pub fn white_space(c: char) -> (r: bool)
    ensures
        r == is_white_space(c),
{
    ('\u{9}' <= c && c <= '\u{d}') || c == ' ' || c == '\u{85}' || c == '\u{a0}' || c == '\u{1680}'
        || ('\u{2000}' <= c && c <= '\u{200a}') || c == '\u{2028}' || c == '\u{2029}' || c == '\u{202f}'
        || c == '\u{205f}' || c == '\u{3000}'
}

/// `s` without the white space at its start.
pub open spec fn trimmed_start(s: Seq<char>) -> Seq<char>
    decreases s.len(),
{
    if s.len() > 0 && is_white_space(s[0]) {
        trimmed_start(s.drop_first())
    } else {
        s
    }
}

/// `s` without the white space at its end.
pub open spec fn trimmed_end(s: Seq<char>) -> Seq<char>
    decreases s.len(),
{
    if s.len() > 0 && is_white_space(s.last()) {
        trimmed_end(s.drop_last())
    } else {
        s
    }
}

/// `s` without the white space at both ends.
pub open spec fn trimmed(s: Seq<char>) -> Seq<char> {
    trimmed_end(trimmed_start(s))
}

/// `s[start..end]`.
pub fn part_of(s: &[char], start: usize, end: usize) -> (r: Vec<char>)
    requires
        start <= end <= s@.len(),
    ensures
        r@ == s@.subrange(start as int, end as int),
{
    let mut r: Vec<char> = Vec::new();
    let mut i: usize = start;
    while i < end
        invariant
            start <= i <= end <= s@.len(),
            r@ == s@.subrange(start as int, i as int),
        decreases end - i,
    {
        r.push(s[i]);
        i = i + 1;
        assert(s@.subrange(start as int, i as int) =~= s@.subrange(start as int, i - 1).push(s@[i - 1]));
    }
    r
}

/// Removes the white space at the end.
pub fn trim_end(s: &[char]) -> (r: Vec<char>)
    ensures
        r@ == trimmed_end(s@),
{
    let mut end: usize = s.len();
    assert(s@.take(end as int) =~= s@);
    while end > 0 && white_space(s[end - 1])
        invariant
            end <= s@.len(),
            trimmed_end(s@) == trimmed_end(s@.take(end as int)),
        decreases end,
    {
        assert(s@.take(end as int).drop_last() =~= s@.take(end - 1));
        end = end - 1;
    }
    assert(s@.take(end as int) =~= s@.subrange(0, end as int));
    part_of(s, 0, end)
}

/// Removes the white space at both ends.
pub fn trim(s: &[char]) -> (r: Vec<char>)
    ensures
        r@ == trimmed(s@),
{
    let mut start: usize = 0;
    assert(s@.skip(0) =~= s@);
    while start < s.len() && white_space(s[start])
        invariant
            start <= s@.len(),
            trimmed_start(s@) == trimmed_start(s@.skip(start as int)),
        decreases s@.len() - start,
    {
        assert(s@.skip(start as int).drop_first() =~= s@.skip(start + 1));
        start = start + 1;
    }
    assert(s@.skip(start as int) =~= s@.subrange(start as int, s@.len() as int));
    trim_end(&part_of(s, start, s.len()))
}

/// The length of the first line, its line feed not counted.
pub open spec fn line_len(s: Seq<char>) -> nat
    decreases s.len(),
{
    if s.len() == 0 || s[0] == '\n' {
        0
    } else {
        1 + line_len(s.drop_first())
    }
}

/// A line that a line feed ends, without the carriage return before it.
pub open spec fn without_return(s: Seq<char>) -> Seq<char> {
    if s.len() > 0 && s.last() == '\r' {
        s.drop_last()
    } else {
        s
    }
}

/// The lines of a text.
///
/// A line ends at a line feed, or at a carriage return and a line feed; the
/// last one may lack its end.
pub open spec fn lines(s: Seq<char>) -> Seq<Seq<char>>
    decreases s.len(),
{
    let n = line_len(s) as int;
    if s.len() == 0 {
        Seq::empty()
    } else if n >= s.len() {
        seq![s]
    } else {
        seq![without_return(s.take(n))] + lines(s.skip(n + 1))
    }
}

proof fn lemma_line_len(s: Seq<char>, n: int)
    requires
        0 <= n <= s.len(),
        forall|i: int| 0 <= i < n ==> s[i] != '\n',
        n < s.len() ==> s[n] == '\n',
    ensures
        line_len(s) == n,
    decreases n,
{
    if n > 0 {
        lemma_line_len(s.drop_first(), n - 1);
    }
}

/// Splits a text into its lines.
pub fn split_lines(s: &[char]) -> (r: Vec<Vec<char>>)
    ensures
        r@.map_values(|l: Vec<char>| l@) == lines(s@),
{
    let mut r: Vec<Vec<char>> = Vec::new();
    let mut start: usize = 0;
    assert(s@.skip(0) =~= s@);
    assert(r@.map_values(|l: Vec<char>| l@) + lines(s@) =~= lines(s@));
    while start < s.len()
        invariant
            start <= s@.len(),
            r@.map_values(|l: Vec<char>| l@) + lines(s@.skip(start as int)) == lines(s@),
        decreases s@.len() - start,
    {
        let ghost rest = s@.skip(start as int);
        let mut n: usize = start;
        while n < s.len() && s[n] != '\n'
            invariant
                start <= n <= s@.len(),
                forall|i: int| start <= i < n ==> s@[i] != '\n',
            decreases s@.len() - n,
        {
            n = n + 1;
        }
        proof {
            lemma_line_len(rest, n - start);
        }
        let ghost before = r@.map_values(|l: Vec<char>| l@);
        if n >= s.len() {
            let line: Vec<char> = part_of(s, start, n);
            proof {
                assert(line@ =~= rest);
                assert(lines(rest) =~= seq![rest]);
                assert(s@.skip(n as int) =~= Seq::<char>::empty());
            }
            r.push(line);
            start = n;
            assert(r@.map_values(|l: Vec<char>| l@) =~= before.push(rest));
            assert(before.push(rest) + lines(s@.skip(n as int)) =~= before + lines(rest));
        } else {
            let end: usize = if n > start && s[n - 1] == '\r' { n - 1 } else { n };
            let line: Vec<char> = part_of(s, start, end);
            proof {
                assert(rest.take(n - start) =~= s@.subrange(start as int, n as int));
                assert(line@ =~= without_return(rest.take(n - start)));
                assert(rest.skip(n - start + 1) =~= s@.skip(n + 1));
            }
            r.push(line);
            assert(r@.map_values(|l: Vec<char>| l@) =~= before.push(line@));
            assert(before.push(line@) + lines(s@.skip(n + 1)) =~= before + lines(rest));
            start = n + 1;
        }
    }
    assert(s@.skip(start as int) =~= Seq::<char>::empty());
    assert(r@.map_values(|l: Vec<char>| l@) + lines(s@.skip(start as int)) =~= r@.map_values(|l: Vec<char>| l@));
    r
}

/// An ASCII digit.
pub open spec fn is_digit(c: char) -> bool {
    '0' <= c <= '9'
}

/// The number that decimal digits spell.
pub open spec fn decimal_value(s: Seq<char>) -> nat
    decreases s.len(),
{
    if s.len() == 0 {
        0
    } else {
        10 * decimal_value(s.drop_last()) + (s.last() as nat - '0' as nat) as nat
    }
}

/// `s` is a number in decimal digits.
pub open spec fn is_decimal(s: Seq<char>) -> bool {
    s.len() > 0 && forall|i: int| 0 <= i < s.len() ==> is_digit(#[trigger] s[i])
}

/// The integer in `[min, max]` that `s` spells: decimal digits behind an
/// optional `+`, or `-` where there are negative integers.
pub open spec fn parsed_integer(s: Seq<char>, min: int, max: int) -> Option<int> {
    let signed = s.len() > 0 && (s[0] == '+' || (min < 0 && s[0] == '-'));
    let digits = if signed { s.drop_first() } else { s };
    let value = if signed && s[0] == '-' {
        -(decimal_value(digits) as int)
    } else {
        decimal_value(digits) as int
    };
    if is_decimal(digits) && min <= value <= max {
        Some(value)
    } else {
        None
    }
}

/// A longer number is no smaller.
proof fn lemma_decimal_prefix(s: Seq<char>, n: int)
    requires
        0 <= n <= s.len(),
        forall|i: int| 0 <= i < s.len() ==> is_digit(#[trigger] s[i]),
    ensures
        decimal_value(s.take(n)) <= decimal_value(s),
    decreases s.len(),
{
    if n == s.len() {
        assert(s.take(n) =~= s);
    } else {
        assert(s.drop_last().take(n) =~= s.take(n));
        lemma_decimal_prefix(s.drop_last(), n);
    }
}

/// The value of `s[start..]` in decimal, unless it exceeds `max`.
fn read_digits(s: &[char], start: usize, max: u64) -> (r: Option<u64>)
    requires
        start <= s@.len(),
    ensures
        r == (if is_decimal(s@.skip(start as int)) && decimal_value(s@.skip(start as int)) <= max {
            Some(decimal_value(s@.skip(start as int)) as u64)
        } else {
            None
        }),
{
    let ghost digits = s@.skip(start as int);
    if start == s.len() {
        return None;
    }
    let mut value: u64 = 0;
    let mut i: usize = start;
    assert(digits.take(0) =~= Seq::<char>::empty());
    while i < s.len()
        invariant
            start < s@.len(),
            start <= i <= s@.len(),
            digits == s@.skip(start as int),
            forall|j: int| 0 <= j < i - start ==> is_digit(#[trigger] digits[j]),
            value == decimal_value(digits.take(i - start)),
            value <= max,
        decreases s@.len() - i,
    {
        let c: char = s[i];
        assert(digits[i - start] == c);
        if !('0' <= c && c <= '9') {
            return None;
        }
        let d: u64 = (c as u32 - '0' as u32) as u64;
        let ghost next = digits.take(i - start + 1);
        assert(next.drop_last() =~= digits.take(i - start));
        assert(decimal_value(next) == 10 * value + d);
        if value > max / 10 || d > max - 10 * value {
            proof {
                if is_decimal(digits) {
                    lemma_decimal_prefix(digits, i - start + 1);
                }
            }
            return None;
        }
        value = 10 * value + d;
        i = i + 1;
    }
    assert(digits.take(i - start) =~= digits);
    Some(value)
}

/// Parses an `i32`.
pub fn parse_i32(s: &[char]) -> (r: Option<i32>)
    ensures
        parsed_integer(s@, i32::MIN as int, i32::MAX as int) == (match r {
            Some(v) => Some(v as int),
            None => None::<int>,
        }),
{
    if s.len() > 0 && s[0] == '-' {
        assert(s@.drop_first() =~= s@.skip(1));
        match read_digits(s, 1, 0x8000_0000) {
            Some(v) => Some((-(v as i64)) as i32),
            None => None,
        }
    } else {
        let start: usize = if s.len() > 0 && s[0] == '+' { 1 } else { 0 };
        proof {
            if start == 1 {
                assert(s@.drop_first() =~= s@.skip(1));
            } else {
                assert(s@.skip(0) =~= s@);
            }
        }
        match read_digits(s, start, 0x7fff_ffff) {
            Some(v) => Some(v as i32),
            None => None,
        }
    }
}

/// Parses a `u64`.
pub fn parse_u64(s: &[char]) -> (r: Option<u64>)
    ensures
        parsed_integer(s@, 0, u64::MAX as int) == (match r {
            Some(v) => Some(v as int),
            None => None::<int>,
        }),
{
    let start: usize = if s.len() > 0 && s[0] == '+' { 1 } else { 0 };
    proof {
        if start == 1 {
            assert(s@.drop_first() =~= s@.skip(1));
        } else {
            assert(s@.skip(0) =~= s@);
        }
    }
    read_digits(s, start, u64::MAX)
}

/// The digit of value `d`.
pub open spec fn digit(d: nat) -> char {
    ('0' as nat + d) as char
}

/// `n` in decimal.
pub open spec fn decimal(n: nat) -> Seq<char>
    decreases n,
{
    if n < 10 {
        seq![digit(n)]
    } else {
        decimal(n / 10).push(digit(n % 10))
    }
}

/// An integer in decimal.
pub open spec fn signed_decimal(n: int) -> Seq<char> {
    if n < 0 {
        seq!['-'] + decimal((-n) as nat)
    } else {
        decimal(n as nat)
    }
}

proof fn lemma_digit(d: nat)
    requires
        d < 10,
    ensures
        is_digit(digit(d)),
        digit(d) as nat == '0' as nat + d,
{
}

/// What neither starts nor ends with white space has none to trim.
pub proof fn lemma_untrimmed(s: Seq<char>)
    requires
        s.len() > 0,
        !is_white_space(s[0]),
        !is_white_space(s.last()),
    ensures
        trimmed(s) == s,
{
}

/// A line without a line feed or a carriage return comes back from the text
/// that it starts.
pub proof fn lemma_first_line(row: Seq<char>, rest: Seq<char>)
    requires
        forall|i: int| 0 <= i < row.len() ==> row[i] != '\n' && row[i] != '\r',
    ensures
        lines(row.push('\n') + rest) == seq![row] + lines(rest),
{
    let text = row.push('\n') + rest;
    lemma_line_len_of(row, rest);
    let n = row.len() as int;
    assert(text.take(n) =~= row);
    assert(text.skip(n + 1) =~= rest);
    assert(without_return(row) == row);
}

proof fn lemma_line_len_of(row: Seq<char>, rest: Seq<char>)
    requires
        forall|i: int| 0 <= i < row.len() ==> row[i] != '\n',
    ensures
        line_len(row.push('\n') + rest) == row.len(),
    decreases row.len(),
{
    let text = row.push('\n') + rest;
    if row.len() > 0 {
        assert(text.drop_first() =~= row.drop_first().push('\n') + rest);
        lemma_line_len_of(row.drop_first(), rest);
    }
}

/// A carriage return before the line feed does not belong to the line.
pub proof fn law_carriage_return_is_no_part_of_a_line(row: Seq<char>, rest: Seq<char>)
    requires
        forall|i: int| 0 <= i < row.len() ==> row[i] != '\n',
    ensures
        lines(row.push('\r').push('\n') + rest) == seq![row] + lines(rest),
{
    let whole = row.push('\r');
    let text = whole.push('\n') + rest;
    lemma_line_len_of(whole, rest);
    let n = whole.len() as int;
    assert(text.take(n) =~= whole);
    assert(text.skip(n + 1) =~= rest);
    assert(without_return(whole) =~= row);
}

/// Lines, each with a line feed behind it.
pub open spec fn unlines(rows: Seq<Seq<char>>) -> Seq<char>
    decreases rows.len(),
{
    if rows.len() == 0 {
        Seq::empty()
    } else {
        rows[0].push('\n') + unlines(rows.drop_first())
    }
}

/// Lines that are written one below the other are read back one by one.
pub proof fn law_lines_read_back(rows: Seq<Seq<char>>)
    requires
        forall|r: int, i: int|
            0 <= r < rows.len() && 0 <= i < rows[r].len() ==> #[trigger] rows[r][i] != '\n' && rows[r][i] != '\r',
    ensures
        lines(unlines(rows)) == rows,
    decreases rows.len(),
{
    if rows.len() == 0 {
        assert(lines(unlines(rows)) =~= rows);
    } else {
        let rest = rows.drop_first();
        assert forall|r: int, i: int| 0 <= r < rest.len() && 0 <= i < rest[r].len() implies #[trigger] rest[r][i]
            != '\n' && rest[r][i] != '\r' by {
            assert(rest[r][i] == rows[r + 1][i]);
        }
        law_lines_read_back(rest);
        assert forall|i: int| 0 <= i < rows[0].len() implies rows[0][i] != '\n' && rows[0][i] != '\r' by {
            assert(rows[0][i] != '\n');
        }
        lemma_first_line(rows[0], unlines(rest));
        assert(seq![rows[0]] + rest =~= rows);
    }
}

/// A text of one line, with or without its end, is that line.
pub proof fn lemma_one_line(row: Seq<char>)
    requires
        row.len() > 0,
        forall|i: int| 0 <= i < row.len() ==> row[i] != '\n' && row[i] != '\r',
    ensures
        lines(row) == seq![row],
        lines(row.push('\n')) == seq![row],
{
    lemma_line_len(row, row.len() as int);
    assert(row.skip(row.len() as int) =~= Seq::<char>::empty());
    lemma_first_line(row, Seq::empty());
    assert(row.push('\n') + Seq::<char>::empty() =~= row.push('\n'));
    assert(seq![row] + lines(Seq::<char>::empty()) =~= seq![row]);
}

/// Trimming takes away white space at the two ends, all of it and nothing else.
pub proof fn law_trimming_takes_white_space_only(before: Seq<char>, s: Seq<char>, after: Seq<char>)
    requires
        forall|i: int| 0 <= i < before.len() ==> is_white_space(#[trigger] before[i]),
        forall|i: int| 0 <= i < after.len() ==> is_white_space(#[trigger] after[i]),
        s.len() > 0 ==> !is_white_space(s[0]) && !is_white_space(s.last()),
    ensures
        trimmed(before + s + after) == s,
        s.len() > 0 ==> trimmed_end(s + after) == s,
{
    lemma_trimmed_start(before, s, after);
    lemma_trimmed_end(s, after);
    if s.len() == 0 {
        lemma_all_trimmed(before + s + after);
    }
}

proof fn lemma_trimmed_start(before: Seq<char>, s: Seq<char>, after: Seq<char>)
    requires
        forall|i: int| 0 <= i < before.len() ==> is_white_space(#[trigger] before[i]),
        s.len() > 0 ==> !is_white_space(s[0]),
    ensures
        s.len() > 0 ==> trimmed_start(before + s + after) == s + after,
    decreases before.len(),
{
    if before.len() == 0 {
        assert(before + s + after =~= s + after);
    } else {
        let rest = before.drop_first();
        assert forall|i: int| 0 <= i < rest.len() implies is_white_space(#[trigger] rest[i]) by {
            assert(rest[i] == before[i + 1]);
        }
        assert((before + s + after).drop_first() =~= rest + s + after);
        assert((before + s + after)[0] == before[0]);
        lemma_trimmed_start(rest, s, after);
    }
}

proof fn lemma_trimmed_end(s: Seq<char>, after: Seq<char>)
    requires
        forall|i: int| 0 <= i < after.len() ==> is_white_space(#[trigger] after[i]),
        s.len() > 0 ==> !is_white_space(s.last()),
    ensures
        trimmed_end(s + after) == s,
    decreases after.len(),
{
    if after.len() == 0 {
        assert(s + after =~= s);
    } else {
        let rest = after.drop_last();
        assert((s + after).drop_last() =~= s + rest);
        assert((s + after).last() == after.last());
        lemma_trimmed_end(s, rest);
    }
}

proof fn lemma_all_trimmed(s: Seq<char>)
    requires
        forall|i: int| 0 <= i < s.len() ==> is_white_space(#[trigger] s[i]),
    ensures
        trimmed(s).len() == 0,
    decreases s.len(),
{
    if s.len() > 0 {
        let rest = s.drop_first();
        assert forall|i: int| 0 <= i < rest.len() implies is_white_space(#[trigger] rest[i]) by {
            assert(rest[i] == s[i + 1]);
        }
        lemma_all_trimmed(rest);
    }
}

/// A number written in decimal reads back as itself.
pub proof fn law_decimal_reads_back(n: nat)
    ensures
        is_decimal(decimal(n)),
        decimal_value(decimal(n)) == n,
    decreases n,
{
    reveal_with_fuel(decimal_value, 2);
    if n < 10 {
        lemma_digit(n);
        assert(decimal(n).drop_last() =~= Seq::<char>::empty());
    } else {
        law_decimal_reads_back(n / 10);
        lemma_digit(n % 10);
        assert(decimal(n).drop_last() =~= decimal(n / 10));
    }
}

/// An integer written in decimal parses as itself.
pub proof fn law_integer_reads_back(n: int, min: int, max: int)
    requires
        min <= n <= max,
    ensures
        parsed_integer(signed_decimal(n), min, max) == Some(n),
{
    if n < 0 {
        law_decimal_reads_back((-n) as nat);
        assert(signed_decimal(n).drop_first() =~= decimal((-n) as nat));
    } else {
        law_decimal_reads_back(n as nat);
        assert(is_digit(decimal(n as nat)[0]));
    }
}

/// Appends `n` in decimal.
pub fn push_decimal(out: &mut String, n: u64)
    ensures
        final(out)@ == old(out)@ + decimal(n as nat),
    decreases n,
{
    if n >= 10 {
        push_decimal(out, n / 10);
    }
    let d: u8 = (n % 10) as u8;
    out.push((48 + d) as char);
    proof {
        let c = (48 + d) as char;
        assert(c == digit((n % 10) as nat));
        if n >= 10 {
            assert(out@ =~= old(out)@ + decimal((n / 10) as nat).push(c));
        } else {
            assert(out@ =~= old(out)@ + seq![c]);
        }
    }
}

/// Appends an integer in decimal.
pub fn push_integer(out: &mut String, n: i32)
    ensures
        final(out)@ == old(out)@ + signed_decimal(n as int),
{
    if n < 0 {
        out.push('-');
        push_decimal(out, (-(n as i64)) as u64);
        assert(out@ =~= old(out)@ + signed_decimal(n as int));
    } else {
        push_decimal(out, n as u64);
    }
}

/// Appends a text.
pub fn push_text(out: &mut String, s: &str)
    ensures
        final(out)@ == old(out)@ + s@,
{
    let chars: Vec<char> = chars_of(s);
    let mut i: usize = 0;
    assert(old(out)@ + chars@.take(0) =~= old(out)@);
    while i < chars.len()
        invariant
            i <= chars@.len(),
            chars@ == s@,
            out@ == old(out)@ + chars@.take(i as int),
        decreases chars@.len() - i,
    {
        out.push(chars[i]);
        i = i + 1;
        assert(old(out)@ + chars@.take(i as int) =~= (old(out)@ + chars@.take(i - 1)).push(chars@[i - 1]));
    }
    assert(chars@.take(i as int) =~= s@);
}

/// A copy of a text.
pub fn copy_text(s: &str) -> (r: String)
    ensures
        r@ == s@,
{
    let mut r: String = String::new();
    push_text(&mut r, s);
    assert(r@ =~= s@);
    r
}

/// `part` below the directory `base`, as Unix joins paths: an absolute part
/// stands for itself.
pub open spec fn joined(base: Seq<char>, part: Seq<char>) -> Seq<char> {
    if part.len() > 0 && part[0] == '/' {
        part
    } else if base.len() == 0 || base.last() == '/' {
        base + part
    } else {
        base.push('/') + part
    }
}

/// Joins two paths.
pub fn join(base: &str, part: &str) -> (r: String)
    ensures
        r@ == joined(base@, part@),
{
    let head: Vec<char> = chars_of(base);
    let tail: Vec<char> = chars_of(part);
    if tail.len() > 0 && tail[0] == '/' {
        return copy_text(part);
    }
    let mut r: String = copy_text(base);
    if head.len() > 0 && head[head.len() - 1] != '/' {
        r.push('/');
    }
    push_text(&mut r, part);
    r
}

/// A relative path is joined to a directory with one slash between them, and
/// an absolute one stands for itself.
pub proof fn law_paths_are_joined_with_a_slash(base: Seq<char>, part: Seq<char>)
    requires
        base.len() > 0,
    ensures
        base.last() != '/' && !(part.len() > 0 && part[0] == '/') ==> joined(base, part) == base + seq!['/'] + part,
        base.last() == '/' && !(part.len() > 0 && part[0] == '/') ==> joined(base, part) == base + part,
        part.len() > 0 && part[0] == '/' ==> joined(base, part) == part,
{
    assert(base.push('/') =~= base + seq!['/']);
}

} // verus!

//! Results as text for a terminal.
use vstd::prelude::*;
use vstd::string::*;

use crate::binary64::{self, Score};
use crate::jev::{self, RankedCandidate};
use crate::search::{self, Candidate};
use crate::text::{self, decimal_text, to_chars, to_text};

verus! {

/// Whether `c` is a control character: of the Unicode category `Cc`.
pub open spec fn is_control(c: char) -> bool {
    let n = c as u32;
    n <= 0x1f || 0x7f <= n <= 0x9f
}

/// Whether `c` could do more to a terminal than show a character or a tab.
pub open spec fn is_harmful(c: char) -> bool {
    is_control(c) && c != '\t'
}

/// A hexadecimal digit.
pub open spec fn hex_digit(value: nat) -> char {
    if value < 10 {
        text::digit(value)
    } else {
        (87 + value) as char
    }
}

/// A number below 256 in hexadecimal, without leading zeros.
pub open spec fn hex(value: nat) -> Seq<char> {
    if value < 16 {
        seq![hex_digit(value)]
    } else {
        seq![hex_digit(value / 16), hex_digit(value % 16)]
    }
}

/// What stands for a control character: the escape that source code has for it.
pub open spec fn escaped(c: char) -> Seq<char> {
    if c == '\n' {
        seq!['\\', 'n']
    } else if c == '\r' {
        seq!['\\', 'r']
    } else {
        seq!['\\', 'u', '{'] + hex(c as nat) + seq!['}']
    }
}

/// What is shown for a character.
pub open spec fn shown(c: char) -> Seq<char> {
    if is_harmful(c) {
        escaped(c)
    } else {
        seq![c]
    }
}

/// What is shown for a text.
pub open spec fn terminal(text: Seq<char>) -> Seq<char>
    decreases text.len(),
{
    if text.len() == 0 {
        seq![]
    } else {
        terminal(text.drop_last()) + shown(text.last())
    }
}

/// Adds a hexadecimal digit.
fn push_hex_digit(output: &mut String, value: u32)
    requires
        value < 16,
    ensures
        final(output)@ == old(output)@.push(hex_digit(value as nat)),
{
    let code: u8 = if value < 10 {
        48 + value as u8
    } else {
        87 + value as u8
    };
    output.push(code as char);
}

/// Adds what is shown for a character.
fn push_shown(output: &mut String, c: char)
    ensures
        final(output)@ == old(output)@ + shown(c),
{
    let ghost before = output@;
    let n = c as u32;
    if c == '\t' || !(n <= 0x1f || (0x7f <= n && n <= 0x9f)) {
        output.push(c);
        assert(output@ == before + shown(c));
        return ;
    }
    output.push('\\');
    if c == '\n' {
        output.push('n');
    } else if c == '\r' {
        output.push('r');
    } else {
        output.push('u');
        output.push('{');
        if n >= 16 {
            push_hex_digit(output, n / 16);
        }
        push_hex_digit(output, n % 16);
        output.push('}');
    }
    assert(output@ =~= before + shown(c));
}

/// A text that does nothing to a terminal but show characters: each control character
/// other than the tab becomes its escape.
pub fn terminal_text(text: &str) -> (output: String)
    ensures
        output@ == terminal(text@),
{
    let mut output = String::new();
    assert(text@.take(0) == Seq::<char>::empty());
    for c in iter: text.chars()
        invariant
            iter.seq() == text@,
            output@ == terminal(text@.take(iter.index() as int)),
    {
        let ghost n = iter.index() as int;
        assert(text@.take(n + 1).drop_last() == text@.take(n));
        push_shown(&mut output, c);
    }
    assert(text@.take(text@.len() as int) == text@);
    output
}

/// What is shown for a character does nothing but show characters.
proof fn lemma_shown_is_harmless(c: char, i: int)
    requires
        0 <= i < shown(c).len(),
    ensures
        !is_harmful(shown(c)[i]),
{
    let n = c as nat;
    if is_harmful(c) && c != '\n' && c != '\r' {
        assert(!is_harmful(hex_digit(n / 16))) by {
            assert(48 <= hex_digit(n / 16) as u32 <= 102);
        }
        assert(!is_harmful(hex_digit(n % 16))) by {
            assert(48 <= hex_digit(n % 16) as u32 <= 102);
        }
        assert(n < 16 ==> n % 16 == n);
    }
}

/// What is shown holds no control character but the tab.
pub proof fn law_terminal_text_is_harmless(text: Seq<char>)
    ensures
        forall|i: int| 0 <= i < terminal(text).len() ==> !is_harmful(#[trigger] terminal(text)[i]),
    decreases text.len(),
{
    if text.len() > 0 {
        law_terminal_text_is_harmless(text.drop_last());
        let (start, end) = (terminal(text.drop_last()), shown(text.last()));
        assert forall|i: int| 0 <= i < terminal(text).len() implies !is_harmful(
            #[trigger] terminal(text)[i],
        ) by {
            if i < start.len() {
                assert(terminal(text)[i] == start[i]);
            } else {
                assert(terminal(text)[i] == end[i - start.len()]);
                lemma_shown_is_harmless(text.last(), i - start.len());
            }
        }
    }
}

/// A text without control characters other than the tab is shown as it is; so showing
/// twice is showing once.
pub proof fn law_terminal_text_keeps_what_is_harmless(text: Seq<char>)
    requires
        forall|i: int| 0 <= i < text.len() ==> !is_harmful(#[trigger] text[i]),
    ensures
        terminal(text) == text,
    decreases text.len(),
{
    if text.len() > 0 {
        assert(!is_harmful(text[text.len() - 1]));
        assert forall|i: int| 0 <= i < text.drop_last().len() implies !is_harmful(
            #[trigger] text.drop_last()[i],
        ) by {
            assert(text.drop_last()[i] == text[i]);
        }
        law_terminal_text_keeps_what_is_harmless(text.drop_last());
        assert(text.drop_last() + seq![text.last()] =~= text);
    }
}

/// The lines of a text: what stands between the line feeds, before the first and after
/// the last.
pub open spec fn lines_of(text: Seq<char>) -> Seq<Seq<char>>
    decreases text.len(),
{
    if text.len() == 0 {
        seq![seq![]]
    } else {
        let before = lines_of(text.drop_last());
        if text.last() == '\n' {
            before.push(seq![])
        } else {
            before.drop_last().push(before.last().push(text.last()))
        }
    }
}

/// The lines of a text.
pub fn split_lines(text: &str) -> (lines: Vec<String>)
    ensures
        text::string_views(lines@) == lines_of(text@),
        lines.len() > 0,
{
    let mut lines: Vec<String> = Vec::new();
    let mut current = String::new();
    assert(text@.take(0) == Seq::<char>::empty());
    assert(text::string_views(lines@).push(current@) =~= lines_of(text@.take(0)));
    for c in iter: text.chars()
        invariant
            iter.seq() == text@,
            text::string_views(lines@).push(current@) == lines_of(
                text@.take(iter.index() as int),
            ),
    {
        let ghost n = iter.index() as int;
        let ghost ended = text::string_views(lines@);
        let ghost line = current@;
        assert(text@.take(n + 1).drop_last() == text@.take(n));
        assert(ended.push(line).drop_last() == ended);
        if c == '\n' {
            lines.push(current);
            current = String::new();
            assert(text::string_views(lines@) =~= ended.push(line));
        } else {
            current.push(c);
        }
    }
    let ghost ended = text::string_views(lines@);
    let ghost line = current@;
    lines.push(current);
    assert(text::string_views(lines@) =~= ended.push(line));
    assert(text@.take(text@.len() as int) == text@);
    lines
}

/// A line without the carriage returns at its end.
pub open spec fn without_returns(line: Seq<char>) -> Seq<char>
    decreases line.len(),
{
    if line.len() > 0 && line.last() == '\r' {
        without_returns(line.drop_last())
    } else {
        line
    }
}

/// A line without the carriage returns at its end.
fn trim_returns(line: &str) -> (inner: String)
    ensures
        inner@ == without_returns(line@),
{
    let chars = to_chars(line);
    let mut to: usize = chars.len();
    assert(chars@.take(to as int) == chars@);
    while to > 0 && chars[to - 1] == '\r'
        invariant
            to <= chars.len(),
            without_returns(chars@.take(to as int)) == without_returns(chars@),
        decreases to,
    {
        assert(chars@.take(to as int).drop_last() == chars@.take(to - 1));
        to -= 1;
    }
    to_text(&chars, 0, to)
}

/// How wide a line number is at least.
pub const NUMBER_WIDTH: usize = 5;

/// A text with spaces before it, up to the width of a line number.
pub open spec fn padded(text: Seq<char>) -> Seq<char> {
    let missing = if text.len() < NUMBER_WIDTH {
        (NUMBER_WIDTH - text.len()) as nat
    } else {
        0
    };
    Seq::new(missing, |i: int| ' ') + text
}

/// A text with spaces before it, up to the width of a line number.
fn pad(digits: &str) -> (output: String)
    ensures
        output@ == padded(digits@),
{
    let width = to_chars(digits).len();
    let mut output = String::new();
    let mut i: usize = width;
    while i < NUMBER_WIDTH
        invariant
            width == digits@.len(),
            width <= i,
            i <= NUMBER_WIDTH || i == width,
            output@ == Seq::new((i - width) as nat, |k: int| ' '),
        decreases NUMBER_WIDTH - i,
    {
        output.push(' ');
        i += 1;
    }
    output.append(digits);
    output
}

/// A source line as it is shown: marked if it matches, with its number.
pub open spec fn line_text(number: nat, matched: bool, line: Seq<char>) -> Seq<char> {
    seq![' ', if matched {
        '>'
    } else {
        ' '
    }, ' '] + padded(text::decimal(number)) + " "@ + terminal(without_returns(line)) + "\n"@
}

/// How many lines of a candidate's snippet are shown: those within its line numbers.
pub open spec fn shown_count(candidate: search::CandidateView) -> nat {
    let lines = lines_of(candidate.snippet).len();
    if candidate.start_line > candidate.end_line {
        0
    } else if lines < candidate.end_line - candidate.start_line + 1 {
        lines
    } else {
        (candidate.end_line - candidate.start_line + 1) as nat
    }
}

/// The first `count` lines of a candidate as they are shown.
pub open spec fn body_text(candidate: search::CandidateView, count: nat) -> Seq<char>
    decreases count,
{
    if count == 0 {
        seq![]
    } else {
        let k = (count - 1) as nat;
        let number = candidate.start_line + k;
        body_text(candidate, k) + line_text(
            number as nat,
            candidate.match_lines.contains(number as usize),
            lines_of(candidate.snippet)[k as int],
        )
    }
}

/// A score as it is shown: to three decimal places.
pub open spec fn score_text(bits: u64) -> Seq<char> {
    let count = binary64::thousandths(bits) as nat;
    let sign: Seq<char> = if binary64::is_negative(bits) {
        "-"@
    } else {
        seq![]
    };
    sign + text::decimal(count / 1000) + seq![
        '.',
        text::digit(count / 100 % 10),
        text::digit(count / 10 % 10),
        text::digit(count % 10),
    ]
}

/// What stands before a result: its score, if it has one.
pub open spec fn label(relevance: Option<u64>) -> Seq<char> {
    match relevance {
        Some(bits) => score_text(bits),
        None => "unscored"@,
    }
}

/// A result as it is shown.
pub open spec fn row_text(row: jev::RankedView) -> Seq<char> {
    let candidate = row.candidate;
    label(row.relevance) + " "@ + terminal(candidate.path) + ":"@ + text::decimal(
        candidate.start_line as nat,
    ) + "-"@ + text::decimal(candidate.end_line as nat) + "\n"@ + body_text(
        candidate,
        shown_count(candidate),
    ) + "\n"@
}

/// Results as they are shown, one after the other.
pub open spec fn rows_text(rows: Seq<jev::RankedView>) -> Seq<char>
    decreases rows.len(),
{
    if rows.len() == 0 {
        seq![]
    } else {
        rows_text(rows.drop_last()) + row_text(rows.last())
    }
}

/// Whether a number is in the list.
fn contains(numbers: &Vec<usize>, number: usize) -> (result: bool)
    ensures
        result == numbers@.contains(number),
{
    let mut i: usize = 0;
    while i < numbers.len()
        invariant
            i <= numbers.len(),
            forall|k: int| 0 <= k < i ==> numbers@[k] != number,
        decreases numbers.len() - i,
    {
        if numbers[i] == number {
            return true;
        }
        i += 1;
    }
    false
}

/// Adds a source line.
fn push_line(output: &mut String, number: usize, matched: bool, line: &str)
    ensures
        final(output)@ == old(output)@ + line_text(number as nat, matched, line@),
{
    let ghost before = output@;
    output.push(' ');
    output.push(
        if matched {
            '>'
        } else {
            ' '
        },
    );
    output.push(' ');
    let digits = decimal_text(number as u64);
    output.append(pad(digits.as_str()).as_str());
    output.append(" ");
    let inner = trim_returns(line);
    output.append(terminal_text(inner.as_str()).as_str());
    output.append("\n");
    assert(output@ =~= before + line_text(number as nat, matched, line@));
}

/// Adds the lines of a candidate.
fn push_body(output: &mut String, candidate: &Candidate)
    ensures
        final(output)@ == old(output)@ + body_text(candidate@, shown_count(candidate@)),
{
    let ghost before = output@;
    let lines = split_lines(candidate.snippet.as_str());
    let ghost views = text::string_views(lines@);
    let mut offset: usize = 0;
    assert(before + Seq::<char>::empty() == before);
    while offset < lines.len() && candidate.start_line <= candidate.end_line && offset
        <= candidate.end_line - candidate.start_line
        invariant
            offset <= shown_count(candidate@) <= lines.len(),
            views == text::string_views(lines@),
            views == lines_of(candidate.snippet@),
            output@ == before + body_text(candidate@, offset as nat),
        decreases lines.len() - offset,
    {
        let number = candidate.start_line + offset;
        let matched = contains(&candidate.match_lines, number);
        assert(views[offset as int] == lines@[offset as int]@);
        push_line(output, number, matched, lines[offset].as_str());
        offset += 1;
        assert(output@ =~= before + body_text(candidate@, offset as nat));
    }
}

/// What stands before a result: its score, if it has one.
pub fn label_text(relevance: &Option<Score>) -> (output: String)
    ensures
        output@ == label(match *relevance {
            Some(score) => Some(score.pattern()),
            None => None,
        }),
{
    let score = match relevance {
        Some(score) => score,
        None => {
            return "unscored".to_owned();
        },
    };
    let count = score.thousandths();
    let mut output = String::new();
    if score.bits() >= binary64::NEGATIVE_ZERO {
        output.append("-");
    }
    let whole = decimal_text(count / 1000);
    output.append(whole.as_str());
    output.push('.');
    output.push((48u8 + (count / 100 % 10) as u8) as char);
    output.push((48u8 + (count / 10 % 10) as u8) as char);
    output.push((48u8 + (count % 10) as u8) as char);
    assert(output@ =~= score_text(score.pattern()));
    output
}

/// Adds a result.
fn push_row(output: &mut String, row: &RankedCandidate)
    ensures
        final(output)@ == old(output)@ + row_text(row@),
{
    let ghost before = output@;
    let candidate = &row.candidate;
    output.append(label_text(&row.relevance).as_str());
    output.append(" ");
    output.append(terminal_text(candidate.path.as_str()).as_str());
    output.append(":");
    output.append(decimal_text(candidate.start_line as u64).as_str());
    output.append("-");
    output.append(decimal_text(candidate.end_line as u64).as_str());
    output.append("\n");
    push_body(output, candidate);
    output.append("\n");
    assert(output@ =~= before + row_text(row@));
}

/// The results as text: for each a line with its score, its path and its line numbers,
/// then its source, with a mark at each line that matches.
pub fn rows_as_text(rows: &Vec<RankedCandidate>) -> (output: String)
    ensures
        output@ == rows_text(jev::ranked_views(rows@)),
{
    let mut output = String::new();
    let ghost views = jev::ranked_views(rows@);
    let mut i: usize = 0;
    assert(views.take(0) == Seq::<jev::RankedView>::empty());
    while i < rows.len()
        invariant
            i <= rows.len(),
            views == jev::ranked_views(rows@),
            output@ == rows_text(views.take(i as int)),
        decreases rows.len() - i,
    {
        assert(views.take(i + 1).drop_last() == views.take(i as int));
        push_row(&mut output, &rows[i]);
        i += 1;
    }
    assert(views.take(i as int) == views);
    output
}

/// Whether a text does nothing to a terminal but show characters and end lines.
pub open spec fn is_calm(text: Seq<char>) -> bool {
    forall|i: int| 0 <= i < text.len() ==> !is_harmful(#[trigger] text[i]) || text[i] == '\n'
}

/// Calm texts make a calm text.
proof fn lemma_calm(a: Seq<char>, b: Seq<char>)
    requires
        is_calm(a),
        is_calm(b),
    ensures
        is_calm(a + b),
{
    assert forall|i: int| 0 <= i < (a + b).len() implies !is_harmful(#[trigger] (a + b)[i]) || (a
        + b)[i] == '\n' by {
        if i < a.len() {
            assert((a + b)[i] == a[i]);
        } else {
            assert((a + b)[i] == b[i - a.len()]);
        }
    }
}

/// Digits are calm.
proof fn lemma_decimal_is_calm(value: nat)
    ensures
        is_calm(text::decimal(value)),
        is_calm(padded(text::decimal(value))),
    decreases value,
{
    let last = text::digit(value % 10);
    assert(48 <= last as u32 <= 57);
    if value >= 10 {
        lemma_decimal_is_calm(value / 10);
        lemma_calm(text::decimal(value / 10), seq![last]);
        assert(text::decimal(value) =~= text::decimal(value / 10) + seq![last]);
    }
}

/// What stands before a result is calm.
proof fn lemma_label_is_calm(relevance: Option<u64>)
    ensures
        is_calm(label(relevance)),
{
    match relevance {
        Some(bits) => {
            let count = binary64::thousandths(bits) as nat;
            let sign: Seq<char> = if binary64::is_negative(bits) {
                "-"@
            } else {
                seq![]
            };
            let places = seq![
                '.',
                text::digit(count / 100 % 10),
                text::digit(count / 10 % 10),
                text::digit(count % 10),
            ];
            reveal_strlit("-");
            assert(48 <= text::digit(count / 100 % 10) as u32 <= 57);
            assert(48 <= text::digit(count / 10 % 10) as u32 <= 57);
            assert(48 <= text::digit(count % 10) as u32 <= 57);
            lemma_decimal_is_calm(count / 1000);
            lemma_calm(sign, text::decimal(count / 1000));
            lemma_calm(sign + text::decimal(count / 1000), places);
        },
        None => {
            reveal_strlit("unscored");
        },
    }
}

/// The lines of a candidate are shown calmly.
proof fn lemma_body_is_calm(candidate: search::CandidateView, count: nat)
    ensures
        is_calm(body_text(candidate, count)),
    decreases count,
{
    if count > 0 {
        let k = (count - 1) as nat;
        let number = candidate.start_line + k;
        let matched = candidate.match_lines.contains(number as usize);
        let mark = seq![' ', if matched {
            '>'
        } else {
            ' '
        }, ' '];
        let digits = padded(text::decimal(number as nat));
        let line = terminal(without_returns(lines_of(candidate.snippet)[k as int]));
        lemma_body_is_calm(candidate, k);
        reveal_strlit(" ");
        reveal_strlit("\n");
        lemma_decimal_is_calm(number as nat);
        law_terminal_text_is_harmless(without_returns(lines_of(candidate.snippet)[k as int]));
        lemma_calm(mark, digits);
        lemma_calm(mark + digits, " "@);
        lemma_calm(mark + digits + " "@, line);
        lemma_calm(mark + digits + " "@ + line, "\n"@);
        lemma_calm(
            body_text(candidate, k),
            line_text(number as nat, matched, lines_of(candidate.snippet)[k as int]),
        );
    }
}

/// A result is shown calmly.
proof fn lemma_row_is_calm(row: jev::RankedView)
    ensures
        is_calm(row_text(row)),
{
    let candidate = row.candidate;
    let a = label(row.relevance) + " "@;
    let b = a + terminal(candidate.path);
    let c = b + ":"@;
    let d = c + text::decimal(candidate.start_line as nat);
    let e = d + "-"@;
    let f = e + text::decimal(candidate.end_line as nat);
    let g = f + "\n"@;
    let body = body_text(candidate, shown_count(candidate));
    reveal_strlit(" ");
    reveal_strlit(":");
    reveal_strlit("-");
    reveal_strlit("\n");
    lemma_label_is_calm(row.relevance);
    lemma_calm(label(row.relevance), " "@);
    law_terminal_text_is_harmless(candidate.path);
    lemma_calm(a, terminal(candidate.path));
    lemma_calm(b, ":"@);
    lemma_decimal_is_calm(candidate.start_line as nat);
    lemma_calm(c, text::decimal(candidate.start_line as nat));
    lemma_calm(d, "-"@);
    lemma_decimal_is_calm(candidate.end_line as nat);
    lemma_calm(e, text::decimal(candidate.end_line as nat));
    lemma_calm(f, "\n"@);
    lemma_body_is_calm(candidate, shown_count(candidate));
    lemma_calm(g, body);
    lemma_calm(g + body, "\n"@);
}

/// Whatever the source and the paths hold, the results do nothing to a terminal but
/// show characters and end lines.
pub proof fn law_results_are_shown_calmly(rows: Seq<jev::RankedView>)
    ensures
        is_calm(rows_text(rows)),
    decreases rows.len(),
{
    if rows.len() > 0 {
        let rest = rows.drop_last();
        law_results_are_shown_calmly(rest);
        lemma_row_is_calm(rows.last());
        lemma_calm(rows_text(rest), row_text(rows.last()));
    }
}

/// What is shown for a text is what is shown for its characters, one after the other.
pub proof fn law_terminal_text_goes_character_by_character(a: Seq<char>, b: Seq<char>, c: char)
    ensures
        terminal(Seq::<char>::empty()) == Seq::<char>::empty(),
        terminal(seq![c]) == shown(c),
        terminal(a + b) == terminal(a) + terminal(b),
    decreases b.len(),
{
    assert(terminal(Seq::<char>::empty()) =~= Seq::<char>::empty());
    assert(seq![c].drop_last() =~= Seq::<char>::empty());
    assert(terminal(seq![c]) =~= shown(c));
    if b.len() == 0 {
        assert(a + b =~= a);
        assert(terminal(a) + terminal(b) =~= terminal(a));
    } else {
        law_terminal_text_goes_character_by_character(a, b.drop_last(), c);
        assert((a + b).drop_last() =~= a + b.drop_last());
        assert(terminal(a + b) =~= terminal(a) + terminal(b));
    }
}

/// What is shown for a character: the character itself, unless it is a control character
/// other than the tab; of those, the line feed and the carriage return have short
/// escapes, and of any other the escape gives the code, in hexadecimal.
pub proof fn law_what_is_shown_for_a_character(c: char)
    ensures
        ({
            let n = c as u32;
            if c == '\t' || (n > 0x1f && !(0x7f <= n <= 0x9f)) {
                shown(c) == seq![c]
            } else if c == '\n' {
                shown(c) == seq!['\\', 'n']
            } else if c == '\r' {
                shown(c) == seq!['\\', 'r']
            } else if n < 16 {
                &&& shown(c).len() == 5
                &&& shown(c).take(3) == seq!['\\', 'u', '{']
                &&& shown(c)[3] == hex_digit(n as nat)
                &&& shown(c)[4] == '}'
            } else {
                &&& shown(c).len() == 6
                &&& shown(c).take(3) == seq!['\\', 'u', '{']
                &&& shown(c)[3] == hex_digit((n / 16) as nat)
                &&& shown(c)[4] == hex_digit((n % 16) as nat)
                &&& shown(c)[5] == '}'
            }
        }),
        forall|d: nat|
            d < 16 ==> (#[trigger] hex_digit(d)) as nat == if d < 10 {
                '0' as int + d
            } else {
                'a' as int + d - 10
            },
{
    if is_harmful(c) && c != '\n' && c != '\r' {
        assert(shown(c).take(3) =~= seq!['\\', 'u', '{']);
    }
}

/// A text has at least one line.
proof fn lemma_lines_of(text: Seq<char>)
    ensures
        lines_of(text).len() > 0,
    decreases text.len(),
{
    if text.len() > 0 {
        lemma_lines_of(text.drop_last());
    }
}

/// More characters without a line feed go on with the last line.
proof fn lemma_same_line(text: Seq<char>, more: Seq<char>)
    requires
        !more.contains('\n'),
    ensures
        lines_of(text + more) == lines_of(text).drop_last().push(lines_of(text).last() + more),
    decreases more.len(),
{
    lemma_lines_of(text);
    let lines = lines_of(text);
    if more.len() == 0 {
        assert(text + more =~= text);
        assert(lines.last() + more =~= lines.last());
        assert(lines.drop_last().push(lines.last()) =~= lines);
    } else {
        let rest = more.drop_last();
        assert(!rest.contains('\n')) by {
            if rest.contains('\n') {
                let i = choose|i: int| 0 <= i < rest.len() && rest[i] == '\n';
                assert(more[i] == '\n');
            }
        }
        lemma_same_line(text, rest);
        assert((text + more).drop_last() =~= text + rest);
        assert(more[more.len() - 1] != '\n') by {
            assert(more.contains(more[more.len() - 1]));
        }
        assert((lines.last() + rest).push(more.last()) =~= lines.last() + more);
        assert(lines_of(text + rest).drop_last() =~= lines.drop_last());
    }
}

/// Lines are what line feeds divide: without one a text is its only line, and a line
/// feed divides the lines before it from those after it.
pub proof fn law_line_feeds_divide_lines(a: Seq<char>, b: Seq<char>)
    ensures
        !a.contains('\n') ==> lines_of(a) == seq![a],
        lines_of(a + seq!['\n'] + b) == lines_of(a) + lines_of(b),
    decreases b.len(),
{
    let none = Seq::<char>::empty();
    assert(lines_of(none) =~= seq![none]);
    if !a.contains('\n') {
        lemma_same_line(none, a);
        assert(none + a =~= a);
        assert(lines_of(a) =~= seq![a]);
    }
    let start = a + seq!['\n'];
    if b.len() == 0 {
        assert(start + b =~= start);
        assert(start.drop_last() =~= a);
        assert(b =~= none);
        assert(lines_of(a).push(none) =~= lines_of(a) + lines_of(b));
    } else {
        let rest = b.drop_last();
        law_line_feeds_divide_lines(a, rest);
        lemma_lines_of(rest);
        assert((start + b).drop_last() =~= start + rest);
        if b.last() == '\n' {
            assert(lines_of(start + b) =~= lines_of(a) + lines_of(b));
        } else {
            assert((lines_of(a) + lines_of(rest)).last() == lines_of(rest).last());
            assert(lines_of(start + b) =~= lines_of(a) + lines_of(b));
        }
    }
}

/// Carriage returns at the end of a line go, all of them and nothing else.
pub proof fn law_only_returns_at_the_end_go(line: Seq<char>)
    ensures
        ({
            let kept = without_returns(line);
            &&& kept.len() <= line.len()
            &&& kept == line.take(kept.len() as int)
            &&& kept.len() > 0 ==> kept[kept.len() - 1] != '\r'
            &&& forall|i: int| kept.len() <= i < line.len() ==> line[i] == '\r'
        }),
    decreases line.len(),
{
    if line.len() > 0 && line.last() == '\r' {
        let rest = line.drop_last();
        law_only_returns_at_the_end_go(rest);
        let kept = without_returns(line);
        assert(kept =~= line.take(kept.len() as int));
        assert forall|i: int| kept.len() <= i < line.len() implies line[i] == '\r' by {
            if i < rest.len() {
                assert(rest[i] == line[i]);
            }
        }
    } else {
        assert(line =~= line.take(line.len() as int));
    }
}

/// A number is at least five characters wide, with spaces before it.
pub proof fn law_numbers_are_padded(text: Seq<char>)
    ensures
        padded(text).len() == if text.len() < 5 {
            5
        } else {
            text.len()
        },
        padded(text).skip(padded(text).len() - text.len()) == text,
        forall|i: int| 0 <= i < padded(text).len() - text.len() ==> padded(text)[i] == ' ',
{
    assert(padded(text).skip(padded(text).len() - text.len()) =~= text);
}

/// A calm text without line feeds is one line.
proof fn lemma_no_line_feed(a: Seq<char>, b: Seq<char>)
    requires
        !a.contains('\n'),
        !b.contains('\n'),
    ensures
        !(a + b).contains('\n'),
{
    if (a + b).contains('\n') {
        let i = choose|i: int| 0 <= i < (a + b).len() && (a + b)[i] == '\n';
        if i < a.len() {
            assert(a[i] == '\n');
        } else {
            assert(b[i - a.len()] == '\n');
        }
    }
}

/// What is shown for a text has no line feed.
proof fn lemma_terminal_is_one_line(text: Seq<char>)
    ensures
        !terminal(text).contains('\n'),
{
    law_terminal_text_is_harmless(text);
    if terminal(text).contains('\n') {
        let i = choose|i: int| 0 <= i < terminal(text).len() && terminal(text)[i] == '\n';
        assert(is_harmful(terminal(text)[i]));
    }
}

/// Digits have no line feed.
proof fn lemma_decimal_is_one_line(value: nat)
    ensures
        !text::decimal(value).contains('\n'),
        !padded(text::decimal(value)).contains('\n'),
{
    text::law_decimal_reads_back(value);
    let digits = text::decimal(value);
    if digits.contains('\n') {
        let i = choose|i: int| 0 <= i < digits.len() && digits[i] == '\n';
        assert(text::is_digit(digits[i]));
    }
    let padding = padded(digits);
    if padding.contains('\n') {
        let i = choose|i: int| 0 <= i < padding.len() && padding[i] == '\n';
        let spaces = padding.len() - digits.len();
        if i >= spaces {
            assert(digits[i - spaces] == '\n');
        }
    }
}

/// A source line as it is shown, without its line feed: two spaces around the mark, the
/// number, a space and the text.
pub open spec fn shown_line(number: nat, matched: bool, line: Seq<char>) -> Seq<char> {
    seq![' ', if matched {
        '>'
    } else {
        ' '
    }, ' '] + padded(text::decimal(number)) + seq![' '] + terminal(without_returns(line))
}

/// The lines of a candidate as they are shown.
proof fn lemma_body_lines(candidate: search::CandidateView, count: nat)
    ensures
        ({
            let output = lines_of(body_text(candidate, count));
            &&& output.len() == count + 1
            &&& output[count as int] == Seq::<char>::empty()
            &&& forall|k: int|
                0 <= k < count ==> #[trigger] output[k] == shown_line(
                    (candidate.start_line + k) as nat,
                    candidate.match_lines.contains((candidate.start_line + k) as usize),
                    lines_of(candidate.snippet)[k],
                )
        }),
    decreases count,
{
    let none = Seq::<char>::empty();
    if count == 0 {
        assert(lines_of(none) =~= seq![none]);
    } else {
        let k = (count - 1) as nat;
        let number = (candidate.start_line + k) as nat;
        let matched = candidate.match_lines.contains(number as usize);
        let line = lines_of(candidate.snippet)[k as int];
        lemma_body_lines(candidate, k);
        let before = body_text(candidate, k);
        let output = lines_of(before);
        let content = shown_line(number, matched, line);
        let mark = seq![' ', if matched {
            '>'
        } else {
            ' '
        }, ' '];
        lemma_decimal_is_one_line(number);
        lemma_terminal_is_one_line(without_returns(line));
        assert(!mark.contains('\n'));
        assert(!seq![' '].contains('\n'));
        lemma_no_line_feed(mark, padded(text::decimal(number)));
        lemma_no_line_feed(mark + padded(text::decimal(number)), seq![' ']);
        lemma_no_line_feed(
            mark + padded(text::decimal(number)) + seq![' '],
            terminal(without_returns(line)),
        );
        reveal_strlit(" ");
        reveal_strlit("\n");
        assert(" "@ =~= seq![' ']);
        assert("\n"@ =~= seq!['\n']);
        assert(body_text(candidate, count) =~= (before + content) + seq!['\n'] + none);
        law_line_feeds_divide_lines(before + content, none);
        assert(!none.contains('\n'));
        law_line_feeds_divide_lines(none, none);
        lemma_same_line(before, content);
        assert(none + content =~= content);
        let after = lines_of(body_text(candidate, count));
        assert(after =~= output.drop_last().push(content).push(none));
        assert forall|i: int| 0 <= i < count implies #[trigger] after[i] == shown_line(
            (candidate.start_line + i) as nat,
            candidate.match_lines.contains((candidate.start_line + i) as usize),
            lines_of(candidate.snippet)[i],
        ) by {
            if i < k {
                assert(after[i] == output[i]);
            }
        }
    }
}

/// Of the lines of a snippet those are shown that lie within the line numbers of the
/// candidate.
pub proof fn law_lines_within_the_numbers_are_shown(candidate: search::CandidateView, k: int)
    requires
        k >= 0,
    ensures
        k < shown_count(candidate) <==> k < lines_of(candidate.snippet).len()
            && candidate.start_line + k <= candidate.end_line,
{
}

/// Every line that is shown is marked exactly if it matches, and stands behind its own
/// number: the output has one line for each, with the mark in its second column exactly
/// if the number is among the matching lines, the number, and the text of that line of
/// the snippet without the carriage returns at its end.
pub proof fn law_lines_are_marked_exactly_if_they_match(candidate: search::CandidateView, k: int)
    requires
        0 <= k < shown_count(candidate),
    ensures
        ({
            let output = lines_of(body_text(candidate, shown_count(candidate)));
            let number = candidate.start_line + k;
            let digits = text::decimal(number as nat);
            let width = if digits.len() < 5 {
                5
            } else {
                digits.len() as int
            };
            &&& number <= usize::MAX
            &&& output.len() == shown_count(candidate) + 1
            &&& output[shown_count(candidate) as int].len() == 0
            &&& output[k].len() > 3 + width
            &&& output[k][0] == ' '
            &&& output[k][1] == '>' <==> exists|m: int|
                0 <= m < candidate.match_lines.len() && #[trigger] candidate.match_lines[m]
                    == number
            &&& output[k][1] == '>' || output[k][1] == ' '
            &&& output[k][2] == ' '
            &&& output[k].subrange(3, 3 + width) == padded(digits)
            &&& output[k][3 + width] == ' '
            &&& output[k].skip(4 + width) == terminal(
                without_returns(lines_of(candidate.snippet)[k]),
            )
        }),
{
    let count = shown_count(candidate);
    lemma_body_lines(candidate, count);
    let output = lines_of(body_text(candidate, count));
    let number = candidate.start_line + k;
    let digits = text::decimal(number as nat);
    let width = padded(digits).len() as int;
    law_numbers_are_padded(digits);
    assert(output[k].subrange(3, 3 + width) =~= padded(digits));
    assert(output[k].skip(4 + width) =~= terminal(
        without_returns(lines_of(candidate.snippet)[k]),
    ));
    if candidate.match_lines.contains(number as usize) {
        let m = choose|m: int|
            0 <= m < candidate.match_lines.len() && candidate.match_lines[m] == number as usize;
        assert(candidate.match_lines[m] == number);
    }
    if exists|m: int|
        0 <= m < candidate.match_lines.len() && #[trigger] candidate.match_lines[m] == number {
        let m = choose|m: int|
            0 <= m < candidate.match_lines.len() && #[trigger] candidate.match_lines[m] == number;
        assert(candidate.match_lines.contains(number as usize));
    }
}

/// Scores are shown to three places: a digit, a point and three digits, which together
/// count the nearest thousandths, behind a minus sign only for a negative zero.
pub proof fn law_scores_are_shown_to_three_places(bits: u64)
    requires
        binary64::is_probability(bits),
    ensures
        ({
            let output = score_text(bits);
            let digits = if binary64::is_negative(bits) {
                output.skip(1)
            } else {
                output
            };
            &&& binary64::is_negative(bits) ==> output.len() > 0 && output[0] == '-'
            &&& digits.len() == 5
            &&& digits[1] == '.'
            &&& text::all_digits(seq![digits[0], digits[2], digits[3], digits[4]])
            &&& text::digits_value(seq![digits[0], digits[2], digits[3], digits[4]])
                == binary64::thousandths(bits)
        }),
        label(Some(bits)) == score_text(bits),
        label(None) == "unscored"@,
{
    binary64::law_thousandths_are_nearest(bits);
    let count = binary64::thousandths(bits) as nat;
    let whole = text::decimal(count / 1000);
    text::law_decimal_reads_back(count / 1000);
    reveal_strlit("-");
    let a = text::digit(count / 1000);
    let b = text::digit(count / 100 % 10);
    let c = text::digit(count / 10 % 10);
    let d = text::digit(count % 10);
    assert(whole =~= seq![a]);
    let output = score_text(bits);
    let digits = if binary64::is_negative(bits) {
        output.skip(1)
    } else {
        output
    };
    assert(digits =~= seq![a, '.', b, c, d]);
    assert(48 <= a as u32 <= 57 && 48 <= b as u32 <= 57 && 48 <= c as u32 <= 57 && 48 <= d as u32
        <= 57);
    let four = seq![a, b, c, d];
    assert(four.drop_last() =~= seq![a, b, c]);
    assert(seq![a, b, c].drop_last() =~= seq![a, b]);
    assert(seq![a, b].drop_last() =~= seq![a]);
    assert(seq![a].drop_last() =~= Seq::<char>::empty());
    reveal_with_fuel(text::digits_value, 6);
    assert(count == count / 1000 * 1000 + count / 100 % 10 * 100 + count / 10 % 10 * 10 + count
        % 10);
}

/// What stands before a result has no line feed.
proof fn lemma_label_is_one_line(relevance: Option<u64>)
    ensures
        !label(relevance).contains('\n'),
{
    match relevance {
        Some(bits) => {
            let count = binary64::thousandths(bits) as nat;
            let sign: Seq<char> = if binary64::is_negative(bits) {
                "-"@
            } else {
                seq![]
            };
            let places = seq![
                '.',
                text::digit(count / 100 % 10),
                text::digit(count / 10 % 10),
                text::digit(count % 10),
            ];
            reveal_strlit("-");
            assert(text::digit(count / 100 % 10) as u32 >= 48);
            assert(text::digit(count / 10 % 10) as u32 >= 48);
            assert(text::digit(count % 10) as u32 >= 48);
            assert(!sign.contains('\n'));
            assert(!places.contains('\n'));
            lemma_decimal_is_one_line(count / 1000);
            lemma_no_line_feed(sign, text::decimal(count / 1000));
            lemma_no_line_feed(sign + text::decimal(count / 1000), places);
        },
        None => {
            reveal_strlit("unscored");
        },
    }
}

/// A result is a line with its score, its path and its first and last line number, then
/// the lines that are shown of it, then an empty line.
pub proof fn law_results_are_shown_whole(row: jev::RankedView)
    ensures
        ({
            let candidate = row.candidate;
            let output = lines_of(row_text(row));
            let body = lines_of(body_text(candidate, shown_count(candidate)));
            &&& output == seq![
                label(row.relevance) + seq![' '] + terminal(candidate.path) + seq![':']
                    + text::decimal(candidate.start_line as nat) + seq!['-'] + text::decimal(
                    candidate.end_line as nat,
                ),
            ] + body + seq![Seq::<char>::empty()]
        }),
{
    let candidate = row.candidate;
    let none = Seq::<char>::empty();
    let body = body_text(candidate, shown_count(candidate));
    let a = label(row.relevance) + seq![' '];
    let b = a + terminal(candidate.path);
    let c = b + seq![':'];
    let d = c + text::decimal(candidate.start_line as nat);
    let e = d + seq!['-'];
    let header = e + text::decimal(candidate.end_line as nat);
    lemma_label_is_one_line(row.relevance);
    assert(!seq![' '].contains('\n') && !seq![':'].contains('\n') && !seq!['-'].contains('\n'));
    lemma_no_line_feed(label(row.relevance), seq![' ']);
    lemma_terminal_is_one_line(candidate.path);
    lemma_no_line_feed(a, terminal(candidate.path));
    lemma_no_line_feed(b, seq![':']);
    lemma_decimal_is_one_line(candidate.start_line as nat);
    lemma_no_line_feed(c, text::decimal(candidate.start_line as nat));
    lemma_no_line_feed(d, seq!['-']);
    lemma_decimal_is_one_line(candidate.end_line as nat);
    lemma_no_line_feed(e, text::decimal(candidate.end_line as nat));
    reveal_strlit(" ");
    reveal_strlit(":");
    reveal_strlit("-");
    reveal_strlit("\n");
    assert(" "@ =~= seq![' '] && ":"@ =~= seq![':'] && "-"@ =~= seq!['-'] && "\n"@
        =~= seq!['\n']);
    let rest = body + seq!['\n'] + none;
    assert(row_text(row) =~= header + seq!['\n'] + rest);
    law_line_feeds_divide_lines(header, rest);
    law_line_feeds_divide_lines(body, none);
    law_line_feeds_divide_lines(none, none);
    assert(!none.contains('\n'));
    assert(lines_of(row_text(row)) =~= seq![header] + lines_of(body) + seq![none]);
}

/// Results are shown one after the other.
pub proof fn law_results_are_shown_in_order(
    a: Seq<jev::RankedView>,
    b: Seq<jev::RankedView>,
    row: jev::RankedView,
)
    ensures
        rows_text(Seq::<jev::RankedView>::empty()) == Seq::<char>::empty(),
        rows_text(seq![row]) == row_text(row),
        rows_text(a + b) == rows_text(a) + rows_text(b),
    decreases b.len(),
{
    assert(rows_text(Seq::<jev::RankedView>::empty()) =~= Seq::<char>::empty());
    assert(seq![row].drop_last() =~= Seq::<jev::RankedView>::empty());
    assert(rows_text(seq![row]) =~= row_text(row));
    if b.len() == 0 {
        assert(a + b =~= a);
        assert(rows_text(a) + rows_text(b) =~= rows_text(a));
    } else {
        law_results_are_shown_in_order(a, b.drop_last(), row);
        assert((a + b).drop_last() =~= a + b.drop_last());
        assert(rows_text(a + b) =~= rows_text(a) + rows_text(b));
    }
}

} // verus!

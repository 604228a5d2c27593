//! Characters, decimal numbers and the order of strings.
use vstd::arithmetic::power::*;
use vstd::prelude::*;
use vstd::std_specs::iter;
use vstd::string::*;
use vstd::utf8::*;

verus! {

/// `String::push` appends one character to the end of the string.
pub assume_specification[ String::push ](string: &mut String, c: char)
    ensures
        final(string)@ == old(string)@.push(c),
;

/// The characters of `text` as a vector.
pub fn to_chars(text: &str) -> (chars: Vec<char>)
    ensures
        chars@ == text@,
{
    let mut chars: Vec<char> = Vec::new();
    for c in iter: text.chars()
        invariant
            chars@ == iter.seq().take(iter.index() as int),
            iter.seq() == text@,
    {
        chars.push(c);
    }
    chars
}

/// The string of the characters `from..to` of `chars`.
pub fn to_text(chars: &Vec<char>, from: usize, to: usize) -> (text: String)
    requires
        from <= to <= chars.len(),
    ensures
        text@ == chars@.subrange(from as int, to as int),
{
    let mut text = String::new();
    let mut i = from;
    while i < to
        invariant
            from <= i <= to <= chars.len(),
            text@ == chars@.subrange(from as int, i as int),
        decreases to - i,
    {
        text.push(chars[i]);
        i += 1;
    }
    text
}

/// What each of several strings holds.
pub open spec fn string_views(strings: Seq<String>) -> Seq<Seq<char>> {
    Seq::new(strings.len(), |i: int| strings[i]@)
}

/// The number of bytes that `text` takes in UTF-8.
pub open spec fn byte_len(text: Seq<char>) -> nat {
    encode_utf8(text).len()
}

/// The number of bytes that `text` takes in UTF-8.
pub fn utf8_len(text: &str) -> (len: usize)
    ensures
        len == byte_len(text@),
{
    text.as_bytes().len()
}

/// UTF-8 of a concatenation is the concatenation of the UTF-8 forms.
pub proof fn lemma_encode_concat(a: Seq<char>, b: Seq<char>)
    ensures
        encode_utf8(a + b) == encode_utf8(a) + encode_utf8(b),
        byte_len(a + b) == byte_len(a) + byte_len(b),
    decreases a.len(),
{
    if a.len() == 0 {
        assert(a + b == b);
    } else {
        assert((a + b).drop_first() == a.drop_first() + b);
        lemma_encode_concat(a.drop_first(), b);
    }
}

/// The character of a decimal digit.
pub open spec fn digit(value: nat) -> char {
    (48 + value) as char
}

/// `value` in decimal, without leading zeros.
pub open spec fn decimal(value: nat) -> Seq<char>
    decreases value,
{
    if value < 10 {
        seq![digit(value)]
    } else {
        decimal(value / 10).push(digit(value % 10))
    }
}

/// Different numbers have different decimals.
pub proof fn lemma_decimal_injective(a: nat, b: nat)
    requires
        decimal(a) == decimal(b),
    ensures
        a == b,
    decreases a,
{
    let (x, y) = (decimal(a), decimal(b));
    assert(decimal(a / 10).len() > 0 && decimal(b / 10).len() > 0);
    assert(x.last() == digit(a % 10) && y.last() == digit(b % 10));
    if a >= 10 && b >= 10 {
        assert(x.drop_last() == decimal(a / 10));
        assert(y.drop_last() == decimal(b / 10));
        lemma_decimal_injective(a / 10, b / 10);
    }
}

/// `value` in decimal, without leading zeros.
pub fn decimal_text(value: u64) -> (text: String)
    ensures
        text@ == decimal(value as nat),
    decreases value,
{
    let last: char = (48u8 + (value % 10) as u8) as char;
    if value < 10 {
        let mut text = String::new();
        text.push(last);
        text
    } else {
        let mut text = decimal_text(value / 10);
        text.push(last);
        text
    }
}

/// Whether `c` is one of the ten decimal digits.
pub open spec fn is_digit(c: char) -> bool {
    '0' <= c <= '9'
}

/// The number that a string of digits denotes.
pub open spec fn digits_value(digits: Seq<char>) -> nat
    decreases digits.len(),
{
    if digits.len() == 0 {
        0
    } else {
        (digits_value(digits.drop_last()) * 10 + (digits.last() as u32 - 48)) as nat
    }
}

/// The number that `text` denotes: decimal digits, at least one, after an
/// optional plus sign.
pub open spec fn unsigned_value(text: Seq<char>) -> Option<nat> {
    let digits = without_plus(text);
    if digits.len() > 0 && all_digits(digits) {
        Some(digits_value(digits))
    } else {
        None
    }
}

/// `text` without the plus sign that it may start with.
pub open spec fn without_plus(text: Seq<char>) -> Seq<char> {
    if text.len() > 0 && text[0] == '+' {
        text.skip(1)
    } else {
        text
    }
}

/// Whether `text` holds nothing but decimal digits.
pub open spec fn all_digits(text: Seq<char>) -> bool {
    forall|i: int| 0 <= i < text.len() ==> is_digit(#[trigger] text[i])
}

/// Dropping the last digit of a number leaves no larger a number.
proof fn lemma_digits_prefix(digits: Seq<char>, len: int)
    requires
        0 <= len <= digits.len(),
        all_digits(digits),
    ensures
        digits_value(digits.take(len)) <= digits_value(digits),
    decreases digits.len() - len,
{
    if len < digits.len() {
        lemma_digits_prefix(digits, len + 1);
        assert(digits.take(len + 1).drop_last() == digits.take(len));
    } else {
        assert(digits.take(len) == digits);
    }
}

/// Reads an unsigned decimal number that fits in `usize`.
pub fn parse_unsigned(text: &str) -> (value: Option<usize>)
    ensures
        match value {
            Some(value) => unsigned_value(text@) == Some(value as nat),
            None => match unsigned_value(text@) {
                Some(value) => value > usize::MAX,
                None => true,
            },
        },
{
    let chars = to_chars(text);
    let start: usize = if chars.len() > 0 && chars[0] == '+' {
        1
    } else {
        0
    };
    let ghost digits = chars@.skip(start as int);
    assert(chars@.skip(0) == chars@);
    if chars.len() == start {
        return None;
    }
    let mut value: usize = 0;
    let mut i = start;
    while i < chars.len()
        invariant
            start <= i <= chars.len(),
            start < chars.len(),
            digits == chars@.skip(start as int),
            digits == without_plus(text@),
            forall|k: int| 0 <= k < i - start ==> is_digit(#[trigger] digits[k]),
            value == digits_value(digits.take(i - start)),
        decreases chars.len() - i,
    {
        let c = chars[i];
        assert(c == digits[i - start]);
        if c < '0' || c > '9' {
            assert(!is_digit(digits[i - start]));
            return None;
        }
        let d: usize = (c as u32 - 48) as usize;
        assert(digits.take(i - start + 1).drop_last() == digits.take(i - start));
        assert(digits_value(digits.take(i - start + 1)) == value * 10 + d);
        if value > (usize::MAX - d) / 10 {
            proof {
                if all_digits(digits) {
                    lemma_digits_prefix(digits, i - start + 1);
                }
                assert(value * 10 + d > usize::MAX);
            }
            return None;
        }
        value = value * 10 + d;
        i += 1;
    }
    assert(digits.take(i - start) == digits);
    Some(value)
}

/// Whether `c` has the Unicode property `White_Space`.
pub open spec fn is_white(c: char) -> bool {
    let n = c as u32;
    ||| 0x09 <= n <= 0x0d
    ||| n == 0x20
    ||| n == 0x85
    ||| n == 0xa0
    ||| n == 0x1680
    ||| 0x2000 <= n <= 0x200a
    ||| n == 0x2028
    ||| n == 0x2029
    ||| n == 0x202f
    ||| n == 0x205f
    ||| n == 0x3000
}

/// Whether `c` has the Unicode property `White_Space`.
pub fn white(c: char) -> (result: bool)
    ensures
        result == is_white(c),
{
    let n = c as u32;
    (0x09 <= n && n <= 0x0d) || n == 0x20 || n == 0x85 || n == 0xa0 || n == 0x1680 || (0x2000 <= n
        && n <= 0x200a) || n == 0x2028 || n == 0x2029 || n == 0x202f || n == 0x205f || n == 0x3000
}

/// Whether `text` holds nothing but white space.
pub open spec fn is_blank(text: Seq<char>) -> bool {
    forall|i: int| 0 <= i < text.len() ==> is_white(#[trigger] text[i])
}

/// Whether `text` holds nothing but white space.
pub fn blank(text: &str) -> (result: bool)
    ensures
        result == is_blank(text@),
{
    let chars = to_chars(text);
    let mut i: usize = 0;
    while i < chars.len()
        invariant
            i <= chars.len(),
            chars@ == text@,
            forall|k: int| 0 <= k < i ==> is_white(#[trigger] chars@[k]),
        decreases chars.len() - i,
    {
        if !white(chars[i]) {
            return false;
        }
        i += 1;
    }
    true
}

/// Whether `inner` is `text` without the white space at its two ends.
pub open spec fn is_trimmed(inner: Seq<char>, text: Seq<char>) -> bool {
    exists|from: int, to: int|
        {
            &&& 0 <= from <= to <= text.len()
            &&& inner == #[trigger] text.subrange(from, to)
            &&& is_blank(text.take(from))
            &&& is_blank(text.skip(to))
            &&& inner.len() > 0 ==> !is_white(inner[0]) && !is_white(inner.last())
        }
}

/// `text` without the white space at its two ends.
pub fn trim(text: &str) -> (inner: String)
    ensures
        is_trimmed(inner@, text@),
{
    let chars = to_chars(text);
    let mut from: usize = 0;
    while from < chars.len() && white(chars[from])
        invariant
            from <= chars.len(),
            forall|k: int| 0 <= k < from ==> is_white(#[trigger] chars@[k]),
        decreases chars.len() - from,
    {
        from += 1;
    }
    let mut to: usize = chars.len();
    while from < to && white(chars[to - 1])
        invariant
            from <= to <= chars.len(),
            forall|k: int| to <= k < chars.len() ==> is_white(#[trigger] chars@[k]),
            from < chars.len() ==> !is_white(chars@[from as int]),
        decreases to - from,
    {
        to -= 1;
    }
    let inner = to_text(&chars, from, to);
    assert(inner@ == text@.subrange(from as int, to as int));
    inner
}

/// How one value stands to another in an order.
#[derive(Clone, Copy, Debug, PartialEq, Eq, Structural)]
pub enum Position {
    Before,
    Same,
    After,
}

/// Whether string `a` stands before string `b` in the order of code points,
/// which is also the order of the bytes of UTF-8.
pub open spec fn precedes(a: Seq<char>, b: Seq<char>) -> bool
    decreases a.len(),
{
    if b.len() == 0 {
        false
    } else if a.len() == 0 {
        true
    } else if a[0] != b[0] {
        a[0] < b[0]
    } else {
        precedes(a.drop_first(), b.drop_first())
    }
}

/// Where string `a` stands to string `b` in the order of code points.
pub fn position(a: &str, b: &str) -> (result: Position)
    ensures
        match result {
            Position::Before => precedes(a@, b@),
            Position::Same => a@ == b@,
            Position::After => precedes(b@, a@),
        },
{
    let mut left = a.chars();
    let mut right = b.chars();
    let ghost mut i: int = 0;
    assert(a@.skip(0) == a@ && b@.skip(0) == b@);
    loop
        invariant
            0 <= i <= a@.len(),
            i <= b@.len(),
            a@.take(i) == b@.take(i),
            iter::IteratorSpec::remaining(&left) == a@.skip(i),
            iter::IteratorSpec::remaining(&right) == b@.skip(i),
            iter::IteratorSpec::decrease(&left) is Some,
            precedes(a@, b@) == precedes(a@.skip(i), b@.skip(i)),
            precedes(b@, a@) == precedes(b@.skip(i), a@.skip(i)),
        decreases iter::IteratorSpec::decrease(&left)->0,
    {
        match (left.next(), right.next()) {
            (None, None) => {
                assert(a@ == a@.take(i) && b@ == b@.take(i));
                return Position::Same;
            },
            (None, Some(_)) => {
                return Position::Before;
            },
            (Some(_), None) => {
                return Position::After;
            },
            (Some(x), Some(y)) => {
                if x < y {
                    return Position::Before;
                }
                if x > y {
                    return Position::After;
                }
                assert(a@.take(i + 1) == b@.take(i + 1)) by {
                    assert(a@.take(i + 1) == a@.take(i).push(x));
                    assert(b@.take(i + 1) == b@.take(i).push(y));
                }
                assert(a@.skip(i).drop_first() == a@.skip(i + 1));
                assert(b@.skip(i).drop_first() == b@.skip(i + 1));
                proof {
                    i = i + 1;
                }
            },
        }
    }
}

/// Whether two strings are the same.
pub fn same(a: &str, b: &str) -> (result: bool)
    ensures
        result == (a@ == b@),
{
    proof {
        lemma_precedes_irreflexive(a@);
    }
    match position(a, b) {
        Position::Same => true,
        _ => false,
    }
}

/// Whether `text` starts with `prefix`.
pub fn starts_with(text: &str, prefix: &str) -> (result: bool)
    ensures
        result == prefix@.is_prefix_of(text@),
{
    let chars = to_chars(text);
    let wanted = to_chars(prefix);
    if wanted.len() > chars.len() {
        return false;
    }
    let mut i: usize = 0;
    while i < wanted.len()
        invariant
            i <= wanted.len() <= chars.len(),
            chars@ == text@,
            wanted@ == prefix@,
            forall|k: int| 0 <= k < i ==> wanted@[k] == chars@[k],
        decreases wanted.len() - i,
    {
        if chars[i] != wanted[i] {
            assert(prefix@[i as int] != text@.subrange(0, prefix@.len() as int)[i as int]);
            return false;
        }
        i += 1;
    }
    assert(prefix@ == text@.subrange(0, prefix@.len() as int));
    true
}

/// No string stands before itself.
pub proof fn lemma_precedes_irreflexive(a: Seq<char>)
    ensures
        !precedes(a, a),
    decreases a.len(),
{
    if a.len() > 0 {
        lemma_precedes_irreflexive(a.drop_first());
    }
}

/// The order of strings is transitive.
pub proof fn lemma_precedes_transitive(a: Seq<char>, b: Seq<char>, c: Seq<char>)
    requires
        precedes(a, b),
        precedes(b, c),
    ensures
        precedes(a, c),
    decreases a.len(),
{
    if a.len() > 0 && a[0] == b[0] && b[0] == c[0] {
        lemma_precedes_transitive(a.drop_first(), b.drop_first(), c.drop_first());
    }
}

/// Of two different strings one stands before the other.
pub proof fn lemma_precedes_total(a: Seq<char>, b: Seq<char>)
    ensures
        a == b || precedes(a, b) || precedes(b, a),
    decreases a.len(),
{
    if a.len() > 0 && b.len() > 0 && a[0] == b[0] {
        lemma_precedes_total(a.drop_first(), b.drop_first());
        if a.drop_first() == b.drop_first() {
            assert(a == seq![a[0]] + a.drop_first());
            assert(b == seq![b[0]] + b.drop_first());
        }
    } else if a.len() == 0 && b.len() == 0 {
        assert(a == b);
    }
}

/// A string of digits stands for its digits, each ten times the one after it.
pub proof fn law_digits_value(a: Seq<char>, b: Seq<char>, c: char)
    requires
        all_digits(a),
        all_digits(b),
        is_digit(c),
    ensures
        digits_value(seq![c]) == c as u32 - 48,
        digits_value(a + b) == digits_value(a) * pow(10, b.len()) + digits_value(b),
    decreases b.len(),
{
    assert(seq![c].drop_last() =~= Seq::<char>::empty());
    assert(digits_value(Seq::<char>::empty()) == 0);
    lemma_pow0(10);
    if b.len() == 0 {
        assert(a + b =~= a);
    } else {
        let rest = b.drop_last();
        assert forall|i: int| 0 <= i < rest.len() implies is_digit(#[trigger] rest[i]) by {
            assert(is_digit(b[i]));
        }
        assert(is_digit(b[b.len() - 1]));
        law_digits_value(a, rest, c);
        assert((a + b).drop_last() =~= a + rest);
        reveal(pow);
        let (x, p, y) = (digits_value(a) as int, pow(10, rest.len()), digits_value(rest) as int);
        assert(pow(10, b.len()) == 10 * p);
        assert((x * p + y) * 10 == x * (10 * p) + y * 10) by (nonlinear_arith);
    }
}

/// A number reads back from its decimal, which starts with a zero only if it is zero.
pub proof fn law_decimal_reads_back(value: nat)
    ensures
        all_digits(decimal(value)),
        decimal(value).len() > 0,
        digits_value(decimal(value)) == value,
        unsigned_value(decimal(value)) == Some(value),
        decimal(value)[0] == '0' ==> value == 0,
        value < 10 ==> decimal(value).len() == 1,
    decreases value,
{
    let last = digit(value % 10);
    assert(48 <= last as u32 <= 57);
    if value >= 10 {
        law_decimal_reads_back(value / 10);
        assert(decimal(value).drop_last() =~= decimal(value / 10));
        assert forall|i: int| 0 <= i < decimal(value).len() implies is_digit(
            #[trigger] decimal(value)[i],
        ) by {
            if i < decimal(value / 10).len() {
                assert(decimal(value)[i] == decimal(value / 10)[i]);
            }
        }
        assert(decimal(value)[0] == decimal(value / 10)[0]);
    } else {
        assert(decimal(value).drop_last() =~= Seq::<char>::empty());
        assert(digits_value(Seq::<char>::empty()) == 0);
    }
    assert(is_digit(decimal(value)[0]));
    assert(without_plus(decimal(value)) == decimal(value));
}

/// What counts as an unsigned number: digits, at least one, with at most one plus sign
/// before them.
pub proof fn law_unsigned_values(digits: Seq<char>, text: Seq<char>)
    requires
        digits.len() > 0,
        forall|i: int| 0 <= i < digits.len() ==> '0' <= #[trigger] digits[i] <= '9',
    ensures
        unsigned_value(digits) == Some(digits_value(digits)),
        unsigned_value(seq!['+'] + digits) == Some(digits_value(digits)),
        unsigned_value(text) is Some ==> text.len() > 0 && '0' <= text.last() <= '9' && forall|
            i: int,
        |
            1 <= i < text.len() ==> '0' <= #[trigger] text[i] <= '9',
        unsigned_value(text) is Some ==> text[0] == '+' || '0' <= text[0] <= '9',
{
    assert(all_digits(digits));
    assert((seq!['+'] + digits).skip(1) =~= digits);
    assert('0' <= digits[0]);
    assert(without_plus(digits) == digits);
    if unsigned_value(text) is Some {
        let rest = without_plus(text);
        assert(is_digit(rest[0]));
        assert(is_digit(rest[rest.len() - 1]));
        assert forall|i: int| 1 <= i < text.len() implies '0' <= #[trigger] text[i] <= '9' by {
            if text[0] == '+' {
                assert(is_digit(rest[i - 1]));
            } else {
                assert(is_digit(rest[i]));
            }
        }
    }
}

/// The order of strings is decided at the first place where they differ; where there is
/// none, the shorter string stands first.
pub proof fn law_first_difference_decides(a: Seq<char>, b: Seq<char>, k: int)
    requires
        0 <= k <= a.len(),
        k <= b.len(),
        a.take(k) == b.take(k),
    ensures
        k < a.len() && k < b.len() && a[k] != b[k] ==> (precedes(a, b) <==> a[k] < b[k]),
        k == a.len() ==> (precedes(a, b) <==> k < b.len()),
        k == b.len() ==> !precedes(a, b),
    decreases k,
{
    if k > 0 {
        assert(a[0] == a.take(k)[0] && b[0] == b.take(k)[0]);
        let (x, y) = (a.drop_first(), b.drop_first());
        assert(x.take(k - 1) =~= a.take(k).drop_first());
        assert(y.take(k - 1) =~= b.take(k).drop_first());
        law_first_difference_decides(x, y, k - 1);
        if k < a.len() {
            assert(x[k - 1] == a[k]);
        }
        if k < b.len() {
            assert(y[k - 1] == b[k]);
        }
    }
}

/// Trimming takes away white space at the two ends, all of it and nothing else.
pub proof fn law_trimmed(inner: Seq<char>, text: Seq<char>) -> (cut: (Seq<char>, Seq<char>))
    requires
        is_trimmed(inner, text),
    ensures
        text == cut.0 + inner + cut.1,
        forall|i: int| 0 <= i < cut.0.len() ==> is_white(#[trigger] cut.0[i]),
        forall|i: int| 0 <= i < cut.1.len() ==> is_white(#[trigger] cut.1[i]),
        inner.len() > 0 ==> !is_white(inner[0]) && !is_white(inner[inner.len() - 1]),
{
    let (from, to) = choose|from: int, to: int|
        {
            &&& 0 <= from <= to <= text.len()
            &&& inner == #[trigger] text.subrange(from, to)
            &&& is_blank(text.take(from))
            &&& is_blank(text.skip(to))
            &&& inner.len() > 0 ==> !is_white(inner[0]) && !is_white(inner.last())
        };
    let cut = (text.take(from), text.skip(to));
    assert(text =~= cut.0 + inner + cut.1);
    cut
}

/// The characters of strings are those of each string, in their order.
pub proof fn law_string_views(strings: Seq<String>, i: int)
    requires
        0 <= i < strings.len(),
    ensures
        string_views(strings).len() == strings.len(),
        string_views(strings)[i] == strings[i]@,
{
}

/// Bytes are those of UTF-8: one to four for a character, by its code, and those of a
/// text are those of its characters together.
pub proof fn law_bytes_of_a_text(a: Seq<char>, b: Seq<char>, c: char)
    ensures
        byte_len(Seq::<char>::empty()) == 0,
        byte_len(seq![c]) == if c as u32 <= 0x7f {
            1nat
        } else if c as u32 <= 0x7ff {
            2
        } else if c as u32 <= 0xffff {
            3
        } else {
            4
        },
        byte_len(a + b) == byte_len(a) + byte_len(b),
{
    lemma_encode_concat(a, b);
    assert(seq![c].drop_first() =~= Seq::<char>::empty());
    reveal_with_fuel(encode_utf8, 2);
}

} // verus!

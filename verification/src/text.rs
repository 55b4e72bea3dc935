//! Card names as sequences of characters.

use vstd::prelude::*;
use vstd::slice::slice_subrange;

verus! {

/// The names of a run of cards, one sequence of characters per card.
pub open spec fn names(cards: Seq<String>) -> Seq<Seq<char>> {
    Seq::new(cards.len(), |i: int| cards[i]@)
}

/// Whether `part` stands in `whole` at offset `at`.
pub open spec fn occurs_at(part: Seq<char>, whole: Seq<char>, at: int) -> bool {
    &&& 0 <= at
    &&& at + part.len() <= whole.len()
    &&& whole.subrange(at, at + part.len()) == part
}

/// Whether `part` occurs somewhere in `whole` as a contiguous run.
pub open spec fn is_substring(part: Seq<char>, whole: Seq<char>) -> bool {
    exists|at: int| occurs_at(part, whole, at)
}

/// `str::contains` with a string as its pattern: tells whether `part` occurs
/// in `whole` as a contiguous run of characters.
#[verifier::external_body]
pub(crate) fn contains_str(whole: &str, part: &str) -> (found: bool)
    ensures
        found == is_substring(part@, whole@),
{
    whole.contains(part)
}

/// Whether a character is white space: the characters that Unicode gives the
/// property `White_Space`.
pub open spec fn is_whitespace(c: char) -> bool {
    let code = c as u32;
    ||| 0x09 <= code <= 0x0D
    ||| code == 0x20
    ||| code == 0x85
    ||| code == 0xA0
    ||| code == 0x1680
    ||| 0x2000 <= code <= 0x200A
    ||| code == 0x2028
    ||| code == 0x2029
    ||| code == 0x202F
    ||| code == 0x205F
    ||| code == 0x3000
}

/// Tells whether a character is white space.
pub fn char_is_whitespace(c: char) -> (white: bool)
    ensures
        white == is_whitespace(c),
{
    let code = c as u32;
    (0x09 <= code && code <= 0x0D) || code == 0x20 || code == 0x85 || code == 0xA0 || code
        == 0x1680 || (0x2000 <= code && code <= 0x200A) || code == 0x2028 || code == 0x2029
        || code == 0x202F || code == 0x205F || code == 0x3000
}

/// Whether a character is one of the digits `0` to `9`.
pub open spec fn is_digit(c: char) -> bool {
    '0' <= c <= '9'
}

/// The number that a digit stands for.
pub open spec fn digit_value(c: char) -> nat {
    (c as u32 - '0' as u32) as nat
}

/// The number that a run of digits stands for in base ten.
pub open spec fn decimal(digits: Seq<char>) -> nat
    decreases digits.len(),
{
    if digits.len() == 0 {
        0
    } else {
        decimal(digits.drop_last()) * 10 + digit_value(digits.last())
    }
}

/// `text` without the white space at its end.
pub open spec fn trim_end(text: Seq<char>) -> Seq<char>
    decreases text.len(),
{
    if text.len() > 0 && is_whitespace(text.last()) {
        trim_end(text.drop_last())
    } else {
        text
    }
}

/// `text` without the white space at its start.
pub open spec fn trim_start(text: Seq<char>) -> Seq<char>
    decreases text.len(),
{
    if text.len() > 0 && is_whitespace(text.first()) {
        trim_start(text.drop_first())
    } else {
        text
    }
}

/// `text` without the white space at its start and at its end.
pub open spec fn trimmed(text: Seq<char>) -> Seq<char> {
    trim_start(trim_end(text))
}

/// The characters of a string, in order.
pub(crate) fn chars_of(text: &str) -> (chars: Vec<char>)
    ensures
        chars@ == text@,
{
    let mut chars: Vec<char> = Vec::new();
    for c in it: text.chars()
        invariant
            chars@ == it.seq().take(it.index()),
            it.seq() == text@,
    {
        chars.push(c);
    }
    chars
}

/// `String::push`: appends one character to the end of a string.
#[verifier::external_body]
fn push_char(text: &mut String, c: char)
    ensures
        final(text)@ == old(text)@.push(c),
{
    text.push(c)
}

/// The string that holds exactly the characters of a slice, in order.
pub(crate) fn string_of(chars: &[char]) -> (text: String)
    ensures
        text@ == chars@,
{
    let mut text = String::new();
    let mut at: usize = 0;
    while at < chars.len()
        invariant
            at <= chars@.len(),
            text@ == chars@.take(at as int),
        decreases chars@.len() - at,
    {
        push_char(&mut text, chars[at]);
        assert(chars@.take(at + 1) =~= chars@.take(at as int).push(chars@[at as int]));
        at += 1;
    }
    assert(chars@.take(at as int) =~= chars@);
    text
}

/// A longer run of digits stands for no smaller a number.
proof fn lemma_decimal_grows(text: Seq<char>, from: int, mid: int, to: int)
    requires
        0 <= from <= mid <= to <= text.len(),
    ensures
        decimal(text.subrange(from, mid)) <= decimal(text.subrange(from, to)),
    decreases to - mid,
{
    if mid < to {
        assert(text.subrange(from, to).drop_last() =~= text.subrange(from, to - 1));
        lemma_decimal_grows(text, from, mid, to - 1);
        assert(decimal(text.subrange(from, to)) >= decimal(text.subrange(from, to - 1)) * 10);
    }
}

/// The number that the digits from `from` up to `to` stand for, if the
/// machine can hold it.
pub(crate) fn parse_decimal(chars: &Vec<char>, from: usize, to: usize) -> (value: Option<usize>)
    requires
        from <= to <= chars@.len(),
        forall|i: int| from <= i < to ==> is_digit(chars@[i]),
    ensures
        match value {
            Some(v) => v == decimal(chars@.subrange(from as int, to as int)),
            None => decimal(chars@.subrange(from as int, to as int)) > usize::MAX,
        },
{
    let mut value: usize = 0;
    let mut at = from;
    assert(chars@.subrange(from as int, at as int) =~= Seq::<char>::empty());
    while at < to
        invariant
            from <= at <= to <= chars@.len(),
            forall|i: int| from <= i < to ==> is_digit(chars@[i]),
            value == decimal(chars@.subrange(from as int, at as int)),
        decreases to - at,
    {
        let c = chars[at];
        assert(is_digit(chars@[at as int]));
        let digit = (c as u32 - '0' as u32) as usize;
        proof {
            assert(chars@.subrange(from as int, at + 1).drop_last() =~= chars@.subrange(
                from as int,
                at as int,
            ));
            lemma_decimal_grows(chars@, from as int, at + 1, to as int);
        }
        match value.checked_mul(10) {
            Some(tens) => match tens.checked_add(digit) {
                Some(sum) => {
                    value = sum;
                },
                None => {
                    return None;
                },
            },
            None => {
                return None;
            },
        }
        at += 1;
    }
    Some(value)
}

/// The number that a text stands for: the text is a run of one or more
/// digits, and the machine can hold the number.
pub open spec fn number_of(text: Seq<char>) -> Option<nat> {
    if text.len() > 0 && (forall|i: int| 0 <= i < text.len() ==> is_digit(#[trigger] text[i]))
        && decimal(text) <= usize::MAX {
        Some(decimal(text))
    } else {
        None
    }
}

/// Reads a text as a number in base ten.
pub fn parse_number(text: &str) -> (value: Option<usize>)
    ensures
        match value {
            Some(v) => number_of(text@) == Some(v as nat),
            None => number_of(text@) is None,
        },
{
    let chars = chars_of(text);
    if chars.len() == 0 {
        return None;
    }
    let mut at: usize = 0;
    while at < chars.len()
        invariant
            at <= chars@.len(),
            chars@ == text@,
            forall|i: int| 0 <= i < at ==> is_digit(#[trigger] chars@[i]),
        decreases chars@.len() - at,
    {
        if !('0' <= chars[at] && chars[at] <= '9') {
            assert(!is_digit(text@[at as int]));
            return None;
        }
        at += 1;
    }
    assert(chars@.subrange(0, chars@.len() as int) =~= chars@);
    parse_decimal(&chars, 0, chars.len())
}

/// The string that holds the characters from `from` up to `to`, without the
/// white space at either end.
pub(crate) fn trimmed_string(chars: &Vec<char>, from: usize, to: usize) -> (text: String)
    requires
        from <= to <= chars@.len(),
    ensures
        text@ == trimmed(chars@.subrange(from as int, to as int)),
{
    let ghost whole = chars@.subrange(from as int, to as int);
    let mut end = to;
    assert(chars@.subrange(from as int, end as int) =~= whole);
    while end > from && char_is_whitespace(chars[end - 1])
        invariant
            from <= end <= to <= chars@.len(),
            whole == chars@.subrange(from as int, to as int),
            trim_end(whole) == trim_end(chars@.subrange(from as int, end as int)),
        decreases end,
    {
        assert(chars@.subrange(from as int, end as int).drop_last() =~= chars@.subrange(
            from as int,
            end - 1,
        ));
        end -= 1;
    }
    let ghost body = chars@.subrange(from as int, end as int);
    assert(trim_end(whole) == body);
    let mut start = from;
    assert(chars@.subrange(start as int, end as int) =~= body);
    while start < end && char_is_whitespace(chars[start])
        invariant
            from <= start <= end <= chars@.len(),
            trim_start(body) == trim_start(chars@.subrange(start as int, end as int)),
        decreases end - start,
    {
        assert(chars@.subrange(start as int, end as int).drop_first() =~= chars@.subrange(
            start + 1,
            end as int,
        ));
        start += 1;
    }
    string_of(slice_subrange(chars.as_slice(), start, end))
}

} // verus!

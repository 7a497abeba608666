//! Reading numbers out of text: the classes of characters, the value of a run of
//! digits, and the cutting of a line into its tokens.

use vstd::prelude::*;
use vstd::string::*;

verus! {

/// One of the ten digits.
pub open spec fn is_digit(c: char) -> bool {
    '0' <= c && c <= '9'
}

/// A character with the property White_Space of Unicode.
pub open spec fn is_space(c: char) -> bool {
    let code = c as u32;
    ||| 0x09 <= code <= 0x0d
    ||| code == 0x20
    ||| code == 0x85
    ||| code == 0xa0
    ||| code == 0x1680
    ||| 0x2000 <= code <= 0x200a
    ||| code == 0x2028
    ||| code == 0x2029
    ||| code == 0x202f
    ||| code == 0x205f
    ||| code == 0x3000
}

/// The value of a digit.
pub open spec fn digit_value(c: char) -> int {
    c as u32 - '0' as u32
}

/// Every character is a digit.
pub open spec fn all_digits(text: Seq<char>) -> bool {
    forall|i: int| 0 <= i < text.len() ==> is_digit(#[trigger] text[i])
}

/// The number that the digits write in base ten.
pub open spec fn number_of(digits: Seq<char>) -> int
    decreases digits.len(),
{
    if digits.len() == 0 {
        0
    } else {
        number_of(digits.drop_last()) * 10 + digit_value(digits.last())
    }
}

/// The text without a plus sign at its front.
pub open spec fn unsigned(text: Seq<char>) -> Seq<char> {
    if text.len() > 0 && text[0] == '+' {
        text.drop_first()
    } else {
        text
    }
}

/// The number that a text stands for: digits, at least one, with or without a plus
/// sign before them, that write a number the machine can hold.
pub open spec fn parsed_number(text: Seq<char>) -> Option<usize> {
    let digits = unsigned(text);
    if digits.len() > 0 && all_digits(digits) && number_of(digits) <= usize::MAX {
        Some(number_of(digits) as usize)
    } else {
        None
    }
}

/// The state of the reading after the first `upto` characters of a line: the numbers
/// of the tokens that are complete, and the characters of the token that is being
/// read; nothing once a token stood for no number.  A token is a longest run of
/// characters that are no white space.
pub open spec fn read_line(line: Seq<char>, upto: int) -> Option<(Seq<usize>, Seq<char>)>
    decreases upto,
{
    if upto <= 0 {
        Some((Seq::empty(), Seq::empty()))
    } else {
        match read_line(line, upto - 1) {
            None => None,
            Some(before) => {
                let c = line[upto - 1];
                if !is_space(c) {
                    Some((before.0, before.1.push(c)))
                } else if before.1.len() == 0 {
                    Some(before)
                } else {
                    match parsed_number(before.1) {
                        Some(value) => Some((before.0.push(value), Seq::empty())),
                        None => None,
                    }
                }
            },
        }
    }
}

/// The numbers that the tokens of a line stand for, if each stands for one.
pub open spec fn line_values(line: Seq<char>) -> Option<Seq<usize>> {
    match read_line(line, line.len() as int) {
        None => None,
        Some(end) => {
            if end.1.len() == 0 {
                Some(end.0)
            } else {
                match parsed_number(end.1) {
                    Some(value) => Some(end.0.push(value)),
                    None => None,
                }
            }
        },
    }
}

/// Once a token stood for no number, the line stands for none.
pub proof fn lemma_read_line_fails(line: Seq<char>, at: int, upto: int)
    requires
        0 <= at <= upto,
        read_line(line, at) is None,
    ensures
        read_line(line, upto) is None,
    decreases upto - at,
{
    if at < upto {
        lemma_read_line_fails(line, at, upto - 1);
    }
}

/// A longer run of digits writes no smaller number.
pub proof fn lemma_number_grows(digits: Seq<char>, k: int)
    requires
        all_digits(digits),
        0 <= k <= digits.len(),
    ensures
        0 <= number_of(digits.take(k)) <= number_of(digits),
    decreases digits.len() - k,
{
    if k < digits.len() {
        lemma_number_grows(digits, k + 1);
        assert(digits.take(k + 1).drop_last() =~= digits.take(k));
        assert(is_digit(digits[k]));
        lemma_number_nonnegative(digits.take(k));
    } else {
        assert(digits.take(k) =~= digits);
        lemma_number_nonnegative(digits);
    }
}

/// Digits write no negative number.
proof fn lemma_number_nonnegative(digits: Seq<char>)
    requires
        all_digits(digits),
    ensures
        0 <= number_of(digits),
    decreases digits.len(),
{
    if digits.len() > 0 {
        lemma_number_nonnegative(digits.drop_last());
        assert(is_digit(digits.last()));
    }
}

/// Whether the character is one of the ten digits.
pub fn is_digit_char(c: char) -> (digit: bool)
    ensures
        digit == is_digit(c),
{
    '0' <= c && c <= '9'
}

/// Whether the character is white space.
pub fn is_space_char(c: char) -> (space: bool)
    ensures
        space == is_space(c),
{
    let code: u32 = c as u32;
    (0x09 <= code && code <= 0x0d) || code == 0x20 || code == 0x85 || code == 0xa0 || code
        == 0x1680 || (0x2000 <= code && code <= 0x200a) || code == 0x2028 || code == 0x2029
        || code == 0x202f || code == 0x205f || code == 0x3000
}

/// The characters of a text.
pub fn chars_of(text: &str) -> (chars: Vec<char>)
    ensures
        chars@ == text@,
{
    let count = text.unicode_len();
    let mut chars: Vec<char> = Vec::new();
    let mut i: usize = 0;
    while i < count
        invariant
            count == text@.len(),
            i <= count,
            chars@ == text@.take(i as int),
        decreases count - i,
    {
        chars.push(text.get_char(i));
        assert(text@.take(i + 1) =~= text@.take(i as int).push(text@[i as int]));
        i += 1;
    }
    assert(text@.take(count as int) =~= text@);
    chars
}

/// The numbers that the tokens of a line stand for, if each stands for one.
pub fn read_values(line: &str) -> (values: Option<Vec<usize>>)
    ensures
        match values {
            Some(values) => line_values(line@) == Some(values@),
            None => line_values(line@) is None,
        },
{
    let chars = chars_of(line);
    let mut values: Vec<usize> = Vec::new();
    let mut pending: Vec<char> = Vec::new();
    let mut i: usize = 0;
    while i < chars.len()
        invariant
            chars@ == line@,
            i <= chars@.len(),
            read_line(line@, i as int) == Some((values@, pending@)),
        decreases chars@.len() - i,
    {
        let c = chars[i];
        if !is_space_char(c) {
            pending.push(c);
        } else if pending.len() > 0 {
            match parse_number(&pending) {
                Some(value) => {
                    values.push(value);
                    pending = Vec::new();
                },
                None => {
                    proof {
                        assert(read_line(line@, i + 1) is None);
                        lemma_read_line_fails(line@, i + 1, line@.len() as int);
                    }
                    return None;
                },
            }
        }
        i += 1;
    }
    if pending.len() > 0 {
        match parse_number(&pending) {
            Some(value) => {
                values.push(value);
            },
            None => {
                return None;
            },
        }
    }
    Some(values)
}

/// The number that the characters stand for, if they stand for one.
pub fn parse_number(text: &Vec<char>) -> (value: Option<usize>)
    ensures
        value == parsed_number(text@),
{
    let start: usize = if text.len() > 0 && text[0] == '+' {
        1
    } else {
        0
    };
    let ghost digits = unsigned(text@);
    assert(digits =~= text@.subrange(start as int, text@.len() as int));
    if start == text.len() {
        return None;
    }
    let mut value: usize = 0;
    let mut i: usize = start;
    while i < text.len()
        invariant
            start <= i <= text@.len(),
            start < text@.len(),
            digits == unsigned(text@),
            digits == text@.subrange(start as int, text@.len() as int),
            all_digits(digits.take(i - start)),
            value == number_of(digits.take(i - start)),
        decreases text@.len() - i,
    {
        let c = text[i];
        let ghost k = i - start;
        proof {
            assert(digits[k] == c);
            assert(digits.take(k + 1).drop_last() =~= digits.take(k));
        }
        if !is_digit_char(c) {
            assert(!all_digits(digits));
            return None;
        }
        let digit: usize = (c as u32 - '0' as u32) as usize;
        proof {
            assert forall|j: int| 0 <= j < k + 1 implies is_digit(#[trigger] digits.take(k + 1)[j]) by {
                if j < k {
                    assert(digits.take(k)[j] == digits[j]);
                }
            }
            if all_digits(digits) {
                lemma_number_grows(digits, k + 1);
            }
        }
        let scaled = match value.checked_mul(10) {
            Some(scaled) => scaled,
            None => {
                return None;
            },
        };
        value = match scaled.checked_add(digit) {
            Some(sum) => sum,
            None => {
                return None;
            },
        };
        i += 1;
    }
    assert(digits.take(i - start) =~= digits);
    Some(value)
}

} // verus!

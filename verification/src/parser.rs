//! Reading a puzzle from the lines of a text.
//!
//! The first line that is no comment holds the side of the board; the lines after
//! it hold the cells, numbers parted by white space.  A `#` starts a comment that
//! runs to the end of its line.

use vstd::prelude::*;
use vstd::string::*;
use crate::board::{is_board, is_permutation};
use crate::puzzle::Puzzle;
use crate::solvable::is_solvable_board;
use crate::text::{
    chars_of, is_digit, is_digit_char, is_space, is_space_char, line_values, parse_number,
    parsed_number, read_values,
};

verus! {

/// Why a text is no puzzle.
#[derive(Debug, Clone, Copy, PartialEq, Eq, Structural)]
pub enum ParseError {
    /// A line is empty.
    EmptyLine,
    /// No line is left once the comments are gone.
    NoData,
    /// A character is neither a digit nor white space.
    UnexpectedCharacter,
    /// The first line does not hold one number and nothing else.
    BadSize,
    /// A token of a later line stands for no number.
    BadValue,
    /// A value is too large for the board or occurs twice.
    UnexpectedValue,
    /// Not every value of the board occurs.
    ValuesMissing,
    /// The side is below three.
    SquareTooSmall,
    /// The cells do not number the square of the side.
    WrongCount,
    /// The puzzle cannot be brought into the goal.
    Unsolvable,
}

impl ParseError {
    /// A short description of the failure.
    pub fn message(&self) -> (text: &'static str)
        ensures
            text@ == message_of(*self),
    {
        match self {
            ParseError::EmptyLine => "There is an empty line in the file",
            ParseError::NoData => "No data.",
            ParseError::UnexpectedCharacter =>
                "Unexpected character in file (only spaces and numbers are allowed beside comments)",
            ParseError::BadSize => "first line should only contain one value",
            ParseError::BadValue => "Unable to parse data into u32",
            ParseError::UnexpectedValue => "A value is out of range or occurs twice.",
            ParseError::ValuesMissing => "All the values needed for chosen size are not present.",
            ParseError::SquareTooSmall => "Square too small, must be at least 3 of size !",
            ParseError::WrongCount => "Wrong number of lines !",
            ParseError::Unsolvable => "Unsolvable puzzle",
        }
    }
}

/// The description of each failure.
pub open spec fn message_of(error: ParseError) -> Seq<char> {
    match error {
        ParseError::EmptyLine => "There is an empty line in the file"@,
        ParseError::NoData => "No data."@,
        ParseError::UnexpectedCharacter =>
            "Unexpected character in file (only spaces and numbers are allowed beside comments)"@,
        ParseError::BadSize => "first line should only contain one value"@,
        ParseError::BadValue => "Unable to parse data into u32"@,
        ParseError::UnexpectedValue => "A value is out of range or occurs twice."@,
        ParseError::ValuesMissing => "All the values needed for chosen size are not present."@,
        ParseError::SquareTooSmall => "Square too small, must be at least 3 of size !"@,
        ParseError::WrongCount => "Wrong number of lines !"@,
        ParseError::Unsolvable => "Unsolvable puzzle"@,
    }
}

/// The characters of each line.
pub open spec fn texts(lines: Seq<String>) -> Seq<Seq<char>> {
    Seq::new(lines.len(), |i: int| lines[i]@)
}

/// The first index from `from` on at which a `#` stands; the length if none does.
pub open spec fn hash_index(line: Seq<char>, from: int) -> int
    decreases line.len() - from,
{
    if from >= line.len() {
        line.len() as int
    } else if line[from] == '#' {
        from
    } else {
        hash_index(line, from + 1)
    }
}

/// The line up to its comment.
pub open spec fn before_hash(line: Seq<char>) -> Seq<char> {
    line.take(hash_index(line, 0))
}

/// The first `upto` lines without their comments; a line that is all comment is
/// left out.
pub open spec fn without_comments(lines: Seq<Seq<char>>, upto: int) -> Seq<Seq<char>>
    decreases upto,
{
    if upto <= 0 {
        Seq::empty()
    } else if lines[upto - 1][0] == '#' {
        without_comments(lines, upto - 1)
    } else {
        without_comments(lines, upto - 1).push(before_hash(lines[upto - 1]))
    }
}

/// No line is empty.
pub open spec fn no_empty_line(lines: Seq<Seq<char>>) -> bool {
    forall|i: int| 0 <= i < lines.len() ==> (#[trigger] lines[i]).len() > 0
}

/// The line holds digits and white space only.
pub open spec fn plain_line(line: Seq<char>) -> bool {
    forall|k: int| 0 <= k < line.len() ==> is_digit(#[trigger] line[k]) || is_space(line[k])
}

/// Every line holds digits and white space only.
pub open spec fn plain_lines(lines: Seq<Seq<char>>) -> bool {
    forall|i: int| 0 <= i < lines.len() ==> plain_line(#[trigger] lines[i])
}

/// The value at `i` cannot stand on a board of side `size`, or stood earlier.
pub open spec fn is_unexpected(data: Seq<usize>, size: int, i: int) -> bool {
    data[i] >= size * size || exists|j: int| 0 <= j < i && data[j] == data[i]
}

/// Some value is unexpected.
pub open spec fn has_unexpected(data: Seq<usize>, size: int) -> bool {
    exists|i: int| 0 <= i < data.len() && is_unexpected(data, size, i)
}

/// The numbers of the lines from the second to line `upto`, if every token stands
/// for a number.
pub open spec fn values_of(lines: Seq<Seq<char>>, upto: int) -> Option<Seq<usize>>
    decreases upto,
{
    if upto <= 1 {
        Some(Seq::empty())
    } else {
        match (values_of(lines, upto - 1), line_values(lines[upto - 1])) {
            (Some(before), Some(values)) => Some(before + values),
            _ => None,
        }
    }
}

/// The side and the cells that the lines hold.
pub open spec fn read_data(lines: Seq<Seq<char>>) -> Result<(usize, Seq<usize>), ParseError> {
    if lines.len() == 0 {
        Err(ParseError::NoData)
    } else {
        match parsed_number(lines[0]) {
            None => Err(ParseError::BadSize),
            Some(size) => match values_of(lines, lines.len() as int) {
                None => Err(ParseError::BadValue),
                Some(data) => Ok((size, data)),
            },
        }
    }
}

/// What the check of the values says.
pub open spec fn values_checked(size: int, data: Seq<usize>) -> Result<(), ParseError> {
    if has_unexpected(data, size) {
        Err(ParseError::UnexpectedValue)
    } else if data.len() < size * size {
        Err(ParseError::ValuesMissing)
    } else {
        Ok(())
    }
}

/// What the check of the shape says.
pub open spec fn square_checked(size: int, data: Seq<usize>) -> Result<(), ParseError> {
    if size < 3 {
        Err(ParseError::SquareTooSmall)
    } else if data.len() != size * size {
        Err(ParseError::WrongCount)
    } else {
        Ok(())
    }
}

/// What the lines of a text stand for: the side and the cells of a puzzle that can
/// be solved, or the first fault that the checks meet.
pub open spec fn parsed(lines: Seq<Seq<char>>) -> Result<(usize, Seq<usize>), ParseError> {
    if !no_empty_line(lines) {
        Err(ParseError::EmptyLine)
    } else {
        let kept = without_comments(lines, lines.len() as int);
        if kept.len() == 0 {
            Err(ParseError::NoData)
        } else if !plain_lines(kept) {
            Err(ParseError::UnexpectedCharacter)
        } else {
            match read_data(kept) {
                Err(error) => Err(error),
                Ok((size, data)) => {
                    if values_checked(size as int, data) is Err {
                        Err(values_checked(size as int, data)->Err_0)
                    } else if square_checked(size as int, data) is Err {
                        Err(square_checked(size as int, data)->Err_0)
                    } else if !is_solvable_board(data, size as int) {
                        Err(ParseError::Unsolvable)
                    } else {
                        Ok((size, data))
                    }
                },
            }
        }
    }
}

/// Values that differ from each other and stay below `bound` number at most
/// `bound`.
pub proof fn lemma_distinct_below(data: Seq<usize>, bound: int)
    requires
        0 <= bound,
        forall|i: int| 0 <= i < data.len() ==> (#[trigger] data[i]) < bound,
        forall|i: int, j: int| 0 <= j < i < data.len() ==> data[j] != data[i],
    ensures
        data.len() <= bound,
{
    let wide = Seq::new(data.len(), |i: int| data[i] as int);
    assert(wide.no_duplicates());
    wide.unique_seq_to_set();
    vstd::seq_lib::seq_to_set_is_finite(wide);
    let range = vstd::set_lib::set_int_range(0, bound);
    vstd::set_lib::lemma_int_range(0, bound);
    assert(wide.to_set().subset_of(range)) by {
        assert forall|v: int| wide.to_set().contains(v) implies range.contains(v) by {
            let i = choose|i: int| 0 <= i < wide.len() && wide[i] == v;
            assert(data[i] < bound);
        }
    }
    vstd::set_lib::lemma_len_subset(wide.to_set(), range);
}

/// Takes the comments out: a line that starts with `#` goes, any other line is cut
/// before its first `#`.
pub fn remove_comments(lines: Vec<String>) -> (kept: Vec<String>)
    requires
        no_empty_line(texts(lines@)),
    ensures
        texts(kept@) == without_comments(texts(lines@), lines@.len() as int),
{
    let mut kept: Vec<String> = Vec::new();
    let ghost all = texts(lines@);
    let mut i: usize = 0;
    while i < lines.len()
        invariant
            i <= lines@.len(),
            all == texts(lines@),
            no_empty_line(all),
            texts(kept@) == without_comments(all, i as int),
        decreases lines@.len() - i,
    {
        let line = lines[i].as_str();
        let ghost before = texts(kept@);
        assert(all[i as int] == line@);
        assert(all[i as int].len() > 0);
        if line.get_char(0) != '#' {
            let count = line.unicode_len();
            let mut pos: usize = 0;
            while pos < count && line.get_char(pos) != '#'
                invariant
                    count == line@.len(),
                    pos <= count,
                    hash_index(line@, 0) == hash_index(line@, pos as int),
                decreases count - pos,
            {
                pos += 1;
            }
            let cut = line.substring_char(0, pos).to_owned();
            kept.push(cut);
            assert(texts(kept@) =~= before.push(before_hash(line@)));
        }
        i += 1;
    }
    kept
}

/// Refuses a text with an empty line.
pub fn check_empty_lines(lines: &[String]) -> (checked: Result<(), ParseError>)
    ensures
        no_empty_line(texts(lines@)) ==> checked is Ok,
        !no_empty_line(texts(lines@)) ==> checked == Err::<(), ParseError>(ParseError::EmptyLine),
{
    let mut i: usize = 0;
    while i < lines.len()
        invariant
            i <= lines@.len(),
            forall|k: int| 0 <= k < i ==> (#[trigger] texts(lines@)[k]).len() > 0,
        decreases lines@.len() - i,
    {
        if lines[i].as_str().is_empty() {
            assert(texts(lines@)[i as int].len() == 0);
            return Err(ParseError::EmptyLine);
        }
        i += 1;
    }
    Ok(())
}

/// Refuses a text without lines.
pub fn check_empty_vec(lines: &[String]) -> (checked: Result<(), ParseError>)
    ensures
        lines@.len() > 0 ==> checked is Ok,
        lines@.len() == 0 ==> checked == Err::<(), ParseError>(ParseError::NoData),
{
    if lines.len() == 0 {
        Err(ParseError::NoData)
    } else {
        Ok(())
    }
}

/// Whether the line holds digits and white space only.
fn is_plain(line: &str) -> (plain: bool)
    ensures
        plain == plain_line(line@),
{
    let chars = chars_of(line);
    let mut k: usize = 0;
    while k < chars.len()
        invariant
            chars@ == line@,
            k <= chars@.len(),
            forall|j: int| 0 <= j < k ==> is_digit(#[trigger] line@[j]) || is_space(line@[j]),
        decreases chars@.len() - k,
    {
        let c = chars[k];
        if !(is_digit_char(c) || is_space_char(c)) {
            return false;
        }
        k += 1;
    }
    true
}

/// Refuses a text that holds anything but digits and white space.
pub fn check_only_numbers_and_spaces(lines: &[String]) -> (checked: Result<(), ParseError>)
    ensures
        plain_lines(texts(lines@)) ==> checked is Ok,
        !plain_lines(texts(lines@)) ==> checked == Err::<(), ParseError>(
            ParseError::UnexpectedCharacter,
        ),
{
    let mut i: usize = 0;
    while i < lines.len()
        invariant
            i <= lines@.len(),
            forall|k: int| 0 <= k < i ==> plain_line(#[trigger] texts(lines@)[k]),
        decreases lines@.len() - i,
    {
        if !is_plain(lines[i].as_str()) {
            assert(!plain_line(texts(lines@)[i as int]));
            return Err(ParseError::UnexpectedCharacter);
        }
        i += 1;
    }
    Ok(())
}

/// Whether the value at `i` stood earlier.
fn stood_earlier(data: &Vec<usize>, i: usize) -> (found: bool)
    requires
        i < data@.len(),
    ensures
        found == exists|j: int| 0 <= j < i && data@[j] == data@[i as int],
{
    let mut j: usize = 0;
    while j < i
        invariant
            i < data@.len(),
            j <= i,
            forall|k: int| 0 <= k < j ==> data@[k] != data@[i as int],
        decreases i - j,
    {
        if data[j] == data[i] {
            return true;
        }
        j += 1;
    }
    false
}

/// Accepts the values if they are those of a board of side `size`, each once.
pub fn check_values_are_incremental(size: usize, data: Vec<usize>) -> (checked: Result<
    (),
    ParseError,
>)
    ensures
        checked == values_checked(size as int, data@),
        checked is Ok <==> is_permutation(data@) && is_board(data@, size as int),
{
    let limit = size.checked_mul(size);
    let mut i: usize = 0;
    while i < data.len()
        invariant
            i <= data@.len(),
            limit == if size * size <= usize::MAX {
                Some((size * size) as usize)
            } else {
                None::<usize>
            },
            forall|k: int| 0 <= k < i ==> !is_unexpected(data@, size as int, k),
        decreases data@.len() - i,
    {
        let in_range = match limit {
            Some(count) => data[i] < count,
            None => true,
        };
        if !in_range || stood_earlier(&data, i) {
            assert(is_unexpected(data@, size as int, i as int));
            return Err(ParseError::UnexpectedValue);
        }
        i += 1;
    }
    let missing = match limit {
        Some(count) => data.len() < count,
        None => true,
    };
    if missing {
        return Err(ParseError::ValuesMissing);
    }
    proof {
        assert(size * size >= 0) by (nonlinear_arith);
        assert forall|k: int| 0 <= k < data@.len() implies (#[trigger] data@[k]) < size * size by {
            assert(!is_unexpected(data@, size as int, k));
        }
        assert forall|a: int, b: int| 0 <= b < a < data@.len() implies data@[b] != data@[a] by {
            assert(!is_unexpected(data@, size as int, a));
        }
        lemma_distinct_below(data@, size * size);
    }
    Ok(())
}

/// Accepts the cells if the side is at least three and they number its square.
pub fn check_values_form_correct_square(size: usize, data: Vec<usize>) -> (checked: Result<
    (),
    ParseError,
>)
    ensures
        checked == square_checked(size as int, data@),
{
    if size < 3 {
        return Err(ParseError::SquareTooSmall);
    }
    match size.checked_mul(size) {
        Some(count) => {
            if data.len() != count {
                return Err(ParseError::WrongCount);
            }
        },
        None => {
            assert(data@.len() == data.len());
            return Err(ParseError::WrongCount);
        },
    }
    Ok(())
}

/// Reads the side from the first line and the cells from the lines after it.
pub fn get_data(lines: Vec<String>) -> (read: Result<(usize, Vec<usize>), ParseError>)
    ensures
        match read {
            Ok((size, data)) => read_data(texts(lines@)) == Ok::<
                (usize, Seq<usize>),
                ParseError,
            >((size, data@)),
            Err(error) => read_data(texts(lines@)) == Err::<(usize, Seq<usize>), ParseError>(
                error,
            ),
        },
{
    let ghost all = texts(lines@);
    if lines.len() == 0 {
        return Err(ParseError::NoData);
    }
    assert(all[0] == lines@[0]@);
    let first = chars_of(lines[0].as_str());
    let size = match parse_number(&first) {
        Some(size) => size,
        None => {
            return Err(ParseError::BadSize);
        },
    };

    let mut data: Vec<usize> = Vec::new();
    let mut i: usize = 1;
    while i < lines.len()
        invariant
            1 <= i <= lines@.len(),
            all == texts(lines@),
            parsed_number(all[0]) == Some(size),
            values_of(all, i as int) == Some(data@),
        decreases lines@.len() - i,
    {
        assert(all[i as int] == lines@[i as int]@);
        match read_values(lines[i].as_str()) {
            Some(mut values) => {
                data.append(&mut values);
            },
            None => {
                proof {
                    assert(values_of(all, i + 1) is None);
                    lemma_values_fail(all, i + 1, all.len() as int);
                }
                return Err(ParseError::BadValue);
            },
        }
        i += 1;
    }

    Ok((size, data))
}

/// Once a line stood for no numbers, the text stands for none.
pub proof fn lemma_values_fail(lines: Seq<Seq<char>>, at: int, upto: int)
    requires
        1 <= at <= upto,
        values_of(lines, at) is None,
    ensures
        values_of(lines, upto) is None,
    decreases upto - at,
{
    if at < upto {
        lemma_values_fail(lines, at, upto - 1);
    }
}

/// Reads a puzzle from the lines of a text.
pub fn parse(lines: Vec<String>) -> (puzzle: Result<Puzzle, ParseError>)
    ensures
        match puzzle {
            Ok(puzzle) => parsed(texts(lines@)) == Ok::<(usize, Seq<usize>), ParseError>(
                (puzzle.size, puzzle@),
            ),
            Err(error) => parsed(texts(lines@)) == Err::<(usize, Seq<usize>), ParseError>(error),
        },
        puzzle is Ok ==> puzzle->Ok_0.valid() && 3 <= puzzle->Ok_0.size && is_solvable_board(
            puzzle->Ok_0@,
            puzzle->Ok_0.size as int,
        ),
{
    match check_empty_lines(lines.as_slice()) {
        Err(error) => {
            return Err(error);
        },
        Ok(_) => {},
    }
    let kept = remove_comments(lines);
    match check_empty_vec(kept.as_slice()) {
        Err(error) => {
            return Err(error);
        },
        Ok(_) => {},
    }
    match check_only_numbers_and_spaces(kept.as_slice()) {
        Err(error) => {
            return Err(error);
        },
        Ok(_) => {},
    }
    let (size, data) = match get_data(kept) {
        Err(error) => {
            return Err(error);
        },
        Ok(read) => read,
    };
    match check_values_are_incremental(size, data.clone()) {
        Err(error) => {
            return Err(error);
        },
        Ok(_) => {},
    }
    match check_values_form_correct_square(size, data.clone()) {
        Err(error) => {
            return Err(error);
        },
        Ok(_) => {},
    }

    match Puzzle::new_from_file(data, size) {
        Ok(puzzle) => Ok(puzzle),
        Err(_) => Err(ParseError::Unsolvable),
    }
}

} // verus!

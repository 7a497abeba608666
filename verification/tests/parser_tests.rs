use npuzzle::generator::is_solvable;
use npuzzle::parser::{
    check_empty_lines, check_empty_vec, check_only_numbers_and_spaces,
    check_values_are_incremental, check_values_form_correct_square, get_data, parse,
    remove_comments, ParseError,
};
use npuzzle::text::{is_digit_char, is_space_char, parse_number, read_values};

fn lines_of(lines: &[&str]) -> Vec<String> {
    lines.iter().map(|line| line.to_string()).collect()
}

#[test]
fn generator_solvable_puzzle_already_solved() {
    let puzzle: Vec<Vec<usize>> = vec![vec![0, 1, 2], vec![3, 4, 5], vec![6, 7, 8]];
    assert_eq!(is_solvable(&puzzle), true);
}

#[test]
fn generator_solvable_puzzle() {
    let puzzle: Vec<Vec<usize>> = vec![vec![0, 1, 2], vec![3, 4, 5], vec![6, 7, 8]];
    assert_eq!(is_solvable(&puzzle), true);
}

#[test]
fn generator_unsolvable_puzzle() {
    let puzzle: Vec<Vec<usize>> = vec![vec![0, 1, 2], vec![3, 4, 5], vec![6, 8, 7]];
    assert_eq!(is_solvable(&puzzle), false);
}

#[test]
fn generator_counts_every_pair() {
    let puzzle: Vec<Vec<usize>> = vec![vec![2, 1], vec![0]];
    assert_eq!(is_solvable(&puzzle), false);
    let puzzle: Vec<Vec<usize>> = vec![vec![2, 0], vec![1]];
    assert_eq!(is_solvable(&puzzle), true);
    let puzzle: Vec<Vec<usize>> = vec![vec![], vec![5]];
    assert_eq!(is_solvable(&puzzle), true);
}

#[test]
fn panic_no_size() {
    let lines: Vec<String> = vec![
        "0  3  4".to_string(),
        "1 5     6".to_string(),
        "   2 7 8   ".to_string(),
    ];
    assert_eq!(parse(lines), Err(ParseError::BadSize));
}

#[test]
fn no_panic() {
    let lines: Vec<String> = vec![
        "3".to_string(),
        "1 2 3".to_string(),
        "8 0 4".to_string(),
        "7 6 5".to_string(),
    ];
    let puzzle = parse(lines).unwrap();
    assert_eq!(puzzle.size, 3);
    assert_eq!(puzzle.data, vec![1, 2, 3, 8, 0, 4, 7, 6, 5]);
}

#[test]
fn parser_no_panic() {
    let lines: Vec<String> = vec!["1".to_string()];
    assert_eq!(remove_comments(lines), vec!["1".to_string()]);

    let lines: Vec<String> = vec!["1".to_string()];
    assert_eq!(check_empty_vec(&lines), Ok(()));

    let size: usize = 2;
    let tab = vec![0, 1, 2, 3];
    assert_eq!(check_values_are_incremental(size, tab), Ok(()));

    let size: usize = 3;
    let tab = vec![0, 1, 2, 2, 3, 5, 8, 7, 6];
    assert_eq!(check_values_form_correct_square(size, tab), Ok(()));
}

#[test]
fn panic_because_empty_line() {
    let lines: Vec<String> = vec!["".to_string()];
    assert_eq!(check_empty_lines(&lines), Err(ParseError::EmptyLine));
    let lines: Vec<String> = vec!["3".to_string(), "".to_string()];
    assert_eq!(parse(lines), Err(ParseError::EmptyLine));
    let lines: Vec<String> = vec!["3".to_string(), " ".to_string()];
    assert_eq!(check_empty_lines(&lines), Ok(()));
}

#[test]
fn panic_because_empty_vec() {
    let lines: Vec<String> = vec![];
    assert_eq!(check_empty_vec(&lines), Err(ParseError::NoData));
    assert_eq!(parse(vec![]), Err(ParseError::NoData));
    assert_eq!(parse(lines_of(&["# nothing", "#"])), Err(ParseError::NoData));
}

#[test]
fn panic_because_value_out_of_scope() {
    let size: usize = 2;
    let tab = vec![0, 1, 2, 5];
    assert_eq!(
        check_values_are_incremental(size, tab),
        Err(ParseError::UnexpectedValue)
    );
}

#[test]
fn panic_because_two_time_same_value() {
    let size: usize = 2;
    let tab = vec![0, 1, 2, 2];
    assert_eq!(
        check_values_are_incremental(size, tab),
        Err(ParseError::UnexpectedValue)
    );
}

#[test]
fn panic_because_too_few_values() {
    let size: usize = 2;
    let tab = vec![0, 1, 2];
    assert_eq!(
        check_values_are_incremental(size, tab),
        Err(ParseError::ValuesMissing)
    );
}

#[test]
fn values_of_a_huge_side_are_missing() {
    assert_eq!(
        check_values_are_incremental(usize::MAX, vec![0, 1, 2]),
        Err(ParseError::ValuesMissing)
    );
    assert_eq!(
        check_values_form_correct_square(usize::MAX, vec![0, 1, 2]),
        Err(ParseError::WrongCount)
    );
    assert_eq!(
        check_values_are_incremental(2, vec![0, 1, 2, 3, 4]),
        Err(ParseError::UnexpectedValue)
    );
}

#[test]
fn panic_because_too_few_values_in_one_line() {
    let size: usize = 3;
    let tab = vec![0, 1, 2, 3, 5, 6, 7, 8];
    assert_eq!(
        check_values_form_correct_square(size, tab),
        Err(ParseError::WrongCount)
    );
}

#[test]
fn panic_because_too_much_values_in_one_line() {
    let size: usize = 3;
    let tab = vec![0, 1, 2, 3, 4, 5, 6, 7, 8, 9];
    assert_eq!(
        check_values_form_correct_square(size, tab),
        Err(ParseError::WrongCount)
    );
}

#[test]
fn panic_because_wrong_number_of_lines() {
    let size: usize = 3;
    let tab = vec![0, 1, 2, 3, 4, 5];
    assert_eq!(
        check_values_form_correct_square(size, tab),
        Err(ParseError::WrongCount)
    );
}

#[test]
fn panic_because_square_is_too_small() {
    let size: usize = 2;
    let tab = vec![0, 1, 2, 3];
    assert_eq!(
        check_values_form_correct_square(size, tab),
        Err(ParseError::SquareTooSmall)
    );
}

#[test]
fn use_case_test() {
    let data_string: Vec<String> = vec![
        "3".to_string(),
        "0  3  4".to_string(),
        "1 5     6".to_string(),
        "   2 7 8   ".to_string(),
    ];
    let data_number: (usize, Vec<usize>) = (3, vec![0, 3, 4, 1, 5, 6, 2, 7, 8]);

    assert_eq!(get_data(data_string), Ok(data_number));
}

#[test]
fn panic_if_cannot_get_size() {
    let data_string: Vec<String> = vec![];
    assert_eq!(get_data(data_string), Err(ParseError::NoData));
}

#[test]
fn data_with_faults() {
    assert_eq!(get_data(lines_of(&["3 ", "1 2"])), Err(ParseError::BadSize));
    assert_eq!(get_data(lines_of(&["", "1 2"])), Err(ParseError::BadSize));
    assert_eq!(get_data(lines_of(&["3 4", "1 2"])), Err(ParseError::BadSize));
    assert_eq!(get_data(lines_of(&["+3", "1 +2"])), Ok((3, vec![1, 2])));
    assert_eq!(get_data(lines_of(&["3", "1 x 2"])), Err(ParseError::BadValue));
    assert_eq!(get_data(lines_of(&["3", "1 2", "3 -4"])), Err(ParseError::BadValue));
    assert_eq!(get_data(lines_of(&["3", "1 2+"])), Err(ParseError::BadValue));
    assert_eq!(
        get_data(lines_of(&["3", "99999999999999999999999999"])),
        Err(ParseError::BadValue)
    );
    assert_eq!(get_data(lines_of(&["007", " ", "\t1\u{a0}2\u{3000}"])), Ok((7, vec![1, 2])));
    assert_eq!(get_data(lines_of(&["5"])), Ok((5, vec![])));
}

#[test]
fn numbers_in_text() {
    let chars = |text: &str| -> Vec<char> { text.chars().collect() };
    assert_eq!(parse_number(&chars("0")), Some(0));
    assert_eq!(parse_number(&chars("42")), Some(42));
    assert_eq!(parse_number(&chars("+42")), Some(42));
    assert_eq!(parse_number(&chars("")), None);
    assert_eq!(parse_number(&chars("+")), None);
    assert_eq!(parse_number(&chars("-1")), None);
    assert_eq!(parse_number(&chars("4 2")), None);
    assert_eq!(parse_number(&chars("++1")), None);
    assert_eq!(
        parse_number(&chars(&usize::MAX.to_string())),
        Some(usize::MAX)
    );
    assert_eq!(parse_number(&chars("18446744073709551616")), None);
    assert_eq!(parse_number(&chars("184467440737095516150")), None);
    assert_eq!(read_values("  12 7\t 9 "), Some(vec![12, 7, 9]));
    assert_eq!(read_values(""), Some(vec![]));
    assert_eq!(read_values("1 a"), None);
    assert_eq!(read_values("a 1"), None);
}

#[test]
fn classes_of_characters_are_those_of_the_standard_library() {
    for code in 0..0x11_0000u32 {
        if let Some(c) = char::from_u32(code) {
            assert_eq!(is_space_char(c), c.is_whitespace());
            assert_eq!(is_digit_char(c), c.is_digit(10));
        }
    }
}

#[test]
fn comments_go() {
    assert_eq!(
        remove_comments(lines_of(&["# a board", "3 # the side", "1 2 3", "#", "8 0 4#", "7 6 5"])),
        lines_of(&["3 ", "1 2 3", "8 0 4", "7 6 5"])
    );
    assert_eq!(remove_comments(lines_of(&[" #", "a#b#c"])), lines_of(&[" ", "a"]));
    assert_eq!(remove_comments(vec![]), Vec::<String>::new());
}

#[test]
fn only_numbers_and_spaces() {
    assert_eq!(check_only_numbers_and_spaces(&lines_of(&["3", " 1 2\t3 "])), Ok(()));
    assert_eq!(check_only_numbers_and_spaces(&lines_of(&[])), Ok(()));
    assert_eq!(
        check_only_numbers_and_spaces(&lines_of(&["3", "1 2 x"])),
        Err(ParseError::UnexpectedCharacter)
    );
    assert_eq!(
        check_only_numbers_and_spaces(&lines_of(&["+3"])),
        Err(ParseError::UnexpectedCharacter)
    );
}

#[test]
fn texts_that_are_no_puzzle() {
    assert_eq!(
        parse(lines_of(&["3", "1 2 3", "8 0 4", "7 6 x"])),
        Err(ParseError::UnexpectedCharacter)
    );
    assert_eq!(
        parse(lines_of(&["3 # side", "1 2 3", "8 0 4", "7 6 5"])),
        Err(ParseError::BadSize)
    );
    assert_eq!(
        parse(lines_of(&["3", "1 2 3", "8 0 4", "7 6 9"])),
        Err(ParseError::UnexpectedValue)
    );
    assert_eq!(
        parse(lines_of(&["3", "1 2 3", "8 0 4", "7 6 6"])),
        Err(ParseError::UnexpectedValue)
    );
    assert_eq!(
        parse(lines_of(&["3", "1 2 3", "8 0 4", "7 6"])),
        Err(ParseError::ValuesMissing)
    );
    assert_eq!(
        parse(lines_of(&["2", "1 2", "0 3"])),
        Err(ParseError::SquareTooSmall)
    );
    assert_eq!(
        parse(lines_of(&["3", "0 1 2", "3 4 5", "6 7 8"])),
        Err(ParseError::Unsolvable)
    );
    assert_eq!(
        parse(lines_of(&["3", "2 1 3", "8 0 4", "7 6 5"])),
        Err(ParseError::Unsolvable)
    );
    assert_eq!(
        parse(lines_of(&["18446744073709551615", "1"])),
        Err(ParseError::ValuesMissing)
    );
}

#[test]
fn text_with_comments_is_a_puzzle() {
    let puzzle = parse(lines_of(&[
        "# This puzzle is solvable",
        "3",
        "1 8 4 # first row",
        "0 3 5",
        "#",
        "2\t7   6",
    ]))
    .unwrap();
    assert_eq!(puzzle.size, 3);
    assert_eq!(puzzle.data, vec![1, 8, 4, 0, 3, 5, 2, 7, 6]);
}

#[test]
fn messages_of_the_parser() {
    assert_eq!(ParseError::NoData.message(), "No data.");
    assert_eq!(
        ParseError::EmptyLine.message(),
        "There is an empty line in the file"
    );
    assert_eq!(
        ParseError::UnexpectedCharacter.message(),
        "Unexpected character in file (only spaces and numbers are allowed beside comments)"
    );
    assert_eq!(
        ParseError::BadSize.message(),
        "first line should only contain one value"
    );
    assert_eq!(ParseError::BadValue.message(), "Unable to parse data into u32");
    assert_eq!(
        ParseError::UnexpectedValue.message(),
        "A value is out of range or occurs twice."
    );
    assert_eq!(
        ParseError::ValuesMissing.message(),
        "All the values needed for chosen size are not present."
    );
    assert_eq!(
        ParseError::SquareTooSmall.message(),
        "Square too small, must be at least 3 of size !"
    );
    assert_eq!(ParseError::WrongCount.message(), "Wrong number of lines !");
    assert_eq!(ParseError::Unsolvable.message(), "Unsolvable puzzle");
}

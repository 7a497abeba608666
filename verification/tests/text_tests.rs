use npuzzle::puzzle::same_cells;
use npuzzle::render::{push_decimal, push_padded};
use npuzzle::text::chars_of;

#[test]
fn numbers_as_text() {
    let mut text = String::from("n = ");
    assert_eq!(push_decimal(&mut text, 0), 1);
    assert_eq!(text, "n = 0");
    let mut text = String::new();
    assert_eq!(push_decimal(&mut text, 9), 1);
    assert_eq!(push_decimal(&mut text, 10), 2);
    assert_eq!(push_decimal(&mut text, 4071), 4);
    assert_eq!(text, "9104071");
    let mut text = String::new();
    let digits = push_decimal(&mut text, usize::MAX);
    assert_eq!(text, usize::MAX.to_string());
    assert_eq!(digits, text.len());
}

#[test]
fn numbers_in_their_cells() {
    let mut text = String::new();
    push_padded(&mut text, 7, 3);
    push_padded(&mut text, 42, 3);
    push_padded(&mut text, 123, 3);
    push_padded(&mut text, 1234, 3);
    push_padded(&mut text, 5, 4);
    push_padded(&mut text, 6, 0);
    assert_eq!(text, "7  42 12312345   6");
    for value in [0usize, 5, 10, 99, 100, 999, 1000, 12345] {
        for width in 0..5usize {
            let mut text = String::new();
            push_padded(&mut text, value, width);
            assert_eq!(text, format!("{0:<1$}", value, width));
        }
    }
}

#[test]
fn characters_of_a_text() {
    assert_eq!(chars_of(""), Vec::<char>::new());
    assert_eq!(chars_of("a b"), vec!['a', ' ', 'b']);
    assert_eq!(chars_of("1\u{3000}é"), vec!['1', '\u{3000}', 'é']);
}

#[test]
fn cells_compared() {
    assert!(same_cells(&vec![], &vec![]));
    assert!(same_cells(&vec![1, 2, 3], &vec![1, 2, 3]));
    assert!(!same_cells(&vec![1, 2, 3], &vec![1, 2]));
    assert!(!same_cells(&vec![1, 2, 3], &vec![1, 2, 4]));
    assert!(!same_cells(&vec![0, 2, 3], &vec![1, 2, 3]));
}

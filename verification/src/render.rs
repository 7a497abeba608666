//! Writing a board as text: the cells row by row, each number followed by blanks up
//! to a fixed width.

use vstd::prelude::*;
use vstd::string::*;

verus! {

/// The character that writes a digit.
pub open spec fn digit_char(d: int) -> char {
    if d == 0 {
        '0'
    } else if d == 1 {
        '1'
    } else if d == 2 {
        '2'
    } else if d == 3 {
        '3'
    } else if d == 4 {
        '4'
    } else if d == 5 {
        '5'
    } else if d == 6 {
        '6'
    } else if d == 7 {
        '7'
    } else if d == 8 {
        '8'
    } else {
        '9'
    }
}

/// The digits that write a number in base ten.
pub open spec fn decimal(value: nat) -> Seq<char>
    decreases value,
{
    if value < 10 {
        seq![digit_char(value as int)]
    } else {
        decimal(value / 10).push(digit_char((value % 10) as int))
    }
}

/// So many blanks.
pub open spec fn blanks(count: int) -> Seq<char> {
    Seq::new(
        if count > 0 {
            count as nat
        } else {
            0
        },
        |i: int| ' ',
    )
}

/// The number, followed by blanks as far as it is shorter than `width`.
pub open spec fn padded(value: nat, width: int) -> Seq<char> {
    decimal(value) + blanks(width - decimal(value).len())
}

/// The width of a cell on a board of side `size`.
pub open spec fn cell_width(size: int) -> int {
    if size < 11 {
        3
    } else {
        4
    }
}

/// The text of the first `upto` cells: a new line starts before the first cell of
/// every row but the first.
pub open spec fn rendered_upto(cells: Seq<usize>, size: int, upto: int) -> Seq<char>
    decreases upto,
{
    if upto <= 0 {
        Seq::empty()
    } else {
        let i = upto - 1;
        rendered_upto(cells, size, i) + (if i % size == 0 && i != 0 {
            seq!['\n']
        } else {
            Seq::empty()
        }) + padded(cells[i] as nat, cell_width(size))
    }
}

/// The text of a board: its cells row by row, and a new line at the end.
pub open spec fn rendered(cells: Seq<usize>, size: int) -> Seq<char> {
    rendered_upto(cells, size, cells.len() as int).push('\n')
}

/// The text that writes one digit.
fn digit_text(d: usize) -> (text: &'static str)
    requires
        d < 10,
    ensures
        text@ == seq![digit_char(d as int)],
{
    proof {
        reveal_strlit("0");
        reveal_strlit("1");
        reveal_strlit("2");
        reveal_strlit("3");
        reveal_strlit("4");
        reveal_strlit("5");
        reveal_strlit("6");
        reveal_strlit("7");
        reveal_strlit("8");
        reveal_strlit("9");
    }
    let text = if d == 0 {
        "0"
    } else if d == 1 {
        "1"
    } else if d == 2 {
        "2"
    } else if d == 3 {
        "3"
    } else if d == 4 {
        "4"
    } else if d == 5 {
        "5"
    } else if d == 6 {
        "6"
    } else if d == 7 {
        "7"
    } else if d == 8 {
        "8"
    } else {
        "9"
    };
    assert(text@ =~= seq![digit_char(d as int)]);
    text
}

/// Writes the number at the end of the text and tells how many digits it took.
pub fn push_decimal(out: &mut String, value: usize) -> (count: usize)
    ensures
        final(out)@ == old(out)@ + decimal(value as nat),
        count == decimal(value as nat).len(),
        1 <= count <= 20,
    decreases value,
{
    let mut count: usize = 0;
    if value >= 10 {
        count = push_decimal(out, value / 10);
        proof {
            lemma_decimal_length(value as nat);
        }
    }
    out.append(digit_text(value % 10));
    assert(out@ =~= old(out)@ + decimal(value as nat));
    count + 1
}

/// A number below ten to the power of twenty has at most twenty digits; so has
/// every number that the machine can hold.
proof fn lemma_decimal_length(value: nat)
    requires
        value <= u64::MAX,
    ensures
        decimal(value).len() <= 20,
{
    reveal_with_fuel(decimal, 21);
    assert(value / 10 / 10 / 10 / 10 / 10 / 10 / 10 / 10 / 10 / 10 / 10 / 10 / 10 / 10 / 10 / 10
        / 10 / 10 / 10 / 10 == 0);
}

/// Writes the number and the blanks that fill its cell.
pub fn push_padded(out: &mut String, value: usize, width: usize)
    requires
        width <= 4,
    ensures
        final(out)@ == old(out)@ + padded(value as nat, width as int),
{
    let mut count = push_decimal(out, value);
    let ghost digits = decimal(value as nat);
    let ghost start = old(out)@;
    proof {
        reveal_strlit(" ");
    }
    while count < width
        invariant
            width <= 4,
            count >= digits.len(),
            count == digits.len() || count <= width,
            count <= 20,
            out@ == start + digits + blanks(count - digits.len()),
        decreases width - count,
    {
        proof {
            reveal_strlit(" ");
        }
        out.append(" ");
        assert(out@ =~= start + digits + blanks(count + 1 - digits.len()));
        count += 1;
    }
    assert(out@ =~= start + padded(value as nat, width as int));
}

} // verus!

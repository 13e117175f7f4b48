//! Numbers and table cells as text.
use vstd::prelude::*;

verus! {

/// `String::push` of the standard library appends one character to the end
/// of the string and leaves what was there unchanged.
pub assume_specification[ String::push ](text: &mut String, ch: char)
    ensures
        final(text)@ == old(text)@.push(ch),
;

/// `String::push_str` of the standard library appends the characters of a
/// string slice, in order, to the end of the string and leaves what was
/// there unchanged.
pub assume_specification[ String::push_str ](text: &mut String, string: &str)
    ensures
        final(text)@ == old(text)@ + string@,
;

/// The character of a decimal digit.
pub open spec fn digit_char(digit: nat) -> char {
    (48 + digit) as char
}

/// The decimal digits of a number, most significant first, without leading zeros.
pub open spec fn decimal(number: nat) -> Seq<char>
    decreases number,
{
    if number < 10 {
        seq![digit_char(number)]
    } else {
        decimal(number / 10).push(digit_char(number % 10))
    }
}

/// `count` spaces.
pub open spec fn spaces(count: nat) -> Seq<char> {
    Seq::new(count, |i: int| ' ')
}

/// The text aligned to the right in a cell of `width` characters; a text
/// that is longer than the cell is left as it is.
pub open spec fn padded(text: Seq<char>, width: nat) -> Seq<char> {
    if text.len() >= width {
        text
    } else {
        spaces((width - text.len()) as nat) + text
    }
}

/// The character of a decimal digit.
pub fn digit_of(digit: u8) -> (ch: char)
    requires
        digit < 10,
    ensures
        ch == digit_char(digit as nat),
{
    (48 + digit) as char
}

/// The decimal digits of a number.
pub fn decimal_digits(number: usize) -> (digits: Vec<char>)
    ensures
        digits@ == decimal(number as nat),
    decreases number,
{
    if number < 10 {
        let mut digits: Vec<char> = Vec::new();
        digits.push(digit_of(number as u8));
        assert(digits@ =~= seq![digit_char(number as nat)]);
        digits
    } else {
        let mut digits = decimal_digits(number / 10);
        digits.push(digit_of((number % 10) as u8));
        digits
    }
}

/// Appends `cell` to `text`, aligned to the right in `width` characters.
pub fn push_padded(text: &mut String, cell: &Vec<char>, width: usize)
    ensures
        final(text)@ == old(text)@ + padded(cell@, width as nat),
{
    let n: usize = cell.len();
    let mut filled: usize = n;
    while filled < width
        invariant
            n <= filled,
            filled == n || filled <= width,
            text@ == old(text)@ + spaces((filled - n) as nat),
        decreases width - filled,
    {
        text.push(' ');
        filled = filled + 1;
        proof {
            assert(spaces((filled - n) as nat) =~= spaces((filled - 1 - n) as nat).push(' '));
            assert(text@ =~= old(text)@ + spaces((filled - n) as nat));
        }
    }
    let ghost front = text@;
    let ghost gap = spaces((filled - n) as nat);
    assert(front == old(text)@ + gap);
    assert(gap + cell@ == padded(cell@, width as nat)) by {
        if n >= width {
            assert(gap + cell@ =~= cell@);
        }
    }
    let mut i: usize = 0;
    while i < n
        invariant
            n == cell@.len(),
            i <= n,
            text@ == front + cell@.take(i as int),
        decreases n - i,
    {
        text.push(cell[i]);
        i = i + 1;
        proof {
            assert(cell@.take(i as int) =~= cell@.take(i - 1).push(cell@[i - 1]));
            assert(text@ =~= front + cell@.take(i as int));
        }
    }
    proof {
        assert(cell@.take(n as int) =~= cell@);
        assert(text@ =~= old(text)@ + (gap + cell@));
    }
}

} // verus!

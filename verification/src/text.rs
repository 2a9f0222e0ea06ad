use vstd::prelude::*;

verus! {

/// `String::push` appends one scalar to the string.
pub assume_specification[ std::string::String::push ](
    text: &mut std::string::String,
    scalar: char,
)
    ensures
        final(text)@ == old(text)@.push(scalar),
;

/// The scalars of a string, one item each.
pub fn to_scalars(text: &str) -> (scalars: Vec<char>)
    ensures
        scalars@ == text@,
{
    let mut scalars: Vec<char> = Vec::new();
    for scalar in it: text.chars()
        invariant
            it.seq() == text@,
            scalars@ == it.seq().take(it.index() as int),
    {
        scalars.push(scalar);
    }
    scalars
}

/// The character of a decimal digit.
pub open spec fn digit(value: nat) -> char {
    if value == 0 {
        '0'
    } else if value == 1 {
        '1'
    } else if value == 2 {
        '2'
    } else if value == 3 {
        '3'
    } else if value == 4 {
        '4'
    } else if value == 5 {
        '5'
    } else if value == 6 {
        '6'
    } else if value == 7 {
        '7'
    } else if value == 8 {
        '8'
    } else {
        '9'
    }
}

/// A number in decimal digits, without leading zeros.
pub open spec fn decimal(n: nat) -> Seq<char>
    decreases n,
{
    if n < 10 {
        seq![digit(n)]
    } else {
        decimal(n / 10).push(digit(n % 10))
    }
}

fn digit_of(value: usize) -> (scalar: char)
    requires
        value < 10,
    ensures
        scalar == digit(value as nat),
{
    match value {
        0 => '0',
        1 => '1',
        2 => '2',
        3 => '3',
        4 => '4',
        5 => '5',
        6 => '6',
        7 => '7',
        8 => '8',
        _ => '9',
    }
}

/// Appends a number in decimal digits.
pub fn push_decimal(text: &mut String, n: usize)
    ensures
        final(text)@ == old(text)@ + decimal(n as nat),
    decreases n,
{
    if n >= 10 {
        push_decimal(text, n / 10);
    }
    text.push(digit_of(n % 10));
    assert(text@ =~= old(text)@ + decimal(n as nat));
}

} // verus!

//! Strings put together from parts.

use vstd::prelude::*;

verus! {

/// The character of a digit.
pub open spec fn digit(value: nat) -> char {
    ('0' as int + value) as char
}

/// A number written in decimal digits.
pub open spec fn decimal(number: nat) -> Seq<char>
    decreases number,
{
    if number < 10 {
        seq![digit(number)]
    } else {
        decimal(number / 10).push(digit(number % 10))
    }
}

/// The character of a digit.
fn digit_char(value: usize) -> (c: char)
    requires
        value < 10,
    ensures
        c == digit(value as nat),
{
    match value {
        0 => '0',
        1 => '1',
        2 => '2',
        3 => '3',
        4 => '4',
        5 => '5',
        6 => '6',
        7 => '7',
        8 => '8',
        _ => '9',
    }
}

/// Appends a number in decimal digits.
pub fn push_decimal(string: &mut String, number: usize)
    ensures
        final(string)@ == old(string)@ + decimal(number as nat),
    decreases number,
{
    if number >= 10 {
        push_decimal(string, number / 10);
    }
    string.push(digit_char(number % 10));
    assert(string@ =~= old(string)@ + decimal(number as nat));
}

/// The characters of a string.
pub fn chars_of(string: &str) -> (chars: Vec<char>)
    ensures
        chars@ == string@,
{
    let mut chars: Vec<char> = Vec::new();
    for c in all: string.chars()
        invariant
            all.seq() == string@,
            chars@ == string@.take(all.index() as int),
    {
        chars.push(c);
        assert(chars@ =~= string@.take(all.index() + 1));
    }
    assert(chars@ =~= string@);
    chars
}

/// Appends characters.
pub fn push_chars(string: &mut String, more: &str)
    ensures
        final(string)@ == old(string)@ + more@,
{
    let ghost before = string@;
    assert(before =~= before + more@.take(0));
    for c in all: more.chars()
        invariant
            all.seq() == more@,
            string@ == before + more@.take(all.index() as int),
    {
        string.push(c);
        assert(string@ =~= before + more@.take(all.index() + 1));
    }
    assert(more@.take(more@.len() as int) =~= more@);
}

/// One string followed by another.
pub fn joined(first: &str, second: &str) -> (string: String)
    ensures
        string@ == first@ + second@,
{
    let mut string = first.to_owned();
    push_chars(&mut string, second);
    string
}

/// The number that decimal digits stand for.
pub open spec fn number_of(digits: Seq<char>) -> int
    decreases digits.len(),
{
    if digits.len() == 0 {
        0
    } else {
        10 * number_of(digits.drop_last()) + (digits.last() as int - '0' as int)
    }
}

/// A number written in decimal digits is that number, with no zero in front.
pub proof fn law_decimal(number: nat)
    ensures
        number_of(decimal(number)) == number,
        decimal(number).len() > 0,
        decimal(number).len() > 1 ==> decimal(number)[0] != '0',
        forall|i: int|
            0 <= i < decimal(number).len() ==> '0' as int <= #[trigger] decimal(number)[i] as int
                <= '9' as int,
    decreases number,
{
    if number < 10 {
        assert(decimal(number).drop_last() =~= Seq::<char>::empty());
        assert(number_of(decimal(number).drop_last()) == 0);
    } else {
        let more = number / 10;
        law_decimal(more);
        assert(decimal(number).drop_last() =~= decimal(more));
        if decimal(more).len() == 1 {
            assert(decimal(more).drop_last() =~= Seq::<char>::empty());
            assert(number_of(decimal(more).drop_last()) == 0);
        }
    }
}

} // verus!

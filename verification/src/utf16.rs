//! UTF-16: characters as code units, and code units as characters.

use vstd::prelude::*;

verus! {

/// The character that stands for a code unit that is no part of a character.
pub const REPLACEMENT: char = '\u{FFFD}';

/// Whether a code unit is the first of a pair.
pub open spec fn is_high_surrogate(unit: u16) -> bool {
    0xD800 <= unit < 0xDC00
}

/// Whether a code unit is the second of a pair.
pub open spec fn is_low_surrogate(unit: u16) -> bool {
    0xDC00 <= unit < 0xE000
}

/// The code units of a character: one, or a pair for a character past `U+FFFF`.
pub open spec fn char_units(c: char) -> Seq<u16> {
    let code = c as int;
    if code < 0x10000 {
        seq![code as u16]
    } else {
        seq![
            (0xD800 + (code - 0x10000) / 0x400) as u16,
            (0xDC00 + (code - 0x10000) % 0x400) as u16,
        ]
    }
}

/// The code units of a sequence of characters.
pub open spec fn units_of(chars: Seq<char>) -> Seq<u16>
    decreases chars.len(),
{
    if chars.len() == 0 {
        Seq::<u16>::empty()
    } else {
        units_of(chars.drop_last()) + char_units(chars.last())
    }
}

/// The characters that code units spell, in order. A surrogate outside of a
/// pair spells none.
pub open spec fn spelled(units: Seq<u16>) -> Seq<Option<char>>
    decreases units.len(),
{
    if units.len() == 0 {
        Seq::<Option<char>>::empty()
    } else if !is_high_surrogate(units[0]) && !is_low_surrogate(units[0]) {
        seq![Some(units[0] as char)] + spelled(units.skip(1))
    } else if is_high_surrogate(units[0]) && units.len() > 1 && is_low_surrogate(units[1]) {
        seq![
            Some((0x10000 + (units[0] - 0xD800) * 0x400 + (units[1] - 0xDC00)) as char),
        ] + spelled(units.skip(2))
    } else {
        seq![None] + spelled(units.skip(1))
    }
}

/// The characters that code units spell, with the replacement character for
/// each surrogate outside of a pair.
pub open spec fn lossy(units: Seq<u16>) -> Seq<char> {
    spelled(units).map_values(|c: Option<char>| if c is Some { c->0 } else { REPLACEMENT })
}

/// `char::from_u32`: the character with a given code, which every number below
/// `0x110000` is that is no surrogate.
pub assume_specification[ char::from_u32 ](code: u32) -> (c: Option<char>)
    ensures
        match c {
            Some(c) => c as int == code && code < 0x110000 && !(0xD800 <= code < 0xE000),
            None => code >= 0x110000 || 0xD800 <= code < 0xE000,
        },
;

/// `String::push` appends one character.
pub assume_specification[ String::push ](string: &mut String, c: char)
    ensures
        final(string)@ == old(string)@.push(c),
;

/// Appends the code units of a character.
fn push_char(units: &mut Vec<u16>, c: char)
    ensures
        final(units)@ == old(units)@ + char_units(c),
{
    let code: u32 = c as u32;
    if code < 0x10000 {
        units.push(code as u16);
    } else {
        let rest: u32 = code - 0x10000;
        units.push((0xD800 + rest / 0x400) as u16);
        units.push((0xDC00 + rest % 0x400) as u16);
    }
    assert(units@ =~= old(units)@ + char_units(c));
}

/// The code units of a string.
pub fn encode(string: &str) -> (units: Vec<u16>)
    ensures
        units@ == units_of(string@),
{
    let mut units: Vec<u16> = Vec::new();
    assert(string@.take(0) =~= Seq::<char>::empty());
    for c in chars: string.chars()
        invariant
            chars.seq() == string@,
            units@ == units_of(string@.take(chars.index() as int)),
    {
        let ghost done = chars.index() as int;
        push_char(&mut units, c);
        proof {
            assert(string@.take(done + 1).drop_last() =~= string@.take(done));
            assert(units@ =~= units_of(string@.take(done)) + char_units(c));
        }
    }
    assert(string@.take(string@.len() as int) =~= string@);
    units
}

/// The characters that code units spell.
pub fn decode(units: &Vec<u16>) -> (chars: Vec<Option<char>>)
    ensures
        chars@ == spelled(units@),
{
    let mut chars: Vec<Option<char>> = Vec::new();
    let mut i: usize = 0;
    assert(units@.skip(0) =~= units@);
    while i < units.len()
        invariant
            i <= units.len(),
            chars@ + spelled(units@.skip(i as int)) == spelled(units@),
        decreases units.len() - i,
    {
        let unit: u16 = units[i];
        let ghost rest = units@.skip(i as int);
        let ghost before = chars@;
        proof {
            assert(rest.skip(1) =~= units@.skip(i + 1));
        }
        if unit < 0xD800 || unit >= 0xE000 {
            chars.push(char::from_u32(unit as u32));
            assert(chars@ + spelled(rest.skip(1)) =~= before + spelled(rest));
            i += 1;
        } else if unit < 0xDC00 && i + 1 < units.len() && 0xDC00 <= units[i + 1] && units[i + 1] < 0xE000 {
            let high: u32 = unit as u32 - 0xD800;
            let low: u32 = units[i + 1] as u32 - 0xDC00;
            chars.push(char::from_u32(0x10000 + high * 0x400 + low));
            assert(rest.skip(2) =~= units@.skip(i + 2));
            assert(chars@ + spelled(rest.skip(2)) =~= before + spelled(rest));
            i += 2;
        } else {
            chars.push(None);
            assert(chars@ + spelled(rest.skip(1)) =~= before + spelled(rest));
            i += 1;
        }
    }
    assert(units@.skip(i as int) =~= Seq::<u16>::empty());
    assert(chars@ =~= spelled(units@));
    chars
}

/// The string that code units spell, with the replacement character for each
/// surrogate outside of a pair.
pub fn decode_lossy(units: &Vec<u16>) -> (string: String)
    ensures
        string@ == lossy(units@),
{
    let chars = decode(units);
    let mut string = String::new();
    let mut i: usize = 0;
    while i < chars.len()
        invariant
            i <= chars.len(),
            chars@ == spelled(units@),
            string@ == lossy(units@).take(i as int),
        decreases chars.len() - i,
    {
        match chars[i] {
            Some(c) => string.push(c),
            None => string.push(REPLACEMENT),
        }
        i += 1;
        assert(string@ =~= lossy(units@).take(i as int));
    }
    assert(string@ =~= lossy(units@));
    string
}

/// Code units of characters in two parts are the code units of each part.
pub proof fn lemma_units_of_parts(first: Seq<char>, second: Seq<char>)
    ensures
        units_of(first + second) == units_of(first) + units_of(second),
    decreases second.len(),
{
    if second.len() == 0 {
        assert(first + second =~= first);
        assert(units_of(first) + units_of(second) =~= units_of(first));
    } else {
        assert((first + second).drop_last() =~= first + second.drop_last());
        lemma_units_of_parts(first, second.drop_last());
        assert(units_of(first + second) =~= units_of(first) + units_of(second));
    }
}

/// The code units of a character spell that character, whatever follows.
proof fn lemma_char_is_spelled(c: char, rest: Seq<u16>)
    ensures
        spelled(char_units(c) + rest) == seq![Some(c)] + spelled(rest),
{
    let units = char_units(c) + rest;
    let code = c as int;
    if code < 0x10000 {
        assert(units.skip(1) =~= rest);
        assert(units[0] == code);
        assert(units[0] as char == c);
    } else {
        assert(units.skip(2) =~= rest);
        let high = (code - 0x10000) / 0x400;
        let low = (code - 0x10000) % 0x400;
        assert(0 <= high < 0x400 && 0 <= low < 0x400);
        assert(units[0] == 0xD800 + high && units[1] == 0xDC00 + low);
        assert(0x10000 + (units[0] - 0xD800) * 0x400 + (units[1] - 0xDC00) == code);
    }
}

/// The code units of characters spell just these characters.
pub proof fn law_encoded_is_spelled(chars: Seq<char>)
    ensures
        spelled(units_of(chars)) == chars.map_values(|c: char| Some(c)),
        lossy(units_of(chars)) == chars,
    decreases chars.len(),
{
    if chars.len() > 0 {
        let first = seq![chars[0]];
        let rest = chars.skip(1);
        assert(chars =~= first + rest);
        lemma_units_of_parts(first, rest);
        assert(first.drop_last() =~= Seq::<char>::empty());
        assert(units_of(first.drop_last()) == Seq::<u16>::empty());
        assert(units_of(first) =~= char_units(chars[0]));
        lemma_char_is_spelled(chars[0], units_of(rest));
        law_encoded_is_spelled(rest);
        assert(spelled(units_of(chars)) =~= chars.map_values(|c: char| Some(c)));
    } else {
        assert(spelled(units_of(chars)) =~= chars.map_values(|c: char| Some(c)));
    }
    assert(lossy(units_of(chars)) =~= chars);
}

/// A character up to `U+FFFF` is one code unit with its code; any other is a high and a
/// low surrogate, each of which holds ten bits of what its code is past that.
pub proof fn law_code_units(c: char)
    ensures
        (c as int) < 0x10000 ==> units_of(seq![c]).len() == 1 && units_of(seq![c])[0] == c as int,
        (c as int) >= 0x10000 ==> {
            let units = units_of(seq![c]);
            &&& units.len() == 2
            &&& 0xD800 <= units[0] < 0xDC00
            &&& 0xDC00 <= units[1] < 0xE000
            &&& c as int == 0x10000 + (units[0] - 0xD800) * 0x400 + (units[1] - 0xDC00)
        },
{
    assert(seq![c].drop_last() =~= Seq::<char>::empty());
    assert(units_of(seq![c].drop_last()) == Seq::<u16>::empty());
    assert(seq![c].last() == c);
    assert(units_of(seq![c]) =~= char_units(c));
}

/// Code units in two parts spell what each part does, unless a pair is torn apart.
pub proof fn law_spelled_in_parts(first: Seq<u16>, second: Seq<u16>)
    requires
        first.len() > 0 && second.len() > 0 ==> !(0xD800 <= first.last() < 0xDC00) || !(0xDC00
            <= second[0] < 0xE000),
    ensures
        spelled(first + second) == spelled(first) + spelled(second),
    decreases first.len(),
{
    let both = first + second;
    if first.len() == 0 {
        assert(both =~= second);
        assert(spelled(first) + spelled(second) =~= spelled(second));
    } else {
        assert(both[0] == first[0]);
        assert(both.skip(1) =~= first.skip(1) + second);
        if first.len() > 1 {
            assert(both[1] == first[1]);
            assert(both.skip(2) =~= first.skip(2) + second);
            law_spelled_in_parts(first.skip(1), second);
            law_spelled_in_parts(first.skip(2), second);
        } else {
            assert(first.skip(1) =~= Seq::<u16>::empty());
            law_spelled_in_parts(first.skip(1), second);
            if second.len() > 0 {
                assert(both[1] == second[0]);
            }
        }
        assert(spelled(both) =~= spelled(first) + spelled(second));
    }
}

/// A surrogate that stands alone is shown as the replacement character.
pub proof fn law_lone_surrogate(unit: u16)
    requires
        0xD800 <= unit < 0xE000,
    ensures
        spelled(seq![unit]) == seq![None::<char>],
        lossy(seq![unit]) == seq!['\u{FFFD}'],
{
    assert(seq![unit].skip(1) =~= Seq::<u16>::empty());
    assert(spelled(seq![unit].skip(1)) == Seq::<Option<char>>::empty());
    assert(spelled(seq![unit]) =~= seq![None::<char>]);
    assert(lossy(seq![unit]) =~= seq!['\u{FFFD}']);
}

/// What ends a row is the code unit of a line feed.
pub proof fn law_newline()
    ensures
        units_of(seq!['\n']) == seq![crate::text::NEWLINE],
{
    law_code_units('\n');
    assert(units_of(seq!['\n']) =~= seq![crate::text::NEWLINE]);
}

} // verus!

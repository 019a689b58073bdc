use vstd::prelude::*;

use crate::error::Error;

verus! {

/// One Roman digit.
#[derive(Clone, Copy, Debug, PartialEq, Eq, Structural)]
pub enum Digit {
    I,
    V,
    X,
    L,
    C,
    D,
    M,
}

/// The magnitude of a digit.
pub open spec fn digit_value(d: Digit) -> nat {
    match d {
        Digit::I => 1,
        Digit::V => 5,
        Digit::X => 10,
        Digit::L => 50,
        Digit::C => 100,
        Digit::D => 500,
        Digit::M => 1000,
    }
}

/// The digit named by an ASCII letter, in either case.
pub open spec fn letter_digit(c: char) -> Option<Digit> {
    match c {
        'I' | 'i' => Some(Digit::I),
        'V' | 'v' => Some(Digit::V),
        'X' | 'x' => Some(Digit::X),
        'L' | 'l' => Some(Digit::L),
        'C' | 'c' => Some(Digit::C),
        'D' | 'd' => Some(Digit::D),
        'M' | 'm' => Some(Digit::M),
        _ => None,
    }
}

/// The digits that a character stands for: an ASCII letter stands for its
/// digit, a glyph of the Unicode Number Forms block (U+2160..U+217F, upper
/// and lower case) for the digits of the numeral it depicts.
pub open spec fn glyph(c: char) -> Option<Seq<Digit>> {
    match c {
        'Ⅰ' | 'ⅰ' | 'I' | 'i' => Some(seq![Digit::I]),
        'Ⅱ' | 'ⅱ' => Some(seq![Digit::I, Digit::I]),
        'Ⅲ' | 'ⅲ' => Some(seq![Digit::I, Digit::I, Digit::I]),
        'Ⅳ' | 'ⅳ' => Some(seq![Digit::I, Digit::V]),
        'Ⅴ' | 'ⅴ' | 'V' | 'v' => Some(seq![Digit::V]),
        'Ⅵ' | 'ⅵ' => Some(seq![Digit::V, Digit::I]),
        'Ⅶ' | 'ⅶ' => Some(seq![Digit::V, Digit::I, Digit::I]),
        'Ⅷ' | 'ⅷ' => Some(seq![Digit::V, Digit::I, Digit::I, Digit::I]),
        'Ⅸ' | 'ⅸ' => Some(seq![Digit::I, Digit::X]),
        'Ⅹ' | 'ⅹ' | 'X' | 'x' => Some(seq![Digit::X]),
        'Ⅺ' | 'ⅺ' => Some(seq![Digit::X, Digit::I]),
        'Ⅻ' | 'ⅻ' => Some(seq![Digit::X, Digit::I, Digit::I]),
        'Ⅼ' | 'ⅼ' | 'L' | 'l' => Some(seq![Digit::L]),
        'Ⅽ' | 'ⅽ' | 'C' | 'c' => Some(seq![Digit::C]),
        'Ⅾ' | 'ⅾ' | 'D' | 'd' => Some(seq![Digit::D]),
        'Ⅿ' | 'ⅿ' | 'M' | 'm' => Some(seq![Digit::M]),
        _ => None,
    }
}

/// The upper-case letter of a digit.
pub open spec fn upper_char(d: Digit) -> char {
    match d {
        Digit::I => 'I',
        Digit::V => 'V',
        Digit::X => 'X',
        Digit::L => 'L',
        Digit::C => 'C',
        Digit::D => 'D',
        Digit::M => 'M',
    }
}

/// The lower-case letter of a digit.
pub open spec fn lower_char(d: Digit) -> char {
    match d {
        Digit::I => 'i',
        Digit::V => 'v',
        Digit::X => 'x',
        Digit::L => 'l',
        Digit::C => 'c',
        Digit::D => 'd',
        Digit::M => 'm',
    }
}

/// Case does not matter: both letters of a digit name it, as a character
/// and as a byte.
pub proof fn lemma_case_insensitive(d: Digit)
    ensures
        letter_digit(upper_char(d)) == Some(d),
        letter_digit(lower_char(d)) == Some(d),
        glyph(upper_char(d)) == Some(seq![d]),
        glyph(lower_char(d)) == Some(seq![d]),
{
}

/// Wherever the letter mapping names a digit, the character mapping gives
/// that digit alone.
pub proof fn lemma_letter_glyph(c: char)
    ensures
        letter_digit(c) matches Some(d) ==> glyph(c) == Some(seq![d]),
{
}

impl Digit {
    /// The numeric value of this digit.
    pub fn value(&self) -> (r: u32)
        ensures
            r == digit_value(*self),
    {
        match self {
            Digit::I => 1,
            Digit::V => 5,
            Digit::X => 10,
            Digit::L => 50,
            Digit::C => 100,
            Digit::D => 500,
            Digit::M => 1000,
        }
    }
    /// The digits that a single character stands for (see `glyph`); any
    /// other character is rejected.
    pub fn from_char(c: char) -> (r: Result<Vec<Digit>, Error>)
        ensures
            glyph(c) matches Some(ds) ==> (r matches Ok(v) && v@ == ds),
            glyph(c) is None ==> r == Err::<Vec<Digit>, Error>(Error::InvalidDigit(c)),
    {
        let result = match c {
            'Ⅰ' | 'ⅰ' | 'I' | 'i' => vec![Digit::I],
            'Ⅱ' | 'ⅱ' => vec![Digit::I, Digit::I],
            'Ⅲ' | 'ⅲ' => vec![Digit::I, Digit::I, Digit::I],
            'Ⅳ' | 'ⅳ' => vec![Digit::I, Digit::V],
            'Ⅴ' | 'ⅴ' | 'V' | 'v' => vec![Digit::V],
            'Ⅵ' | 'ⅵ' => vec![Digit::V, Digit::I],
            'Ⅶ' | 'ⅶ' => vec![Digit::V, Digit::I, Digit::I],
            'Ⅷ' | 'ⅷ' => vec![Digit::V, Digit::I, Digit::I, Digit::I],
            'Ⅸ' | 'ⅸ' => vec![Digit::I, Digit::X],
            'Ⅹ' | 'ⅹ' | 'X' | 'x' => vec![Digit::X],
            'Ⅺ' | 'ⅺ' => vec![Digit::X, Digit::I],
            'Ⅻ' | 'ⅻ' => vec![Digit::X, Digit::I, Digit::I],
            'Ⅼ' | 'ⅼ' | 'L' | 'l' => vec![Digit::L],
            'Ⅽ' | 'ⅽ' | 'C' | 'c' => vec![Digit::C],
            'Ⅾ' | 'ⅾ' | 'D' | 'd' => vec![Digit::D],
            'Ⅿ' | 'ⅿ' | 'M' | 'm' => vec![Digit::M],
            _ => return Err(Error::InvalidDigit(c)),
        };
        assert(glyph(c) == Some(result@));
        Ok(result)
    }

    /// The digit named by an ASCII letter byte, in either case; any other
    /// byte is rejected.
    pub fn from_byte(b: u8) -> (r: Result<Digit, Error>)
        ensures
            letter_digit(b as char) matches Some(d) ==> r == Ok::<Digit, Error>(d),
            letter_digit(b as char) is None ==> r == Err::<Digit, Error>(
                Error::InvalidDigit(b as char),
            ),
    {
        let c = b as char;
        match c {
            'I' | 'i' => Ok(Digit::I),
            'V' | 'v' => Ok(Digit::V),
            'X' | 'x' => Ok(Digit::X),
            'L' | 'l' => Ok(Digit::L),
            'C' | 'c' => Ok(Digit::C),
            'D' | 'd' => Ok(Digit::D),
            'M' | 'm' => Ok(Digit::M),
            _ => Err(Error::InvalidDigit(c)),
        }
    }

    /// The lower-case letter of this digit.
    pub fn to_lowercase(self) -> (r: char)
        ensures
            r == lower_char(self),
    {
        match self {
            Digit::I => 'i',
            Digit::V => 'v',
            Digit::X => 'x',
            Digit::L => 'l',
            Digit::C => 'c',
            Digit::D => 'd',
            Digit::M => 'm',
        }
    }

    /// The upper-case letter of this digit.
    pub fn to_uppercase(self) -> (r: char)
        ensures
            r == upper_char(self),
    {
        match self {
            Digit::I => 'I',
            Digit::V => 'V',
            Digit::X => 'X',
            Digit::L => 'L',
            Digit::C => 'C',
            Digit::D => 'D',
            Digit::M => 'M',
        }
    }
}


impl From<Digit> for u32 {
    /// The numeric value of the digit.
    fn from(d: Digit) -> (r: u32) {
        d.value()
    }
}

impl vstd::std_specs::convert::FromSpecImpl<Digit> for u32 {
    open spec fn obeys_from_spec() -> bool {
        true
    }

    open spec fn from_spec(d: Digit) -> u32 {
        digit_value(d) as u32
    }
}

impl<'a> From<&'a Digit> for char {
    /// The upper-case letter of the digit.
    fn from(d: &'a Digit) -> (r: char) {
        d.to_uppercase()
    }
}

impl<'a> vstd::std_specs::convert::FromSpecImpl<&'a Digit> for char {
    open spec fn obeys_from_spec() -> bool {
        true
    }

    open spec fn from_spec(d: &'a Digit) -> char {
        upper_char(*d)
    }
}

} // verus!

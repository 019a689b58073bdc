use septem::{Digit, Error};

const ALL: [Digit; 7] = [Digit::I, Digit::V, Digit::X, Digit::L, Digit::C, Digit::D, Digit::M];

#[test]
fn glyph_ascii_lowercase() {
    assert_eq!(Digit::from_char('v').unwrap(), vec![Digit::V]);
}

#[test]
fn glyph_ascii_uppercase() {
    assert_eq!(Digit::from_char('X').unwrap(), vec![Digit::X]);
}

#[test]
fn glyph_case_insensitive() {
    for (upper, lower, d) in [
        ('I', 'i', Digit::I),
        ('V', 'v', Digit::V),
        ('X', 'x', Digit::X),
        ('L', 'l', Digit::L),
        ('C', 'c', Digit::C),
        ('D', 'd', Digit::D),
        ('M', 'm', Digit::M),
    ] {
        assert_eq!(Digit::from_char(upper).unwrap(), vec![d]);
        assert_eq!(Digit::from_char(lower).unwrap(), vec![d]);
        assert_eq!(Digit::from_byte(upper as u8).unwrap(), d);
        assert_eq!(Digit::from_byte(lower as u8).unwrap(), d);
    }
}

#[test]
fn glyph_unicode_uppercase_eight() {
    assert_eq!(
        Digit::from_char('Ⅷ').unwrap(),
        vec![Digit::V, Digit::I, Digit::I, Digit::I]
    );
}

#[test]
fn glyph_unicode_lowercase_four() {
    assert_eq!(Digit::from_char('ⅳ').unwrap(), vec![Digit::I, Digit::V]);
}

#[test]
fn glyph_composite_forms() {
    assert_eq!(Digit::from_char('Ⅳ').unwrap(), vec![Digit::I, Digit::V]);
    assert_eq!(Digit::from_char('Ⅸ').unwrap(), vec![Digit::I, Digit::X]);
    assert_eq!(Digit::from_char('ⅸ').unwrap(), vec![Digit::I, Digit::X]);
    assert_eq!(Digit::from_char('ⅷ').unwrap(), vec![Digit::V, Digit::I, Digit::I, Digit::I]);
    assert_eq!(Digit::from_char('Ⅻ').unwrap(), vec![Digit::X, Digit::I, Digit::I]);
    assert_eq!(Digit::from_char('ⅻ').unwrap(), vec![Digit::X, Digit::I, Digit::I]);
}

#[test]
fn glyph_forms_match_encoding() {
    let values = [1u32, 2, 3, 4, 5, 6, 7, 8, 9, 10, 11, 12, 50, 100, 500, 1000];
    for (i, n) in values.iter().enumerate() {
        let upper = char::from_u32(0x2160 + i as u32).unwrap();
        let lower = char::from_u32(0x2170 + i as u32).unwrap();
        let expected = Digit::from_int(*n).unwrap();
        assert_eq!(Digit::from_char(upper).unwrap(), expected);
        assert_eq!(Digit::from_char(lower).unwrap(), expected);
    }
}

#[test]
fn glyph_invalid_char() {
    assert_eq!(Digit::from_char('A'), Err(Error::InvalidDigit('A')));
    assert_eq!(Digit::from_char('0'), Err(Error::InvalidDigit('0')));
    assert_eq!(Digit::from_char('\u{2180}'), Err(Error::InvalidDigit('\u{2180}')));
}

#[test]
fn byte_lowercase_v() {
    assert_eq!(Digit::from_byte(b'v').unwrap(), Digit::V);
}

#[test]
fn byte_invalid() {
    assert_eq!(Digit::from_byte(b'z'), Err(Error::InvalidDigit('z')));
    assert_eq!(Digit::from_byte(0xFF), Err(Error::InvalidDigit('\u{FF}')));
}

#[test]
fn digit_values() {
    let v: u32 = Digit::V.value();
    let x: u64 = Digit::X.value().into();
    let f: f64 = Digit::L.value().into();
    assert_eq!(v, 5);
    assert_eq!(x, 10);
    assert_eq!(f, 50.0);
    let all: Vec<u32> = ALL.iter().map(|d| d.value()).collect();
    assert_eq!(all, vec![1, 5, 10, 50, 100, 500, 1000]);
}

#[test]
fn letters_of_digits() {
    let upper: String = ALL.iter().map(|d| d.to_uppercase()).collect();
    let lower: String = ALL.iter().map(|d| d.to_lowercase()).collect();
    assert_eq!(upper, "IVXLCDM");
    assert_eq!(lower, "ivxlcdm");
}

#[test]
fn letters_map_back_to_digits() {
    for d in ALL {
        assert_eq!(Digit::from_char(d.to_uppercase()).unwrap(), vec![d]);
        assert_eq!(Digit::from_char(d.to_lowercase()).unwrap(), vec![d]);
    }
}

#[test]
fn conversions_through_from() {
    assert_eq!(u32::from(Digit::M), 1000);
    assert_eq!(u32::from(Digit::I), 1);
    assert_eq!(char::from(&Digit::D), 'D');
}

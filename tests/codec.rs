use septem::{Digit, Error};

fn has_run_of_four(ds: &[Digit]) -> bool {
    ds.windows(4).any(|w| w[0] == w[1] && w[1] == w[2] && w[2] == w[3])
}

#[test]
fn encode_three() {
    assert_eq!(Digit::from_int(3).unwrap(), vec![Digit::I, Digit::I, Digit::I]);
}

#[test]
fn encode_eight() {
    assert_eq!(
        Digit::from_int(8).unwrap(),
        vec![Digit::V, Digit::I, Digit::I, Digit::I]
    );
}

#[test]
fn encode_nine() {
    assert_eq!(Digit::from_int(9).unwrap(), vec![Digit::I, Digit::X]);
}

#[test]
fn encode_nineteen_ninety_four() {
    assert_eq!(
        Digit::from_int(1994).unwrap(),
        vec![Digit::M, Digit::C, Digit::M, Digit::X, Digit::C, Digit::I, Digit::V]
    );
}

#[test]
fn encode_largest_canonical() {
    assert_eq!(
        Digit::from_int(3999).unwrap(),
        vec![
            Digit::M, Digit::M, Digit::M, Digit::C, Digit::M, Digit::X, Digit::C, Digit::I,
            Digit::X
        ]
    );
}

#[test]
fn encode_beyond_canonical_repeats_m() {
    assert_eq!(
        Digit::from_int(4000).unwrap(),
        vec![Digit::M, Digit::M, Digit::M, Digit::M]
    );
    assert_eq!(
        Digit::from_int(5001).unwrap(),
        vec![Digit::M, Digit::M, Digit::M, Digit::M, Digit::M, Digit::I]
    );
}

#[test]
fn encode_zero_is_invalid() {
    assert_eq!(Digit::from_int(0), Err(Error::InvalidNumber(0)));
}

#[test]
fn decode_fourteen() {
    assert_eq!(Digit::value_of(&[Digit::X, Digit::I, Digit::V]), 14);
}

#[test]
fn decode_twelve() {
    assert_eq!(Digit::value_of(&[Digit::X, Digit::I, Digit::I]), 12);
}

#[test]
fn decode_nine() {
    assert_eq!(Digit::value_of(&[Digit::I, Digit::X]), 9);
}

#[test]
fn decode_empty_is_zero() {
    assert_eq!(Digit::value_of(&[]), 0);
}

#[test]
fn decode_non_canonical_sequences() {
    assert_eq!(Digit::value_of(&[Digit::I, Digit::I, Digit::I, Digit::I]), 4);
    assert_eq!(Digit::value_of(&[Digit::I, Digit::M]), 999);
    assert_eq!(Digit::value_of(&[Digit::V, Digit::X]), 5);
    assert_eq!(Digit::value_of(&[Digit::I, Digit::V, Digit::X]), 14);
    assert_eq!(Digit::value_of(&[Digit::X, Digit::V, Digit::I, Digit::I, Digit::I]), 18);
}

#[test]
fn round_trip_canonical_range() {
    for n in 1..=3999u32 {
        let ds = Digit::from_int(n).unwrap();
        assert_eq!(Digit::value_of(&ds), n as u64, "n = {}", n);
    }
}

#[test]
fn round_trip_large_numbers() {
    for n in [4000u32, 12345, 999_999, 4_000_000] {
        let ds = Digit::from_int(n).unwrap();
        assert_eq!(Digit::value_of(&ds), n as u64);
    }
}

#[test]
fn round_trip_largest_input() {
    let ds = Digit::from_int(u32::MAX).unwrap();
    assert_eq!(Digit::value_of(&ds), u32::MAX as u64);
}

#[test]
fn no_run_of_four_up_to_3999() {
    for n in 1..=3999u32 {
        let ds = Digit::from_int(n).unwrap();
        assert!(!has_run_of_four(&ds), "n = {}", n);
    }
}

#[test]
fn run_of_four_from_4000() {
    assert!(has_run_of_four(&Digit::from_int(4000).unwrap()));
}

#[test]
fn canonical_length_of_3888() {
    assert_eq!(Digit::from_int(3888).unwrap().len(), 15);
}

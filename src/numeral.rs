use vstd::arithmetic::div_mod::lemma_fundamental_div_mod;
use vstd::prelude::*;

use crate::digit::{digit_value, glyph, Digit};
use crate::error::Error;

verus! {

/// Number of rows in the greedy encoding table.
pub const TABLE_ROWS: usize = 13;

/// The value of row `k` of the encoding table, largest first.
pub open spec fn row_value(k: nat) -> nat {
    if k == 0 { 1000 }
    else if k == 1 { 900 }
    else if k == 2 { 500 }
    else if k == 3 { 400 }
    else if k == 4 { 100 }
    else if k == 5 { 90 }
    else if k == 6 { 50 }
    else if k == 7 { 40 }
    else if k == 8 { 10 }
    else if k == 9 { 9 }
    else if k == 10 { 5 }
    else if k == 11 { 4 }
    else { 1 }
}

/// The digits written for row `k` of the encoding table.
pub open spec fn row_digits(k: nat) -> Seq<Digit> {
    if k == 0 { seq![Digit::M] }
    else if k == 1 { seq![Digit::C, Digit::M] }
    else if k == 2 { seq![Digit::D] }
    else if k == 3 { seq![Digit::C, Digit::D] }
    else if k == 4 { seq![Digit::C] }
    else if k == 5 { seq![Digit::X, Digit::C] }
    else if k == 6 { seq![Digit::L] }
    else if k == 7 { seq![Digit::X, Digit::L] }
    else if k == 8 { seq![Digit::X] }
    else if k == 9 { seq![Digit::I, Digit::X] }
    else if k == 10 { seq![Digit::V] }
    else if k == 11 { seq![Digit::I, Digit::V] }
    else { seq![Digit::I] }
}

/// Greedy encoding of `n` using the table rows from `k` on: write the row's
/// digits as long as its value fits in what remains, then move to the next row.
pub open spec fn encode_from(n: nat, k: nat) -> Seq<Digit>
    decreases TABLE_ROWS - k, n,
{
    if k >= TABLE_ROWS || n == 0 {
        seq![]
    } else if n >= row_value(k) {
        row_digits(k) + encode_from((n - row_value(k)) as nat, k)
    } else {
        encode_from(n, k + 1)
    }
}

/// The canonical Roman digits of `n`.
pub open spec fn encode(n: nat) -> Seq<Digit> {
    encode_from(n, 0)
}

/// The value of a digit sequence, read left to right: a digit followed by a
/// larger one counts as their difference and both are consumed; any other
/// digit counts as its own value.
pub open spec fn decode(s: Seq<Digit>) -> nat
    decreases s.len(),
{
    if s.len() == 0 {
        0
    } else if s.len() >= 2 && digit_value(s[0]) < digit_value(s[1]) {
        (digit_value(s[1]) - digit_value(s[0])) as nat + decode(s.subrange(2, s.len() as int))
    } else {
        digit_value(s[0]) + decode(s.subrange(1, s.len() as int))
    }
}

/// The first digit that the greedy encoding writes from row `k` on is worth
/// at most that row's value.
proof fn lemma_first_digit_bounded(n: nat, k: nat)
    requires
        k < TABLE_ROWS,
        encode_from(n, k).len() > 0,
    ensures
        digit_value(encode_from(n, k)[0]) <= row_value(k),
    decreases TABLE_ROWS - k, n,
{
    if n >= row_value(k) {
        assert(encode_from(n, k)[0] == row_digits(k)[0]);
    } else {
        lemma_first_digit_bounded(n, k + 1);
    }
}

/// Decoding the greedy encoding from any row gives back the number encoded.
proof fn lemma_decode_encode_from(n: nat, k: nat)
    requires
        k < TABLE_ROWS,
    ensures
        decode(encode_from(n, k)) == n,
    decreases TABLE_ROWS - k, n,
{
    if n == 0 {
    } else if n >= row_value(k) {
        let rest = encode_from((n - row_value(k)) as nat, k);
        let s = encode_from(n, k);
        lemma_decode_encode_from((n - row_value(k)) as nat, k);
        assert(s == row_digits(k) + rest);
        if row_digits(k).len() == 1 {
            if rest.len() > 0 {
                lemma_first_digit_bounded((n - row_value(k)) as nat, k);
                assert(s[1] == rest[0]);
            }
            assert(s.subrange(1, s.len() as int) =~= rest);
        } else {
            assert(s.subrange(2, s.len() as int) =~= rest);
        }
    } else {
        lemma_decode_encode_from(n, k + 1);
    }
}

/// Round trip: decoding the canonical digits of a number gives the number back.
pub proof fn lemma_round_trip(n: nat)
    ensures
        decode(encode(n)) == n,
{
    lemma_decode_encode_from(n, 0);
}

/// `count` copies of one digit.
pub open spec fn repeat(d: Digit, count: nat) -> Seq<Digit> {
    Seq::new(count, |_i: int| d)
}

/// The digits of one decimal place `q` (0 to 9), written with the digits for
/// one, five and ten units of that place.
pub open spec fn decade(q: nat, one: Digit, five: Digit, ten: Digit) -> Seq<Digit> {
    if q == 9 {
        seq![one, ten]
    } else if q >= 5 {
        seq![five] + repeat(one, (q - 5) as nat)
    } else if q == 4 {
        seq![one, five]
    } else {
        repeat(one, q)
    }
}

/// No digit occurs four or more times in a row.
pub open spec fn no_run_of_four(s: Seq<Digit>) -> bool {
    forall|i: int|
        0 <= i && i + 3 < s.len() ==> !(#[trigger] s[i] == s[i + 1] && s[i + 1] == s[i + 2]
            && s[i + 2] == s[i + 3])
}

proof fn lemma_skip_row(n: nat, k: nat)
    requires
        k < TABLE_ROWS,
        n < row_value(k),
    ensures
        encode_from(n, k) == encode_from(n, k + 1),
{
    if n == 0 {
        assert(encode_from(n, k + 1) == Seq::<Digit>::empty());
    }
}

/// Writing `c` times a one-digit row of value `u`, then going on from the
/// next row with the remainder `r`.
proof fn lemma_repeat_row(c: nat, r: nat, u: nat, k: nat, one: Digit)
    requires
        k < TABLE_ROWS,
        row_value(k) == u,
        row_digits(k) == seq![one],
        r < u,
    ensures
        encode_from(c * u + r, k) == repeat(one, c) + encode_from(r, k + 1),
    decreases c,
{
    if c == 0 {
        assert(c * u == 0) by (nonlinear_arith)
            requires
                c == 0,
        ;
        lemma_skip_row(r, k);
        assert(repeat(one, c) + encode_from(r, k + 1) =~= encode_from(r, k + 1));
    } else {
        let m = c * u + r;
        assert(m >= u && m - u == (c - 1) as nat * u + r) by (nonlinear_arith)
            requires
                m == c * u + r,
                c > 0,
        ;
        lemma_repeat_row((c - 1) as nat, r, u, k, one);
        assert(encode_from(m, k) == seq![one] + encode_from((m - u) as nat, k));
        assert(seq![one] + (repeat(one, (c - 1) as nat) + encode_from(r, k + 1)) =~= repeat(
            one,
            c,
        ) + encode_from(r, k + 1));
    }
}

/// Below ten units of a decimal place, the greedy encoding from that place's
/// first row writes exactly the place's `decade`, then goes on below it.
proof fn lemma_decade_rows(n: nat, k: nat, u: nat, one: Digit, five: Digit, ten: Digit)
    requires
        k + 3 < TABLE_ROWS,
        u > 0,
        n < 10 * u,
        row_value(k) == 9 * u,
        row_value(k + 1) == 5 * u,
        row_value(k + 2) == 4 * u,
        row_value(k + 3) == u,
        row_digits(k) == seq![one, ten],
        row_digits(k + 1) == seq![five],
        row_digits(k + 2) == seq![one, five],
        row_digits(k + 3) == seq![one],
    ensures
        n / u < 10,
        encode_from(n, k) == decade(n / u, one, five, ten) + encode_from(n % u, k + 4),
{
    let q = n / u;
    let r = n % u;
    lemma_fundamental_div_mod(n as int, u as int);
    assert(q < 10) by (nonlinear_arith)
        requires
            n == u * q + r,
            r >= 0,
            n < 10 * u,
            u > 0,
    ;
    assert(q * u == u * q) by (nonlinear_arith);
    if q == 9 {
        assert(encode_from(n, k) == seq![one, ten] + encode_from(r, k));
        lemma_skip_row(r, k);
        lemma_skip_row(r, k + 1);
        lemma_skip_row(r, k + 2);
        lemma_skip_row(r, k + 3);
    } else if q >= 5 {
        let c = (q - 5) as nat;
        assert(n - 5 * u == c * u + r) by (nonlinear_arith)
            requires
                n == q * u + r,
                c == q - 5,
        ;
        assert(c * u + r < 4 * u) by (nonlinear_arith)
            requires
                c < 4,
                r < u,
        ;
        lemma_skip_row(n, k);
        assert(encode_from(n, k + 1) == seq![five] + encode_from((n - 5 * u) as nat, k + 1));
        lemma_skip_row(c * u + r, k + 1);
        lemma_skip_row(c * u + r, k + 2);
        lemma_repeat_row(c, r, u, k + 3, one);
        assert(seq![five] + (repeat(one, c) + encode_from(r, k + 4)) =~= (seq![five] + repeat(
            one,
            c,
        )) + encode_from(r, k + 4));
    } else if q == 4 {
        lemma_skip_row(n, k);
        lemma_skip_row(n, k + 1);
        assert(encode_from(n, k + 2) == seq![one, five] + encode_from(r, k + 2));
        lemma_skip_row(r, k + 2);
        lemma_skip_row(r, k + 3);
    } else {
        assert(n < 4 * u) by (nonlinear_arith)
            requires
                n == q * u + r,
                q < 4,
                r < u,
        ;
        lemma_skip_row(n, k);
        lemma_skip_row(n, k + 1);
        lemma_skip_row(n, k + 2);
        lemma_repeat_row(q, r, u, k + 3, one);
    }
}

/// The digits of one decimal place repeat none four times, use only the
/// place's three digits, and start with its one or its five.
proof fn lemma_decade_shape(q: nat, one: Digit, five: Digit, ten: Digit)
    requires
        q < 10,
        one != five,
    ensures
        no_run_of_four(decade(q, one, five, ten)),
        forall|i: int|
            0 <= i < decade(q, one, five, ten).len() ==> {
                let d = #[trigger] decade(q, one, five, ten)[i];
                d == one || d == five || d == ten
            },
        decade(q, one, five, ten).len() > 0 ==> decade(q, one, five, ten)[0] == one || decade(
            q,
            one,
            five,
            ten,
        )[0] == five,
{
    let s = decade(q, one, five, ten);
    if 5 <= q < 9 {
        assert(s.len() == q - 4);
        assert(s[0] == five);
        assert forall|i: int| 1 <= i < s.len() implies s[i] == one by {
            assert(s[i] == repeat(one, (q - 5) as nat)[i - 1]);
        }
    }
}

/// Two sequences without a run of four join into one without, when every
/// digit of the first is worth more than the first digit of the second.
proof fn lemma_join_no_run(a: Seq<Digit>, b: Seq<Digit>, lo: nat, lo_b: nat)
    requires
        no_run_of_four(a),
        no_run_of_four(b),
        lo_b <= lo,
        forall|i: int| 0 <= i < a.len() ==> digit_value(#[trigger] a[i]) >= lo,
        forall|i: int| 0 <= i < b.len() ==> digit_value(#[trigger] b[i]) >= lo_b,
        b.len() > 0 ==> digit_value(b[0]) < lo,
    ensures
        no_run_of_four(a + b),
        forall|i: int| 0 <= i < (a + b).len() ==> digit_value(#[trigger] (a + b)[i]) >= lo_b,
{
    let s = a + b;
    assert forall|i: int| 0 <= i && i + 3 < s.len() implies !(#[trigger] s[i] == s[i + 1] && s[i
        + 1] == s[i + 2] && s[i + 2] == s[i + 3]) by {
        if i + 3 < a.len() {
            assert(s[i] == a[i] && s[i + 1] == a[i + 1] && s[i + 2] == a[i + 2] && s[i + 3] == a[i
                + 3]);
        } else if i >= a.len() {
            let j = i - a.len();
            assert(s[i] == b[j] && s[i + 1] == b[j + 1] && s[i + 2] == b[j + 2] && s[i + 3] == b[j
                + 3]);
        } else {
            let e = a.len() - 1;
            assert(s[e] == a[e] && s[e + 1] == b[0]);
            assert(s[e] != s[e + 1]);
        }
    }
    assert forall|i: int| 0 <= i < s.len() implies digit_value(#[trigger] s[i]) >= lo_b by {
        if i < a.len() {
            assert(s[i] == a[i]);
        } else {
            assert(s[i] == b[i - a.len()]);
        }
    }
}

/// Up to 3999, the canonical digits never hold the same digit four or more
/// times in a row.
pub proof fn lemma_no_run_of_four(n: nat)
    requires
        n <= 3999,
    ensures
        no_run_of_four(encode(n)),
{
    let c = n / 1000;
    let r1 = n % 1000;
    lemma_fundamental_div_mod(n as int, 1000);
    assert(n == c * 1000 + r1);
    lemma_repeat_row(c, r1, 1000, 0, Digit::M);
    lemma_decade_rows(r1, 1, 100, Digit::C, Digit::D, Digit::M);
    let r2 = r1 % 100;
    lemma_decade_rows(r2, 5, 10, Digit::X, Digit::L, Digit::C);
    let r3 = r2 % 10;
    lemma_decade_rows(r3, 9, 1, Digit::I, Digit::V, Digit::X);
    let thousands = repeat(Digit::M, c);
    let hundreds = decade(r1 / 100, Digit::C, Digit::D, Digit::M);
    let tens = decade(r2 / 10, Digit::X, Digit::L, Digit::C);
    let ones = decade(r3 / 1, Digit::I, Digit::V, Digit::X);
    assert(encode_from(r3 % 1, 13) == Seq::<Digit>::empty());
    assert(encode(n) =~= thousands + hundreds + tens + ones);
    lemma_decade_shape(r1 / 100, Digit::C, Digit::D, Digit::M);
    lemma_decade_shape(r2 / 10, Digit::X, Digit::L, Digit::C);
    lemma_decade_shape(r3 / 1, Digit::I, Digit::V, Digit::X);
    lemma_join_no_run(thousands, hundreds, 1000, 100);
    lemma_join_no_run(thousands + hundreds, tens, 100, 10);
    lemma_join_no_run(thousands + hundreds + tens, ones, 10, 1);
}

/// The number that a glyph of the Unicode Number Forms block U+2160..U+217F
/// depicts: the twelve first of each case stand for 1 to 12, the four last
/// for 50, 100, 500 and 1000.
pub open spec fn form_value(c: char) -> nat {
    let i = ((c as u32 - 0x2160) % 16) as nat;
    if i < 12 {
        i + 1
    } else if i == 12 {
        50
    } else if i == 13 {
        100
    } else if i == 14 {
        500
    } else {
        1000
    }
}

/// The canonical digits of the numbers that the Number Forms glyphs depict.
proof fn lemma_form_encodings()
    ensures
        encode(1) == seq![Digit::I],
        encode(2) == seq![Digit::I, Digit::I],
        encode(3) == seq![Digit::I, Digit::I, Digit::I],
        encode(4) == seq![Digit::I, Digit::V],
        encode(5) == seq![Digit::V],
        encode(6) == seq![Digit::V, Digit::I],
        encode(7) == seq![Digit::V, Digit::I, Digit::I],
        encode(8) == seq![Digit::V, Digit::I, Digit::I, Digit::I],
        encode(9) == seq![Digit::I, Digit::X],
        encode(10) == seq![Digit::X],
        encode(11) == seq![Digit::X, Digit::I],
        encode(12) == seq![Digit::X, Digit::I, Digit::I],
        encode(50) == seq![Digit::L],
        encode(100) == seq![Digit::C],
        encode(500) == seq![Digit::D],
        encode(1000) == seq![Digit::M],
{
    assert(encode(1) == seq![Digit::I]) by {
        reveal_with_fuel(encode_from, 20);
    }
    assert(encode(2) == seq![Digit::I, Digit::I]) by {
        reveal_with_fuel(encode_from, 20);
    }
    assert(encode(3) == seq![Digit::I, Digit::I, Digit::I]) by {
        reveal_with_fuel(encode_from, 20);
    }
    assert(encode(4) == seq![Digit::I, Digit::V]) by {
        reveal_with_fuel(encode_from, 20);
    }
    assert(encode(5) == seq![Digit::V]) by {
        reveal_with_fuel(encode_from, 20);
    }
    assert(encode(6) == seq![Digit::V, Digit::I]) by {
        reveal_with_fuel(encode_from, 20);
    }
    assert(encode(7) == seq![Digit::V, Digit::I, Digit::I]) by {
        reveal_with_fuel(encode_from, 20);
    }
    assert(encode(8) == seq![Digit::V, Digit::I, Digit::I, Digit::I]) by {
        reveal_with_fuel(encode_from, 20);
    }
    assert(encode(9) == seq![Digit::I, Digit::X]) by {
        reveal_with_fuel(encode_from, 20);
    }
    assert(encode(10) == seq![Digit::X]) by {
        reveal_with_fuel(encode_from, 20);
    }
    assert(encode(11) == seq![Digit::X, Digit::I]) by {
        reveal_with_fuel(encode_from, 20);
    }
    assert(encode(12) == seq![Digit::X, Digit::I, Digit::I]) by {
        reveal_with_fuel(encode_from, 20);
    }
    assert(encode(50) == seq![Digit::L]) by {
        reveal_with_fuel(encode_from, 20);
    }
    assert(encode(100) == seq![Digit::C]) by {
        reveal_with_fuel(encode_from, 20);
    }
    assert(encode(500) == seq![Digit::D]) by {
        reveal_with_fuel(encode_from, 20);
    }
    assert(encode(1000) == seq![Digit::M]) by {
        reveal_with_fuel(encode_from, 20);
    }
}

/// Every numeral glyph of the Number Forms block, in either case, stands for
/// the canonical digits of the number it depicts.
pub proof fn lemma_numeral_forms(c: char)
    requires
        0x2160 <= c as u32 <= 0x217F,
    ensures
        glyph(c) == Some(encode(form_value(c))),
{
    lemma_form_encodings();
}

/// Row `k` of the encoding table: its value, and its one or two digits.
fn table_row(k: usize) -> (r: (u32, Digit, Option<Digit>))
    requires
        k < TABLE_ROWS,
    ensures
        r.0 == row_value(k as nat),
        row_digits(k as nat) == match r.2 {
            Some(b) => seq![r.1, b],
            None => seq![r.1],
        },
{
    match k {
        0 => (1000, Digit::M, None),
        1 => (900, Digit::C, Some(Digit::M)),
        2 => (500, Digit::D, None),
        3 => (400, Digit::C, Some(Digit::D)),
        4 => (100, Digit::C, None),
        5 => (90, Digit::X, Some(Digit::C)),
        6 => (50, Digit::L, None),
        7 => (40, Digit::X, Some(Digit::L)),
        8 => (10, Digit::X, None),
        9 => (9, Digit::I, Some(Digit::X)),
        10 => (5, Digit::V, None),
        11 => (4, Digit::I, Some(Digit::V)),
        _ => (1, Digit::I, None),
    }
}

impl Digit {
    /// Converts a positive integer into its canonical Roman digits, most
    /// significant first. Zero has no representation and is rejected. There is
    /// no upper bound: every full thousand is written as one `M`.
    pub fn from_int(num: u32) -> (r: Result<Vec<Digit>, Error>)
        ensures
            num == 0 ==> r == Err::<Vec<Digit>, Error>(Error::InvalidNumber(0)),
            num > 0 ==> (r matches Ok(v) && v@ == encode(num as nat)),
    {
        let mut n: u32 = num;
        if n == 0 {
            return Err(Error::InvalidNumber(n));
        }
        let mut result: Vec<Digit> = Vec::with_capacity(15);
        let mut k: usize = 0;
        while k < TABLE_ROWS && n > 0
            invariant
                k <= TABLE_ROWS,
                result@ + encode_from(n as nat, k as nat) == encode(num as nat),
            decreases TABLE_ROWS - k,
        {
            let (value, first, second) = table_row(k);
            let count = n / value;
            let mut j: u32 = 0;
            while j < count
                invariant
                    k < TABLE_ROWS,
                    j <= count,
                    value == row_value(k as nat),
                    count == n / value,
                    row_digits(k as nat) == match second {
                        Some(b) => seq![first, b],
                        None => seq![first],
                    },
                    result@ + encode_from((n - j * value) as nat, k as nat) == encode(num as nat),
                decreases count - j,
            {
                let ghost before = result@;
                let ghost m = n - j * value;
                assert(m >= value) by (nonlinear_arith)
                    requires
                        m == n - j * value,
                        j < count,
                        count == n / value,
                        value > 0,
                {
                    assert(count * value <= n);
                    assert((j + 1) * value <= count * value);
                }
                assert(m - value == n - (j + 1) * value) by (nonlinear_arith)
                    requires
                        m == n - j * value,
                ;
                result.push(first);
                match second {
                    Some(b) => result.push(b),
                    None => {},
                }
                assert(result@ == before + row_digits(k as nat));
                assert(encode_from(m as nat, k as nat) == row_digits(k as nat) + encode_from(
                    (m - value) as nat,
                    k as nat,
                ));
                assert(before + (row_digits(k as nat) + encode_from((m - value) as nat, k as nat))
                    == result@ + encode_from((m - value) as nat, k as nat));
                j += 1;
            }
            proof {
                lemma_fundamental_div_mod(n as int, value as int);
                assert(n - count * value == n % value) by (nonlinear_arith)
                    requires
                        n == value * (n / value) + n % value,
                        count == n / value,
                ;
            }
            n = n % value;
            k += 1;
        }
        Ok(result)
    }
    /// The value of a digit sequence (see `decode`). Every sequence is
    /// accepted, canonical or not; its length only has to keep the sum in range.
    pub fn value_of(digits: &[Digit]) -> (r: u64)
        requires
            1000 * digits@.len() <= u64::MAX,
        ensures
            r == decode(digits@),
    {
        let mut total: u64 = 0;
        let mut i: usize = 0;
        assert(digits@.subrange(0, digits@.len() as int) =~= digits@);
        while i < digits.len()
            invariant
                i <= digits@.len(),
                1000 * digits@.len() <= u64::MAX,
                total <= 1000 * i,
                total + decode(digits@.subrange(i as int, digits@.len() as int)) == decode(digits@),
            decreases digits@.len() - i,
        {
            let ghost rest = digits@.subrange(i as int, digits@.len() as int);
            let curr = digits[i].value();
            if i + 1 < digits.len() {
                let next = digits[i + 1].value();
                if curr < next {
                    assert(rest.subrange(2, rest.len() as int) =~= digits@.subrange(
                        i + 2,
                        digits@.len() as int,
                    ));
                    total = total + (next - curr) as u64;
                    i += 2;
                    continue;
                }
            }
            assert(rest.subrange(1, rest.len() as int) =~= digits@.subrange(
                i + 1,
                digits@.len() as int,
            ));
            total = total + curr as u64;
            i += 1;
        }
        assert(digits@.subrange(i as int, digits@.len() as int) =~= Seq::<Digit>::empty());
        total
    }
}

} // verus!

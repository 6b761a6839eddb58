//! Signed decimal numerals in ASCII: what a digit string denotes, how an
//! integer is written, and the executable scanner and printer for both.

use vstd::prelude::*;

verus! {

pub const PLUS_SIGN: u8 = 43;

pub const MINUS_SIGN: u8 = 45;

/// The magnitude of `i64::MIN`, the largest magnitude a signed numeral may have.
pub const MAGNITUDE_LIMIT: u64 = 9223372036854775808;

/// An ASCII digit `0` to `9`.
pub open spec fn is_digit(b: u8) -> bool {
    48 <= b <= 57
}

pub open spec fn all_digits(s: Seq<u8>) -> bool {
    forall|i: int| 0 <= i < s.len() ==> is_digit(#[trigger] s[i])
}

/// The natural number that a string of digits denotes, most significant digit first.
pub open spec fn digits_value(s: Seq<u8>) -> nat
    decreases s.len(),
{
    if s.len() == 0 {
        0
    } else {
        digits_value(s.drop_last()) * 10 + (s.last() - 48) as nat
    }
}

/// The integer that a numeral denotes: an optional sign, then one digit or
/// more. `None` for any other text.
pub open spec fn decimal_value(s: Seq<u8>) -> Option<int> {
    if s.len() > 0 && (s[0] == MINUS_SIGN || s[0] == PLUS_SIGN) {
        let digits = s.skip(1);
        if digits.len() > 0 && all_digits(digits) {
            if s[0] == MINUS_SIGN {
                Some(-(digits_value(digits) as int))
            } else {
                Some(digits_value(digits) as int)
            }
        } else {
            None
        }
    } else if s.len() > 0 && all_digits(s) {
        Some(digits_value(s) as int)
    } else {
        None
    }
}

/// How a text reads as a signed 64-bit integer.
#[derive(Clone, Copy, Debug, PartialEq, Eq, Structural)]
pub enum Scanned {
    /// Not a numeral.
    Invalid,
    /// A numeral less than `i64::MIN`.
    Below,
    /// A numeral greater than `i64::MAX`.
    Above,
    /// A numeral with this value.
    Fits(i64),
}

pub open spec fn classify(s: Seq<u8>) -> Scanned {
    match decimal_value(s) {
        None => Scanned::Invalid,
        Some(v) => if v < i64::MIN {
            Scanned::Below
        } else if v > i64::MAX {
            Scanned::Above
        } else {
            Scanned::Fits(v as i64)
        },
    }
}

/// The signed 64-bit value of a numeral, `None` where the text is no
/// numeral or its value does not fit.
pub open spec fn i64_of_decimal(s: Seq<u8>) -> Option<i64> {
    match classify(s) {
        Scanned::Fits(v) => Some(v),
        _ => None,
    }
}

/// The digits of a natural number, without leading zeros.
pub open spec fn digits_of(n: nat) -> Seq<u8>
    decreases n,
{
    if n < 10 {
        seq![(48 + n) as u8]
    } else {
        digits_of(n / 10).push((48 + n % 10) as u8)
    }
}

/// The canonical numeral of an integer: a minus sign for negatives, no
/// plus sign, no leading zeros.
pub open spec fn decimal_text(n: int) -> Seq<u8> {
    if n < 0 {
        seq![MINUS_SIGN] + digits_of((-n) as nat)
    } else {
        digits_of(n as nat)
    }
}

pub proof fn lemma_digits_value_push(s: Seq<u8>, d: u8)
    ensures
        digits_value(s.push(d)) == digits_value(s) * 10 + (d - 48) as nat,
{
    assert(s.push(d).drop_last() =~= s);
}

/// The digits of `n` are digits, at least one of them, and denote `n`.
pub proof fn lemma_digits_of(n: nat)
    ensures
        digits_of(n).len() >= 1,
        all_digits(digits_of(n)),
        digits_value(digits_of(n)) == n,
    decreases n,
{
    if n < 10 {
        let s = seq![(48 + n) as u8];
        assert(s.drop_last() =~= Seq::<u8>::empty());
        assert(digits_value(s.drop_last()) == 0);
    } else {
        lemma_digits_of(n / 10);
        lemma_digits_value_push(digits_of(n / 10), (48 + n % 10) as u8);
    }
}

/// Reading back the canonical numeral of an integer gives that integer.
pub proof fn lemma_decimal_text_value(n: int)
    ensures
        decimal_value(decimal_text(n)) == Some(n),
{
    if n < 0 {
        let digits = digits_of((-n) as nat);
        lemma_digits_of((-n) as nat);
        assert(decimal_text(n).skip(1) =~= digits);
    } else {
        lemma_digits_of(n as nat);
        let s = digits_of(n as nat);
        assert(is_digit(s[0]));
    }
}

/// The canonical numeral holds digits and at most a leading minus sign.
pub proof fn lemma_decimal_text_bytes(n: int)
    ensures
        decimal_text(n).len() >= 1,
        forall|i: int|
            0 <= i < decimal_text(n).len() ==> is_digit(#[trigger] decimal_text(n)[i]) || (i == 0
                && decimal_text(n)[i] == MINUS_SIGN),
{
    if n < 0 {
        lemma_digits_of((-n) as nat);
        let digits = digits_of((-n) as nat);
        assert forall|i: int| 0 <= i < decimal_text(n).len() implies is_digit(
            #[trigger] decimal_text(n)[i],
        ) || (i == 0 && decimal_text(n)[i] == MINUS_SIGN) by {
            if i > 0 {
                assert(decimal_text(n)[i] == digits[i - 1]);
            }
        }
    } else {
        lemma_digits_of(n as nat);
    }
}

/// Reads `text` as a signed decimal numeral.
pub fn scan_decimal(text: &[u8]) -> (r: Scanned)
    ensures
        r == classify(text@),
{
    let n = text.len();
    if n == 0 {
        return Scanned::Invalid;
    }
    let negative = text[0] == MINUS_SIGN;
    let start: usize = if text[0] == MINUS_SIGN || text[0] == PLUS_SIGN {
        1
    } else {
        0
    };
    if start == n {
        return Scanned::Invalid;
    }
    let ghost digits = text@.skip(start as int);
    let mut acc: u64 = 0;
    let mut overflow = false;
    let mut i: usize = start;
    while i < n
        invariant
            start <= i <= n,
            n == text@.len(),
            start == (if text@[0] == MINUS_SIGN || text@[0] == PLUS_SIGN { 1int } else { 0int }),
            negative == (text@[0] == MINUS_SIGN),
            digits == text@.skip(start as int),
            all_digits(digits.take(i - start)),
            !overflow ==> acc == digits_value(digits.take(i - start)) && acc <= MAGNITUDE_LIMIT,
            overflow ==> digits_value(digits.take(i - start)) > MAGNITUDE_LIMIT,
        decreases n - i,
    {
        let b = text[i];
        if b < 48 || b > 57 {
            proof {
                assert(digits[i - start] == b);
                assert(!all_digits(digits));
                if start == 0 {
                    assert(digits =~= text@);
                }
            }
            return Scanned::Invalid;
        }
        let d: u64 = (b - 48) as u64;
        proof {
            let before = digits.take(i - start);
            let after = digits.take(i - start + 1);
            assert(after =~= before.push(b));
            lemma_digits_value_push(before, b);
            assert forall|j: int| 0 <= j < after.len() implies is_digit(#[trigger] after[j]) by {
                if j < before.len() {
                    assert(after[j] == before[j]);
                }
            }
        }
        if !overflow {
            if acc > 922337203685477580 {
                overflow = true;
            } else {
                let v: u64 = acc * 10 + d;
                if v > MAGNITUDE_LIMIT {
                    overflow = true;
                } else {
                    acc = v;
                }
            }
        }
        i += 1;
    }
    proof {
        assert(digits.take(n - start) =~= digits);
        if start == 0 {
            assert(digits =~= text@);
        }
    }
    if negative {
        if overflow {
            Scanned::Below
        } else if acc == MAGNITUDE_LIMIT {
            Scanned::Fits(i64::MIN)
        } else {
            Scanned::Fits(-(acc as i64))
        }
    } else {
        if overflow || acc == MAGNITUDE_LIMIT {
            Scanned::Above
        } else {
            Scanned::Fits(acc as i64)
        }
    }
}

/// Reads `text` as a signed 64-bit decimal numeral.
pub fn parse_i64(text: &[u8]) -> (r: Option<i64>)
    ensures
        r == i64_of_decimal(text@),
{
    match scan_decimal(text) {
        Scanned::Fits(v) => Some(v),
        _ => None,
    }
}

/// Appends the digits of `n` to `out`.
pub fn push_digits(out: &mut Vec<u8>, n: u64)
    ensures
        final(out)@ == old(out)@ + digits_of(n as nat),
    decreases n,
{
    if n >= 10 {
        push_digits(out, n / 10);
    }
    let digit: u8 = 48 + (n % 10) as u8;
    out.push(digit);
    assert(final(out)@ =~= old(out)@ + digits_of(n as nat));
}

/// Appends the canonical numeral of `n` to `out`.
pub fn push_i64(out: &mut Vec<u8>, n: i64)
    ensures
        final(out)@ == old(out)@ + decimal_text(n as int),
{
    if n < 0 {
        out.push(MINUS_SIGN);
        let magnitude: u64 = if n == i64::MIN {
            MAGNITUDE_LIMIT
        } else {
            (-n) as u64
        };
        push_digits(out, magnitude);
        assert(final(out)@ =~= old(out)@ + decimal_text(n as int));
    } else {
        push_digits(out, n as u64);
    }
}

/// Appends the canonical numeral of a length to `out`.
pub fn push_usize(out: &mut Vec<u8>, n: usize)
    ensures
        final(out)@ == old(out)@ + decimal_text(n as int),
{
    push_digits(out, n as u64);
}

/// The canonical numeral of `n`.
pub fn format_i64(n: i64) -> (r: Vec<u8>)
    ensures
        r@ == decimal_text(n as int),
{
    let mut out: Vec<u8> = Vec::new();
    push_i64(&mut out, n);
    assert(out@ =~= decimal_text(n as int));
    out
}

} // verus!

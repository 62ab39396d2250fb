//! The fixed-point value parser and its inverse, the tenths formatter.
//!
//! A value is a byte sequence matching `-? digit? digit '.' digit`: one or
//! two integer digits, exactly one fractional digit, an optional leading
//! minus. Parsing turns it into a histogram index in `[0, 1998]`, where
//! index `i` stands for the tenths-value `i - 999`.

use vstd::prelude::*;

use crate::AggError;

verus! {

pub open spec fn is_digit(b: u8) -> bool {
    48 <= b <= 57
}

/// The value grammar `-? digit? digit '.' digit`.
pub open spec fn valid_value(s: Seq<u8>) -> bool {
    &&& 3 <= s.len() <= 5
    &&& s[s.len() - 2] == 46u8
    &&& is_digit(s[s.len() - 1])
    &&& is_digit(s[s.len() - 3])
    &&& (s.len() == 4 ==> s[0] == 45u8 || is_digit(s[0]))
    &&& (s.len() == 5 ==> s[0] == 45u8 && is_digit(s[1]))
}

/// Ten times the magnitude of a valid value: `tens*100 + units*10 + frac`.
pub open spec fn value_mag_tenths(s: Seq<u8>) -> int {
    let frac = s[s.len() - 1] - 48;
    let units = s[s.len() - 3] - 48;
    let tens: int = if s.len() == 5 {
        s[1] - 48
    } else if s.len() == 4 && is_digit(s[0]) {
        s[0] - 48
    } else {
        0
    };
    tens * 100 + units * 10 + frac
}

pub open spec fn value_is_negative(s: Seq<u8>) -> bool {
    s.len() >= 4 && s[0] == 45u8
}

/// The signed tenths-value of a valid value string.
pub open spec fn value_tenths(s: Seq<u8>) -> int {
    if value_is_negative(s) {
        -value_mag_tenths(s)
    } else {
        value_mag_tenths(s)
    }
}

/// The histogram index of a valid value string.
pub open spec fn value_index(s: Seq<u8>) -> int {
    999 + value_tenths(s)
}

pub proof fn lemma_value_index_in_range(s: Seq<u8>)
    requires
        valid_value(s),
    ensures
        0 <= value_index(s) <= 1998,
        -999 <= value_tenths(s) <= 999,
{
}

fn byte_is_digit(b: u8) -> (r: bool)
    ensures
        r == is_digit(b),
{
    48 <= b && b <= 57
}

/// Parses a value string into its histogram index.
///
/// Returns `Ok(999 + 10*value)` exactly for the strings the grammar
/// admits, `Err(MalformedInput)` for every other byte sequence.
pub fn parse_temperature(value_bytes: &[u8]) -> (r: Result<usize, AggError>)
    ensures
        valid_value(value_bytes@) ==> r == Ok::<usize, AggError>(value_index(value_bytes@) as usize),
        !valid_value(value_bytes@) ==> r == Err::<usize, AggError>(AggError::MalformedInput),
        r matches Ok(i) ==> i <= 1998,
{
    let n = value_bytes.len();
    if n < 3 || n > 5 {
        return Err(AggError::MalformedInput);
    }
    let frac = value_bytes[n - 1];
    let dot = value_bytes[n - 2];
    let units = value_bytes[n - 3];
    if dot != 46 || !byte_is_digit(frac) || !byte_is_digit(units) {
        return Err(AggError::MalformedInput);
    }
    let mag: usize = (units - 48) as usize * 10 + (frac - 48) as usize;
    if n == 3 {
        return Ok(999 + mag);
    }
    let first = value_bytes[0];
    if n == 4 {
        if first == 45 {
            return Ok(999 - mag);
        }
        if !byte_is_digit(first) {
            return Err(AggError::MalformedInput);
        }
        return Ok(999 + (first - 48) as usize * 100 + mag);
    }
    if first != 45 {
        return Err(AggError::MalformedInput);
    }
    let tens = value_bytes[1];
    if !byte_is_digit(tens) {
        return Err(AggError::MalformedInput);
    }
    Ok(999 - ((tens - 48) as usize * 100 + mag))
}

pub open spec fn digit_byte(d: int) -> u8 {
    (48 + d) as u8
}

/// The canonical form of a magnitude in tenths, `0 <= m <= 999`:
/// one or two integer digits (no leading zero), a dot, one fractional digit.
pub open spec fn fmt_mag(m: int) -> Seq<u8> {
    if m / 100 > 0 {
        seq![digit_byte(m / 100), digit_byte((m / 10) % 10), 46u8, digit_byte(m % 10)]
    } else {
        seq![digit_byte(m / 10), 46u8, digit_byte(m % 10)]
    }
}

/// The canonical form of a signed tenths-value, `-999 <= t <= 999`.
pub open spec fn fmt_tenths(t: int) -> Seq<u8> {
    if t < 0 {
        seq![45u8] + fmt_mag(-t)
    } else {
        fmt_mag(t)
    }
}

/// Formats a tenths-value canonically, e.g. `-55` as `-5.5`.
pub fn format_tenths(t: i32) -> (r: Vec<u8>)
    requires
        -999 <= t <= 999,
    ensures
        r@ == fmt_tenths(t as int),
{
    let mut out: Vec<u8> = Vec::new();
    let m: i32 = if t < 0 {
        out.push(45);
        -t
    } else {
        t
    };
    if m / 100 > 0 {
        out.push(48 + (m / 100) as u8);
    }
    out.push(48 + ((m / 10) % 10) as u8);
    out.push(46);
    out.push(48 + (m % 10) as u8);
    proof {
        if t < 0 {
            assert(out@ == seq![45u8] + fmt_mag(-t as int));
        } else {
            assert(out@ == fmt_mag(t as int));
        }
    }
    out
}

/// Parser round-trip: every tenths-value in range parses back from its
/// canonical form to exactly itself, so formatting after parsing gives
/// back any valid string up to sign and leading-zero normalization.
pub proof fn lemma_parse_format_round_trip(t: int)
    requires
        -999 <= t <= 999,
    ensures
        valid_value(fmt_tenths(t)),
        value_tenths(fmt_tenths(t)) == t,
        value_index(fmt_tenths(t)) == 999 + t,
{
    let m = if t < 0 { -t } else { t };
    assert(m == (m / 100) * 100 + ((m / 10) % 10) * 10 + m % 10) by (nonlinear_arith)
        requires 0 <= m <= 999;
    assert(0 <= m / 100 <= 9) by (nonlinear_arith)
        requires 0 <= m <= 999;
    assert(0 <= (m / 10) % 10 <= 9) by (nonlinear_arith)
        requires 0 <= m <= 999;
    assert(0 <= m % 10 <= 9) by (nonlinear_arith)
        requires 0 <= m <= 999;
    let s = fmt_tenths(t);
    if t < 0 {
        if m / 100 > 0 {
            assert(s.len() == 5);
            assert(s[0] == 45u8);
        } else {
            assert(s.len() == 4);
            assert(s[0] == 45u8);
            assert(m / 100 == 0);
        }
    } else {
        if m / 100 > 0 {
            assert(s.len() == 4);
            assert(is_digit(s[0]));
        } else {
            assert(s.len() == 3);
        }
    }
}

} // verus!

//! Decimal numbers on the wire: how they are read and how they are written.

use crate::error::DecodeError;
use vstd::prelude::*;

verus! {

/// The byte `0`.
pub const ZERO: u8 = 0x30;

/// The byte `-`.
pub const MINUS: u8 = 0x2d;

/// The byte `+`.
pub const PLUS: u8 = 0x2b;

/// One of the bytes `0` to `9`.
pub open spec fn is_digit(b: u8) -> bool {
    0x30 <= b <= 0x39
}

/// A non-empty run of digits.
pub open spec fn is_digits(s: Seq<u8>) -> bool {
    s.len() > 0 && forall|i: int| 0 <= i < s.len() ==> is_digit(#[trigger] s[i])
}

/// The number that a run of digits writes in base ten.
pub open spec fn digits_value(s: Seq<u8>) -> nat
    decreases s.len(),
{
    if s.len() == 0 {
        0
    } else {
        10 * digits_value(s.drop_last()) + (s.last() - 0x30) as nat
    }
}

/// The integer that a field writes: a run of digits, which one sign may
/// precede. A field of any other shape writes none.
pub open spec fn signed_decimal(s: Seq<u8>) -> Option<int> {
    if s.len() > 0 && s[0] == MINUS {
        if is_digits(s.skip(1)) {
            Some(-(digits_value(s.skip(1)) as int))
        } else {
            None
        }
    } else if s.len() > 0 && s[0] == PLUS {
        if is_digits(s.skip(1)) {
            Some(digits_value(s.skip(1)) as int)
        } else {
            None
        }
    } else if is_digits(s) {
        Some(digits_value(s) as int)
    } else {
        None
    }
}

/// The integer that a field writes, where it lies between `low` and `high`.
pub open spec fn number_in(s: Seq<u8>, low: int, high: int) -> Result<int, DecodeError> {
    match signed_decimal(s) {
        Some(n) if low <= n <= high => Ok(n),
        _ => Err(DecodeError::InvalidNumber),
    }
}

/// `btoi::ParseIntegerError`, the failure of `btoi::btoi`. Nothing is read
/// from it.
#[verifier::external_type_specification]
#[verifier::external_body]
pub struct ExParseIntegerError(btoi::ParseIntegerError);

/// `btoi::btoi` at `i64`. It succeeds exactly where the bytes are a run of
/// decimal digits, which one sign may precede, and the integer that they
/// write fits an `i64`; it then returns that integer.
#[verifier::external_body]
fn btoi_i64(bytes: &[u8]) -> (parsed: Result<i64, btoi::ParseIntegerError>)
    ensures
        parsed is Ok <==> (signed_decimal(bytes@) matches Some(n) && i64::MIN <= n <= i64::MAX),
        parsed matches Ok(n) ==> signed_decimal(bytes@) == Some(n as int),
{
    btoi::btoi::<i64>(bytes)
}

/// Reads a field as a signed 64-bit number.
pub fn parse_i64(bytes: &[u8]) -> (number: Result<i64, DecodeError>)
    ensures
        match number {
            Ok(n) => number_in(bytes@, i64::MIN as int, i64::MAX as int) == Ok::<
                int,
                DecodeError,
            >(n as int),
            Err(e) => number_in(bytes@, i64::MIN as int, i64::MAX as int) == Err::<
                int,
                DecodeError,
            >(e),
        },
{
    match btoi_i64(bytes) {
        Ok(n) => Ok(n),
        Err(_) => Err(DecodeError::InvalidNumber),
    }
}

/// Reads a field as a signed 32-bit number.
pub fn parse_i32(bytes: &[u8]) -> (number: Result<i32, DecodeError>)
    ensures
        match number {
            Ok(n) => number_in(bytes@, i32::MIN as int, i32::MAX as int) == Ok::<
                int,
                DecodeError,
            >(n as int),
            Err(e) => number_in(bytes@, i32::MIN as int, i32::MAX as int) == Err::<
                int,
                DecodeError,
            >(e),
        },
{
    match btoi_i64(bytes) {
        Ok(n) => {
            if -2147483648 <= n && n <= 2147483647 {
                Ok(n as i32)
            } else {
                Err(DecodeError::InvalidNumber)
            }
        },
        Err(_) => Err(DecodeError::InvalidNumber),
    }
}

/// The digits of a natural number, without leading zeros.
pub open spec fn digits_of(n: nat) -> Seq<u8>
    decreases n,
{
    if n < 10 {
        seq![(0x30 + n) as u8]
    } else {
        digits_of(n / 10).push((0x30 + n % 10) as u8)
    }
}

/// An integer in decimal: its digits, after a minus sign if it is negative.
pub open spec fn decimal(n: int) -> Seq<u8> {
    if n < 0 {
        seq![MINUS] + digits_of((-n) as nat)
    } else {
        digits_of(n as nat)
    }
}

/// Appends the digits of `n`.
pub fn push_digits(out: &mut Vec<u8>, n: u64)
    ensures
        final(out)@ == old(out)@ + digits_of(n as nat),
    decreases n,
{
    if n >= 10 {
        push_digits(out, n / 10);
    }
    let digit: u8 = (n % 10) as u8;
    out.push(ZERO + digit);
    assert(out@ =~= old(out)@ + digits_of(n as nat));
}

/// Appends `n` in decimal.
pub fn push_decimal(out: &mut Vec<u8>, n: i64)
    ensures
        final(out)@ == old(out)@ + decimal(n as int),
{
    if n < 0 {
        out.push(MINUS);
        let magnitude: u64 = if n == i64::MIN {
            9223372036854775808u64
        } else {
            (-n) as u64
        };
        push_digits(out, magnitude);
        assert(out@ =~= old(out)@ + decimal(n as int));
    } else {
        push_digits(out, n as u64);
    }
}

/// The digits of a number are digits, and write that number.
pub proof fn lemma_digits_of(n: nat)
    ensures
        is_digits(digits_of(n)),
        digits_value(digits_of(n)) == n,
    decreases n,
{
    if n < 10 {
        let s = digits_of(n);
        assert(s.drop_last() =~= Seq::<u8>::empty());
        assert(digits_value(s.drop_last()) == 0);
    } else {
        lemma_digits_of(n / 10);
        let s = digits_of(n);
        assert(s.drop_last() =~= digits_of(n / 10));
    }
}

/// Reading what was written gives the number back.
pub proof fn lemma_decimal_reads_back(n: int)
    ensures
        signed_decimal(decimal(n)) == Some(n),
{
    if n < 0 {
        lemma_digits_of((-n) as nat);
        assert(decimal(n).skip(1) =~= digits_of((-n) as nat));
    } else {
        lemma_digits_of(n as nat);
        let s = decimal(n);
        assert(is_digit(s[0]));
    }
}

} // verus!

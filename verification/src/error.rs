//! The failures that bit-level reading and writing can report.

use vstd::prelude::*;
use vstd::string::StringExecFns;

verus! {

/// Why a bit-level operation did not go through.
#[derive(Clone, Copy, Debug, PartialEq, Eq, Structural)]
pub enum BitReadWriteError {
    /// The requested width, carried here, is zero or above the widest span
    /// that one operation handles.
    InvalidBitCount(usize),
    /// The source ran out of bytes before the requested bits were there.
    UnexpectedEof,
    /// Whole bytes were asked for while a part of a byte is still buffered.
    UnalignedAccess,
}

/// The character for a decimal digit.
pub open spec fn digit_char(digit: nat) -> char
    recommends
        digit < 10,
{
    if digit == 0 {
        '0'
    } else if digit == 1 {
        '1'
    } else if digit == 2 {
        '2'
    } else if digit == 3 {
        '3'
    } else if digit == 4 {
        '4'
    } else if digit == 5 {
        '5'
    } else if digit == 6 {
        '6'
    } else if digit == 7 {
        '7'
    } else if digit == 8 {
        '8'
    } else {
        '9'
    }
}

/// A number written in decimal, without leading zeros.
pub open spec fn decimal_text(n: nat) -> Seq<char>
    decreases n,
{
    if n < 10 {
        seq![digit_char(n)]
    } else {
        decimal_text(n / 10).push(digit_char(n % 10))
    }
}

/// The text that describes an error.
pub open spec fn error_text(error: BitReadWriteError) -> Seq<char> {
    match error {
        BitReadWriteError::InvalidBitCount(n) => "Bit count must be between 1-64, got "@
            + decimal_text(n as nat),
        BitReadWriteError::UnexpectedEof => "Unexpected end of stream"@,
        BitReadWriteError::UnalignedAccess => "Attempted to consume bytes while bits are buffered"@,
    }
}

/// The text of one decimal digit.
fn digit_text(digit: usize) -> (text: &'static str)
    requires
        digit < 10,
    ensures
        text@ == seq![digit_char(digit as nat)],
{
    proof {
        reveal_strlit("0");
        reveal_strlit("1");
        reveal_strlit("2");
        reveal_strlit("3");
        reveal_strlit("4");
        reveal_strlit("5");
        reveal_strlit("6");
        reveal_strlit("7");
        reveal_strlit("8");
        reveal_strlit("9");
    }
    let text = if digit == 0 {
        "0"
    } else if digit == 1 {
        "1"
    } else if digit == 2 {
        "2"
    } else if digit == 3 {
        "3"
    } else if digit == 4 {
        "4"
    } else if digit == 5 {
        "5"
    } else if digit == 6 {
        "6"
    } else if digit == 7 {
        "7"
    } else if digit == 8 {
        "8"
    } else {
        "9"
    };
    text
}

/// Writes `n` in decimal.
fn decimal_string(n: usize) -> (text: String)
    ensures
        text@ == decimal_text(n as nat),
    decreases n,
{
    let last = digit_text(n % 10);
    if n < 10 {
        String::from_str(last)
    } else {
        let text = decimal_string(n / 10).concat(last);
        text
    }
}

impl BitReadWriteError {
    /// Describes the error in words.
    pub fn to_string(&self) -> (text: String)
        ensures
            text@ == error_text(*self),
    {
        match self {
            BitReadWriteError::InvalidBitCount(n) => {
                let number = decimal_string(*n);
                String::from_str("Bit count must be between 1-64, got ").concat(number.as_str())
            },
            BitReadWriteError::UnexpectedEof => String::from_str("Unexpected end of stream"),
            BitReadWriteError::UnalignedAccess => String::from_str(
                "Attempted to consume bytes while bits are buffered",
            ),
        }
    }
}

} // verus!

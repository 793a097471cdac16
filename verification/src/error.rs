//! The failure kinds shared by the decoder and the encoder.

use crate::number::{decimal_text, push_decimal};
use vstd::prelude::*;
use vstd::string::StringExecFns;

verus! {

/// Why a decimal integer literal was refused.
#[derive(Debug, Clone, Copy, PartialEq, Eq, Structural)]
pub enum IntErrorKind {
    /// The literal holds no character at all.
    Empty,
    /// A character that is no decimal digit, or a sign with nothing after it.
    InvalidDigit,
    /// The value lies above the largest value of the target type.
    PosOverflow,
    /// The value lies below the smallest value of the target type.
    NegOverflow,
}

/// Why a decimal float literal was refused.
#[derive(Debug, Clone, Copy, PartialEq, Eq, Structural)]
pub enum FloatErrorKind {
    /// The literal holds no character at all.
    Empty,
    /// The literal is not of the form `-?digits(.digits)?` with at least one digit.
    Invalid,
}

/// Why a base64 text was refused.
#[derive(Debug, Clone, Copy, PartialEq, Eq, Structural)]
pub enum Base64ErrorKind {
    /// A byte outside the alphabet, with its offset.
    InvalidByte(usize, u8),
    /// The text has a length that no encoding has.
    InvalidLength,
    /// The last symbol carries bits that would be discarded, with its offset.
    InvalidLastSymbol(usize, u8),
}

/// A failure of one decode or encode call. Every error is terminal for the call.
#[derive(Debug, PartialEq, Eq)]
pub enum JsonError {
    /// The input ended where a token was expected.
    UnexpectedEnd,
    /// A `\u` escape with a character that is no hexadecimal digit.
    InvalidUnicodeEscapeSequence,
    /// A `\u` escape whose code point is no Unicode scalar value.
    UnexpectedUnicodeEscapeSequence(u32),
    /// A character that cannot start or continue the expected token.
    UnexpectedToken(char),
    /// A value or a nesting depth beyond what the codec handles.
    OutOfRange,
    /// A float literal that is not well formed.
    ParseFloatError(FloatErrorKind),
    /// An integer literal that is not well formed or does not fit its type.
    ParseIntError(IntErrorKind),
    /// A byte string whose text is not URL-safe base64.
    Base64Error(Base64ErrorKind),
    /// Input bytes that are not UTF-8: the length of the valid prefix, and
    /// the length of the faulty sequence where the input does not just end in it.
    Utf8Error(usize, Option<usize>),
    /// A mismatch reported by the traversal of a value, as a free-form message.
    Custom(String),
}

impl IntErrorKind {
    /// The words for the kind.
    pub open spec fn text(self) -> Seq<char> {
        match self {
            IntErrorKind::Empty => "cannot parse integer from empty string"@,
            IntErrorKind::InvalidDigit => "invalid digit found in string"@,
            IntErrorKind::PosOverflow => "number too large to fit in target type"@,
            IntErrorKind::NegOverflow => "number too small to fit in target type"@,
        }
    }

    /// The words for the kind.
    pub fn description(self) -> (r: &'static str)
        ensures
            r@ == self.text(),
    {
        match self {
            IntErrorKind::Empty => "cannot parse integer from empty string",
            IntErrorKind::InvalidDigit => "invalid digit found in string",
            IntErrorKind::PosOverflow => "number too large to fit in target type",
            IntErrorKind::NegOverflow => "number too small to fit in target type",
        }
    }
}

impl FloatErrorKind {
    /// The words for the kind.
    pub open spec fn text(self) -> Seq<char> {
        match self {
            FloatErrorKind::Empty => "cannot parse float from empty string"@,
            FloatErrorKind::Invalid => "invalid float literal"@,
        }
    }

    /// The words for the kind.
    pub fn description(self) -> (r: &'static str)
        ensures
            r@ == self.text(),
    {
        match self {
            FloatErrorKind::Empty => "cannot parse float from empty string",
            FloatErrorKind::Invalid => "invalid float literal",
        }
    }
}

impl Base64ErrorKind {
    /// The words for the kind, with the byte and its offset where it has them.
    pub open spec fn text(self) -> Seq<char> {
        match self {
            Base64ErrorKind::InvalidByte(at, byte) => "Invalid byte "@ + decimal_text(byte as nat)
                + ", offset "@ + decimal_text(at as nat) + "."@,
            Base64ErrorKind::InvalidLength => "Encoded text cannot have a 6-bit remainder."@,
            Base64ErrorKind::InvalidLastSymbol(at, byte) => "Invalid last symbol "@ + decimal_text(
                byte as nat,
            ) + ", offset "@ + decimal_text(at as nat) + "."@,
        }
    }

    /// The words for the kind, with the byte and its offset where it has them.
    pub fn description(self) -> (r: String)
        ensures
            r@ == self.text(),
    {
        match self {
            Base64ErrorKind::InvalidByte(at, byte) => {
                let mut out = String::from_str("Invalid byte ");
                push_decimal(&mut out, byte as u128);
                out.append(", offset ");
                push_decimal(&mut out, at as u128);
                out.append(".");
                out
            },
            Base64ErrorKind::InvalidLength => String::from_str(
                "Encoded text cannot have a 6-bit remainder.",
            ),
            Base64ErrorKind::InvalidLastSymbol(at, byte) => {
                let mut out = String::from_str("Invalid last symbol ");
                push_decimal(&mut out, byte as u128);
                out.append(", offset ");
                push_decimal(&mut out, at as u128);
                out.append(".");
                out
            },
        }
    }
}

/// The upper-case hexadecimal digit of a value below sixteen.
pub open spec fn upper_hex_char(d: int) -> char {
    if d < 10 {
        (d + '0' as int) as char
    } else {
        (d - 10 + 'A' as int) as char
    }
}

/// The `n` low hexadecimal digits of `v` in upper case, the highest first.
pub open spec fn upper_hex_digits(v: u32, n: nat) -> Seq<char>
    decreases n,
{
    if n == 0 {
        Seq::empty()
    } else {
        seq![upper_hex_char(((v >> ((4 * (n - 1)) as u32)) & 0xf) as int)] + upper_hex_digits(
            v,
            (n - 1) as nat,
        )
    }
}

/// The number of hexadecimal digits with which a code is shown: as many as
/// it has, and six at least.
pub open spec fn code_width(v: u32) -> nat {
    if v < 0x100_0000 {
        6
    } else if v < 0x1000_0000 {
        7
    } else {
        8
    }
}

/// A code as a message shows it: `0x`, then its hexadecimal digits in upper case.
pub open spec fn code_text(v: u32) -> Seq<char> {
    "0x"@ + upper_hex_digits(v, code_width(v))
}

/// Appends the code `v` to `out` as a message shows it.
pub fn push_code(out: &mut String, v: u32)
    ensures
        final(out)@ == old(out)@ + code_text(v),
{
    out.append("0x");
    let ghost start = out@;
    let width: u32 = if v < 0x100_0000 {
        6
    } else if v < 0x1000_0000 {
        7
    } else {
        8
    };
    let mut i: u32 = width;
    proof {
        assert(out@ + upper_hex_digits(v, i as nat) == start + upper_hex_digits(v, width as nat));
    }
    while i > 0
        invariant
            i <= width <= 8,
            out@ + upper_hex_digits(v, i as nat) == start + upper_hex_digits(v, width as nat),
        decreases i,
    {
        let shift: u32 = 4 * (i - 1);
        let d: u32 = (v >> shift) & 0xf;
        assert(d < 16) by (bit_vector)
            requires
                d == (v >> shift) & 0xf,
        ;
        let c = if d < 10 {
            (48u8 + d as u8) as char
        } else {
            (55u8 + d as u8) as char
        };
        proof {
            assert(c == upper_hex_char(d as int));
            let rest = upper_hex_digits(v, (i - 1) as nat);
            assert(upper_hex_digits(v, i as nat) == seq![c] + rest);
            assert(out@.push(c) + rest == out@ + (seq![c] + rest));
        }
        out.push(c);
        i = i - 1;
    }
    proof {
        assert(out@ + Seq::<char>::empty() == out@);
        assert(old(out)@ + "0x"@ + upper_hex_digits(v, width as nat) == old(out)@ + ("0x"@
            + upper_hex_digits(v, width as nat)));
    }
}

impl JsonError {
    /// The message for the error.
    pub open spec fn message_text(self) -> Seq<char> {
        match self {
            JsonError::UnexpectedEnd => "Unexpected end of JSON input"@,
            JsonError::InvalidUnicodeEscapeSequence => "Invalid Unicode escape sequence"@,
            JsonError::UnexpectedUnicodeEscapeSequence(code) => "Unexpected Unicode escape sequence "@
                + code_text(code),
            JsonError::UnexpectedToken(token) => "Unexpected token "@.push(token),
            JsonError::OutOfRange => "out of range"@,
            JsonError::ParseFloatError(e) => "parse float error : "@ + e.text(),
            JsonError::ParseIntError(e) => "parse int error : "@ + e.text(),
            JsonError::Base64Error(e) => "base64 decode error : "@ + e.text(),
            JsonError::Utf8Error(valid_up_to, error_len) => "Utf8 error : "@ + match error_len {
                Some(n) => "invalid utf-8 sequence of "@ + decimal_text(n as nat)
                    + " bytes from index "@ + decimal_text(valid_up_to as nat),
                None => "incomplete utf-8 byte sequence from index "@ + decimal_text(
                    valid_up_to as nat,
                ),
            },
            JsonError::Custom(e) => "custom error : "@ + e@,
        }
    }

    /// The message for the error.
    pub fn message(&self) -> (r: String)
        ensures
            r@ == self.message_text(),
    {
        match self {
            JsonError::UnexpectedEnd => String::from_str("Unexpected end of JSON input"),
            JsonError::InvalidUnicodeEscapeSequence => String::from_str(
                "Invalid Unicode escape sequence",
            ),
            JsonError::UnexpectedUnicodeEscapeSequence(code) => {
                let mut out = String::from_str("Unexpected Unicode escape sequence ");
                push_code(&mut out, *code);
                out
            },
            JsonError::UnexpectedToken(token) => {
                let mut out = String::from_str("Unexpected token ");
                out.push(*token);
                out
            },
            JsonError::OutOfRange => String::from_str("out of range"),
            JsonError::ParseFloatError(e) => {
                let mut out = String::from_str("parse float error : ");
                out.append(e.description());
                out
            },
            JsonError::ParseIntError(e) => {
                let mut out = String::from_str("parse int error : ");
                out.append(e.description());
                out
            },
            JsonError::Base64Error(e) => {
                let mut out = String::from_str("base64 decode error : ");
                let text = e.description();
                out.append(text.as_str());
                out
            },
            JsonError::Utf8Error(valid_up_to, error_len) => {
                let mut out = String::from_str("Utf8 error : ");
                let ghost head = out@;
                match error_len {
                    Some(n) => {
                        out.append("invalid utf-8 sequence of ");
                        push_decimal(&mut out, *n as u128);
                        out.append(" bytes from index ");
                        push_decimal(&mut out, *valid_up_to as u128);
                        assert(out@ == head + ("invalid utf-8 sequence of "@ + decimal_text(
                            *n as nat,
                        ) + " bytes from index "@ + decimal_text(*valid_up_to as nat)));
                    },
                    None => {
                        out.append("incomplete utf-8 byte sequence from index ");
                        push_decimal(&mut out, *valid_up_to as u128);
                        assert(out@ == head + ("incomplete utf-8 byte sequence from index "@
                            + decimal_text(*valid_up_to as nat)));
                    },
                }
                out
            },
            JsonError::Custom(e) => {
                let mut out = String::from_str("custom error : ");
                out.append(e.as_str());
                out
            },
        }
    }
}

} // verus!

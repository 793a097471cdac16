//! The grammar of the text: what each kind of token denotes at the start
//! of a text, and how many characters it takes. The decoder's operations
//! are specified over these functions.

use crate::bytes::{base64_bytes, decodable_len};
use crate::de::{ValueKind, MAX_DEPTH};
use crate::error::JsonError;
use crate::escape::{lemma_string_body_len, string_token};
use crate::number::{float_literal, int_literal};
use crate::text::{is_digit, lemma_run_len, lemma_run_len_is, run_len, CharClass};
use vstd::prelude::*;
use vstd::utf8::*;

verus! {

/// `s` without its leading whitespace.
pub open spec fn skip_whitespace(s: Seq<char>) -> Seq<char> {
    s.skip(run_len(s, CharClass::Whitespace) as int)
}

/// The first character of `s`, or the error for an input that has ended.
pub open spec fn first_char(s: Seq<char>) -> Result<char, JsonError> {
    if s.len() == 0 {
        Err(JsonError::UnexpectedEnd)
    } else {
        Ok(s[0])
    }
}

/// The first byte of the UTF-8 encoding of `c`; for an ASCII character, its code.
pub open spec fn leading_byte(c: char) -> u8 {
    encode_scalar(c as u32)[0]
}

/// An ASCII character is its own leading byte, and no other character has a
/// leading byte below 128.
pub proof fn lemma_leading_byte(c: char)
    ensures
        c as u32 == c as int,
        c as u32 <= 0x7f ==> leading_byte(c) == c as u32,
        c as u32 > 0x7f ==> leading_byte(c) >= 0x80,
{
    let v = c as u32;
    if v <= 0x7f {
        assert(leading_byte_width_1(v) == v) by (bit_vector)
            requires
                v <= 0x7f,
        ;
    } else if v <= 0x7ff {
        assert(leading_byte_width_2(v) >= 0x80) by (bit_vector)
            requires
                0x80 <= v <= 0x7ff,
        ;
    } else if v <= 0xffff {
        assert(leading_byte_width_3(v) >= 0x80) by (bit_vector)
            requires
                0x800 <= v <= 0xffff,
        ;
    } else {
        assert(leading_byte_width_4(v) >= 0x80) by (bit_vector)
            requires
                0x10000 <= v <= 0x10ffff,
        ;
    }
}

/// The outcome of reading the one character `c` at the start of `s`.
pub open spec fn char_expected(s: Seq<char>, c: char) -> Result<(), JsonError> {
    match first_char(s) {
        Ok(found) => if found == c {
            Ok(())
        } else {
            Err(JsonError::UnexpectedToken(found))
        },
        Err(e) => Err(e),
    }
}

/// What a boolean at the start of `s` denotes, and the characters it takes.
pub open spec fn bool_token(s: Seq<char>) -> Result<(bool, nat), JsonError> {
    if "1"@.is_prefix_of(s) {
        Ok((true, 1))
    } else if "0"@.is_prefix_of(s) {
        Ok((false, 1))
    } else if "true"@.is_prefix_of(s) {
        Ok((true, 4))
    } else if "false"@.is_prefix_of(s) {
        Ok((false, 5))
    } else {
        match first_char(s) {
            Ok(c) => Err(JsonError::UnexpectedToken(c)),
            Err(e) => Err(e),
        }
    }
}

/// What the literal `null` at the start of `s` denotes, and the characters it takes.
pub open spec fn unit_token(s: Seq<char>) -> Result<((), nat), JsonError> {
    if "null"@.is_prefix_of(s) {
        Ok(((), 4))
    } else {
        match first_char(s) {
            Ok(c) => Err(JsonError::UnexpectedToken(c)),
            Err(e) => Err(e),
        }
    }
}

/// Whether an optional value at the start of `s` is present, and the
/// characters that are read to tell: those of `null` where it is absent.
pub open spec fn option_token(s: Seq<char>) -> Result<(bool, nat), JsonError> {
    match first_char(s) {
        Err(e) => Err(e),
        Ok(c) => if c == 'n' {
            match unit_token(s) {
                Ok((_, n)) => Ok((false, n)),
                Err(e) => Err(e),
            }
        } else {
            Ok((true, 0))
        },
    }
}

/// The integer in `lo ..= hi` that the longest run of characters of `class`
/// at the start of `s` denotes, and the length of the run.
pub open spec fn int_token(s: Seq<char>, class: CharClass, lo: int, hi: int) -> Result<
    (int, nat),
    JsonError,
> {
    let n = run_len(s, class);
    match int_literal(s.take(n as int), lo, hi) {
        Ok(v) => Ok((v, n)),
        Err(e) => Err(JsonError::ParseIntError(e)),
    }
}

/// `s` without the string literal that it starts with, and `s` itself
/// where it starts with none.
pub open spec fn behind_string(s: Seq<char>) -> Seq<char> {
    match string_token(s) {
        Ok((_, n)) => s.skip(n as int),
        Err(_) => s,
    }
}

/// The integer in `lo ..= hi` that a string literal at the start of `s`
/// denotes by its text, and the characters that the literal takes.
pub open spec fn quoted_int_token(s: Seq<char>, lo: int, hi: int) -> Result<(int, nat), JsonError> {
    match string_token(s) {
        Ok((text, n)) => match int_literal(text, lo, hi) {
            Ok(v) => Ok((v, n)),
            Err(e) => Err(JsonError::ParseIntError(e)),
        },
        Err(e) => Err(e),
    }
}

/// The float token at the start of `s`: nothing for the literal `null`,
/// else the longest run of digits, `-` and `.`, which has to be a float
/// literal; and the characters that the token takes.
pub open spec fn float_token(s: Seq<char>) -> Result<(Option<Seq<char>>, nat), JsonError> {
    if "null"@.is_prefix_of(s) {
        Ok((None, 4))
    } else {
        let n = run_len(s, CharClass::FloatDigit);
        match float_literal(s.take(n as int)) {
            Ok(()) => Ok((Some(s.take(n as int)), n)),
            Err(e) => Err(JsonError::ParseFloatError(e)),
        }
    }
}

/// The first character of the text of a string literal at the start of `s`,
/// and the characters that the literal takes. A literal without text fails
/// with the quote as the unexpected token.
pub open spec fn char_token(s: Seq<char>) -> Result<(char, nat), JsonError> {
    match string_token(s) {
        Ok((text, n)) => if text.len() == 0 {
            Err(JsonError::UnexpectedToken('"'))
        } else {
            Ok((text[0], n))
        },
        Err(e) => Err(e),
    }
}

/// The bytes that a string literal at the start of `s` denotes as base64,
/// and the characters that the literal takes.
pub open spec fn bytes_token(s: Seq<char>) -> Result<(Seq<u8>, nat), JsonError> {
    match string_token(s) {
        Ok((text, n)) => if !decodable_len(text) {
            Err(JsonError::OutOfRange)
        } else {
            match base64_bytes(text) {
                Ok(bytes) => Ok((bytes, n)),
                Err(e) => Err(JsonError::Base64Error(e)),
            }
        },
        Err(e) => Err(e),
    }
}

/// The kind of the value that starts with the first character of `s`.
pub open spec fn value_kind(s: Seq<char>) -> Result<ValueKind, JsonError> {
    match first_char(s) {
        Err(e) => Err(e),
        Ok(c) => if c == 'n' {
            Ok(ValueKind::Unit)
        } else if c == 't' || c == 'f' {
            Ok(ValueKind::Bool)
        } else if c == '"' {
            Ok(ValueKind::Str)
        } else if is_digit(c) || c == '-' {
            Ok(ValueKind::Number)
        } else if c == '[' {
            Ok(ValueKind::Array)
        } else if c == '{' {
            Ok(ValueKind::Object)
        } else {
            Err(JsonError::UnexpectedToken(c))
        },
    }
}

/// The outcome of opening a compound with the bracket `open` at the start
/// of `s`, with `depth` compounds open already.
pub open spec fn opening(s: Seq<char>, open: char, depth: nat) -> Result<(), JsonError> {
    match char_expected(s, open) {
        Ok(()) => if depth >= MAX_DEPTH {
            Err(JsonError::OutOfRange)
        } else {
            Ok(())
        },
        Err(e) => Err(e),
    }
}

/// Whether another item of a compound follows at the start of `s`, where
/// the compound closes with `close` and `first` says that no item was read
/// yet; and the characters that are read to tell: those of the comma
/// before an item that is not the first.
pub open spec fn item_token(s: Seq<char>, close: char, first: bool) -> Result<(bool, nat), JsonError> {
    match first_char(s) {
        Err(e) => Err(e),
        Ok(c) => if c == close {
            Ok((false, 0))
        } else if first {
            Ok((true, 0))
        } else if c == ',' {
            Ok((true, 1))
        } else {
            Err(JsonError::UnexpectedToken(c))
        },
    }
}

/// How the variant at the start of `s` starts, with `depth` compounds open
/// already: the text of a bare tag, or nothing for an object; and the
/// characters that are read.
pub open spec fn enum_head(s: Seq<char>, depth: nat) -> Result<(Option<Seq<char>>, nat), JsonError> {
    match first_char(s) {
        Err(e) => Err(e),
        Ok(c) => if c == '"' {
            match string_token(s) {
                Ok((text, n)) => Ok((Some(text), n)),
                Err(e) => Err(e),
            }
        } else if c == '{' {
            if depth >= MAX_DEPTH {
                Err(JsonError::OutOfRange)
            } else {
                Ok((None, 1))
            }
        } else {
            Err(JsonError::UnexpectedToken(c))
        },
    }
}

/// The tag of a variant at the start of `s`, which the colon follows, and
/// the characters that both take with the whitespace before each.
pub open spec fn variant_token(s: Seq<char>) -> Result<(Seq<char>, nat), JsonError> {
    let trimmed = skip_whitespace(s);
    match string_token(trimmed) {
        Err(e) => Err(e),
        Ok((text, n)) => {
            let rest = skip_whitespace(trimmed.skip(n as int));
            match char_expected(rest, ':') {
                Err(e) => Err(e),
                Ok(()) => Ok((text, (s.len() - rest.len() + 1) as nat)),
            }
        },
    }
}

/// What is left unread when one value of any kind is skipped at the start
/// of `s`, behind any whitespace, with `depth` compounds open: `null`,
/// `true` or `false`, a string, a number, or an array or an object of such
/// values.
pub open spec fn skipped_value(s: Seq<char>, depth: nat) -> Result<Seq<char>, JsonError>
    decreases s.len(), 0nat,
{
    let t = skip_whitespace(s);
    match value_kind(t) {
        Err(e) => Err(e),
        Ok(ValueKind::Unit) => match unit_token(t) {
            Ok((_, n)) => Ok(t.skip(n as int)),
            Err(e) => Err(e),
        },
        Ok(ValueKind::Bool) => match bool_token(t) {
            Ok((_, n)) => Ok(t.skip(n as int)),
            Err(e) => Err(e),
        },
        Ok(ValueKind::Str) => match string_token(t) {
            Ok((_, n)) => Ok(t.skip(n as int)),
            Err(e) => Err(e),
        },
        Ok(ValueKind::Number) => match float_token(t) {
            Ok((_, n)) => Ok(t.skip(n as int)),
            Err(e) => Err(e),
        },
        Ok(ValueKind::Array) => if depth >= MAX_DEPTH {
            Err(JsonError::OutOfRange)
        } else {
            proof {
                lemma_skip_whitespace_len(s);
            }
            match skipped_items(t.skip(1), depth + 1, ']', true) {
                Ok(rest) => Ok(rest.skip(1)),
                Err(e) => Err(e),
            }
        },
        Ok(ValueKind::Object) => if depth >= MAX_DEPTH {
            Err(JsonError::OutOfRange)
        } else {
            proof {
                lemma_skip_whitespace_len(s);
            }
            match skipped_items(t.skip(1), depth + 1, '}', true) {
                Ok(rest) => Ok(rest.skip(1)),
                Err(e) => Err(e),
            }
        },
    }
}

/// What is left unread when the items of an open compound are skipped at
/// the start of `s`, up to the closing bracket `close`, which stays unread:
/// the values of an array, or the keys of an object, each with its colon
/// and its value.
///
/// A skipped value always leaves less than there was
/// (`lemma_skipped_value_is_shorter`); the two tests for it are there to
/// show that the definition ends, and never fail.
pub open spec fn skipped_items(s: Seq<char>, depth: nat, close: char, first: bool) -> Result<
    Seq<char>,
    JsonError,
>
    decreases s.len(), 1nat,
{
    let t = skip_whitespace(s);
    match item_token(t, close, first) {
        Err(e) => Err(e),
        Ok((false, _)) => Ok(t),
        Ok((true, n)) => {
            proof {
                lemma_skip_whitespace_len(s);
            }
            match skipped_value(t.skip(n as int), depth) {
                Err(e) => Err(e),
                Ok(rest) => if rest.len() >= t.len() {
                    Err(JsonError::UnexpectedEnd)
                } else if close == ']' {
                    skipped_items(rest, depth, close, false)
                } else {
                    let colon = skip_whitespace(rest);
                    match char_expected(colon, ':') {
                        Err(e) => Err(e),
                        Ok(()) => {
                            proof {
                                lemma_skip_whitespace_len(rest);
                            }
                            match skipped_value(colon.skip(1), depth) {
                                Err(e) => Err(e),
                                Ok(after) => if after.len() >= t.len() {
                                    Err(JsonError::UnexpectedEnd)
                                } else {
                                    skipped_items(after, depth, close, false)
                                },
                            }
                        },
                    }
                },
            }
        },
    }
}

/// Skipping leaves a suffix that is no longer than the text.
pub proof fn lemma_skip_whitespace_len(s: Seq<char>)
    ensures
        skip_whitespace(s).len() <= s.len(),
{
    lemma_run_len(s, CharClass::Whitespace);
}

/// Behind skipped whitespace there is no whitespace to skip.
pub proof fn lemma_skip_whitespace_twice(s: Seq<char>)
    ensures
        skip_whitespace(skip_whitespace(s)) == skip_whitespace(s),
{
    let t = skip_whitespace(s);
    lemma_run_len(s, CharClass::Whitespace);
    if t.len() > 0 {
        assert(t[0] == s[run_len(s, CharClass::Whitespace) as int]);
    }
    lemma_run_len_is(t, CharClass::Whitespace, 0);
    assert(t.skip(0) == t);
}

/// A skipped value leaves less than there was.
pub proof fn lemma_skipped_value_is_shorter(s: Seq<char>, depth: nat)
    ensures
        skipped_value(s, depth) matches Ok(rest) ==> rest.len() < s.len(),
    decreases s.len(), 0nat,
{
    let t = skip_whitespace(s);
    lemma_skip_whitespace_len(s);
    reveal_strlit("null");
    reveal_strlit("1");
    reveal_strlit("0");
    reveal_strlit("true");
    reveal_strlit("false");
    match value_kind(t) {
        Ok(ValueKind::Str) => {
            lemma_string_body_len(t.skip(1));
        },
        Ok(ValueKind::Number) => {
            lemma_run_len(t, CharClass::FloatDigit);
            assert(CharClass::FloatDigit.has(t[0]));
        },
        Ok(ValueKind::Array) => {
            if depth < MAX_DEPTH {
                lemma_skipped_items_stop(t.skip(1), depth + 1, ']', true);
            }
        },
        Ok(ValueKind::Object) => {
            if depth < MAX_DEPTH {
                lemma_skipped_items_stop(t.skip(1), depth + 1, '}', true);
            }
        },
        _ => {},
    }
}

/// Skipped items leave the closing bracket and what follows it.
pub proof fn lemma_skipped_items_stop(s: Seq<char>, depth: nat, close: char, first: bool)
    ensures
        skipped_items(s, depth, close, first) matches Ok(rest) ==> 0 < rest.len() <= s.len()
            && rest[0] == close,
    decreases s.len(), 1nat,
{
    let t = skip_whitespace(s);
    lemma_skip_whitespace_len(s);
    if let Ok((true, n)) = item_token(t, close, first) {
        if let Ok(rest) = skipped_value(t.skip(n as int), depth) {
            if rest.len() < t.len() {
                if close == ']' {
                    lemma_skipped_items_stop(rest, depth, close, false);
                } else {
                    let colon = skip_whitespace(rest);
                    lemma_skip_whitespace_len(rest);
                    if char_expected(colon, ':') is Ok {
                        if let Ok(after) = skipped_value(colon.skip(1), depth) {
                            if after.len() < t.len() {
                                lemma_skipped_items_stop(after, depth, close, false);
                            }
                        }
                    }
                }
            }
        }
    }
}

} // verus!

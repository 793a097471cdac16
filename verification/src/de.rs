//! The decoder: a cursor over the text that is still unread, with one
//! operation per kind of token.

use crate::bytes::decode_url_safe;
use crate::error::{Base64ErrorKind, JsonError};
use crate::escape::{
    escape_token, lemma_prepend_twice, lemma_string_body_escape, lemma_string_body_len,
    lemma_string_body_plain, parse_escape, prepend, string_body, string_token,
};
use crate::grammar::{
    behind_string, bool_token, bytes_token, char_expected, char_token, enum_head, first_char,
    float_token, int_token, item_token, leading_byte, lemma_leading_byte,
    lemma_skip_whitespace_len, lemma_skip_whitespace_twice, lemma_skipped_items_stop,
    lemma_skipped_value_is_shorter, opening, option_token, quoted_int_token, skip_whitespace,
    skipped_items, skipped_value, unit_token, value_kind, variant_token,
};
use crate::number::{check_float_literal, parse_signed_text, parse_unsigned_text, Width};
use crate::text::{
    lemma_encode_utf8_extend, lemma_encode_utf8_step, lemma_run_len, lemma_run_len_is, len_utf8,
    split_chars, split_run, CharClass,
};
use std::borrow::Cow;
use vstd::prelude::*;
use vstd::std_specs::iter::IteratorSpec;
use vstd::utf8::*;

verus! {

/// How deeply arrays, objects and variants may nest in one document.
pub const MAX_DEPTH: usize = 128;

/// A float token: the literal `null`, which stands for a NaN, or a decimal
/// literal, which is well formed and still to be converted.
#[derive(Debug, Clone, Copy, PartialEq, Eq)]
pub enum FloatToken<'de> {
    /// The literal `null`.
    NaN,
    /// A decimal float literal.
    Literal(&'de str),
}

/// The kinds of value that a document can hold, as the first character tells them apart.
#[derive(Debug, Clone, Copy, PartialEq, Eq, Structural)]
pub enum ValueKind {
    /// `null`.
    Unit,
    /// `true` or `false`.
    Bool,
    /// A string literal.
    Str,
    /// A number.
    Number,
    /// An array.
    Array,
    /// An object.
    Object,
}

/// How a variant starts.
#[derive(Debug, PartialEq, Eq)]
pub enum EnumHead<'de> {
    /// A bare tag: the variant carries nothing.
    Unit(Cow<'de, str>),
    /// An opening brace: the tag and the payload follow.
    Tagged,
}

/// The decoder's state: the unread suffix of the input, and how many
/// compounds are open around it.
pub struct Deserializer<'de> {
    input: &'de str,
    depth: usize,
}

impl<'de> View for Deserializer<'de> {
    type V = Seq<char>;

    /// The text that is still unread.
    closed spec fn view(&self) -> Seq<char> {
        self.input@
    }
}

/// The two numbers of the error with which `core::str::from_utf8` refuses
/// `bytes`: the length of the prefix that it found valid, and the length of
/// the faulty sequence where the input does not just end within a character.
pub uninterp spec fn utf8_fault(bytes: Seq<u8>) -> (usize, Option<usize>);

/// Whether the first `n` bytes are the longest prefix of `bytes` that is UTF-8.
pub open spec fn longest_valid_prefix(bytes: Seq<u8>, n: int) -> bool {
    &&& 0 <= n <= bytes.len()
    &&& valid_utf8(bytes.subrange(0, n))
    &&& forall|m: int| n < m <= bytes.len() ==> !valid_utf8(#[trigger] bytes.subrange(0, m))
}

/// `core::str::from_utf8`, with the two numbers of its error in place of
/// the error. The input is accepted where it is UTF-8, as the text that it
/// encodes, and refused otherwise; the contract names the two numbers, and
/// says of the first what its documentation says: that it is the greatest
/// length of a prefix that would be accepted.
#[verifier::external_body]
fn str_from_utf8<'a>(input: &'a [u8]) -> (r: Result<&'a str, (usize, Option<usize>)>)
    ensures
        match r {
            Ok(text) => valid_utf8(input@) && text@ == decode_utf8(input@),
            Err(fault) => !valid_utf8(input@) && fault == utf8_fault(input@)
                && longest_valid_prefix(input@, fault.0 as int),
        },
{
    match core::str::from_utf8(input) {
        Ok(text) => Ok(text),
        Err(e) => Err((e.valid_up_to(), e.error_len())),
    }
}

/// What decoding from bytes starts with, given what the validation of the
/// bytes gave: a decoder at the start of the text, or the refusal with its
/// two numbers.
pub fn decoder_of<'a>(checked: Result<&'a str, (usize, Option<usize>)>) -> (r: Result<
    Deserializer<'a>,
    JsonError,
>)
    ensures
        match checked {
            Ok(text) => r matches Ok(de) && de@ == text@ && de.depth() == 0,
            Err((valid_up_to, error_len)) => r matches Err(e) && e == JsonError::Utf8Error(
                valid_up_to,
                error_len,
            ),
        },
{
    match checked {
        Ok(text) => Ok(from_str(text)),
        Err((valid_up_to, error_len)) => Err(JsonError::Utf8Error(valid_up_to, error_len)),
    }
}

/// A decoder at the start of the text that `input` encodes as UTF-8. Input
/// that is not UTF-8 is refused with the two numbers that the validation
/// gives, of which the first is the length of the longest valid prefix.
pub fn from_slice<'a>(input: &'a [u8]) -> (r: Result<Deserializer<'a>, JsonError>)
    ensures
        match r {
            Ok(de) => valid_utf8(input@) && de@ == decode_utf8(input@) && de.depth() == 0,
            Err(e) => {
                &&& !valid_utf8(input@)
                &&& e == JsonError::Utf8Error(utf8_fault(input@).0, utf8_fault(input@).1)
                &&& longest_valid_prefix(input@, utf8_fault(input@).0 as int)
            },
        },
{
    decoder_of(str_from_utf8(input))
}

/// A decoder at the start of `input`.
pub fn from_str<'a>(input: &'a str) -> (de: Deserializer<'a>)
    ensures
        de@ == input@,
        de.depth() == 0,
{
    Deserializer { input, depth: 0 }
}

impl<'de> Deserializer<'de> {
    /// The number of compounds that are open around the cursor.
    pub closed spec fn depth(&self) -> nat {
        self.depth as nat
    }

    /// Moves the cursor past leading whitespace.
    pub fn trim_start(&mut self)
        ensures
            final(self)@ == skip_whitespace(old(self)@),
            final(self).depth() == old(self).depth(),
    {
        let (_, rest) = split_run(self.input, CharClass::Whitespace);
        self.input = rest;
    }

    /// The next character, which stays unread.
    pub fn peek_char(&self) -> (r: Result<char, JsonError>)
        ensures
            r == first_char(self@),
    {
        let mut chs = self.input.chars();
        match chs.next() {
            Some(c) => Ok(c),
            None => Err(JsonError::UnexpectedEnd),
        }
    }

    /// The next byte of the input as UTF-8, which stays unread.
    pub fn peek_u8(&self) -> (r: Result<u8, JsonError>)
        ensures
            r == match first_char(self@) {
                Ok(c) => Ok(leading_byte(c)),
                Err(e) => Err(e),
            },
    {
        let bytes = self.input.as_bytes();
        if bytes.len() == 0 {
            proof {
                if self@.len() > 0 {
                    encode_utf8_first_scalar(self@);
                }
            }
            return Err(JsonError::UnexpectedEnd);
        }
        proof {
            if self@.len() == 0 {
                assert(encode_utf8(self@).len() == 0);
            }
        }
        Ok(bytes[0])
    }

    /// Reads the next character.
    pub fn next_char(&mut self) -> (r: Result<char, JsonError>)
        ensures
            r == first_char(old(self)@),
            final(self)@ == if r is Ok {
                old(self)@.drop_first()
            } else {
                old(self)@
            },
            final(self).depth() == old(self).depth(),
    {
        let ch = self.peek_char()?;
        self.advance(ch);
        Ok(ch)
    }

    /// Reads the next character if it is `rhs`, and fails with the character
    /// that stands there otherwise.
    pub fn assert_next_char(&mut self, rhs: char) -> (r: Result<(), JsonError>)
        ensures
            r == match first_char(old(self)@) {
                Ok(c) => if c == rhs {
                    Ok(())
                } else {
                    Err(JsonError::UnexpectedToken(c))
                },
                Err(e) => Err(e),
            },
            final(self)@ == if r is Ok {
                old(self)@.drop_first()
            } else {
                old(self)@
            },
            final(self).depth() == old(self).depth(),
    {
        let ch = self.peek_char()?;
        if ch != rhs {
            return Err(JsonError::UnexpectedToken(ch));
        }
        self.advance(ch);
        Ok(())
    }

    /// Reads a string literal. The text is borrowed from the input where the
    /// literal holds no escape, and built in a buffer of its own otherwise.
    pub fn parse_string(&mut self) -> (r: Result<Cow<'de, str>, JsonError>)
        ensures
            match string_token(old(self)@) {
                Ok((text, n)) => {
                    &&& r matches Ok(value) && value@ == text && (value matches Cow::Borrowed(_)
                        <==> !old(self)@.subrange(1, n - 1).contains('\\'))
                    &&& final(self)@ == old(self)@.skip(n as int)
                },
                Err(e) => r == Err::<Cow<'de, str>, JsonError>(e) && final(self)@ == old(self)@,
            },
            final(self).depth() == old(self).depth(),
    {
        let s = self.input;
        let total = s.as_bytes().len();
        let mut chs = s.chars();
        let first_char = match chs.next() {
            Some(c) => c,
            None => {
                return Err(JsonError::UnexpectedEnd);
            },
        };
        if first_char != '"' {
            return Err(JsonError::UnexpectedToken(first_char));
        }
        let mut at: usize = 1;
        let mut owned = String::new();
        let mut escaped = false;
        let ghost mut k: int = 1;
        let ghost mut text: Seq<char> = Seq::empty();
        let ghost mut mark: int = 0;
        proof {
            lemma_encode_utf8_step(s@, 0);
            assert(s@.take(0) == Seq::<char>::empty());
            assert(encode_utf8(s@.take(0)).len() == 0);
            assert(s@.subrange(1, 1) == Seq::<char>::empty());
            assert(s@.drop_first() == s@.skip(1));
            let whole = string_body(s@.skip(1));
            if whole is Ok {
                assert(text + whole->Ok_0.0 == whole->Ok_0.0);
            }
        }
        loop
            invariant_except_break
                chs.remaining() == s@.skip(k),
                string_body(s@.skip(1)) == prepend(text, (k - 1) as nat, string_body(s@.skip(k))),
                !escaped ==> text == s@.subrange(1, k) && !text.contains('\\'),
                escaped ==> owned@ == text && 1 <= mark < k && s@[mark] == '\\',
            invariant
                s == self.input,
                s@ == old(self)@,
                self.depth == old(self).depth,
                s@.len() > 0,
                s@[0] == '"',
                encode_utf8(s@.take(1)).len() == 1,
                1 <= k <= s@.len(),
                at == encode_utf8(s@.take(k)).len(),
                at <= total,
                total == encode_utf8(s@).len(),
            ensures
                k >= 2,
                s@[k - 1] == '"',
                at - 1 == encode_utf8(s@.take(k - 1)).len(),
                string_body(s@.skip(1)) == Ok::<(Seq<char>, nat), JsonError>((text, (k - 1) as nat)),
                !escaped ==> text == s@.subrange(1, k - 1) && !text.contains('\\'),
                escaped ==> owned@ == text && 1 <= mark < k - 1 && s@[mark] == '\\',
            decreases s@.len() - k,
        {
            let ghost rest = s@.skip(k);
            let ch = match chs.next() {
                Some(c) => c,
                None => {
                    return Err(JsonError::UnexpectedEnd);
                },
            };
            proof {
                lemma_encode_utf8_extend(s@, k, 1);
                lemma_encode_utf8_step(s@, k);
                assert(rest.drop_first() == s@.skip(k + 1));
                assert(rest.skip(1) == s@.skip(k + 1));
            }
            if ch == '\\' {
                if !escaped {
                    let (head, _) = split_chars(s, Ghost(k), at);
                    proof {
                        assert(head@.take(1) == s@.take(1));
                        assert(s@.take(k).skip(1) == s@.subrange(1, k));
                    }
                    let (_, inner) = split_chars(head, Ghost(1), 1);
                    owned = inner.to_owned();
                    escaped = true;
                    proof {
                        mark = k;
                    }
                }
                at = at + 1;
                proof {
                    lemma_string_body_escape(rest);
                }
                parse_escape(&mut chs, &mut owned, &mut at)?;
                proof {
                    let (c, n) = escape_token(rest.skip(1))->Ok_0;
                    lemma_encode_utf8_extend(s@, k + 1, n as int);
                    assert(rest.skip(1).skip(n as int) == s@.skip(k + 1 + n));
                    assert(rest.skip(1 + n as int) == s@.skip(k + 1 + n));
                    lemma_prepend_twice(
                        text,
                        (k - 1) as nat,
                        c,
                        1 + n,
                        string_body(s@.skip(k + 1 + n)),
                    );
                    text = text.push(c);
                    k = k + 1 + n;
                }
                continue ;
            }
            at = at + len_utf8(ch);
            proof {
                k = k + 1;
            }
            if ch == '"' {
                proof {
                    assert(text + Seq::<char>::empty() == text);
                }
                break ;
            }
            proof {
                lemma_string_body_plain(rest);
                lemma_prepend_twice(text, (k - 2) as nat, ch, 1, string_body(s@.skip(k)));
                assert(s@.subrange(1, k) == s@.subrange(1, k - 1).push(ch));
                text = text.push(ch);
            }
            if escaped {
                owned.push(ch);
            }
        }
        proof {
            if escaped {
                assert(s@.subrange(1, k - 1)[mark - 1] == '\\');
            }
        }
        let (head, rest) = split_chars(s, Ghost(k), at);
        self.input = rest;
        if escaped {
            return Ok(Cow::Owned(owned));
        }
        proof {
            assert(head@.take(k - 1) == s@.take(k - 1));
            assert(head@.take(k - 1).take(1) == s@.take(1));
            lemma_encode_utf8_step(s@, 0);
            assert(s@.take(0) == Seq::<char>::empty());
            assert(encode_utf8(s@.take(0)).len() == 0);
        }
        let (quoted, _) = split_chars(head, Ghost(k - 1), at - 1);
        let (_, inner) = split_chars(quoted, Ghost(1), 1);
        proof {
            assert(inner@ == s@.subrange(1, k - 1));
        }
        Ok(Cow::Borrowed(inner))
    }

    /// Reads `lit` if the input starts with it.
    fn eat(&mut self, lit: &str) -> (b: bool)
        ensures
            b == lit@.is_prefix_of(old(self)@),
            final(self)@ == if b {
                old(self)@.skip(lit@.len() as int)
            } else {
                old(self)@
            },
            final(self).depth() == old(self).depth(),
    {
        let s = self.input;
        let mut given = s.chars();
        let mut wanted = lit.chars();
        let ghost mut k: int = 0;
        loop
            invariant_except_break
                given.remaining() == s@.skip(k),
                wanted.remaining() == lit@.skip(k),
            invariant
                s == self.input,
                s@ == old(self)@,
                self.depth == old(self).depth,
                0 <= k <= s@.len(),
                k <= lit@.len(),
                s@.take(k) == lit@.take(k),
            ensures
                k == lit@.len(),
            decreases lit@.len() - k,
        {
            let x = match wanted.next() {
                Some(x) => x,
                None => {
                    break ;
                },
            };
            match given.next() {
                Some(y) => {
                    if x != y {
                        proof {
                            if lit@.is_prefix_of(s@) {
                                assert(s@.subrange(0, lit@.len() as int)[k] == s@[k]);
                            }
                        }
                        return false;
                    }
                },
                None => {
                    return false;
                },
            }
            proof {
                assert(s@.skip(k).drop_first() == s@.skip(k + 1));
                assert(lit@.skip(k).drop_first() == lit@.skip(k + 1));
                assert(s@.take(k + 1) == s@.take(k).push(s@[k]));
                assert(lit@.take(k + 1) == lit@.take(k).push(lit@[k]));
                k = k + 1;
            }
        }
        proof {
            assert(lit@.take(k) == lit@);
        }
        let (_, rest) = split_chars(s, Ghost(k), lit.as_bytes().len());
        self.input = rest;
        true
    }

    /// Reads a boolean: `1`, `0`, `true` or `false`.
    pub fn parse_bool(&mut self) -> (r: Result<bool, JsonError>)
        ensures
            match bool_token(old(self)@) {
                Ok((v, n)) => r == Ok::<bool, JsonError>(v) && final(self)@ == old(self)@.skip(
                    n as int,
                ),
                Err(e) => r == Err::<bool, JsonError>(e) && final(self)@ == old(self)@,
            },
            final(self).depth() == old(self).depth(),
    {
        proof {
            reveal_strlit("1");
            reveal_strlit("0");
            reveal_strlit("true");
            reveal_strlit("false");
        }
        if self.eat("1") {
            Ok(true)
        } else if self.eat("0") {
            Ok(false)
        } else if self.eat("true") {
            Ok(true)
        } else if self.eat("false") {
            Ok(false)
        } else {
            Err(JsonError::UnexpectedToken(self.peek_char()?))
        }
    }

    /// Reads the longest run of digits as an unsigned integer of the given width.
    pub fn parse_unsigned(&mut self, width: Width) -> (r: Result<u128, JsonError>)
        ensures
            match int_token(old(self)@, CharClass::Digit, 0, width.unsigned_max()) {
                Ok((v, n)) => {
                    &&& r == Ok::<u128, JsonError>(v as u128)
                    &&& final(self)@ == old(self)@.skip(n as int)
                },
                Err(e) => r == Err::<u128, JsonError>(e) && final(self)@ == old(self)@,
            },
            final(self).depth() == old(self).depth(),
    {
        let (run, rest) = split_run(self.input, CharClass::Digit);
        match parse_unsigned_text(run, width) {
            Ok(v) => {
                self.input = rest;
                Ok(v)
            },
            Err(e) => Err(JsonError::ParseIntError(e)),
        }
    }

    /// Reads the longest run of digits and `-` as a signed integer of the given width.
    pub fn parse_signed(&mut self, width: Width) -> (r: Result<i128, JsonError>)
        ensures
            match int_token(
                old(self)@,
                CharClass::SignedDigit,
                width.least_signed(),
                width.signed_max(),
            ) {
                Ok((v, n)) => {
                    &&& r == Ok::<i128, JsonError>(v as i128)
                    &&& final(self)@ == old(self)@.skip(n as int)
                },
                Err(e) => r == Err::<i128, JsonError>(e) && final(self)@ == old(self)@,
            },
            final(self).depth() == old(self).depth(),
    {
        let (run, rest) = split_run(self.input, CharClass::SignedDigit);
        match parse_signed_text(run, width) {
            Ok(v) => {
                self.input = rest;
                Ok(v)
            },
            Err(e) => Err(JsonError::ParseIntError(e)),
        }
    }

    /// Reads a float token: `null`, or the longest run of digits, `-` and `.`.
    pub fn parse_float(&mut self) -> (r: Result<FloatToken<'de>, JsonError>)
        ensures
            match float_token(old(self)@) {
                Ok((v, n)) => {
                    &&& final(self)@ == old(self)@.skip(n as int)
                    &&& match v {
                        None => r == Ok::<FloatToken<'de>, JsonError>(FloatToken::NaN),
                        Some(text) => r matches Ok(FloatToken::Literal(lit)) && lit@ == text,
                    }
                },
                Err(e) => r == Err::<FloatToken<'de>, JsonError>(e) && final(self)@ == old(self)@,
            },
            final(self).depth() == old(self).depth(),
    {
        proof {
            reveal_strlit("null");
        }
        if self.eat("null") {
            return Ok(FloatToken::NaN);
        }
        let (run, rest) = split_run(self.input, CharClass::FloatDigit);
        match check_float_literal(run) {
            Ok(()) => {
                self.input = rest;
                Ok(FloatToken::Literal(run))
            },
            Err(e) => Err(JsonError::ParseFloatError(e)),
        }
    }

    /// Reads a boolean behind any whitespace.
    pub fn deserialize_bool(&mut self) -> (r: Result<bool, JsonError>)
        ensures
            match bool_token(skip_whitespace(old(self)@)) {
                Ok((v, n)) => r == Ok::<bool, JsonError>(v) && final(self)@ == skip_whitespace(
                    old(self)@,
                ).skip(n as int),
                Err(e) => {
                    &&& r == Err::<bool, JsonError>(e)
                    &&& final(self)@ == skip_whitespace(old(self)@)
                },
            },
            final(self).depth() == old(self).depth(),
    {
        self.trim_start();
        self.parse_bool()
    }

    /// Reads an `i8` behind any whitespace.
    pub fn deserialize_i8(&mut self) -> (r: Result<i8, JsonError>)
        ensures
            match int_token(skip_whitespace(old(self)@), CharClass::SignedDigit, -0x80, 0x7f) {
                Ok((v, n)) => r == Ok::<i8, JsonError>(v as i8) && final(self)@
                    == skip_whitespace(old(self)@).skip(n as int),
                Err(e) => {
                    &&& r == Err::<i8, JsonError>(e)
                    &&& final(self)@ == skip_whitespace(old(self)@)
                },
            },
            final(self).depth() == old(self).depth(),
    {
        self.trim_start();
        match self.parse_signed(Width::W8) {
            Ok(v) => Ok(v as i8),
            Err(e) => Err(e),
        }
    }

    /// Reads an `i16` behind any whitespace.
    pub fn deserialize_i16(&mut self) -> (r: Result<i16, JsonError>)
        ensures
            match int_token(skip_whitespace(old(self)@), CharClass::SignedDigit, -0x8000, 0x7fff) {
                Ok((v, n)) => r == Ok::<i16, JsonError>(v as i16) && final(self)@
                    == skip_whitespace(old(self)@).skip(n as int),
                Err(e) => {
                    &&& r == Err::<i16, JsonError>(e)
                    &&& final(self)@ == skip_whitespace(old(self)@)
                },
            },
            final(self).depth() == old(self).depth(),
    {
        self.trim_start();
        match self.parse_signed(Width::W16) {
            Ok(v) => Ok(v as i16),
            Err(e) => Err(e),
        }
    }

    /// Reads an `i32` behind any whitespace.
    pub fn deserialize_i32(&mut self) -> (r: Result<i32, JsonError>)
        ensures
            match int_token(
                skip_whitespace(old(self)@),
                CharClass::SignedDigit,
                -0x8000_0000,
                0x7fff_ffff,
            ) {
                Ok((v, n)) => r == Ok::<i32, JsonError>(v as i32) && final(self)@
                    == skip_whitespace(old(self)@).skip(n as int),
                Err(e) => {
                    &&& r == Err::<i32, JsonError>(e)
                    &&& final(self)@ == skip_whitespace(old(self)@)
                },
            },
            final(self).depth() == old(self).depth(),
    {
        self.trim_start();
        match self.parse_signed(Width::W32) {
            Ok(v) => Ok(v as i32),
            Err(e) => Err(e),
        }
    }

    /// Reads an `i64`, which is written as a string literal, behind any whitespace.
    pub fn deserialize_i64(&mut self) -> (r: Result<i64, JsonError>)
        ensures
            match quoted_int_token(skip_whitespace(old(self)@), i64::MIN as int, i64::MAX as int) {
                Ok((v, n)) => r == Ok::<i64, JsonError>(v as i64) && final(self)@
                    == skip_whitespace(old(self)@).skip(n as int),
                Err(e) => {
                    &&& r == Err::<i64, JsonError>(e)
                    &&& final(self)@ == behind_string(skip_whitespace(old(self)@))
                },
            },
            final(self).depth() == old(self).depth(),
    {
        self.trim_start();
        let text = self.parse_string()?;
        match parse_signed_text(cow_str(&text), Width::W64) {
            Ok(v) => Ok(v as i64),
            Err(e) => Err(JsonError::ParseIntError(e)),
        }
    }

    /// Reads an `i128`, which is written as a string literal, behind any whitespace.
    pub fn deserialize_i128(&mut self) -> (r: Result<i128, JsonError>)
        ensures
            match quoted_int_token(skip_whitespace(old(self)@), i128::MIN as int, i128::MAX as int) {
                Ok((v, n)) => r == Ok::<i128, JsonError>(v as i128) && final(self)@
                    == skip_whitespace(old(self)@).skip(n as int),
                Err(e) => {
                    &&& r == Err::<i128, JsonError>(e)
                    &&& final(self)@ == behind_string(skip_whitespace(old(self)@))
                },
            },
            final(self).depth() == old(self).depth(),
    {
        self.trim_start();
        let text = self.parse_string()?;
        match parse_signed_text(cow_str(&text), Width::W128) {
            Ok(v) => Ok(v),
            Err(e) => Err(JsonError::ParseIntError(e)),
        }
    }

    /// Reads a `u8` behind any whitespace.
    pub fn deserialize_u8(&mut self) -> (r: Result<u8, JsonError>)
        ensures
            match int_token(skip_whitespace(old(self)@), CharClass::Digit, 0, 0xff) {
                Ok((v, n)) => r == Ok::<u8, JsonError>(v as u8) && final(self)@
                    == skip_whitespace(old(self)@).skip(n as int),
                Err(e) => {
                    &&& r == Err::<u8, JsonError>(e)
                    &&& final(self)@ == skip_whitespace(old(self)@)
                },
            },
            final(self).depth() == old(self).depth(),
    {
        self.trim_start();
        match self.parse_unsigned(Width::W8) {
            Ok(v) => Ok(v as u8),
            Err(e) => Err(e),
        }
    }

    /// Reads a `u16` behind any whitespace.
    pub fn deserialize_u16(&mut self) -> (r: Result<u16, JsonError>)
        ensures
            match int_token(skip_whitespace(old(self)@), CharClass::Digit, 0, 0xffff) {
                Ok((v, n)) => r == Ok::<u16, JsonError>(v as u16) && final(self)@
                    == skip_whitespace(old(self)@).skip(n as int),
                Err(e) => {
                    &&& r == Err::<u16, JsonError>(e)
                    &&& final(self)@ == skip_whitespace(old(self)@)
                },
            },
            final(self).depth() == old(self).depth(),
    {
        self.trim_start();
        match self.parse_unsigned(Width::W16) {
            Ok(v) => Ok(v as u16),
            Err(e) => Err(e),
        }
    }

    /// Reads a `u32` behind any whitespace.
    pub fn deserialize_u32(&mut self) -> (r: Result<u32, JsonError>)
        ensures
            match int_token(skip_whitespace(old(self)@), CharClass::Digit, 0, 0xffff_ffff) {
                Ok((v, n)) => r == Ok::<u32, JsonError>(v as u32) && final(self)@
                    == skip_whitespace(old(self)@).skip(n as int),
                Err(e) => {
                    &&& r == Err::<u32, JsonError>(e)
                    &&& final(self)@ == skip_whitespace(old(self)@)
                },
            },
            final(self).depth() == old(self).depth(),
    {
        self.trim_start();
        match self.parse_unsigned(Width::W32) {
            Ok(v) => Ok(v as u32),
            Err(e) => Err(e),
        }
    }

    /// Reads a `u64`, which is written as a string literal, behind any whitespace.
    pub fn deserialize_u64(&mut self) -> (r: Result<u64, JsonError>)
        ensures
            match quoted_int_token(skip_whitespace(old(self)@), 0, u64::MAX as int) {
                Ok((v, n)) => r == Ok::<u64, JsonError>(v as u64) && final(self)@
                    == skip_whitespace(old(self)@).skip(n as int),
                Err(e) => {
                    &&& r == Err::<u64, JsonError>(e)
                    &&& final(self)@ == behind_string(skip_whitespace(old(self)@))
                },
            },
            final(self).depth() == old(self).depth(),
    {
        self.trim_start();
        let text = self.parse_string()?;
        match parse_unsigned_text(cow_str(&text), Width::W64) {
            Ok(v) => Ok(v as u64),
            Err(e) => Err(JsonError::ParseIntError(e)),
        }
    }

    /// Reads a `u128`, which is written as a string literal, behind any whitespace.
    pub fn deserialize_u128(&mut self) -> (r: Result<u128, JsonError>)
        ensures
            match quoted_int_token(skip_whitespace(old(self)@), 0, u128::MAX as int) {
                Ok((v, n)) => r == Ok::<u128, JsonError>(v as u128) && final(self)@
                    == skip_whitespace(old(self)@).skip(n as int),
                Err(e) => {
                    &&& r == Err::<u128, JsonError>(e)
                    &&& final(self)@ == behind_string(skip_whitespace(old(self)@))
                },
            },
            final(self).depth() == old(self).depth(),
    {
        self.trim_start();
        let text = self.parse_string()?;
        match parse_unsigned_text(cow_str(&text), Width::W128) {
            Ok(v) => Ok(v),
            Err(e) => Err(JsonError::ParseIntError(e)),
        }
    }

    /// Reads a float token behind any whitespace.
    pub fn deserialize_float(&mut self) -> (r: Result<FloatToken<'de>, JsonError>)
        ensures
            match float_token(skip_whitespace(old(self)@)) {
                Ok((v, n)) => {
                    &&& final(self)@ == skip_whitespace(old(self)@).skip(n as int)
                    &&& match v {
                        None => r == Ok::<FloatToken<'de>, JsonError>(FloatToken::NaN),
                        Some(text) => r matches Ok(FloatToken::Literal(lit)) && lit@ == text,
                    }
                },
                Err(e) => {
                    &&& r == Err::<FloatToken<'de>, JsonError>(e)
                    &&& final(self)@ == skip_whitespace(old(self)@)
                },
            },
            final(self).depth() == old(self).depth(),
    {
        self.trim_start();
        self.parse_float()
    }

    /// Reads a character, which is written as a string literal, behind any whitespace.
    pub fn deserialize_char(&mut self) -> (r: Result<char, JsonError>)
        ensures
            match char_token(skip_whitespace(old(self)@)) {
                Ok((v, n)) => r == Ok::<char, JsonError>(v) && final(self)@ == skip_whitespace(
                    old(self)@,
                ).skip(n as int),
                Err(e) => {
                    &&& r == Err::<char, JsonError>(e)
                    &&& final(self)@ == behind_string(skip_whitespace(old(self)@))
                },
            },
            final(self).depth() == old(self).depth(),
    {
        self.trim_start();
        let text = self.parse_string()?;
        let mut chs = cow_str(&text).chars();
        match chs.next() {
            Some(c) => Ok(c),
            None => Err(JsonError::UnexpectedToken('"')),
        }
    }

    /// Reads a string literal behind any whitespace.
    pub fn deserialize_str(&mut self) -> (r: Result<Cow<'de, str>, JsonError>)
        ensures
            match string_token(skip_whitespace(old(self)@)) {
                Ok((text, n)) => {
                    &&& r matches Ok(value) && value@ == text && (value matches Cow::Borrowed(_)
                        <==> !skip_whitespace(old(self)@).subrange(1, n - 1).contains('\\'))
                    &&& final(self)@ == skip_whitespace(old(self)@).skip(n as int)
                },
                Err(e) => {
                    &&& r == Err::<Cow<'de, str>, JsonError>(e)
                    &&& final(self)@ == skip_whitespace(old(self)@)
                },
            },
            final(self).depth() == old(self).depth(),
    {
        self.trim_start();
        self.parse_string()
    }

    /// Reads a string literal behind any whitespace into a string of its own.
    pub fn deserialize_string(&mut self) -> (r: Result<String, JsonError>)
        ensures
            match string_token(skip_whitespace(old(self)@)) {
                Ok((text, n)) => r matches Ok(value) && value@ == text && final(self)@
                    == skip_whitespace(old(self)@).skip(n as int),
                Err(e) => {
                    &&& r == Err::<String, JsonError>(e)
                    &&& final(self)@ == skip_whitespace(old(self)@)
                },
            },
            final(self).depth() == old(self).depth(),
    {
        match self.deserialize_str() {
            Ok(Cow::Borrowed(text)) => Ok(text.to_owned()),
            Ok(Cow::Owned(text)) => Ok(text),
            Err(e) => Err(e),
        }
    }

    /// Tells whether an optional value is present, behind any whitespace. An
    /// absent one is the literal `null`, which is read.
    pub fn deserialize_option(&mut self) -> (r: Result<bool, JsonError>)
        ensures
            match option_token(skip_whitespace(old(self)@)) {
                Ok((v, n)) => r == Ok::<bool, JsonError>(v) && final(self)@ == skip_whitespace(
                    old(self)@,
                ).skip(n as int),
                Err(e) => {
                    &&& r == Err::<bool, JsonError>(e)
                    &&& final(self)@ == skip_whitespace(old(self)@)
                },
            },
            final(self).depth() == old(self).depth(),
    {
        self.trim_start();
        if self.peek_char()? == 'n' {
            self.parse_unit()?;
            Ok(false)
        } else {
            assert(self@.skip(0) == self@);
            Ok(true)
        }
    }

    /// Reads the literal `null`.
    fn parse_unit(&mut self) -> (r: Result<(), JsonError>)
        ensures
            match unit_token(old(self)@) {
                Ok((v, n)) => r == Ok::<(), JsonError>(()) && final(self)@ == old(self)@.skip(
                    n as int,
                ),
                Err(e) => r == Err::<(), JsonError>(e) && final(self)@ == old(self)@,
            },
            final(self).depth() == old(self).depth(),
    {
        proof {
            reveal_strlit("null");
        }
        if self.eat("null") {
            Ok(())
        } else {
            Err(JsonError::UnexpectedToken(self.peek_char()?))
        }
    }

    /// Reads the literal `null` behind any whitespace.
    pub fn deserialize_unit(&mut self) -> (r: Result<(), JsonError>)
        ensures
            match unit_token(skip_whitespace(old(self)@)) {
                Ok((v, n)) => r == Ok::<(), JsonError>(()) && final(self)@ == skip_whitespace(
                    old(self)@,
                ).skip(n as int),
                Err(e) => {
                    &&& r == Err::<(), JsonError>(e)
                    &&& final(self)@ == skip_whitespace(old(self)@)
                },
            },
            final(self).depth() == old(self).depth(),
    {
        self.trim_start();
        self.parse_unit()
    }

    /// Tells the kind of the next value by its first character, behind any
    /// whitespace. The character stays unread.
    pub fn deserialize_any(&mut self) -> (r: Result<ValueKind, JsonError>)
        ensures
            r == value_kind(skip_whitespace(old(self)@)),
            final(self)@ == skip_whitespace(old(self)@),
            final(self).depth() == old(self).depth(),
    {
        self.trim_start();
        proof {
            if self@.len() > 0 {
                lemma_leading_byte(self@[0]);
            }
        }
        let byte = self.peek_u8()?;
        if byte == 110 {
            Ok(ValueKind::Unit)
        } else if byte == 116 || byte == 102 {
            Ok(ValueKind::Bool)
        } else if byte == 34 {
            Ok(ValueKind::Str)
        } else if (48 <= byte && byte <= 57) || byte == 45 {
            Ok(ValueKind::Number)
        } else if byte == 91 {
            Ok(ValueKind::Array)
        } else if byte == 123 {
            Ok(ValueKind::Object)
        } else {
            Err(JsonError::UnexpectedToken(self.peek_char()?))
        }
    }

    /// Opens a compound: reads `open` behind any whitespace and counts one
    /// more level of nesting.
    fn open(&mut self, open: char) -> (r: Result<(), JsonError>)
        ensures
            r == opening(skip_whitespace(old(self)@), open, old(self).depth()),
            r is Ok ==> final(self)@ == skip_whitespace(old(self)@).skip(1) && final(self).depth()
                == old(self).depth() + 1,
            r is Err ==> final(self)@ == skip_whitespace(old(self)@) && final(self).depth()
                == old(self).depth(),
    {
        self.trim_start();
        let ch = self.peek_char()?;
        if ch != open {
            return Err(JsonError::UnexpectedToken(ch));
        }
        if self.depth >= MAX_DEPTH {
            return Err(JsonError::OutOfRange);
        }
        self.advance(ch);
        self.depth = self.depth + 1;
        Ok(())
    }

    /// Closes a compound: reads `close` behind any whitespace and counts one
    /// level of nesting less.
    fn close(&mut self, close: char) -> (r: Result<(), JsonError>)
        ensures
            r == char_expected(skip_whitespace(old(self)@), close),
            r is Ok ==> final(self)@ == skip_whitespace(old(self)@).skip(1) && final(self).depth()
                == if old(self).depth() > 0 {
                (old(self).depth() - 1) as nat
            } else {
                0
            },
            r is Err ==> final(self)@ == skip_whitespace(old(self)@) && final(self).depth()
                == old(self).depth(),
    {
        self.trim_start();
        self.assert_next_char(close)?;
        if self.depth > 0 {
            self.depth = self.depth - 1;
        }
        Ok(())
    }

    /// Opens an array: reads `[` behind any whitespace. Fails with
    /// `OutOfRange` where `MAX_DEPTH` compounds are open already.
    pub fn begin_seq(&mut self) -> (r: Result<(), JsonError>)
        ensures
            r == opening(skip_whitespace(old(self)@), '[', old(self).depth()),
            r is Ok ==> final(self)@ == skip_whitespace(old(self)@).skip(1) && final(self).depth()
                == old(self).depth() + 1,
            r is Err ==> final(self)@ == skip_whitespace(old(self)@) && final(self).depth()
                == old(self).depth(),
    {
        self.open('[')
    }

    /// Closes an array: reads `]` behind any whitespace.
    pub fn end_seq(&mut self) -> (r: Result<(), JsonError>)
        ensures
            r == char_expected(skip_whitespace(old(self)@), ']'),
            r is Ok ==> final(self)@ == skip_whitespace(old(self)@).skip(1) && final(self).depth()
                == if old(self).depth() > 0 {
                (old(self).depth() - 1) as nat
            } else {
                0
            },
            r is Err ==> final(self)@ == skip_whitespace(old(self)@) && final(self).depth()
                == old(self).depth(),
    {
        self.close(']')
    }

    /// Opens an object: reads `{` behind any whitespace. Fails with
    /// `OutOfRange` where `MAX_DEPTH` compounds are open already.
    pub fn begin_map(&mut self) -> (r: Result<(), JsonError>)
        ensures
            r == opening(skip_whitespace(old(self)@), '{', old(self).depth()),
            r is Ok ==> final(self)@ == skip_whitespace(old(self)@).skip(1) && final(self).depth()
                == old(self).depth() + 1,
            r is Err ==> final(self)@ == skip_whitespace(old(self)@) && final(self).depth()
                == old(self).depth(),
    {
        self.open('{')
    }

    /// Closes an object: reads `}` behind any whitespace.
    pub fn end_map(&mut self) -> (r: Result<(), JsonError>)
        ensures
            r == char_expected(skip_whitespace(old(self)@), '}'),
            r is Ok ==> final(self)@ == skip_whitespace(old(self)@).skip(1) && final(self).depth()
                == if old(self).depth() > 0 {
                (old(self).depth() - 1) as nat
            } else {
                0
            },
            r is Err ==> final(self)@ == skip_whitespace(old(self)@) && final(self).depth()
                == old(self).depth(),
    {
        self.close('}')
    }

    /// Reads a byte string, which is written as a string literal of URL-safe
    /// base64, behind any whitespace.
    pub fn deserialize_bytes(&mut self) -> (r: Result<Vec<u8>, JsonError>)
        ensures
            match bytes_token(skip_whitespace(old(self)@)) {
                Ok((bytes, n)) => r matches Ok(v) && v@ == bytes && final(self)@
                    == skip_whitespace(old(self)@).skip(n as int),
                Err(e) => {
                    &&& r == Err::<Vec<u8>, JsonError>(e)
                    &&& final(self)@ == behind_string(skip_whitespace(old(self)@))
                },
            },
            final(self).depth() == old(self).depth(),
    {
        self.trim_start();
        let text = self.parse_string()?;
        let text = cow_str(&text);
        if text.as_bytes().len() > usize::MAX - 7 {
            return Err(JsonError::OutOfRange);
        }
        decoded_bytes(decode_url_safe(text))
    }

    /// Reads the start of a variant behind any whitespace: a bare tag, or
    /// the brace that opens a tagged payload. Fails with `OutOfRange` at a
    /// brace where `MAX_DEPTH` compounds are open already.
    pub fn begin_enum(&mut self) -> (r: Result<EnumHead<'de>, JsonError>)
        ensures
            match enum_head(skip_whitespace(old(self)@), old(self).depth()) {
                Ok((head, n)) => {
                    &&& final(self)@ == skip_whitespace(old(self)@).skip(n as int)
                    &&& match head {
                        Some(text) => r matches Ok(EnumHead::Unit(tag)) && tag@ == text
                            && final(self).depth() == old(self).depth(),
                        None => {
                            &&& r == Ok::<EnumHead<'de>, JsonError>(EnumHead::Tagged)
                            &&& final(self).depth() == old(self).depth() + 1
                        },
                    }
                },
                Err(e) => {
                    &&& r == Err::<EnumHead<'de>, JsonError>(e)
                    &&& final(self)@ == skip_whitespace(old(self)@)
                    &&& final(self).depth() == old(self).depth()
                },
            },
    {
        self.trim_start();
        let start = self.peek_char()?;
        if start == '"' {
            Ok(EnumHead::Unit(self.parse_string()?))
        } else if start == '{' {
            if self.depth >= MAX_DEPTH {
                return Err(JsonError::OutOfRange);
            }
            self.advance(start);
            self.depth = self.depth + 1;
            assert(self@ == skip_whitespace(old(self)@).skip(1));
            Ok(EnumHead::Tagged)
        } else {
            Err(JsonError::UnexpectedToken(start))
        }
    }

    /// Closes a tagged variant: reads `}` behind any whitespace.
    pub fn end_enum(&mut self) -> (r: Result<(), JsonError>)
        ensures
            r == char_expected(skip_whitespace(old(self)@), '}'),
            r is Ok ==> final(self)@ == skip_whitespace(old(self)@).skip(1) && final(self).depth()
                == if old(self).depth() > 0 {
                (old(self).depth() - 1) as nat
            } else {
                0
            },
            r is Err ==> final(self)@ == skip_whitespace(old(self)@) && final(self).depth()
                == old(self).depth(),
    {
        self.close('}')
    }

    /// Reads the tag of a tagged variant and the colon behind it.
    fn variant(&mut self) -> (r: Result<Cow<'de, str>, JsonError>)
        ensures
            match variant_token(old(self)@) {
                Ok((text, n)) => {
                    &&& r matches Ok(tag)
                    &&& tag@ == text
                    &&& final(self)@ == old(self)@.skip(n as int)
                },
                Err(e) => {
                    &&& r == Err::<Cow<'de, str>, JsonError>(e)
                    &&& final(self)@ == skip_whitespace(behind_string(skip_whitespace(old(self)@)))
                },
            },
            final(self).depth() == old(self).depth(),
    {
        let ghost s = self@;
        proof {
            lemma_skip_whitespace_twice(s);
        }
        let tag = self.deserialize_str()?;
        self.trim_start();
        let ghost rest = self@;
        proof {
            lemma_run_len(s, CharClass::Whitespace);
            let trimmed = skip_whitespace(s);
            lemma_string_body_len(trimmed.skip(1));
            let n = string_token(trimmed)->Ok_0.1;
            lemma_run_len(trimmed.skip(n as int), CharClass::Whitespace);
            assert(rest.len() <= s.len());
            if rest.len() > 0 {
                assert(rest.skip(1) == s.skip(s.len() - rest.len() + 1));
            }
        }
        self.assert_next_char(':')?;
        Ok(tag)
    }

    /// Refuses a payload where the variant carries none: fails with the
    /// character that starts the payload.
    fn unit_variant(&self) -> (r: Result<(), JsonError>)
        ensures
            r == match first_char(self@) {
                Ok(c) => Err::<(), JsonError>(JsonError::UnexpectedToken(c)),
                Err(e) => Err(e),
            },
    {
        Err(JsonError::UnexpectedToken(self.peek_char()?))
    }

    /// Tells whether another item follows before `close`, behind any
    /// whitespace, and reads the comma before an item that is not the first.
    fn item(&mut self, close: char, first: bool) -> (r: Result<bool, JsonError>)
        ensures
            match item_token(skip_whitespace(old(self)@), close, first) {
                Ok((more, n)) => r == Ok::<bool, JsonError>(more) && final(self)@
                    == skip_whitespace(old(self)@).skip(n as int),
                Err(e) => {
                    &&& r == Err::<bool, JsonError>(e)
                    &&& final(self)@ == skip_whitespace(old(self)@)
                },
            },
            final(self).depth() == old(self).depth(),
    {
        self.trim_start();
        assert(self@.skip(0) == self@);
        if self.peek_char()? == close {
            return Ok(false);
        }
        if !first {
            self.assert_next_char(',')?;
        }
        Ok(true)
    }

    /// Skips the items of an open compound up to the closing bracket, which
    /// stays unread.
    fn skip_items(&mut self, close: char) -> (r: Result<(), JsonError>)
        ensures
            match skipped_items(old(self)@, old(self).depth(), close, true) {
                Ok(rest) => {
                    &&& r == Ok::<(), JsonError>(())
                    &&& final(self)@ == rest
                    &&& final(self).depth() == old(self).depth()
                },
                Err(e) => r == Err::<(), JsonError>(e),
            },
        decreases old(self)@.len(), 1nat,
    {
        let mut first = true;
        loop
            invariant_except_break
                skipped_items(old(self)@, old(self).depth(), close, true) == skipped_items(
                    self@,
                    self.depth(),
                    close,
                    first,
                ),
            invariant
                self.depth() == old(self).depth(),
                self@.len() <= old(self)@.len(),
            ensures
                skipped_items(old(self)@, old(self).depth(), close, true) == Ok::<
                    Seq<char>,
                    JsonError,
                >(self@),
            decreases self@.len(),
        {
            let ghost s = self@;
            proof {
                lemma_skip_whitespace_len(s);
            }
            let more = self.item(close, first)?;
            if !more {
                assert(self@ == skip_whitespace(s)) by {
                    assert(skip_whitespace(s).skip(0) == skip_whitespace(s));
                }
                break ;
            }
            first = false;
            let ghost element = self@;
            self.skip_value()?;
            proof {
                lemma_skipped_value_is_shorter(element, self.depth());
            }
            if close != ']' {
                let ghost rest = self@;
                proof {
                    lemma_skip_whitespace_len(rest);
                }
                self.trim_start();
                self.assert_next_char(':')?;
                let ghost value = self@;
                proof {
                    assert(value == skip_whitespace(rest).skip(1));
                }
                self.skip_value()?;
                proof {
                    lemma_skipped_value_is_shorter(value, self.depth());
                }
            }
        }
        Ok(())
    }

    /// Skips one value of any kind behind any whitespace: `null`, `true` or
    /// `false`, a string, a number, or an array or an object of such values.
    /// Fails with `OutOfRange` where the value nests deeper than
    /// `MAX_DEPTH`. A value that is refused stays unread as a whole.
    pub fn deserialize_ignored_any(&mut self) -> (r: Result<(), JsonError>)
        ensures
            match skipped_value(old(self)@, old(self).depth()) {
                Ok(rest) => r == Ok::<(), JsonError>(()) && final(self)@ == rest,
                Err(e) => r == Err::<(), JsonError>(e) && final(self)@ == skip_whitespace(
                    old(self)@,
                ),
            },
            final(self).depth() == old(self).depth(),
    {
        proof {
            lemma_skip_whitespace_twice(self@);
        }
        self.trim_start();
        let start = self.input;
        let depth = self.depth;
        match self.skip_value() {
            Ok(()) => Ok(()),
            Err(e) => {
                self.input = start;
                self.depth = depth;
                Err(e)
            },
        }
    }

    /// Skips one value of any kind behind any whitespace.
    fn skip_value(&mut self) -> (r: Result<(), JsonError>)
        ensures
            match skipped_value(old(self)@, old(self).depth()) {
                Ok(rest) => {
                    &&& r == Ok::<(), JsonError>(())
                    &&& final(self)@ == rest
                    &&& final(self).depth() == old(self).depth()
                },
                Err(e) => r == Err::<(), JsonError>(e),
            },
        decreases old(self)@.len(), 0nat,
    {
        proof {
            lemma_run_len(self@, CharClass::Whitespace);
        }
        let kind = self.deserialize_any()?;
        let ghost t = self@;
        match kind {
            ValueKind::Unit => self.parse_unit(),
            ValueKind::Bool => match self.parse_bool() {
                Ok(_) => Ok(()),
                Err(e) => Err(e),
            },
            ValueKind::Str => match self.parse_string() {
                Ok(_) => Ok(()),
                Err(e) => Err(e),
            },
            ValueKind::Number => match self.parse_float() {
                Ok(_) => Ok(()),
                Err(e) => Err(e),
            },
            ValueKind::Array => {
                proof {
                    lemma_run_len_is(t, CharClass::Whitespace, 0);
                    assert(t.skip(0) == t);
                }
                self.begin_seq()?;
                self.skip_items(']')?;
                proof {
                    lemma_skipped_items_stop(t.skip(1), (old(self).depth() + 1) as nat, ']', true);
                    lemma_run_len_is(self@, CharClass::Whitespace, 0);
                    assert(self@.skip(0) == self@);
                }
                self.end_seq()
            },
            ValueKind::Object => {
                proof {
                    lemma_run_len_is(t, CharClass::Whitespace, 0);
                    assert(t.skip(0) == t);
                }
                self.begin_map()?;
                self.skip_items('}')?;
                proof {
                    lemma_skipped_items_stop(t.skip(1), (old(self).depth() + 1) as nat, '}', true);
                    lemma_run_len_is(self@, CharClass::Whitespace, 0);
                    assert(self@.skip(0) == self@);
                }
                self.end_map()
            },
        }
    }

    /// Moves the cursor past its first character, which is `ch`.
    fn advance(&mut self, ch: char)
        requires
            old(self)@.len() > 0,
            old(self)@[0] == ch,
        ensures
            final(self)@ == old(self)@.drop_first(),
            final(self).depth() == old(self).depth(),
    {
        proof {
            lemma_encode_utf8_step(self@, 0);
            assert(self@.take(0) == Seq::<char>::empty());
            assert(encode_utf8(self@.take(0)).len() == 0);
        }
        let (_, rest) = split_chars(self.input, Ghost(1), len_utf8(ch));
        self.input = rest;
    }
}

/// The cursor over the items of an open array or object: it holds the
/// decoder and knows whether an item was read yet, so that a comma is asked
/// for before every item but the first.
pub struct CommaSeparated<'a, 'de: 'a> {
    /// The decoder, from which the caller reads each item.
    pub de: &'a mut Deserializer<'de>,
    /// Whether no item was read yet.
    pub first: bool,
}

impl<'a, 'de> CommaSeparated<'a, 'de> {
    /// A cursor before the first item.
    pub fn new(de: &'a mut Deserializer<'de>) -> (r: Self)
        ensures
            r.first,
            *r.de == *old(de),
            *final(r.de) == *final(de),
    {
        CommaSeparated { de, first: true }
    }

    /// Tells whether another item follows before `close`, behind any
    /// whitespace, and reads the comma before an item that is not the first.
    fn next_item(&mut self, close: char) -> (r: Result<bool, JsonError>)
        ensures
            match item_token(skip_whitespace(old(self).de@), close, old(self).first) {
                Ok((more, n)) => r == Ok::<bool, JsonError>(more) && final(self).de@
                    == skip_whitespace(old(self).de@).skip(n as int) && final(self).first == (
                old(self).first && !more),
                Err(e) => r == Err::<bool, JsonError>(e) && final(self).de@ == skip_whitespace(
                    old(self).de@,
                ) && final(self).first == old(self).first,
            },
            final(self).de.depth() == old(self).de.depth(),
            *final(final(self).de) == *final(old(self).de),
    {
        let more = self.de.item(close, self.first)?;
        if more {
            self.first = false;
        }
        Ok(more)
    }

    /// Tells whether another element of the array follows, and reads the
    /// comma before it. The closing bracket stays unread.
    pub fn next_element(&mut self) -> (r: Result<bool, JsonError>)
        ensures
            match item_token(skip_whitespace(old(self).de@), ']', old(self).first) {
                Ok((more, n)) => r == Ok::<bool, JsonError>(more) && final(self).de@
                    == skip_whitespace(old(self).de@).skip(n as int) && final(self).first == (
                old(self).first && !more),
                Err(e) => r == Err::<bool, JsonError>(e) && final(self).de@ == skip_whitespace(
                    old(self).de@,
                ) && final(self).first == old(self).first,
            },
            final(self).de.depth() == old(self).de.depth(),
            *final(final(self).de) == *final(old(self).de),
    {
        self.next_item(']')
    }

    /// Tells whether another key of the object follows, and reads the comma
    /// before it. The closing brace stays unread.
    pub fn next_key(&mut self) -> (r: Result<bool, JsonError>)
        ensures
            match item_token(skip_whitespace(old(self).de@), '}', old(self).first) {
                Ok((more, n)) => r == Ok::<bool, JsonError>(more) && final(self).de@
                    == skip_whitespace(old(self).de@).skip(n as int) && final(self).first == (
                old(self).first && !more),
                Err(e) => r == Err::<bool, JsonError>(e) && final(self).de@ == skip_whitespace(
                    old(self).de@,
                ) && final(self).first == old(self).first,
            },
            final(self).de.depth() == old(self).de.depth(),
            *final(final(self).de) == *final(old(self).de),
    {
        self.next_item('}')
    }

    /// Reads the colon between a key and its value, behind any whitespace.
    pub fn next_value(&mut self) -> (r: Result<(), JsonError>)
        ensures
            r == char_expected(skip_whitespace(old(self).de@), ':'),
            r is Ok ==> final(self).de@ == skip_whitespace(old(self).de@).skip(1),
            r is Err ==> final(self).de@ == skip_whitespace(old(self).de@),
            final(self).first == old(self).first,
            final(self).de.depth() == old(self).de.depth(),
            *final(final(self).de) == *final(old(self).de),
    {
        self.de.trim_start();
        self.de.assert_next_char(':')
    }
}

/// The cursor over a tagged variant, behind its opening brace.
pub struct Enum<'a, 'de: 'a> {
    /// The decoder, from which the caller reads the payload.
    pub de: &'a mut Deserializer<'de>,
}

impl<'a, 'de> Enum<'a, 'de> {
    /// A cursor before the tag.
    pub fn new(de: &'a mut Deserializer<'de>) -> (r: Self)
        ensures
            *r.de == *old(de),
            *final(r.de) == *final(de),
    {
        Enum { de }
    }

    /// Reads the tag and the colon behind it.
    pub fn variant(&mut self) -> (r: Result<Cow<'de, str>, JsonError>)
        ensures
            match variant_token(old(self).de@) {
                Ok((text, n)) => {
                    &&& r matches Ok(tag)
                    &&& tag@ == text
                    &&& final(self).de@ == old(self).de@.skip(n as int)
                },
                Err(e) => {
                    &&& r == Err::<Cow<'de, str>, JsonError>(e)
                    &&& final(self).de@ == skip_whitespace(
                        behind_string(skip_whitespace(old(self).de@)),
                    )
                },
            },
            final(self).de.depth() == old(self).de.depth(),
            *final(final(self).de) == *final(old(self).de),
    {
        self.de.variant()
    }

    /// Refuses a payload where the variant carries none: fails with the
    /// character that starts the payload.
    pub fn unit_variant(&self) -> (r: Result<(), JsonError>)
        ensures
            r == match first_char(old(self.de)@) {
                Ok(c) => Err::<(), JsonError>(JsonError::UnexpectedToken(c)),
                Err(e) => Err(e),
            },
    {
        self.de.unit_variant()
    }
}

/// What a byte string is, given what its text decodes to: the bytes, or
/// the decoder's refusal as an error of the codec.
pub fn decoded_bytes(decoded: Result<Vec<u8>, Base64ErrorKind>) -> (r: Result<Vec<u8>, JsonError>)
    ensures
        r == match decoded {
            Ok(bytes) => Ok::<Vec<u8>, JsonError>(bytes),
            Err(e) => Err(JsonError::Base64Error(e)),
        },
{
    match decoded {
        Ok(bytes) => Ok(bytes),
        Err(e) => Err(JsonError::Base64Error(e)),
    }
}

/// The text of `text`, borrowed.
pub fn cow_str<'a>(text: &'a Cow<'_, str>) -> (r: &'a str)
    ensures
        r@ == text@,
{
    match text {
        Cow::Borrowed(s) => s,
        Cow::Owned(s) => s.as_str(),
    }
}

} // verus!

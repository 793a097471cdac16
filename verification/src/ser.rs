//! The encoder: an output sink to which every operation appends the text
//! of one value or one piece of framing.

use crate::bytes::{base64_len, base64_text, encode_url_safe};
use crate::error::JsonError;
use crate::escape::{escape_text, push_escaped, quoted};
use crate::grammar::{bytes_token, skip_whitespace};
use crate::laws::lemma_bytes_round_trip;
use crate::number::{format_signed, format_unsigned, int_text};
use std::borrow::Cow;
use vstd::prelude::*;
use vstd::string::StringExecFns;

verus! {

/// The text of a list of fragments: one after the other.
pub open spec fn concat(parts: Seq<Cow<'static, str>>) -> Seq<char>
    decreases parts.len(),
{
    if parts.len() == 0 {
        Seq::empty()
    } else {
        concat(parts.drop_last()) + parts.last()@
    }
}

/// The encoder's state: the fragments written so far, in order.
pub struct Serializer {
    parts: Vec<Cow<'static, str>>,
}

impl View for Serializer {
    type V = Seq<char>;

    /// The text written so far.
    closed spec fn view(&self) -> Seq<char> {
        concat(self.parts@)
    }
}

/// `text` between two quotes, as it stands.
pub open spec fn in_quotes(text: Seq<char>) -> Seq<char> {
    seq!['"'] + text + seq!['"']
}

/// How a boolean is written.
pub open spec fn bool_text(v: bool) -> Seq<char> {
    if v {
        seq!['1']
    } else {
        seq!['0']
    }
}

/// How the unit value and an absent optional value are written.
pub open spec fn unit_text() -> Seq<char> {
    seq!['n', 'u', 'l', 'l']
}

/// What stands before an item of a compound: nothing before the first,
/// a comma before every other.
pub open spec fn separator(first: bool) -> Seq<char> {
    if first {
        Seq::empty()
    } else {
        seq![',']
    }
}

/// How a tagged variant starts: the brace, the tag as a string, the colon.
pub open spec fn variant_start(variant: Seq<char>) -> Seq<char> {
    seq!['{'] + quoted(variant) + seq![':']
}

/// Whether `bits` are the bits of a finite `f32`: one whose exponent is not
/// all ones, as that of an infinity and of a NaN is.
pub open spec fn finite_f32_bits(bits: u32) -> bool {
    (bits >> 23) & 0xff != 0xff
}

/// Whether `bits` are the bits of a finite `f64`: one whose exponent is not
/// all ones, as that of an infinity and of a NaN is.
pub open spec fn finite_f64_bits(bits: u64) -> bool {
    (bits >> 52) & 0x7ff != 0x7ff
}

/// Accepts the bits of a finite `f32`, which can be written, and refuses
/// those of an infinity and of a NaN.
pub fn check_f32_bits(bits: u32) -> (r: Result<(), JsonError>)
    ensures
        r == if finite_f32_bits(bits) {
            Ok::<(), JsonError>(())
        } else {
            Err(JsonError::OutOfRange)
        },
{
    if (bits >> 23) & 0xff != 0xff {
        Ok(())
    } else {
        Err(JsonError::OutOfRange)
    }
}

/// Accepts the bits of a finite `f64`, which can be written, and refuses
/// those of an infinity and of a NaN.
pub fn check_f64_bits(bits: u64) -> (r: Result<(), JsonError>)
    ensures
        r == if finite_f64_bits(bits) {
            Ok::<(), JsonError>(())
        } else {
            Err(JsonError::OutOfRange)
        },
{
    if (bits >> 52) & 0x7ff != 0x7ff {
        Ok(())
    } else {
        Err(JsonError::OutOfRange)
    }
}

/// The text that was written, as one string.
pub fn to_string(serializer: &Serializer) -> (r: String)
    ensures
        r@ == serializer@,
{
    let mut result = String::new();
    let mut i: usize = 0;
    while i < serializer.parts.len()
        invariant
            0 <= i <= serializer.parts.len(),
            result@ == concat(serializer.parts@.take(i as int)),
        decreases serializer.parts.len() - i,
    {
        proof {
            let next = serializer.parts@.take(i + 1);
            assert(next.drop_last() == serializer.parts@.take(i as int));
            assert(next.last() == serializer.parts@[i as int]);
        }
        let part = &serializer.parts[i];
        match part {
            Cow::Borrowed(text) => result.append(text),
            Cow::Owned(text) => result.append(text.as_str()),
        }
        i = i + 1;
    }
    assert(serializer.parts@.take(i as int) == serializer.parts@);
    result
}

impl Serializer {
    /// An encoder that has written nothing.
    pub fn new() -> (r: Self)
        ensures
            r@ == Seq::<char>::empty(),
    {
        Serializer { parts: Vec::new() }
    }

    /// Appends a fixed fragment.
    pub fn append(&mut self, data: &'static str)
        ensures
            final(self)@ == old(self)@ + data@,
    {
        proof {
            let after = self.parts@.push(Cow::Borrowed(data));
            assert(after.drop_last() == self.parts@);
        }
        self.parts.push(Cow::Borrowed(data));
    }

    /// Appends a fragment that was built for this value.
    pub fn append_string(&mut self, data: String)
        ensures
            final(self)@ == old(self)@ + data@,
    {
        proof {
            let after = self.parts@.push(Cow::Owned(data));
            assert(after.drop_last() == self.parts@);
        }
        self.parts.push(Cow::Owned(data));
    }

    /// Appends `num` between two quotes, as it stands.
    pub fn serialize_simple_string(&mut self, num: String)
        ensures
            final(self)@ == old(self)@ + in_quotes(num@),
    {
        proof {
            reveal_strlit("\"");
        }
        let ghost text = num@;
        self.append("\"");
        self.append_string(num);
        self.append("\"");
        assert(self@ == old(self)@ + in_quotes(text)) by {
            assert("\""@ == seq!['"']);
            assert(old(self)@ + "\""@ + text + "\""@ == old(self)@ + (seq!['"'] + text + seq!['"']));
        }
    }

    /// Writes a boolean: `1` or `0`.
    pub fn serialize_bool(&mut self, v: bool)
        ensures
            final(self)@ == old(self)@ + bool_text(v),
    {
        proof {
            reveal_strlit("1");
            reveal_strlit("0");
            assert("1"@ == seq!['1']);
            assert("0"@ == seq!['0']);
        }
        self.append(
            if v {
                "1"
            } else {
                "0"
            },
        );
    }

    /// Writes an `i8` as a bare decimal literal.
    pub fn serialize_i8(&mut self, v: i8)
        ensures
            final(self)@ == old(self)@ + int_text(v as int),
    {
        self.append_string(format_signed(v as i128));
    }

    /// Writes an `i16` as a bare decimal literal.
    pub fn serialize_i16(&mut self, v: i16)
        ensures
            final(self)@ == old(self)@ + int_text(v as int),
    {
        self.append_string(format_signed(v as i128));
    }

    /// Writes an `i32` as a bare decimal literal.
    pub fn serialize_i32(&mut self, v: i32)
        ensures
            final(self)@ == old(self)@ + int_text(v as int),
    {
        self.append_string(format_signed(v as i128));
    }

    /// Writes an `i64` as a decimal literal in quotes.
    pub fn serialize_i64(&mut self, v: i64)
        ensures
            final(self)@ == old(self)@ + in_quotes(int_text(v as int)),
    {
        self.serialize_simple_string(format_signed(v as i128));
    }

    /// Writes an `i128` as a decimal literal in quotes.
    pub fn serialize_i128(&mut self, v: i128)
        ensures
            final(self)@ == old(self)@ + in_quotes(int_text(v as int)),
    {
        self.serialize_simple_string(format_signed(v));
    }

    /// Writes a `u8` as a bare decimal literal.
    pub fn serialize_u8(&mut self, v: u8)
        ensures
            final(self)@ == old(self)@ + int_text(v as int),
    {
        self.append_string(format_unsigned(v as u128));
    }

    /// Writes a `u16` as a bare decimal literal.
    pub fn serialize_u16(&mut self, v: u16)
        ensures
            final(self)@ == old(self)@ + int_text(v as int),
    {
        self.append_string(format_unsigned(v as u128));
    }

    /// Writes a `u32` as a bare decimal literal.
    pub fn serialize_u32(&mut self, v: u32)
        ensures
            final(self)@ == old(self)@ + int_text(v as int),
    {
        self.append_string(format_unsigned(v as u128));
    }

    /// Writes a `u64` as a decimal literal in quotes.
    pub fn serialize_u64(&mut self, v: u64)
        ensures
            final(self)@ == old(self)@ + in_quotes(int_text(v as int)),
    {
        self.serialize_simple_string(format_unsigned(v as u128));
    }

    /// Writes a `u128` as a decimal literal in quotes.
    pub fn serialize_u128(&mut self, v: u128)
        ensures
            final(self)@ == old(self)@ + in_quotes(int_text(v as int)),
    {
        self.serialize_simple_string(format_unsigned(v));
    }

    /// Writes a character as a string of that one character.
    pub fn serialize_char(&mut self, v: char)
        ensures
            final(self)@ == old(self)@ + quoted(seq![v]),
    {
        let mut text = String::new();
        text.push(v);
        assert(text@ == seq![v]);
        self.serialize_str(text.as_str());
    }

    /// Writes a string: its text between quotes, with the quote, the
    /// backslash, the slash and the control characters escaped.
    pub fn serialize_str(&mut self, v: &str)
        ensures
            final(self)@ == old(self)@ + quoted(v@),
    {
        let mut text = String::new();
        push_escaped(&mut text, v);
        assert(text@ == escape_text(v@));
        self.serialize_simple_string(text);
    }

    /// Writes a byte string as URL-safe base64 in quotes, which reads back
    /// as the same bytes whatever follows it. Fails with `OutOfRange`, and
    /// writes nothing, where the text would be too long to be read back.
    pub fn serialize_bytes(&mut self, v: &[u8]) -> (r: Result<(), JsonError>)
        ensures
            match base64_len(v@.len()) {
                Some(n) => {
                    &&& r == Ok::<(), JsonError>(())
                    &&& final(self)@ == old(self)@ + in_quotes(base64_text(v@))
                    &&& base64_text(v@).len() == n
                    &&& forall|rest: Seq<char>|
                        bytes_token(skip_whitespace(#[trigger] (in_quotes(base64_text(v@)) + rest)))
                            == Ok::<(Seq<u8>, nat), JsonError>((v@, n + 2))
                },
                None => r == Err::<(), JsonError>(JsonError::OutOfRange) && final(self)@ == old(self)@,
            },
    {
        let groups = if v.len() % 3 == 0 {
            v.len() / 3
        } else {
            v.len() / 3 + 1
        };
        assert(groups == (v@.len() + 2) / 3);
        if groups > (usize::MAX - 7) / 4 {
            return Err(JsonError::OutOfRange);
        }
        let text = encode_url_safe(v);
        proof {
            assert forall|rest: Seq<char>|
                bytes_token(skip_whitespace(#[trigger] (in_quotes(text@) + rest))) == Ok::<
                    (Seq<u8>, nat),
                    JsonError,
                >((v@, text@.len() + 2)) by {
                lemma_bytes_round_trip(v@, text@, rest);
            }
        }
        self.serialize_simple_string(text);
        Ok(())
    }

    /// Writes the unit value: `null`.
    pub fn serialize_unit(&mut self)
        ensures
            final(self)@ == old(self)@ + unit_text(),
    {
        proof {
            reveal_strlit("null");
            assert("null"@ == unit_text());
        }
        self.append("null");
    }

    /// Writes an absent optional value: `null`.
    pub fn serialize_none(&mut self)
        ensures
            final(self)@ == old(self)@ + unit_text(),
    {
        self.serialize_unit()
    }

    /// Writes a variant that carries nothing: its tag as a string.
    pub fn serialize_unit_variant(&mut self, variant: &str)
        ensures
            final(self)@ == old(self)@ + quoted(variant@),
    {
        self.serialize_str(variant)
    }

    /// Starts a variant that carries one value: the brace, the tag, the
    /// colon. The value is written next, then the variant is closed.
    pub fn begin_newtype_variant(&mut self, variant: &str)
        ensures
            final(self)@ == old(self)@ + variant_start(variant@),
    {
        proof {
            reveal_strlit("{");
            reveal_strlit(":");
            assert("{"@ == seq!['{']);
            assert(":"@ == seq![':']);
        }
        self.append("{");
        self.serialize_str(variant);
        self.append(":");
        assert(self@ == old(self)@ + variant_start(variant@)) by {
            assert(old(self)@ + seq!['{'] + quoted(variant@) + seq![':'] == old(self)@ + (seq!['{']
                + quoted(variant@) + seq![':']));
        }
    }

    /// Closes a variant that carries one value.
    pub fn end_newtype_variant(&mut self)
        ensures
            final(self)@ == old(self)@ + seq!['}'],
    {
        proof {
            reveal_strlit("}");
            assert("}"@ == seq!['}']);
        }
        self.append("}");
    }

    /// Opens an array.
    pub fn serialize_seq<'a>(&'a mut self) -> (r: Compound<'a>)
        ensures
            r.ser@ == old(self)@ + seq!['['],
            r.first,
            r.close@ == seq![']'],
            *final(r.ser) == *final(self),
    {
        proof {
            reveal_strlit("[");
            reveal_strlit("]");
            assert("["@ == seq!['[']);
            assert("]"@ == seq![']']);
        }
        self.append("[");
        Compound { ser: self, first: true, close: "]" }
    }

    /// Opens a variant that carries several values by position.
    pub fn serialize_tuple_variant<'a>(&'a mut self, variant: &str) -> (r: Compound<'a>)
        ensures
            r.ser@ == old(self)@ + variant_start(variant@) + seq!['['],
            r.first,
            r.close@ == seq![']', '}'],
            *final(r.ser) == *final(self),
    {
        proof {
            reveal_strlit("[");
            reveal_strlit("]}");
            assert("["@ == seq!['[']);
            assert("]}"@ == seq![']', '}']);
        }
        self.begin_newtype_variant(variant);
        self.append("[");
        Compound { ser: self, first: true, close: "]}" }
    }

    /// Opens an object.
    pub fn serialize_map<'a>(&'a mut self) -> (r: Compound<'a>)
        ensures
            r.ser@ == old(self)@ + seq!['{'],
            r.first,
            r.close@ == seq!['}'],
            *final(r.ser) == *final(self),
    {
        proof {
            reveal_strlit("{");
            reveal_strlit("}");
            assert("{"@ == seq!['{']);
            assert("}"@ == seq!['}']);
        }
        self.append("{");
        Compound { ser: self, first: true, close: "}" }
    }

    /// Opens a variant that carries several values by name.
    pub fn serialize_struct_variant<'a>(&'a mut self, variant: &str) -> (r: Compound<'a>)
        ensures
            r.ser@ == old(self)@ + variant_start(variant@) + seq!['{'],
            r.first,
            r.close@ == seq!['}', '}'],
            *final(r.ser) == *final(self),
    {
        proof {
            reveal_strlit("{");
            reveal_strlit("}}");
            assert("{"@ == seq!['{']);
            assert("}}"@ == seq!['}', '}']);
        }
        self.begin_newtype_variant(variant);
        self.append("{");
        Compound { ser: self, first: true, close: "}}" }
    }
}

/// An open compound: the encoder, whether no item was written yet, and
/// the text that closes the compound.
pub struct Compound<'a> {
    /// The encoder, to which the caller writes each item.
    pub ser: &'a mut Serializer,
    /// Whether no item was written yet.
    pub first: bool,
    /// The closing text.
    pub close: &'static str,
}

impl<'a> Compound<'a> {
    /// Appends a fixed fragment.
    pub fn append(&mut self, data: &'static str)
        ensures
            final(self).ser@ == old(self).ser@ + data@,
            final(self).first == old(self).first,
            final(self).close == old(self).close,
            *final(final(self).ser) == *final(old(self).ser),
    {
        self.ser.append(data)
    }

    /// Tells whether no item was written yet, and notes that one is written now.
    pub fn first(&mut self) -> (b: bool)
        ensures
            b == old(self).first,
            !final(self).first,
            final(self).ser@ == old(self).ser@,
            final(self).close == old(self).close,
            *final(final(self).ser) == *final(old(self).ser),
    {
        let b = self.first;
        self.first = false;
        b
    }

    /// Starts an element of an array: writes the comma before every element
    /// but the first. The element is written next.
    pub fn serialize_element(&mut self)
        ensures
            final(self).ser@ == old(self).ser@ + separator(old(self).first),
            !final(self).first,
            final(self).close == old(self).close,
            *final(final(self).ser) == *final(old(self).ser),
    {
        proof {
            reveal_strlit(",");
            assert(","@ == seq![',']);
            assert(self.ser@ + Seq::<char>::empty() == self.ser@);
        }
        if !self.first() {
            self.append(",");
        }
    }

    /// Starts a key of an object: writes the comma before every key but the
    /// first. The key is written next.
    pub fn serialize_key(&mut self)
        ensures
            final(self).ser@ == old(self).ser@ + separator(old(self).first),
            !final(self).first,
            final(self).close == old(self).close,
            *final(final(self).ser) == *final(old(self).ser),
    {
        self.serialize_element()
    }

    /// Starts the value of a key: writes the colon. The value is written next.
    pub fn serialize_value(&mut self)
        ensures
            final(self).ser@ == old(self).ser@ + seq![':'],
            final(self).first == old(self).first,
            final(self).close == old(self).close,
            *final(final(self).ser) == *final(old(self).ser),
    {
        proof {
            reveal_strlit(":");
            assert(":"@ == seq![':']);
        }
        self.append(":");
    }

    /// Starts a named field: writes the comma before every field but the
    /// first, the name as a string, and the colon. The value is written next.
    pub fn serialize_field(&mut self, key: &str)
        ensures
            final(self).ser@ == old(self).ser@ + separator(old(self).first) + quoted(key@) + seq![
                ':',
            ],
            !final(self).first,
            final(self).close == old(self).close,
            *final(final(self).ser) == *final(old(self).ser),
    {
        self.serialize_element();
        self.ser.serialize_str(key);
        self.serialize_value();
    }

    /// Closes the compound: writes its closing text.
    pub fn end(self)
        ensures
            final(self.ser)@ == old(self.ser)@ + self.close@,
    {
        self.ser.append(self.close);
    }
}

} // verus!

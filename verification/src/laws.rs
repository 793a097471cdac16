//! What holds of the codec as a whole: every scalar that the encoder writes
//! is read back by the decoder, the framing that it writes around the items
//! of a compound is the framing that the decoder asks for, and whitespace
//! before a token changes nothing.

use crate::bytes::{is_base64_char, reads_as};
use crate::error::JsonError;
use crate::escape::{
    escape_char, escape_text, lemma_ascii_prefix_bytes, lemma_quoted_reads,
    lemma_string_body_len, quoted, string_token,
};
use crate::grammar::{
    bool_token, bytes_token, char_expected, char_token, enum_head, float_token, int_token,
    item_token, opening, option_token, quoted_int_token, skip_whitespace, skipped_items,
    skipped_value, unit_token, value_kind, variant_token,
};
use crate::number::{decimal_text, int_text, lemma_decimal_text, lemma_int_text_round_trip};
use crate::ser::{bool_text, in_quotes, separator, unit_text, variant_start};
use crate::text::{is_digit, lemma_run_len, lemma_run_len_is, run_len, CharClass};
use vstd::prelude::*;

verus! {

/// Whitespace before a text is skipped with the whitespace that the text
/// starts with. Every operation of the decoder that reads a token is
/// specified over `skip_whitespace` of what is unread, so whitespace put
/// before a token changes neither its value nor what is left behind it.
pub proof fn lemma_whitespace_is_skipped(ws: Seq<char>, s: Seq<char>)
    requires
        forall|i: int| 0 <= i < ws.len() ==> CharClass::Whitespace.has(#[trigger] ws[i]),
    ensures
        skip_whitespace(ws + s) == skip_whitespace(s),
{
    let all = ws + s;
    let k = run_len(s, CharClass::Whitespace) as int;
    lemma_run_len(s, CharClass::Whitespace);
    assert forall|i: int| 0 <= i < ws.len() + k implies CharClass::Whitespace.has(
        #[trigger] all[i],
    ) by {
        if i >= ws.len() {
            assert(all[i] == s[i - ws.len()]);
        } else {
            assert(all[i] == ws[i]);
        }
    }
    if ws.len() + k < all.len() {
        assert(all[ws.len() + k] == s[k]);
    }
    lemma_run_len_is(all, CharClass::Whitespace, ws.len() + k);
    assert(all.skip(ws.len() + k) == s.skip(k));
}

/// Whitespace before a token changes nothing of what any operation of the
/// decoder reads or leaves: each of them is specified as one of these
/// functions of the text behind its leading whitespace.
pub proof fn lemma_whitespace_before_a_token(
    ws: Seq<char>,
    s: Seq<char>,
    class: CharClass,
    lo: int,
    hi: int,
    c: char,
    depth: nat,
    first: bool,
)
    requires
        forall|i: int| 0 <= i < ws.len() ==> CharClass::Whitespace.has(#[trigger] ws[i]),
    ensures
        bool_token(skip_whitespace(ws + s)) == bool_token(skip_whitespace(s)),
        unit_token(skip_whitespace(ws + s)) == unit_token(skip_whitespace(s)),
        option_token(skip_whitespace(ws + s)) == option_token(skip_whitespace(s)),
        int_token(skip_whitespace(ws + s), class, lo, hi) == int_token(
            skip_whitespace(s),
            class,
            lo,
            hi,
        ),
        quoted_int_token(skip_whitespace(ws + s), lo, hi) == quoted_int_token(
            skip_whitespace(s),
            lo,
            hi,
        ),
        float_token(skip_whitespace(ws + s)) == float_token(skip_whitespace(s)),
        char_token(skip_whitespace(ws + s)) == char_token(skip_whitespace(s)),
        string_token(skip_whitespace(ws + s)) == string_token(skip_whitespace(s)),
        bytes_token(skip_whitespace(ws + s)) == bytes_token(skip_whitespace(s)),
        value_kind(skip_whitespace(ws + s)) == value_kind(skip_whitespace(s)),
        opening(skip_whitespace(ws + s), c, depth) == opening(skip_whitespace(s), c, depth),
        char_expected(skip_whitespace(ws + s), c) == char_expected(skip_whitespace(s), c),
        item_token(skip_whitespace(ws + s), c, first) == item_token(skip_whitespace(s), c, first),
        enum_head(skip_whitespace(ws + s), depth) == enum_head(skip_whitespace(s), depth),
{
    lemma_whitespace_is_skipped(ws, s);
}

/// Whitespace before a value of any kind, before an item of a compound or
/// its closing bracket, and before the tag of a variant changes nothing of
/// what is read and what is left.
pub proof fn lemma_whitespace_before_a_value(
    ws: Seq<char>,
    s: Seq<char>,
    depth: nat,
    close: char,
    first: bool,
)
    requires
        forall|i: int| 0 <= i < ws.len() ==> CharClass::Whitespace.has(#[trigger] ws[i]),
    ensures
        skipped_value(ws + s, depth) == skipped_value(s, depth),
        skipped_items(ws + s, depth, close, first) == skipped_items(s, depth, close, first),
        variant_token(ws + s) matches Ok((tag, n)) ==> variant_token(s) == Ok::<
            (Seq<char>, nat),
            JsonError,
        >((tag, (n - ws.len()) as nat)),
        variant_token(ws + s) matches Err(e) ==> variant_token(s) == Err::<
            (Seq<char>, nat),
            JsonError,
        >(e),
{
    lemma_whitespace_is_skipped(ws, s);
    lemma_run_len(ws + s, CharClass::Whitespace);
    lemma_run_len(s, CharClass::Whitespace);
    let t = skip_whitespace(s);
    if let Ok((text, n)) = string_token(t) {
        lemma_string_body_len(t.skip(1));
        lemma_run_len(t.skip(n as int), CharClass::Whitespace);
    }
}

/// Nothing is skipped before a text that does not start with whitespace.
pub proof fn lemma_nothing_to_skip(s: Seq<char>)
    requires
        s.len() > 0 ==> !CharClass::Whitespace.has(s[0]),
    ensures
        skip_whitespace(s) == s,
{
    lemma_run_len_is(s, CharClass::Whitespace, 0);
    assert(s.skip(0) == s);
}

/// A boolean reads back as itself, whatever follows it.
pub proof fn lemma_bool_round_trip(v: bool, rest: Seq<char>)
    ensures
        bool_token(skip_whitespace(bool_text(v) + rest)) == Ok::<(bool, nat), JsonError>((v, 1)),
{
    let s = bool_text(v) + rest;
    reveal_strlit("1");
    reveal_strlit("0");
    assert(s[0] == bool_text(v)[0]);
    lemma_nothing_to_skip(s);
    if v {
        assert("1"@ =~= s.subrange(0, 1));
    } else {
        assert("0"@ =~= s.subrange(0, 1));
        assert(!"1"@.is_prefix_of(s)) by {
            if "1"@.is_prefix_of(s) {
                assert(s.subrange(0, 1)[0] == '1');
            }
        }
    }
}

/// A boolean is read in both of its spellings, whatever follows it: `1`
/// and `true` as true, `0` and `false` as false.
pub proof fn lemma_bool_spellings(rest: Seq<char>)
    ensures
        bool_token("1"@ + rest) == Ok::<(bool, nat), JsonError>((true, 1)),
        bool_token("0"@ + rest) == Ok::<(bool, nat), JsonError>((false, 1)),
        bool_token("true"@ + rest) == Ok::<(bool, nat), JsonError>((true, 4)),
        bool_token("false"@ + rest) == Ok::<(bool, nat), JsonError>((false, 5)),
{
    reveal_strlit("1");
    reveal_strlit("0");
    reveal_strlit("true");
    reveal_strlit("false");
    assert("1"@ =~= ("1"@ + rest).subrange(0, 1));
    assert("0"@ =~= ("0"@ + rest).subrange(0, 1));
    assert("true"@ =~= ("true"@ + rest).subrange(0, 4));
    assert("false"@ =~= ("false"@ + rest).subrange(0, 5));
    assert(("0"@ + rest)[0] == '0');
    assert(("true"@ + rest)[0] == 't');
    assert(("false"@ + rest)[0] == 'f');
}

/// The unit value reads back as itself, whatever follows it.
pub proof fn lemma_unit_round_trip(rest: Seq<char>)
    ensures
        unit_token(skip_whitespace(unit_text() + rest)) == Ok::<((), nat), JsonError>(((), 4)),
{
    let s = unit_text() + rest;
    reveal_strlit("null");
    assert(s[0] == 'n');
    lemma_nothing_to_skip(s);
    assert("null"@ =~= s.subrange(0, 4));
}

/// An absent optional value reads back as absent, whatever follows it; and
/// a value whose text does not start with `n`, as every number, string,
/// boolean and compound does not, is found present, with nothing read.
pub proof fn lemma_option_round_trip(text: Seq<char>, rest: Seq<char>)
    requires
        text.len() > 0,
        text[0] != 'n',
        !CharClass::Whitespace.has(text[0]),
    ensures
        option_token(skip_whitespace(unit_text() + rest)) == Ok::<(bool, nat), JsonError>(
            (false, 4),
        ),
        option_token(skip_whitespace(text + rest)) == Ok::<(bool, nat), JsonError>((true, 0)),
{
    lemma_unit_round_trip(rest);
    let s = unit_text() + rest;
    assert(s[0] == 'n');
    lemma_nothing_to_skip(s);
    let t = text + rest;
    assert(t[0] == text[0]);
    lemma_nothing_to_skip(t);
}

/// The text of an integer holds digits behind an optional `-`.
pub proof fn lemma_int_text_chars(i: int)
    ensures
        int_text(i).len() >= 1,
        forall|k: int| 0 <= k < int_text(i).len() ==> CharClass::SignedDigit.has(
            #[trigger] int_text(i)[k],
        ),
        i >= 0 ==> forall|k: int| 0 <= k < int_text(i).len() ==> is_digit(#[trigger] int_text(i)[k]),
{
    if i < 0 {
        let d = decimal_text((-i) as nat);
        lemma_decimal_text((-i) as nat);
        assert forall|k: int| 0 <= k < int_text(i).len() implies CharClass::SignedDigit.has(
            #[trigger] int_text(i)[k],
        ) by {
            if k > 0 {
                assert(int_text(i)[k] == d[k - 1]);
            }
        }
    } else {
        lemma_decimal_text(i as nat);
    }
}

/// An unsigned integer that is written bare reads back as itself, where no
/// digit follows it.
pub proof fn lemma_unsigned_round_trip(v: nat, max: int, rest: Seq<char>)
    requires
        v <= max,
        rest.len() > 0 ==> !is_digit(rest[0]),
    ensures
        int_token(skip_whitespace(int_text(v as int) + rest), CharClass::Digit, 0, max) == Ok::<
            (int, nat),
            JsonError,
        >((v as int, int_text(v as int).len())),
{
    let t = int_text(v as int);
    let s = t + rest;
    lemma_int_text_chars(v as int);
    assert(s[0] == t[0]);
    lemma_nothing_to_skip(s);
    assert forall|k: int| 0 <= k < t.len() implies CharClass::Digit.has(#[trigger] s[k]) by {
        assert(s[k] == t[k]);
    }
    if t.len() < s.len() {
        assert(s[t.len() as int] == rest[0]);
    }
    lemma_run_len_is(s, CharClass::Digit, t.len() as int);
    assert(s.take(t.len() as int) == t);
    lemma_int_text_round_trip(v as int, 0, max);
}

/// A signed integer that is written bare reads back as itself, where
/// neither a digit nor a `-` follows it.
pub proof fn lemma_signed_round_trip(v: int, min: int, max: int, rest: Seq<char>)
    requires
        min <= v <= max,
        min < 0,
        rest.len() > 0 ==> !CharClass::SignedDigit.has(rest[0]),
    ensures
        int_token(skip_whitespace(int_text(v) + rest), CharClass::SignedDigit, min, max) == Ok::<
            (int, nat),
            JsonError,
        >((v, int_text(v).len())),
{
    let t = int_text(v);
    let s = t + rest;
    lemma_int_text_chars(v);
    assert(s[0] == t[0]);
    lemma_nothing_to_skip(s);
    assert forall|k: int| 0 <= k < t.len() implies CharClass::SignedDigit.has(#[trigger] s[k]) by {
        assert(s[k] == t[k]);
    }
    if t.len() < s.len() {
        assert(s[t.len() as int] == rest[0]);
    }
    lemma_run_len_is(s, CharClass::SignedDigit, t.len() as int);
    assert(s.take(t.len() as int) == t);
    lemma_int_text_round_trip(v, min, max);
}

/// A character that is written as itself.
pub open spec fn is_plain(c: char) -> bool {
    escape_char(c) == seq![c]
}

/// A text of plain characters is written as it stands.
pub proof fn lemma_plain_text(t: Seq<char>)
    requires
        forall|i: int| 0 <= i < t.len() ==> is_plain(#[trigger] t[i]),
    ensures
        escape_text(t) == t,
        quoted(t) == in_quotes(t),
    decreases t.len(),
{
    if t.len() > 0 {
        let u = t.drop_first();
        assert forall|i: int| 0 <= i < u.len() implies is_plain(#[trigger] u[i]) by {
            assert(u[i] == t[i + 1]);
        }
        lemma_plain_text(u);
        assert(seq![t[0]] + u == t);
    } else {
        assert(t == Seq::<char>::empty());
    }
}

/// An integer that is written in quotes reads back as itself, whatever
/// follows it.
pub proof fn lemma_quoted_int_round_trip(v: int, min: int, max: int, rest: Seq<char>)
    requires
        min <= v <= max,
        min <= 0,
    ensures
        quoted_int_token(skip_whitespace(in_quotes(int_text(v)) + rest), min, max) == Ok::<
            (int, nat),
            JsonError,
        >((v, in_quotes(int_text(v)).len())),
{
    let t = int_text(v);
    let s = in_quotes(t) + rest;
    lemma_int_text_chars(v);
    assert forall|i: int| 0 <= i < t.len() implies is_plain(#[trigger] t[i]) by {
        assert(CharClass::SignedDigit.has(t[i]));
    }
    lemma_plain_text(t);
    assert(s[0] == '"');
    lemma_nothing_to_skip(s);
    lemma_quoted_reads(t, rest);
    lemma_int_text_round_trip(v, min, max);
}

/// A string reads back as itself, whatever follows it.
pub proof fn lemma_string_round_trip(v: Seq<char>, rest: Seq<char>)
    ensures
        string_token(skip_whitespace(quoted(v) + rest)) == Ok::<(Seq<char>, nat), JsonError>(
            (v, quoted(v).len()),
        ),
{
    let s = quoted(v) + rest;
    assert(s[0] == '"');
    lemma_nothing_to_skip(s);
    lemma_quoted_reads(v, rest);
}

/// A character reads back as itself, whatever follows it.
pub proof fn lemma_char_round_trip(v: char, rest: Seq<char>)
    ensures
        char_token(skip_whitespace(quoted(seq![v]) + rest)) == Ok::<(char, nat), JsonError>(
            (v, quoted(seq![v]).len()),
        ),
{
    lemma_string_round_trip(seq![v], rest);
}

/// A byte string reads back as itself, whatever follows it, given of its
/// base64 text what the encoder states: that it holds characters of the
/// alphabet only, that it is short enough, and that it decodes to the bytes.
pub proof fn lemma_bytes_round_trip(v: Seq<u8>, text: Seq<char>, rest: Seq<char>)
    requires
        forall|i: int| 0 <= i < text.len() ==> is_base64_char(#[trigger] text[i]),
        text.len() + 7 <= usize::MAX,
        reads_as(text, v),
    ensures
        bytes_token(skip_whitespace(in_quotes(text) + rest)) == Ok::<(Seq<u8>, nat), JsonError>(
            (v, in_quotes(text).len()),
        ),
{
    let s = in_quotes(text) + rest;
    assert forall|i: int| 0 <= i < text.len() implies is_plain(#[trigger] text[i]) by {
        assert(is_base64_char(text[i]));
    }
    lemma_plain_text(text);
    assert(s[0] == '"');
    lemma_nothing_to_skip(s);
    lemma_quoted_reads(text, rest);
    lemma_ascii_prefix_bytes(text, text.len() as int);
    assert(text.take(text.len() as int) == text);
}

/// What the encoder writes around the items of a compound is what the
/// decoder asks for: before an item, nothing for the first and a comma for
/// every other, after which the item is found to follow; and the closing
/// bracket, at which the items are found to have ended.
pub proof fn lemma_separator_round_trip(item: Seq<char>, rest: Seq<char>, close: char, first: bool)
    requires
        close == ']' || close == '}',
        item.len() > 0,
        item[0] != close,
        !CharClass::Whitespace.has(item[0]),
    ensures
        item_token(skip_whitespace(separator(first) + item + rest), close, first) == Ok::<
            (bool, nat),
            JsonError,
        >((true, separator(first).len())),
        item_token(skip_whitespace(seq![close] + rest), close, first) == Ok::<
            (bool, nat),
            JsonError,
        >((false, 0)),
{
    let with_item = separator(first) + item + rest;
    assert(with_item[0] == if first {
        item[0]
    } else {
        ','
    });
    lemma_nothing_to_skip(with_item);
    let at_end = seq![close] + rest;
    assert(at_end[0] == close);
    lemma_nothing_to_skip(at_end);
}

/// What the encoder writes before the payload of a tagged variant is what
/// the decoder asks for behind the opening brace: the tag as a string and
/// the colon.
pub proof fn lemma_variant_round_trip(tag: Seq<char>, rest: Seq<char>)
    ensures
        variant_start(tag)[0] == '{',
        variant_token(variant_start(tag).skip(1) + rest) == Ok::<(Seq<char>, nat), JsonError>(
            (tag, (variant_start(tag).len() - 1) as nat),
        ),
{
    let s = variant_start(tag).skip(1) + rest;
    let colon = seq![':'] + rest;
    assert(s == quoted(tag) + colon);
    assert(s[0] == '"');
    lemma_nothing_to_skip(s);
    lemma_quoted_reads(tag, colon);
    assert(s.skip(quoted(tag).len() as int) == colon);
    assert(colon[0] == ':');
    lemma_nothing_to_skip(colon);
}

} // verus!

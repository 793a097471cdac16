//! String literals: the escape sequences, what a literal's body denotes,
//! and how a string is written so that it reads back as itself.

use crate::error::JsonError;
use crate::text::{lemma_run_len, lemma_run_len_is, run_len, CharClass};
use std::str::Chars;
use vstd::prelude::*;
use vstd::std_specs::iter::IteratorSpec;
use vstd::utf8::*;

verus! {

/// `char::from_u32` gives the character with the code `i` where `i` is a
/// Unicode scalar value, and nothing otherwise.
pub assume_specification[ char::from_u32 ](i: u32) -> (r: Option<char>)
    ensures
        r == if is_scalar(i) {
            Some(i as char)
        } else {
            None::<char>
        },
;

/// The value of a hexadecimal digit of either case.
pub open spec fn hex_value(c: char) -> Option<int> {
    if '0' <= c <= '9' {
        Some(c as int - '0' as int)
    } else if 'a' <= c <= 'f' {
        Some(c as int - 'a' as int + 10)
    } else if 'A' <= c <= 'F' {
        Some(c as int - 'A' as int + 10)
    } else {
        None
    }
}

/// The number that the first `n` characters of `s` denote as hexadecimal
/// digits. The leftmost fault decides the error: a character that is no
/// digit, or the end of the input.
pub open spec fn hex_code(s: Seq<char>, n: nat) -> Result<int, JsonError>
    decreases n,
{
    if n == 0 {
        Ok(0)
    } else {
        match hex_code(s, (n - 1) as nat) {
            Err(e) => Err(e),
            Ok(v) => if s.len() < n {
                Err(JsonError::UnexpectedEnd)
            } else {
                match hex_value(s[n - 1]) {
                    None => Err(JsonError::InvalidUnicodeEscapeSequence),
                    Some(d) => Ok(v * 16 + d),
                }
            },
        }
    }
}

/// The character that the one-letter escape `c` stands for.
pub open spec fn simple_escape(c: char) -> Option<char> {
    if c == '"' || c == '\\' || c == '/' {
        Some(c)
    } else if c == 'b' {
        Some('\x08')
    } else if c == 'f' {
        Some('\x0c')
    } else if c == 'n' {
        Some('\n')
    } else if c == 'r' {
        Some('\r')
    } else if c == 't' {
        Some('\t')
    } else {
        None
    }
}

/// What stands behind a backslash at the start of `s`: the character that
/// the escape denotes and the number of characters that it takes.
pub open spec fn escape_token(s: Seq<char>) -> Result<(char, nat), JsonError> {
    if s.len() == 0 {
        Err(JsonError::UnexpectedEnd)
    } else if s[0] == 'u' {
        match hex_code(s.skip(1), 4) {
            Err(e) => Err(e),
            Ok(v) => if is_scalar(v as u32) {
                Ok(((v as u32) as char, 5))
            } else {
                Err(JsonError::UnexpectedUnicodeEscapeSequence(v as u32))
            },
        }
    } else {
        match simple_escape(s[0]) {
            Some(c) => Ok((c, 1)),
            None => Err(JsonError::UnexpectedToken(s[0])),
        }
    }
}

/// The number of characters that an escape which fails has taken from the
/// input `s` behind the backslash: none where the input has ended, the
/// letter where it is not `u`, and behind a `u` the hexadecimal digits, four
/// at most, with the character that stands where one of the four is missing.
pub open spec fn escape_fault_len(s: Seq<char>) -> nat {
    if s.len() == 0 {
        0
    } else if s[0] != 'u' {
        1
    } else {
        let digits = run_len(s.skip(1), CharClass::HexDigit);
        if digits >= 4 {
            5
        } else if 1 + digits < s.len() {
            2 + digits
        } else {
            1 + digits
        }
    }
}

/// `r` with `prefix` put before its text and `k` added to its length.
pub open spec fn prepend(prefix: Seq<char>, k: nat, r: Result<(Seq<char>, nat), JsonError>) -> Result<
    (Seq<char>, nat),
    JsonError,
> {
    match r {
        Ok((text, n)) => Ok((prefix + text, k + n)),
        Err(e) => Err(e),
    }
}

/// What the body of a string literal denotes, where `s` starts behind the
/// opening quote: the text up to the closing quote with each escape
/// replaced, and the number of characters up to and with the closing quote.
pub open spec fn string_body(s: Seq<char>) -> Result<(Seq<char>, nat), JsonError>
    decreases s.len(),
{
    if s.len() == 0 {
        Err(JsonError::UnexpectedEnd)
    } else if s[0] == '"' {
        Ok((Seq::empty(), 1))
    } else if s[0] == '\\' {
        match escape_token(s.skip(1)) {
            Err(e) => Err(e),
            Ok((c, n)) => {
                proof {
                    lemma_escape_token_len(s.skip(1));
                }
                prepend(seq![c], 1 + n, string_body(s.skip(1 + n as int)))
            },
        }
    } else {
        prepend(seq![s[0]], 1, string_body(s.skip(1)))
    }
}

/// What a string literal at the start of `s` denotes: its text, and the
/// number of characters that the literal takes with both quotes.
pub open spec fn string_token(s: Seq<char>) -> Result<(Seq<char>, nat), JsonError> {
    if s.len() == 0 {
        Err(JsonError::UnexpectedEnd)
    } else if s[0] != '"' {
        Err(JsonError::UnexpectedToken(s[0]))
    } else {
        prepend(Seq::empty(), 1, string_body(s.skip(1)))
    }
}

/// An escape that is read takes no more characters than there are.
pub proof fn lemma_escape_token_len(s: Seq<char>)
    ensures
        escape_token(s) matches Ok((_, n)) ==> 1 <= n <= s.len(),
{
    reveal_with_fuel(hex_code, 5);
}

/// A body that is read takes no more characters than there are.
pub proof fn lemma_string_body_len(s: Seq<char>)
    ensures
        string_body(s) matches Ok((_, n)) ==> 1 <= n <= s.len(),
    decreases s.len(),
{
    if s.len() > 0 && s[0] != '"' {
        if s[0] == '\\' {
            lemma_escape_token_len(s.skip(1));
            if let Ok((c, n)) = escape_token(s.skip(1)) {
                lemma_string_body_len(s.skip(1 + n as int));
            }
        } else {
            lemma_string_body_len(s.skip(1));
        }
    }
}

/// Putting two prefixes before a result, one after the other, is putting
/// their concatenation before it.
pub proof fn lemma_prepend_twice(
    text: Seq<char>,
    k: nat,
    c: char,
    n: nat,
    tail: Result<(Seq<char>, nat), JsonError>,
)
    ensures
        prepend(text, k, prepend(seq![c], n, tail)) == prepend(text.push(c), k + n, tail),
{
    if let Ok((t, m)) = tail {
        assert(text + (seq![c] + t) == text.push(c) + t);
    }
}

/// A body that starts with a plain character denotes that character, then
/// what the rest denotes.
pub proof fn lemma_string_body_plain(s: Seq<char>)
    requires
        s.len() > 0,
        s[0] != '"',
        s[0] != '\\',
    ensures
        string_body(s) == prepend(seq![s[0]], 1, string_body(s.skip(1))),
{
}

/// A body that starts with an escape denotes the character of the escape,
/// then what the rest denotes.
pub proof fn lemma_string_body_escape(s: Seq<char>)
    requires
        s.len() > 0,
        s[0] == '\\',
    ensures
        match escape_token(s.skip(1)) {
            Ok((c, n)) => string_body(s) == prepend(
                seq![c],
                1 + n,
                string_body(s.skip(1 + n as int)),
            ) && 1 + n <= s.len(),
            Err(e) => string_body(s) == Err::<(Seq<char>, nat), JsonError>(e),
        },
{
    lemma_escape_token_len(s.skip(1));
}

/// Every character takes at least one byte.
pub proof fn lemma_encode_utf8_len(s: Seq<char>)
    ensures
        encode_utf8(s).len() >= s.len(),
    decreases s.len(),
{
    if s.len() > 0 {
        lemma_encode_utf8_len(s.drop_first());
    }
}

/// The value of `c` as a hexadecimal digit.
pub fn hex_digit(c: char) -> (r: Option<u32>)
    ensures
        match hex_value(c) {
            Some(d) => r == Some(d as u32) && 0 <= d < 16,
            None => r is None,
        },
{
    if '0' <= c && c <= '9' {
        Some(c as u32 - '0' as u32)
    } else if 'a' <= c && c <= 'f' {
        Some(c as u32 - 'a' as u32 + 10)
    } else if 'A' <= c && c <= 'F' {
        Some(c as u32 - 'A' as u32 + 10)
    } else {
        None
    }
}

/// Reads the escape that stands behind a backslash from `chs`, appends the
/// character that it denotes to `buf`, and adds the bytes that it took to
/// `at`. Where it fails, `buf` is as it was, `chs` has lost what
/// `escape_fault_len` counts, and `at` is as it was but for an escape of
/// four digits whose code is no character, which are counted.
#[verifier::loop_isolation(false)]
pub fn parse_escape(chs: &mut Chars, buf: &mut String, at: &mut usize) -> (r: Result<(), JsonError>)
    requires
        *old(at) + encode_utf8((*old(chs)).remaining()).len() <= usize::MAX,
    ensures
        match escape_token((*old(chs)).remaining()) {
            Ok((c, n)) => {
                &&& r == Ok::<(), JsonError>(())
                &&& (*final(chs)).remaining() == (*old(chs)).remaining().skip(n as int)
                &&& final(buf)@ == old(buf)@.push(c)
                &&& *final(at) == *old(at) + n
                &&& encode_utf8((*old(chs)).remaining().take(n as int)).len() == n
            },
            Err(e) => {
                &&& r == Err::<(), JsonError>(e)
                &&& (*final(chs)).remaining() == (*old(chs)).remaining().skip(
                    escape_fault_len((*old(chs)).remaining()) as int,
                )
                &&& final(buf)@ == old(buf)@
                &&& *final(at) == if e is UnexpectedUnicodeEscapeSequence {
                    *old(at) + 4
                } else {
                    *old(at) as int
                }
            },
        },
{
    let ghost s = (*chs).remaining();
    proof {
        lemma_encode_utf8_len(s);
    }
    let ch = match chs.next() {
        Some(c) => c,
        None => {
            assert(s.skip(0) == s);
            return Err(JsonError::UnexpectedEnd);
        },
    };
    proof {
        assert(s.drop_first() == s.skip(1));
    }
    let ch = match ch {
        '"' | '\\' | '/' => ch,
        'b' => '\x08',
        'f' => '\x0c',
        'n' => '\n',
        'r' => '\r',
        't' => '\t',
        'u' => {
            let ghost h = s.skip(1);
            let mut code: u32 = 0;
            let mut i: usize = 0;
            while i < 4
                invariant
                    0 <= i <= 4,
                    i <= h.len(),
                    h == s.skip(1),
                    s.len() > 0,
                    (*chs).remaining() == h.skip(i as int),
                    hex_code(h, i as nat) == Ok::<int, JsonError>(code as int),
                    i == 0 ==> code == 0,
                    i == 1 ==> code < 0x10,
                    i == 2 ==> code < 0x100,
                    i == 3 ==> code < 0x1000,
                    i == 4 ==> code < 0x10000,
                    forall|j: int| 0 <= j < i ==> #[trigger] h[j] <= '\u{7f}',
                    forall|j: int| 0 <= j < i ==> CharClass::HexDigit.has(#[trigger] h[j]),
                decreases 4 - i,
            {
                proof {
                    reveal_with_fuel(hex_code, 2);
                }
                let c = match chs.next() {
                    Some(c) => c,
                    None => {
                        proof {
                            lemma_hex_code_fails(h, i as nat + 1, 4);
                            lemma_run_len_is(h, CharClass::HexDigit, i as int);
                            assert(s.skip(1).skip(i as int) == s.skip(1 + i));
                        }
                        return Err(JsonError::UnexpectedEnd);
                    },
                };
                let d = match hex_digit(c) {
                    Some(d) => d,
                    None => {
                        proof {
                            lemma_hex_code_fails(h, i as nat + 1, 4);
                            lemma_run_len_is(h, CharClass::HexDigit, i as int);
                            assert(h.skip(i as int).drop_first() == h.skip(i + 1));
                            assert(s.skip(1).skip(i + 1) == s.skip(2 + i));
                        }
                        return Err(JsonError::InvalidUnicodeEscapeSequence);
                    },
                };
                proof {
                    assert(h.skip(i as int).drop_first() == h.skip(i + 1));
                }
                code = code * 16 + d;
                i = i + 1;
            }
            proof {
                assert forall|j: int| 0 <= j < 5 implies #[trigger] s[j] <= '\u{7f}' by {
                    if j > 0 {
                        assert(s[j] == h[j - 1]);
                    }
                }
                lemma_ascii_prefix_bytes(s, 5);
                lemma_run_len(h, CharClass::HexDigit);
                assert(s.skip(1).skip(4) == s.skip(5));
            }
            *at = *at + 4;
            match char::from_u32(code) {
                Some(c) => c,
                None => {
                    return Err(JsonError::UnexpectedUnicodeEscapeSequence(code));
                },
            }
        },
        token => {
            return Err(JsonError::UnexpectedToken(token));
        },
    };
    proof {
        lemma_ascii_prefix_bytes(s, 1);
        assert(s.drop_first() == s.skip(1));
        assert(s.len() >= 5 ==> s.skip(1).skip(4) == s.skip(5));
    }
    *at = *at + 1;
    buf.push(ch);
    Ok(())
}

/// Where the first `i` digits fail, so do the first `n >= i`, in the same way.
pub proof fn lemma_hex_code_fails(s: Seq<char>, i: nat, n: nat)
    requires
        i <= n,
        hex_code(s, i) is Err,
    ensures
        hex_code(s, n) == hex_code(s, i),
    decreases n - i,
{
    if i < n {
        lemma_hex_code_fails(s, i, (n - 1) as nat);
    }
}

/// `c` itself.
pub open spec fn same_char(c: char) -> char {
    c
}

/// A prefix of ASCII characters takes one byte for each of them.
pub proof fn lemma_ascii_prefix_bytes(s: Seq<char>, n: int)
    requires
        0 <= n <= s.len(),
    ensures
        (forall|i: int| 0 <= i < n ==> #[trigger] s[i] <= '\u{7f}') ==> encode_utf8(
            s.take(n),
        ).len() == n,
{
    let p = s.take(n);
    if forall|i: int| 0 <= i < n ==> #[trigger] s[i] <= '\u{7f}' {
        assert forall|i: int| 0 <= i < p.len() implies '\0' <= #[trigger] p[i] <= '\u{7f}' by {
            assert(p[i] == s[i]);
            assert('\0' <= same_char(p[i]));
        }
        is_ascii_chars_encode_utf8(p);
    }
}

/// The lower-case hexadecimal digit of a value below sixteen.
pub open spec fn hex_char(d: int) -> char {
    if d < 10 {
        (d + '0' as int) as char
    } else {
        (d - 10 + 'a' as int) as char
    }
}

/// How one character of a string is written: the quote, the backslash, the
/// slash and the control characters as escapes, every other character as itself.
pub open spec fn escape_char(c: char) -> Seq<char> {
    if c == '"' {
        seq!['\\', '"']
    } else if c == '\\' {
        seq!['\\', '\\']
    } else if c == '/' {
        seq!['\\', '/']
    } else if c == '\x08' {
        seq!['\\', 'b']
    } else if c == '\x0c' {
        seq!['\\', 'f']
    } else if c == '\n' {
        seq!['\\', 'n']
    } else if c == '\r' {
        seq!['\\', 'r']
    } else if c == '\t' {
        seq!['\\', 't']
    } else if ' ' > c {
        seq!['\\', 'u', '0', '0', hex_char(c as int / 16), hex_char(c as int % 16)]
    } else {
        seq![c]
    }
}

/// How the text of a string is written between its quotes.
pub open spec fn escape_text(s: Seq<char>) -> Seq<char>
    decreases s.len(),
{
    if s.len() == 0 {
        Seq::empty()
    } else {
        escape_char(s[0]) + escape_text(s.drop_first())
    }
}

/// A string as it is written: the escaped text between two quotes.
pub open spec fn quoted(s: Seq<char>) -> Seq<char> {
    seq!['"'] + escape_text(s) + seq!['"']
}

/// What is written for one character reads back as that character.
pub proof fn lemma_escape_char_reads(c: char, t: Seq<char>)
    ensures
        string_body(escape_char(c) + t) == prepend(
            seq![c],
            escape_char(c).len(),
            string_body(t),
        ),
{
    let e = escape_char(c);
    let s = e + t;
    if e.len() == 1 {
        assert(s[0] == c);
        assert(s.skip(1) == t);
    } else if e.len() == 2 {
        assert(s[0] == '\\');
        assert(s.skip(1)[0] == e[1]);
        assert(s.skip(2) == t);
        assert(escape_token(s.skip(1)) == Ok::<(char, nat), JsonError>((c, 1)));
    } else {
        let hi = c as int / 16;
        let lo = c as int % 16;
        let h = s.skip(1).skip(1);
        assert(s[0] == '\\');
        assert(s.skip(1)[0] == 'u');
        assert(h[0] == '0' && h[1] == '0' && h[2] == hex_char(hi) && h[3] == hex_char(lo));
        assert(hex_value(hex_char(hi)) == Some(hi));
        assert(hex_value(hex_char(lo)) == Some(lo));
        assert(hex_code(h, 4) == Ok::<int, JsonError>(c as int)) by {
            reveal_with_fuel(hex_code, 5);
        }
        assert((c as u32) as char == c);
        assert(escape_token(s.skip(1)) == Ok::<(char, nat), JsonError>((c, 5)));
        assert(s.skip(6) == t);
    }
}

/// What is written for a text, with the closing quote behind it, reads back
/// as that text, whatever follows the quote.
pub proof fn lemma_escape_text_reads(s: Seq<char>, rest: Seq<char>)
    ensures
        string_body(escape_text(s) + seq!['"'] + rest) == Ok::<(Seq<char>, nat), JsonError>(
            (s, escape_text(s).len() + 1),
        ),
    decreases s.len(),
{
    let end = seq!['"'] + rest;
    assert(escape_text(s) + seq!['"'] + rest == escape_text(s) + end);
    if s.len() == 0 {
        assert(escape_text(s) + end == end);
        assert(end[0] == '"');
        assert(s == Seq::<char>::empty());
    } else {
        let t = s.drop_first();
        lemma_escape_text_reads(t, rest);
        assert(escape_text(t) + seq!['"'] + rest == escape_text(t) + end);
        lemma_escape_char_reads(s[0], escape_text(t) + end);
        assert(escape_text(s) + end == escape_char(s[0]) + (escape_text(t) + end));
        assert(seq![s[0]] + t == s);
    }
}

/// A quoted string reads back as its text, whatever follows it.
pub proof fn lemma_quoted_reads(s: Seq<char>, rest: Seq<char>)
    ensures
        string_token(quoted(s) + rest) == Ok::<(Seq<char>, nat), JsonError>((s, quoted(s).len())),
{
    let whole = quoted(s) + rest;
    lemma_escape_text_reads(s, rest);
    assert(whole[0] == '"');
    assert(whole.skip(1) == escape_text(s) + seq!['"'] + rest);
    assert(Seq::<char>::empty() + s == s);
}

/// The lower-case hexadecimal digit of `d`.
fn hex_digit_char(d: u8) -> (c: char)
    requires
        d < 16,
    ensures
        c == hex_char(d as int),
{
    if d < 10 {
        (48u8 + d) as char
    } else {
        (87u8 + d) as char
    }
}

/// Appends to `out` what is written for the character `c`.
pub fn push_escaped_char(out: &mut String, c: char)
    ensures
        final(out)@ == old(out)@ + escape_char(c),
{
    let ghost before = out@;
    if c == '"' || c == '\\' || c == '/' {
        out.push('\\');
        out.push(c);
        assert(out@ == before + seq!['\\', c]);
    } else if c == '\x08' || c == '\x0c' || c == '\n' || c == '\r' || c == '\t' {
        let letter = if c == '\x08' {
            'b'
        } else if c == '\x0c' {
            'f'
        } else if c == '\n' {
            'n'
        } else if c == '\r' {
            'r'
        } else {
            't'
        };
        out.push('\\');
        out.push(letter);
        assert(out@ == before + seq!['\\', letter]);
    } else if ' ' > c {
        let code = c as u32 as u8;
        let hi = hex_digit_char(code / 16);
        let lo = hex_digit_char(code % 16);
        out.push('\\');
        out.push('u');
        out.push('0');
        out.push('0');
        out.push(hi);
        out.push(lo);
        assert(out@ == before + seq!['\\', 'u', '0', '0', hi, lo]);
    } else {
        out.push(c);
        assert(out@ == before + seq![c]);
    }
}

/// Appends to `out` what is written for the text of `v`.
pub fn push_escaped(out: &mut String, v: &str)
    ensures
        final(out)@ == old(out)@ + escape_text(v@),
{
    let ghost before = out@;
    let mut chs = v.chars();
    let ghost mut k: int = 0;
    proof {
        assert(v@.take(0) == Seq::<char>::empty());
        assert(before + escape_text(v@.take(0)) == before);
    }
    loop
        invariant_except_break
            chs.remaining() == v@.skip(k),
        invariant
            0 <= k <= v@.len(),
            out@ == before + escape_text(v@.take(k)),
        ensures
            k == v@.len(),
        decreases v@.len() - k,
    {
        let c = match chs.next() {
            Some(c) => c,
            None => {
                break ;
            },
        };
        push_escaped_char(out, c);
        proof {
            lemma_escape_text_push(v@.take(k), c);
            assert(v@.take(k + 1) == v@.take(k).push(c));
            assert(v@.skip(k).drop_first() == v@.skip(k + 1));
            k = k + 1;
        }
    }
    proof {
        assert(v@.take(k) == v@);
    }
}

/// What is written for a text with one more character is what is written
/// for the text, then what is written for the character.
pub proof fn lemma_escape_text_push(s: Seq<char>, c: char)
    ensures
        escape_text(s.push(c)) == escape_text(s) + escape_char(c),
    decreases s.len(),
{
    if s.len() == 0 {
        assert(s.push(c).drop_first() == Seq::<char>::empty());
        assert(s.push(c)[0] == c);
        assert(escape_text(Seq::<char>::empty()) == Seq::<char>::empty());
        assert(escape_text(s.push(c)) == escape_char(c) + Seq::<char>::empty());
    } else {
        lemma_escape_text_push(s.drop_first(), c);
        assert(s.push(c).drop_first() == s.drop_first().push(c));
        assert(s.push(c)[0] == s[0]);
    }
}

} // verus!

//! Character classes, runs of characters, and slicing a `&str` at a character position.

use vstd::prelude::*;
use vstd::std_specs::iter::IteratorSpec;
use vstd::utf8::*;

verus! {

/// The classes of characters that the lexical rules speak of.
#[derive(Debug, Clone, Copy, PartialEq, Eq, Structural)]
pub enum CharClass {
    /// Space, tab, newline and carriage return: what may separate tokens.
    Whitespace,
    /// The ASCII decimal digits.
    Digit,
    /// The decimal digits and `-`.
    SignedDigit,
    /// The decimal digits, `-` and `.`.
    FloatDigit,
    /// The hexadecimal digits of either case.
    HexDigit,
}

/// An ASCII decimal digit.
pub open spec fn is_digit(c: char) -> bool {
    '0' <= c <= '9'
}

impl CharClass {
    /// Whether `c` belongs to the class.
    pub open spec fn has(self, c: char) -> bool {
        match self {
            CharClass::Whitespace => c == ' ' || c == '\t' || c == '\n' || c == '\r',
            CharClass::Digit => is_digit(c),
            CharClass::SignedDigit => is_digit(c) || c == '-',
            CharClass::FloatDigit => is_digit(c) || c == '-' || c == '.',
            CharClass::HexDigit => is_digit(c) || ('a' <= c <= 'f') || ('A' <= c <= 'F'),
        }
    }

    /// Whether `c` belongs to the class.
    pub fn contains(self, c: char) -> (b: bool)
        ensures
            b == self.has(c),
    {
        match self {
            CharClass::Whitespace => c == ' ' || c == '\t' || c == '\n' || c == '\r',
            CharClass::Digit => '0' <= c && c <= '9',
            CharClass::SignedDigit => ('0' <= c && c <= '9') || c == '-',
            CharClass::FloatDigit => ('0' <= c && c <= '9') || c == '-' || c == '.',
            CharClass::HexDigit => ('0' <= c && c <= '9') || ('a' <= c && c <= 'f') || ('A' <= c
                && c <= 'F'),
        }
    }
}

/// The length of the longest prefix of `s` whose characters all belong to `class`.
pub open spec fn run_len(s: Seq<char>, class: CharClass) -> nat
    decreases s.len(),
{
    if s.len() > 0 && class.has(s[0]) {
        1 + run_len(s.drop_first(), class)
    } else {
        0
    }
}

/// `run_len` is a position in `s`, everything before it belongs to the class,
/// and the character at it, if there is one, does not.
pub proof fn lemma_run_len(s: Seq<char>, class: CharClass)
    ensures
        run_len(s, class) <= s.len(),
        forall|i: int| 0 <= i < run_len(s, class) ==> class.has(#[trigger] s[i]),
        run_len(s, class) < s.len() ==> !class.has(s[run_len(s, class) as int]),
    decreases s.len(),
{
    if s.len() > 0 && class.has(s[0]) {
        let t = s.drop_first();
        lemma_run_len(t, class);
        assert forall|i: int| 0 <= i < run_len(s, class) implies class.has(#[trigger] s[i]) by {
            if i > 0 {
                assert(s[i] == t[i - 1]);
            }
        }
        if run_len(s, class) < s.len() {
            assert(s[run_len(s, class) as int] == t[run_len(t, class) as int]);
        }
    }
}

/// A position with the two properties of `lemma_run_len` is `run_len`.
pub proof fn lemma_run_len_is(s: Seq<char>, class: CharClass, k: int)
    requires
        0 <= k <= s.len(),
        forall|i: int| 0 <= i < k ==> class.has(#[trigger] s[i]),
        k < s.len() ==> !class.has(s[k]),
    ensures
        run_len(s, class) == k,
    decreases s.len(),
{
    if k > 0 {
        let t = s.drop_first();
        assert(class.has(s[0]));
        assert forall|i: int| 0 <= i < k - 1 implies class.has(#[trigger] t[i]) by {
            assert(t[i] == s[i + 1]);
        }
        if k - 1 < t.len() {
            assert(t[k - 1] == s[k]);
        }
        lemma_run_len_is(t, class, k - 1);
    }
}

/// `String::push` appends one character.
pub assume_specification[ String::push ](s: &mut String, ch: char)
    ensures
        final(s)@ == old(s)@.push(ch),
;

/// The number of bytes of `c` in UTF-8.
pub fn len_utf8(c: char) -> (n: usize)
    ensures
        n == encode_scalar(c as u32).len(),
        1 <= n <= 4,
{
    let v: u32 = c as u32;
    if v < 0x80 {
        1
    } else if v < 0x800 {
        2
    } else if v < 0x10000 {
        3
    } else {
        4
    }
}

/// UTF-8 encodes a concatenation piece by piece.
pub proof fn lemma_encode_utf8_concat(a: Seq<char>, b: Seq<char>)
    ensures
        encode_utf8(a + b) == encode_utf8(a) + encode_utf8(b),
    decreases a.len(),
{
    if a.len() == 0 {
        assert(a + b == b);
        assert(encode_utf8(a) + encode_utf8(b) == encode_utf8(b));
    } else {
        let t = a.drop_first();
        lemma_encode_utf8_concat(t, b);
        assert((a + b).drop_first() == t + b);
        assert((a + b)[0] == a[0]);
        assert(encode_utf8(a + b) == encode_scalar(a[0] as u32) + (encode_utf8(t) + encode_utf8(b)));
        assert(encode_utf8(a) == encode_scalar(a[0] as u32) + encode_utf8(t));
        assert(encode_scalar(a[0] as u32) + (encode_utf8(t) + encode_utf8(b)) == (encode_scalar(
            a[0] as u32,
        ) + encode_utf8(t)) + encode_utf8(b));
    }
}

/// The end of the encoding of a prefix is a character boundary of the whole encoding.
pub proof fn lemma_prefix_is_boundary(a: Seq<char>, b: Seq<char>)
    ensures
        is_char_boundary(encode_utf8(a + b), encode_utf8(a).len() as int),
    decreases a.len(),
{
    let whole = encode_utf8(a + b);
    encode_utf8_valid_utf8(a + b);
    if a.len() > 0 {
        let t = a.drop_first();
        lemma_prefix_is_boundary(t, b);
        lemma_encode_utf8_concat(a, b);
        encode_utf8_first_scalar(a + b);
        assert((a + b).drop_first() == t + b);
        assert((a + b)[0] == a[0]);
        let head = encode_scalar(a[0] as u32);
        assert(whole == head + encode_utf8(t + b));
        assert(pop_first_scalar(whole) == encode_utf8(t + b));
        assert(encode_utf8(a).len() == head.len() + encode_utf8(t).len());
    }
}

/// Splits `s` after its first `k` characters, given the number of bytes they take.
pub(crate) fn split_chars<'a>(s: &'a str, Ghost(k): Ghost<int>, at: usize) -> (r: (&'a str, &'a str))
    requires
        0 <= k <= s@.len(),
        at == encode_utf8(s@.take(k)).len(),
    ensures
        r.0@ == s@.take(k),
        r.1@ == s@.skip(k),
{
    proof {
        let a = s@.take(k);
        let b = s@.skip(k);
        assert(a + b == s@);
        lemma_prefix_is_boundary(a, b);
        lemma_encode_utf8_concat(a, b);
    }
    let r = s.split_at(at);
    proof {
        let a = s@.take(k);
        let b = s@.skip(k);
        let whole = encode_utf8(s@);
        assert(whole.subrange(0, at as int) == encode_utf8(a));
        assert(whole.subrange(at as int, whole.len() as int) == encode_utf8(b));
        encode_utf8_decode_utf8(r.0@);
        encode_utf8_decode_utf8(r.1@);
        encode_utf8_decode_utf8(a);
        encode_utf8_decode_utf8(b);
    }
    r
}

/// One more character of a prefix adds the bytes of that character, and no
/// prefix takes more bytes than the whole.
pub proof fn lemma_encode_utf8_step(s: Seq<char>, k: int)
    requires
        0 <= k < s.len(),
    ensures
        encode_utf8(s.take(k + 1)).len() == encode_utf8(s.take(k)).len() + encode_scalar(
            s[k] as u32,
        ).len(),
        encode_utf8(s.take(k + 1)).len() <= encode_utf8(s).len(),
{
    let one = seq![s[k]];
    assert(s.take(k + 1) == s.take(k) + one);
    lemma_encode_utf8_concat(s.take(k), one);
    assert(one.drop_first() == Seq::<char>::empty());
    assert(encode_utf8(one) == encode_scalar(s[k] as u32) + encode_utf8(Seq::<char>::empty()));
    assert(s == s.take(k + 1) + s.skip(k + 1));
    lemma_encode_utf8_concat(s.take(k + 1), s.skip(k + 1));
}

/// A prefix that is `n` characters longer takes the bytes of those
/// characters more, and no prefix takes more bytes than the whole.
pub proof fn lemma_encode_utf8_extend(s: Seq<char>, k: int, n: int)
    requires
        0 <= k,
        0 <= n,
        k + n <= s.len(),
    ensures
        encode_utf8(s.take(k + n)).len() == encode_utf8(s.take(k)).len() + encode_utf8(
            s.skip(k).take(n),
        ).len(),
        encode_utf8(s.take(k + n)).len() <= encode_utf8(s).len(),
        encode_utf8(s).len() == encode_utf8(s.take(k)).len() + encode_utf8(s.skip(k)).len(),
{
    assert(s.take(k + n) == s.take(k) + s.skip(k).take(n));
    lemma_encode_utf8_concat(s.take(k), s.skip(k).take(n));
    assert(s == s.take(k + n) + s.skip(k + n));
    lemma_encode_utf8_concat(s.take(k + n), s.skip(k + n));
    assert(s == s.take(k) + s.skip(k));
    lemma_encode_utf8_concat(s.take(k), s.skip(k));
}

/// Splits `s` after its longest prefix of characters of `class`.
pub fn split_run<'a>(s: &'a str, class: CharClass) -> (r: (&'a str, &'a str))
    ensures
        r.0@ == s@.take(run_len(s@, class) as int),
        r.1@ == s@.skip(run_len(s@, class) as int),
{
    let total = s.as_bytes().len();
    let mut chs = s.chars();
    let mut at: usize = 0;
    let ghost mut k: int = 0;
    loop
        invariant_except_break
            chs.remaining() == s@.skip(k),
        invariant
            0 <= k <= s@.len(),
            at == encode_utf8(s@.take(k)).len(),
            at <= total,
            total == encode_utf8(s@).len(),
            forall|i: int| 0 <= i < k ==> class.has(#[trigger] s@[i]),
        ensures
            0 <= k <= s@.len(),
            at == encode_utf8(s@.take(k)).len(),
            forall|i: int| 0 <= i < k ==> class.has(#[trigger] s@[i]),
            k < s@.len() ==> !class.has(s@[k]),
        decreases s@.len() - k,
    {
        match chs.next() {
            Some(c) => {
                if !class.contains(c) {
                    break ;
                }
                proof {
                    lemma_encode_utf8_step(s@, k);
                    assert(s@.skip(k).drop_first() == s@.skip(k + 1));
                }
                at = at + len_utf8(c);
                proof {
                    k = k + 1;
                }
            },
            None => {
                break ;
            },
        }
    }
    proof {
        lemma_run_len_is(s@, class, k);
    }
    split_chars(s, Ghost(k), at)
}

} // verus!

//! Decimal literals: what an integer literal denotes, how integers are
//! read and written, and which literals are floats.

use crate::error::{FloatErrorKind, IntErrorKind};
use crate::text::{
    is_digit, lemma_encode_utf8_step, lemma_run_len, lemma_run_len_is, run_len, split_chars,
    split_run, CharClass,
};
use vstd::prelude::*;
use vstd::std_specs::iter::IteratorSpec;
use vstd::utf8::*;

verus! {

/// The value of a decimal digit.
pub open spec fn digit_value(c: char) -> int {
    c as int - '0' as int
}

/// The decimal digit of a value below ten.
pub open spec fn digit_char(d: int) -> char {
    (d + '0' as int) as char
}

/// The number that a sequence of decimal digits denotes; zero for the empty sequence.
pub open spec fn decimal_value(s: Seq<char>) -> nat
    decreases s.len(),
{
    if s.len() == 0 {
        0
    } else {
        (decimal_value(s.drop_last()) * 10 + digit_value(s.last())) as nat
    }
}

/// The decimal digits of `n`, without leading zeros.
pub open spec fn decimal_text(n: nat) -> Seq<char>
    decreases n,
{
    if n < 10 {
        seq![digit_char(n as int)]
    } else {
        decimal_text(n / 10).push(digit_char((n % 10) as int))
    }
}

/// The decimal text of an integer: a `-` for a negative one, then its digits.
pub open spec fn int_text(i: int) -> Seq<char> {
    if i < 0 {
        seq!['-'] + decimal_text((-i) as nat)
    } else {
        decimal_text(i as nat)
    }
}

/// What the literal `s` denotes for a type with the range `lo ..= hi`, where
/// `lo < 0` for a signed type and `lo == 0` for an unsigned one.
///
/// A `+` may lead; a `-` may lead for a signed type. The digits are taken
/// from the left: the first character that is no digit, or the first digit
/// with which the value leaves the range, decides the error.
pub open spec fn int_literal(s: Seq<char>, lo: int, hi: int) -> Result<int, IntErrorKind> {
    if s.len() == 0 {
        Err(IntErrorKind::Empty)
    } else if s.len() == 1 && (s[0] == '+' || s[0] == '-') {
        Err(IntErrorKind::InvalidDigit)
    } else {
        let negative = lo < 0 && s[0] == '-';
        let digits = if s[0] == '+' || negative {
            s.drop_first()
        } else {
            s
        };
        let k = run_len(digits, CharClass::Digit) as int;
        let v = decimal_value(digits.take(k)) as int;
        if negative {
            if -v < lo {
                Err(IntErrorKind::NegOverflow)
            } else if k < digits.len() {
                Err(IntErrorKind::InvalidDigit)
            } else {
                Ok(-v)
            }
        } else {
            if v > hi {
                Err(IntErrorKind::PosOverflow)
            } else if k < digits.len() {
                Err(IntErrorKind::InvalidDigit)
            } else {
                Ok(v)
            }
        }
    }
}

/// A longer prefix of digits denotes no smaller a number.
pub proof fn lemma_decimal_value_grows(s: Seq<char>, i: int, j: int)
    requires
        0 <= i <= j <= s.len(),
        forall|x: int| 0 <= x < j ==> is_digit(#[trigger] s[x]),
    ensures
        decimal_value(s.take(i)) <= decimal_value(s.take(j)),
    decreases j - i,
{
    if i < j {
        lemma_decimal_value_grows(s, i, j - 1);
        assert(s.take(j).drop_last() == s.take(j - 1));
        assert(s.take(j).last() == s[j - 1]);
    }
}

/// The digits of `n` are digits, and they denote `n`.
pub proof fn lemma_decimal_text(n: nat)
    ensures
        decimal_text(n).len() >= 1,
        forall|i: int| 0 <= i < decimal_text(n).len() ==> is_digit(#[trigger] decimal_text(n)[i]),
        decimal_value(decimal_text(n)) == n,
    decreases n,
{
    if n < 10 {
        let s = decimal_text(n);
        assert(s.drop_last() == Seq::<char>::empty());
        assert(decimal_value(s.drop_last()) == 0);
    } else {
        lemma_decimal_text(n / 10);
        let s = decimal_text(n);
        assert(s.drop_last() == decimal_text(n / 10));
        assert(s.last() == digit_char((n % 10) as int));
    }
}

/// Reading what was written gives the number back.
pub proof fn lemma_int_text_round_trip(i: int, lo: int, hi: int)
    requires
        lo <= i <= hi,
        lo <= 0,
    ensures
        int_literal(int_text(i), lo, hi) == Ok::<int, IntErrorKind>(i),
{
    if i < 0 {
        let d = decimal_text((-i) as nat);
        lemma_decimal_text((-i) as nat);
        let s = int_text(i);
        assert(s[0] == '-');
        assert(s.drop_first() == d);
        lemma_run_len_is(d, CharClass::Digit, d.len() as int);
        assert(d.take(d.len() as int) == d);
    } else {
        let d = decimal_text(i as nat);
        lemma_decimal_text(i as nat);
        assert(is_digit(d[0]));
        lemma_run_len_is(d, CharClass::Digit, d.len() as int);
        assert(d.take(d.len() as int) == d);
    }
}

/// The magnitude and the sign of a literal, read with the given limits:
/// negative values down to `-neg_limit` where `signed`, others up to `pos_limit`.
#[verifier::loop_isolation(false)]
fn parse_integer(s: &str, signed: bool, neg_limit: u128, pos_limit: u128) -> (r: Result<
    (bool, u128),
    IntErrorKind,
>)
    requires
        signed <==> neg_limit > 0,
    ensures
        match int_literal(s@, -(neg_limit as int), pos_limit as int) {
            Ok(v) => r matches Ok((negative, magnitude)) && v == if negative {
                -(magnitude as int)
            } else {
                magnitude as int
            } && (negative ==> signed),
            Err(e) => r == Err::<(bool, u128), IntErrorKind>(e),
        },
{
    let mut chs = s.chars();
    let first = match chs.next() {
        None => {
            return Err(IntErrorKind::Empty);
        },
        Some(c) => c,
    };
    let negative = signed && first == '-';
    let signed_start = first == '+' || negative;
    let ghost digits = if signed_start {
        s@.drop_first()
    } else {
        s@
    };
    let limit = if negative {
        neg_limit
    } else {
        pos_limit
    };
    let mut acc: u128 = 0;
    let ghost mut i: int = 0;
    let mut pending: Option<char> = if signed_start {
        chs.next()
    } else {
        Some(first)
    };
    if signed_start && pending.is_none() {
        assert(s@.len() == 1);
        return Err(IntErrorKind::InvalidDigit);
    }
    assert(decimal_value(digits.take(0)) == 0);
    while pending.is_some()
        invariant
            pending == if i < digits.len() {
                Some(digits[i])
            } else {
                None
            },
            chs.remaining() == if i < digits.len() {
                digits.skip(i + 1)
            } else {
                digits.skip(i)
            },
            0 <= i <= digits.len(),
            forall|x: int| 0 <= x < i ==> is_digit(#[trigger] digits[x]),
            acc == decimal_value(digits.take(i)),
            acc <= limit,
        decreases digits.len() - i,
    {
        let c = pending.unwrap();
        if !('0' <= c && c <= '9') {
            proof {
                lemma_run_len_is(digits, CharClass::Digit, i);
            }
            return Err(IntErrorKind::InvalidDigit);
        }
        let d: u128 = (c as u32 - '0' as u32) as u128;
        proof {
            assert(digits.take(i + 1).drop_last() == digits.take(i));
            assert(digits.take(i + 1).last() == digits[i]);
            assert(decimal_value(digits.take(i + 1)) == acc * 10 + d);
        }
        if acc > limit / 10 || (acc == limit / 10 && d > limit % 10) {
            proof {
                assert(acc * 10 + d > limit);
                lemma_run_len(digits, CharClass::Digit);
                let k = run_len(digits, CharClass::Digit) as int;
                if k < i + 1 {
                    assert(!is_digit(digits[k]));
                }
                lemma_decimal_value_grows(digits, i + 1, k);
            }
            return Err(
                if negative {
                    IntErrorKind::NegOverflow
                } else {
                    IntErrorKind::PosOverflow
                },
            );
        }
        acc = acc * 10 + d;
        proof {
            if i + 1 < digits.len() {
                assert(digits.skip(i + 1)[0] == digits[i + 1]);
                assert(digits.skip(i + 1).drop_first() == digits.skip(i + 2));
            }
            i = i + 1;
        }
        pending = chs.next();
    }
    proof {
        lemma_run_len_is(digits, CharClass::Digit, i);
    }
    Ok((negative, acc))
}

/// The widths of the integer types.
#[derive(Debug, Clone, Copy, PartialEq, Eq, Structural)]
pub enum Width {
    /// 8 bits.
    W8,
    /// 16 bits.
    W16,
    /// 32 bits.
    W32,
    /// 64 bits.
    W64,
    /// 128 bits.
    W128,
}

impl Width {
    /// The largest unsigned value of the width.
    pub open spec fn unsigned_max(self) -> int {
        match self {
            Width::W8 => 0xff,
            Width::W16 => 0xffff,
            Width::W32 => 0xffff_ffff,
            Width::W64 => 0xffff_ffff_ffff_ffff,
            Width::W128 => 0xffff_ffff_ffff_ffff_ffff_ffff_ffff_ffff,
        }
    }

    /// The largest signed value of the width.
    pub open spec fn signed_max(self) -> int {
        match self {
            Width::W8 => 0x7f,
            Width::W16 => 0x7fff,
            Width::W32 => 0x7fff_ffff,
            Width::W64 => 0x7fff_ffff_ffff_ffff,
            Width::W128 => 0x7fff_ffff_ffff_ffff_ffff_ffff_ffff_ffff,
        }
    }

    /// The smallest signed value of the width.
    pub open spec fn least_signed(self) -> int {
        -self.signed_max() - 1
    }

    /// The largest unsigned value of the width.
    pub fn max_unsigned(self) -> (r: u128)
        ensures
            r == self.unsigned_max(),
    {
        match self {
            Width::W8 => 0xff,
            Width::W16 => 0xffff,
            Width::W32 => 0xffff_ffff,
            Width::W64 => 0xffff_ffff_ffff_ffff,
            Width::W128 => 0xffff_ffff_ffff_ffff_ffff_ffff_ffff_ffff,
        }
    }

    /// The largest signed value of the width.
    pub fn max_signed(self) -> (r: i128)
        ensures
            r == self.signed_max(),
    {
        match self {
            Width::W8 => 0x7f,
            Width::W16 => 0x7fff,
            Width::W32 => 0x7fff_ffff,
            Width::W64 => 0x7fff_ffff_ffff_ffff,
            Width::W128 => 0x7fff_ffff_ffff_ffff_ffff_ffff_ffff_ffff,
        }
    }
}

/// Reads `s` as an unsigned integer of the given width.
pub fn parse_unsigned_text(s: &str, width: Width) -> (r: Result<u128, IntErrorKind>)
    ensures
        r == match int_literal(s@, 0, width.unsigned_max()) {
            Ok(v) => Ok(v as u128),
            Err(e) => Err(e),
        },
{
    match parse_integer(s, false, 0, width.max_unsigned()) {
        Ok((_, magnitude)) => Ok(magnitude),
        Err(e) => Err(e),
    }
}

/// Reads `s` as a signed integer of the given width.
pub fn parse_signed_text(s: &str, width: Width) -> (r: Result<i128, IntErrorKind>)
    ensures
        r == match int_literal(s@, width.least_signed(), width.signed_max()) {
            Ok(v) => Ok(v as i128),
            Err(e) => Err(e),
        },
{
    let max = width.max_signed();
    match parse_integer(s, true, max as u128 + 1, max as u128) {
        Ok((negative, magnitude)) => {
            if !negative {
                Ok(magnitude as i128)
            } else if magnitude == max as u128 + 1 {
                Ok(-max - 1)
            } else {
                Ok(-(magnitude as i128))
            }
        },
        Err(e) => Err(e),
    }
}

/// The decimal digits of `v`.
pub fn format_unsigned(v: u128) -> (r: String)
    ensures
        r@ == decimal_text(v as nat),
{
    let mut out = String::new();
    push_decimal(&mut out, v);
    out
}

/// The decimal text of `v`.
pub fn format_signed(v: i128) -> (r: String)
    ensures
        r@ == int_text(v as int),
{
    let mut out = String::new();
    if v < 0 {
        out.push('-');
        let magnitude: u128 = if v == i128::MIN {
            0x8000_0000_0000_0000_0000_0000_0000_0000u128
        } else {
            (-v) as u128
        };
        push_decimal(&mut out, magnitude);
        assert(out@ == seq!['-'] + decimal_text((-v) as nat));
    } else {
        push_decimal(&mut out, v as u128);
    }
    out
}

/// Appends the decimal digits of `v` to `out`.
pub fn push_decimal(out: &mut String, v: u128)
    ensures
        final(out)@ == old(out)@ + decimal_text(v as nat),
{
    let mut reversed: Vec<char> = Vec::new();
    let mut rest = v;
    while rest >= 10
        invariant
            decimal_text(v as nat) == decimal_text(rest as nat) + reversed@.reverse(),
        decreases rest,
    {
        let d = (rest % 10) as u8;
        let c = (48u8 + d) as char;
        proof {
            let before = reversed@;
            let after = before.push(c);
            assert(c == digit_char((rest % 10) as int));
            assert(after.reverse() == seq![c] + before.reverse());
            assert(decimal_text(rest as nat) == decimal_text((rest / 10) as nat) + seq![c]);
        }
        reversed.push(c);
        rest = rest / 10;
    }
    let c = (48u8 + rest as u8) as char;
    proof {
        let before = reversed@;
        assert(c == digit_char(rest as int));
        assert(before.push(c).reverse() == seq![c] + before.reverse());
        assert(decimal_text(rest as nat) == seq![c]);
    }
    reversed.push(c);
    let ghost digits = decimal_text(v as nat);
    let ghost start = out@;
    let mut i = reversed.len();
    while i > 0
        invariant
            i <= reversed.len(),
            digits == reversed@.reverse(),
            out@ == start + digits.take(reversed.len() - i),
        decreases i,
    {
        i = i - 1;
        assert(digits.take(reversed.len() - i) == digits.take(reversed.len() - i - 1).push(
            reversed@[i as int],
        ));
        out.push(reversed[i]);
    }
    assert(digits.take(reversed.len() as int) == digits);
}

/// Whether `s` is a decimal float literal: an optional `-`, digits, and
/// optionally a `.` with digits behind it, with a digit on at least one side.
pub open spec fn float_literal(s: Seq<char>) -> Result<(), FloatErrorKind> {
    if s.len() == 0 {
        Err(FloatErrorKind::Empty)
    } else {
        let body = if s[0] == '-' {
            s.skip(1)
        } else {
            s
        };
        let whole = run_len(body, CharClass::Digit);
        let tail = body.skip(whole as int);
        let fraction = if tail.len() > 0 && tail[0] == '.' {
            1 + run_len(tail.skip(1), CharClass::Digit)
        } else {
            0
        };
        if whole + fraction == body.len() && (whole > 0 || fraction > 1) {
            Ok(())
        } else {
            Err(FloatErrorKind::Invalid)
        }
    }
}

/// Tests whether `s` is a decimal float literal.
pub fn check_float_literal(s: &str) -> (r: Result<(), FloatErrorKind>)
    ensures
        r == float_literal(s@),
{
    let mut chs = s.chars();
    let first = match chs.next() {
        Some(c) => c,
        None => {
            return Err(FloatErrorKind::Empty);
        },
    };
    let body = if first == '-' {
        proof {
            lemma_encode_utf8_step(s@, 0);
            assert(s@.take(0) == Seq::<char>::empty());
            assert(encode_utf8(s@.take(0)).len() == 0);
        }
        let (_, rest) = split_chars(s, Ghost(1), 1);
        rest
    } else {
        s
    };
    let (whole, tail) = split_run(body, CharClass::Digit);
    proof {
        lemma_run_len(body@, CharClass::Digit);
    }
    let mut tail_chars = tail.chars();
    match tail_chars.next() {
        None => if whole.is_empty() {
            Err(FloatErrorKind::Invalid)
        } else {
            Ok(())
        },
        Some(c) => {
            if c != '.' {
                return Err(FloatErrorKind::Invalid);
            }
            proof {
                lemma_encode_utf8_step(tail@, 0);
                assert(tail@.take(0) == Seq::<char>::empty());
                assert(encode_utf8(tail@.take(0)).len() == 0);
            }
            let (_, after_point) = split_chars(tail, Ghost(1), 1);
            let (fraction, rest) = split_run(after_point, CharClass::Digit);
            proof {
                lemma_run_len(after_point@, CharClass::Digit);
            }
            if rest.is_empty() && (!whole.is_empty() || !fraction.is_empty()) {
                Ok(())
            } else {
                Err(FloatErrorKind::Invalid)
            }
        },
    }
}

} // verus!

//! Decimal text: how integers and lengths are written on the wire, and how
//! they are read back.

use vstd::prelude::*;

verus! {

/// The ASCII digit for `d`, where `0 <= d <= 9`.
pub open spec fn digit_byte(d: int) -> u8 {
    (48 + d) as u8
}

/// `b` is an ASCII digit.
pub open spec fn is_digit(b: u8) -> bool {
    48 <= b <= 57
}

/// The decimal digits of `n`, most significant first, without leading zeros.
pub open spec fn decimal(n: nat) -> Seq<u8>
    decreases n,
{
    if n < 10 {
        seq![digit_byte(n as int)]
    } else {
        decimal(n / 10).push(digit_byte((n % 10) as int))
    }
}

/// The decimal text of `i`: a `-` for a negative number, then the digits of
/// its magnitude.
pub open spec fn signed_decimal(i: int) -> Seq<u8> {
    if i < 0 {
        seq![45u8] + decimal((-i) as nat)
    } else {
        decimal(i as nat)
    }
}

/// Every byte of `t` is an ASCII digit.
pub open spec fn all_digits(t: Seq<u8>) -> bool {
    forall|i: int| 0 <= i < t.len() ==> is_digit(#[trigger] t[i])
}

/// The number that the digits `t` denote.
pub open spec fn digits_value(t: Seq<u8>) -> nat
    decreases t.len(),
{
    if t.len() == 0 {
        0
    } else {
        (digits_value(t.drop_last()) * 10 + (t.last() - 48)) as nat
    }
}

/// `t` is an optional `-` followed by one or more digits and nothing else.
pub open spec fn is_decimal_text(t: Seq<u8>) -> bool {
    if t.len() > 0 && t[0] == 45 {
        t.len() > 1 && all_digits(t.skip(1))
    } else {
        t.len() > 0 && all_digits(t)
    }
}

/// The number that the decimal text `t` denotes.
pub open spec fn decimal_text_value(t: Seq<u8>) -> int {
    if t.len() > 0 && t[0] == 45 {
        -(digits_value(t.skip(1)) as int)
    } else {
        digits_value(t) as int
    }
}

/// What reading `t` as a signed 64-bit decimal gives: its number if `t` is
/// decimal text whose number fits, nothing otherwise.
pub open spec fn parse_decimal(t: Seq<u8>) -> Option<i64> {
    if is_decimal_text(t) && i64::MIN <= decimal_text_value(t) <= i64::MAX {
        Some(decimal_text_value(t) as i64)
    } else {
        None
    }
}

/// The digits of `n` are digits, there is at least one, and they denote `n`.
pub proof fn lemma_decimal_digits(n: nat)
    ensures
        decimal(n).len() >= 1,
        all_digits(decimal(n)),
        digits_value(decimal(n)) == n,
    decreases n,
{
    if n < 10 {
        assert(decimal(n).drop_last() =~= Seq::<u8>::empty());
        assert(digits_value(decimal(n).drop_last()) == 0);
    } else {
        lemma_decimal_digits(n / 10);
        assert(decimal(n).drop_last() =~= decimal(n / 10));
        assert(decimal(n).last() == digit_byte((n % 10) as int));
    }
}

/// Reading back the decimal text of a 64-bit integer gives that integer.
pub proof fn lemma_parse_signed_decimal(i: i64)
    ensures
        is_decimal_text(signed_decimal(i as int)),
        parse_decimal(signed_decimal(i as int)) == Some(i),
{
    let t = signed_decimal(i as int);
    if i < 0 {
        let m = (-i) as nat;
        lemma_decimal_digits(m);
        assert(t.skip(1) =~= decimal(m));
    } else {
        lemma_decimal_digits(i as nat);
    }
}

/// Decimal text holds neither a carriage return nor a line feed.
pub proof fn lemma_decimal_text_bytes(t: Seq<u8>)
    requires
        is_decimal_text(t),
    ensures
        forall|i: int| 0 <= i < t.len() ==> (#[trigger] t[i]) != 13 && t[i] != 10,
{
    assert forall|i: int| 0 <= i < t.len() implies (#[trigger] t[i]) != 13 && t[i] != 10 by {
        if t[0] == 45 {
            if i > 0 {
                assert(t.skip(1)[i - 1] == t[i]);
            }
        }
    }
}

/// Appends the decimal digits of `n` to `out`.
pub fn push_decimal(out: &mut Vec<u8>, n: u64)
    ensures
        final(out)@ == old(out)@ + decimal(n as nat),
    decreases n,
{
    if n >= 10 {
        push_decimal(out, n / 10);
    }
    let d: u8 = (n % 10) as u8;
    out.push(48 + d);
    proof {
        assert(final(out)@ =~= old(out)@ + decimal(n as nat));
    }
}

/// Appends the decimal text of `i` to `out`.
pub fn push_signed_decimal(out: &mut Vec<u8>, i: i64)
    ensures
        final(out)@ == old(out)@ + signed_decimal(i as int),
{
    if i < 0 {
        out.push(45);
        let magnitude: u64 = (-(i + 1)) as u64 + 1;
        push_decimal(out, magnitude);
        assert(final(out)@ =~= old(out)@ + signed_decimal(i as int));
    } else {
        push_decimal(out, i as u64);
    }
}

/// Whether `text` is an optional `-` followed by one or more digits.
pub fn is_decimal(text: &[u8]) -> (r: bool)
    ensures
        r == is_decimal_text(text@),
{
    let start: usize = if text.len() > 0 && text[0] == 45 {
        1
    } else {
        0
    };
    if text.len() <= start {
        return false;
    }
    let mut i: usize = start;
    while i < text.len()
        invariant
            start <= i <= text.len(),
            start < text.len(),
            start == 1 <==> text@[0] == 45,
            start == 0 || start == 1,
            forall|j: int| start <= j < i ==> is_digit(#[trigger] text@[j]),
        decreases text.len() - i,
    {
        if text[i] < 48 || text[i] > 57 {
            proof {
                if start == 1 {
                    assert(text@.skip(1)[i - 1] == text@[i as int]);
                    assert(!is_digit(text@.skip(1)[i - 1]));
                } else {
                    assert(!is_digit(text@[i as int]));
                }
            }
            return false;
        }
        i += 1;
    }
    proof {
        if start == 1 {
            assert forall|j: int| 0 <= j < text@.skip(1).len() implies is_digit(
                #[trigger] text@.skip(1)[j],
            ) by {
                assert(text@.skip(1)[j] == text@[j + 1]);
            }
        }
    }
    true
}

/// Reads decimal text with `atoi::atoi::<i64>`.
///
/// For an optional sign followed by digits alone, `atoi` folds the digits
/// into an `i64` with checked steps: it returns the number the text denotes
/// when that fits in 64 bits and `None` when it does not. Texts of any other
/// shape, which `atoi` reads only in part, are left out by `requires`.
#[verifier::external_body]
fn atoi_i64(text: &[u8]) -> (r: Option<i64>)
    requires
        is_decimal_text(text@),
    ensures
        r == parse_decimal(text@),
{
    atoi::atoi::<i64>(text)
}

/// Reads `text` as a signed 64-bit decimal: the number, or `None` if `text`
/// is not an optional `-` followed by digits alone or its number does not fit.
pub fn parse_i64(text: &[u8]) -> (r: Option<i64>)
    ensures
        r == parse_decimal(text@),
{
    if is_decimal(text) {
        atoi_i64(text)
    } else {
        None
    }
}

/// What reading `t` as a signed 64-bit decimal gives when a leading `+` is
/// allowed too: `+` followed by digits denotes what the digits denote.
pub open spec fn parse_signed_text(t: Seq<u8>) -> Option<i64> {
    if t.len() > 0 && t[0] == 43 {
        if t.len() > 1 && t[1] != 45 {
            parse_decimal(t.skip(1))
        } else {
            None
        }
    } else {
        parse_decimal(t)
    }
}

/// Reads `text` as a signed 64-bit decimal with an optional sign, `+` or
/// `-`.
pub fn parse_signed(text: &[u8]) -> (r: Option<i64>)
    ensures
        r == parse_signed_text(text@),
{
    if text.len() > 0 && text[0] == 43 {
        if text.len() > 1 && text[1] != 45 {
            let digits = vstd::slice::slice_subrange(text, 1, text.len());
            assert(digits@ =~= text@.skip(1));
            parse_i64(digits)
        } else {
            None
        }
    } else {
        parse_i64(text)
    }
}

} // verus!

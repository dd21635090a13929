//! Unsigned numbers in base ten, as they stand in the name of a segment's
//! directory.

use vstd::prelude::*;

verus! {

/// An ASCII digit.
pub open spec fn is_digit(byte: u8) -> bool {
    48 <= byte <= 57
}

/// Every byte of `text` is a digit.
pub open spec fn all_digits(text: Seq<u8>) -> bool {
    forall|i: int| 0 <= i < text.len() ==> is_digit(#[trigger] text[i])
}

/// The number that a run of digits stands for.
pub open spec fn digits_value(text: Seq<u8>) -> nat
    decreases text.len(),
{
    if text.len() == 0 {
        0
    } else {
        digits_value(text.drop_last()) * 10 + (text.last() - 48) as nat
    }
}

/// The number that `text` stands for: one digit or more, after a plus sign
/// or without one. `None` for any other text.
pub open spec fn decimal_value(text: Seq<u8>) -> Option<nat> {
    let digits = if text.len() > 0 && text[0] == 43 {
        text.drop_first()
    } else {
        text
    };
    if digits.len() > 0 && all_digits(digits) {
        Some(digits_value(digits))
    } else {
        None
    }
}

/// The digits of `n`, without a sign and without leading zeros.
pub open spec fn decimal_digits(n: nat) -> Seq<u8>
    decreases n,
{
    if n < 10 {
        seq![(48 + n) as u8]
    } else {
        decimal_digits(n / 10).push((48 + n % 10) as u8)
    }
}

/// The digits of a number are digits, at least one, and stand for it.
pub proof fn lemma_digits_of(n: nat)
    ensures
        decimal_digits(n).len() > 0,
        all_digits(decimal_digits(n)),
        digits_value(decimal_digits(n)) == n,
        decimal_value(decimal_digits(n)) == Some(n),
    decreases n,
{
    let text = decimal_digits(n);
    if n < 10 {
        assert(text.drop_last() =~= Seq::<u8>::empty());
        assert(digits_value(text.drop_last()) == 0);
    } else {
        lemma_digits_of(n / 10);
        assert(text.drop_last() =~= decimal_digits(n / 10));
    }
    assert(is_digit(text[0]));
}

/// A run of digits stands for at least what any of its beginnings stands
/// for.
pub proof fn lemma_digits_value_grows(text: Seq<u8>, k: int)
    requires
        0 <= k <= text.len(),
    ensures
        digits_value(text.take(k)) <= digits_value(text),
    decreases text.len(),
{
    if k < text.len() {
        lemma_digits_value_grows(text.drop_last(), k);
        assert(text.drop_last().take(k) =~= text.take(k));
        assert(digits_value(text.drop_last()) <= digits_value(text.drop_last()) * 10)
            by (nonlinear_arith);
    } else {
        assert(text.take(k) =~= text);
    }
}

/// Reads a number that is at most `limit`.
pub fn parse_decimal(text: &[u8], limit: u64) -> (value: Option<u64>)
    ensures
        value == match decimal_value(text@) {
            Some(n) => if n <= limit {
                Some(n as u64)
            } else {
                None
            },
            None => None,
        },
{
    let end = text.len();
    let first: usize = if end > 0 && text[0] == 43 {
        1
    } else {
        0
    };
    if first == end {
        return None;
    }
    let ghost digits = text@.subrange(first as int, end as int);
    assert(digits =~= if text@.len() > 0 && text@[0] == 43 {
        text@.drop_first()
    } else {
        text@
    });
    let mut total: u64 = 0;
    let mut i: usize = first;
    while i < end
        invariant
            first <= i <= end == text@.len(),
            digits == text@.subrange(first as int, end as int),
            digits == if text@.len() > 0 && text@[0] == 43 {
                text@.drop_first()
            } else {
                text@
            },
            all_digits(digits.take(i - first)),
            total == digits_value(digits.take(i - first)),
            total <= limit,
        decreases end - i,
    {
        let byte = text[i];
        assert(digits[i - first] == byte);
        if byte < 48 || byte > 57 {
            assert(!is_digit(digits[i - first]));
            return None;
        }
        let digit: u64 = (byte - 48) as u64;
        proof {
            assert(digits.take(i - first + 1).drop_last() =~= digits.take(i - first));
            assert(all_digits(digits.take(i - first + 1))) by {
                assert forall|j: int| 0 <= j < i - first + 1 implies is_digit(
                    #[trigger] digits.take(i - first + 1)[j],
                ) by {
                    if j < i - first {
                        assert(is_digit(digits.take(i - first)[j]));
                    }
                }
            }
        }
        if digit > limit || total > (limit - digit) / 10 {
            proof {
                let next = digits_value(digits.take(i - first + 1));
                assert(next == total * 10 + digit);
                assert(next > limit) by (nonlinear_arith)
                    requires
                        next == total * 10 + digit,
                        digit > limit || total > (limit - digit) / 10,
                        0 <= digit,
                        0 <= total,
                ;
                if all_digits(digits) {
                    lemma_digits_value_grows(digits, i - first + 1);
                }
            }
            return None;
        }
        assert(total * 10 + digit <= limit) by (nonlinear_arith)
            requires
                total <= (limit - digit) / 10,
                0 <= digit <= limit,
        ;
        total = total * 10 + digit;
        i += 1;
    }
    assert(digits.take(end - first) =~= digits);
    Some(total)
}

/// Appends the digits of `n` to `out`.
pub fn push_decimal(out: &mut Vec<u8>, n: u64)
    ensures
        final(out)@ == old(out)@ + decimal_digits(n as nat),
    decreases n,
{
    if n >= 10 {
        push_decimal(out, n / 10);
    }
    let digit: u8 = (n % 10) as u8;
    out.push(48 + digit);
    assert(out@ =~= old(out)@ + decimal_digits(n as nat));
}

} // verus!

//! Numerals: runs of decimal digits read as signed 16-bit integers.

use vstd::prelude::*;
use crate::text::{class_has, CharClass};

verus! {

/// The number that a run of decimal digits denotes.
pub open spec fn decimal_value(digits: Seq<char>) -> nat
    decreases digits.len(),
{
    if digits.len() == 0 {
        0
    } else {
        (decimal_value(digits.drop_last()) * 10 + (digits.last() as int - '0' as int)) as nat
    }
}

/// Whether `digits` is a run of one or more ASCII decimal digits.
pub open spec fn is_decimal(digits: Seq<char>) -> bool {
    digits.len() > 0 && forall|i: int|
        0 <= i < digits.len() ==> class_has(CharClass::Digit, #[trigger] digits[i])
}

/// The signed 16-bit integer that `digits` denotes, if it denotes one:
/// one or more ASCII decimal digits whose value is at most 32767.
pub open spec fn numeral(digits: Seq<char>) -> Option<i16> {
    if is_decimal(digits) && decimal_value(digits) <= i16::MAX {
        Some(decimal_value(digits) as i16)
    } else {
        None
    }
}

/// A longer run of digits denotes no smaller number.
pub proof fn lemma_decimal_value_grows(digits: Seq<char>, n: int)
    requires
        0 <= n <= digits.len(),
        forall|i: int| 0 <= i < digits.len() ==> class_has(CharClass::Digit, #[trigger] digits[i]),
    ensures
        decimal_value(digits.take(n)) <= decimal_value(digits),
    decreases digits.len() - n,
{
    if n < digits.len() {
        let longer = digits.take(n + 1);
        assert(longer.drop_last() =~= digits.take(n));
        assert(class_has(CharClass::Digit, digits[n]));
        assert(longer.last() == digits[n]);
        lemma_decimal_value_grows(digits, n + 1);
    } else {
        assert(digits.take(n) =~= digits);
    }
}

/// Reads the part of `text` from `from` up to `to` as a numeral.
pub fn read_numeral(text: &[char], from: usize, to: usize) -> (value: Option<i16>)
    requires
        from <= to <= text@.len(),
    ensures
        value == numeral(text@.subrange(from as int, to as int)),
{
    let ghost digits = text@.subrange(from as int, to as int);
    if from == to {
        return None;
    }
    let mut acc: u32 = 0;
    let mut i: usize = from;
    while i < to
        invariant
            from <= i <= to <= text@.len(),
            digits == text@.subrange(from as int, to as int),
            forall|k: int| 0 <= k < i - from ==> class_has(CharClass::Digit, #[trigger] digits[k]),
            acc == decimal_value(digits.take(i - from)),
            acc <= i16::MAX,
        decreases to - i,
    {
        let c = text[i];
        if !CharClass::Digit.has(c) {
            proof {
                assert(digits[i - from] == c);
            }
            return None;
        }
        let digit: u32 = c as u32 - '0' as u32;
        let next: u32 = acc * 10 + digit;
        proof {
            let longer = digits.take(i - from + 1);
            assert(longer.drop_last() =~= digits.take(i - from));
            assert(longer.last() == c);
            assert(decimal_value(longer) == next);
            assert(digits[i - from] == c);
        }
        if next > 32767 {
            proof {
                if is_decimal(digits) {
                    lemma_decimal_value_grows(digits, i - from + 1);
                }
            }
            return None;
        }
        acc = next;
        i += 1;
    }
    proof {
        assert(digits.take(to - from) =~= digits);
    }
    Some(acc as i16)
}

} // verus!

//! The record that guards against a second running instance: reading the
//! process id that a pid file holds.

use vstd::prelude::*;

verus! {

/// Whether `c` is a decimal digit.
pub open spec fn is_digit(c: char) -> bool {
    '0' <= c <= '9'
}

/// The value of the decimal digit `c`.
pub open spec fn digit_value(c: char) -> nat {
    (c as u32 - '0' as u32) as nat
}

/// The number that the decimal digits `digits` write. The empty text
/// writes zero.
pub open spec fn decimal(digits: Seq<char>) -> nat
    decreases digits.len(),
{
    if digits.len() == 0 {
        0
    } else {
        10 * decimal(digits.drop_last()) + digit_value(digits.last())
    }
}

/// Whether every character of `text` is a decimal digit.
pub open spec fn all_digits(text: Seq<char>) -> bool {
    forall|i: int| 0 <= i < text.len() ==> is_digit(#[trigger] text[i])
}

/// The process id that a pid file with the content `text` records: `text`
/// is one or more decimal digits, with one plus sign in front or without,
/// that write a number within `u32`. Any other content, a blank or a line
/// end included, records none.
pub open spec fn pid_of(text: Seq<char>) -> Option<u32> {
    let digits = if text.len() > 0 && text[0] == '+' {
        text.drop_first()
    } else {
        text
    };
    if digits.len() > 0 && all_digits(digits) && decimal(digits) <= u32::MAX {
        Some(decimal(digits) as u32)
    } else {
        None
    }
}

/// A number only grows as digits are written behind it.
proof fn lemma_decimal_grows(digits: Seq<char>, n: int)
    requires
        0 <= n <= digits.len(),
        all_digits(digits),
    ensures
        decimal(digits.take(n)) <= decimal(digits),
    decreases digits.len() - n,
{
    if n < digits.len() {
        lemma_decimal_grows(digits, n + 1);
        assert(digits.take(n + 1).drop_last() == digits.take(n));
    } else {
        assert(digits.take(n) == digits);
    }
}

/// Reads the process id that a pid file with the content `text` records.
pub fn parse_pid(text: &str) -> (pid: Option<u32>)
    ensures
        pid == pid_of(text@),
{
    let ghost signed = text@.len() > 0 && text@[0] == '+';
    let ghost digits = if signed {
        text@.drop_first()
    } else {
        text@
    };
    let ghost lead: int = if signed {
        1
    } else {
        0
    };
    let mut value: u32 = 0;
    let mut seen: bool = false;
    let mut first: bool = true;
    proof {
        assert(digits.take(0) == Seq::<char>::empty());
    }
    for c in it: text.chars()
        invariant
            it.seq() == text@,
            signed == (text@.len() > 0 && text@[0] == '+'),
            digits == if signed {
                text@.drop_first()
            } else {
                text@
            },
            lead == if signed {
                1int
            } else {
                0int
            },
            first == (it.index() == 0),
            it.index() >= lead || it.index() == 0,
            seen == (it.index() > lead),
            it.index() > 0 ==> all_digits(digits.take(it.index() - lead)),
            it.index() > 0 ==> value == decimal(digits.take(it.index() - lead)),
            it.index() == 0 ==> value == 0,
    {
        let ghost at = it.index() as int;
        if first && c == '+' {
            first = false;
        } else {
            first = false;
            assert(0 <= at - lead < digits.len());
            assert(digits[at - lead] == c);
            if !(c >= '0' && c <= '9') {
                assert(!is_digit(digits[at - lead]));
                assert(!all_digits(digits));
                return None;
            }
            let digit: u32 = c as u32 - '0' as u32;
            proof {
                assert(digits.take(at - lead + 1).drop_last() == digits.take(at - lead));
                assert(digits.take(at - lead + 1).last() == c);
                assert(decimal(digits.take(at - lead + 1)) == 10 * value + digit);
            }
            if value > (u32::MAX - digit) / 10 {
                proof {
                    assert(10 * value + digit > u32::MAX);
                    if all_digits(digits) {
                        lemma_decimal_grows(digits, at - lead + 1);
                    }
                }
                return None;
            }
            value = 10 * value + digit;
            seen = true;
        }
    }
    proof {
        assert(digits.take(digits.len() as int) == digits);
    }
    if seen {
        Some(value)
    } else {
        None
    }
}

} // verus!

//! Lowercase hexadecimal numerals, as they stand at the head of every chunk.

use vstd::prelude::*;

verus! {

/// The ASCII code of the lowercase hexadecimal digit that stands for `d`.
pub open spec fn digit(d: nat) -> u8
    recommends
        d < 16,
{
    if d < 10 {
        (48 + d) as u8
    } else {
        (87 + d) as u8
    }
}

/// Whether `b` is one of the sixteen digits `0`-`9`, `a`-`f`.
pub open spec fn is_digit(b: u8) -> bool {
    48 <= b <= 57 || 97 <= b <= 102
}

/// Whether a reader takes `b` for a hexadecimal digit: a reader accepts the
/// capital letters `A`-`F` as well.
pub open spec fn is_digit_any_case(b: u8) -> bool {
    is_digit(b) || 65 <= b <= 70
}

/// The number that the digit `b` stands for, in either case.
pub open spec fn digit_value(b: u8) -> nat
    recommends
        is_digit_any_case(b),
{
    if b <= 57 {
        (b - 48) as nat
    } else if b <= 70 {
        (b - 55) as nat
    } else {
        (b - 87) as nat
    }
}

/// The numeral of `n` in base sixteen: most significant digit first, lowercase,
/// as short as possible. Zero is the single digit `0`.
pub open spec fn numeral(n: nat) -> Seq<u8>
    decreases n,
{
    if n < 16 {
        seq![digit(n)]
    } else {
        numeral(n / 16).push(digit(n % 16))
    }
}

/// The number that a sequence of digits denotes, read most significant digit first.
pub open spec fn value(digits: Seq<u8>) -> nat
    decreases digits.len(),
{
    if digits.len() == 0 {
        0
    } else {
        16 * value(digits.drop_last()) + digit_value(digits.last())
    }
}

/// Sixteen to the power `e`.
pub open spec fn pow16(e: nat) -> nat
    decreases e,
{
    if e == 0 {
        1
    } else {
        16 * pow16((e - 1) as nat)
    }
}

/// A numeral is never empty, and each of its bytes is a lowercase hexadecimal digit.
pub proof fn lemma_numeral_digits(n: nat)
    ensures
        numeral(n).len() >= 1,
        forall|i: int| 0 <= i < numeral(n).len() ==> is_digit(#[trigger] numeral(n)[i]),
    decreases n,
{
    if n >= 16 {
        lemma_numeral_digits(n / 16);
    }
}

/// A numeral has no leading zero: it begins with `0` only when it is the numeral of zero,
/// which is that one digit.
pub proof fn lemma_numeral_leading_digit(n: nat)
    ensures
        n == 0 ==> numeral(n) == seq![48u8],
        n > 0 ==> numeral(n)[0] != 48,
    decreases n,
{
    if n >= 16 {
        lemma_numeral_leading_digit(n / 16);
        lemma_numeral_digits(n / 16);
    }
}

/// A numeral denotes the number it was made from, so distinct numbers have distinct numerals.
pub proof fn lemma_numeral_value(n: nat)
    ensures
        value(numeral(n)) == n,
    decreases n,
{
    if n < 16 {
        assert(numeral(n).drop_last() =~= Seq::<u8>::empty());
        assert(value(numeral(n).drop_last()) == 0);
    } else {
        lemma_numeral_value(n / 16);
        assert(numeral(n).drop_last() =~= numeral(n / 16));
    }
}

/// A number below the `k`-th power of sixteen has a numeral of at most `k` digits.
pub proof fn lemma_numeral_len(n: nat, k: nat)
    requires
        k >= 1,
        n < pow16(k),
    ensures
        numeral(n).len() <= k,
    decreases k,
{
    if n >= 16 {
        if k == 1 {
            assert(pow16(1) == 16) by {
                reveal_with_fuel(pow16, 2);
            }
        } else {
            lemma_numeral_len(n / 16, (k - 1) as nat);
        }
    }
}

/// The numeral of a length that fits a machine word has at most sixteen digits.
pub proof fn lemma_numeral_len_of_usize(n: usize)
    ensures
        1 <= numeral(n as nat).len() <= 16,
{
    assert(pow16(16) == 0x1_0000_0000_0000_0000) by {
        reveal_with_fuel(pow16, 17);
    }
    lemma_numeral_len(n as nat, 16);
    lemma_numeral_digits(n as nat);
}

/// The digit for `d` as a byte.
pub fn digit_byte(d: usize) -> (b: u8)
    requires
        d < 16,
    ensures
        b == digit(d as nat),
{
    if d < 10 {
        48u8 + d as u8
    } else {
        87u8 + d as u8
    }
}

} // verus!

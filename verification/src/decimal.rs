//! Whole numbers and hundredths in decimal notation.

use vstd::prelude::*;
use vstd::string::StringExecFns;

verus! {

/// The ten digits in order.
pub open spec fn digits() -> Seq<char> {
    seq!['0', '1', '2', '3', '4', '5', '6', '7', '8', '9']
}

/// The character of a digit's value.
pub open spec fn digit(d: nat) -> char
    recommends
        d < 10,
{
    digits()[d as int]
}

/// A whole number in decimal notation, without leading zeros; zero is "0".
pub open spec fn decimal(n: nat) -> Seq<char>
    decreases n,
{
    if n < 10 {
        seq![digit(n)]
    } else {
        decimal(n / 10).push(digit(n % 10))
    }
}

/// A count of hundredths with two places after the point: 150 is "1.50".
pub open spec fn fixed2(hundredths: nat) -> Seq<char> {
    decimal(hundredths / 100) + seq!['.', digit(hundredths / 10 % 10), digit(hundredths % 10)]
}

/// Whether a character is one of the ten digits.
pub open spec fn is_digit(c: char) -> bool {
    digits().contains(c)
}

/// Decimal notation is never empty and holds digits only.
pub proof fn lemma_decimal_is_digits(n: nat)
    ensures
        decimal(n).len() >= 1,
        forall|i: int| 0 <= i < decimal(n).len() ==> is_digit(#[trigger] decimal(n)[i]),
    decreases n,
{
    assert forall|d: nat| d < 10 implies is_digit(#[trigger] digit(d)) by {
        assert(digits()[d as int] == digit(d));
    }
    if n >= 10 {
        lemma_decimal_is_digits(n / 10);
    }
}

/// Two-place notation is the whole part, a point and two digits.
pub proof fn lemma_fixed2_shape(hundredths: nat)
    ensures
        fixed2(hundredths).len() >= 4,
        fixed2(hundredths)[fixed2(hundredths).len() - 3] == '.',
        forall|i: int|
            0 <= i < fixed2(hundredths).len() ==> is_digit(#[trigger] fixed2(hundredths)[i])
                || fixed2(hundredths)[i] == '.',
{
    let whole = decimal(hundredths / 100);
    lemma_decimal_is_digits(hundredths / 100);
    assert forall|d: nat| d < 10 implies is_digit(#[trigger] digit(d)) by {
        assert(digits()[d as int] == digit(d));
    }
    assert(is_digit(digit(hundredths / 10 % 10)));
    assert(is_digit(digit(hundredths % 10)));
    assert forall|i: int| 0 <= i < fixed2(hundredths).len() implies is_digit(
        #[trigger] fixed2(hundredths)[i],
    ) || fixed2(hundredths)[i] == '.' by {
        if i < whole.len() {
            assert(fixed2(hundredths)[i] == whole[i]);
        }
    }
}

/// One digit as text.
pub fn digit_str(d: u8) -> (out: &'static str)
    requires
        d < 10,
    ensures
        out@ == seq![digit(d as nat)],
{
    proof {
        reveal_strlit("0");
        reveal_strlit("1");
        reveal_strlit("2");
        reveal_strlit("3");
        reveal_strlit("4");
        reveal_strlit("5");
        reveal_strlit("6");
        reveal_strlit("7");
        reveal_strlit("8");
        reveal_strlit("9");
    }
    let out = if d == 0 {
        "0"
    } else if d == 1 {
        "1"
    } else if d == 2 {
        "2"
    } else if d == 3 {
        "3"
    } else if d == 4 {
        "4"
    } else if d == 5 {
        "5"
    } else if d == 6 {
        "6"
    } else if d == 7 {
        "7"
    } else if d == 8 {
        "8"
    } else {
        "9"
    };
    assert(out@ =~= seq![digit(d as nat)]);
    out
}

/// Appends a whole number in decimal notation.
pub fn push_decimal(text: &mut String, n: u128)
    ensures
        final(text)@ == old(text)@ + decimal(n as nat),
    decreases n,
{
    if n >= 10 {
        push_decimal(text, n / 10);
    }
    let last: u8 = (n % 10) as u8;
    text.append(digit_str(last));
    assert(final(text)@ =~= old(text)@ + decimal(n as nat));
}

/// Appends a count of hundredths with two places after the point.
pub fn push_fixed2(text: &mut String, hundredths: u128)
    ensures
        final(text)@ == old(text)@ + fixed2(hundredths as nat),
{
    proof {
        reveal_strlit(".");
    }
    push_decimal(text, hundredths / 100);
    text.append(".");
    text.append(digit_str((hundredths / 10 % 10) as u8));
    text.append(digit_str((hundredths % 10) as u8));
    assert(final(text)@ =~= old(text)@ + fixed2(hundredths as nat));
}

} // verus!

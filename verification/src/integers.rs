//! Integers of any size. What is computed with them is computed by `num_bigint`.

use vstd::arithmetic::power::lemma_pow0;
use vstd::arithmetic::power::pow;
use vstd::prelude::*;
use vstd::string::*;

use num_bigint::BigInt;
use num_bigint::Sign;

use crate::text::all_digits;
use crate::text::digits_value;
use crate::text::is_digit;

verus! {

/// The number with these digits to the base of two to the power of thirty-two, the least
/// significant one first.
pub open spec fn natural(digits: Seq<u32>) -> nat
    decreases digits.len(),
{
    if digits.len() == 0 {
        0
    } else {
        digits.first() as nat + 0x1_0000_0000 * natural(digits.drop_first())
    }
}

/// An integer of any size.
#[derive(Debug, PartialEq, Eq)]
pub struct Integer {
    /// Whether it is below zero.
    pub negative: bool,
    /// Its absolute value, to the base of two to the power of thirty-two, the least significant
    /// digit first.
    pub magnitude: Vec<u32>,
}

impl View for Integer {
    type V = int;

    open spec fn view(&self) -> int {
        if self.negative {
            -natural(self.magnitude@)
        } else {
            natural(self.magnitude@) as int
        }
    }
}

/// Whether `text` is an integer: digits, perhaps after a minus sign.
pub open spec fn is_integer(text: Seq<char>) -> bool {
    let digits = unsigned_part(text);
    digits.len() > 0 && all_digits(digits)
}

/// `text` without the minus sign that it may begin with.
pub open spec fn unsigned_part(text: Seq<char>) -> Seq<char> {
    if text.len() > 0 && text[0] == '-' {
        text.skip(1)
    } else {
        text
    }
}

/// The number that an integer in decimal digits denotes.
pub open spec fn integer_value(text: Seq<char>) -> int {
    if text.len() > 0 && text[0] == '-' {
        -digits_value(text.skip(1))
    } else {
        digits_value(text) as int
    }
}

/// `BigInt::parse_bytes` to the base of ten, on decimal digits that may follow a minus sign: it
/// succeeds, and gives the number that they denote.
#[verifier::external_body]
pub(crate) fn parse_integer(text: &str) -> (out: Option<Integer>)
    requires
        is_integer(text@),
    ensures
        out is Some,
        out matches Some(n) ==> n@ == integer_value(text@),
{
    BigInt::parse_bytes(text.as_bytes(), 10).map(
        |n|
            {
                let (sign, magnitude) = n.to_u32_digits();
                Integer { negative: matches!(sign, Sign::Minus), magnitude }
            },
    )
}

/// `BigInt::sqrt`: the greatest number whose square is not above `n`.
#[verifier::external_body]
pub(crate) fn square_root(n: &[u32]) -> (out: Vec<u32>)
    ensures
        natural(out@) * natural(out@) <= natural(n@),
        natural(n@) < (natural(out@) + 1) * (natural(out@) + 1),
{
    BigInt::from_slice(Sign::Plus, n).sqrt().to_u32_digits().1
}

/// `%` of `BigInt`: the remainder of `n` divided by `d`. Division by zero panics and is left out.
#[verifier::external_body]
pub(crate) fn remainder(n: &[u32], d: &[u32]) -> (out: Vec<u32>)
    requires
        natural(d@) > 0,
    ensures
        natural(out@) == natural(n@) % natural(d@),
{
    (BigInt::from_slice(Sign::Plus, n) % BigInt::from_slice(Sign::Plus, d)).to_u32_digits().1
}

/// `+` of `BigInt`: the sum of `a` and `b`.
#[verifier::external_body]
pub(crate) fn sum(a: &[u32], b: &[u32]) -> (out: Vec<u32>)
    ensures
        natural(out@) == natural(a@) + natural(b@),
{
    (BigInt::from_slice(Sign::Plus, a) + BigInt::from_slice(Sign::Plus, b)).to_u32_digits().1
}

/// `<=` of `BigInt`: whether `a` is at most `b`.
#[verifier::external_body]
pub(crate) fn at_most(a: &[u32], b: &[u32]) -> (out: bool)
    ensures
        out == (natural(a@) <= natural(b@)),
{
    BigInt::from_slice(Sign::Plus, a) <= BigInt::from_slice(Sign::Plus, b)
}

/// Each digit counts two to the power of thirty-two times as much as the one before it.
pub proof fn law_digits_count_upwards(a: Seq<u32>, b: Seq<u32>, d: u32)
    ensures
        natural(Seq::empty()) == 0,
        natural(seq![d]) == d,
        natural(a + b) == natural(a) + pow(0x1_0000_0000, a.len()) * natural(b),
    decreases a.len(),
{
    assert(seq![d].drop_first() == Seq::<u32>::empty());
    assert(natural(Seq::<u32>::empty()) == 0);
    if a.len() == 0 {
        assert(a + b == b);
        lemma_pow0(0x1_0000_0000);
    } else {
        law_digits_count_upwards(a.drop_first(), b, d);
        assert((a + b).drop_first() == a.drop_first() + b);
        reveal(pow);
        let p = pow(0x1_0000_0000, a.drop_first().len());
        let n = natural(b) as int;
        assert(pow(0x1_0000_0000, a.len()) == 0x1_0000_0000 * p);
        assert(0x1_0000_0000 * (p * n) == (0x1_0000_0000 * p) * n) by (nonlinear_arith);
    }
}

/// A minus sign makes the number negative, and without one it is what its digits say. An integer is
/// nothing but digits, at least one, behind a minus sign that may be missing.
pub proof fn law_minus_signs_negate(digits: Seq<char>, text: Seq<char>, i: int)
    ensures
        digits.len() > 0 && all_digits(digits) ==> {
            &&& is_integer(digits)
            &&& is_integer(seq!['-'] + digits)
            &&& integer_value(digits) == digits_value(digits)
            &&& integer_value(seq!['-'] + digits) == -digits_value(digits)
        },
        !is_integer(Seq::empty()),
        !is_integer(seq!['-']),
        0 <= i < text.len() && !(48 <= text[i] as int <= 57) && (i > 0 || text[0] != '-')
            ==> !is_integer(text),
{
    if digits.len() > 0 && all_digits(digits) {
        assert(is_digit(digits[0]));
        assert((seq!['-'] + digits).skip(1) == digits);
    }
    assert(seq!['-'].skip(1) == Seq::<char>::empty());
    if 0 <= i < text.len() && !(48 <= text[i] as int <= 57) && (i > 0 || text[0] != '-') {
        assert(!is_digit(text[i]));
        if text[0] == '-' {
            assert(text.skip(1)[i - 1] == text[i]);
        }
    }
}

/// An integer is its absolute value with its sign.
pub proof fn law_signs_negate(n: Integer)
    ensures
        n.negative ==> n@ == 0 - natural(n.magnitude@),
        !n.negative ==> n@ == natural(n.magnitude@),
{
}

} // verus!

//! Questions whether a number is prime.

use vstd::prelude::*;
use vstd::string::*;
use vstd::utf8::*;

use crate::integers::at_most;
use crate::integers::integer_value;
use crate::integers::is_integer;
use crate::integers::natural;
use crate::integers::parse_integer;
use crate::integers::remainder;
use crate::integers::square_root;
use crate::integers::sum;
use crate::integers::Integer;
use crate::text::all_digits;
use crate::text::chars_of;
use crate::text::digits_value;
use crate::text::is_digit;
use crate::text::parse_unsigned;

verus! {

/// Whether `d` divides `n`.
pub open spec fn divides(d: int, n: int) -> bool {
    n % d == 0
}

/// Whether `n` is a prime number: above one, and divided by nothing between one and itself.
pub open spec fn prime(n: int) -> bool {
    n > 1 && forall|d: int| 1 < d < n ==> !#[trigger] divides(d, n)
}

proof fn lemma_small(n: u32)
    ensures
        natural(seq![n]) == n,
{
    assert(seq![n].drop_first() == Seq::<u32>::empty());
    reveal_with_fuel(natural, 2);
}

/// A number above one that is not prime has a divisor that is not above its square root.
proof fn lemma_small_divisor(n: int, root: int, d: int)
    requires
        1 < d < n,
        divides(d, n),
        0 <= root,
        n < (root + 1) * (root + 1),
    ensures
        exists|c: int| 1 < c <= root && #[trigger] divides(c, n),
{
    let q = n / d;
    vstd::arithmetic::div_mod::lemma_fundamental_div_mod(n, d);
    assert(n == d * q);
    assert(1 < q < n) by (nonlinear_arith)
        requires
            n == d * q,
            1 < d < n,
    ;
    assert(divides(q, n)) by {
        assert(n == q * d) by (nonlinear_arith)
            requires
                n == d * q,
        ;
        vstd::arithmetic::div_mod::lemma_mod_multiples_basic(d, q);
        assert(d * q == q * d) by (nonlinear_arith);
    }
    assert(d <= root || q <= root) by (nonlinear_arith)
        requires
            n == d * q,
            n < (root + 1) * (root + 1),
            0 <= root,
            1 < d,
            1 < q,
    ;
    if d <= root {
        assert(divides(d, n));
    }
}

/// Whether a number is prime.
pub fn is_prime(num: Integer) -> (out: bool)
    ensures
        out == prime(num@),
{
    let one: Vec<u32> = vec![1u32];
    let n = num.magnitude;
    proof {
        lemma_small(1);
        assert(one@ == seq![1u32]);
    }
    if num.negative || at_most(n.as_slice(), one.as_slice()) {
        return false;
    }
    let ghost value = natural(n@) as int;
    let root = square_root(n.as_slice());
    let mut candidate: Vec<u32> = vec![2u32];
    proof {
        lemma_small(2);
        assert(candidate@ == seq![2u32]);
    }
    while at_most(candidate.as_slice(), root.as_slice())
        invariant
            value == natural(n@),
            value > 1,
            num@ == value,
            natural(one@) == 1,
            natural(candidate@) >= 2,
            natural(root@) * natural(root@) <= value,
            value < (natural(root@) + 1) * (natural(root@) + 1),
            forall|d: int| 1 < d < natural(candidate@) ==> !#[trigger] divides(d, value),
        decreases natural(root@) + 1 - natural(candidate@),
    {
        let rest = remainder(n.as_slice(), candidate.as_slice());
        let zero: Vec<u32> = Vec::new();
        if at_most(rest.as_slice(), zero.as_slice()) {
            proof {
                let c = natural(candidate@) as int;
                let r = natural(root@) as int;
                assert(divides(c, value));
                assert(c < value) by (nonlinear_arith)
                    requires
                        2 <= c <= r,
                        r * r <= value,
                ;
            }
            return false;
        }
        candidate = sum(candidate.as_slice(), one.as_slice());
    }
    proof {
        if exists|d: int| 1 < d < value && #[trigger] divides(d, value) {
            let d = choose|d: int| 1 < d < value && #[trigger] divides(d, value);
            lemma_small_divisor(value, natural(root@) as int, d);
        }
    }
    true
}

/// Whether `text` is a number in decimal digits with this integer part and, if there is a point,
/// these digits behind it.
pub open spec fn is_decimal(text: Seq<char>, whole: Seq<char>, fraction: Option<Seq<char>>) -> bool {
    &&& is_integer(whole)
    &&& match fraction {
        Some(f) => all_digits(f) && text == whole + seq!['.'] + f,
        None => text == whole,
    }
}

/// The digits behind the point, if there is one.
pub open spec fn digits_of(fraction: Option<String>) -> Option<Seq<char>> {
    match fraction {
        Some(f) => Some(f@),
        None => None,
    }
}

/// `Regex::captures` of the pattern for a decimal number, on text in ASCII. The pattern is tied to
/// both ends of the text, so there is a match exactly if the text as a whole is such a number; the
/// first group is what stands before the point, and the second, if there is a point, what stands
/// behind it.
#[verifier::external_body]
fn captures(pattern: &str, text: &str) -> (out: Option<(String, Option<String>)>)
    requires
        pattern@ == "^(-?\\d+)(?:\\.(\\d*))?$"@,
        is_ascii_chars(text@),
    ensures
        out matches Some((whole, fraction)) ==> is_decimal(text@, whole@, digits_of(fraction)),
        out is None ==> forall|whole: Seq<char>, fraction: Option<Seq<char>>|
            !is_decimal(text@, whole, fraction),
{
    let re = regex::Regex::new(pattern).expect("failed to compile regex");
    re.captures(text).map(|c| (c[1].to_owned(), c.get(2).map(|f| f.as_str().to_owned())))
}

/// Whether the digits behind the point, if there is a point, are there and are nothing but zeros.
pub open spec fn is_whole(fraction: Option<Seq<char>>) -> bool {
    match fraction {
        Some(f) => f.len() > 0 && digits_value(f) == 0,
        None => true,
    }
}

/// What a number in a request is.
#[derive(Debug, PartialEq, Eq)]
pub enum Parsed {
    /// An integer.
    Whole(Integer),
    /// A number that is no integer.
    Broken,
    /// Not written in decimal digits.
    Unreadable,
}

/// Whether `n` is the number with this integer part and these digits behind the point.
pub open spec fn stands_for(n: Parsed, whole: Seq<char>, fraction: Option<Seq<char>>) -> bool {
    match n {
        Parsed::Whole(n) => is_whole(fraction) && n@ == integer_value(whole),
        Parsed::Broken => !is_whole(fraction),
        Parsed::Unreadable => false,
    }
}

/// Reads a number as it stands in a request, in ASCII.
pub fn deserialise_big_int(string: &str) -> (out: Parsed)
    requires
        is_ascii_chars(string@),
    ensures
        out is Unreadable <==> forall|whole: Seq<char>, fraction: Option<Seq<char>>|
            !is_decimal(string@, whole, fraction),
        forall|whole: Seq<char>, fraction: Option<Seq<char>>| #[trigger]
            is_decimal(string@, whole, fraction) ==> stands_for(out, whole, fraction),
{
    match captures("^(-?\\d+)(?:\\.(\\d*))?$", string) {
        Some((whole, fraction)) => {
            let ghost tail = digits_of(fraction);
            proof {
                assert(is_decimal(string@, whole@, tail));
                assert forall|w: Seq<char>, f: Option<Seq<char>>| #[trigger]
                    is_decimal(string@, w, f) implies w == whole@ && f == tail by {
                    lemma_one_way(string@, whole@, tail, w, f);
                }
            }
            let zero = match &fraction {
                Some(f) => {
                    let digits = chars_of(f.as_str());
                    match parse_unsigned(digits.as_slice()) {
                        Some(n) => n == 0,
                        None => false,
                    }
                },
                None => true,
            };
            proof {
                if let Some(f) = tail {
                    if f.len() > 0 {
                        assert(is_digit(f[0]));
                    }
                }
                assert(zero == is_whole(tail));
            }
            if !zero {
                return Parsed::Broken;
            }
            match parse_integer(whole.as_str()) {
                Some(n) => Parsed::Whole(n),
                None => Parsed::Unreadable,
            }
        },
        None => Parsed::Unreadable,
    }
}

/// A number in decimal digits can be taken apart in one way only.
proof fn lemma_one_way(
    text: Seq<char>,
    a: Seq<char>,
    f: Option<Seq<char>>,
    b: Seq<char>,
    g: Option<Seq<char>>,
)
    requires
        is_decimal(text, a, f),
        is_decimal(text, b, g),
    ensures
        a == b,
        f == g,
{
    lemma_no_point(a);
    lemma_no_point(b);
    assert(text.take(a.len() as int) == a);
    assert(text.take(b.len() as int) == b);
    if f is Some {
        assert(text[a.len() as int] == '.');
    }
    if g is Some {
        assert(text[b.len() as int] == '.');
    }
    if a.len() < b.len() {
        assert(text[a.len() as int] == b[a.len() as int]);
    }
    if b.len() < a.len() {
        assert(text[b.len() as int] == a[b.len() as int]);
    }
    if let (Some(x), Some(y)) = (f, g) {
        assert(text.skip(a.len() as int + 1) == x);
        assert(text.skip(b.len() as int + 1) == y);
    }
}

proof fn lemma_no_point(text: Seq<char>)
    requires
        is_integer(text),
    ensures
        forall|i: int| 0 <= i < text.len() ==> #[trigger] text[i] != '.',
{
    assert forall|i: int| 0 <= i < text.len() implies #[trigger] text[i] != '.' by {
        if text[0] == '-' && i > 0 {
            assert(text[i] == text.skip(1)[i - 1]);
            assert(is_digit(text.skip(1)[i - 1]));
        }
    }
}

/// Zeros behind the point do not make another number.
pub proof fn law_zeros_behind_the_point(whole: Seq<char>, zeros: Seq<char>, n: Parsed)
    requires
        is_integer(whole),
        zeros.len() > 0,
        forall|i: int| 0 <= i < zeros.len() ==> #[trigger] zeros[i] == '0',
    ensures
        is_decimal(whole + seq!['.'] + zeros, whole, Some(zeros)),
        is_decimal(whole, whole, None),
        stands_for(n, whole, Some(zeros)) == stands_for(n, whole, None),
{
    lemma_zeros(zeros);
}

/// Any other digit behind the point makes a number that is no integer.
pub proof fn law_other_digits_behind_the_point(fraction: Seq<char>, i: int)
    requires
        all_digits(fraction),
        0 <= i < fraction.len(),
        fraction[i] != '0',
    ensures
        !is_whole(Some(fraction)),
    decreases fraction.len(),
{
    assert(is_digit(fraction[i]));
    if i < fraction.len() - 1 {
        assert forall|k: int| 0 <= k < fraction.drop_last().len() implies is_digit(
            #[trigger] fraction.drop_last()[k],
        ) by {
            assert(is_digit(fraction[k]));
        }
        law_other_digits_behind_the_point(fraction.drop_last(), i);
    }
}

proof fn lemma_zeros(zeros: Seq<char>)
    requires
        forall|i: int| 0 <= i < zeros.len() ==> #[trigger] zeros[i] == '0',
    ensures
        digits_value(zeros) == 0,
        all_digits(zeros),
    decreases zeros.len(),
{
    if zeros.len() > 0 {
        lemma_zeros(zeros.drop_last());
    }
}

/// A request.
#[derive(Debug, PartialEq, Eq)]
pub struct Request {
    pub method: String,
    /// The number, if it is an integer.
    pub number: Option<Integer>,
}

/// Whether this is the method that is answered.
pub open spec fn is_known_method(method: Seq<char>) -> bool {
    method == "isPrime"@
}

/// Lets a request through whose method is the one that is answered. There is none where what came
/// could not be read as a request.
pub fn validate_request(req: Option<Request>) -> (out: Option<Request>)
    ensures
        req matches Some(r) && is_known_method(r.method@) ==> out == req,
        !(req matches Some(r) && is_known_method(r.method@)) ==> out is None,
{
    match req {
        Some(req) => {
            if req.method == "isPrime".to_owned() {
                Some(req)
            } else {
                None
            }
        },
        None => None,
    }
}

/// What is answered.
#[derive(Debug, Clone, Copy, PartialEq, Eq, Structural)]
pub enum Answer {
    /// Whether the number is prime.
    Prime(bool),
    /// What came is no request. The connection then ends.
    Malformed,
}

/// Answers what came, if it could be read as a request.
pub fn answer(req: Option<Request>) -> (out: Answer)
    ensures
        !(req matches Some(r) && is_known_method(r.method@)) <==> out is Malformed,
        out matches Answer::Prime(b) ==> b == (req->0.number matches Some(n) && prime(n@)),
{
    match validate_request(req) {
        Some(req) => Answer::Prime(
            match req.number {
                Some(num) => is_prime(num),
                None => false,
            },
        ),
        None => Answer::Malformed,
    }
}

/// A number above one is prime exactly if it is no product of two numbers above one.
pub proof fn law_primes_are_no_products(n: int, a: int, b: int)
    ensures
        n <= 1 ==> !prime(n),
        a > 1 && b > 1 ==> !prime(a * b),
        n > 1 && !prime(n) ==> exists|c: int, d: int| c > 1 && d > 1 && #[trigger] (c * d) == n,
{
    if a > 1 && b > 1 {
        assert(1 < a < a * b) by (nonlinear_arith)
            requires
                a > 1,
                b > 1,
        ;
        vstd::arithmetic::div_mod::lemma_mod_multiples_basic(b, a);
        assert(b * a == a * b) by (nonlinear_arith);
        assert(divides(a, a * b));
    }
    if n > 1 && !prime(n) {
        let c = choose|c: int| 1 < c < n && #[trigger] divides(c, n);
        let d = n / c;
        vstd::arithmetic::div_mod::lemma_fundamental_div_mod(n, c);
        assert(d > 1) by (nonlinear_arith)
            requires
                n == c * d,
                1 < c < n,
        ;
        assert(c * d == n);
    }
}

/// The digits of a number are its value: what stands before the point is read with its sign, and the
/// number is an integer if the point is missing or followed by zeros alone, at least one.
pub proof fn law_numbers_are_read(
    n: Parsed,
    whole: Seq<char>,
    fraction: Seq<char>,
    i: int,
)
    requires
        is_integer(whole),
        all_digits(fraction),
    ensures
        is_decimal(whole, whole, None),
        is_decimal(whole + seq!['.'] + fraction, whole, Some(fraction)),
        stands_for(n, whole, None) <==> (n matches Parsed::Whole(k) && k@ == integer_value(whole)),
        fraction.len() == 0 ==> (stands_for(n, whole, Some(fraction)) <==> n is Broken),
        0 <= i < fraction.len() && fraction[i] != '0' ==> (stands_for(n, whole, Some(fraction))
            <==> n is Broken),
        fraction.len() > 0 && (forall|j: int| 0 <= j < fraction.len() ==> #[trigger] fraction[j] == '0')
            ==> (stands_for(n, whole, Some(fraction)) <==> (n matches Parsed::Whole(k) && k@
            == integer_value(whole))),
{
    if 0 <= i < fraction.len() && fraction[i] != '0' {
        law_other_digits_behind_the_point(fraction, i);
    }
    if forall|j: int| 0 <= j < fraction.len() ==> #[trigger] fraction[j] == '0' {
        lemma_zeros(fraction);
    }
}

/// A text with a character that a number in decimal digits cannot have there is none: a letter, a
/// sign that is not the minus sign in front, or a second point.
pub proof fn law_other_texts_are_no_numbers(
    text: Seq<char>,
    i: int,
    j: int,
    whole: Seq<char>,
    fraction: Option<Seq<char>>,
)
    requires
        ({
            ||| text.len() == 0
            ||| 0 <= i < text.len() && !(48 <= text[i] as int <= 57) && text[i] != '.' && (i > 0
                || text[0] != '-')
            ||| 0 <= i < j < text.len() && text[i] == '.' && text[j] == '.'
        }),
    ensures
        !is_decimal(text, whole, fraction),
{
    if is_decimal(text, whole, fraction) {
        lemma_no_point(whole);
        assert(whole.len() > 0);
        let n = whole.len() as int;
        assert forall|k: int| 0 <= k < text.len() implies {
            ||| is_digit(#[trigger] text[k])
            ||| k == 0 && text[0] == '-'
            ||| k == n && text[k] == '.'
        } by {
            if k < n {
                assert(text[k] == whole[k]);
                if whole[0] == '-' && k > 0 {
                    assert(is_digit(whole.skip(1)[k - 1]));
                } else if whole[0] != '-' {
                    assert(is_digit(whole[k]));
                }
            } else if k > n {
                if let Some(f) = fraction {
                    assert(is_digit(f[k - n - 1]));
                    assert(text[k] == f[k - n - 1]);
                }
            }
        }
        assert(text.len() > 0);
        if 0 <= i < text.len() {
            assert(is_digit(text[i]) || i == 0 && text[0] == '-' || i == n && text[i] == '.');
        }
        if 0 <= j < text.len() {
            assert(is_digit(text[j]) || j == 0 && text[0] == '-' || j == n && text[j] == '.');
        }
    }
}

/// The method that is answered is called `isPrime`, letter for letter.
pub proof fn law_the_method_is_called(method: Seq<char>)
    ensures
        is_known_method(method) <==> method == seq!['i', 's', 'P', 'r', 'i', 'm', 'e'],
{
    reveal_strlit("isPrime");
    assert("isPrime"@ =~= seq!['i', 's', 'P', 'r', 'i', 'm', 'e']);
}

} // verus!

//! Rendering of numbers as text.

use vstd::prelude::*;

verus! {

/// The character for a digit below sixteen, in lower case.
pub open spec fn digit_char(d: nat) -> char {
    seq!['0', '1', '2', '3', '4', '5', '6', '7', '8', '9', 'a', 'b', 'c', 'd', 'e', 'f'][d as int]
}

/// The decimal digits of `n`, most significant first, without leading
/// zeros; `0` is the single digit `0`.
pub open spec fn decimal_digits(n: nat) -> Seq<char>
    decreases n,
{
    if n < 10 {
        seq![digit_char(n)]
    } else {
        decimal_digits(n / 10).push(digit_char(n % 10))
    }
}

/// The lower-case hexadecimal digits of `n`, most significant first,
/// without leading zeros; `0` is the single digit `0`.
pub open spec fn hex_digits(n: nat) -> Seq<char>
    decreases n,
{
    if n < 16 {
        seq![digit_char(n)]
    } else {
        hex_digits(n / 16).push(digit_char(n % 16))
    }
}

/// Different numbers have different hexadecimal digits.
pub proof fn lemma_hex_digits_injective(a: nat, b: nat)
    requires
        hex_digits(a) == hex_digits(b),
    ensures
        a == b,
    decreases a,
{
    assert forall|x: nat, y: nat| x < 16 && y < 16 && digit_char(x) == digit_char(y) implies x
        == y by {}
    if a < 16 && b < 16 {
        assert(hex_digits(a)[0] == digit_char(a));
        assert(hex_digits(b)[0] == digit_char(b));
    } else if a >= 16 && b >= 16 {
        let x = hex_digits(a / 16);
        let y = hex_digits(b / 16);
        assert(x.push(digit_char(a % 16)).drop_last() =~= x);
        assert(y.push(digit_char(b % 16)).drop_last() =~= y);
        assert(x.push(digit_char(a % 16)).last() == digit_char(a % 16));
        assert(y.push(digit_char(b % 16)).last() == digit_char(b % 16));
        lemma_hex_digits_injective(a / 16, b / 16);
    } else {
        lemma_hex_digits_length(a);
        lemma_hex_digits_length(b);
    }
}

/// A number below sixteen has one hexadecimal digit, any other has more.
pub proof fn lemma_hex_digits_length(n: nat)
    ensures
        n < 16 ==> hex_digits(n).len() == 1,
        n >= 16 ==> hex_digits(n).len() >= 2,
    decreases n,
{
    if n >= 16 {
        lemma_hex_digits_length(n / 16);
    }
}

/// A number of thousandths as text with three decimal places.
pub open spec fn thousandths_text(m: nat) -> Seq<char> {
    decimal_digits(m / 1000) + seq!['.'] + seq![
        digit_char(m / 100 % 10),
        digit_char(m / 10 % 10),
        digit_char(m % 10),
    ]
}

/// `format!` with `{}` writes an unsigned integer in decimal, without sign,
/// padding or leading zeros.
#[verifier::external_body]
pub(crate) fn decimal_string(n: u64) -> (s: String)
    ensures
        s@ == decimal_digits(n as nat),
{
    format!("{}", n)
}

/// `format!` with `{:x}` writes an unsigned integer in lower-case
/// hexadecimal, without prefix, padding or leading zeros.
#[verifier::external_body]
pub(crate) fn lower_hex_string(n: u64) -> (s: String)
    ensures
        s@ == hex_digits(n as nat),
{
    format!("{:x}", n)
}

/// The text of a single decimal digit.
fn digit_str(d: u64) -> (s: &'static str)
    requires
        d < 10,
    ensures
        s@ == seq![digit_char(d as nat)],
{
    proof {
        reveal_strlit("0");
        reveal_strlit("1");
        reveal_strlit("2");
        reveal_strlit("3");
        reveal_strlit("4");
        reveal_strlit("5");
        reveal_strlit("6");
        reveal_strlit("7");
        reveal_strlit("8");
        reveal_strlit("9");
    }
    let s = if d == 0 {
        "0"
    } else if d == 1 {
        "1"
    } else if d == 2 {
        "2"
    } else if d == 3 {
        "3"
    } else if d == 4 {
        "4"
    } else if d == 5 {
        "5"
    } else if d == 6 {
        "6"
    } else if d == 7 {
        "7"
    } else if d == 8 {
        "8"
    } else {
        "9"
    };
    assert(s@ =~= seq![digit_char(d as nat)]);
    s
}

/// Renders a number of thousandths with three decimal places, as in `5.000`.
pub fn thousandths_string(m: u64) -> (s: String)
    ensures
        s@ == thousandths_text(m as nat),
{
    let mut s = decimal_string(m / 1000);
    proof {
        reveal_strlit(".");
    }
    s.append(".");
    s.append(digit_str(m / 100 % 10));
    s.append(digit_str(m / 10 % 10));
    s.append(digit_str(m % 10));
    assert(s@ =~= thousandths_text(m as nat));
    s
}

} // verus!

//! Integers written out in decimal.

use crate::token::all_digits;
use crate::token::decimal_value;
use vstd::prelude::*;
use vstd::string::*;

verus! {

/// The character of the digit `d`.
pub open spec fn digit_char(d: nat) -> char
    recommends
        d < 10,
{
    if d == 0 {
        '0'
    } else if d == 1 {
        '1'
    } else if d == 2 {
        '2'
    } else if d == 3 {
        '3'
    } else if d == 4 {
        '4'
    } else if d == 5 {
        '5'
    } else if d == 6 {
        '6'
    } else if d == 7 {
        '7'
    } else if d == 8 {
        '8'
    } else {
        '9'
    }
}

/// The decimal digits of `n`, the most significant first, without leading
/// zeros.
pub open spec fn digits(n: nat) -> Seq<char>
    decreases n,
{
    if n < 10 {
        seq![digit_char(n)]
    } else {
        digits(n / 10) + seq![digit_char(n % 10)]
    }
}

/// `n` in decimal, with a minus sign in front where it is negative.
pub open spec fn decimal(n: int) -> Seq<char> {
    if n < 0 {
        seq!['-'] + digits((-n) as nat)
    } else {
        digits(n as nat)
    }
}

/// The digit `d` as a string.
fn digit_str(d: u64) -> (s: &'static str)
    requires
        d < 10,
    ensures
        s@ == seq![digit_char(d as nat)],
{
    proof {
        reveal_strlit("0");
        reveal_strlit("1");
        reveal_strlit("2");
        reveal_strlit("3");
        reveal_strlit("4");
        reveal_strlit("5");
        reveal_strlit("6");
        reveal_strlit("7");
        reveal_strlit("8");
        reveal_strlit("9");
    }
    let s = if d == 0 {
        "0"
    } else if d == 1 {
        "1"
    } else if d == 2 {
        "2"
    } else if d == 3 {
        "3"
    } else if d == 4 {
        "4"
    } else if d == 5 {
        "5"
    } else if d == 6 {
        "6"
    } else if d == 7 {
        "7"
    } else if d == 8 {
        "8"
    } else {
        "9"
    };
    assert(s@ =~= seq![digit_char(d as nat)]);
    s
}

/// Writes out the decimal digits of `n`.
pub(crate) fn digits_string(n: u64) -> (s: String)
    ensures
        s@ == digits(n as nat),
    decreases n,
{
    let last = digit_str(n % 10);
    if n < 10 {
        String::from_str(last)
    } else {
        digits_string(n / 10).concat(last)
    }
}

/// Writes out `n` in decimal.
pub fn decimal_string(n: i64) -> (s: String)
    ensures
        s@ == decimal(n as int),
{
    if n < 0 {
        proof {
            reveal_strlit("-");
        }
        let magnitude: u64 = (-(n + 1)) as u64 + 1;
        let s = String::from_str("-").concat(digits_string(magnitude).as_str());
        assert("-"@ =~= seq!['-']);
        s
    } else {
        digits_string(n as u64)
    }
}

/// The digits of a number are a string of digits, not empty, that denotes
/// the number: what is written out here is read back as it was.
pub proof fn lemma_digits_denote(n: nat)
    ensures
        digits(n).len() > 0,
        all_digits(digits(n)),
        decimal_value(digits(n)) == n,
    decreases n,
{
    let s = digits(n);
    if n < 10 {
        assert(s.drop_last() =~= Seq::<char>::empty());
        assert(decimal_value(s.drop_last()) == 0);
    } else {
        lemma_digits_denote(n / 10);
        assert(s.drop_last() =~= digits(n / 10));
        assert(s.last() == digit_char(n % 10));
        assert forall|i: int| 0 <= i < s.len() implies crate::token::CharClass::Digit.holds(
            #[trigger] s[i],
        ) by {
            if i < s.len() - 1 {
                assert(s[i] == digits(n / 10)[i]);
            }
        }
    }
}

/// Two numbers with the same digits are the same number.
pub proof fn lemma_digits_tell_number(a: nat, b: nat)
    requires
        digits(a) == digits(b),
    ensures
        a == b,
{
    lemma_digits_denote(a);
    lemma_digits_denote(b);
}

/// Two integers that are written the same in decimal are the same integer.
pub proof fn lemma_decimal_tells_number(a: int, b: int)
    requires
        decimal(a) == decimal(b),
    ensures
        a == b,
{
    let minus = seq!['-'];
    if a < 0 {
        lemma_digits_denote((-a) as nat);
        assert(decimal(a)[0] == '-');
        if b < 0 {
            lemma_digits_denote((-b) as nat);
            assert((minus + digits((-a) as nat)).skip(1) =~= digits((-a) as nat));
            assert((minus + digits((-b) as nat)).skip(1) =~= digits((-b) as nat));
            lemma_digits_tell_number((-a) as nat, (-b) as nat);
        } else {
            lemma_digits_denote(b as nat);
            assert(crate::token::CharClass::Digit.holds(digits(b as nat)[0]));
        }
    } else {
        lemma_digits_denote(a as nat);
        assert(crate::token::CharClass::Digit.holds(digits(a as nat)[0]));
        if b < 0 {
            assert(decimal(b)[0] == '-');
        } else {
            lemma_digits_tell_number(a as nat, b as nat);
        }
    }
}

} // verus!

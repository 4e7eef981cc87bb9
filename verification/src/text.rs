//! Numbers as text.

use vstd::prelude::*;
use vstd::string::StringExecFns;

verus! {

/// The digit `d` as a character.
pub open spec fn digit(d: nat) -> char {
    (d + '0' as nat) as char
}

/// The number `n` in decimal, without leading zeros.
pub open spec fn decimal(n: nat) -> Seq<char>
    decreases n,
{
    if n < 10 {
        seq![digit(n)]
    } else {
        decimal(n / 10).push(digit(n % 10))
    }
}

/// One decimal digit as text.
fn digit_text(d: u64) -> (text: &'static str)
    requires
        d < 10,
    ensures
        text@ == seq![digit(d as nat)],
{
    proof {
        reveal_strlit("0");
        reveal_strlit("1");
        reveal_strlit("2");
        reveal_strlit("3");
        reveal_strlit("4");
        reveal_strlit("5");
        reveal_strlit("6");
        reveal_strlit("7");
        reveal_strlit("8");
        reveal_strlit("9");
    }
    match d {
        0 => "0",
        1 => "1",
        2 => "2",
        3 => "3",
        4 => "4",
        5 => "5",
        6 => "6",
        7 => "7",
        8 => "8",
        _ => "9",
    }
}

/// The number `n` in decimal.
pub fn decimal_text(n: u64) -> (text: String)
    ensures
        text@ == decimal(n as nat),
    decreases n,
{
    if n < 10 {
        String::from_str(digit_text(n))
    } else {
        let mut text: String = decimal_text(n / 10);
        text.append(digit_text(n % 10));
        assert(text@ =~= decimal(n as nat));
        text
    }
}

/// The number that some decimal digits stand for.
pub open spec fn number(digits: Seq<char>) -> int
    decreases digits.len(),
{
    if digits.len() == 0 {
        0
    } else {
        10 * number(digits.drop_last()) + (digits.last() as int - '0' as int)
    }
}

/// The decimal digits of a number stand for that number.
pub proof fn law_decimal(n: nat)
    ensures
        number(decimal(n)) == n,
    decreases n,
{
    if n < 10 {
        reveal_with_fuel(number, 2);
        assert(decimal(n).drop_last() =~= Seq::<char>::empty());
    } else {
        law_decimal(n / 10);
        assert(decimal(n).drop_last() =~= decimal(n / 10));
    }
}

/// A number is read digit by digit, from the left, each digit ten times the next.
pub proof fn law_number(digits: Seq<char>, last: char)
    ensures
        number(Seq::<char>::empty()) == 0,
        number(digits.push(last)) == 10 * number(digits) + (last as int - 48),
{
    assert(digits.push(last).drop_last() =~= digits);
}

/// A number in decimal is made of digits, and starts with a zero only if it is zero.
pub proof fn law_decimal_digits(n: nat)
    ensures
        decimal(n).len() > 0,
        forall|i: int| 0 <= i < decimal(n).len() ==> '0' <= #[trigger] decimal(n)[i] <= '9',
        decimal(n)[0] == '0' <==> n == 0,
        n == 0 ==> decimal(n).len() == 1,
    decreases n,
{
    if n >= 10 {
        law_decimal_digits(n / 10);
        let all = decimal(n);
        assert forall|i: int| 0 <= i < all.len() implies '0' <= #[trigger] all[i] <= '9' by {
            if i < all.len() - 1 {
                assert(all[i] == decimal(n / 10)[i]);
            }
        }
        assert(all[0] == decimal(n / 10)[0]);
    }
}

/// No two numbers are written alike.
pub proof fn law_decimals_apart(a: nat, b: nat)
    requires
        decimal(a) == decimal(b),
    ensures
        a == b,
{
    law_decimal(a);
    law_decimal(b);
}

/// The text of a number is made of digits, has no zero in front, and reads as the number.
pub proof fn law_decimal_text(n: u64, text: String)
    requires
        call_ensures(decimal_text, (n,), text),
    ensures
        number(text@) == n,
        text@.len() > 0,
        forall|i: int| 0 <= i < text@.len() ==> '0' <= #[trigger] text@[i] <= '9',
        text@[0] == '0' <==> n == 0,
        n == 0 ==> text@.len() == 1,
{
    law_decimal(n as nat);
    law_decimal_digits(n as nat);
}

} // verus!

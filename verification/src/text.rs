//! Numbers as text.

use vstd::prelude::*;
use vstd::string::StringExecFns;

verus! {

/// The digit for `value`, in lower case.
pub open spec fn digit(value: int) -> char {
    if value < 10 {
        ('0' as int + value) as char
    } else {
        ('a' as int + value - 10) as char
    }
}

/// `n` written in `base`, without leading zeros.
pub open spec fn digits(n: int, base: int) -> Seq<char>
    decreases n,
{
    if n < base || base < 2 {
        seq![digit(n)]
    } else {
        proof {
            assert(0 <= n / base < n) by (nonlinear_arith)
                requires
                    n >= base,
                    base >= 2,
            ;
        }
        digits(n / base, base).push(digit(n % base))
    }
}

/// `n` in decimal.
pub open spec fn decimal(n: int) -> Seq<char> {
    digits(n, 10)
}

/// `n` in hexadecimal, behind `0x`.
pub open spec fn hexadecimal(n: int) -> Seq<char> {
    "0x"@ + digits(n, 16)
}

/// Appends the digit for `value`.
fn append_digit(out: &mut String, value: usize)
    requires
        value < 16,
    ensures
        final(out)@ == old(out)@.push(digit(value as int)),
{
    let text = if value == 0 {
        "0"
    } else if value == 1 {
        "1"
    } else if value == 2 {
        "2"
    } else if value == 3 {
        "3"
    } else if value == 4 {
        "4"
    } else if value == 5 {
        "5"
    } else if value == 6 {
        "6"
    } else if value == 7 {
        "7"
    } else if value == 8 {
        "8"
    } else if value == 9 {
        "9"
    } else if value == 10 {
        "a"
    } else if value == 11 {
        "b"
    } else if value == 12 {
        "c"
    } else if value == 13 {
        "d"
    } else if value == 14 {
        "e"
    } else {
        "f"
    };
    proof {
        reveal_strlit("0");
        reveal_strlit("1");
        reveal_strlit("2");
        reveal_strlit("3");
        reveal_strlit("4");
        reveal_strlit("5");
        reveal_strlit("6");
        reveal_strlit("7");
        reveal_strlit("8");
        reveal_strlit("9");
        reveal_strlit("a");
        reveal_strlit("b");
        reveal_strlit("c");
        reveal_strlit("d");
        reveal_strlit("e");
        reveal_strlit("f");
        assert(text@ =~= seq![digit(value as int)]);
        assert(out@ + text@ =~= out@.push(digit(value as int)));
    }
    out.append(text);
}

/// Appends `n`, written in `base`.
pub fn append_digits(out: &mut String, n: usize, base: usize)
    requires
        2 <= base <= 16,
    ensures
        final(out)@ == old(out)@ + digits(n as int, base as int),
    decreases n,
{
    if n < base {
        append_digit(out, n);
        proof {
            assert(out@ =~= old(out)@ + digits(n as int, base as int));
        }
    } else {
        proof {
            assert(n / base < n) by (nonlinear_arith)
                requires
                    n >= base,
                    base >= 2,
            ;
        }
        append_digits(out, n / base, base);
        append_digit(out, n % base);
        proof {
            assert(out@ =~= old(out)@ + digits(n as int, base as int));
        }
    }
}

/// Appends `n` in decimal.
pub fn append_decimal(out: &mut String, n: usize)
    ensures
        final(out)@ == old(out)@ + decimal(n as int),
{
    append_digits(out, n, 10);
}

/// Appends `n` in hexadecimal, behind `0x`.
pub fn append_hexadecimal(out: &mut String, n: usize)
    ensures
        final(out)@ == old(out)@ + hexadecimal(n as int),
{
    out.append("0x");
    append_digits(out, n, 16);
    proof {
        assert(out@ =~= old(out)@ + hexadecimal(n as int));
    }
}

} // verus!

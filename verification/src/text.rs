//! Human-readable messages: decimal rendering of integers.
use vstd::prelude::*;

verus! {

/// The ASCII digit for `d` (below ten).
pub open spec fn digit_char(d: nat) -> char {
    if d == 0 {
        '0'
    } else if d == 1 {
        '1'
    } else if d == 2 {
        '2'
    } else if d == 3 {
        '3'
    } else if d == 4 {
        '4'
    } else if d == 5 {
        '5'
    } else if d == 6 {
        '6'
    } else if d == 7 {
        '7'
    } else if d == 8 {
        '8'
    } else {
        '9'
    }
}

/// The decimal digits of `n`, most significant first, without leading
/// zeros.
pub open spec fn decimal(n: nat) -> Seq<char>
    decreases n,
{
    if n < 10 {
        seq![digit_char(n)]
    } else {
        decimal(n / 10).push(digit_char(n % 10))
    }
}

fn push_digit(text: &mut String, d: u64)
    requires
        d < 10,
    ensures
        final(text)@ == old(text)@ + seq![digit_char(d as nat)],
{
    let ghost start = text@;
    if d == 0 {
        proof {
            reveal_strlit("0");
        }
        text.append("0");
    } else if d == 1 {
        proof {
            reveal_strlit("1");
        }
        text.append("1");
    } else if d == 2 {
        proof {
            reveal_strlit("2");
        }
        text.append("2");
    } else if d == 3 {
        proof {
            reveal_strlit("3");
        }
        text.append("3");
    } else if d == 4 {
        proof {
            reveal_strlit("4");
        }
        text.append("4");
    } else if d == 5 {
        proof {
            reveal_strlit("5");
        }
        text.append("5");
    } else if d == 6 {
        proof {
            reveal_strlit("6");
        }
        text.append("6");
    } else if d == 7 {
        proof {
            reveal_strlit("7");
        }
        text.append("7");
    } else if d == 8 {
        proof {
            reveal_strlit("8");
        }
        text.append("8");
    } else {
        proof {
            reveal_strlit("9");
        }
        text.append("9");
    }
    proof {
        assert(text@ =~= start + seq![digit_char(d as nat)]);
    }
}

/// Appends the decimal digits of `n` to `text`.
pub fn push_decimal(text: &mut String, n: u64)
    ensures
        final(text)@ == old(text)@ + decimal(n as nat),
    decreases n,
{
    let ghost start = text@;
    if n >= 10 {
        push_decimal(text, n / 10);
    }
    push_digit(text, n % 10);
    proof {
        if n >= 10 {
            assert(text@ =~= start + decimal(n as nat));
        } else {
            assert(text@ =~= start + decimal(n as nat));
        }
    }
}

} // verus!

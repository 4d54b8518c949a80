use vstd::prelude::*;

verus! {

/// The ASCII digit character for `d` (meant for `0 <= d < 10`).
pub open spec fn digit_char(d: int) -> char {
    (48 + d) as char
}

/// Decimal rendering of a natural number, most significant digit first.
pub open spec fn dec_nat(n: nat) -> Seq<char>
    decreases n,
{
    if n < 10 {
        seq![digit_char(n as int)]
    } else {
        dec_nat(n / 10).push(digit_char((n % 10) as int))
    }
}

/// Decimal rendering of an integer, with a leading `-` when it is negative.
pub open spec fn dec(n: int) -> Seq<char> {
    if n < 0 {
        seq!['-'] + dec_nat((-n) as nat)
    } else {
        dec_nat(n as nat)
    }
}

/// `text` followed by a space and the decimal rendering of `n`.
pub open spec fn with_arg(text: Seq<char>, n: int) -> Seq<char> {
    text + seq![' '] + dec(n)
}

fn digit_str(d: u32) -> (s: &'static str)
    requires
        d < 10,
    ensures
        s@ == seq![digit_char(d as int)],
{
    proof {
        reveal_strlit("0");
        reveal_strlit("1");
        reveal_strlit("2");
        reveal_strlit("3");
        reveal_strlit("4");
        reveal_strlit("5");
        reveal_strlit("6");
        reveal_strlit("7");
        reveal_strlit("8");
        reveal_strlit("9");
    }
    if d == 0 {
        "0"
    } else if d == 1 {
        "1"
    } else if d == 2 {
        "2"
    } else if d == 3 {
        "3"
    } else if d == 4 {
        "4"
    } else if d == 5 {
        "5"
    } else if d == 6 {
        "6"
    } else if d == 7 {
        "7"
    } else if d == 8 {
        "8"
    } else {
        "9"
    }
}

fn append_nat(s: &mut String, n: u32)
    ensures
        final(s)@ == old(s)@ + dec_nat(n as nat),
    decreases n,
{
    if n < 10 {
        s.append(digit_str(n));
    } else {
        append_nat(s, n / 10);
        s.append(digit_str(n % 10));
    }
}

/// Appends a space and the decimal rendering of `n` to `s`.
pub fn append_arg(s: &mut String, n: i32)
    ensures
        final(s)@ == with_arg(old(s)@, n as int),
{
    proof {
        reveal_strlit(" ");
        reveal_strlit("-");
    }
    s.append(" ");
    if n < 0 {
        s.append("-");
        let m: i64 = 0i64 - (n as i64);
        append_nat(s, m as u32);
    } else {
        append_nat(s, n as u32);
    }
}

} // verus!

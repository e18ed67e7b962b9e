//! Building strings.
use vstd::prelude::*;
use vstd::string::StringExecFns;

verus! {

/// Appends `text` to `s`.
pub(crate) fn push_str(s: &mut String, text: &str)
    ensures
        final(s)@ == old(s)@ + text@,
{
    s.append(text);
}

/// `name` followed by `suffix`.
pub(crate) fn suffixed(name: &str, suffix: &str) -> (joined: String)
    ensures
        joined@ == name@ + suffix@,
{
    let mut joined = name.to_owned();
    push_str(&mut joined, suffix);
    joined
}

/// The decimal digit `d`.
pub open spec fn digit_text(d: nat) -> Seq<char> {
    if d == 0 {
        "0"@
    } else if d == 1 {
        "1"@
    } else if d == 2 {
        "2"@
    } else if d == 3 {
        "3"@
    } else if d == 4 {
        "4"@
    } else if d == 5 {
        "5"@
    } else if d == 6 {
        "6"@
    } else if d == 7 {
        "7"@
    } else if d == 8 {
        "8"@
    } else {
        "9"@
    }
}

/// `n` written in decimal, without leading zeros.
pub open spec fn decimal(n: nat) -> Seq<char>
    decreases n,
{
    if n < 10 {
        digit_text(n)
    } else {
        decimal(n / 10) + digit_text(n % 10)
    }
}

/// Appends the digit `d`.
fn push_digit(s: &mut String, d: u32)
    requires
        d < 10,
    ensures
        final(s)@ == old(s)@ + digit_text(d as nat),
{
    if d == 0 {
        push_str(s, "0");
    } else if d == 1 {
        push_str(s, "1");
    } else if d == 2 {
        push_str(s, "2");
    } else if d == 3 {
        push_str(s, "3");
    } else if d == 4 {
        push_str(s, "4");
    } else if d == 5 {
        push_str(s, "5");
    } else if d == 6 {
        push_str(s, "6");
    } else if d == 7 {
        push_str(s, "7");
    } else if d == 8 {
        push_str(s, "8");
    } else {
        push_str(s, "9");
    }
}

/// Appends `n` in decimal.
pub(crate) fn push_decimal(s: &mut String, n: u32)
    ensures
        final(s)@ == old(s)@ + decimal(n as nat),
    decreases n,
{
    if n >= 10 {
        push_decimal(s, n / 10);
    }
    push_digit(s, n % 10);
    proof {
        if n >= 10 {
            assert((n / 10) as nat == (n as nat) / 10);
        }
    }
}

/// `n` in decimal.
pub(crate) fn decimal_text(n: u32) -> (text: String)
    ensures
        text@ == decimal(n as nat),
{
    let mut text = String::new();
    push_decimal(&mut text, n);
    text
}

} // verus!

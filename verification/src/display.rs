//! Durations as clock text, `hh:mm:ss`.

use vstd::prelude::*;
use vstd::string::StringExecFns;

verus! {

/// `a / b` rounded toward zero, for positive `b`.
pub open spec fn quotient_toward_zero(a: int, b: int) -> int {
    if a >= 0 {
        a / b
    } else {
        -((-a) / b)
    }
}

/// What `a` leaves over [`quotient_toward_zero`]; it has the sign of `a`.
pub open spec fn remainder_toward_zero(a: int, b: int) -> int {
    a - b * quotient_toward_zero(a, b)
}

/// The character of one decimal digit.
pub open spec fn digit_char(d: int) -> char {
    seq!['0', '1', '2', '3', '4', '5', '6', '7', '8', '9'][d]
}

/// The decimal digits of `n`, most significant first, without padding.
pub open spec fn decimal(n: nat) -> Seq<char>
    decreases n,
{
    if n < 10 {
        seq![digit_char(n as int)]
    } else {
        decimal(n / 10).push(digit_char((n % 10) as int))
    }
}

/// `n` in at least two characters: padded with one zero where a single digit
/// would stand alone, and with a leading minus sign below zero.
pub open spec fn two_digits(n: int) -> Seq<char> {
    if n < 0 {
        seq!['-'] + decimal((-n) as nat)
    } else if n < 10 {
        seq!['0'] + decimal(n as nat)
    } else {
        decimal(n as nat)
    }
}

/// The clock text of a span of `seconds`: hours, minutes and seconds, each
/// rounded toward zero and written by [`two_digits`], with colons between.
pub open spec fn clock_text(seconds: int) -> Seq<char> {
    two_digits(quotient_toward_zero(seconds, 3600)) + seq![':'] + two_digits(
        quotient_toward_zero(remainder_toward_zero(seconds, 3600), 60),
    ) + seq![':'] + two_digits(remainder_toward_zero(seconds, 60))
}

fn digit_text(d: u64) -> (text: &'static str)
    requires
        d < 10,
    ensures
        text@ == seq![digit_char(d as int)],
{
    proof {
        reveal_strlit("0");
        reveal_strlit("1");
        reveal_strlit("2");
        reveal_strlit("3");
        reveal_strlit("4");
        reveal_strlit("5");
        reveal_strlit("6");
        reveal_strlit("7");
        reveal_strlit("8");
        reveal_strlit("9");
    }
    let text = if d == 0 {
        "0"
    } else if d == 1 {
        "1"
    } else if d == 2 {
        "2"
    } else if d == 3 {
        "3"
    } else if d == 4 {
        "4"
    } else if d == 5 {
        "5"
    } else if d == 6 {
        "6"
    } else if d == 7 {
        "7"
    } else if d == 8 {
        "8"
    } else {
        "9"
    };
    assert(text@ =~= seq![digit_char(d as int)]);
    text
}

fn push_decimal(out: &mut String, n: u64)
    ensures
        final(out)@ == old(out)@ + decimal(n as nat),
    decreases n,
{
    if n >= 10 {
        push_decimal(out, n / 10);
    }
    out.append(digit_text(n % 10));
    assert(final(out)@ =~= old(out)@ + decimal(n as nat));
}

fn push_two_digits(out: &mut String, n: i64)
    requires
        n > i64::MIN,
    ensures
        final(out)@ == old(out)@ + two_digits(n as int),
{
    proof {
        reveal_strlit("-");
        reveal_strlit("0");
    }
    if n < 0 {
        out.append("-");
        push_decimal(out, (0 - n) as u64);
    } else {
        if n < 10 {
            out.append("0");
        }
        push_decimal(out, n as u64);
    }
    assert(final(out)@ =~= old(out)@ + two_digits(n as int));
}

/// Writes a span of whole seconds as `hh:mm:ss`.
///
/// Hours are not wrapped at a day. A negative span keeps its sign on each
/// field that is not zero: `-3725` reads `-1:-2:-5`.
pub fn format_duration(seconds: i64) -> (text: String)
    ensures
        text@ == clock_text(seconds as int),
{
    proof {
        reveal_strlit(":");
    }
    let hours: i64 = seconds / 3600;
    let minutes: i64 = (seconds % 3600) / 60;
    let secs: i64 = seconds % 60;
    let mut text = String::new();
    push_two_digits(&mut text, hours);
    text.append(":");
    push_two_digits(&mut text, minutes);
    text.append(":");
    push_two_digits(&mut text, secs);
    assert(text@ =~= clock_text(seconds as int));
    text
}

} // verus!

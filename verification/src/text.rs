//! Rendering of numbers inside diagnostic messages.
use vstd::prelude::*;

verus! {

/// The character of one hexadecimal digit, in lower or upper case.
pub open spec fn digit_char(d: nat, upper: bool) -> char {
    if d < 10 {
        (48 + d) as char
    } else if upper {
        (55 + d) as char
    } else {
        (87 + d) as char
    }
}

/// The decimal notation of `n`, without leading zeros.
pub open spec fn decimal(n: nat) -> Seq<char>
    decreases n,
{
    if n < 10 {
        seq![digit_char(n, false)]
    } else {
        decimal(n / 10).push(digit_char(n % 10, false))
    }
}

/// The decimal notation of `n`, with a minus sign in front of negative values.
pub open spec fn signed_decimal(n: int) -> Seq<char> {
    if n < 0 {
        "-"@ + decimal((-n) as nat)
    } else {
        decimal(n as nat)
    }
}

/// The two hexadecimal digits of a byte.
pub open spec fn hex_byte(b: u8, upper: bool) -> Seq<char> {
    seq![digit_char((b / 16) as nat, upper), digit_char((b % 16) as nat, upper)]
}

/// Appends one hexadecimal digit.
fn push_digit(out: &mut String, d: u8, upper: bool)
    requires
        d < 16,
    ensures
        final(out)@ == old(out)@.push(digit_char(d as nat, upper)),
{
    let s: &str = match d {
        0 => "0",
        1 => "1",
        2 => "2",
        3 => "3",
        4 => "4",
        5 => "5",
        6 => "6",
        7 => "7",
        8 => "8",
        9 => "9",
        10 => if upper { "A" } else { "a" },
        11 => if upper { "B" } else { "b" },
        12 => if upper { "C" } else { "c" },
        13 => if upper { "D" } else { "d" },
        14 => if upper { "E" } else { "e" },
        _ => if upper { "F" } else { "f" },
    };
    proof {
        reveal_strlit("0");
        reveal_strlit("1");
        reveal_strlit("2");
        reveal_strlit("3");
        reveal_strlit("4");
        reveal_strlit("5");
        reveal_strlit("6");
        reveal_strlit("7");
        reveal_strlit("8");
        reveal_strlit("9");
        reveal_strlit("A");
        reveal_strlit("B");
        reveal_strlit("C");
        reveal_strlit("D");
        reveal_strlit("E");
        reveal_strlit("F");
        reveal_strlit("a");
        reveal_strlit("b");
        reveal_strlit("c");
        reveal_strlit("d");
        reveal_strlit("e");
        reveal_strlit("f");
        assert(s@ =~= seq![digit_char(d as nat, upper)]);
    }
    out.append(s);
    assert(out@ =~= old(out)@.push(digit_char(d as nat, upper)));
}

/// Appends the decimal notation of `n`.
pub fn push_decimal(out: &mut String, n: u64)
    ensures
        final(out)@ == old(out)@ + decimal(n as nat),
    decreases n,
{
    if n >= 10 {
        push_decimal(out, n / 10);
    }
    push_digit(out, (n % 10) as u8, false);
    assert(out@ =~= old(out)@ + decimal(n as nat));
}

/// Appends the decimal notation of a signed value.
pub fn push_signed_decimal(out: &mut String, n: i64)
    ensures
        final(out)@ == old(out)@ + signed_decimal(n as int),
{
    if n < 0 {
        out.append("-");
        let magnitude: u64 = (-(n as i128)) as u64;
        push_decimal(out, magnitude);
        assert(out@ =~= old(out)@ + signed_decimal(n as int));
    } else {
        push_decimal(out, n as u64);
    }
}

/// Appends the two hexadecimal digits of a byte.
pub fn push_hex_byte(out: &mut String, b: u8, upper: bool)
    ensures
        final(out)@ == old(out)@ + hex_byte(b, upper),
{
    push_digit(out, b / 16, upper);
    push_digit(out, b % 16, upper);
    assert(out@ =~= old(out)@ + hex_byte(b, upper));
}

} // verus!

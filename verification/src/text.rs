//! Decimal and hexadecimal renderings of numbers, for messages.
use vstd::prelude::*;

verus! {

/// The lowercase hexadecimal digit for `d` (below 16).
pub open spec fn digit_char(d: nat) -> char {
    if d == 0 {
        '0'
    } else if d == 1 {
        '1'
    } else if d == 2 {
        '2'
    } else if d == 3 {
        '3'
    } else if d == 4 {
        '4'
    } else if d == 5 {
        '5'
    } else if d == 6 {
        '6'
    } else if d == 7 {
        '7'
    } else if d == 8 {
        '8'
    } else if d == 9 {
        '9'
    } else if d == 10 {
        'a'
    } else if d == 11 {
        'b'
    } else if d == 12 {
        'c'
    } else if d == 13 {
        'd'
    } else if d == 14 {
        'e'
    } else {
        'f'
    }
}

/// `n` written in base `b` (16, or otherwise 10), most significant digit
/// first, without leading zeros ("0" for zero).
pub open spec fn digits(n: nat, b: nat) -> Seq<char>
    decreases n,
{
    if b == 16 {
        if n < 16 {
            seq![digit_char(n)]
        } else {
            digits(n / 16, b).push(digit_char(n % 16))
        }
    } else {
        if n < 10 {
            seq![digit_char(n)]
        } else {
            digits(n / 10, b).push(digit_char(n % 10))
        }
    }
}

/// `n` in decimal.
pub open spec fn decimal(n: nat) -> Seq<char> {
    digits(n, 10)
}

/// `n` in lowercase hexadecimal.
pub open spec fn hex(n: nat) -> Seq<char> {
    digits(n, 16)
}

/// `n` in lowercase hexadecimal, padded with zeros to at least 8 digits.
pub open spec fn hex8(n: nat) -> Seq<char> {
    if hex(n).len() < 8 {
        Seq::new((8 - hex(n).len()) as nat, |i: int| '0') + hex(n)
    } else {
        hex(n)
    }
}

/// Appends the digit `d` (below 16).
fn push_digit(out: &mut String, d: u64)
    requires
        d < 16,
    ensures
        final(out)@ == old(out)@.push(digit_char(d as nat)),
{
    proof {
        reveal_strlit("0");
        reveal_strlit("1");
        reveal_strlit("2");
        reveal_strlit("3");
        reveal_strlit("4");
        reveal_strlit("5");
        reveal_strlit("6");
        reveal_strlit("7");
        reveal_strlit("8");
        reveal_strlit("9");
        reveal_strlit("a");
        reveal_strlit("b");
        reveal_strlit("c");
        reveal_strlit("d");
        reveal_strlit("e");
        reveal_strlit("f");
    }
    let ghost before = out@;
    let s = match d {
        0 => "0",
        1 => "1",
        2 => "2",
        3 => "3",
        4 => "4",
        5 => "5",
        6 => "6",
        7 => "7",
        8 => "8",
        9 => "9",
        10 => "a",
        11 => "b",
        12 => "c",
        13 => "d",
        14 => "e",
        _ => "f",
    };
    out.append(s);
    assert(final(out)@ =~= before.push(digit_char(d as nat)));
}

/// Appends `n` written in base `b` (10 or 16).
fn push_digits(out: &mut String, n: u64, b: u64)
    requires
        b == 10 || b == 16,
    ensures
        final(out)@ == old(out)@ + digits(n as nat, b as nat),
    decreases n,
{
    let ghost before = out@;
    if n >= b {
        push_digits(out, n / b, b);
    }
    push_digit(out, n % b);
    assert(final(out)@ =~= before + digits(n as nat, b as nat));
}

/// Appends `n` in decimal.
pub(crate) fn push_decimal(out: &mut String, n: u64)
    ensures
        final(out)@ == old(out)@ + decimal(n as nat),
{
    push_digits(out, n, 10);
}

/// Appends `n` in lowercase hexadecimal.
pub(crate) fn push_hex(out: &mut String, n: u64)
    ensures
        final(out)@ == old(out)@ + hex(n as nat),
{
    push_digits(out, n, 16);
}

/// The number of hexadecimal digits of `n`.
fn hex_len(n: u64) -> (r: u64)
    ensures
        r == hex(n as nat).len(),
        r <= 16,
    decreases n,
{
    if n < 16 {
        1
    } else {
        let r = hex_len(n / 16);
        assert(r <= 15) by {
            lemma_hex_len_bound(n);
        }
        r + 1
    }
}

/// 16 to the power `k`.
pub open spec fn pow16(k: nat) -> nat
    decreases k,
{
    if k == 0 {
        1
    } else {
        16 * pow16((k - 1) as nat)
    }
}

/// A number below 16 to the power `k` has at most `k` hexadecimal digits.
proof fn lemma_hex_len_le(n: nat, k: nat)
    requires
        k >= 1,
        n < pow16(k),
    ensures
        hex(n).len() <= k,
    decreases k,
{
    if n >= 16 {
        assert(k >= 2) by {
            if k == 1 {
                assert(pow16(0) == 1);
            }
        }
        lemma_hex_len_le(n / 16, (k - 1) as nat);
    }
}

proof fn lemma_hex_len_bound(n: u64)
    ensures
        n >= 16 ==> hex((n / 16) as nat).len() <= 15,
{
    reveal_with_fuel(pow16, 16);
    assert(pow16(15) == 0x1000_0000_0000_0000);
    if n >= 16 {
        lemma_hex_len_le((n / 16) as nat, 15);
    }
}

/// Appends `n` in lowercase hexadecimal, padded with zeros to 8 digits.
pub(crate) fn push_hex8(out: &mut String, n: u64)
    ensures
        final(out)@ == old(out)@ + hex8(n as nat),
{
    let ghost before = out@;
    let w = hex_len(n);
    if w < 8 {
        let mut k: u64 = 0;
        while k < 8 - w
            invariant
                w < 8,
                k <= 8 - w,
                out@ == before + Seq::new(k as nat, |i: int| '0'),
            decreases 8 - w - k,
        {
            push_digit(out, 0);
            k = k + 1;
            assert(out@ =~= before + Seq::new(k as nat, |i: int| '0'));
        }
    }
    push_hex(out, n);
    assert(final(out)@ =~= before + hex8(n as nat));
}

} // verus!

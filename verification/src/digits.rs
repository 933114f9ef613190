//! Hexadecimal reading and decimal writing of unsigned numbers.

use vstd::prelude::*;
use vstd::string::StringExecFns;

verus! {

/// The value of one hexadecimal digit, upper or lower case; `None` for any
/// other character.
pub open spec fn hex_digit_value(c: char) -> Option<nat> {
    if '0' <= c && c <= '9' {
        Some((c as nat - '0' as nat) as nat)
    } else if 'a' <= c && c <= 'f' {
        Some((c as nat - 'a' as nat + 10) as nat)
    } else if 'A' <= c && c <= 'F' {
        Some((c as nat - 'A' as nat + 10) as nat)
    } else {
        None
    }
}

/// Whether every character of `s` is a hexadecimal digit.
pub open spec fn all_hex_digits(s: Seq<char>) -> bool {
    forall|i: int| 0 <= i < s.len() ==> (#[trigger] hex_digit_value(s[i])) is Some
}

/// The number that a string of hexadecimal digits denotes, most significant
/// digit first. The empty string denotes zero.
pub open spec fn hex_value(s: Seq<char>) -> nat
    decreases s.len(),
{
    if s.len() == 0 {
        0
    } else {
        16 * hex_value(s.drop_last()) + hex_digit_value(s.last()).unwrap_or(0)
    }
}

/// What reading `s` as a 32-bit hexadecimal number gives: the number, where
/// `s` is one or more hexadecimal digits that denote at most `u32::MAX`.
pub open spec fn hex_u32(s: Seq<char>) -> Option<u32> {
    if s.len() > 0 && all_hex_digits(s) && hex_value(s) <= u32::MAX {
        Some(hex_value(s) as u32)
    } else {
        None
    }
}

/// A prefix of a digit string denotes no more than the whole string.
pub proof fn lemma_hex_value_prefix(s: Seq<char>, n: int)
    requires
        0 <= n <= s.len(),
    ensures
        hex_value(s.take(n)) <= hex_value(s),
    decreases s.len() - n,
{
    if n == s.len() {
        assert(s.take(n) == s);
    } else {
        lemma_hex_value_prefix(s, n + 1);
        assert(s.take(n + 1).drop_last() == s.take(n));
    }
}

/// Reads `s` as a 32-bit unsigned number written in hexadecimal.
pub fn parse_hex_u32(s: &str) -> (r: Option<u32>)
    ensures
        r == hex_u32(s@),
{
    broadcast use vstd::string::is_ascii_spec_bytes;

    if !s.is_ascii() {
        proof {
            let i = choose|i: int| 0 <= i < s@.len() && !('\0' <= #[trigger] s@[i] <= '\u{7f}');
            assert(hex_digit_value(s@[i]) is None);
        }
        return None;
    }
    let bytes = s.as_bytes();
    let n: usize = bytes.len();
    assert(bytes@ =~= Seq::new(s@.len(), |i: int| s@[i] as u8));
    if n == 0 {
        return None;
    }
    let mut acc: u32 = 0;
    let mut i: usize = 0;
    while i < n
        invariant
            s.is_ascii(),
            n == s@.len(),
            bytes@ == Seq::new(s@.len(), |i: int| s@[i] as u8),
            0 <= i <= n,
            all_hex_digits(s@.take(i as int)),
            acc == hex_value(s@.take(i as int)),
        decreases n - i,
    {
        let b: u8 = bytes[i];
        let ghost c: char = s@[i as int];
        let d: u32 = if 0x30 <= b && b <= 0x39 {
            (b - 0x30) as u32
        } else if 0x61 <= b && b <= 0x66 {
            (b - 0x61) as u32 + 10
        } else if 0x41 <= b && b <= 0x46 {
            (b - 0x41) as u32 + 10
        } else {
            assert(hex_digit_value(c) is None);
            return None;
        };
        assert(hex_digit_value(c) == Some(d as nat));
        proof {
            let next = s@.take(i + 1);
            assert(next.drop_last() == s@.take(i as int));
            assert(next.last() == c);
            assert(hex_value(next) == 16 * acc + d);
            assert forall|j: int| 0 <= j < next.len() implies (#[trigger] hex_digit_value(
                next[j],
            )) is Some by {
                if j < i {
                    assert(next[j] == s@.take(i as int)[j]);
                }
            }
        }
        if acc > 0x0fff_ffff {
            proof {
                lemma_hex_value_prefix(s@, i + 1);
            }
            return None;
        }
        acc = acc * 16 + d;
        i = i + 1;
    }
    assert(s@.take(n as int) == s@);
    Some(acc)
}

/// The character that writes one decimal digit.
pub open spec fn digit_char(d: nat) -> char {
    if d == 0 {
        '0'
    } else if d == 1 {
        '1'
    } else if d == 2 {
        '2'
    } else if d == 3 {
        '3'
    } else if d == 4 {
        '4'
    } else if d == 5 {
        '5'
    } else if d == 6 {
        '6'
    } else if d == 7 {
        '7'
    } else if d == 8 {
        '8'
    } else {
        '9'
    }
}

/// The decimal numeral of `n`: no sign, no leading zero, `"0"` for zero.
pub open spec fn decimal(n: nat) -> Seq<char>
    decreases n,
{
    if n < 10 {
        seq![digit_char(n)]
    } else {
        decimal(n / 10).push(digit_char(n % 10))
    }
}

/// The one-character text of a decimal digit.
fn digit_text(d: u64) -> (t: &'static str)
    requires
        d < 10,
    ensures
        t@ == seq![digit_char(d as nat)],
{
    proof {
        reveal_strlit("0");
        reveal_strlit("1");
        reveal_strlit("2");
        reveal_strlit("3");
        reveal_strlit("4");
        reveal_strlit("5");
        reveal_strlit("6");
        reveal_strlit("7");
        reveal_strlit("8");
        reveal_strlit("9");
    }
    let t = if d == 0 {
        "0"
    } else if d == 1 {
        "1"
    } else if d == 2 {
        "2"
    } else if d == 3 {
        "3"
    } else if d == 4 {
        "4"
    } else if d == 5 {
        "5"
    } else if d == 6 {
        "6"
    } else if d == 7 {
        "7"
    } else if d == 8 {
        "8"
    } else {
        "9"
    };
    assert(t@ =~= seq![digit_char(d as nat)]);
    t
}

/// Appends the decimal numeral of `v` to `out`.
pub fn push_decimal(out: &mut String, v: u64)
    ensures
        final(out)@ == old(out)@ + decimal(v as nat),
    decreases v,
{
    if v >= 10 {
        push_decimal(out, v / 10);
    }
    out.append(digit_text(v % 10));
}

} // verus!

//! Numbers written as text: parsing in base 10 or 16, and fixed-width
//! hexadecimal rendering of addresses.

use vstd::prelude::*;
use vstd::string::StringExecFns;
use crate::text::{char_is_ws, is_ws};

verus! {

/// Value of a hexadecimal digit character, or `None`.
pub open spec fn hex_digit(c: char) -> Option<int> {
    if '0' <= c <= '9' {
        Some(c as int - '0' as int)
    } else if 'a' <= c <= 'f' {
        Some(c as int - 'a' as int + 10)
    } else if 'A' <= c <= 'F' {
        Some(c as int - 'A' as int + 10)
    } else {
        None
    }
}

/// Value of `c` as a digit in base `radix` (at most 16), or `None`.
pub open spec fn digit_of(c: char, radix: nat) -> Option<int> {
    match hex_digit(c) {
        Some(d) => if d < radix {
            Some(d)
        } else {
            None
        },
        None => None,
    }
}

/// Whether every character of `s` is a digit in base `radix`.
pub open spec fn all_digits(s: Seq<char>, radix: nat) -> bool {
    forall|i: int| 0 <= i < s.len() ==> #[trigger] digit_of(s[i], radix) is Some
}

/// The number written by the digits `s` in base `radix`.
pub open spec fn digits_value(s: Seq<char>, radix: nat) -> int
    decreases s.len(),
{
    if s.len() == 0 {
        0
    } else {
        digits_value(s.drop_last(), radix) * radix + digit_of(s.last(), radix)->0
    }
}

/// The digits of a number written with an optional leading `+`.
pub open spec fn unsigned_digits(s: Seq<char>) -> Seq<char> {
    if s.len() > 0 && s[0] == '+' {
        s.drop_first()
    } else {
        s
    }
}

/// `u64::from_str_radix(s, radix)`, as an option: an optional `+` followed
/// by at least one digit in base `radix`, whose value fits in 64 bits.
pub open spec fn parse_radix(s: Seq<char>, radix: nat) -> Option<u64> {
    let digits = unsigned_digits(s);
    if digits.len() > 0 && all_digits(digits, radix) && digits_value(digits, radix) <= u64::MAX {
        Some(digits_value(digits, radix) as u64)
    } else {
        None
    }
}

/// Value of `c` as a digit in base `radix`.
fn digit_value(c: char, radix: u64) -> (d: Option<u64>)
    requires
        2 <= radix <= 16,
    ensures
        d matches Some(v) ==> digit_of(c, radix as nat) == Some(v as int) && v < radix,
        d is None ==> digit_of(c, radix as nat) is None,
{
    let h = if '0' <= c && c <= '9' {
        (c as u32 - '0' as u32) as u64
    } else if 'a' <= c && c <= 'f' {
        (c as u32 - 'a' as u32 + 10) as u64
    } else if 'A' <= c && c <= 'F' {
        (c as u32 - 'A' as u32 + 10) as u64
    } else {
        return None;
    };
    if h < radix {
        Some(h)
    } else {
        None
    }
}

/// A longer run of digits is worth at least as much as its prefix.
proof fn lemma_digits_value_grows(s: Seq<char>, radix: nat, k: int)
    requires
        0 <= k <= s.len(),
        radix >= 1,
        all_digits(s, radix),
    ensures
        digits_value(s, radix) >= digits_value(s.subrange(0, k), radix),
        digits_value(s.subrange(0, k), radix) >= 0,
    decreases s.len(),
{
    if s.len() > 0 {
        let d = s.drop_last();
        assert(all_digits(d, radix)) by {
            assert forall|i: int| 0 <= i < d.len() implies #[trigger] digit_of(d[i], radix) is Some by {
                assert(d[i] == s[i]);
            }
        }
        assert(digit_of(s.last(), radix) is Some);
        lemma_digits_value_grows(d, radix, d.len() as int);
        assert(d.subrange(0, d.len() as int) =~= d);
        assert(digits_value(d, radix) * radix >= digits_value(d, radix)) by (nonlinear_arith)
            requires
                digits_value(d, radix) >= 0,
                radix >= 1,
        ;
        if k == s.len() {
            assert(s.subrange(0, k) =~= s);
        } else {
            lemma_digits_value_grows(d, radix, k);
            assert(d.subrange(0, k) =~= s.subrange(0, k));
        }
    } else {
        assert(s.subrange(0, k) =~= s);
    }
}

/// `u64::from_str_radix` on a run of characters (see `parse_radix`).
pub fn parse_radix_chars(s: &[char], radix: u64) -> (r: Option<u64>)
    requires
        2 <= radix <= 16,
    ensures
        r == parse_radix(s@, radix as nat),
{
    let ghost rad = radix as nat;
    let mut i: usize = 0;
    if s.len() > 0 && s[0] == '+' {
        i = 1;
    }
    let ghost digits = s@.subrange(i as int, s@.len() as int);
    proof {
        if i == 1 {
            assert(digits =~= s@.drop_first());
        } else {
            assert(digits =~= s@);
        }
        assert(digits == unsigned_digits(s@));
    }
    if i >= s.len() {
        proof {
            assert(digits.len() == 0);
        }
        return None;
    }
    let first = i;
    let mut k = i;
    while k < s.len()
        invariant
            first <= k <= s@.len(),
            2 <= radix <= 16,
            rad == radix,
            digits == s@.subrange(first as int, s@.len() as int),
            digits == unsigned_digits(s@),
            forall|j: int| 0 <= j < k - first ==> #[trigger] digit_of(digits[j], rad) is Some,
        decreases s@.len() - k,
    {
        if digit_value(s[k], radix).is_none() {
            proof {
                assert(digits[k - first] == s@[k as int]);
                assert(!all_digits(digits, rad));
            }
            return None;
        }
        k = k + 1;
    }
    proof {
        assert(all_digits(digits, rad));
    }
    let mut v: u64 = 0;
    let mut k = first;
    while k < s.len()
        invariant
            first <= k <= s@.len(),
            2 <= radix <= 16,
            rad == radix,
            digits == s@.subrange(first as int, s@.len() as int),
            digits == unsigned_digits(s@),
            all_digits(digits, rad),
            v as int == digits_value(digits.subrange(0, k - first), rad),
        decreases s@.len() - k,
    {
        let d = match digit_value(s[k], radix) {
            Some(d) => d,
            None => {
                proof {
                    assert(digit_of(digits[k - first], rad) is Some);
                }
                return None;
            },
        };
        proof {
            let pre = digits.subrange(0, k + 1 - first);
            assert(pre.drop_last() =~= digits.subrange(0, k - first));
            assert(pre.last() == s@[k as int]);
        }
        if v > (u64::MAX - d) / radix {
            proof {
                let pre = digits.subrange(0, k + 1 - first);
                assert(v * radix + d > u64::MAX) by (nonlinear_arith)
                    requires
                        v > (u64::MAX - d) / (radix as int),
                        d < radix,
                        radix >= 2,
                ;
                lemma_digits_value_grows(digits, rad, k + 1 - first);
                assert(digits_value(pre, rad) == digits_value(pre.drop_last(), rad) * rad + digit_of(
                    pre.last(),
                    rad,
                )->0);
            }
            return None;
        }
        proof {
            let pre = digits.subrange(0, k + 1 - first);
            assert(digits_value(pre, rad) == digits_value(pre.drop_last(), rad) * rad + digit_of(
                pre.last(),
                rad,
            )->0);
            assert(v * radix + d <= u64::MAX) by (nonlinear_arith)
                requires
                    v <= (u64::MAX - d) / (radix as int),
                    d < radix,
                    radix >= 2,
            ;
        }
        v = v * radix + d;
        k = k + 1;
    }
    proof {
        assert(digits.subrange(0, s@.len() - first) =~= digits);
    }
    Some(v)
}

/// Index of the first character at or after `i` that is not white space,
/// or the length.
pub open spec fn lead_end(s: Seq<char>, i: int) -> int
    decreases s.len() - i,
{
    if i < 0 || i >= s.len() {
        s.len() as int
    } else if is_ws(s[i]) {
        lead_end(s, i + 1)
    } else {
        i
    }
}

/// One past the last character before `j` that is not white space, or 0.
pub open spec fn trail_end(s: Seq<char>, j: int) -> int
    decreases j,
{
    if j <= 0 || j > s.len() {
        0
    } else if is_ws(s[j - 1]) {
        trail_end(s, j - 1)
    } else {
        j
    }
}

/// `str::trim`: `s` without its leading and trailing white space.
pub open spec fn trimmed(s: Seq<char>) -> Seq<char> {
    let a = lead_end(s, 0);
    let b = trail_end(s, s.len() as int);
    if a >= b {
        seq![]
    } else {
        s.subrange(a, b)
    }
}

/// The number written in `s`, surrounding white space aside: hexadecimal
/// after a `0x` or `0X` prefix, decimal otherwise (see `parse_radix`).
pub open spec fn number_value(s: Seq<char>) -> Option<u64> {
    let t = trimmed(s);
    if t.len() >= 2 && t[0] == '0' && (t[1] == 'x' || t[1] == 'X') {
        parse_radix(t.subrange(2, t.len() as int), 16)
    } else {
        parse_radix(t, 10)
    }
}

/// The bounds found by `lead_end` and `trail_end` lie within the sequence.
proof fn lemma_trim_bounds(s: Seq<char>, i: int, j: int)
    requires
        0 <= i <= s.len(),
        0 <= j <= s.len(),
    ensures
        i <= lead_end(s, i) <= s.len(),
        0 <= trail_end(s, j) <= j,
    decreases s.len() - i + j,
{
    if i < s.len() && is_ws(s[i]) {
        lemma_trim_bounds(s, i + 1, j);
    }
    if j > 0 && is_ws(s[j - 1]) {
        lemma_trim_bounds(s, i, j - 1);
    }
}

/// The characters of `s` without surrounding white space.
pub fn trim_chars(s: &[char]) -> (t: Vec<char>)
    ensures
        t@ == trimmed(s@),
{
    let mut a: usize = 0;
    while a < s.len() && char_is_ws(s[a])
        invariant
            a <= s@.len(),
            lead_end(s@, 0) == lead_end(s@, a as int),
        decreases s@.len() - a,
    {
        a = a + 1;
    }
    let mut b: usize = s.len();
    while b > 0 && char_is_ws(s[b - 1])
        invariant
            b <= s@.len(),
            trail_end(s@, s@.len() as int) == trail_end(s@, b as int),
        decreases b,
    {
        b = b - 1;
    }
    proof {
        lemma_trim_bounds(s@, 0, s@.len() as int);
        assert(lead_end(s@, 0) == a);
        assert(trail_end(s@, s@.len() as int) == b);
    }
    let mut t: Vec<char> = Vec::new();
    if a < b {
        let mut k = a;
        while k < b
            invariant
                a <= k <= b,
                b <= s@.len(),
                t@ == s@.subrange(a as int, k as int),
            decreases b - k,
        {
            t.push(s[k]);
            k = k + 1;
            proof {
                assert(t@ =~= s@.subrange(a as int, k as int));
            }
        }
    } else {
        proof {
            assert(t@ =~= Seq::<char>::empty());
        }
    }
    t
}

/// The hexadecimal digit character (lower case) of `d < 16`.
pub open spec fn hex_char(d: nat) -> char {
    if d < 10 {
        (48 + d) as char
    } else {
        (87 + d) as char
    }
}

/// The `k` lowest hexadecimal digits of `v`, most significant first.
pub open spec fn hex_digits(v: nat, k: nat) -> Seq<char>
    decreases k,
{
    if k == 0 {
        seq![]
    } else {
        hex_digits(v / 16, (k - 1) as nat).push(hex_char(v % 16))
    }
}

/// Append the hexadecimal digit `d` to `out`.
fn push_hex_digit(out: &mut String, d: u64)
    requires
        d < 16,
    ensures
        final(out)@ == old(out)@.push(hex_char(d as nat)),
{
    proof {
        reveal_strlit("0");
        reveal_strlit("1");
        reveal_strlit("2");
        reveal_strlit("3");
        reveal_strlit("4");
        reveal_strlit("5");
        reveal_strlit("6");
        reveal_strlit("7");
        reveal_strlit("8");
        reveal_strlit("9");
        reveal_strlit("a");
        reveal_strlit("b");
        reveal_strlit("c");
        reveal_strlit("d");
        reveal_strlit("e");
        reveal_strlit("f");
    }
    let s = match d {
        0 => "0",
        1 => "1",
        2 => "2",
        3 => "3",
        4 => "4",
        5 => "5",
        6 => "6",
        7 => "7",
        8 => "8",
        9 => "9",
        10 => "a",
        11 => "b",
        12 => "c",
        13 => "d",
        14 => "e",
        _ => "f",
    };
    out.append(s);
    proof {
        assert(old(out)@ + s@ =~= old(out)@.push(hex_char(d as nat)));
    }
}

/// Append the `k` lowest hexadecimal digits of `v` to `out`.
pub fn push_hex_digits(out: &mut String, v: u64, k: u32)
    ensures
        final(out)@ == old(out)@ + hex_digits(v as nat, k as nat),
    decreases k,
{
    if k > 0 {
        push_hex_digits(out, v / 16, k - 1);
        push_hex_digit(out, v % 16);
        proof {
            assert(old(out)@ + hex_digits((v / 16) as nat, (k - 1) as nat) + seq![hex_char((v % 16) as nat)]
                =~= old(out)@ + hex_digits(v as nat, k as nat));
        }
    } else {
        proof {
            assert(old(out)@ + hex_digits(v as nat, 0) =~= old(out)@);
        }
    }
}

} // verus!

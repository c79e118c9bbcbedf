//! Unsigned numerals in base ten or sixteen, and the decimal text of integers.

use vstd::prelude::*;
use crate::hexcode::{is_hex_digit, hex_digit_value};

verus! {

/// Whether `c` is a digit of base `radix` (at most sixteen), in either case.
pub open spec fn is_radix_digit(c: char, radix: nat) -> bool {
    is_hex_digit(c) && hex_digit_value(c) < radix
}

/// The value of a string of digits, the most significant first.
pub open spec fn digits_value(s: Seq<char>, radix: nat) -> nat
    decreases s.len(),
{
    if s.len() == 0 {
        0
    } else {
        digits_value(s.drop_last(), radix) * radix + hex_digit_value(s.last())
    }
}

/// The digits of a numeral: what follows an optional leading `+`.
pub open spec fn numeral_digits(s: Seq<char>) -> Seq<char> {
    if s.len() > 0 && s[0] == '+' {
        s.subrange(1, s.len() as int)
    } else {
        s
    }
}

/// Whether `s` is an unsigned numeral of base `radix`: an optional `+`, then at
/// least one digit, and nothing else.
pub open spec fn is_numeral(s: Seq<char>, radix: nat) -> bool {
    let d = numeral_digits(s);
    &&& d.len() > 0
    &&& forall|i: int| 0 <= i < d.len() ==> is_radix_digit(#[trigger] d[i], radix)
}

/// The value of an unsigned numeral.
pub open spec fn numeral_value(s: Seq<char>, radix: nat) -> nat {
    digits_value(numeral_digits(s), radix)
}

/// The value that `s` reads as, when it is a numeral of base `radix` whose
/// value is at most `limit`.
pub open spec fn read_numeral(s: Seq<char>, radix: nat, limit: nat) -> Option<nat> {
    if is_numeral(s, radix) && numeral_value(s, radix) <= limit {
        Some(numeral_value(s, radix))
    } else {
        None
    }
}

proof fn lemma_digits_value_grows(s: Seq<char>, radix: nat, j: int)
    requires
        radix >= 1,
        0 <= j <= s.len(),
    ensures
        digits_value(s.subrange(0, j), radix) <= digits_value(s, radix),
    decreases s.len(),
{
    if j < s.len() {
        let t = s.drop_last();
        assert(t.subrange(0, j) =~= s.subrange(0, j));
        lemma_digits_value_grows(t, radix, j);
        let a = digits_value(t, radix);
        assert(a <= a * radix) by (nonlinear_arith)
            requires
                radix >= 1,
        ;
    } else {
        assert(s.subrange(0, j) =~= s);
    }
}

/// Reads an unsigned numeral of base `radix`: an optional `+` and then digits
/// of either case. `None` where `s` is not such a numeral or its value passes
/// `limit`.
pub fn parse_unsigned(s: &str, radix: u32, limit: u128) -> (r: Option<u128>)
    requires
        2 <= radix <= 16,
    ensures
        r matches Some(v) ==> read_numeral(s@, radix as nat, limit as nat) == Some(v as nat),
        r is None ==> read_numeral(s@, radix as nat, limit as nat) is None,
{
    let n = s.unicode_len();
    let start: usize = if n > 0 && s.get_char(0) == '+' { 1 } else { 0 };
    let ghost d = numeral_digits(s@);
    proof {
        if start == 1 {
            assert(d =~= s@.subrange(1, n as int));
        } else {
            assert(d =~= s@);
        }
    }
    if start >= n {
        return None;
    }
    let mut acc: u128 = 0;
    let mut i: usize = start;
    while i < n
        invariant
            start <= i <= n,
            n == s@.len(),
            d == s@.subrange(start as int, n as int),
            d == numeral_digits(s@),
            2 <= radix <= 16,
            acc as nat == digits_value(d.subrange(0, i - start), radix as nat),
            acc <= limit,
            forall|k: int| 0 <= k < i - start ==> is_radix_digit(#[trigger] d[k], radix as nat),
        decreases n - i,
    {
        let c = s.get_char(i);
        let v: u32 = if '0' <= c && c <= '9' {
            (c as u32) - ('0' as u32)
        } else if 'a' <= c && c <= 'f' {
            (c as u32) - ('a' as u32) + 10
        } else if 'A' <= c && c <= 'F' {
            (c as u32) - ('A' as u32) + 10
        } else {
            16
        };
        proof {
            assert(d[i - start] == c);
            if is_hex_digit(c) {
                assert(v as nat == hex_digit_value(c));
            } else {
                assert(v == 16);
            }
        }
        if v >= radix {
            assert(!is_radix_digit(d[i - start], radix as nat));
            assert(!is_numeral(s@, radix as nat));
            return None;
        }
        let ghost prefix = d.subrange(0, i - start + 1);
        proof {
            assert(prefix.drop_last() =~= d.subrange(0, i - start));
            assert(prefix.last() == c);
            assert(digits_value(prefix, radix as nat) == digits_value(d.subrange(0, i - start), radix as nat) * radix as nat + v as nat);
        }
        let r = radix as u128;
        let v = v as u128;
        if v > limit {
            proof {
                assert(acc * r + v > limit) by (nonlinear_arith)
                    requires
                        v > limit,
                        r >= 2,
                ;
                lemma_digits_value_grows(d, radix as nat, i - start + 1);
                assert(numeral_value(s@, radix as nat) > limit);
            }
            return None;
        }
        let room = (limit - v) / r;
        if acc > room {
            proof {
                assert(acc * r + v > limit) by (nonlinear_arith)
                    requires
                        acc > room,
                        room == (limit as int - v as int) / (r as int),
                        v <= limit,
                        r >= 2,
                ;
                lemma_digits_value_grows(d, radix as nat, i - start + 1);
            }
            return None;
        }
        proof {
            assert(acc * r + v <= limit) by (nonlinear_arith)
                requires
                    v <= limit,
                    acc <= room,
                    room == (limit as int - v as int) / (r as int),
                    r >= 2,
            ;
        }
        acc = acc * r + v;
        i = i + 1;
    }
    proof {
        assert(d.subrange(0, n - start) =~= d);
    }
    Some(acc)
}

/// The decimal digits of a natural number, the most significant first.
pub open spec fn decimal_digits(n: nat) -> Seq<char>
    decreases n,
{
    if n < 10 {
        seq![(n + '0' as nat) as char]
    } else {
        decimal_digits(n / 10).push(((n % 10) + '0' as nat) as char)
    }
}

/// The decimal text of an integer, with a leading `-` when it is negative.
pub open spec fn decimal_text(n: int) -> Seq<char> {
    if n < 0 {
        seq!['-'] + decimal_digits((-n) as nat)
    } else {
        decimal_digits(n as nat)
    }
}

/// The text of one decimal digit.
fn digit_text(d: u32) -> (r: &'static str)
    requires
        d < 10,
    ensures
        r@ == seq![(d as nat + '0' as nat) as char],
{
    proof {
        reveal_strlit("0");
        reveal_strlit("1");
        reveal_strlit("2");
        reveal_strlit("3");
        reveal_strlit("4");
        reveal_strlit("5");
        reveal_strlit("6");
        reveal_strlit("7");
        reveal_strlit("8");
        reveal_strlit("9");
    }
    let r = match d {
        0 => "0",
        1 => "1",
        2 => "2",
        3 => "3",
        4 => "4",
        5 => "5",
        6 => "6",
        7 => "7",
        8 => "8",
        _ => "9",
    };
    assert(r@ =~= seq![(d as nat + '0' as nat) as char]);
    r
}

/// The decimal digits of an unsigned number.
pub fn natural_text(n: u128) -> (r: String)
    ensures
        r@ == decimal_digits(n as nat),
    decreases n,
{
    if n < 10 {
        String::from_str(digit_text(n as u32))
    } else {
        let mut s = natural_text(n / 10);
        s.append(digit_text((n % 10) as u32));
        s
    }
}

/// The decimal text of an integer, with a leading `-` when it is negative.
pub fn i32_text(n: i32) -> (r: String)
    ensures
        r@ == decimal_text(n as int),
{
    if n < 0 {
        let m = (0i64 - n as i64) as u128;
        let digits = natural_text(m);
        let mut s = String::from_str("-");
        proof {
            reveal_strlit("-");
        }
        s.append(digits.as_str());
        s
    } else {
        natural_text(n as u128)
    }
}

} // verus!

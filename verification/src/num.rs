//! Decimal numbers in text.

use vstd::prelude::*;
use crate::text::chars_of;
use crate::text::digit;
use crate::text::is_digit;
use crate::text::push_char;

verus! {

/// The character of a decimal digit.
pub open spec fn digit_char(d: nat) -> char {
    (('0' as u32) + d) as char
}

/// The decimal digits of a number, without leading zeros.
pub open spec fn dec(n: nat) -> Seq<char>
    decreases n,
{
    if n < 10 {
        seq![digit_char(n)]
    } else {
        dec(n / 10).push(digit_char(n % 10))
    }
}

fn char_of_digit(d: u64) -> (c: char)
    requires
        d < 10,
    ensures
        c == digit_char(d as nat),
{
    match d {
        0 => '0',
        1 => '1',
        2 => '2',
        3 => '3',
        4 => '4',
        5 => '5',
        6 => '6',
        7 => '7',
        8 => '8',
        _ => '9',
    }
}

/// The number in decimal.
pub fn u64_text(n: u64) -> (r: String)
    ensures
        r@ == dec(n as nat),
    decreases n,
{
    if n < 10 {
        let mut s = String::new();
        push_char(&mut s, char_of_digit(n));
        s
    } else {
        let mut s = u64_text(n / 10);
        push_char(&mut s, char_of_digit(n % 10));
        s
    }
}

/// The number in decimal.
pub fn usize_text(n: usize) -> (r: String)
    ensures
        r@ == dec(n as nat),
{
    u64_text(n as u64)
}

/// The value of a decimal digit.
pub open spec fn digit_value(c: char) -> nat {
    (c as u32 - '0' as u32) as nat
}

/// The value of the first `n` digits.
pub open spec fn value_upto(s: Seq<char>, n: int) -> nat
    decreases n,
{
    if n <= 0 {
        0
    } else {
        value_upto(s, n - 1) * 10 + digit_value(s[n - 1])
    }
}

/// The text holds digits, and only digits.
pub open spec fn all_digits(s: Seq<char>) -> bool {
    s.len() > 0 && forall|i: int| 0 <= i < s.len() ==> digit(#[trigger] s[i])
}

/// The digits of a number that may start with a `+`.
pub open spec fn unsigned(s: Seq<char>) -> Seq<char> {
    if s.len() > 0 && s[0] == '+' {
        s.skip(1)
    } else {
        s
    }
}

/// The number that the text is in decimal, where it fits in 64 bits.
pub open spec fn u64_of(s: Seq<char>) -> Option<nat> {
    let d = unsigned(s);
    if all_digits(d) && value_upto(d, d.len() as int) <= u64::MAX {
        Some(value_upto(d, d.len() as int))
    } else {
        None
    }
}

fn digit_of(c: char) -> (d: u64)
    requires
        digit(c),
    ensures
        d == digit_value(c),
        d < 10,
{
    (c as u32 - 0x30) as u64
}

proof fn lemma_value_grows(s: Seq<char>, a: int, b: int)
    requires
        0 <= a <= b <= s.len(),
        forall|i: int| 0 <= i < s.len() ==> digit(#[trigger] s[i]),
    ensures
        value_upto(s, a) <= value_upto(s, b),
    decreases b - a,
{
    if a < b {
        lemma_value_grows(s, a, b - 1);
    }
}

proof fn lemma_value_prefix(s: Seq<char>, t: Seq<char>, n: int)
    requires
        n <= s.len(),
        n <= t.len(),
        forall|i: int| 0 <= i < n ==> s[i] == t[i],
    ensures
        value_upto(s, n) == value_upto(t, n),
    decreases n,
{
    if n > 0 {
        lemma_value_prefix(s, t, n - 1);
    }
}

proof fn lemma_dec(n: nat)
    ensures
        all_digits(dec(n)),
        value_upto(dec(n), dec(n).len() as int) == n,
    decreases n,
{
    if n < 10 {
        let s = dec(n);
        assert(s[0] == digit_char(n));
        assert(value_upto(s, 0) == 0);
        assert(value_upto(s, 1) == digit_value(s[0]));
    } else {
        lemma_dec(n / 10);
        let a = dec(n / 10);
        let s = dec(n);
        assert(s == a.push(digit_char(n % 10)));
        lemma_value_prefix(s, a, a.len() as int);
        assert forall|i: int| 0 <= i < s.len() implies digit(#[trigger] s[i]) by {
            if i < a.len() {
                assert(s[i] == a[i]);
            }
        }
    }
}

/// A number that was written in decimal is read back.
pub proof fn law_decimal_reads_back(n: u64)
    ensures
        u64_of(dec(n as nat)) == Some(n as nat),
{
    lemma_dec(n as nat);
    let d = dec(n as nat);
    assert(digit(d[0]));
    assert(unsigned(d) == d);
}

/// The number that the text is in decimal; `None` where it is none, or does not fit in 64 bits.
pub fn parse_u64(s: &str) -> (r: Option<u64>)
    ensures
        match r {
            Some(n) => u64_of(s@) == Some(n as nat),
            None => u64_of(s@) == None::<nat>,
        },
{
    let cs: Vec<char> = chars_of(s);
    let start: usize = if cs.len() > 0 && cs[0] == '+' {
        1
    } else {
        0
    };
    let ghost d = unsigned(s@);
    assert(d == cs@.skip(start as int));
    if cs.len() == start {
        return None;
    }
    let mut i: usize = start;
    let mut n: u64 = 0;
    let mut over: bool = false;
    while i < cs.len()
        invariant
            start <= i <= cs@.len(),
            d == cs@.skip(start as int),
            d == unsigned(s@),
            forall|j: int| 0 <= j < i - start ==> digit(#[trigger] d[j]),
            !over ==> n == value_upto(d, i - start),
            over ==> exists|k: int| 0 <= k <= i - start && #[trigger] value_upto(d, k) > u64::MAX,
        decreases cs@.len() - i,
    {
        let c: char = cs[i];
        assert(d[i - start] == c);
        if !is_digit(c) {
            return None;
        }
        let v: u64 = digit_of(c);
        if !over {
            match n.checked_mul(10) {
                Some(m) => match m.checked_add(v) {
                    Some(m) => {
                        n = m;
                    },
                    None => {
                        over = true;
                        assert(value_upto(d, i - start + 1) > u64::MAX);
                    },
                },
                None => {
                    over = true;
                    assert(value_upto(d, i - start + 1) > u64::MAX);
                },
            }
        }
        i += 1;
    }
    if over {
        proof {
            let k = choose|k: int| 0 <= k <= i - start && #[trigger] value_upto(d, k) > u64::MAX;
            lemma_value_grows(d, k, d.len() as int);
        }
        return None;
    }
    Some(n)
}

/// The number in decimal, with a sign where it is negative.
pub open spec fn int_text(n: int) -> Seq<char> {
    if n < 0 {
        "-"@ + dec((-n) as nat)
    } else {
        dec(n as nat)
    }
}

/// The number in decimal, with a sign where it is negative.
pub fn i64_text(n: i64) -> (r: String)
    ensures
        r@ == int_text(n as int),
{
    if n < 0 {
        let m: u64 = if n == i64::MIN {
            0x8000_0000_0000_0000u64
        } else {
            (-n) as u64
        };
        crate::text::cat("-", u64_text(m).as_str())
    } else {
        u64_text(n as u64)
    }
}

/// The whole number that the text is in decimal, where it fits in 64 bits with a sign.
pub open spec fn i64_of(s: Seq<char>) -> Option<int> {
    let neg = s.len() > 0 && s[0] == '-';
    let d = if neg {
        s.skip(1)
    } else {
        unsigned(s)
    };
    let v = value_upto(d, d.len() as int);
    if !all_digits(d) {
        None
    } else if neg && v <= 0x8000_0000_0000_0000 {
        Some(-(v as int))
    } else if !neg && v < 0x8000_0000_0000_0000 {
        Some(v as int)
    } else {
        None
    }
}

/// The whole number that the text is in decimal; `None` where it is none, or does not fit.
pub fn parse_i64(s: &str) -> (r: Option<i64>)
    ensures
        match r {
            Some(n) => i64_of(s@) == Some(n as int),
            None => i64_of(s@) == None::<int>,
        },
{
    let n: usize = s.unicode_len();
    if n > 0 && s.get_char(0) == '-' {
        let rest: &str = s.substring_char(1, n);
        assert(rest@ == s@.skip(1));
        if rest.unicode_len() > 0 && rest.get_char(0) == '+' {
            assert(!digit(s@.skip(1)[0]));
            return None;
        }
        match parse_u64(rest) {
            Some(v) => if v == 0x8000_0000_0000_0000 {
                Some(i64::MIN)
            } else if v < 0x8000_0000_0000_0000 {
                Some(-(v as i64))
            } else {
                None
            },
            None => None,
        }
    } else {
        match parse_u64(s) {
            Some(v) => if v < 0x8000_0000_0000_0000 {
                Some(v as i64)
            } else {
                None
            },
            None => None,
        }
    }
}

} // verus!

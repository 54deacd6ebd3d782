//! Sizes as people write them: a decimal number, scaled as a 64-bit float would scale it.

use vstd::prelude::*;
use crate::gc::nearest;
use crate::gc::spacing;
use crate::num::digit_value;
use crate::num::value_upto;
use crate::text::chars_of;
use crate::text::digit;
use crate::text::is_digit;

verus! {

pub open spec fn pow10(n: nat) -> nat
    decreases n,
{
    if n == 0 {
        1
    } else {
        10 * pow10((n - 1) as nat)
    }
}

pub open spec fn pow2(n: nat) -> nat
    decreases n,
{
    if n == 0 {
        1
    } else {
        2 * pow2((n - 1) as nat)
    }
}

/// The whole part of `p / q`, once that is rounded to what a 64-bit float can hold, at most the largest
/// number of 64 bits.
pub open spec fn whole_part(p: nat, q: nat) -> nat {
    let n = p * 0x1_0000_0000_0000_0000;
    let v = nearest(n, spacing(n, q)) / (q * 0x1_0000_0000_0000_0000);
    if v > u64::MAX {
        u64::MAX as nat
    } else {
        v
    }
}

pub open spec fn only_digits(s: Seq<char>) -> bool {
    s.len() > 0 && forall|k: int| 0 <= k < s.len() ==> digit(#[trigger] s[k])
}

/// The digits of a number, its point left out, and how many of them stand behind the point; nothing where
/// the text is no number.
pub open spec fn decimal_of(s: Seq<char>) -> Option<(Seq<char>, nat)> {
    let i = crate::text::first_at(s, '.', 0);
    let whole = s.take(i);
    let frac = if i < s.len() {
        s.skip(i + 1)
    } else {
        Seq::empty()
    };
    let ds = whole + frac;
    if only_digits(ds) {
        Some((ds, frac.len()))
    } else {
        None
    }
}

/// What a number in decimal, `scale` times, comes to. One below zero comes to nothing.
pub open spec fn scaled(s: Seq<char>, scale: nat) -> Option<nat> {
    let neg = s.len() > 0 && s[0] == '-';
    let d = if s.len() > 0 && (s[0] == '-' || s[0] == '+') {
        s.skip(1)
    } else {
        s
    };
    match decimal_of(d) {
        None => None,
        Some((ds, f)) => if neg {
            Some(0)
        } else {
            Some(whole_part(value_upto(ds, ds.len() as int) * scale, pow10(f)))
        },
    }
}

// ---------------------------------------------------------------------------
// Numbers of any length, as digits, the lowest first.

spec fn low_value(s: Seq<u8>, n: int) -> nat
    decreases n,
{
    if n <= 0 || n > s.len() {
        0
    } else {
        low_value(s, n - 1) + s[n - 1] as nat * pow10((n - 1) as nat)
    }
}

spec fn are_digits(s: Seq<u8>) -> bool {
    forall|i: int| 0 <= i < s.len() ==> #[trigger] s[i] < 10
}

proof fn lemma_pow10_pos(n: nat)
    ensures
        pow10(n) > 0,
    decreases n,
{
    if n > 0 {
        lemma_pow10_pos((n - 1) as nat);
    }
}

proof fn lemma_low_same(a: Seq<u8>, b: Seq<u8>, n: int)
    requires
        0 <= n <= a.len(),
        n <= b.len(),
        forall|i: int| 0 <= i < n ==> #[trigger] a[i] == b[i],
    ensures
        low_value(a, n) == low_value(b, n),
    decreases n,
{
    if n > 0 {
        lemma_low_same(a, b, n - 1);
    }
}

proof fn lemma_low_bound(s: Seq<u8>, n: int)
    requires
        0 <= n <= s.len(),
        are_digits(s),
    ensures
        low_value(s, n) < pow10(n as nat),
    decreases n,
{
    if n > 0 {
        lemma_low_bound(s, n - 1);
        let p = pow10((n - 1) as nat);
        let d = s[n - 1] as nat;
        assert(low_value(s, n - 1) + d * p < 10 * p) by (nonlinear_arith)
            requires
                low_value(s, n - 1) < p,
                d <= 9,
        ;
    }
}

/// The digits from `f` on count `10^f` times.
proof fn lemma_low_split(s: Seq<u8>, f: int, n: int)
    requires
        0 <= f <= n <= s.len(),
    ensures
        low_value(s, n) == low_value(s, f) + pow10(f as nat) * low_value(s.skip(f), n - f),
    decreases n - f,
{
    if f < n {
        lemma_low_split(s, f, n - 1);
        let p = pow10(f as nat);
        let q = pow10((n - 1 - f) as nat);
        let d = s[n - 1] as nat;
        let t = low_value(s.skip(f), n - 1 - f);
        lemma_pow10_add(f as nat, (n - 1 - f) as nat);
        assert(s.skip(f)[n - 1 - f] == s[n - 1]);
        assert(p * (t + d * q) == p * t + d * (p * q)) by (nonlinear_arith);
    } else {
        assert(pow10(f as nat) * 0 == 0) by (nonlinear_arith);
    }
}

proof fn lemma_pow10_add(a: nat, b: nat)
    ensures
        pow10(a + b) == pow10(a) * pow10(b),
    decreases b,
{
    if b == 0 {
        assert(pow10(a) * 1 == pow10(a)) by (nonlinear_arith);
    } else {
        lemma_pow10_add(a, (b - 1) as nat);
        let x = pow10(a);
        let y = pow10((b - 1) as nat);
        assert(pow10(a + b) == 10 * pow10((a + b - 1) as nat));
        assert(10 * (x * y) == x * (10 * y)) by (nonlinear_arith);
    }
}

/// The digits from the highest down.
proof fn lemma_reversed(cs: Seq<char>, s: Seq<u8>, n: int)
    requires
        0 <= n <= cs.len(),
        s.len() == cs.len(),
        forall|i: int| 0 <= i < cs.len() ==> #[trigger] s[i] as nat == digit_value(cs[cs.len() - 1 - i]),
    ensures
        low_value(s, s.len() as int) == value_upto(cs, n) * pow10((cs.len() - n) as nat) + low_value(s, cs.len() - n),
    decreases n,
{
    let len = cs.len() as int;
    if n == 0 {
        assert(0 * pow10(len as nat) == 0) by (nonlinear_arith);
    } else {
        lemma_reversed(cs, s, n - 1);
        let k = len - n;
        let p = pow10(k as nat);
        let a = value_upto(cs, n - 1);
        let d = digit_value(cs[n - 1]);
        assert(s[k] as nat == d);
        assert(pow10((k + 1) as nat) == 10 * p);
        assert(low_value(s, k + 1) == low_value(s, k) + d * p);
        assert(a * (10 * p) + d * p == (a * 10 + d) * p) by (nonlinear_arith);
    }
}

fn double(ds: &mut Vec<u8>)
    requires
        are_digits(old(ds)@),
        old(ds)@.len() < usize::MAX,
    ensures
        are_digits(final(ds)@),
        old(ds)@.len() <= final(ds)@.len() <= old(ds)@.len() + 1,
        low_value(final(ds)@, final(ds)@.len() as int) == 2 * low_value(old(ds)@, old(ds)@.len() as int),
{
    let ghost was = ds@;
    let n: usize = ds.len();
    let mut carry: u8 = 0;
    let mut i: usize = 0;
    assert(0 * pow10(0) == 0) by (nonlinear_arith);
    while i < n
        invariant
            i <= n == ds@.len() == was.len(),
            carry <= 1,
            are_digits(was),
            are_digits(ds@),
            forall|j: int| i <= j < n ==> ds@[j] == was[j],
            low_value(ds@, i as int) + carry as nat * pow10(i as nat) == 2 * low_value(was, i as int),
        decreases n - i,
    {
        let ghost before = ds@;
        let ghost c = carry as nat;
        let d: u8 = 2 * ds[i] + carry;
        if d >= 10 {
            ds.set(i, d - 10);
            carry = 1;
        } else {
            ds.set(i, d);
            carry = 0;
        }
        proof {
            let p = pow10(i as nat);
            let x = was[i as int] as nat;
            let y = ds@[i as int] as nat;
            let e = carry as nat;
            lemma_low_same(before, ds@, i as int);
            assert(pow10((i + 1) as nat) == 10 * p);
            assert(y + 10 * e == 2 * x + c);
            assert(y * p + e * (10 * p) == 2 * (x * p) + c * p) by (nonlinear_arith)
                requires
                    y + 10 * e == 2 * x + c,
            ;
        }
        i += 1;
    }
    if carry > 0 {
        let ghost before = ds@;
        ds.push(carry);
        proof {
            lemma_low_same(before, ds@, n as int);
        }
    } else {
        assert(0 * pow10(n as nat) == 0) by (nonlinear_arith);
    }
}

/// The number that the digits from `f` on stand for, where it fits in 128 bits.
fn high_part(ds: &Vec<u8>, f: usize) -> (r: Option<u128>)
    requires
        are_digits(ds@),
        f <= ds@.len(),
    ensures
        match r {
            Some(a) => a as nat == low_value(ds@.skip(f as int), ds@.len() - f),
            None => low_value(ds@.skip(f as int), ds@.len() - f) > u128::MAX,
        },
{
    let ghost hs = ds@.skip(f as int);
    let ghost total = low_value(hs, hs.len() as int);
    let mut acc: u128 = 0;
    let mut k: usize = ds.len();
    proof {
        lemma_low_split(hs, hs.len() as int, hs.len() as int);
        assert(acc as nat * pow10(hs.len()) == 0) by (nonlinear_arith)
            requires
                acc == 0,
        ;
    }
    while k > f
        invariant
            f <= k <= ds@.len(),
            hs == ds@.skip(f as int),
            are_digits(ds@),
            total == low_value(hs, hs.len() as int),
            total == acc as nat * pow10((k - f) as nat) + low_value(hs, k - f),
        decreases k,
    {
        let d: u8 = ds[k - 1];
        proof {
            let p = pow10((k - 1 - f) as nat);
            assert(hs[k - 1 - f] == d);
            assert(pow10((k - f) as nat) == 10 * p);
            let a = acc as nat;
            assert(a * (10 * p) + d as nat * p == (a * 10 + d as nat) * p) by (nonlinear_arith);
            assert(total == (a * 10 + d as nat) * p + low_value(hs, k - 1 - f));
            lemma_pow10_pos((k - 1 - f) as nat);
            assert((a * 10 + d as nat) * p >= a * 10 + d as nat) by (nonlinear_arith)
                requires
                    p >= 1,
            ;
        }
        if acc > (u128::MAX - 9) / 10 {
            if acc > u128::MAX / 10 {
                return None;
            }
            let ten: u128 = acc * 10;
            if ten > u128::MAX - (d as u128) {
                return None;
            }
            acc = ten + d as u128;
        } else {
            acc = acc * 10 + d as u128;
        }
        k -= 1;
    }
    proof {
        assert(acc as nat * pow10(0) == acc as nat) by (nonlinear_arith)
            requires
                pow10(0) == 1,
        ;
    }
    Some(acc)
}

/// Whether one of the first `f` digits is not zero.
fn has_rest(ds: &Vec<u8>, f: usize) -> (r: bool)
    requires
        are_digits(ds@),
        f <= ds@.len(),
    ensures
        r == (low_value(ds@, f as int) != 0),
{
    let mut k: usize = 0;
    while k < f
        invariant
            k <= f <= ds@.len(),
            low_value(ds@, k as int) == 0,
        decreases f - k,
    {
        proof {
            let p = pow10(k as nat);
            lemma_pow10_pos(k as nat);
            let d = ds@[k as int] as nat;
            assert((d * p == 0) == (d == 0)) by (nonlinear_arith)
                requires
                    p > 0,
            ;
            lemma_low_grows(ds@, k + 1, f as int);
        }
        if ds[k] != 0 {
            return true;
        }
        k += 1;
    }
    false
}

proof fn lemma_low_grows(s: Seq<u8>, a: int, b: int)
    requires
        0 <= a <= b <= s.len(),
    ensures
        low_value(s, a) <= low_value(s, b),
    decreases b - a,
{
    if a < b {
        lemma_low_grows(s, a, b - 1);
        let d = s[b - 1] as nat;
        let p = pow10((b - 1) as nat);
        assert(d * p >= 0) by (nonlinear_arith);
    }
}

// ---------------------------------------------------------------------------
// Rounding.

/// The spacing of what a float can hold scales with the unit.
proof fn lemma_spacing_scales(n: nat, q: nat, p: nat)
    requires
        q > 0,
        p > 0,
    ensures
        spacing(n, q * p) == q * spacing(n / q, p),
    decreases (n / q) / p,
{
    assert(n / (q * p) == (n / q) / p) by (nonlinear_arith)
        requires
            q > 0,
            p > 0,
    ;
    assert(q * p > 0) by (nonlinear_arith)
        requires
            q > 0,
            p > 0,
    ;
    if (n / q) / p >= 0x20_0000_0000_0000 {
        let a = n / q;
        assert(a / (2 * p) < a / p) by (nonlinear_arith)
            requires
                p > 0,
                a / p >= 0x20_0000_0000_0000,
        ;
        lemma_spacing_scales(n, q, 2 * p);
        assert(q * (2 * p) == 2 * (q * p)) by (nonlinear_arith);
    }
}

pub(crate) fn find_spacing(a: u128) -> (u: u128)
    ensures
        u as nat == spacing(a as nat, 1),
        u > 0,
        a / u < 0x20_0000_0000_0000,
        u > 1 ==> u % 2 == 0 && a / u >= 0x10_0000_0000_0000,
{
    let ghost x = a as nat;
    let mut u: u128 = 1;
    while a / u >= 0x20_0000_0000_0000
        invariant
            u > 0,
            x == a as nat,
            u > 1 ==> u % 2 == 0 && a / u >= 0x10_0000_0000_0000,
            spacing(x, 1) == spacing(x, u as nat),
        decreases a / u,
    {
        let ghost p = u as nat;
        proof {
            assert(x / p == (a / u) as nat);
            assert(p <= x / 0x20_0000_0000_0000) by (nonlinear_arith)
                requires
                    p > 0,
                    x / p >= 0x20_0000_0000_0000,
            ;
            assert(x / (2 * p) < x / p && x / (2 * p) >= 0x10_0000_0000_0000) by (nonlinear_arith)
                requires
                    p > 0,
                    x / p >= 0x20_0000_0000_0000,
            ;
        }
        u = 2 * u;
        proof {
            assert(u as nat == 2 * p);
            assert(x / (u as nat) == (a / u) as nat);
            assert(spacing(x, p) == spacing(x, 2 * p));
        }
    }
    u
}

/// Rounding `n`, which is `a` times `q` and a rest below `q`, to a multiple of `q * u`.
proof fn lemma_nearest_parts(n: nat, q: nat, a: nat, rest: nat, u: nat)
    requires
        n == a * q + rest,
        rest < q,
        u > 0,
        u % 2 == 0,
    ensures
        ({
            let d = a / u;
            let r = a % u;
            let up = 2 * r > u || (2 * r == u && (rest > 0 || d % 2 == 1));
            nearest(n, q * u) == (if up {
                d + 1
            } else {
                d
            }) * (q * u)
        }),
{
    let d = a / u;
    let r = a % u;
    let g = q * u;
    assert(a == d * u + r && r < u) by (nonlinear_arith)
        requires
            u > 0,
            d == a / u,
            r == a % u,
    ;
    let low = r * q + rest;
    assert(n == d * g + low) by (nonlinear_arith)
        requires
            n == a * q + rest,
            a == d * u + r,
            g == q * u,
            low == r * q + rest,
    ;
    assert(low < g) by (nonlinear_arith)
        requires
            r + 1 <= u,
            rest < q,
            g == q * u,
            low == r * q + rest,
    ;
    assert(n / g == d && n % g == low) by (nonlinear_arith)
        requires
            n == d * g + low,
            low < g,
    ;
    if 2 * r > u {
        assert(2 * low > g) by (nonlinear_arith)
            requires
                2 * r >= u + 1,
                low == r * q + rest,
                g == q * u,
                rest < q,
        ;
    } else if 2 * r < u {
        assert(2 * low < g) by (nonlinear_arith)
            requires
                2 * r + 2 <= u,
                low == r * q + rest,
                g == q * u,
                rest < q,
        ;
    } else {
        assert(2 * low == g + 2 * rest) by (nonlinear_arith)
            requires
                2 * r == u,
                low == r * q + rest,
                g == q * u,
        ;
    }
}

/// A number below one half comes to nothing.
proof fn lemma_small(n: nat, q: nat, a: nat)
    requires
        q > 0,
        a == n / q,
        a < 0x8000_0000_0000_0000,
    ensures
        nearest(n, spacing(n, q)) / (q * 0x1_0000_0000_0000_0000) == 0,
{
    lemma_spacing_scales(n, q, 1);
    assert(q * 1 == q) by (nonlinear_arith);
    let u = spacing(a, 1);
    lemma_spacing_bound(a, 1);
    let g = q * u;
    let d = n / g;
    assert(g > 0) by (nonlinear_arith)
        requires
            q > 0,
            u > 0,
            g == q * u,
    ;
    assert(d * g <= n) by (nonlinear_arith)
        requires
            d == n / g,
            g > 0,
    ;
    assert(n < (a + 1) * q) by (nonlinear_arith)
        requires
            a == n / q,
            q > 0,
    ;
    assert((d + 1) * g == d * g + g) by (nonlinear_arith);
    assert((a + 1) * q + g == (a + 1 + u) * q) by (nonlinear_arith)
        requires
            g == q * u,
    ;
    let v = nearest(n, g);
    assert(v <= n + g);
    assert((a + 1 + u) * q <= 0x1_0000_0000_0000_0000 * q) by (nonlinear_arith)
        requires
            a + 1 + u <= 0x1_0000_0000_0000_0000,
    ;
    assert(v < q * 0x1_0000_0000_0000_0000);
    assert(v / (q * 0x1_0000_0000_0000_0000) == 0) by (nonlinear_arith)
        requires
            v < q * 0x1_0000_0000_0000_0000,
    ;
}

pub(crate) proof fn lemma_spacing_bound(a: nat, p: nat)
    requires
        p > 0,
        a < 0x8000_0000_0000_0000,
        p <= 0x800,
    ensures
        0 < spacing(a, p) <= 0x800,
    decreases a / p,
{
    if a / p >= 0x20_0000_0000_0000 {
        assert(p < 0x400) by (nonlinear_arith)
            requires
                p > 0,
                a / p >= 0x20_0000_0000_0000,
                a < 0x8000_0000_0000_0000,
        ;
        assert(a / (2 * p) < a / p) by (nonlinear_arith)
            requires
                p > 0,
                a / p >= 0x20_0000_0000_0000,
        ;
        lemma_spacing_bound(a, 2 * p);
    }
}

proof fn lemma_pow2_add(a: nat, b: nat)
    ensures
        pow2(a + b) == pow2(a) * pow2(b),
        pow2(b) > 0,
    decreases b,
{
    if b == 0 {
        assert(pow2(a) * 1 == pow2(a)) by (nonlinear_arith);
    } else {
        lemma_pow2_add(a, (b - 1) as nat);
        let x = pow2(a);
        let y = pow2((b - 1) as nat);
        assert(pow2(a + b) == 2 * pow2((a + b - 1) as nat));
        assert(2 * (x * y) == x * (2 * y)) by (nonlinear_arith);
    }
}

proof fn lemma_pow2_values()
    ensures
        pow2(52) == 0x10_0000_0000_0000,
        pow2(64) == 0x1_0000_0000_0000_0000,
        pow2(128) == 0x1_0000_0000_0000_0000_0000_0000_0000_0000,
{
    reveal_with_fuel(pow2, 33);
    assert(pow2(20) == 0x10_0000);
    assert(pow2(32) == 0x1_0000_0000);
    lemma_pow2_add(32, 20);
    lemma_pow2_add(32, 32);
    lemma_pow2_add(64, 64);
    let x = pow2(64);
    assert(x * x == 0x1_0000_0000_0000_0000_0000_0000_0000_0000) by (nonlinear_arith)
        requires
            x == 0x1_0000_0000_0000_0000,
    ;
}

/// The spacing is a power of two, and close to the number.
proof fn lemma_spacing_pow(a: nat, i: nat) -> (j: nat)
    ensures
        j >= i,
        spacing(a, pow2(i)) == pow2(j),
        j > i ==> a / pow2(j) >= 0x10_0000_0000_0000,
    decreases a / pow2(i),
{
    let p = pow2(i);
    lemma_pow2_add(0, i);
    if a / p >= 0x20_0000_0000_0000 {
        assert(a / (2 * p) < a / p && a / (2 * p) >= 0x10_0000_0000_0000) by (nonlinear_arith)
            requires
                p > 0,
                a / p >= 0x20_0000_0000_0000,
        ;
        assert(pow2(i + 1) == 2 * p);
        lemma_spacing_pow(a, i + 1)
    } else {
        i
    }
}

/// A number of `2^64` or more comes to the largest number of 64 bits.
proof fn lemma_large(n: nat, q: nat, a: nat)
    requires
        q > 0,
        a == n / q,
        a > u128::MAX,
    ensures
        nearest(n, spacing(n, q)) / (q * 0x1_0000_0000_0000_0000) > u64::MAX,
{
    lemma_spacing_scales(n, q, 1);
    assert(q * 1 == q) by (nonlinear_arith);
    assert(pow2(0) == 1);
    let j = lemma_spacing_pow(a, 0);
    let u = pow2(j);
    lemma_pow2_add(0, j);
    lemma_pow2_values();
    let top = pow2(128);
    let g = q * u;
    assert(g > 0) by (nonlinear_arith)
        requires
            q > 0,
            u > 0,
            g == q * u,
    ;
    let d = n / g;
    assert(d == a / u) by (nonlinear_arith)
        requires
            d == n / g,
            g == q * u,
            a == n / q,
            q > 0,
            u > 0,
    ;
    assert(d * u >= top) by {
        if j <= 128 {
            let m = pow2((128 - j) as nat);
            lemma_pow2_add((128 - j) as nat, j);
            assert(d >= m) by (nonlinear_arith)
                requires
                    d == a / u,
                    a >= m * u,
                    u > 0,
            ;
            assert(d * u >= m * u) by (nonlinear_arith)
                requires
                    d >= m,
            ;
        } else {
            lemma_pow2_add(128, (j - 128) as nat);
            lemma_pow2_add(0, (j - 128) as nat);
            let k = pow2((j - 128) as nat);
            assert(u >= top) by (nonlinear_arith)
                requires
                    u == top * k,
                    k >= 1,
            ;
            assert(d * u >= u) by (nonlinear_arith)
                requires
                    d >= 1,
            ;
        }
    }
    let v = nearest(n, g);
    assert(v >= d * g) by (nonlinear_arith)
        requires
            v == d * g || v == (d + 1) * g,
    ;
    assert(d * g == q * (d * u)) by (nonlinear_arith)
        requires
            g == q * u,
    ;
    let w = q * 0x1_0000_0000_0000_0000;
    assert(q * (d * u) >= w * 0x1_0000_0000_0000_0000) by (nonlinear_arith)
        requires
            d * u >= top,
            w == q * 0x1_0000_0000_0000_0000,
            top == 0x1_0000_0000_0000_0000_0000_0000_0000_0000,
    ;
    assert(v / w >= 0x1_0000_0000_0000_0000) by (nonlinear_arith)
        requires
            v >= w * 0x1_0000_0000_0000_0000,
            w > 0,
    ;
}

/// The whole part of a number that is `a / 2^64` and, where `sticky`, a little more.
fn round_down(a: u128, sticky: bool, n: Ghost<nat>, q: Ghost<nat>) -> (r: u64)
    requires
        q@ > 0,
        a as nat == n@ / q@,
        sticky == (n@ % q@ != 0),
    ensures
        r as nat == ({
            let v = nearest(n@, spacing(n@, q@)) / (q@ * 0x1_0000_0000_0000_0000);
            if v > u64::MAX {
                u64::MAX as nat
            } else {
                v
            }
        }),
{
    if a < 0x8000_0000_0000_0000 {
        proof {
            lemma_small(n@, q@, a as nat);
        }
        return 0;
    }
    let u: u128 = find_spacing(a);
    let d: u128 = a / u;
    let r: u128 = a % u;
    proof {
        assert(u > 1) by {
            if u == 1 {
                assert(a / 1 == a) by (nonlinear_arith);
            }
        }
        assert(r < u) by (nonlinear_arith)
            requires
                r == a % u,
                u > 0,
        ;
        assert(u <= a / 0x10_0000_0000_0000) by (nonlinear_arith)
            requires
                u > 0,
                a / u >= 0x10_0000_0000_0000,
        ;
        let nn = n@;
        let qq = q@;
        let rest = nn % qq;
        assert(nn == a as nat * qq + rest && rest < qq) by (nonlinear_arith)
            requires
                qq > 0,
                a as nat == nn / qq,
                rest == nn % qq,
        ;
        lemma_nearest_parts(nn, qq, a as nat, rest, u as nat);
        lemma_spacing_scales(nn, qq, 1);
        assert(qq * 1 == qq) by (nonlinear_arith);
    }
    let up: bool = 2 * r > u || (2 * r == u && (sticky || d % 2 == 1));
    let m: u128 = if up {
        d + 1
    } else {
        d
    };
    proof {
        // (m * q * u) / (q * 2^64) is (m * u) / 2^64.
        let x = m as nat * u as nat;
        let qq = q@;
        let v = m as nat * (qq * u as nat);
        let w = 0x1_0000_0000_0000_0000nat;
        assert(v == qq * x) by (nonlinear_arith)
            requires
                v == m as nat * (qq * u as nat),
                x == m as nat * u as nat,
        ;
        assert((qq * x) / (qq * w) == x / w) by (nonlinear_arith)
            requires
                qq > 0,
                w > 0,
        ;
        assert(x <= 0x1_0000_0000_0000_0000_0000_0000_0000_0000 + u) by (nonlinear_arith)
            requires
                x == m as nat * u as nat,
                m <= d + 1,
                d == a / u,
                u > 0,
                a <= u128::MAX,
        ;
    }
    match m.checked_mul(u) {
        None => {
            proof {
                let x = m as nat * u as nat;
                assert(x > u128::MAX);
                assert(x / 0x1_0000_0000_0000_0000 > u64::MAX);
            }
            u64::MAX
        },
        Some(x) => {
            let w: u128 = x / 0x1_0000_0000_0000_0000;
            assert(w <= u64::MAX);
            w as u64
        },
    }
}

/// What a number in decimal, `2^shift` times, comes to; nothing where the text is no number.
pub fn scale(s: &str, shift: usize) -> (r: Option<u64>)
    requires
        shift <= 64,
        s@.len() + 200 <= usize::MAX,
    ensures
        match r {
            Some(n) => scaled(s@, pow2(shift as nat)) == Some(n as nat),
            None => scaled(s@, pow2(shift as nat)).is_none(),
        },
{
    let all = chars_of(s);
    let neg: bool = all.len() > 0 && all[0] == '-';
    let start: usize = if all.len() > 0 && (all[0] == '-' || all[0] == '+') {
        1
    } else {
        0
    };
    let ghost d = if s@.len() > 0 && (s@[0] == '-' || s@[0] == '+') {
        s@.skip(1)
    } else {
        s@
    };
    assert(d =~= s@.skip(start as int));
    let cs = chars_of(crate::text::string_of(&all, start, all.len()).as_str());
    assert(cs@ =~= d);
    let i: usize = crate::text::find_from(&cs, '.', 0);
    let ghost frac = if i < d.len() {
        d.skip(i + 1)
    } else {
        Seq::empty()
    };
    let ghost ds = d.take(i as int) + frac;
    let f: usize = if i < cs.len() {
        cs.len() - i - 1
    } else {
        0
    };
    assert(f == frac.len());
    let n: usize = i + f;
    assert(n == ds.len());
    if n == 0 {
        return None;
    }
    let mut digits: Vec<u8> = Vec::new();
    let mut k: usize = n;
    while k > 0
        invariant
            k <= n == ds.len(),
            n == i + f,
            cs@ == d,
            i <= d.len(),
            f == (if i < d.len() {
                d.len() - i - 1
            } else {
                0
            }),
            frac == (if i < d.len() {
                d.skip(i + 1)
            } else {
                Seq::empty()
            }),
            ds == d.take(i as int) + frac,
            decimal_of(d) == (if only_digits(ds) {
                Some((ds, frac.len()))
            } else {
                None
            }),
            d == (if s@.len() > 0 && (s@[0] == '-' || s@[0] == '+') {
                s@.skip(1)
            } else {
                s@
            }),
            are_digits(digits@),
            digits@.len() == n - k,
            forall|j: int| k <= j < n ==> digit(#[trigger] ds[j]),
            forall|j: int| 0 <= j < digits@.len() ==> #[trigger] digits@[j] as nat == digit_value(ds[n - 1 - j]),
        decreases k,
    {
        let at: usize = if k - 1 < i {
            k - 1
        } else {
            k
        };
        assert(ds[k - 1] == d[at as int]);
        let c: char = cs[at];
        if !is_digit(c) {
            return None;
        }
        digits.push((c as u32 - 0x30) as u8);
        k -= 1;
    }
    proof {
        lemma_reversed(ds, digits@, n as int);
        assert(pow10(0) == 1);
        let x = value_upto(ds, n as int);
        assert(x * 1 == x) by (nonlinear_arith);
    }
    if neg {
        return Some(0);
    }
    let ghost value = value_upto(ds, n as int);
    assert(low_value(digits@, digits@.len() as int) == value);
    let rounds: usize = shift + 64;
    let mut t: usize = 0;
    proof {
        assert(value * 1 == value) by (nonlinear_arith);
    }
    while t < rounds
        invariant
            t <= rounds <= 128,
            are_digits(digits@),
            n <= digits@.len() <= n + t,
            n + 200 <= usize::MAX,
            low_value(digits@, digits@.len() as int) == value * pow2(t as nat),
        decreases rounds - t,
    {
        double(&mut digits);
        proof {
            let p = pow2(t as nat);
            assert(2 * (value * p) == value * (2 * p)) by (nonlinear_arith);
        }
        t += 1;
    }
    let ghost p = value * pow2(shift as nat);
    let ghost big = p * 0x1_0000_0000_0000_0000;
    let ghost q = pow10(f as nat);
    proof {
        lemma_pow2_add(shift as nat, 64);
        lemma_pow2_values();
        let x = pow2(shift as nat);
        let y = pow2(64);
        assert(value * (x * y) == (value * x) * y) by (nonlinear_arith);
        assert(low_value(digits@, digits@.len() as int) == big);
        lemma_pow10_pos(f as nat);
        lemma_low_split(digits@, f as int, digits@.len() as int);
        lemma_low_bound(digits@, f as int);
        let hi = low_value(digits@.skip(f as int), digits@.len() - f);
        let lo = low_value(digits@, f as int);
        assert(big / q == hi && big % q == lo) by (nonlinear_arith)
            requires
                big == lo + q * hi,
                lo < q,
        ;
    }
    match high_part(&digits, f) {
        None => {
            proof {
                lemma_large(big, q, big / q);
            }
            Some(u64::MAX)
        },
        Some(a) => {
            let sticky: bool = has_rest(&digits, f);
            Some(round_down(a, sticky, Ghost(big), Ghost(q)))
        },
    }
}

} // verus!

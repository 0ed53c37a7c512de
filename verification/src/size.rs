//! File sizes in words.

use crate::text::{decimal_text, join, join3};
use crate::text;
use vstd::prelude::*;

verus! {

/// `n / d` rounded to the nearest integer, a tie to the even one.
pub open spec fn round_half_even(n: nat, d: nat) -> nat {
    let q = n / d;
    let r = n % d;
    if 2 * r > d || (2 * r == d && q % 2 == 1) {
        q + 1
    } else {
        q
    }
}

/// Rounding gives a nearest integer: it is off by half at most.
pub proof fn rounding_is_to_the_nearest(n: nat, d: nat)
    requires
        d > 0,
    ensures
        2 * (round_half_even(n, d) * d - n) <= d,
        2 * (n - round_half_even(n, d) * d) <= d,
{
    let q = n / d;
    let r = n % d;
    assert(n == q * d + r) by (nonlinear_arith)
        requires
            d > 0,
            q == n / d,
            r == n % d,
    ;
    assert((q + 1) * d == q * d + d) by (nonlinear_arith);
}

/// The distance between neighbouring numbers with 53 binary digits, around `n`.
pub open spec fn spacing(n: nat) -> nat
    decreases n,
{
    if n < 0x20_0000_0000_0000 {
        1
    } else {
        2 * spacing(n / 2)
    }
}

/// `n` kept to 53 binary digits, a tie to the even neighbour: the value that a
/// double has when it is made from `n`.
pub open spec fn to_53_digits(n: nat) -> nat {
    round_half_even(n, spacing(n)) * spacing(n)
}

/// `n / 10` with one digit after the point.
pub open spec fn tenths(n: nat) -> Seq<char> {
    text::decimal(n / 10) + "."@ + text::decimal(n % 10)
}

/// A number of bytes in words: whole bytes, or one digit after the point in the
/// largest unit of 1024 to the n-th power that is not larger.
pub open spec fn size_text(bytes: nat) -> Seq<char> {
    if bytes < 1024 {
        text::decimal(bytes) + " B"@
    } else if bytes < 0x10_0000 {
        tenths(round_half_even(10 * bytes, 0x400)) + " KB"@
    } else if bytes < 0x4000_0000 {
        tenths(round_half_even(10 * bytes, 0x10_0000)) + " MB"@
    } else {
        tenths(round_half_even(10 * to_53_digits(bytes), 0x4000_0000)) + " GB"@
    }
}

fn rounded(n: u128, d: u128) -> (r: u128)
    requires
        0 < d <= 0x1_0000_0000_0000_0000,
        n < u128::MAX,
    ensures
        r == round_half_even(n as nat, d as nat),
        r <= n / d + 1,
{
    let q: u128 = n / d;
    let rem: u128 = n % d;
    if 2 * rem > d || (2 * rem == d && q % 2 == 1) {
        assert(q <= n) by (nonlinear_arith)
            requires
                q == n / d,
                d >= 1,
        ;
        q + 1
    } else {
        q
    }
}

fn spacing_of(n: u64) -> (s: u128)
    ensures
        s == spacing(n as nat),
        1 <= s <= 4096,
{
    let mut m: u64 = n;
    let mut s: u128 = 1;
    while m >= 0x20_0000_0000_0000
        invariant
            spacing(n as nat) == s * spacing(m as nat),
            1 <= s,
            s * m <= n,
            s <= 4096,
        decreases m,
    {
        let ghost sm = spacing((m / 2) as nat);
        assert(s * (2 * sm) == (2 * s) * sm) by (nonlinear_arith);
        assert((2 * s) * (m / 2) <= s * m) by (nonlinear_arith)
            requires
                s >= 1,
                m >= 0,
        ;
        assert(s < 2048) by (nonlinear_arith)
            requires
                s * m <= n,
                m >= 0x20_0000_0000_0000,
                n <= 0xffff_ffff_ffff_ffff,
                s >= 1,
        ;
        s = 2 * s;
        m = m / 2;
    }
    assert(s * 1 == s) by (nonlinear_arith);
    s
}

fn to_double(n: u64) -> (r: u128)
    ensures
        r == to_53_digits(n as nat),
        r <= 0x2_0000_0000_0000_0000,
{
    let s: u128 = spacing_of(n);
    let q: u128 = rounded(n as u128, s);
    assert(q * s <= n + s) by (nonlinear_arith)
        requires
            q <= (n as u128) / s + 1,
            s >= 1,
    ;
    q * s
}

fn tenths_text(n: u64) -> (s: String)
    ensures
        s@ == tenths(n as nat),
{
    join3(decimal_text(n / 10).as_str(), ".", decimal_text(n % 10).as_str())
}

/// A number of bytes in words.
pub fn format_size(bytes: usize) -> (s: String)
    ensures
        s@ == size_text(bytes as nat),
{
    let n: u64 = bytes as u64;
    if n < 1024 {
        join(decimal_text(n).as_str(), " B")
    } else if n < 0x10_0000 {
        let t: u128 = rounded(10 * (n as u128), 0x400);
        join(tenths_text(t as u64).as_str(), " KB")
    } else if n < 0x4000_0000 {
        let t: u128 = rounded(10 * (n as u128), 0x10_0000);
        join(tenths_text(t as u64).as_str(), " MB")
    } else {
        let v: u128 = to_double(n);
        let t: u128 = rounded(10 * v, 0x4000_0000);
        join(tenths_text(t as u64).as_str(), " GB")
    }
}

// ---------------------------------------------------------------------------
// Laws of sizes
// ---------------------------------------------------------------------------


proof fn lemma_spacing(n: nat)
    requires
        n <= u64::MAX,
    ensures
        1 <= spacing(n) <= 4096,
        n < 0x20_0000_0000_0000 ==> spacing(n) == 1,
{
    reveal_with_fuel(spacing, 13);
}

/// A size is told in the largest unit that it reaches: whole bytes below 1024, and else
/// the nearest tenth of the unit. `t` is how many tenths that are. From 8 PB on the size
/// is kept to 53 binary digits first, which moves it by 2048 bytes at most.
pub proof fn sizes_are_told_to_the_nearest_tenth(bytes: nat) -> (t: nat)
    requires
        bytes <= u64::MAX,
    ensures
        bytes < 1024 ==> size_text(bytes) == text::decimal(bytes) + " B"@,
        1024 <= bytes < 1024 * 1024 ==> {
            &&& size_text(bytes) == text::decimal(t / 10) + "."@ + text::decimal(t % 10) + " KB"@
            &&& -512 <= t * 1024 - 10 * bytes <= 512
        },
        1024 * 1024 <= bytes < 1024 * 1024 * 1024 ==> {
            &&& size_text(bytes) == text::decimal(t / 10) + "."@ + text::decimal(t % 10) + " MB"@
            &&& -(512 * 1024) <= t * (1024 * 1024) - 10 * bytes <= 512 * 1024
        },
        1024 * 1024 * 1024 <= bytes ==> {
            &&& size_text(bytes) == text::decimal(t / 10) + "."@ + text::decimal(t % 10) + " GB"@
            &&& -(512 * 1024 * 1024 + 20480) <= t * (1024 * 1024 * 1024) - 10 * bytes <= 512 * 1024 * 1024
                + 20480
            &&& bytes < 0x20_0000_0000_0000 ==> -(512 * 1024 * 1024) <= t * (1024 * 1024 * 1024) - 10
                * bytes <= 512 * 1024 * 1024
        },
{
    if bytes < 1024 {
        0
    } else if bytes < 0x10_0000 {
        rounding_is_to_the_nearest(10 * bytes, 0x400);
        round_half_even(10 * bytes, 0x400)
    } else if bytes < 0x4000_0000 {
        rounding_is_to_the_nearest(10 * bytes, 0x10_0000);
        round_half_even(10 * bytes, 0x10_0000)
    } else {
        lemma_spacing(bytes);
        rounding_is_to_the_nearest(bytes, spacing(bytes));
        let v = to_53_digits(bytes);
        rounding_is_to_the_nearest(10 * v, 0x4000_0000);
        round_half_even(10 * v, 0x4000_0000)
    }
}

/// Halfway between two tenths the even one is told.
pub proof fn ties_go_to_the_even_one(n: nat, d: nat)
    requires
        d > 0,
    ensures
        2 * n == (2 * round_half_even(n, d) + 1) * d || 2 * n == (2 * round_half_even(n, d) - 1) * d
            ==> round_half_even(n, d) % 2 == 0,
{
    let q = n / d;
    let r = n % d;
    assert(n == q * d + r && r < d) by (nonlinear_arith)
        requires
            d > 0,
            q == n / d,
            r == n % d,
    ;
    let k = round_half_even(n, d);
    assert((2 * k + 1) * d == 2 * (k * d) + d) by (nonlinear_arith);
    assert((2 * k - 1) * d == 2 * (k * d) - d) by (nonlinear_arith);
    assert((q + 1) * d == q * d + d) by (nonlinear_arith);
}

} // verus!

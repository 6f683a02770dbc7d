//! Numbers for people. Units are powers of 1024 and named so.
use vstd::prelude::*;
use crate::strings::{decimal, numeral};

verus! {

/// `a / b` to the nearest whole number, and to the even one where two are as near.
pub open spec fn half_even(a: nat, b: nat) -> nat {
    let q = a / b;
    let r = a % b;
    if 2 * r > b || (2 * r == b && q % 2 == 1) {
        q + 1
    } else {
        q
    }
}

pub fn round_half_even(a: u128, b: u128) -> (r: u128)
    requires
        0 < b < 0x1000_0000_0000_0000,
        a < 0x1000_0000_0000_0000_0000_0000_0000_0000,
    ensures
        r == half_even(a as nat, b as nat),
{
    let q = a / b;
    let rest = a % b;
    assert(q <= a) by (nonlinear_arith)
        requires
            q == a / b,
            b > 0,
    ;
    if 2 * rest > b || (2 * rest == b && q % 2 == 1) {
        q + 1
    } else {
        q
    }
}

/// The distance between neighbouring numbers of 53 significant bits around `n`.
pub open spec fn grain(n: nat) -> nat {
    if n < 0x20_0000_0000_0000 {
        1
    } else if n < 0x40_0000_0000_0000 {
        2
    } else if n < 0x80_0000_0000_0000 {
        4
    } else if n < 0x100_0000_0000_0000 {
        8
    } else if n < 0x200_0000_0000_0000 {
        16
    } else if n < 0x400_0000_0000_0000 {
        32
    } else if n < 0x800_0000_0000_0000 {
        64
    } else if n < 0x1000_0000_0000_0000 {
        128
    } else if n < 0x2000_0000_0000_0000 {
        256
    } else if n < 0x4000_0000_0000_0000 {
        512
    } else if n < 0x8000_0000_0000_0000 {
        1024
    } else {
        2048
    }
}

fn grain_of(n: u64) -> (r: u64)
    ensures
        r == grain(n as nat),
        1 <= r <= 2048,
{
    if n < 0x20_0000_0000_0000 {
        1
    } else if n < 0x40_0000_0000_0000 {
        2
    } else if n < 0x80_0000_0000_0000 {
        4
    } else if n < 0x100_0000_0000_0000 {
        8
    } else if n < 0x200_0000_0000_0000 {
        16
    } else if n < 0x400_0000_0000_0000 {
        32
    } else if n < 0x800_0000_0000_0000 {
        64
    } else if n < 0x1000_0000_0000_0000 {
        128
    } else if n < 0x2000_0000_0000_0000 {
        256
    } else if n < 0x4000_0000_0000_0000 {
        512
    } else if n < 0x8000_0000_0000_0000 {
        1024
    } else {
        2048
    }
}

/// `n` to 53 significant bits.
pub open spec fn to_53_bits(n: nat) -> nat {
    half_even(n, grain(n)) * grain(n)
}

/// `n` to 53 significant bits.
pub fn as_53_bits(n: u64) -> (v: u128)
    ensures
        v == to_53_bits(n as nat),
        v <= 0x1_0000_0000_0000_0000 + 2048,
{
    let g = grain_of(n);
    let steps = round_half_even(n as u128, g as u128);
    assert(steps <= n / g + 1);
    assert(n / g <= n) by (nonlinear_arith)
        requires
            g > 0,
    ;
    assert(steps * g <= 0x1_0000_0000_0000_0000 + 2048) by {
        assert((n / g) * g <= n) by (nonlinear_arith)
            requires
                g > 0,
        ;
        assert(steps * g <= (n / g + 1) * g) by (nonlinear_arith)
            requires
                steps <= n / g + 1,
                g > 0,
        ;
        assert((n / g + 1) * g == (n / g) * g + g) by (nonlinear_arith);
    }
    let v: u128 = steps * (g as u128);
    v
}

/// The unit for a byte count from one kibibyte on: its size and its name.
pub open spec fn unit_of(n: nat) -> (nat, Seq<char>) {
    if n < 0x10_0000 {
        (0x400, " KiB"@)
    } else if n < 0x4000_0000 {
        (0x10_0000, " MiB"@)
    } else if n < 0x100_0000_0000 {
        (0x4000_0000, " GiB"@)
    } else {
        (0x100_0000_0000, " TiB"@)
    }
}

/// A byte count in words: whole bytes under one kibibyte, else one decimal, tebibytes at most.
pub open spec fn bytes_text(n: nat) -> Seq<char> {
    if n < 1024 {
        numeral(n) + " B"@
    } else {
        let tenths = half_even(to_53_bits(n) * 10, unit_of(n).0);
        numeral(tenths / 10) + "."@ + numeral(tenths % 10) + unit_of(n).1
    }
}

/// `938 B`, `1.5 MiB`.
pub fn human_bytes(n: u64) -> (r: String)
    ensures
        r@ == bytes_text(n as nat),
{
    if n < 1024 {
        let mut s = decimal(n);
        s.append(" B");
        return s;
    }
    let v = as_53_bits(n);
    let (unit, name): (u128, &str) = if n < 0x10_0000 {
        (0x400, " KiB")
    } else if n < 0x4000_0000 {
        (0x10_0000, " MiB")
    } else if n < 0x100_0000_0000 {
        (0x4000_0000, " GiB")
    } else {
        (0x100_0000_0000, " TiB")
    };
    let tenths = round_half_even(v * 10, unit);
    assert(tenths <= (v * 10) / (unit as int) + 1);
    assert((v * 10) / (unit as int) <= v * 10 / 1024) by (nonlinear_arith)
        requires
            unit >= 1024,
            v >= 0,
    ;
    let whole: u128 = tenths / 10;
    let part: u128 = tenths % 10;
    let mut s = decimal(whole as u64);
    s.append(".");
    s.append(decimal(part as u64).as_str());
    s.append(name);
    s
}

/// Rounding goes to the nearest whole number: the error is at most a half, and where it is a half the
/// result is even.
pub proof fn rounding_goes_to_the_nearest(a: nat, b: nat)
    requires
        b > 0,
    ensures
        -(b as int) <= 2 * (a - half_even(a, b) * b) <= b,
        2 * (a - half_even(a, b) * b) == b || 2 * (half_even(a, b) * b - a) == b ==> half_even(a, b) % 2 == 0,
{
    let q = a / b;
    let r = a % b;
    vstd::arithmetic::div_mod::lemma_fundamental_div_mod(a as int, b as int);
    assert(a == b * q + r);
    assert(r < b) by {
        vstd::arithmetic::div_mod::lemma_mod_bound(a as int, b as int);
    }
    assert(b * q == q * b) by (nonlinear_arith);
    assert((q + 1) * b == q * b + b) by (nonlinear_arith);
}

/// From one kibibyte on, a count is told in tenths of the largest unit that is not above it, to the nearest
/// tenth. (Where a double cannot hold the count it is the nearest double that is told.)
pub proof fn bytes_are_told_to_the_nearest_tenth(n: nat)
    requires
        1024 <= n < 0x20_0000_0000_0000,
    ensures
        exists|tenths: nat, unit: nat|
            bytes_text(n) == #[trigger] numeral(tenths / 10) + "."@ + numeral(tenths % 10) + unit_of(n).1 && #[trigger] half_even(
                n * 10,
                unit,
            ) == tenths && unit == unit_of(n).0 && -(unit as int) <= 2 * (10 * n - tenths * unit) <= unit,
        unit_of(n).0 <= n,
        n < 1024 * unit_of(n).0 || unit_of(n).0 == 0x100_0000_0000,
{
    let unit = unit_of(n).0;
    assert(grain(n) == 1);
    assert(half_even(n, 1) == n) by {
        assert(n / 1 == n && n % 1 == 0);
    }
    assert(to_53_bits(n) == n);
    let tenths = half_even(n * 10, unit);
    rounding_goes_to_the_nearest(n * 10, unit);
    assert(bytes_text(n) == numeral(tenths / 10) + "."@ + numeral(tenths % 10) + unit_of(n).1);
}

/// Under one kibibyte the bytes themselves are told.
pub proof fn few_bytes_are_told_exactly(n: nat)
    ensures
        n < 1024 ==> bytes_text(n) == numeral(n) + " B"@,
{
}

} // verus!

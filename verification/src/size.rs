//! Sizes as people read them.
use crate::text::{decimal, decimal_text};
use vstd::prelude::*;

verus! {

/// The integers below this are all exact in double precision.
pub const EXACT_LIMIT: u64 = 0x20_0000_0000_0000;

/// How many times a size can be divided by 1024, but for the last unit.
pub open spec fn unit_of(bytes: nat) -> nat {
    if bytes < 0x400 {
        0
    } else if bytes < 0x10_0000 {
        1
    } else if bytes < 0x4000_0000 {
        2
    } else if bytes < 0x100_0000_0000 {
        3
    } else {
        4
    }
}

/// The bytes in a unit.
pub open spec fn unit_bytes(unit: nat) -> nat {
    if unit == 0 {
        1
    } else if unit == 1 {
        0x400
    } else if unit == 2 {
        0x10_0000
    } else if unit == 3 {
        0x4000_0000
    } else {
        0x100_0000_0000
    }
}

/// The name of a unit.
pub open spec fn unit_name(unit: nat) -> Seq<char> {
    if unit == 0 {
        "B"@
    } else if unit == 1 {
        "KiB"@
    } else if unit == 2 {
        "MiB"@
    } else if unit == 3 {
        "GiB"@
    } else {
        "TiB"@
    }
}

/// `n / d` rounded to the nearest integer, to the even one of two.
pub open spec fn half_even(n: nat, d: nat) -> nat {
    let floor = n / d;
    let rest = n % d;
    if 2 * rest < d || (2 * rest == d && floor % 2 == 0) {
        floor
    } else {
        floor + 1
    }
}

/// The distance between neighbouring doubles at `n`.
pub open spec fn double_step(n: nat) -> nat
    decreases n,
{
    if n < EXACT_LIMIT {
        1
    } else {
        2 * double_step(n / 2)
    }
}

/// The double nearest to `n`, of two the one with the even significand.
pub open spec fn as_double(n: nat) -> nat {
    half_even(n, double_step(n)) * double_step(n)
}

/// The tenths of its unit that a size comes to. The size is taken in double
/// precision, which changes it only from `EXACT_LIMIT` on.
pub open spec fn tenths_of(bytes: nat) -> nat {
    half_even(10 * as_double(bytes), unit_bytes(unit_of(bytes)))
}

/// A size below 1024 bytes as it is, and any other with one decimal in its
/// unit.
pub open spec fn human_text(bytes: nat) -> Seq<char> {
    if unit_of(bytes) == 0 {
        decimal(bytes) + " B"@
    } else {
        decimal(tenths_of(bytes) / 10) + "."@ + decimal(tenths_of(bytes) % 10) + " "@ + unit_name(
            unit_of(bytes),
        )
    }
}

/// The distance between neighbouring doubles at `n`.
fn step_at(n: u64) -> (out: u64)
    ensures
        out == double_step(n as nat),
        1 <= out,
        n >= EXACT_LIMIT ==> out <= n,
    decreases n,
{
    if n < EXACT_LIMIT {
        1
    } else {
        2 * step_at(n / 2)
    }
}

/// `n / d` rounded to the nearest integer, to the even one of two.
fn round_half_even(n: u128, d: u64) -> (out: u128)
    requires
        d > 0,
        n < 0x1_0000_0000_0000_0000_0000,
    ensures
        out == half_even(n as nat, d as nat),
        out <= n / d as u128 + 1,
{
    let wide = d as u128;
    let floor = n / wide;
    let rest = n % wide;
    assert(floor <= n) by (nonlinear_arith)
        requires
            floor == n / wide,
            wide > 0,
    ;
    if 2 * rest < wide || (2 * rest == wide && floor % 2 == 0) {
        floor
    } else {
        floor + 1
    }
}

/// The tenths of `unit` bytes that a size comes to.
fn tenths(bytes: u64, unit: u64) -> (out: u64)
    requires
        unit >= 0x400,
    ensures
        out == half_even(10 * as_double(bytes as nat), unit as nat),
{
    let step = step_at(bytes);
    let steps = round_half_even(bytes as u128, step);
    proof {
        let n = bytes as int;
        let d = step as int;
        assert(n / d * d <= n) by (nonlinear_arith)
            requires
                d > 0,
                n >= 0,
        ;
        assert((n / d + 1) * d == n / d * d + d) by (nonlinear_arith);
        assert(steps * d <= (n / d + 1) * d) by (nonlinear_arith)
            requires
                steps <= n / d + 1,
                d > 0,
        ;
        assert(steps * step <= 0x2_0000_0000_0000_0000);
        assert(0 <= steps * step) by (nonlinear_arith)
            requires
                steps >= 0,
                step >= 0,
        ;
    }
    let near: u128 = steps * step as u128;
    assert(near == as_double(bytes as nat));
    let out = round_half_even(10 * near, unit);
    proof {
        let x = 10 * near;
        let u = unit as int;
        assert(x / u <= x / 0x400) by {
            vstd::arithmetic::div_mod::lemma_div_is_ordered_by_denominator(x as int, 0x400, u);
        }
    }
    out as u64
}

/// A size as people read it: `512 B`, `1.5 KiB`, `2.0 GiB`.
pub fn human(bytes: u64) -> (out: String)
    ensures
        out@ == human_text(bytes as nat),
{
    if bytes < 0x400 {
        let mut out = decimal_text(bytes);
        out.append(" B");
        return out;
    }
    let (unit, name): (u64, &str) = if bytes < 0x10_0000 {
        (0x400, "KiB")
    } else if bytes < 0x4000_0000 {
        (0x10_0000, "MiB")
    } else if bytes < 0x100_0000_0000 {
        (0x4000_0000, "GiB")
    } else {
        (0x100_0000_0000, "TiB")
    };
    let n = tenths(bytes, unit);
    let whole = decimal_text(n / 10);
    let tenth = decimal_text(n % 10);
    let mut out = whole;
    out.append(".");
    out.append(tenth.as_str());
    out.append(" ");
    out.append(name);
    assert(out@ =~= human_text(bytes as nat));
    out
}

/// Rounding stays within half of the divisor.
proof fn rounding_is_close(n: nat, d: nat)
    requires
        d > 0,
    ensures
        2 * (half_even(n, d) * d - n) <= d,
        2 * (n - half_even(n, d) * d) <= d,
{
    let floor = n / d;
    let rest = n % d;
    assert(n == floor * d + rest) by {
        vstd::arithmetic::div_mod::lemma_fundamental_div_mod(n as int, d as int);
        vstd::arithmetic::mul::lemma_mul_is_commutative(floor as int, d as int);
    }
    assert((floor + 1) * d == floor * d + d) by (nonlinear_arith);
}

/// Sizes below `EXACT_LIMIT` are exact in double precision.
pub proof fn small_sizes_are_exact(bytes: nat)
    requires
        bytes < EXACT_LIMIT,
    ensures
        as_double(bytes) == bytes,
{
    assert(double_step(bytes) == 1);
    assert(bytes / 1 == bytes && bytes % 1 == 0) by (nonlinear_arith);
    assert(half_even(bytes, 1) == bytes);
}

/// What is shown of a size below `EXACT_LIMIT` is off by at most half a tenth
/// of its unit.
pub proof fn shown_size_is_close(bytes: nat)
    requires
        bytes < EXACT_LIMIT,
    ensures
        2 * (tenths_of(bytes) * unit_bytes(unit_of(bytes)) - 10 * bytes) <= unit_bytes(
            unit_of(bytes),
        ),
        2 * (10 * bytes - tenths_of(bytes) * unit_bytes(unit_of(bytes))) <= unit_bytes(
            unit_of(bytes),
        ),
{
    small_sizes_are_exact(bytes);
    rounding_is_close(10 * bytes, unit_bytes(unit_of(bytes)));
}

/// Whether `tenths` tenths of a unit are as near to a size as they can be, the
/// even one of two; but for `slack` over ten bytes.
pub open spec fn is_nearest(bytes: nat, tenths: nat, unit: nat, slack: nat) -> bool {
    &&& 2 * (tenths * unit - 10 * bytes) <= unit + slack
    &&& 2 * (10 * bytes - tenths * unit) <= unit + slack
    &&& slack == 0 && (2 * (tenths * unit - 10 * bytes) == unit || 2 * (10 * bytes - tenths * unit)
        == unit) ==> tenths % 2 == 0
}

/// Whether a size is shown as so many tenths of a unit.
pub open spec fn is_shown_as(bytes: nat, tenths: nat, unit: Seq<char>) -> bool {
    human_text(bytes) == decimal(tenths / 10) + "."@ + decimal(tenths % 10) + " "@ + unit
}

/// Tenths rounded half to even are the nearest.
proof fn rounding_is_nearest(bytes: nat, unit: nat)
    requires
        unit > 0,
    ensures
        is_nearest(bytes, half_even(10 * bytes, unit), unit, 0),
{
    let n = 10 * bytes;
    let floor = n / unit;
    let rest = n % unit;
    assert(n == floor * unit + rest) by {
        vstd::arithmetic::div_mod::lemma_fundamental_div_mod(n as int, unit as int);
        vstd::arithmetic::mul::lemma_mul_is_commutative(floor as int, unit as int);
    }
    assert((floor + 1) * unit == floor * unit + unit) by (nonlinear_arith);
}

/// Doubles of this size are at most one part in 2^52 apart.
proof fn doubles_are_close(n: nat)
    requires
        n >= EXACT_LIMIT,
    ensures
        double_step(n) > 0,
        double_step(n) * 0x10_0000_0000_0000 <= n,
    decreases n,
{
    if n / 2 >= EXACT_LIMIT {
        doubles_are_close(n / 2);
    } else {
        assert(double_step(n / 2) == 1);
    }
    assert(double_step(n) == 2 * double_step(n / 2));
}

/// A size is shown in bytes below 1024, and otherwise with one decimal in the
/// largest unit, of 1024 of the one before, that it fills: the nearest there
/// is to the size, exactly below 2^53 bytes, and from there on within a few
/// thousand bytes.
pub proof fn sizes_are_shown_to_the_nearest_tenth(bytes: nat) -> (tenths: nat)
    requires
        bytes <= u64::MAX,
    ensures
        bytes < 1024 ==> human_text(bytes) == decimal(bytes) + " B"@,
        1024 <= bytes < 1048576 ==> is_shown_as(bytes, tenths, "KiB"@) && is_nearest(
            bytes,
            tenths,
            1024,
            0,
        ),
        1048576 <= bytes < 1073741824 ==> is_shown_as(bytes, tenths, "MiB"@) && is_nearest(
            bytes,
            tenths,
            1048576,
            0,
        ),
        1073741824 <= bytes < 1099511627776 ==> is_shown_as(bytes, tenths, "GiB"@) && is_nearest(
            bytes,
            tenths,
            1073741824,
            0,
        ),
        1099511627776 <= bytes < 9007199254740992 ==> is_shown_as(bytes, tenths, "TiB"@)
            && is_nearest(bytes, tenths, 1099511627776, 0),
        9007199254740992 <= bytes ==> is_shown_as(bytes, tenths, "TiB"@) && is_nearest(
            bytes,
            tenths,
            1099511627776,
            40960,
        ),
{
    let unit = unit_bytes(unit_of(bytes));
    let near = as_double(bytes);
    rounding_is_nearest(near, unit);
    if bytes < EXACT_LIMIT {
        small_sizes_are_exact(bytes);
    } else {
        doubles_are_close(bytes);
        let step = double_step(bytes);
        assert(step <= 4096);
        rounding_is_close(bytes, step);
    }
    tenths_of(bytes)
}

} // verus!

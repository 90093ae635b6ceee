//! Floating-point numbers by their bit patterns.
//!
//! A single-precision number is given by its 32 bits: one sign bit, eight
//! exponent bits, 23 fraction bits. Among numbers of one sign the magnitudes
//! order as integers do; both zeros are equal; a magnitude above that of
//! infinity is not a number at all. A half-precision number has one sign bit,
//! five exponent bits and ten fraction bits.

use vstd::arithmetic::power2::{
    lemma2_to64, lemma_pow2_adds, lemma_pow2_pos, lemma_pow2_unfold, pow2,
};
use vstd::prelude::*;

verus! {

/// The magnitude of infinity.
pub const INFINITY_BITS: u32 = 0x7f80_0000;

/// An integer that orders as the number with these bits does; nothing for
/// what is not a number.
pub open spec fn key_of_bits(bits: u32) -> Option<int> {
    let magnitude = if bits < 0x8000_0000 {
        bits as int
    } else {
        bits - 0x8000_0000
    };
    if magnitude > INFINITY_BITS {
        None
    } else if bits < 0x8000_0000 {
        Some(magnitude)
    } else {
        Some(-magnitude)
    }
}

/// An integer that orders as the number with these bits does.
pub fn order_key(bits: u32) -> (key: Option<i64>)
    ensures
        match key {
            Some(k) => key_of_bits(bits) == Some(k as int),
            None => key_of_bits(bits) is None,
        },
{
    if bits < 0x8000_0000 {
        if bits > INFINITY_BITS {
            None
        } else {
            Some(bits as i64)
        }
    } else {
        let magnitude: u32 = bits - 0x8000_0000;
        if magnitude > INFINITY_BITS {
            None
        } else {
            Some(-(magnitude as i64))
        }
    }
}

/// The size of a finite single-precision number, in units of its smallest
/// positive one (two to the power -149).
pub open spec fn single_units(bits: u32) -> nat {
    let exponent = (bits / 0x80_0000) % 256;
    let fraction = (bits % 0x80_0000) as nat;
    if exponent == 0 {
        fraction
    } else {
        (fraction + 0x80_0000) * pow2((exponent - 1) as nat)
    }
}

/// The size of a finite half-precision number, in units of its smallest
/// positive one (two to the power -24).
pub open spec fn half_units(bits: u16) -> nat {
    let exponent = (bits / 1024) % 32;
    let fraction = (bits % 1024) as nat;
    if exponent == 0 {
        fraction
    } else {
        (fraction + 1024) * pow2((exponent - 1) as nat)
    }
}

/// Whether a half-precision number is finite.
pub open spec fn half_is_finite(bits: u16) -> bool {
    (bits / 1024) % 32 != 31
}

/// The bits of a finite single-precision number, from its sign, its exponent
/// and its fraction.
spec fn assembled(sign: u32, exponent: u32, fraction: u32) -> int {
    sign * 0x8000_0000 + exponent * 0x80_0000 + fraction
}

proof fn lemma_assembled(sign: u32, exponent: u32, fraction: u32)
    requires
        sign < 2,
        exponent < 256,
        fraction < 0x80_0000,
    ensures
        assembled(sign, exponent, fraction) <= u32::MAX,
        ({
            let bits = assembled(sign, exponent, fraction) as u32;
            &&& bits / 0x8000_0000 == sign
            &&& (bits / 0x80_0000) % 256 == exponent
            &&& bits % 0x80_0000 == fraction
        }),
{
}

/// The single-precision bits of a half-precision number: the same sign and
/// exactly the same size (there are two to the power 125 units of the one in a
/// unit of the other); infinities stay infinities, and what is not a number
/// keeps its fraction bits.
pub fn single_from_half(bits: u16) -> (r: u32)
    ensures
        r / 0x8000_0000 == bits / 0x8000,
        half_is_finite(bits) ==> {
            &&& (r / 0x80_0000) % 256 != 255
            &&& single_units(r) == half_units(bits) * pow2(125)
        },
        !half_is_finite(bits) ==> {
            &&& (r / 0x80_0000) % 256 == 255
            &&& r % 0x80_0000 == (bits % 1024) * 8192
        },
{
    let sign: u32 = (bits / 0x8000) as u32;
    let exponent: u32 = ((bits / 1024) % 32) as u32;
    let fraction: u32 = (bits % 1024) as u32;
    if exponent == 31 {
        proof {
            lemma_assembled(sign, 255, (fraction * 8192) as u32);
        }
        sign * 0x8000_0000 + 255 * 0x80_0000 + fraction * 8192
    } else if exponent != 0 {
        proof {
            lemma_assembled(sign, (exponent + 112) as u32, (fraction * 8192) as u32);
            let e = (exponent - 1) as nat;
            lemma2_to64();
            lemma_pow2_adds(13, e + 112);
            lemma_pow2_adds(e, 125);
            let f = (fraction + 1024) as int;
            assert(single_units(
                assembled(sign, (exponent + 112) as u32, (fraction * 8192) as u32) as u32,
            ) == (f * 8192) * pow2(e + 112));
            assert(half_units(bits) == f * pow2(e));
            assert((f * 8192) * pow2(e + 112) == f * (8192 * pow2(e + 112))) by (nonlinear_arith);
            assert((f * pow2(e)) * pow2(125) == f * (pow2(e) * pow2(125))) by (nonlinear_arith);
        }
        sign * 0x8000_0000 + (exponent + 112) * 0x80_0000 + fraction * 8192
    } else if fraction == 0 {
        proof {
            lemma_assembled(sign, 0, 0);
            assert(half_units(bits) == 0);
            assert(0 * pow2(125) == 0);
        }
        sign * 0x8000_0000
    } else {
        let mut shifted: u32 = fraction;
        let mut k: u32 = 0;
        proof {
            lemma2_to64();
        }
        while shifted < 1024
            invariant
                0 < fraction < 1024,
                k <= 10,
                shifted == fraction * pow2(k as nat),
                0 < shifted < 2048,
            decreases 2048 - shifted,
        {
            proof {
                lemma2_to64();
                lemma_pow2_unfold((k + 1) as nat);
                assert(fraction * (2 * pow2(k as nat)) == 2 * (fraction * pow2(k as nat)))
                    by (nonlinear_arith);
                if k == 10 {
                    assert(fraction * 1024 >= 1024);
                }
            }
            shifted = shifted * 2;
            k = k + 1;
        }
        proof {
            lemma_assembled(sign, (113 - k) as u32, ((shifted - 1024) * 8192) as u32);
            let e = (112 - k) as nat;
            lemma2_to64();
            lemma_pow2_adds(13, e);
            lemma_pow2_adds(k as nat, (125 - k) as nat);
            let f = fraction as int;
            let p = pow2(k as nat) as int;
            assert(single_units(
                assembled(sign, (113 - k) as u32, ((shifted - 1024) * 8192) as u32) as u32,
            ) == (shifted * 8192) * pow2(e));
            assert(half_units(bits) == f);
            assert(8192 * pow2(e) == pow2((125 - k) as nat));
            assert(f * (p * pow2((125 - k) as nat)) == f * pow2(125));
            assert((f * p * 8192) * pow2(e) == f * (p * (8192 * pow2(e)))) by (nonlinear_arith);
        }
        sign * 0x8000_0000 + (113 - k) * 0x80_0000 + (shifted - 1024) * 8192
    }
}

proof fn lemma_units_step(bits: u32)
    requires
        bits < INFINITY_BITS - 1,
    ensures
        single_units(bits) < single_units((bits + 1) as u32),
{
    let exponent = (bits / 0x80_0000) % 256;
    let fraction = (bits % 0x80_0000) as int;
    let next = (bits + 1) as u32;
    lemma2_to64();
    if fraction + 1 < 0x80_0000 {
        assert((next / 0x80_0000) % 256 == exponent);
        assert(next % 0x80_0000 == fraction + 1);
        if exponent > 0 {
            let p = pow2((exponent - 1) as nat) as int;
            lemma_pow2_pos((exponent - 1) as nat);
            assert(single_units(bits) == (fraction + 0x80_0000) * p);
            assert(single_units(next) == (fraction + 1 + 0x80_0000) * p);
            assert((fraction + 0x80_0000) * p < (fraction + 1 + 0x80_0000) * p) by (nonlinear_arith)
                requires
                    p > 0,
            ;
        }
    } else {
        assert((next / 0x80_0000) % 256 == exponent + 1);
        assert(next % 0x80_0000 == 0);
        assert(single_units(next) == 0x80_0000 * pow2(exponent as nat));
        if exponent > 0 {
            let p = pow2((exponent - 1) as nat) as int;
            lemma_pow2_pos((exponent - 1) as nat);
            lemma_pow2_unfold(exponent as nat);
            assert(single_units(bits) == (0x7f_ffff + 0x80_0000) * p);
            assert((0x7f_ffff + 0x80_0000) * p < 0x80_0000 * (2 * p)) by (nonlinear_arith)
                requires
                    p > 0,
            ;
        }
    }
}

proof fn lemma_units_rise(a: u32, b: u32)
    requires
        a < b < INFINITY_BITS,
    ensures
        single_units(a) < single_units(b),
    decreases b - a,
{
    lemma_units_step((b - 1) as u32);
    if a < b - 1 {
        lemma_units_rise(a, (b - 1) as u32);
    }
}

/// The value of a finite single-precision number, in units of its smallest
/// positive one.
pub open spec fn single_value(bits: u32) -> int {
    if bits < 0x8000_0000 {
        single_units(bits) as int
    } else {
        -single_units((bits - 0x8000_0000) as u32)
    }
}

/// Keys order as the values of the numbers do.
pub proof fn keys_order_as_values(a: u32, b: u32)
    requires
        key_of_bits(a) matches Some(k) && -INFINITY_BITS < k < INFINITY_BITS,
        key_of_bits(b) matches Some(k) && -INFINITY_BITS < k < INFINITY_BITS,
    ensures
        key_of_bits(a)->0 < key_of_bits(b)->0 <==> single_value(a) < single_value(b),
        key_of_bits(a)->0 == key_of_bits(b)->0 <==> single_value(a) == single_value(b),
{
    let ma = if a < 0x8000_0000 {
        a
    } else {
        (a - 0x8000_0000) as u32
    };
    let mb = if b < 0x8000_0000 {
        b
    } else {
        (b - 0x8000_0000) as u32
    };
    assert(single_units(0) == 0);
    if ma > 0 {
        lemma_units_rise(0, ma);
    }
    if mb > 0 {
        lemma_units_rise(0, mb);
    }
    if ma < mb {
        lemma_units_rise(ma, mb);
    } else if mb < ma {
        lemma_units_rise(mb, ma);
    }
}

/// The two zeros are equal, and no number lies outside the infinities.
pub proof fn keys_are_bounded(bits: u32)
    ensures
        key_of_bits(0) == key_of_bits(0x8000_0000),
        key_of_bits(bits) matches Some(k) ==> -INFINITY_BITS <= k <= INFINITY_BITS,
{
}

/// `n / unit`, rounded to the nearest integer and to the even one of two.
pub open spec fn nearest(n: nat, unit: nat) -> nat {
    let whole = n / unit;
    let rest = n % unit;
    if 2 * rest > unit || (2 * rest == unit && whole % 2 == 1) {
        whole + 1
    } else {
        whole
    }
}

/// `n / unit`, rounded to the nearest integer and to the even one of two.
pub fn nearest_to(n: u128, unit: u128) -> (r: u128)
    requires
        0 < unit <= u64::MAX,
        n < u128::MAX,
    ensures
        r == nearest(n as nat, unit as nat),
{
    let whole: u128 = n / unit;
    let rest: u128 = n % unit;
    proof {
        assert(whole <= n) by (nonlinear_arith)
            requires
                whole == n / unit,
                0 < unit,
        ;
    }
    if 2 * rest > unit || (2 * rest == unit && whole % 2 == 1) {
        whole + 1
    } else {
        whole
    }
}

/// How far apart double-precision numbers are around an integer, which have 53
/// significant bits.
pub open spec fn double_step(n: nat) -> nat
    decreases n,
{
    if n < 0x20_0000_0000_0000 {
        1
    } else {
        2 * double_step(n / 2)
    }
}

/// The double-precision number nearest to an integer.
pub open spec fn as_double(n: nat) -> nat {
    nearest(n, double_step(n)) * double_step(n)
}

/// The double-precision number nearest to an integer.
pub fn to_double(n: u64) -> (r: u128)
    ensures
        r == as_double(n as nat),
        r <= 2 * n,
{
    let mut step: u128 = 1;
    let mut rest: u64 = n;
    proof {
        assert(step * double_step(rest as nat) == double_step(n as nat)) by (nonlinear_arith)
            requires
                step == 1,
                rest == n,
        ;
    }
    while rest >= 0x20_0000_0000_0000
        invariant
            step > 0,
            step * double_step(rest as nat) == double_step(n as nat),
            step * rest <= n,
            rest >= 1 || step == 1,
        decreases rest,
    {
        let ghost before = step as int;
        let ghost d = double_step(rest as nat / 2) as int;
        proof {
            assert(before <= n) by (nonlinear_arith)
                requires
                    before * rest <= n,
                    rest >= 1,
                    before > 0,
            ;
            assert(before * (2 * d) == (2 * before) * d) by (nonlinear_arith);
            assert((2 * before) * (rest as int / 2) <= before * rest) by (nonlinear_arith)
                requires
                    before > 0,
                    rest as int / 2 * 2 <= rest,
            ;
        }
        step = 2 * step;
        rest = rest / 2;
    }
    proof {
        assert(step * 1 == step);
        assert(rest >= 1 ==> step <= n) by (nonlinear_arith)
            requires
                step * rest <= n,
                step > 0,
        ;
    }
    let q: u128 = nearest_to(n as u128, step);
    proof {
        vstd::arithmetic::div_mod::lemma_fundamental_div_mod(n as int, step as int);
        let whole = n as int / step as int;
        assert(q * step <= step * whole + step) by (nonlinear_arith)
            requires
                q <= whole + 1,
                step > 0,
        ;
        if step == 1 {
            let u = step as nat;
            assert((n as nat) / u == n && (n as nat) % u == 0) by (nonlinear_arith)
                requires
                    u == 1,
            ;
            assert(q * step == q) by (nonlinear_arith)
                requires
                    step == 1,
            ;
        }
        assert(0 <= q * step) by (nonlinear_arith);
    }
    q * step
}

} // verus!

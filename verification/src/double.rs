//! Doubles as exact numbers. A double is held as its IEEE 754 bit pattern; a
//! finite one is, exactly, a whole numerator over a power of two, and the
//! day counts and the whole seconds of the calendar are taken from that
//! fraction by integer arithmetic alone.

use vstd::prelude::*;
use vstd::arithmetic::div_mod::{lemma_basic_div, lemma_fundamental_div_mod_converse};
use crate::fraction::{
    fraction_digits, fraction_digits_of, highest_bit, rounded_fraction, rounded_fraction_of,
};
use vstd::arithmetic::power2::{
    lemma2_to64, lemma2_to64_rest, lemma_pow2_adds, lemma_pow2_pos,
    lemma_pow2_strictly_increases,
    lemma_pow2_unfold, pow2,
};

verus! {

/// The eleven exponent bits of a double.
pub open spec fn exponent_field(bits: u64) -> int {
    ((bits / 0x10_0000_0000_0000) % 0x800) as int
}

/// The 52 fraction bits of a double.
pub open spec fn fraction_field(bits: u64) -> int {
    (bits % 0x10_0000_0000_0000) as int
}

/// Whether the sign bit is set.
pub open spec fn is_negative(bits: u64) -> bool {
    bits >= 0x8000_0000_0000_0000
}

/// Whether the double is a number: neither an infinity nor a NaN.
pub open spec fn is_finite(bits: u64) -> bool {
    exponent_field(bits) != 0x7ff
}

/// Tests whether the double is a number: neither an infinity nor a NaN.
pub fn is_finite_bits(bits: u64) -> (r: bool)
    ensures
        r == is_finite(bits),
{
    (bits / 0x10_0000_0000_0000) % 0x800 != 0x7ff
}

/// The significand of a finite double as a whole number: the fraction bits,
/// under a leading one unless the double is subnormal.
pub open spec fn mantissa(bits: u64) -> nat {
    if exponent_field(bits) == 0 {
        fraction_field(bits) as nat
    } else {
        (0x10_0000_0000_0000 + fraction_field(bits)) as nat
    }
}

/// The power of two by which the significand is scaled.
pub open spec fn exponent(bits: u64) -> int {
    if exponent_field(bits) == 0 {
        -1074
    } else {
        exponent_field(bits) - 1075
    }
}

/// The numerator of the magnitude of a finite double over [`unit`].
pub open spec fn numerator(bits: u64) -> nat {
    if exponent(bits) < 0 {
        mantissa(bits)
    } else {
        mantissa(bits) * pow2(exponent(bits) as nat)
    }
}

/// The denominator of the magnitude of a finite double, a power of two: the
/// magnitude is exactly `numerator(bits) / unit(bits)`.
pub open spec fn unit(bits: u64) -> nat {
    if exponent(bits) < 0 {
        pow2((-exponent(bits)) as nat)
    } else {
        1
    }
}

/// The numerator of the tolerance for day counts over two to the power 82:
/// the double nearest to a billionth, exactly.
pub open spec fn tolerance() -> int {
    0x11_2e0b_e826_d695
}

/// The whole number of days that a double stands for: the nearest whole
/// number, a half going away from zero, where the double is finite, differs
/// from it by at most the double nearest to a billionth, and the whole number
/// is an `i64`.
pub open spec fn day_count(bits: u64) -> Option<i64> {
    let n = numerator(bits) as int;
    let u = unit(bits) as int;
    let whole = (2 * n + u) / (2 * u);
    let deviation = if whole * u >= n {
        whole * u - n
    } else {
        n - whole * u
    };
    let signed = if is_negative(bits) {
        -whole
    } else {
        whole
    };
    if !is_finite(bits) || deviation * pow2(82) > tolerance() * u || signed < i64::MIN || signed
        > i64::MAX {
        None
    } else {
        Some(signed as i64)
    }
}

/// The whole seconds of a double of seconds, rounded down, and the digits
/// of its fraction of a second; none where the double is not finite or the
/// seconds are no `i64`.
pub open spec fn instant_parts(bits: u64) -> Option<(i64, Seq<char>)> {
    let n = numerator(bits) as int;
    let u = unit(bits) as int;
    let floor = if is_negative(bits) {
        -((n + u - 1) / u)
    } else {
        n / u
    };
    let part = if is_negative(bits) {
        (-floor) * u - n
    } else {
        n - floor * u
    };
    if !is_finite(bits) || floor < i64::MIN || floor > i64::MAX {
        None
    } else {
        Some(
            (
                floor as i64,
                match second_fraction(bits, floor, part) {
                    Some((num, sh)) => fraction_digits(num, sh),
                    None => Seq::empty(),
                },
            ),
        )
    }
}

/// The fraction of a second of a double of seconds, as the double
/// `num / 2^sh` that arithmetic on doubles makes of it, given the seconds
/// rounded down and the numerator of what is left over the unit of the
/// double. The time of day, whole seconds and what is left, is one double,
/// and the fraction is what that double has beyond its whole seconds. None
/// where the fraction is dropped: where the time of day as a double reaches
/// the next whole second, as it does for a negative double nearer to zero
/// than two to the power -31.
pub open spec fn second_fraction(bits: u64, floor: int, part: int) -> Option<(nat, nat)> {
    let sh = (if exponent(bits) < 0 {
        -exponent(bits)
    } else {
        0
    }) as nat;
    if part == 0 {
        Some((0, 0))
    } else if sh > 83 {
        if floor == 0 {
            Some((part as nat, sh))
        } else {
            None
        }
    } else {
        rounded_fraction((floor % 86_400) as nat, part as nat, sh)
    }
}

/// Two to the power 83.
proof fn lemma_pow2_83()
    ensures
        pow2(83) == 0x8_0000_0000_0000_0000_0000,
        pow2(12) == 0x1000,
{
    lemma2_to64();
    lemma_pow2_adds(64, 19);
}

/// Two to the power `n`.
pub(crate) fn power_of_two(n: u32) -> (p: u128)
    requires
        n <= 83,
    ensures
        p == pow2(n as nat),
        1 <= p <= 0x8_0000_0000_0000_0000_0000,
{
    let mut p: u128 = 1;
    let mut i: u32 = 0;
    proof {
        lemma2_to64();
        lemma_pow2_83();
    }
    while i < n
        invariant
            i <= n <= 83,
            p == pow2(i as nat),
            1 <= p,
            pow2(83) == 0x8_0000_0000_0000_0000_0000,
        decreases n - i,
    {
        proof {
            lemma_pow2_unfold((i + 1) as nat);
            if i + 1 < 83 {
                lemma_pow2_strictly_increases((i + 1) as nat, 83);
            }
        }
        p = p * 2;
        i = i + 1;
    }
    proof {
        if n < 83 {
            lemma_pow2_strictly_increases(n as nat, 83);
        }
    }
    p
}

/// The parts of a finite double that the arithmetic works on.
struct Parts {
    negative: bool,
    mantissa: u64,
    /// The exponent field, or 1 for a subnormal double: the significand is
    /// scaled by two to the power `scale - 1075`.
    scale: u32,
}

/// Takes a double apart; none for an infinity or a NaN.
fn parts_of(bits: u64) -> (r: Option<Parts>)
    ensures
        r is Some == is_finite(bits),
        r matches Some(p) ==> {
            &&& p.negative == is_negative(bits)
            &&& p.mantissa == mantissa(bits)
            &&& p.mantissa < 0x20_0000_0000_0000
            &&& 1 <= p.scale <= 2046
            &&& p.scale - 1075 == exponent(bits)
            &&& (p.scale >= 1075 ==> p.mantissa >= 0x10_0000_0000_0000)
        },
{
    let field: u64 = (bits / 0x10_0000_0000_0000) % 0x800;
    let fraction: u64 = bits % 0x10_0000_0000_0000;
    if field == 0x7ff {
        return None;
    }
    let negative = bits >= 0x8000_0000_0000_0000;
    if field == 0 {
        Some(Parts { negative, mantissa: fraction, scale: 1 })
    } else {
        Some(Parts { negative, mantissa: 0x10_0000_0000_0000 + fraction, scale: field as u32 })
    }
}

/// A double with a significand below two to the power 53 and a unit of at
/// least two to the power 84 is less than one, and less than the tolerance
/// for day counts.
proof fn lemma_tiny(m: int, u: int)
    requires
        0 <= m < 0x20_0000_0000_0000,
        u >= 0x10_0000_0000_0000_0000_0000,
    ensures
        (2 * m + u) / (2 * u) == 0,
        m * 0x4_0000_0000_0000_0000_0000 <= tolerance() * u,
        m / u == 0,
        m > 0 ==> (m + u - 1) / u == 1,
        m == 0 ==> (m + u - 1) / u == 0,
{
    lemma_basic_div(2 * m + u, 2 * u);
    lemma_basic_div(m, u);
    if m > 0 {
        lemma_fundamental_div_mod_converse(m + u - 1, u, 1, m - 1);
    } else {
        lemma_basic_div(u - 1, u);
    }
}

/// Over the unit one, a whole number is its own nearest whole number and
/// its own floor.
proof fn lemma_unit_one(n: int, u: int)
    requires
        n >= 0,
        u == 1,
    ensures
        (2 * n + u) / (2 * u) == n,
        n / u == n,
        (n + u - 1) / u == n,
        n * u == n,
{
    vstd::arithmetic::div_mod::lemma_div_basics(n);
    assert(2 * u == 2);
    assert((2 * n + 1) / 2 == n);
    assert(n * 1 == n) by (nonlinear_arith);
}

/// A normal double scaled up by two to the power twelve or more is beyond
/// the range of an `i64`.
proof fn lemma_huge(m: int, e: nat)
    requires
        m >= 0x10_0000_0000_0000,
        e >= 12,
    ensures
        m * pow2(e) >= 0x1_0000_0000_0000_0000,
{
    lemma_pow2_83();
    if e > 12 {
        lemma_pow2_strictly_increases(12, e);
    }
    let p = pow2(e) as int;
    assert(m * p >= 0x10_0000_0000_0000 * 0x1000) by (nonlinear_arith)
        requires
            m >= 0x10_0000_0000_0000,
            p >= 0x1000,
    ;
}

/// The quotient of a whole number by a positive one, rounded down.
proof fn lemma_floor(n: int, u: int)
    requires
        n >= 0,
        u >= 1,
    ensures
        0 <= n / u <= n,
        (n / u) * u <= n < (n / u) * u + u,
{
    vstd::arithmetic::div_mod::lemma_fundamental_div_mod(n, u);
    vstd::arithmetic::div_mod::lemma_mod_bound(n, u);
    let q = n / u;
    let r = n % u;
    assert(n == u * q + r);
    assert(q >= 0 && q <= n) by (nonlinear_arith)
        requires
            n == u * q + r,
            0 <= r < u,
            n >= 0,
            u >= 1,
    ;
    assert(q * u == u * q) by (nonlinear_arith);
}

/// A deviation over a unit is within the tolerance over two to the power 82
/// where the deviation, scaled up to that power, is.
proof fn lemma_tolerance(deviation: int, scaled: int, u: int, tolerance: int)
    requires
        deviation >= 0,
        scaled >= 1,
        u >= 1,
        tolerance >= 0,
    ensures
        (deviation * (scaled * u) <= tolerance * u) == (deviation <= tolerance / scaled),
{
    lemma_floor(tolerance, scaled);
    let q = tolerance / scaled;
    if deviation <= q {
        assert(deviation * (scaled * u) <= tolerance * u) by (nonlinear_arith)
            requires
                0 <= deviation <= q,
                q * scaled <= tolerance,
                scaled >= 1,
                u >= 1,
        ;
    } else {
        assert(deviation * (scaled * u) > tolerance * u) by (nonlinear_arith)
            requires
                deviation >= q + 1,
                tolerance < q * scaled + scaled,
                scaled >= 1,
                u >= 1,
        ;
    }
}

/// A deviation over twice a unit is within the tolerance over the unit where
/// it is at most twice the tolerance.
proof fn lemma_scaled_tolerance(deviation: int, half: int, tolerance: int)
    requires
        half >= 1,
    ensures
        (deviation * half <= tolerance * (2 * half)) == (deviation <= 2 * tolerance),
{
    if deviation <= 2 * tolerance {
        assert(deviation * half <= tolerance * (2 * half)) by (nonlinear_arith)
            requires
                deviation <= 2 * tolerance,
                half >= 1,
        ;
    } else {
        assert(deviation * half > tolerance * (2 * half)) by (nonlinear_arith)
            requires
                deviation > 2 * tolerance,
                half >= 1,
        ;
    }
}

/// The numerator and the unit of a finite double whose magnitude is neither
/// tiny nor huge.
fn fraction_of(p: &Parts, Ghost(bits): Ghost<u64>) -> (r: (u128, u128))
    requires
        is_finite(bits),
        p.mantissa == mantissa(bits),
        p.mantissa < 0x20_0000_0000_0000,
        p.scale - 1075 == exponent(bits),
        1075 - 83 <= p.scale <= 1075 + 11,
    ensures
        r.0 == numerator(bits),
        r.1 == unit(bits),
        r.0 < 0x1_0000_0000_0000_0000,
        1 <= r.1 <= 0x8_0000_0000_0000_0000_0000,
{
    if p.scale >= 1075 {
        let factor = power_of_two(p.scale - 1075);
        proof {
            lemma2_to64();
            if p.scale - 1075 < 11 {
                lemma_pow2_strictly_increases((p.scale - 1075) as nat, 11);
            }
            assert(p.mantissa * factor < 0x20_0000_0000_0000 * 0x800) by (nonlinear_arith)
                requires
                    p.mantissa < 0x20_0000_0000_0000,
                    factor <= 0x800,
            ;
        }
        (p.mantissa as u128 * factor, 1)
    } else {
        (p.mantissa as u128, power_of_two(1075 - p.scale))
    }
}

/// The whole number of days that the double with these bits stands for.
pub fn whole_days(bits: u64) -> (r: Option<i64>)
    ensures
        r == day_count(bits),
{
    let p = match parts_of(bits) {
        Some(p) => p,
        None => {
            return None;
        },
    };
    if p.scale >= 1075 + 12 {
        proof {
            lemma_huge(p.mantissa as int, (p.scale - 1075) as nat);
            lemma_unit_one(numerator(bits) as int, unit(bits) as int);
        }
        return None;
    }
    if p.scale < 1075 - 83 {
        proof {
            lemma_pow2_83();
            lemma_pow2_unfold(84);
            if 1075 - p.scale > 84 {
                lemma_pow2_strictly_increases(84, (1075 - p.scale) as nat);
            }
            lemma_tiny(p.mantissa as int, unit(bits) as int);
            let u = unit(bits) as int;
            assert(0 * u == 0) by (nonlinear_arith);
            lemma_pow2_unfold(83);
            assert(pow2(82) == 0x4_0000_0000_0000_0000_0000);
        }
        return Some(0);
    }
    let (n, u) = fraction_of(&p, Ghost(bits));
    let whole: u128 = (2 * n + u) / (2 * u);
    proof {
        lemma_floor(2 * n + u, 2 * u);
        let w = whole as int;
        assert(w * (2 * u) == 2 * (w * u)) by (nonlinear_arith);
        assert(w * u <= n + u && w <= 2 * n + 1) by (nonlinear_arith)
            requires
                2 * (w * u) <= 2 * n + u,
                u >= 1,
                n >= 0,
                w >= 0,
        ;
    }
    let reached: u128 = whole * u;
    let deviation: u128 = if reached >= n {
        reached - n
    } else {
        n - reached
    };
    let within: bool = if deviation == 0 {
        true
    } else if p.scale >= 1075 {
        false
    } else if 1075 - p.scale <= 82 {
        let scaled = power_of_two(82 - (1075 - p.scale));
        proof {
            lemma_pow2_adds((82 - (1075 - p.scale)) as nat, (1075 - p.scale) as nat);
            lemma_tolerance(deviation as int, scaled as int, u as int, tolerance());
        }
        deviation <= 0x11_2e0b_e826_d695 / scaled
    } else {
        proof {
            lemma_pow2_unfold(83);
            assert(pow2(83) == 2 * pow2(82));
            lemma_scaled_tolerance(deviation as int, pow2(82) as int, tolerance());
        }
        deviation <= 2 * 0x11_2e0b_e826_d695
    };
    proof {
        if deviation == 0 {
            assert(0 * pow2(82) == 0) by (nonlinear_arith);
            assert(tolerance() * u >= 0) by (nonlinear_arith)
                requires
                    u >= 1,
                    tolerance() >= 0,
            ;
        }
    }
    if !within {
        return None;
    }
    if p.negative {
        if whole > 0x8000_0000_0000_0000 {
            None
        } else if whole == 0x8000_0000_0000_0000 {
            Some(i64::MIN)
        } else {
            Some(-(whole as i64))
        }
    } else {
        if whole > 0x7fff_ffff_ffff_ffff {
            None
        } else {
            Some(whole as i64)
        }
    }
}

/// The whole seconds of the double of seconds with these bits, and the
/// digits of its fraction of a second.
pub fn instant_of(bits: u64) -> (r: Option<(i64, Vec<char>)>)
    ensures
        match r {
            Some((seconds, digits)) => instant_parts(bits) == Some((seconds, digits@)),
            None => instant_parts(bits) is None,
        },
{
    let p = match parts_of(bits) {
        Some(p) => p,
        None => {
            return None;
        },
    };
    if p.scale >= 1075 + 12 {
        proof {
            lemma_huge(p.mantissa as int, (p.scale - 1075) as nat);
            lemma_unit_one(numerator(bits) as int, unit(bits) as int);
        }
        return None;
    }
    if p.scale < 1075 - 83 {
        proof {
            lemma_pow2_83();
            lemma_pow2_unfold(84);
            if 1075 - p.scale > 84 {
                lemma_pow2_strictly_increases(84, (1075 - p.scale) as nat);
            }
            lemma_tiny(p.mantissa as int, unit(bits) as int);
            let n = numerator(bits) as int;
            let u = unit(bits) as int;
            assert(0 * u == 0 && 1 * u == u) by (nonlinear_arith);
            assert(n == p.mantissa);
            if p.negative {
                let floor = -((n + u - 1) / u);
                if n == 0 {
                    assert(floor == 0);
                    assert((-floor) * u - n == 0);
                } else {
                    assert(floor == -1);
                    assert((-floor) * u - n == u - n);
                }
            } else {
                assert(n / u == 0);
                assert(n - (n / u) * u == n);
            }
        }
        if p.mantissa == 0 || p.negative {
            let none: Vec<char> = Vec::new();
            proof {
                assert(fraction_digits(0, 0) =~= Seq::empty());
            }
            return Some((if p.mantissa == 0 { 0 } else { -1 }, none));
        }
        return Some((0, fraction_digits_of(p.mantissa, 1075 - p.scale)));
    }
    let (n, u) = fraction_of(&p, Ghost(bits));
    let seconds: i64;
    let rest: u64;
    let part: u128;
    if p.negative {
        let up: u128 = (n + u - 1) / u;
        proof {
            lemma_floor(n + u - 1, u as int);
        }
        part = up * u - n;
        if up > 0x8000_0000_0000_0000 {
            return None;
        }
        seconds = if up == 0x8000_0000_0000_0000 {
            i64::MIN
        } else {
            -(up as i64)
        };
        let over: u128 = up % 86_400;
        rest = if over == 0 {
            0
        } else {
            (86_400 - over) as u64
        };
        proof {
            let days = if over == 0 {
                -(up / 86_400)
            } else {
                -(up / 86_400) - 1
            };
            lemma_fundamental_div_mod_converse(-(up as int), 86_400, days, rest as int);
        }
    } else {
        let floor: u128 = n / u;
        proof {
            lemma_floor(n as int, u as int);
        }
        part = n - floor * u;
        if floor > 0x7fff_ffff_ffff_ffff {
            return None;
        }
        seconds = floor as i64;
        rest = (floor % 86_400) as u64;
    }
    if part == 0 {
        let none: Vec<char> = Vec::new();
        proof {
            assert(fraction_digits(0, 0) =~= Seq::empty());
        }
        return Some((seconds, none));
    }
    proof {
        // What is left of a second is left only under a unit above one.
        if p.scale >= 1075 {
            lemma_unit_one(n as int, u as int);
        }
    }
    let digits = match rounded_fraction_of(rest, part, 1075 - p.scale) {
        Some((num, sh)) => fraction_digits_of(num, sh),
        None => Vec::new(),
    };
    Some((seconds, digits))
}

/// The position of the highest bit of a positive whole number.
pub open spec fn top_bit(n: nat) -> nat
    decreases n,
{
    if n < 2 {
        0
    } else {
        1 + top_bit(n / 2)
    }
}

/// The significand and the exponent of the double nearest to the positive
/// whole number `n`, a tie going to the even significand: the double is the
/// significand, which has 53 bits, times two to the power of the exponent
/// less 52.
pub open spec fn rounded(n: nat) -> (nat, nat) {
    let p = top_bit(n);
    if p <= 52 {
        (n * pow2((52 - p) as nat), p)
    } else {
        let u = pow2((p - 52) as nat);
        let q = n / u;
        let r = n % u;
        let m = if 2 * r > u || (2 * r == u && q % 2 == 1) {
            q + 1
        } else {
            q
        };
        if m == 0x20_0000_0000_0000 {
            (0x10_0000_0000_0000, p + 1)
        } else {
            (m, p)
        }
    }
}

/// The bits of the double nearest to a whole number, a tie going to the
/// even significand: the double that the number converts to.
pub open spec fn double_of_integer(v: int) -> u64 {
    if v == 0 {
        0
    } else {
        let (m, e) = rounded(
            (if v < 0 {
                -v
            } else {
                v
            }) as nat,
        );
        ((if v < 0 {
            0x8000_0000_0000_0000int
        } else {
            0
        }) + (e + 1023) * 0x10_0000_0000_0000 + (m - 0x10_0000_0000_0000)) as u64
    }
}

/// Converts a whole number to the double nearest to it, a tie going to the
/// even significand, and gives the bits of the double.
pub fn integer_to_double(v: i64) -> (r: u64)
    ensures
        r == double_of_integer(v as int),
{
    if v == 0 {
        return 0;
    }
    let n: u64 = if v > 0 {
        v as u64
    } else if v == i64::MIN {
        0x8000_0000_0000_0000
    } else {
        (-v) as u64
    };
    let p = highest_bit(n as u128);
    let mantissa: u64;
    let exponent: u64;
    proof {
        lemma2_to64();
        lemma2_to64_rest();
        lemma_pow2_83();
        if p >= 64 {
            if p > 64 {
                lemma_pow2_strictly_increases(64, p as nat);
            }
        }
    }
    if p <= 52 {
        let factor = power_of_two(52 - p);
        proof {
            lemma_pow2_adds(p as nat, (52 - p) as nat);
            let low = pow2(p as nat) as int;
            assert((p + (52 - p)) as nat == 52);
            assert(low * factor == pow2(52));
            assert(low * factor <= n * factor < 2 * (low * factor)) by (nonlinear_arith)
                requires
                    low <= n < 2 * low,
                    factor >= 1,
            ;
        }
        mantissa = (n as u128 * factor) as u64;
        exponent = p as u64;
    } else {
        let wide = power_of_two(p - 52);
        proof {
            lemma_pow2_adds(52, (p - 52) as nat);
            if p - 52 < 12 {
                lemma_pow2_strictly_increases((p - 52) as nat, 12);
            }
            assert((52 + (p - 52)) as nat == p);
            assert(pow2(52) * wide == pow2(p as nat));
        }
        let u: u64 = wide as u64;
        let q: u64 = n / u;
        let r: u64 = n % u;
        proof {
            lemma_floor(n as int, u as int);
            vstd::arithmetic::div_mod::lemma_fundamental_div_mod(n as int, u as int);
            let low = pow2(52) as int;
            assert(q >= low && q < 2 * low) by (nonlinear_arith)
                requires
                    low * u <= n < 2 * (low * u),
                    q * u <= n < q * u + u,
                    u >= 1,
            ;
        }
        let up: bool = 2 * r > u || (2 * r == u && q % 2 == 1);
        let m: u64 = if up {
            q + 1
        } else {
            q
        };
        if m == 0x20_0000_0000_0000 {
            mantissa = 0x10_0000_0000_0000;
            exponent = p as u64 + 1;
        } else {
            mantissa = m;
            exponent = p as u64;
        }
    }
    let sign: u64 = if v < 0 {
        0x8000_0000_0000_0000
    } else {
        0
    };
    sign + (exponent + 1023) * 0x10_0000_0000_0000 + (mantissa - 0x10_0000_0000_0000)
}

/// A positive whole number lies between two to the power of its highest
/// bit and twice that.
pub proof fn lemma_top_bit(n: nat)
    requires
        n >= 1,
    ensures
        pow2(top_bit(n)) <= n < 2 * pow2(top_bit(n)),
    decreases n,
{
    lemma2_to64();
    if n >= 2 {
        lemma_top_bit(n / 2);
        lemma_pow2_unfold(top_bit(n));
    }
}

/// The magnitude of a whole number.
pub open spec fn magnitude(v: int) -> nat {
    if v < 0 {
        (-v) as nat
    } else {
        v as nat
    }
}

/// The double that a 64-bit whole number converts to is a number with the
/// sign of the whole number, and is the whole number itself where that has
/// at most 53 bits; otherwise it differs from the whole number by at most
/// half a unit in the last place of its significand.
pub proof fn lemma_double_of_integer(v: int)
    requires
        -0x8000_0000_0000_0000 <= v < 0x8000_0000_0000_0000,
        v != 0,
    ensures
        is_finite(double_of_integer(v)),
        is_negative(double_of_integer(v)) == (v < 0),
        top_bit(magnitude(v)) <= 52 ==> numerator(double_of_integer(v)) == magnitude(v) * unit(
            double_of_integer(v),
        ),
        top_bit(magnitude(v)) > 52 ==> {
            &&& unit(double_of_integer(v)) == 1
            &&& exponent(double_of_integer(v)) > 0
            &&& 2 * (numerator(double_of_integer(v)) - magnitude(v)) <= pow2(
                exponent(double_of_integer(v)) as nat,
            )
            &&& 2 * (magnitude(v) - numerator(double_of_integer(v))) <= pow2(
                exponent(double_of_integer(v)) as nat,
            )
        },
{
    let n = magnitude(v);
    let p = top_bit(n);
    let (m, e) = rounded(n);
    let b = double_of_integer(v);
    lemma_top_bit(n);
    lemma2_to64();
    lemma2_to64_rest();
    assert(p <= 63) by {
        if p >= 64 {
            if p > 64 {
                lemma_pow2_strictly_increases(64, p);
            }
        }
    }
    if p <= 52 {
        lemma_pow2_adds(p, (52 - p) as nat);
        let low = pow2(p) as int;
        let factor = pow2((52 - p) as nat) as int;
        assert((p + (52 - p)) as nat == 52);
        assert(low * factor == pow2(52));
        lemma_pow2_pos((52 - p) as nat);
        assert(low * factor <= n * factor < 2 * (low * factor)) by (nonlinear_arith)
            requires
                low <= n < 2 * low,
                factor >= 1,
        ;
        assert(0x10_0000_0000_0000 <= m < 0x20_0000_0000_0000);
        assert(exponent_field(b) == e + 1023);
        assert(mantissa(b) == m);
        assert(exponent(b) == p - 52);
        if p == 52 {
            assert(pow2(0) == 1);
            assert(m * 1 == m) by (nonlinear_arith);
            assert(n * 1 == n) by (nonlinear_arith);
        }
    } else {
        let u = pow2((p - 52) as nat) as int;
        lemma_pow2_adds(52, (p - 52) as nat);
        lemma_pow2_pos((p - 52) as nat);
        assert((52 + (p - 52)) as nat == p);
        assert(pow2(52) * u == pow2(p));
        let q = (n as int) / u;
        let r = (n as int) % u;
        lemma_floor(n as int, u);
        vstd::arithmetic::div_mod::lemma_fundamental_div_mod(n as int, u);
        vstd::arithmetic::div_mod::lemma_mod_bound(n as int, u);
        let low = pow2(52) as int;
        assert(q >= low && q < 2 * low) by (nonlinear_arith)
            requires
                low * u <= n < 2 * (low * u),
                q * u <= n < q * u + u,
                u >= 1,
        ;
        let m0 = if 2 * r > u || (2 * r == u && q % 2 == 1) {
            q + 1
        } else {
            q
        };
        assert(u * q == q * u) by (nonlinear_arith);
        assert((q + 1) * u == q * u + u) by (nonlinear_arith);
        assert(2 * (m0 * u - n) <= u && 2 * (n - m0 * u) <= u);
        assert(0x10_0000_0000_0000 <= m < 0x20_0000_0000_0000);
        assert(exponent_field(b) == e + 1023);
        assert(mantissa(b) == m);
        assert(exponent(b) == e - 52);
        if m0 == 0x20_0000_0000_0000 {
            lemma_pow2_unfold((p + 1 - 52) as nat);
            let twice = pow2((p + 1 - 52) as nat) as int;
            assert(twice == 2 * u);
            assert(0x10_0000_0000_0000 * (2 * u) == 0x20_0000_0000_0000 * u) by (nonlinear_arith);
        }
    }
}

} // verus!

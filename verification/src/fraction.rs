//! The fraction of a second as arithmetic on doubles writes it. Every step
//! of that arithmetic is a double again: a product or a sum is rounded to the
//! nearest number with 53 significant bits, a tie going to the even one.
//! Here a double is a whole numerator over a power of two, and the rounding
//! is done on whole numbers.

use vstd::prelude::*;
use vstd::arithmetic::div_mod::{
    lemma_basic_div, lemma_fundamental_div_mod, lemma_mod_bound, lemma_small_mod,
};
use vstd::arithmetic::power2::{
    lemma2_to64, lemma2_to64_rest, lemma_pow2_adds, lemma_pow2_pos,
    lemma_pow2_strictly_increases, lemma_pow2_unfold, pow2,
};
use crate::double::{power_of_two, tolerance, top_bit};
use crate::text::{digit_char, digit_of, strip_trailing_zeros, strip_zeros};

verus! {

/// The whole number `n` rounded to 53 significant bits, a tie going to the
/// even significand: the significand and the number of bits that were cut,
/// so that `n` is about the significand times two to that power.
pub open spec fn round53(n: nat) -> (nat, nat) {
    if n < 0x20_0000_0000_0000 {
        (n, 0)
    } else {
        let k = (top_bit(n) - 52) as nat;
        let u = pow2(k);
        let q = n / u;
        let r = n % u;
        let m = if 2 * r > u || (2 * r == u && q % 2 == 1) {
            q + 1
        } else {
            q
        };
        if m == 0x20_0000_0000_0000 {
            (0x10_0000_0000_0000, k + 1)
        } else {
            (m, k)
        }
    }
}

/// Two to the power 110.
proof fn lemma_pow2_110()
    ensures
        pow2(110) == 0x4000_0000_0000_0000_0000_0000_0000,
        pow2(53) == 0x20_0000_0000_0000,
        pow2(52) == 0x10_0000_0000_0000,
{
    lemma2_to64();
    lemma2_to64_rest();
    lemma_pow2_adds(64, 46);
}

/// The position of the highest bit of `n`.
pub(crate) fn highest_bit(n: u128) -> (p: u32)
    requires
        1 <= n < 0x4000_0000_0000_0000_0000_0000_0000,
    ensures
        p == top_bit(n as nat),
        p <= 109,
        pow2(p as nat) <= n < 2 * pow2(p as nat),
{
    let mut p: u32 = 0;
    let mut top: u128 = n;
    proof {
        lemma2_to64();
    }
    while top >= 2
        invariant
            top >= 1,
            p <= 109,
            n < 0x4000_0000_0000_0000_0000_0000_0000,
            top_bit(n as nat) == p + top_bit(top as nat),
            top * pow2(p as nat) <= n < (top + 1) * pow2(p as nat),
        decreases top,
    {
        proof {
            let half = (top / 2) as int;
            let scale = pow2(p as nat) as int;
            lemma_pow2_unfold((p + 1) as nat);
            assert(half * (2 * scale) <= top * scale && (top + 1) * scale <= (half + 1) * (2
                * scale)) by (nonlinear_arith)
                requires
                    2 * half <= top <= 2 * half + 1,
                    scale >= 0,
            ;
            lemma_pow2_110();
            if p + 1 >= 110 {
                if p + 1 > 110 {
                    lemma_pow2_strictly_increases(110, (p + 1) as nat);
                }
                assert(half * (2 * scale) >= 2 * scale) by (nonlinear_arith)
                    requires
                        half >= 1,
                        scale >= 0,
                ;
            }
        }
        top = top / 2;
        p = p + 1;
    }
    proof {
        assert(1 * pow2(p as nat) == pow2(p as nat)) by (nonlinear_arith);
        assert(2 * pow2(p as nat) == (1 + 1) * pow2(p as nat)) by (nonlinear_arith);
    }
    p
}

/// Rounds a whole number to 53 significant bits.
pub fn round_to_53(n: u128) -> (r: (u64, u32))
    requires
        n < 0x4000_0000_0000_0000_0000_0000_0000,
    ensures
        (r.0 as nat, r.1 as nat) == round53(n as nat),
        r.0 < 0x20_0000_0000_0000,
        r.1 <= 58,
{
    if n < 0x20_0000_0000_0000 {
        return (n as u64, 0);
    }
    let p = highest_bit(n);
    proof {
        lemma_pow2_110();
        if p <= 52 {
            if p < 52 {
                lemma_pow2_strictly_increases(p as nat, 52);
            }
        }
    }
    let k: u32 = p - 52;
    let u: u128 = power_of_two(k);
    proof {
        lemma_pow2_adds(52, k as nat);
        assert((52 + k) as nat == p);
        assert(pow2(52) * u == pow2(p as nat));
    }
    let q: u128 = n / u;
    let r: u128 = n % u;
    proof {
        lemma_fundamental_div_mod(n as int, u as int);
        lemma_mod_bound(n as int, u as int);
        let low = pow2(52) as int;
        assert(u * q == q * u) by (nonlinear_arith);
        assert(q >= low && q < 2 * low) by (nonlinear_arith)
            requires
                low * u <= n < 2 * (low * u),
                q * u <= n < q * u + u,
                u >= 1,
        ;
    }
    let up: bool = 2 * r > u || (2 * r == u && q % 2 == 1);
    let m: u128 = if up {
        q + 1
    } else {
        q
    };
    if m == 0x20_0000_0000_0000 {
        (0x10_0000_0000_0000, k + 1)
    } else {
        (m as u64, k)
    }
}

/// Whether the double `num / 2^sh` is less than the double nearest to a
/// billionth.
pub open spec fn below_billionth(num: nat, sh: nat) -> bool {
    num * pow2(82) < tolerance() * pow2(sh)
}

/// The significand of the double nearest to 0.9999995, which is that
/// significand over two to the power 53.
pub open spec fn near_one_limit() -> int {
    0x1f_fffe_f390_85f5
}

/// Whether the double `num / 2^sh` is at least the double nearest to
/// 0.9999995.
pub open spec fn near_one(num: nat, sh: nat) -> bool {
    num * pow2(53) >= near_one_limit() * pow2(sh)
}

/// Comparing two fractions over a common power of two.
proof fn lemma_compare_scaled(a: int, c: int, u: int, t: int)
    requires
        a >= 0,
        c >= 1,
        u >= 1,
        t >= 1,
    ensures
        (a * (c * u) < t * u) == (a <= (t - 1) / c),
        (a * (c * u) >= t * u) == (a * c >= t),
{
    lemma_fundamental_div_mod(t - 1, c);
    lemma_mod_bound(t - 1, c);
    let q = (t - 1) / c;
    let r = (t - 1) % c;
    assert(c * q == q * c) by (nonlinear_arith);
    if a <= q {
        assert(a * (c * u) < t * u) by (nonlinear_arith)
            requires
                0 <= a <= q,
                q * c + r == t - 1,
                r >= 0,
                c >= 1,
                u >= 1,
        ;
    } else {
        assert(a * (c * u) >= t * u) by (nonlinear_arith)
            requires
                a >= q + 1,
                q * c + r == t - 1,
                r < c,
                c >= 1,
                u >= 1,
        ;
    }
    if a * c >= t {
        assert(a * (c * u) >= t * u) by (nonlinear_arith)
            requires
                a * c >= t,
                u >= 1,
        ;
    } else {
        assert(a * (c * u) < t * u) by (nonlinear_arith)
            requires
                a * c < t,
                u >= 1,
        ;
    }
}

/// A number below a bound is below the bound scaled up.
proof fn lemma_below_scaled(a: int, t: int, big: int, small: int)
    requires
        0 <= a < 2 * t,
        small >= 1,
        big >= 2 * small,
    ensures
        a * small < t * big,
{
    assert(a * small < t * big) by (nonlinear_arith)
        requires
            0 <= a < 2 * t,
            small >= 1,
            big >= 2 * small,
    ;
}

/// Tests whether the double `num / 2^sh` is less than the double nearest to a
/// billionth.
fn is_below_billionth(num: u64, sh: u32) -> (r: bool)
    requires
        num < 0x20_0000_0000_0000,
    ensures
        r == below_billionth(num as nat, sh as nat),
{
    if sh > 82 {
        proof {
            lemma_pow2_pos(82);
            lemma_pow2_unfold(83);
            if sh > 83 {
                lemma_pow2_strictly_increases(83, sh as nat);
            }
            lemma_below_scaled(num as int, tolerance(), pow2(sh as nat) as int, pow2(82) as int);
        }
        true
    } else {
        let c = power_of_two(82 - sh);
        proof {
            lemma_pow2_adds((82 - sh) as nat, sh as nat);
            assert(((82 - sh) + sh) as nat == 82);
            lemma_pow2_pos(sh as nat);
            lemma_compare_scaled(num as int, c as int, pow2(sh as nat) as int, tolerance());
        }
        (num as u128) <= (0x11_2e0b_e826_d695 - 1) / c
    }
}

/// Tests whether the double `num / 2^sh` is at least the double nearest to
/// 0.9999995.
fn is_near_one(num: u64, sh: u32) -> (r: bool)
    requires
        num < 0x20_0000_0000_0000,
    ensures
        r == near_one(num as nat, sh as nat),
{
    if sh > 53 {
        proof {
            lemma_pow2_pos(53);
            lemma_pow2_unfold(54);
            if sh > 54 {
                lemma_pow2_strictly_increases(54, sh as nat);
            }
            lemma_below_scaled(
                num as int,
                near_one_limit(),
                pow2(sh as nat) as int,
                pow2(53) as int,
            );
        }
        false
    } else {
        let c = power_of_two(53 - sh);
        proof {
            lemma_pow2_110();
            lemma_pow2_adds((53 - sh) as nat, sh as nat);
            assert(((53 - sh) + sh) as nat == 53);
            lemma_pow2_pos(sh as nat);
            if 53 - sh < 53 {
                lemma_pow2_strictly_increases((53 - sh) as nat, 53);
            }
            lemma_compare_scaled(num as int, c as int, pow2(sh as nat) as int, near_one_limit());
            assert(num * c < 0x20_0000_0000_0000 * 0x20_0000_0000_0000) by (nonlinear_arith)
                requires
                    num < 0x20_0000_0000_0000,
                    c <= 0x20_0000_0000_0000,
            ;
        }
        (num as u128) * c >= 0x1f_fffe_f390_85f5
    }
}

/// The digits of the double `num / 2^sh`, which is less than one, as the
/// loop on doubles gives them, `count` at most: the double is multiplied by
/// ten, which is rounded; the whole part of the product is the next digit;
/// and the loop goes on with what is left, unless that is less than a
/// billionth.
pub open spec fn digits_from(num: nat, sh: nat, count: nat) -> Seq<char>
    decreases count,
{
    if count == 0 {
        Seq::empty()
    } else {
        let (m, k) = round53(10 * num);
        if k > sh {
            Seq::empty()
        } else {
            let cut = (sh - k) as nat;
            let digit = m / pow2(cut);
            let left = m % pow2(cut);
            seq![digit_char(digit as int)] + if below_billionth(left, cut) {
                Seq::empty()
            } else {
                digits_from(left, cut, (count - 1) as nat)
            }
        }
    }
}

/// The digits of a fraction of a second, the double `num / 2^sh`: none for
/// zero and none from 0.9999995 on, which is not carried into the seconds;
/// otherwise at most nine digits, without the zeros at their end.
pub open spec fn fraction_digits(num: nat, sh: nat) -> Seq<char> {
    if num == 0 || near_one(num, sh) {
        Seq::empty()
    } else {
        strip_zeros(digits_from(num, sh, 9))
    }
}

/// The digits of the double `num / 2^sh`, `count` at most.
fn digits_of(num: u64, sh: u32, count: u32) -> (r: Vec<char>)
    requires
        num < 0x20_0000_0000_0000,
    ensures
        r@ == digits_from(num as nat, sh as nat, count as nat),
    decreases count,
{
    if count == 0 {
        return Vec::new();
    }
    let (m, k) = round_to_53(10 * (num as u128));
    if k > sh {
        return Vec::new();
    }
    let cut: u32 = sh - k;
    let digit: u64;
    let left: u64;
    if cut >= 53 {
        proof {
            lemma_pow2_110();
            if cut > 53 {
                lemma_pow2_strictly_increases(53, cut as nat);
            }
            lemma_basic_div(m as int, pow2(cut as nat) as int);
            lemma_small_mod(m as nat, pow2(cut as nat));
        }
        digit = 0;
        left = m;
    } else {
        let unit = power_of_two(cut);
        proof {
            lemma_pow2_110();
            lemma_pow2_strictly_increases(cut as nat, 53);
            lemma_mod_bound(m as int, unit as int);
        }
        digit = m / (unit as u64);
        left = m % (unit as u64);
    }
    let mut rest: Vec<char> = if is_below_billionth(left, cut) {
        Vec::new()
    } else {
        digits_of(left, cut, count - 1)
    };
    let ghost tail = rest@;
    rest.insert(0, digit_of(digit));
    assert(rest@ =~= seq![digit_char(digit as int)] + tail);
    rest
}

/// The digits of a fraction of a second, the double `num / 2^sh`.
pub fn fraction_digits_of(num: u64, sh: u32) -> (r: Vec<char>)
    requires
        num < 0x20_0000_0000_0000,
    ensures
        r@ == fraction_digits(num as nat, sh as nat),
{
    if num == 0 || is_near_one(num, sh) {
        Vec::new()
    } else {
        strip_trailing_zeros(digits_of(num, sh, 9))
    }
}

/// The fraction of a second of a time of day, as a double: the time of day
/// is `rest` whole seconds and `part / 2^sh` of a second, which as a double
/// is rounded to 53 significant bits; the fraction is what the double has
/// beyond the whole seconds. None where the double reaches the next whole
/// second, which is not carried into the seconds.
pub open spec fn rounded_fraction(rest: nat, part: nat, sh: nat) -> Option<(nat, nat)> {
    let (m, k) = round53(rest * pow2(sh) + part);
    if k > sh || m * pow2(k) >= (rest + 1) * pow2(sh) || m < rest * pow2((sh - k) as nat) {
        None
    } else {
        Some(((m - rest * pow2((sh - k) as nat)) as nat, (sh - k) as nat))
    }
}

/// The fraction of a second of a time of day of `rest` whole seconds and
/// `part / 2^sh` of a second, as a double.
pub fn rounded_fraction_of(rest: u64, part: u128, sh: u32) -> (r: Option<(u64, u32)>)
    requires
        rest < 86_400,
        sh <= 83,
        part < pow2(sh as nat),
    ensures
        match r {
            Some(f) => rounded_fraction(rest as nat, part as nat, sh as nat) == Some(
                (f.0 as nat, f.1 as nat),
            ) && f.0 < 0x20_0000_0000_0000,
            None => rounded_fraction(rest as nat, part as nat, sh as nat) is None,
        },
{
    let u = power_of_two(sh);
    proof {
        assert(rest * u + part < 86_400 * 0x8_0000_0000_0000_0000_0000) by (nonlinear_arith)
            requires
                rest < 86_400,
                part < u,
                u <= 0x8_0000_0000_0000_0000_0000,
        ;
    }
    let n: u128 = rest as u128 * u + part;
    let (m, k) = round_to_53(n);
    if k > sh {
        return None;
    }
    let scale = power_of_two(k);
    proof {
        lemma2_to64_rest();
        if k < 58 {
            lemma_pow2_strictly_increases(k as nat, 58);
        }
        assert(m * scale < 0x20_0000_0000_0000 * 0x400_0000_0000_0000 && (rest + 1) * u <= 86_400
            * 0x8_0000_0000_0000_0000_0000) by (nonlinear_arith)
            requires
                m < 0x20_0000_0000_0000,
                scale <= 0x400_0000_0000_0000,
                rest < 86_400,
                u <= 0x8_0000_0000_0000_0000_0000,
        ;
    }
    if (m as u128) * scale >= (rest as u128 + 1) * u {
        return None;
    }
    let cut = power_of_two(sh - k);
    proof {
        assert(rest * cut <= 86_400 * 0x8_0000_0000_0000_0000_0000) by (nonlinear_arith)
            requires
                rest < 86_400,
                cut <= 0x8_0000_0000_0000_0000_0000,
        ;
    }
    let base: u128 = rest as u128 * cut;
    if (m as u128) < base {
        return None;
    }
    Some(((m as u128 - base) as u64, sh - k))
}

} // verus!

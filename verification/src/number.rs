//! Numbers as IEEE-754 binary64 bit patterns.
//!
//! A document holds each number as the 64 bits of a double-precision value:
//! one sign bit, eleven exponent bits, fifty-two fraction bits. Everything
//! here works on those bits with integer arithmetic.

use vstd::prelude::*;
use vstd::arithmetic::power2::pow2;
use vstd::arithmetic::power2::lemma_pow2_unfold;
use vstd::arithmetic::power2::lemma_pow2_pos;
use vstd::arithmetic::power2::lemma2_to64;
use vstd::arithmetic::power2::lemma2_to64_rest;

verus! {

/// The biased exponent field of a bit pattern.
pub open spec fn exponent_field(bits: u64) -> int {
    (bits as int / 0x10_0000_0000_0000) % 0x800
}

/// The fraction field of a bit pattern.
pub open spec fn fraction_field(bits: u64) -> int {
    bits as int % 0x10_0000_0000_0000
}

/// Whether the sign bit of a bit pattern is set.
pub open spec fn sign_bit(bits: u64) -> bool {
    bits as int >= 0x8000_0000_0000_0000
}

/// Whether a bit pattern is a NaN.
pub open spec fn is_nan_spec(bits: u64) -> bool {
    exponent_field(bits) == 0x7ff && fraction_field(bits) != 0
}

/// Whether a bit pattern is neither an infinity nor a NaN.
pub open spec fn is_finite_spec(bits: u64) -> bool {
    exponent_field(bits) != 0x7ff
}

/// Whether a bit pattern is positive or negative zero.
pub open spec fn is_zero_spec(bits: u64) -> bool {
    bits as int % 0x8000_0000_0000_0000 == 0
}

/// Numeric equality of two bit patterns: no NaN equals anything, the two
/// zeros equal each other, and any other value equals only itself.
pub open spec fn number_eq(a: u64, b: u64) -> bool {
    &&& !is_nan_spec(a)
    &&& !is_nan_spec(b)
    &&& (a == b || (is_zero_spec(a) && is_zero_spec(b)))
}

/// Whether `bits` is a NaN.
pub fn is_nan(bits: u64) -> (r: bool)
    ensures
        r == is_nan_spec(bits),
{
    (bits / 0x10_0000_0000_0000) % 0x800 == 0x7ff && bits % 0x10_0000_0000_0000 != 0
}

/// Whether `bits` is neither an infinity nor a NaN.
pub fn is_finite(bits: u64) -> (r: bool)
    ensures
        r == is_finite_spec(bits),
{
    (bits / 0x10_0000_0000_0000) % 0x800 != 0x7ff
}

/// Whether `a` and `b` are equal as numbers.
pub fn equal(a: u64, b: u64) -> (r: bool)
    ensures
        r == number_eq(a, b),
{
    !is_nan(a) && !is_nan(b) && (a == b || (a % 0x8000_0000_0000_0000 == 0 && b
        % 0x8000_0000_0000_0000 == 0))
}

/// Two to the power of fifty-two: the weight of the hidden bit of a
/// significand.
pub const HIDDEN_BIT: u64 = 0x10_0000_0000_0000;

/// The significand of a finite bit pattern, the hidden bit included.
pub open spec fn significand(bits: u64) -> int {
    if exponent_field(bits) == 0 {
        fraction_field(bits)
    } else {
        HIDDEN_BIT + fraction_field(bits)
    }
}

/// The integer that a bit pattern stands for, where it is finite and its
/// value is an integer.
pub open spec fn int_value(bits: u64) -> Option<int> {
    let e = exponent_field(bits);
    let m = significand(bits);
    let sign: int = if sign_bit(bits) {
        -1
    } else {
        1
    };
    if e == 0x7ff {
        None
    } else if e == 0 {
        if m == 0 {
            Some(0)
        } else {
            None
        }
    } else if e >= 1075 {
        Some(sign * (m * pow2((e - 1075) as nat)))
    } else {
        let divisor = pow2((1075 - e) as nat) as int;
        if m % divisor == 0 {
            Some(sign * (m / divisor))
        } else {
            None
        }
    }
}

/// Whether `bits` is what rounding the integer `n` to the nearest binary64
/// value gives, ties going to the even significand: `bits` stands for an
/// integer that is no further from `n` than half a unit in its last place,
/// and where it is exactly that far, its last fraction bit is clear.
pub open spec fn is_nearest(bits: u64, n: int) -> bool {
    &&& int_value(bits) is Some
    &&& sign_bit(bits) == (n < 0)
    &&& {
        let v = int_value(bits)->0;
        let e = exponent_field(bits);
        let distance = if v >= n {
            v - n
        } else {
            n - v
        };
        if e >= 1075 {
            let unit = pow2((e - 1075) as nat);
            &&& 2 * distance <= unit
            &&& 2 * distance == unit ==> fraction_field(bits) % 2 == 0
        } else {
            v == n
        }
    }
}

/// A significand below the hidden bit, doubled until it reaches the hidden
/// bit, with the exponent field lowered by one for each doubling.
pub open spec fn scale_up(m: nat, e: nat) -> (nat, nat)
    decreases e,
{
    if m >= HIDDEN_BIT || e == 0 {
        (m, e)
    } else {
        scale_up(2 * m, (e - 1) as nat)
    }
}

/// A significand of more than fifty-three bits, halved until it has
/// fifty-three, with the exponent field raised by one for each halving.
pub open spec fn scale_down(m: nat, e: nat) -> (nat, nat)
    decreases m,
{
    if m < 2 * HIDDEN_BIT {
        (m, e)
    } else {
        scale_down(m / 2, e + 1)
    }
}

/// The bit pattern of the binary64 value nearest to the natural number `n`,
/// ties going to the even significand.
pub open spec fn bits_of_nat(n: nat) -> nat {
    if n == 0 {
        0
    } else if n < 2 * HIDDEN_BIT {
        let (m, e) = scale_up(n, 1075);
        (e * HIDDEN_BIT + (m - HIDDEN_BIT)) as nat
    } else {
        let (m, e) = scale_down(n, 1075);
        let unit = pow2((e - 1075) as nat);
        let rest = n % unit;
        let rounded = if 2 * rest > unit || (2 * rest == unit && m % 2 == 1) {
            m + 1
        } else {
            m
        };
        (e * HIDDEN_BIT + (rounded - HIDDEN_BIT)) as nat
    }
}

/// The bit pattern of the binary64 value nearest to the integer `n`, ties
/// going to the even significand.
pub open spec fn bits_of_int(n: int) -> nat {
    if n < 0 {
        0x8000_0000_0000_0000 + bits_of_nat((-n) as nat)
    } else {
        bits_of_nat(n as nat)
    }
}

/// The bit pattern of the binary64 value nearest to `n`, ties going to the
/// even significand. Up to two to the power of fifty-three the value is `n`
/// itself.
pub fn from_u64(n: u64) -> (bits: u64)
    ensures
        bits == bits_of_nat(n as nat),
        is_nearest(bits, n as int),
        n <= 0x20_0000_0000_0000 ==> int_value(bits) == Some(n as int),
        n == 0 ==> bits == 0,
{
    proof {
        lemma2_to64();
        lemma2_to64_rest();
    }
    if n == 0 {
        return 0;
    }
    let mut m: u64 = n;
    let mut e: u64 = 1075;
    if n < 0x20_0000_0000_0000 {
        assert(n * pow2(0) == n) by {
            assert(pow2(0) == 1);
        }
        while m < 0x10_0000_0000_0000
            invariant
                1023 <= e <= 1075,
                scale_up(n as nat, 1075) == scale_up(m as nat, e as nat),
                m == n * pow2((1075 - e) as nat),
                pow2((1075 - e) as nat) <= m < 0x20_0000_0000_0000,
                pow2(52) == 0x10_0000_0000_0000,
            decreases e,
        {
            proof {
                lemma_pow2_unfold((1075 - e + 1) as nat);
                if e == 1023 {
                    assert(false);
                }
                assert(n * (2 * pow2((1075 - e) as nat)) == 2 * (n * pow2((1075 - e) as nat)))
                    by (nonlinear_arith);
            }
            m = m * 2;
            e = e - 1;
        }
        let bits = e * 0x10_0000_0000_0000 + (m - 0x10_0000_0000_0000);
        proof {
            let divisor = pow2((1075 - e) as nat) as int;
            lemma_pow2_pos((1075 - e) as nat);
            assert(exponent_field(bits) == e);
            assert(fraction_field(bits) == m - 0x10_0000_0000_0000);
            assert(significand(bits) == m);
            assert((n * divisor) % divisor == 0 && (n * divisor) / divisor == n) by (nonlinear_arith)
                requires
                    divisor > 0,
            ;
            if e == 1075 {
                assert(divisor == 1);
            }
        }
        bits
    } else {
        let mut unit: u64 = 1;
        assert(m * unit <= n) by (nonlinear_arith)
            requires
                m == n,
                unit == 1,
        ;
        while m >= 0x20_0000_0000_0000
            invariant
                1075 <= e <= 1086,
                scale_down(n as nat, 1075) == scale_down(m as nat, e as nat),
                unit == pow2((e - 1075) as nat),
                1 <= unit <= 0x800,
                m == n / unit,
                m >= 0x10_0000_0000_0000,
                m * unit <= n,
                n >= 0x20_0000_0000_0000,
                pow2(11) == 0x800,
            decreases m,
        {
            proof {
                lemma_pow2_unfold((e - 1075 + 1) as nat);
                let ghost (wide_n, wide_unit) = (n as int, unit as int);
                assert(wide_n / (wide_unit * 2) == (wide_n / wide_unit) / 2) by (nonlinear_arith)
                    requires
                        wide_unit > 0,
                        wide_n >= 0,
                ;
                let ghost (wide_m, wide_unit) = (m as int, unit as int);
                assert((wide_m / 2) * (wide_unit * 2) <= wide_m * wide_unit) by (nonlinear_arith)
                    requires
                        wide_unit > 0,
                        wide_m >= 0,
                ;
                if e == 1086 {
                    assert(wide_m * wide_unit >= 0x20_0000_0000_0000 * 0x800) by (nonlinear_arith)
                        requires
                            wide_unit == 0x800,
                            wide_m >= 0x20_0000_0000_0000,
                    ;
                }
                lemma_pow2_bound((e - 1075) as nat);
            }
            m = m / 2;
            unit = unit * 2;
            e = e + 1;
        }
        let rem = n % unit;
        let half = unit / 2;
        let up = rem > half || (rem == half && m % 2 == 1);
        let r = if up {
            m + 1
        } else {
            m
        };
        let bits = e * 0x10_0000_0000_0000 + (r - 0x10_0000_0000_0000);
        proof {
            assert(unit >= 2);
            assert(unit == 2 * half) by {
                lemma_pow2_unfold((e - 1075) as nat);
            }
            assert(n == m * unit + rem) by (nonlinear_arith)
                requires
                    m == n / unit,
                    rem == n % unit,
                    unit > 0,
            ;
            if r == 0x20_0000_0000_0000 {
                assert(exponent_field(bits) == e + 1);
                assert(fraction_field(bits) == 0);
                lemma_pow2_unfold((e + 1 - 1075) as nat);
                let wide = pow2((e + 1 - 1075) as nat);
                assert(HIDDEN_BIT * wide == r * unit) by (nonlinear_arith)
                    requires
                        wide == 2 * unit,
                        r == 2 * HIDDEN_BIT,
                ;
                assert(r * unit == m * unit + unit) by (nonlinear_arith)
                    requires
                        r == m + 1,
                ;
            } else {
                assert(exponent_field(bits) == e);
                assert(fraction_field(bits) == r - 0x10_0000_0000_0000);
                assert(significand(bits) == r);
                if up {
                    assert(r * unit == m * unit + unit) by (nonlinear_arith)
                        requires
                            r == m + 1,
                    ;
                }
                if n == 0x20_0000_0000_0000 {
                    assert(unit == 2 && m == 0x10_0000_0000_0000) by {
                        if unit > 2 {
                            assert(m * unit >= 0x10_0000_0000_0000 * 4) by (nonlinear_arith)
                                requires
                                    unit >= 4,
                                    m >= 0x10_0000_0000_0000,
                            ;
                        }
                    }
                    assert(r * unit == n);
                }
            }
        }
        bits
    }
}

/// No power of two with an exponent up to eleven exceeds 2048.
proof fn lemma_pow2_bound(e: nat)
    requires
        e <= 11,
    ensures
        1 <= pow2(e) <= 0x800,
        e < 11 ==> pow2(e) <= 0x400,
{
    lemma2_to64();
}

/// The bit pattern of the binary64 value nearest to `n`, ties going to the
/// even significand. Between minus and plus two to the power of fifty-three
/// the value is `n` itself.
pub fn from_i64(n: i64) -> (bits: u64)
    ensures
        bits == bits_of_int(n as int),
        is_nearest(bits, n as int),
        -0x20_0000_0000_0000 <= n <= 0x20_0000_0000_0000 ==> int_value(bits) == Some(n as int),
        n == 0 ==> bits == 0,
{
    if n >= 0 {
        from_u64(n as u64)
    } else {
        let magnitude: u64 = if n == i64::MIN {
            0x8000_0000_0000_0000
        } else {
            (-n) as u64
        };
        let positive = from_u64(magnitude);
        let bits = positive + 0x8000_0000_0000_0000;
        proof {
            assert(exponent_field(bits) == exponent_field(positive));
            assert(fraction_field(bits) == fraction_field(positive));
            assert(exponent_field(positive) != 0) by {
                if exponent_field(positive) == 0 {
                    assert(int_value(positive) == Some(0int));
                }
            }
            let v = int_value(positive)->0;
            assert(int_value(bits) == Some(-v)) by {
                let e = exponent_field(bits);
                let m = significand(bits);
                if e >= 1075 {
                    assert(-1 * (m * pow2((e - 1075) as nat)) == -(1 * (m * pow2(
                        (e - 1075) as nat,
                    )))) by (nonlinear_arith);
                } else {
                    let divisor = pow2((1075 - e) as nat) as int;
                    assert(-1 * (m / divisor) == -(1 * (m / divisor))) by (nonlinear_arith);
                }
            }
        }
        bits
    }
}

/// Whether a binary32 bit pattern is neither an infinity nor a NaN.
pub open spec fn is_finite32_spec(bits: u32) -> bool {
    (bits as int / 0x80_0000) % 0x100 != 0xff
}

/// Whether the binary32 bit pattern `bits` is neither an infinity nor a
/// NaN.
pub fn is_finite32(bits: u32) -> (r: bool)
    ensures
        r == is_finite32_spec(bits),
{
    (bits / 0x80_0000) % 0x100 != 0xff
}

/// The binary64 bit pattern of the value of a binary32 bit pattern.
///
/// The sign stays. A value with the significand `m` and the power of two
/// `x` keeps both: its twenty-four bits of significand go to the front of
/// the fifty-three, the exponent field is biased anew, and what is below
/// the normal range of binary32 is normal in binary64. An infinity stays an
/// infinity, and a NaN stays a NaN, its fraction moved to the front.
pub open spec fn widen(bits: u32) -> nat {
    let sign: nat = if bits >= 0x8000_0000 {
        0x8000_0000_0000_0000
    } else {
        0
    };
    let e = (bits as nat / 0x80_0000) % 0x100;
    let f = bits as nat % 0x80_0000;
    if e == 0xff {
        (sign + 0x7ff * HIDDEN_BIT + f * 0x2000_0000) as nat
    } else if e != 0 {
        (sign + (e + 896) * HIDDEN_BIT + f * 0x2000_0000) as nat
    } else if f == 0 {
        sign
    } else {
        let (m, x) = scale_up(f, 926);
        (sign + x * HIDDEN_BIT + (m - HIDDEN_BIT)) as nat
    }
}

/// Whether the finite binary64 bit pattern `wide` stands for the value of
/// the finite binary32 bit pattern `bits`: the signs agree, and the wide
/// significand is the narrow one moved up by as many binary places as the
/// wide power of two is lower.
pub open spec fn same_value(bits: u32, wide: u64) -> bool {
    let e = (bits as int / 0x80_0000) % 0x100;
    let f = bits as int % 0x80_0000;
    let narrow = if e == 0 {
        f
    } else {
        0x80_0000 + f
    };
    let power = if e == 0 {
        1
    } else {
        e
    };
    &&& sign_bit(wide) == (bits >= 0x8000_0000)
    &&& if narrow == 0 {
        significand(wide) == 0
    } else {
        exists|places: nat|
            significand(wide) == narrow * #[trigger] pow2(places) && exponent_field(wide) + places
                == power + 925
    }
}

/// The binary64 bit pattern of the value of the binary32 bit pattern
/// `bits`.
pub fn from_f32_bits(bits: u32) -> (r: u64)
    ensures
        r == widen(bits),
        is_finite_spec(r) == is_finite32_spec(bits),
        is_finite32_spec(bits) ==> same_value(bits, r),
{
    let sign: u64 = if bits >= 0x8000_0000 {
        0x8000_0000_0000_0000
    } else {
        0
    };
    let e: u64 = ((bits / 0x80_0000) % 0x100) as u64;
    let f: u64 = (bits % 0x80_0000) as u64;
    proof {
        lemma2_to64();
    }
    if e == 0xff {
        sign + 0x7ff * 0x10_0000_0000_0000 + f * 0x2000_0000
    } else if e != 0 {
        let r = sign + (e + 896) * 0x10_0000_0000_0000 + f * 0x2000_0000;
        proof {
            assert(exponent_field(r) == e + 896);
            assert(fraction_field(r) == f * 0x2000_0000);
            assert(significand(r) == (0x80_0000 + f) * pow2(29));
        }
        r
    } else if f == 0 {
        sign
    } else {
        let mut m: u64 = f;
        let mut x: u64 = 926;
        proof {
            lemma2_to64();
            lemma2_to64_rest();
        }
        while m < 0x10_0000_0000_0000
            invariant
                874 <= x <= 926,
                scale_up(f as nat, 926) == scale_up(m as nat, x as nat),
                1 <= m < 0x20_0000_0000_0000,
                pow2((926 - x) as nat) <= m,
                m == f * pow2((926 - x) as nat),
                pow2(52) == 0x10_0000_0000_0000,
            decreases x,
        {
            proof {
                lemma_pow2_unfold((926 - x + 1) as nat);
                assert(f * (2 * pow2((926 - x) as nat)) == 2 * (f * pow2((926 - x) as nat)))
                    by (nonlinear_arith);
            }
            m = m * 2;
            x = x - 1;
        }
        let r = sign + x * 0x10_0000_0000_0000 + (m - 0x10_0000_0000_0000);
        proof {
            assert(exponent_field(r) == x);
            assert(fraction_field(r) == m - 0x10_0000_0000_0000);
            assert(significand(r) == f * pow2((926 - x) as nat));
        }
        r
    }
}

/// A natural number that, doubled `k` times, gives a significand with the
/// hidden bit set is scaled up to that significand, with the exponent field
/// lowered by `k`.
proof fn lemma_scale_up(n: nat, k: nat, j: nat, m: nat)
    requires
        j <= k <= 1075,
        m == n * pow2(k),
        HIDDEN_BIT <= m < 2 * HIDDEN_BIT,
    ensures
        scale_up(n * pow2(j), (1075 - j) as nat) == (m, (1075 - k) as nat),
    decreases k - j,
{
    if j < k {
        lemma_scale_up(n, k, j + 1, m);
        lemma_pow2_unfold(j + 1);
        assert(n * pow2(j + 1) == 2 * (n * pow2(j))) by (nonlinear_arith)
            requires
                pow2(j + 1) == 2 * pow2(j),
        ;
        assert(n * pow2(j) < HIDDEN_BIT) by {
            lemma_pow2_pos(j);
            lemma_pow2_pos(k);
            if j + 1 < k {
                vstd::arithmetic::power2::lemma_pow2_strictly_increases(j + 1, k);
            }
            assert(n * pow2(j + 1) <= n * pow2(k)) by (nonlinear_arith)
                requires
                    pow2(j + 1) <= pow2(k),
            ;
        }
    }
}

/// A finite bit pattern that stands for an integer of a magnitude below two
/// to the power of fifty-three is the bit pattern that the conversion of
/// that magnitude gives, under the same sign bit.
pub proof fn lemma_bits_of_int_value(bits: u64)
    requires
        int_value(bits) is Some,
        -2 * HIDDEN_BIT < int_value(bits)->0 < 2 * HIDDEN_BIT,
    ensures
        ({
            let v = int_value(bits)->0;
            let magnitude = if v < 0 {
                -v
            } else {
                v
            };
            let sign: int = if sign_bit(bits) {
                0x8000_0000_0000_0000
            } else {
                0
            };
            bits == sign + bits_of_nat(magnitude as nat)
        }),
{
    lemma2_to64();
    lemma2_to64_rest();
    let e = exponent_field(bits);
    let f = fraction_field(bits);
    let m = significand(bits);
    let v = int_value(bits)->0;
    let magnitude = if v < 0 {
        -v
    } else {
        v
    };
    let sign_factor: int = if sign_bit(bits) {
        -1
    } else {
        1
    };
    let sign: int = if sign_bit(bits) {
        0x8000_0000_0000_0000
    } else {
        0
    };
    assert(bits == sign + e * HIDDEN_BIT + f);
    if e == 0 {
    } else if e >= 1075 {
        let scale = pow2((e - 1075) as nat) as int;
        lemma_pow2_pos((e - 1075) as nat);
        assert(sign_factor * (m * scale) == m * scale || sign_factor * (m * scale) == -(m * scale))
            by (nonlinear_arith)
            requires
                sign_factor == 1 || sign_factor == -1,
        ;
        assert(magnitude == m * scale);
        if e > 1075 {
            lemma_pow2_unfold((e - 1075) as nat);
            lemma_pow2_pos((e - 1076) as nat);
            assert(m * scale >= 2 * m) by (nonlinear_arith)
                requires
                    scale >= 2,
                    m >= 0,
            ;
        }
        assert(e == 1075);
        assert(scale == 1);
        assert(magnitude == m) by (nonlinear_arith)
            requires
                magnitude == m * scale,
                scale == 1,
        ;
        assert(scale_up(m as nat, 1075) == (m as nat, 1075nat));
    } else {
        let k = (1075 - e) as nat;
        let divisor = pow2(k) as int;
        lemma_pow2_pos(k);
        assert(sign_factor * (m / divisor) == m / divisor || sign_factor * (m / divisor) == -(m
            / divisor)) by (nonlinear_arith)
            requires
                sign_factor == 1 || sign_factor == -1,
        ;
        assert(m / divisor >= 0) by (nonlinear_arith)
            requires
                m >= 0,
                divisor > 0,
        ;
        assert(magnitude == m / divisor);
        assert(m == magnitude * divisor) by (nonlinear_arith)
            requires
                magnitude == m / divisor,
                m % divisor == 0,
                divisor > 0,
        ;
        assert(magnitude > 0) by (nonlinear_arith)
            requires
                m == magnitude * divisor,
                m > 0,
                magnitude >= 0,
        ;
        lemma_scale_up(magnitude as nat, k, 0, m as nat);
        assert(pow2(0) == 1);
        assert(magnitude as nat * pow2(0) == magnitude as nat) by (nonlinear_arith)
            requires
                pow2(0) == 1,
        ;
    }
}

} // verus!

//! Conversions between IEEE-754 binary64 values, given by their bit
//! patterns, and the 64-bit fixed-point form of a coordinate: a value `x` in
//! `[-1, 1)` is held as `2^63 + x * 2^63`.
use vstd::arithmetic::div_mod::*;
use vstd::arithmetic::mul::*;
use vstd::arithmetic::power2::*;
use vstd::bits::*;
use vstd::prelude::*;

verus! {

/// The fixed-point form of 0.0.
pub const MIDPOINT: u64 = 0x8000_0000_0000_0000;

/// The fraction field of a binary64.
pub const MANTISSA_MASK: u64 = 0x000f_ffff_ffff_ffff;

/// The implicit leading bit of a normal binary64 significand.
pub const HIDDEN_BIT: u64 = 0x0010_0000_0000_0000;

/// The bit pattern of -1.0.
pub const MINUS_ONE_BITS: u64 = 0xbff0_0000_0000_0000;

/// The biased exponent field of a binary64.
pub open spec fn float_exponent(bits: u64) -> nat {
    (bits as nat / pow2(52)) % 2048
}

/// The fraction field of a binary64.
pub open spec fn float_fraction(bits: u64) -> nat {
    bits as nat % pow2(52)
}

/// The sign bit of a binary64 is set.
pub open spec fn float_negative(bits: u64) -> bool {
    bits as nat >= pow2(63)
}

/// The binary64 is a number in `[-1, 1)` (for a NaN this is false).
pub open spec fn in_unit_range(bits: u64) -> bool {
    float_exponent(bits) < 1023 || bits == MINUS_ONE_BITS
}

/// `floor(|x| * 2^63)` for the binary64 `x`: its significand is
/// `fraction + 2^52` (normal) or `fraction` (subnormal, exponent taken as 1),
/// and `|x| = significand * 2^(exponent - 1075)`.
pub open spec fn scaled_magnitude(bits: u64) -> nat {
    let e = float_exponent(bits);
    let significand = if e == 0 {
        float_fraction(bits)
    } else {
        float_fraction(bits) + pow2(52)
    };
    let exponent = if e == 0 {
        1
    } else {
        e
    };
    (significand * pow2(exponent)) / pow2(1012)
}

/// The fixed-point form `2^63 + trunc(x * 2^63)` of the binary64 `x`, for `x`
/// in `[-1, 1)`; `None` for any other value.
pub open spec fn unit_to_fixed(bits: u64) -> Option<nat> {
    if !in_unit_range(bits) {
        None
    } else if float_negative(bits) {
        Some((pow2(63) - scaled_magnitude(bits)) as nat)
    } else {
        Some(pow2(63) + scaled_magnitude(bits))
    }
}

/// The conversion is defined: the value is outside `[-1, 1)`, zero or
/// subnormal, or not smaller in magnitude than `2^-74`. (For normal values
/// below that, the right shift of the significand reaches 64 bits.)
pub open spec fn unit_conversion_defined(bits: u64) -> bool {
    !in_unit_range(bits) || float_exponent(bits) == 0 || float_exponent(bits) >= 949
}

proof fn lemma_u64_fields(bits: u64)
    by (bit_vector)
    ensures
        (bits & 0x000f_ffff_ffff_ffff) | 0x0010_0000_0000_0000 == (bits & 0x000f_ffff_ffff_ffff)
            + 0x0010_0000_0000_0000,
        bits & 0x000f_ffff_ffff_ffff == bits % 0x0010_0000_0000_0000,
        (bits >> 52u64) & 0x7ff == (bits / 0x0010_0000_0000_0000) % 2048,
        bits >> 63u64 == bits / 0x8000_0000_0000_0000,
{
}

/// Is the binary64 with these bits a value for which `double_bits_to_i64` is
/// defined?
pub fn unit_bits_supported(bits: u64) -> (r: bool)
    ensures
        r == unit_conversion_defined(bits),
{
    proof {
        lemma_u64_fields(bits);
        lemma2_to64();
        lemma2_to64_rest();
    }
    let exp_field = (bits >> 52u64) & 0x7ff;
    !(exp_field < 0x3ff || bits == MINUS_ONE_BITS) || exp_field == 0 || exp_field >= 949
}

/// The fixed-point form of the binary64 with these bits, for a value in
/// `[-1, 1)` (`None` otherwise): `2^63 + trunc(x * 2^63)`.
pub fn double_bits_to_i64(bits: u64) -> (r: Option<u64>)
    requires
        unit_conversion_defined(bits),
    ensures
        match r {
            Some(v) => unit_to_fixed(bits) == Some(v as nat),
            None => unit_to_fixed(bits) is None,
        },
{
    proof {
        lemma_u64_fields(bits);
        lemma2_to64();
        lemma2_to64_rest();
    }
    let exp_field = (bits >> 52u64) & 0x7ff;
    // the value lies in [-1, 1): |x| < 1, or x is -1 exactly
    if !(exp_field < 0x3ff || bits == MINUS_ONE_BITS) {
        return None;
    }
    let sign = bits >> 63u64;
    let exp = exp_field as i32;
    if exp == 0 {
        proof {
            let f = float_fraction(bits);
            lemma_pow2_pos(1012);
            assert(pow2(1) == 2);
            lemma_pow2_strictly_increases(53, 1012);
            lemma_pow2_adds(52, 1);
            assert(f * 2 < pow2(1012));
            lemma_basic_div((f * 2) as int, pow2(1012) as int);
        }
        return Some(MIDPOINT);
    }
    if exp == 0x7ff {
        return None;
    }
    let mut value = (bits & MANTISSA_MASK) | HIDDEN_BIT;
    let shift = exp - 0x3ff + 11;
    let ghost e = exp as nat;
    let ghost m = value as nat;
    proof {
        assert(m == float_fraction(bits) + pow2(52));
        assert(m < pow2(53)) by {
            lemma_pow2_adds(52, 1);
        }
        lemma_pow2_pos(1012);
        lemma_pow2_pos(e);
    }
    if shift > 0 {
        proof {
            let k = shift as nat;
            assert(e == 1012 + k);
            lemma_pow2_adds(53, k);
            if 53 + k < 64 {
                lemma_pow2_strictly_increases(53 + k, 64);
            }
            lemma_mul_strict_inequality(m as int, pow2(53) as int, pow2(k) as int);
            lemma_u64_shl_is_mul(value, shift as u64);
            lemma_pow2_adds(k, 1012);
            lemma_mul_is_associative(m as int, pow2(k) as int, pow2(1012) as int);
            lemma_div_multiples_vanish((m * pow2(k)) as int, pow2(1012) as int);
            lemma_mul_is_commutative((m * pow2(k)) as int, pow2(1012) as int);
        }
        value <<= shift as u64;
    } else {
        proof {
            let k = (-shift) as nat;
            assert(e + k == 1012);
            assert(k < 64);
            lemma_u64_shr_is_div(value, (-shift) as u64);
            lemma_pow2_adds(e, k);
            lemma_pow2_pos(k);
            lemma_div_denominator((m * pow2(e)) as int, pow2(e) as int, pow2(k) as int);
            lemma_div_multiples_vanish(m as int, pow2(e) as int);
            lemma_mul_is_commutative(m as int, pow2(e) as int);
        }
        value >>= (-shift) as u64;
    }
    proof {
        assert(value as nat == scaled_magnitude(bits));
        // bounds: below 2^63, or 2^63 exactly for -1
        if bits == MINUS_ONE_BITS {
            assert(float_fraction(bits) == 0);
            assert(value as nat == pow2(52) * pow2(11)) by {
                lemma_pow2_adds(52, 11);
            }
            lemma_pow2_adds(52, 11);
        } else {
            assert(e <= 1022);
            let k = (e - 1012) as int;
            if k > 0 {
                lemma_pow2_adds(53, k as nat);
                if 53 + k < 63 {
                    lemma_pow2_strictly_increases((53 + k) as nat, 63);
                }
                lemma_mul_strict_inequality(m as int, pow2(53) as int, pow2(k as nat) as int);
            } else {
                lemma_div_is_ordered_by_denominator(m as int, 1, pow2((-k) as nat) as int);
                lemma_pow2_pos((-k) as nat);
                lemma_pow2_strictly_increases(53, 63);
            }
        }
    }
    if sign != 0 {
        Some(MIDPOINT - value)
    } else {
        Some(MIDPOINT + value)
    }
}

/// The position of the highest set bit of `d` (0 for `d <= 1`).
pub open spec fn floor_log2(d: nat) -> nat
    decreases d,
{
    if d <= 1 {
        0
    } else {
        1 + floor_log2(d / 2)
    }
}

/// The bits of the binary64 nearest to `(x - 2^63) / 2^63` in the direction
/// of zero: with `d = |x - 2^63|` and `k` the position of its highest set bit,
/// the sign, the biased exponent `960 + k` (that is, `1023 - (63 - k)`), and
/// the 52 bits of `d` after its highest set bit. `2^63` gives `+0.0`.
pub open spec fn fixed_to_double_bits(x: u64) -> nat {
    if x as nat == pow2(63) {
        0
    } else {
        let negative = (x as nat) < pow2(63);
        let d: nat = if negative {
            (pow2(63) - x) as nat
        } else {
            (x - pow2(63)) as nat
        };
        let k = floor_log2(d);
        let sign: nat = if negative {
            pow2(63)
        } else {
            0
        };
        sign + (960 + k) * pow2(52) + ((d * pow2(52)) / pow2(k)) % pow2(52)
    }
}

/// The value of a finite binary64 with these bits, times `2^1075` (an
/// integer): the significand times two to the biased exponent (exponent 1 for
/// subnormals), negated when the sign bit is set.
pub open spec fn double_value_scaled(bits: nat) -> int {
    let e = (bits / pow2(52)) % 2048;
    let f = bits % pow2(52);
    let significand = if e == 0 {
        f
    } else {
        f + pow2(52)
    };
    let exponent = if e == 0 {
        1
    } else {
        e
    };
    let magnitude = significand * pow2(exponent);
    if (bits / pow2(63)) % 2 == 1 {
        -magnitude
    } else {
        magnitude as int
    }
}

pub proof fn lemma_floor_log2_bounds(d: nat)
    requires
        d >= 1,
    ensures
        pow2(floor_log2(d)) <= d < pow2(floor_log2(d) + 1),
    decreases d,
{
    lemma2_to64();
    if d > 1 {
        lemma_floor_log2_bounds(d / 2);
        lemma_pow2_unfold(floor_log2(d));
        lemma_pow2_unfold(floor_log2(d) + 1);
    }
}

/// The highest set bit is the only `j` with `2^j <= d < 2^(j+1)`.
pub proof fn lemma_floor_log2_unique(d: nat, j: nat)
    requires
        pow2(j) <= d < pow2(j + 1),
    ensures
        floor_log2(d) == j,
{
    lemma_pow2_pos(j);
    lemma_floor_log2_bounds(d);
    let k = floor_log2(d);
    if k < j {
        if k + 1 < j {
            lemma_pow2_strictly_increases(k + 1, j);
        }
    } else if k > j {
        if j + 1 < k {
            lemma_pow2_strictly_increases(j + 1, k);
        }
    }
}

proof fn lemma_u64_assemble(a: u64, b: u64)
    by (bit_vector)
    requires
        b < 0x10_0000_0000_0000,
    ensures
        (a << 52u64) | b == (a << 52u64) + b,
{
}

proof fn lemma_u64_sign(b: u64)
    by (bit_vector)
    requires
        b < 0x8000_0000_0000_0000,
    ensures
        b | 0x8000_0000_0000_0000 == b + 0x8000_0000_0000_0000,
{
}

/// The bits of the binary64 for a fixed-point value (see
/// `fixed_to_double_bits`): the inverse direction of `double_bits_to_i64`.
pub fn i64_to_double_bits(input: u64) -> (bits: u64)
    ensures
        bits as nat == fixed_to_double_bits(input),
{
    proof {
        lemma2_to64();
        lemma2_to64_rest();
    }
    if input == MIDPOINT {
        return 0;
    }
    let mut input = input;
    let ghost x = input;
    let mut sign: u64 = 0;
    if input < MIDPOINT {
        sign = 1;
        input = MIDPOINT - input;
    } else {
        input -= MIDPOINT;
    }
    let ghost d = input as nat;
    let mut leading_zero_count: u64 = 0;
    let mut i: u64 = 0;
    while i < 64
        invariant_except_break
            i <= 64,
            d < pow2((64 - i) as nat),
            leading_zero_count == 0,
        invariant
            d == input as nat,
            1 <= d <= pow2(63),
            pow2(0) == 1,
        ensures
            leading_zero_count < 64,
            pow2((63 - leading_zero_count) as nat) <= d,
            d < pow2((64 - leading_zero_count) as nat),
        decreases 64 - i,
    {
        proof {
            lemma_u64_shr_is_div(input, (63 - i) as u64);
            lemma_pow2_pos((63 - i) as nat);
            if d >= pow2((63 - i) as nat) {
                lemma_div_non_zero(d as int, pow2((63 - i) as nat) as int);
            } else {
                lemma_basic_div(d as int, pow2((63 - i) as nat) as int);
            }
        }
        if input >> (63 - i) != 0 {
            leading_zero_count = i;
            break;
        }
        i += 1;
    }
    let ghost k = (63 - leading_zero_count) as nat;
    proof {
        lemma_floor_log2_unique(d, k);
        lemma_pow2_pos(k);
    }
    let mantissa_source = if leading_zero_count > 11 {
        proof {
            let s = (leading_zero_count - 11) as nat;
            assert(k + s == 52);
            lemma_pow2_adds(k, s);
            lemma_pow2_pos(s);
            lemma_mul_strict_inequality(d as int, pow2(k + 1) as int, pow2(s) as int);
            lemma_pow2_adds(k + 1, s);
            lemma_u64_shl_is_mul(input, (leading_zero_count - 11) as u64);
            lemma_div_multiples_vanish((d * pow2(s)) as int, pow2(k) as int);
            lemma_mul_is_associative(d as int, pow2(s) as int, pow2(k) as int);
            lemma_mul_is_commutative((d * pow2(s)) as int, pow2(k) as int);
            lemma_mul_is_commutative(pow2(s) as int, pow2(k) as int);
            assert(d * pow2(52) == pow2(k) * (d * pow2(s)));
            assert((d * pow2(52)) / pow2(k) == d * pow2(s));
        }
        input << (leading_zero_count - 11)
    } else {
        proof {
            let s = (11 - leading_zero_count) as nat;
            assert(52 + s == k);
            lemma_pow2_adds(52, s);
            lemma_pow2_pos(s);
            lemma_u64_shr_is_div(input, (11 - leading_zero_count) as u64);
            lemma_div_denominator((d * pow2(52)) as int, pow2(52) as int, pow2(s) as int);
            lemma_div_multiples_vanish(d as int, pow2(52) as int);
            lemma_mul_is_commutative(d as int, pow2(52) as int);
            assert((d * pow2(52)) / pow2(k) == d / pow2(s));
        }
        input >> (11 - leading_zero_count)
    };
    proof {
        let ms = mantissa_source as nat;
        assert(ms == (d * pow2(52)) / pow2(k));
        lemma_u64_fields(mantissa_source);
        lemma_mod_bound(ms as int, pow2(52) as int);
        lemma_u64_shl_is_mul((0x3ff - leading_zero_count) as u64, 52);
        lemma_u64_assemble((0x3ff - leading_zero_count) as u64, mantissa_source & MANTISSA_MASK);
        assert((0x3ff - leading_zero_count) * pow2(52) == (960 + k) * pow2(52));
        assert((960 + k) * pow2(52) < 1024 * pow2(52)) by {
            lemma_mul_strict_inequality((960 + k) as int, 1024, pow2(52) as int);
        }
        lemma_pow2_adds(10, 52);
    }
    let mut bits = ((0x3ff - leading_zero_count) << 52u64) | (mantissa_source & MANTISSA_MASK);
    if sign != 0 {
        proof {
            lemma_u64_sign(bits);
        }
        bits |= 0x8000_0000_0000_0000;
    }
    bits
}

} // verus!

//! JSON numbers: IEEE 754 binary64 values, held by their bit pattern.

use vstd::arithmetic::power2::{
    lemma2_to64, lemma2_to64_rest, lemma_pow2_adds, lemma_pow2_pos, lemma_pow2_strictly_increases,
    lemma_pow2_subtracts, lemma_pow2_unfold, pow2,
};
use vstd::prelude::*;

verus! {

/// The bit of a binary64 pattern that holds the sign.
pub const SIGN_BIT: u64 = 0x8000_0000_0000_0000u64;

/// The pattern of positive infinity: every exponent bit set, no fraction bit.
pub const INFINITY_BITS: u64 = 0x7ff0_0000_0000_0000u64;

/// Two to the power 52: the weight of the hidden bit of a significand, and
/// of one step of the exponent field.
pub const HIDDEN_BIT: u64 = 0x10_0000_0000_0000u64;

/// The exponent field of one: the bias of the format.
pub const EXPONENT_BIAS: u64 = 1023u64;

/// A binary64 pattern without its sign bit.
pub open spec fn magnitude(bits: u64) -> u64 {
    bits & 0x7fff_ffff_ffff_ffffu64
}

/// Whether a binary64 pattern is a NaN: all exponent bits set and a
/// fraction that is not zero.
pub open spec fn is_nan_bits(bits: u64) -> bool {
    magnitude(bits) > INFINITY_BITS
}

/// Equality of two binary64 patterns as IEEE 754 defines it for the numbers
/// they encode: a NaN equals nothing, the two zeros equal each other, and
/// any other two patterns are equal exactly when they are the same pattern.
pub open spec fn bits_eq(a: u64, b: u64) -> bool {
    &&& !is_nan_bits(a)
    &&& !is_nan_bits(b)
    &&& (a == b || (magnitude(a) == 0 && magnitude(b) == 0))
}

/// The position of the highest set bit of a positive number.
pub open spec fn floor_log2(n: nat) -> nat
    decreases n,
{
    if n < 2 {
        0
    } else {
        1 + floor_log2(n / 2)
    }
}

/// `n` divided by `unit` and rounded to the nearest integer; where `n` lies
/// half way between two integers, to the even one.
pub open spec fn round_half_even(n: nat, unit: nat) -> nat {
    let q = n / unit;
    let r = n % unit;
    if 2 * r > unit || (2 * r == unit && q % 2 == 1) {
        q + 1
    } else {
        q
    }
}

/// The binary64 pattern of the double nearest to a natural number, ties
/// going to the even significand. With `e` the position of the highest set
/// bit, the significand is `n` brought to 53 bits (exactly where `n` has no
/// more, else rounded), and the exponent field is `e` above the bias. The
/// hidden bit is not stored; a significand that rounding carried to 54 bits
/// moves one step into the exponent field by the same sum.
pub open spec fn nearest_bits(n: nat) -> nat {
    if n == 0 {
        0
    } else {
        let e = floor_log2(n);
        let significand = if e <= 52 {
            n * pow2((52 - e) as nat)
        } else {
            round_half_even(n, pow2((e - 52) as nat))
        };
        ((e + EXPONENT_BIAS) * HIDDEN_BIT + significand - HIDDEN_BIT) as nat
    }
}

/// A double-precision number, held as its IEEE 754 binary64 bit pattern.
#[derive(Clone, Copy, Debug)]
pub struct Double {
    pub bits: u64,
}

/// The double nearest to an integer, ties going to the even significand.
pub open spec fn double_of_int(n: int) -> Double {
    if n < 0 {
        Double { bits: (SIGN_BIT + nearest_bits((-n) as nat)) as u64 }
    } else {
        Double { bits: nearest_bits(n as nat) as u64 }
    }
}

/// The exponent of a pattern: its exponent field, less the bias.
pub open spec fn exponent_of(bits: u64) -> int {
    (bits % SIGN_BIT) / HIDDEN_BIT - EXPONENT_BIAS
}

/// The significand of a pattern of a normal number: its fraction field
/// below the hidden bit.
pub open spec fn significand_of(bits: u64) -> nat {
    (HIDDEN_BIT + bits % HIDDEN_BIT) as nat
}

/// The number that a pattern encodes, for a positive normal number that is
/// not below two to the power 52, which is then an integer: its
/// significand, times two to the power of what its exponent has above 52.
pub open spec fn integer_value(bits: u64) -> nat {
    significand_of(bits) * pow2((exponent_of(bits) - 52) as nat)
}

/// A positive integer below two to the power 53 converts exactly: its
/// pattern has the exponent of its highest set bit, and a significand that
/// is the integer itself, shifted up to 53 bits.
pub proof fn lemma_nearest_bits_exact(n: nat)
    requires
        0 < n < 0x20_0000_0000_0000,
    ensures
        nearest_bits(n) < INFINITY_BITS,
        exponent_of(nearest_bits(n) as u64) == floor_log2(n),
        floor_log2(n) <= 52,
        significand_of(nearest_bits(n) as u64) == n * pow2((52 - floor_log2(n)) as nat),
{
    lemma2_to64();
    lemma2_to64_rest();
    let e = floor_log2(n);
    lemma_floor_log2_bounds(n);
    if e > 52 {
        lemma_pow2_strictly_increases(52, e);
        if e > 53 {
            lemma_pow2_strictly_increases(53, e);
        }
    }
    let scale = pow2((52 - e) as nat);
    lemma_pow2_adds((52 - e) as nat, e);
    assert(HIDDEN_BIT <= n * scale < 2 * HIDDEN_BIT) by (nonlinear_arith)
        requires
            scale * pow2(e) == HIDDEN_BIT,
            pow2(e) <= n < 2 * pow2(e),
            scale > 0,
    ;
}

/// An integer from two to the power 52 up, which a `u128` can hold,
/// converts to the nearest number that the format has: the pattern encodes
/// an integer that lies no further from it than half the distance between
/// two neighbouring numbers of the format there, and where it lies just
/// half way, the significand is even.
pub proof fn lemma_nearest_bits_nearest(n: nat)
    requires
        0x10_0000_0000_0000 <= n <= u128::MAX,
    ensures
        nearest_bits(n) < INFINITY_BITS,
        floor_log2(n) >= 52,
        ({
            let unit = pow2((floor_log2(n) - 52) as nat);
            let value = integer_value(nearest_bits(n) as u64);
            &&& 2 * (value - n) <= unit
            &&& 2 * (n - value) <= unit
            &&& (2 * (value - n) == unit || 2 * (n - value) == unit) ==> (value / unit)
                % 2 == 0
        }),
{
    lemma2_to64();
    lemma2_to64_rest();
    let e = floor_log2(n);
    lemma_floor_log2_bounds(n);
    lemma_pow2_fits(e);
    if e < 52 {
        lemma_pow2_strictly_increases(e + 1, 53);
        lemma_pow2_unfold(e + 1);
    }
    let unit = pow2((e - 52) as nat);
    lemma_pow2_pos((e - 52) as nat);
    lemma_pow2_adds((e - 52) as nat, 52);
    let q = n / unit;
    let r = n % unit;
    let m = round_half_even(n, unit);
    assert(n == unit * q + r && 0 <= r < unit) by {
        vstd::arithmetic::div_mod::lemma_fundamental_div_mod(n as int, unit as int);
        vstd::arithmetic::div_mod::lemma_mod_bound(n as int, unit as int);
    }
    assert(HIDDEN_BIT <= q < 2 * HIDDEN_BIT) by (nonlinear_arith)
        requires
            unit * HIDDEN_BIT == pow2(e),
            pow2(e) <= n < 2 * pow2(e),
            unit > 0,
            n == unit * q + r,
            0 <= r < unit,
    ;
    let bits = nearest_bits(n);
    if e == 52 {
        assert(unit == 1 && q == n && r == 0);
        assert(n * pow2(0) == n);
    }
    assert(bits == (e + EXPONENT_BIAS) * HIDDEN_BIT + m - HIDDEN_BIT);
    let value = integer_value(bits as u64);
    assert(value == m * unit) by {
        if m == 2 * HIDDEN_BIT {
            assert(bits == (e + 1 + EXPONENT_BIAS) * HIDDEN_BIT);
            assert(exponent_of(bits as u64) == e + 1);
            assert(significand_of(bits as u64) == HIDDEN_BIT);
            lemma_pow2_unfold((e + 1 - 52) as nat);
            assert(HIDDEN_BIT * (2 * unit) == (2 * HIDDEN_BIT) * unit) by (nonlinear_arith);
        } else {
            assert(bits == (e + EXPONENT_BIAS - 1) * HIDDEN_BIT + m);
            assert(exponent_of(bits as u64) == e);
            assert(significand_of(bits as u64) == m);
        }
    }
    assert(m * unit == q * unit + (m - q) * unit) by (nonlinear_arith);
    assert(unit * q == q * unit) by (nonlinear_arith);
    if m == q {
        assert((m - q) * unit == 0);
        assert(value / unit == q) by (nonlinear_arith)
            requires
                value == q * unit,
                unit > 0,
        ;
    } else {
        assert((m - q) * unit == unit) by (nonlinear_arith)
            requires
                m - q == 1,
        ;
        assert(value / unit == q + 1) by (nonlinear_arith)
            requires
                value == (q + 1) * unit,
                unit > 0,
        ;
    }
}

/// A positive number lies between the power of two of its highest set bit
/// and the next one.
pub proof fn lemma_floor_log2_bounds(n: nat)
    requires
        n > 0,
    ensures
        pow2(floor_log2(n)) <= n < 2 * pow2(floor_log2(n)),
    decreases n,
{
    lemma2_to64();
    if n >= 2 {
        lemma_floor_log2_bounds(n / 2);
        lemma_pow2_unfold(floor_log2(n));
    }
}

/// A number between two neighbouring powers of two has its highest set bit
/// at the lower one's exponent.
pub proof fn lemma_floor_log2(n: nat, e: nat)
    requires
        pow2(e) <= n < 2 * pow2(e),
    ensures
        floor_log2(n) == e,
    decreases e,
{
    lemma2_to64();
    if e > 0 {
        lemma_pow2_unfold(e);
        lemma_pow2_pos((e - 1) as nat);
        lemma_floor_log2(n / 2, (e - 1) as nat);
    }
}

/// Two to a power that a `u128` can hold has an exponent below 128.
proof fn lemma_pow2_fits(e: nat)
    requires
        pow2(e) <= u128::MAX,
    ensures
        e < 128,
{
    lemma2_to64();
    lemma2_to64_rest();
    lemma_pow2_adds(64, 64);
    assert(pow2(128) == 0x1_0000_0000_0000_0000_0000_0000_0000_0000) by (nonlinear_arith)
        requires
            pow2(128) == pow2(64) * pow2(64),
            pow2(64) == 0x1_0000_0000_0000_0000,
    ;
    if e > 128 {
        lemma_pow2_strictly_increases(128, e);
    }
}

impl Double {
    /// The number with the given bit pattern.
    pub fn from_bits(bits: u64) -> (d: Double)
        ensures
            d.bits == bits,
    {
        Double { bits }
    }

    /// The bit pattern of this number.
    pub fn to_bits(&self) -> (bits: u64)
        ensures
            bits == self.bits,
    {
        self.bits
    }

    /// Whether this is a NaN.
    pub fn is_nan(&self) -> (r: bool)
        ensures
            r == is_nan_bits(self.bits),
    {
        (self.bits & 0x7fff_ffff_ffff_ffffu64) > INFINITY_BITS
    }

    /// The double nearest to an unsigned integer.
    pub fn from_u128(n: u128) -> (d: Double)
        ensures
            d == double_of_int(n as int),
            d.bits == nearest_bits(n as nat),
            d.bits < INFINITY_BITS,
    {
        if n == 0 {
            return Double { bits: 0 };
        }
        let mut e: u64 = 0;
        let mut p: u128 = 1;
        proof {
            lemma2_to64();
            lemma2_to64_rest();
        }
        while n / 2 >= p
            invariant
                p as nat == pow2(e as nat),
                1 <= p <= n,
                e < 128,
            decreases n - p,
        {
            p = p * 2;
            e = e + 1;
            proof {
                lemma_pow2_unfold(e as nat);
                lemma_pow2_fits(e as nat);
            }
        }
        proof {
            lemma_floor_log2(n as nat, e as nat);
        }
        let significand: u64 = if e <= 52 {
            proof {
                lemma_pow2_subtracts(e as nat, 52);
                lemma_pow2_adds((52 - e) as nat, e as nat);
                lemma_pow2_strictly_increases(e as nat, 53);
            }
            let scale: u64 = HIDDEN_BIT / (p as u64);
            assert(scale as nat == pow2((52 - e) as nat));
            assert(scale * p == HIDDEN_BIT);
            assert(HIDDEN_BIT <= n * scale < 2 * HIDDEN_BIT) by (nonlinear_arith)
                requires
                    scale * p == HIDDEN_BIT,
                    p <= n < 2 * p,
                    scale > 0,
            ;
            (n as u64) * scale
        } else {
            proof {
                lemma_pow2_subtracts(52, e as nat);
                lemma_pow2_adds((e - 52) as nat, 52);
                lemma_pow2_pos((e - 52) as nat);
            }
            let unit: u128 = p / (HIDDEN_BIT as u128);
            assert(unit as nat == pow2((e - 52) as nat));
            assert(unit * HIDDEN_BIT == p);
            let q: u128 = n / unit;
            let r: u128 = n % unit;
            assert(HIDDEN_BIT <= q < 2 * HIDDEN_BIT) by (nonlinear_arith)
                requires
                    unit * HIDDEN_BIT == p,
                    p <= n < 2 * p,
                    unit > 0,
                    q == n / unit,
            ;
            let up: u64 = if 2 * r > unit || (2 * r == unit && q % 2 == 1) {
                1
            } else {
                0
            };
            (q as u64) + up
        };
        Double { bits: (e + EXPONENT_BIAS) * HIDDEN_BIT + significand - HIDDEN_BIT }
    }

    /// The double nearest to a signed integer.
    pub fn from_i128(n: i128) -> (d: Double)
        ensures
            d == double_of_int(n as int),
    {
        if n >= 0 {
            Double::from_u128(n as u128)
        } else {
            let size: u128 = if n == i128::MIN {
                0x8000_0000_0000_0000_0000_0000_0000_0000u128
            } else {
                (-n) as u128
            };
            let positive = Double::from_u128(size);
            Double { bits: SIGN_BIT + positive.bits }
        }
    }
}

impl PartialEq for Double {
    /// Equality of the two numbers, as IEEE 754 defines it.
    fn eq(&self, other: &Double) -> (r: bool) {
        let a: u64 = self.bits & 0x7fff_ffff_ffff_ffffu64;
        let b: u64 = other.bits & 0x7fff_ffff_ffff_ffffu64;
        a <= INFINITY_BITS && b <= INFINITY_BITS && (self.bits == other.bits || (a == 0 && b
            == 0))
    }
}

impl vstd::std_specs::cmp::PartialEqSpecImpl for Double {
    open spec fn obeys_eq_spec() -> bool {
        true
    }

    open spec fn eq_spec(&self, other: &Double) -> bool {
        bits_eq(self.bits, other.bits)
    }
}

} // verus!

//! Binary64 floating-point numbers, held as their bit patterns, and the
//! comparisons that the value relation makes on them.
use vstd::arithmetic::div_mod::{lemma_div_denominator, lemma_fundamental_div_mod};
use vstd::arithmetic::power2::{lemma2_to64, lemma2_to64_rest, lemma_pow2_pos, lemma_pow2_strictly_increases, lemma_pow2_unfold, pow2};
use vstd::prelude::*;

verus! {

/// 2 to the 52nd: the weight of the implicit leading bit of a normal number.
pub const HIDDEN_BIT: u64 = 0x10_0000_0000_0000;

/// 2 to the 53rd: integers below it are exact in binary64.
pub const EXACT_LIMIT: u64 = 0x20_0000_0000_0000;

/// A binary64 (IEEE 754 double precision) number, held as its bit pattern:
/// the sign bit, 11 bits of biased exponent and 52 bits of fraction.
#[derive(Clone, Copy, Debug)]
pub struct Float64 {
    pub bits: u64,
}

/// The biased exponent field of a bit pattern.
pub open spec fn biased_exponent(bits: u64) -> int {
    (bits as int / HIDDEN_BIT as int) % 0x800
}

/// The fraction field of a bit pattern.
pub open spec fn fraction(bits: u64) -> int {
    bits as int % HIDDEN_BIT as int
}

/// Whether the sign bit is set.
pub open spec fn sign_bit(bits: u64) -> bool {
    bits >= 0x8000_0000_0000_0000
}

pub open spec fn is_nan(bits: u64) -> bool {
    biased_exponent(bits) == 0x7ff && fraction(bits) != 0
}

/// Positive or negative zero.
pub open spec fn is_zero(bits: u64) -> bool {
    biased_exponent(bits) == 0 && fraction(bits) == 0
}

/// IEEE equality: no NaN equals anything, the two zeros are equal, and
/// otherwise equal numbers have equal bit patterns.
pub open spec fn float_eq(a: u64, b: u64) -> bool {
    !is_nan(a) && !is_nan(b) && (a == b || (is_zero(a) && is_zero(b)))
}

/// The integer significand of a finite number.
pub open spec fn significand(bits: u64) -> int {
    if biased_exponent(bits) == 0 {
        fraction(bits)
    } else {
        fraction(bits) + HIDDEN_BIT
    }
}

/// The power of two that the significand is scaled by.
pub open spec fn scale(bits: u64) -> int {
    if biased_exponent(bits) == 0 {
        -1074
    } else {
        biased_exponent(bits) - 1075
    }
}

/// Whether the number is finite with absolute value `m`.
pub open spec fn has_magnitude(bits: u64, m: nat) -> bool {
    biased_exponent(bits) != 0x7ff && if scale(bits) >= 0 {
        significand(bits) * pow2(scale(bits) as nat) == m
    } else {
        significand(bits) == m * pow2((-scale(bits)) as nat)
    }
}

/// Whether the number equals the integer `n`.
pub open spec fn equals_integer(bits: u64, n: int) -> bool {
    if n == 0 {
        is_zero(bits)
    } else {
        sign_bit(bits) == (n < 0) && has_magnitude(bits, (if n < 0 { -n } else { n }) as nat)
    }
}

/// How many low bits of `n` fall outside a 53-bit significand.
pub open spec fn excess_bits(n: nat) -> nat
    decreases n,
{
    if n < EXACT_LIMIT {
        0
    } else {
        1 + excess_bits(n / 2)
    }
}

/// The binary64 value nearest to `n`, ties to the even significand.
pub open spec fn round_magnitude(n: nat) -> nat {
    let k = excess_bits(n);
    if k == 0 {
        n
    } else {
        let p = pow2(k);
        let q = n / p;
        let r = n % p;
        if r > p / 2 || (r == p / 2 && q % 2 == 1) {
            (q + 1) * p
        } else {
            q * p
        }
    }
}

/// The value that an integer takes when converted to binary64.
pub open spec fn nearest_double(i: int) -> int {
    if i < 0 {
        -round_magnitude((-i) as nat)
    } else {
        round_magnitude(i as nat) as int
    }
}

/// 2 to the power `n`.
fn power_of_two(n: u64) -> (r: u128)
    requires
        n <= 64,
    ensures
        r == pow2(n as nat),
{
    let mut r: u128 = 1;
    let mut j: u64 = 0;
    proof {
        lemma2_to64();
    }
    while j < n
        invariant
            j <= n <= 64,
            r == pow2(j as nat),
            pow2(64) == 0x1_0000_0000_0000_0000,
        decreases n - j,
    {
        proof {
            lemma_pow2_unfold((j + 1) as nat);
            if j + 1 < 64 {
                lemma_pow2_strictly_increases((j + 1) as nat, 64);
            }
        }
        r = r * 2;
        j += 1;
    }
    r
}

/// The binary64 value nearest to `m`, which is at most 2 to the 63rd.
fn round_to_double(m: u64) -> (r: u128)
    requires
        m <= 0x8000_0000_0000_0000,
    ensures
        r == round_magnitude(m as nat),
        r <= 0x1_0000_0000_0000_0000,
{
    let mut q: u64 = m;
    let mut p: u64 = 1;
    let ghost mut k: nat = 0;
    proof {
        lemma2_to64();
    }
    while q >= EXACT_LIMIT
        invariant
            m <= 0x8000_0000_0000_0000,
            1 <= p <= 0x800,
            p == pow2(k),
            q == m as nat / p as nat,
            excess_bits(m as nat) == k + excess_bits(q as nat),
            pow2(11) == 0x800,
        decreases q,
    {
        proof {
            lemma_fundamental_div_mod(m as int, p as int);
            assert(p * q <= m);
            assert(p <= 0x400) by (nonlinear_arith)
                requires
                    p * q <= m,
                    q >= EXACT_LIMIT,
                    m <= 0x8000_0000_0000_0000,
                    p >= 1,
            ;
            lemma_div_denominator(m as int, p as int, 2);
            lemma_pow2_unfold(k + 1);
        }
        q = q / 2;
        p = p * 2;
        proof {
            k = k + 1;
        }
    }
    if p == 1 {
        return m as u128;
    }
    let rem = m % p;
    let half = p / 2;
    if rem > half || (rem == half && q % 2 == 1) {
        assert((q as int + 1) * p <= 0x1_0000_0000_0000_0000) by (nonlinear_arith)
            requires
                q < EXACT_LIMIT,
                p <= 0x800,
        ;
        (q as u128 + 1) * (p as u128)
    } else {
        assert(q as int * p <= 0x1_0000_0000_0000_0000) by (nonlinear_arith)
            requires
                q < EXACT_LIMIT,
                p <= 0x800,
        ;
        (q as u128) * (p as u128)
    }
}

/// Whether the integer `i`, converted to binary64, equals `f`.
pub fn int_equals_float(i: i64, f: Float64) -> (r: bool)
    ensures
        r == equals_integer(f.bits, nearest_double(i as int)),
{
    let negative = i < 0;
    let m: u64 = if negative { (-(i as i128)) as u64 } else { i as u64 };
    let rounded = round_to_double(m);
    let bits = f.bits;
    let e = (bits / HIDDEN_BIT) % 0x800;
    let frac = bits % HIDDEN_BIT;
    if e == 0x7ff {
        return false;
    }
    if rounded == 0 {
        return e == 0 && frac == 0;
    }
    if (bits >= 0x8000_0000_0000_0000) != negative {
        return false;
    }
    let sig: u64 = if e == 0 { frac } else { frac + HIDDEN_BIT };
    proof {
        lemma2_to64();
        lemma2_to64_rest();
    }
    if e >= 1075 {
        let s = e - 1075;
        if s > 12 {
            proof {
                if s > 13 {
                    lemma_pow2_strictly_increases(13, s as nat);
                }
                assert(sig * pow2(s as nat) > rounded) by (nonlinear_arith)
                    requires
                        sig >= HIDDEN_BIT,
                        pow2(s as nat) >= pow2(13),
                        pow2(13) == 0x2000,
                        rounded <= 0x1_0000_0000_0000_0000,
                ;
            }
            return false;
        }
        let w = power_of_two(s);
        proof {
            lemma_pow2_strictly_increases(s as nat, 13);
            assert(sig * w <= 0x20_0000_0000_0000 * 0x2000) by (nonlinear_arith)
                requires
                    sig < 0x20_0000_0000_0000,
                    w <= 0x2000,
            ;
        }
        (sig as u128) * w == rounded
    } else {
        let s: u64 = if e == 0 { 1074 } else { 1075 - e };
        if s >= 53 {
            proof {
                lemma_pow2_pos(s as nat);
                if s > 53 {
                    lemma_pow2_strictly_increases(53, s as nat);
                }
                assert(rounded * pow2(s as nat) > sig) by (nonlinear_arith)
                    requires
                        rounded >= 1,
                        pow2(s as nat) >= pow2(53),
                        pow2(53) == 0x20_0000_0000_0000,
                        sig < 0x20_0000_0000_0000,
                ;
            }
            return false;
        }
        let w = power_of_two(s);
        proof {
            lemma_pow2_strictly_increases(s as nat, 53);
            assert(rounded * w <= 0x1_0000_0000_0000_0000 * 0x20_0000_0000_0000) by (nonlinear_arith)
                requires
                    rounded <= 0x1_0000_0000_0000_0000,
                    w <= 0x20_0000_0000_0000,
            ;
        }
        (sig as u128) == rounded * w
    }
}

impl Float64 {
    pub fn from_bits(bits: u64) -> (r: Float64)
        ensures
            r.bits == bits,
    {
        Float64 { bits }
    }

    pub fn to_bits(&self) -> (r: u64)
        ensures
            r == self.bits,
    {
        self.bits
    }

    /// IEEE equality of two numbers.
    pub fn equals(&self, other: &Float64) -> (r: bool)
        ensures
            r == float_eq(self.bits, other.bits),
    {
        let a = self.bits;
        let b = other.bits;
        let a_nan = (a / HIDDEN_BIT) % 0x800 == 0x7ff && a % HIDDEN_BIT != 0;
        let b_nan = (b / HIDDEN_BIT) % 0x800 == 0x7ff && b % HIDDEN_BIT != 0;
        let a_zero = (a / HIDDEN_BIT) % 0x800 == 0 && a % HIDDEN_BIT == 0;
        let b_zero = (b / HIDDEN_BIT) % 0x800 == 0 && b % HIDDEN_BIT == 0;
        !a_nan && !b_nan && (a == b || (a_zero && b_zero))
    }
}

} // verus!

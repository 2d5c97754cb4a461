//! JSON numbers and the binary64 arithmetic that comparisons between them need.
//!
//! A float is held as its IEEE 754 binary64 bit pattern, so every operation in
//! this module is plain integer arithmetic.

use vstd::arithmetic::power2::{
    lemma2_to64, lemma2_to64_rest, lemma_pow2_adds, lemma_pow2_pos, lemma_pow2_strictly_increases,
    lemma_pow2_unfold, pow2,
};
use vstd::prelude::*;

verus! {

/// The sign bit of a binary64 bit pattern.
pub const FLOAT_SIGN: u64 = 0x8000_0000_0000_0000;

/// The bit pattern of positive infinity; every larger magnitude is a NaN.
pub const FLOAT_INFINITY: u64 = 0x7FF0_0000_0000_0000;

/// The weight of the implicit leading bit of a normal mantissa, `2^52`.
pub const FLOAT_HIDDEN_BIT: u64 = 0x10_0000_0000_0000;

/// A JSON number: a non-negative integer, a negative integer, or a float given
/// by its binary64 bit pattern.
#[derive(Clone, Copy, Debug)]
pub enum Number {
    PosInt(u64),
    NegInt(i64),
    Float(u64),
}

/// The number of binary digits of `n`: zero for zero, else `floor(log2 n) + 1`.
pub open spec fn bit_length(n: nat) -> nat
    decreases n,
{
    if n == 0 {
        0
    } else {
        1 + bit_length(n / 2)
    }
}

/// The 53-bit mantissa to which `n > 0` rounds: `n` scaled to `[2^52, 2^53]`,
/// to the nearest integer, ties to the even one.
pub open spec fn rounded_mantissa(n: nat) -> nat {
    let k = (bit_length(n) - 1) as nat;
    if k <= 52 {
        n * pow2((52 - k) as nat)
    } else {
        let d = pow2((k - 52) as nat);
        let q = n / d;
        let r = n % d;
        if 2 * r > d || (2 * r == d && q % 2 == 1) {
            q + 1
        } else {
            q
        }
    }
}

/// The bit pattern of the binary64 float nearest to `n`, ties to even: what
/// the cast of an unsigned integer to a float yields.
pub open spec fn float_of_nat(n: nat) -> int {
    if n == 0 {
        0
    } else {
        (bit_length(n) - 1 + 1023) * 0x10_0000_0000_0000 + (rounded_mantissa(n) - 0x10_0000_0000_0000)
    }
}

/// The bit pattern of the binary64 float nearest to `i`.
pub open spec fn float_of_int(i: int) -> int {
    if i >= 0 {
        float_of_nat(i as nat)
    } else {
        0x8000_0000_0000_0000 + float_of_nat((-i) as nat)
    }
}

/// Whether the bit pattern is a NaN.
pub open spec fn float_is_nan(bits: u64) -> bool {
    bits % 0x8000_0000_0000_0000 > 0x7FF0_0000_0000_0000
}

/// An integer that orders the bit patterns of non-NaN floats as their values
/// are ordered; both zeros have the key 0.
pub open spec fn float_key(bits: u64) -> int {
    if bits >= 0x8000_0000_0000_0000 {
        -(bits - 0x8000_0000_0000_0000)
    } else {
        bits as int
    }
}

/// `a < b` on binary64 floats: false whenever either is a NaN.
pub open spec fn float_lt(a: u64, b: u64) -> bool {
    !float_is_nan(a) && !float_is_nan(b) && float_key(a) < float_key(b)
}

/// `a == b` on binary64 floats: false whenever either is a NaN, true of the
/// two zeros.
pub open spec fn float_eq(a: u64, b: u64) -> bool {
    !float_is_nan(a) && !float_is_nan(b) && float_key(a) == float_key(b)
}

/// `a <= b` on binary64 floats: false whenever either is a NaN.
pub open spec fn float_le(a: u64, b: u64) -> bool {
    float_lt(a, b) || float_eq(a, b)
}

/// Whether the bit pattern is neither a NaN nor an infinity.
pub open spec fn float_is_finite(bits: u64) -> bool {
    bits % 0x8000_0000_0000_0000 < 0x7FF0_0000_0000_0000
}

/// The bit pattern of the float as which a number takes part in comparisons.
pub open spec fn number_float(n: Number) -> u64 {
    match n {
        Number::PosInt(u) => float_of_nat(u as nat) as u64,
        Number::NegInt(i) => float_of_int(i as int) as u64,
        Number::Float(bits) => bits,
    }
}

/// Equality of numbers: both of the same kind and of the same value. An
/// integer and a float are never equal, whatever their values.
pub open spec fn number_eq(a: Number, b: Number) -> bool {
    match (a, b) {
        (Number::PosInt(x), Number::PosInt(y)) => x == y,
        (Number::NegInt(x), Number::NegInt(y)) => x == y,
        (Number::Float(x), Number::Float(y)) => float_eq(x, y),
        _ => false,
    }
}

/// `a < b` by value, each number taken as a float.
pub open spec fn number_lt(a: Number, b: Number) -> bool {
    float_lt(number_float(a), number_float(b))
}

/// `a <= b` by value, each number taken as a float.
pub open spec fn number_le(a: Number, b: Number) -> bool {
    float_le(number_float(a), number_float(b))
}

proof fn lemma_bit_length_bounds(n: nat)
    requires
        n > 0,
    ensures
        pow2((bit_length(n) - 1) as nat) <= n < pow2(bit_length(n)),
    decreases n,
{
    lemma2_to64();
    if n == 1 {
        assert(bit_length(1) == 1 + bit_length(0));
    } else {
        lemma_bit_length_bounds(n / 2);
        lemma_pow2_unfold(bit_length(n));
        lemma_pow2_unfold((bit_length(n) - 1) as nat);
    }
}

proof fn lemma_bit_length_unique(n: nat, k: nat)
    requires
        pow2(k) <= n < pow2(k + 1),
    ensures
        bit_length(n) == k + 1,
{
    lemma_pow2_pos(k);
    lemma_bit_length_bounds(n);
    let b = bit_length(n);
    if b < k + 1 {
        if b < k {
            lemma_pow2_strictly_increases(b, k);
        }
    } else if b > k + 1 {
        lemma_pow2_strictly_increases(k + 1, (b - 1) as nat);
    }
}

/// `2^e` for an exponent below 64.
fn power_of_two(e: u64) -> (r: u64)
    requires
        e < 64,
    ensures
        r == pow2(e as nat),
{
    let mut r: u64 = 1;
    let mut i: u64 = 0;
    proof {
        lemma2_to64();
    }
    while i < e
        invariant
            i <= e < 64,
            r == pow2(i as nat),
        decreases e - i,
    {
        proof {
            lemma_pow2_unfold((i + 1) as nat);
            lemma2_to64_rest();
            if i + 1 < 63 {
                lemma_pow2_strictly_increases((i + 1) as nat, 63);
            }
        }
        r = r * 2;
        i = i + 1;
    }
    r
}

/// The bit pattern of the float to which the unsigned integer `n` converts.
pub fn float_bits_from_u64(n: u64) -> (bits: u64)
    ensures
        bits == float_of_nat(n as nat),
{
    if n == 0 {
        return 0;
    }
    let mut k: u64 = 0;
    let mut d: u64 = 1;
    proof {
        lemma2_to64();
        lemma2_to64_rest();
    }
    while n / 2 >= d
        invariant
            d == pow2(k as nat),
            1 <= d <= n,
            k <= 63,
        decreases n - d,
    {
        proof {
            lemma_pow2_unfold((k + 1) as nat);
            lemma2_to64_rest();
            assert(k < 63);
        }
        d = d * 2;
        k = k + 1;
    }
    proof {
        lemma_pow2_unfold((k + 1) as nat);
        lemma_bit_length_unique(n as nat, k as nat);
    }
    let mantissa: u64 = if k <= 52 {
        let s = power_of_two(52 - k);
        proof {
            lemma_pow2_adds(k as nat, (52 - k) as nat);
            assert(n * s < 0x20_0000_0000_0000 && n * s >= 0x10_0000_0000_0000) by (nonlinear_arith)
                requires
                    d <= n < 2 * d,
                    d * s == 0x10_0000_0000_0000,
                    s >= 1,
            ;
        }
        n * s
    } else {
        let s = power_of_two(k - 52);
        proof {
            lemma_pow2_adds(52, (k - 52) as nat);
            assert(0x10_0000_0000_0000 <= n / s < 0x20_0000_0000_0000) by (nonlinear_arith)
                requires
                    d <= n < 2 * d,
                    0x10_0000_0000_0000 * s == d,
                    s >= 1,
            ;
        }
        let q = n / s;
        let r = n % s;
        if r > s - r || (r == s - r && q % 2 == 1) {
            q + 1
        } else {
            q
        }
    };
    (k + 1023) * FLOAT_HIDDEN_BIT + (mantissa - FLOAT_HIDDEN_BIT)
}

/// The bit pattern of the float to which the signed integer `i` converts.
pub fn float_bits_from_i64(i: i64) -> (bits: u64)
    ensures
        bits == float_of_int(i as int),
{
    if i >= 0 {
        float_bits_from_u64(i as u64)
    } else {
        let magnitude: u64 = if i == i64::MIN {
            0x8000_0000_0000_0000
        } else {
            (-i) as u64
        };
        let m = float_bits_from_u64(magnitude);
        proof {
            lemma_float_of_nat_range(magnitude as nat);
        }
        FLOAT_SIGN + m
    }
}

/// Converting an integer below `2^64` never sets the sign bit nor reaches infinity.
pub proof fn lemma_float_of_nat_range(n: nat)
    requires
        n < 0x1_0000_0000_0000_0000,
    ensures
        0 <= float_of_nat(n) < 0x7FF0_0000_0000_0000,
{
    if n > 0 {
        lemma2_to64();
        lemma2_to64_rest();
        lemma_bit_length_bounds(n);
        let b = bit_length(n);
        if b > 64 {
            lemma_pow2_strictly_increases(64, (b - 1) as nat);
        }
        let k = (b - 1) as nat;
        if k <= 52 {
            lemma_pow2_adds(k, (52 - k) as nat);
            lemma_pow2_unfold(b);
            let s = pow2((52 - k) as nat);
            let d = pow2(k);
            assert(n * s < 0x20_0000_0000_0000 && n * s >= 0x10_0000_0000_0000) by (nonlinear_arith)
                requires
                    d <= n < 2 * d,
                    d * s == 0x10_0000_0000_0000,
                    s >= 1,
            ;
        } else {
            lemma_pow2_adds(52, (k - 52) as nat);
            lemma_pow2_unfold(b);
            let s = pow2((k - 52) as nat);
            let d = pow2(k);
            lemma_pow2_strictly_increases(0, (k - 52) as nat);
            assert(0x10_0000_0000_0000 <= n / s < 0x20_0000_0000_0000) by (nonlinear_arith)
                requires
                    d <= n < 2 * d,
                    0x10_0000_0000_0000 * s == d,
                    s >= 1,
            ;
        }
    }
}

/// Where both bounds of `n` are known, so is the float: its exponent field is
/// that of the lower bound, and for `n < 2^53` its mantissa is `n` itself,
/// scaled.
proof fn lemma_float_of_exact(n: nat)
    requires
        0 < n < 0x20_0000_0000_0000,
    ensures
        bit_length(n) <= 53,
        (bit_length(n) - 1 + 1023) * 0x10_0000_0000_0000 <= float_of_nat(n) < (bit_length(n) + 1023)
            * 0x10_0000_0000_0000,
        float_of_nat(n) == (bit_length(n) - 1 + 1022) * 0x10_0000_0000_0000 + n * pow2(
            (53 - bit_length(n)) as nat,
        ),
{
    lemma2_to64();
    lemma2_to64_rest();
    lemma_bit_length_bounds(n);
    let b = bit_length(n);
    if b > 53 {
        lemma_pow2_strictly_increases(53, (b - 1) as nat);
    }
    let k = (b - 1) as nat;
    lemma_pow2_adds(k, (52 - k) as nat);
    lemma_pow2_unfold(b);
    let s = pow2((52 - k) as nat);
    let d = pow2(k);
    assert(n * s < 0x20_0000_0000_0000 && n * s >= 0x10_0000_0000_0000) by (nonlinear_arith)
        requires
            d <= n < 2 * d,
            d * s == 0x10_0000_0000_0000,
            s >= 1,
    ;
}

/// Integers below `2^53` are floats as they are, so numbers that hold such
/// integers compare as the integers do.
pub proof fn lemma_exact_integers_compare_by_value(a: u64, b: u64)
    requires
        a < 0x20_0000_0000_0000,
        b < 0x20_0000_0000_0000,
    ensures
        number_lt(Number::PosInt(a), Number::PosInt(b)) <==> a < b,
        number_le(Number::PosInt(a), Number::PosInt(b)) <==> a <= b,
{
    lemma_float_of_nat_range(a as nat);
    lemma_float_of_nat_range(b as nat);
    if a < b {
        lemma_float_of_nat_strict(a as nat, b as nat);
    } else if b < a {
        lemma_float_of_nat_strict(b as nat, a as nat);
    }
}

proof fn lemma_float_of_nat_strict(a: nat, b: nat)
    requires
        a < b < 0x20_0000_0000_0000,
    ensures
        float_of_nat(a) < float_of_nat(b),
{
    lemma_float_of_exact(b);
    if a > 0 {
        lemma_float_of_exact(a);
        lemma_bit_length_bounds(a);
        lemma_bit_length_bounds(b);
        let ka = bit_length(a);
        let kb = bit_length(b);
        if ka > kb {
            if kb < ka - 1 {
                lemma_pow2_strictly_increases(kb, (ka - 1) as nat);
            }
        }
        if ka == kb {
            let s = pow2((53 - ka) as nat);
            lemma_pow2_pos((53 - ka) as nat);
            assert(a * s < b * s) by (nonlinear_arith)
                requires
                    a < b,
                    s >= 1,
            ;
        } else {
            assert((ka + 1023) * 0x10_0000_0000_0000 <= (kb - 1 + 1023) * 0x10_0000_0000_0000)
                by (nonlinear_arith)
                requires
                    ka < kb,
            ;
        }
    }
}

/// `a < b` on the floats with these bit patterns.
pub fn float_bits_lt(a: u64, b: u64) -> (r: bool)
    ensures
        r == float_lt(a, b),
{
    if a % FLOAT_SIGN > FLOAT_INFINITY || b % FLOAT_SIGN > FLOAT_INFINITY {
        return false;
    }
    if a >= FLOAT_SIGN {
        if b >= FLOAT_SIGN {
            b < a
        } else {
            a > FLOAT_SIGN || b > 0
        }
    } else {
        b < FLOAT_SIGN && a < b
    }
}

/// `a == b` on the floats with these bit patterns.
pub fn float_bits_eq(a: u64, b: u64) -> (r: bool)
    ensures
        r == float_eq(a, b),
{
    if a % FLOAT_SIGN > FLOAT_INFINITY || b % FLOAT_SIGN > FLOAT_INFINITY {
        return false;
    }
    a == b || (a % FLOAT_SIGN == 0 && b % FLOAT_SIGN == 0)
}

/// `a <= b` on the floats with these bit patterns.
pub fn float_bits_le(a: u64, b: u64) -> (r: bool)
    ensures
        r == float_le(a, b),
{
    float_bits_lt(a, b) || float_bits_eq(a, b)
}

impl Number {
    /// The number for an unsigned integer.
    pub fn from_u64(u: u64) -> (n: Number)
        ensures
            n == Number::PosInt(u),
    {
        Number::PosInt(u)
    }

    /// The number for a signed integer: a `NegInt` only when it is negative.
    pub fn from_i64(i: i64) -> (n: Number)
        ensures
            i < 0 ==> n == Number::NegInt(i),
            i >= 0 ==> n == Number::PosInt(i as u64),
    {
        if i < 0 {
            Number::NegInt(i)
        } else {
            Number::PosInt(i as u64)
        }
    }

    /// The number for the float with this bit pattern, unless that is a NaN
    /// or an infinity, which JSON cannot hold.
    pub fn from_float_bits(bits: u64) -> (n: Option<Number>)
        ensures
            float_is_finite(bits) ==> n == Some(Number::Float(bits)),
            !float_is_finite(bits) ==> n is None,
    {
        if bits % FLOAT_SIGN < FLOAT_INFINITY {
            Some(Number::Float(bits))
        } else {
            None
        }
    }

    /// The value when the number is a non-negative integer.
    pub fn as_u64(&self) -> (r: Option<u64>)
        ensures
            r == match *self {
                Number::PosInt(u) => Some(u),
                _ => None::<u64>,
            },
    {
        match self {
            Number::PosInt(u) => Some(*u),
            _ => None,
        }
    }

    /// The value when the number is an integer that fits an `i64`.
    pub fn as_i64(&self) -> (r: Option<i64>)
        ensures
            r == match *self {
                Number::PosInt(u) => if u <= i64::MAX {
                    Some(u as i64)
                } else {
                    None
                },
                Number::NegInt(i) => Some(i),
                Number::Float(_) => None::<i64>,
            },
    {
        match self {
            Number::PosInt(u) => if *u <= 0x7FFF_FFFF_FFFF_FFFF {
                Some(*u as i64)
            } else {
                None
            },
            Number::NegInt(i) => Some(*i),
            Number::Float(_) => None,
        }
    }

    /// The bit pattern of the number as a float: an integer converts to the
    /// nearest float.
    pub fn as_float_bits(&self) -> (bits: u64)
        ensures
            bits == number_float(*self),
    {
        match self {
            Number::PosInt(u) => {
                proof {
                    lemma_float_of_nat_range(*u as nat);
                }
                float_bits_from_u64(*u)
            },
            Number::NegInt(i) => {
                proof {
                    if *i >= 0 {
                        lemma_float_of_nat_range(*i as nat);
                    } else {
                        lemma_float_of_nat_range((-*i) as nat);
                    }
                }
                float_bits_from_i64(*i)
            },
            Number::Float(bits) => *bits,
        }
    }

    /// `self < other` by value.
    pub fn lt(&self, other: &Number) -> (r: bool)
        ensures
            r == number_lt(*self, *other),
    {
        float_bits_lt(self.as_float_bits(), other.as_float_bits())
    }

    /// `self <= other` by value.
    pub fn le(&self, other: &Number) -> (r: bool)
        ensures
            r == number_le(*self, *other),
    {
        float_bits_le(self.as_float_bits(), other.as_float_bits())
    }
}

impl PartialEq for Number {
    fn eq(&self, other: &Self) -> (r: bool) {
        match (self, other) {
            (Number::PosInt(x), Number::PosInt(y)) => *x == *y,
            (Number::NegInt(x), Number::NegInt(y)) => *x == *y,
            (Number::Float(x), Number::Float(y)) => float_bits_eq(*x, *y),
            _ => false,
        }
    }
}

impl vstd::std_specs::cmp::PartialEqSpecImpl for Number {
    open spec fn obeys_eq_spec() -> bool {
        true
    }

    open spec fn eq_spec(&self, other: &Self) -> bool {
        number_eq(*self, *other)
    }
}

} // verus!

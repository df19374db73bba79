//! Exact rational numbers with `i64` numerator and denominator.
//!
//! Every arithmetic result is brought to lowest terms; a result whose
//! reduced numerator or denominator does not fit in an `i64` is reported
//! as `None`, which the evaluator surfaces as a non-representable result.

use vstd::prelude::*;

verus! {

/// A rational number `num / den`.
///
/// Constructors and arithmetic keep values well formed (`den >= 1`,
/// `num > i64::MIN`) and in lowest terms; treat the fields as read-only.
#[derive(Debug, Clone, Copy, PartialEq, Eq, Structural)]
pub struct Value {
    pub num: i64,
    pub den: i64,
}

/// Greatest common divisor by Euclid's algorithm.
pub open spec fn spec_gcd(a: nat, b: nat) -> nat
    decreases b,
{
    if b == 0 {
        a
    } else {
        spec_gcd(b, a % b)
    }
}

/// `10^k`, used to give fractional digit runs their denominator.
pub open spec fn pow10(k: nat) -> int
    decreases k,
{
    if k == 0 {
        1
    } else {
        10 * pow10((k - 1) as nat)
    }
}

/// The reduced form of `n / d` as a `Value`, or `None` when the reduced
/// numerator or denominator falls outside the `i64` range.
pub open spec fn spec_norm(n: int, d: int) -> Option<Value> {
    let mag = if n < 0 {
        -n
    } else {
        n
    };
    let g = spec_gcd(mag as nat, d as nat) as int;
    let nn = mag / g;
    let dd = d / g;
    if nn <= i64::MAX && 1 <= dd <= i64::MAX {
        Some(
            Value {
                num: if n < 0 {
                    (-nn) as i64
                } else {
                    nn as i64
                },
                den: dd as i64,
            },
        )
    } else {
        None
    }
}

pub open spec fn spec_add(a: Value, b: Value) -> Option<Value> {
    spec_norm(a.num * b.den + b.num * a.den, a.den * b.den)
}

pub open spec fn spec_sub(a: Value, b: Value) -> Option<Value> {
    spec_norm(a.num * b.den - b.num * a.den, a.den * b.den)
}

pub open spec fn spec_mul(a: Value, b: Value) -> Option<Value> {
    spec_norm(a.num * b.num, a.den * b.den)
}

/// The reciprocal of a nonzero value; the sign stays on the numerator.
pub open spec fn spec_recip(a: Value) -> Value {
    if a.num > 0 {
        Value { num: a.den, den: a.num }
    } else {
        Value { num: (-a.den) as i64, den: (-a.num) as i64 }
    }
}

pub open spec fn spec_div(a: Value, b: Value) -> Option<Value> {
    spec_mul(a, spec_recip(b))
}

pub open spec fn spec_neg(a: Value) -> Value {
    Value { num: (-a.num) as i64, den: a.den }
}

/// `b^k` for a natural exponent, `None` as soon as a partial product
/// leaves the representable range.
pub open spec fn spec_pow_nat(b: Value, k: nat) -> Option<Value>
    decreases k,
{
    if k == 0 {
        Some(Value { num: 1, den: 1 })
    } else {
        match spec_pow_nat(b, (k - 1) as nat) {
            Some(p) => spec_mul(p, b),
            None => None,
        }
    }
}

/// A divisor at least one has a positive greatest common divisor with
/// anything.
pub proof fn lemma_gcd_pos(a: nat, b: nat)
    requires
        1 <= b,
    ensures
        1 <= spec_gcd(a, b),
    decreases b,
{
    if a % b != 0 {
        lemma_gcd_pos(b, a % b);
    } else {
        assert(spec_gcd(a, b) == spec_gcd(b, 0));
        assert(spec_gcd(b, 0) == b);
    }
}

/// The greatest common divisor never exceeds a positive second
/// argument.
pub proof fn lemma_gcd_le(a: nat, b: nat)
    requires
        1 <= b,
    ensures
        spec_gcd(a, b) <= b,
    decreases b,
{
    if a % b != 0 {
        lemma_gcd_le(b, a % b);
    } else {
        assert(spec_gcd(a, b) == spec_gcd(b, 0));
        assert(spec_gcd(b, 0) == b);
    }
}

/// A fraction whose parts already lie in the `i64` range always
/// reduces to a `Value`.
pub proof fn lemma_norm_fits(n: int, d: int)
    requires
        0 <= n <= i64::MAX,
        1 <= d <= i64::MAX,
    ensures
        spec_norm(n, d) is Some,
{
    let g = spec_gcd(n as nat, d as nat) as int;
    lemma_gcd_pos(n as nat, d as nat);
    lemma_gcd_le(n as nat, d as nat);
    vstd::arithmetic::div_mod::lemma_div_pos_is_pos(n, g);
    vstd::arithmetic::div_mod::lemma_div_nonincreasing(n, g);
    vstd::arithmetic::div_mod::lemma_div_pos_is_pos(d, g);
    vstd::arithmetic::div_mod::lemma_div_nonincreasing(d, g);
    vstd::arithmetic::div_mod::lemma_fundamental_div_mod(d, g);
    vstd::arithmetic::div_mod::lemma_mod_division_less_than_divisor(d, g);
    assert(d / g >= 1) by (nonlinear_arith)
        requires
            1 <= g <= d,
            d == g * (d / g) + d % g,
            0 <= d % g < g,
    ;
}

/// Whatever `spec_norm` packs is well formed.
pub proof fn lemma_norm_wf(n: int, d: int)
    requires
        1 <= d,
    ensures
        spec_norm(n, d) matches Some(v) ==> v.wf(),
{
    let mag = if n < 0 {
        -n
    } else {
        n
    };
    lemma_gcd_pos(mag as nat, d as nat);
    vstd::arithmetic::div_mod::lemma_div_pos_is_pos(mag, spec_gcd(mag as nat, d as nat) as int);
}

proof fn lemma_abs_mul_le(a: int, b: int, m: int, n: int)
    by (nonlinear_arith)
    requires
        0 <= m,
        0 <= n,
        -m <= a <= m,
        -n <= b <= n,
    ensures
        -(m * n) <= a * b <= m * n,
{
}

proof fn lemma_mul_ge_one(a: int, b: int)
    by (nonlinear_arith)
    requires
        1 <= a,
        1 <= b,
    ensures
        1 <= a * b,
{
}

/// Once a partial power is unrepresentable, every later power is too.
pub proof fn lemma_pow_none(b: Value, i: nat, k: nat)
    requires
        i <= k,
        spec_pow_nat(b, i) is None,
    ensures
        spec_pow_nat(b, k) is None,
    decreases k,
{
    if k > i {
        lemma_pow_none(b, i, (k - 1) as nat);
    }
}

fn gcd_u128(a: u128, b: u128) -> (g: u128)
    requires
        1 <= b,
    ensures
        g == spec_gcd(a as nat, b as nat),
        1 <= g,
{
    let mut x = a;
    let mut y = b;
    while y != 0
        invariant
            spec_gcd(x as nat, y as nat) == spec_gcd(a as nat, b as nat),
            1 <= x || 1 <= y,
        decreases y,
    {
        let r: u128 = x % y;
        x = y;
        y = r;
    }
    x
}

impl Value {
    pub open spec fn wf(self) -> bool {
        1 <= self.den && i64::MIN < self.num
    }

    /// Reduce `n / d` and pack it into a `Value` if it fits.
    pub(crate) fn norm_i128(n: i128, d: i128) -> (r: Option<Value>)
        requires
            1 <= d,
            i128::MIN < n,
        ensures
            r == spec_norm(n as int, d as int),
            r matches Some(v) ==> v.wf(),
    {
        let neg = n < 0;
        let mag: u128 = if neg {
            (-n) as u128
        } else {
            n as u128
        };
        let dm: u128 = d as u128;
        let g = gcd_u128(mag, dm);
        let nn = mag / g;
        let dd = dm / g;
        let max = i64::MAX as u128;
        if nn <= max && 1 <= dd && dd <= max {
            let num: i64 = if neg {
                -(nn as i64)
            } else {
                nn as i64
            };
            Some(Value { num, den: dd as i64 })
        } else {
            None
        }
    }

    /// The integer `n` as a rational.
    pub fn from_int(n: i64) -> (r: Value)
        requires
            i64::MIN < n,
        ensures
            r == (Value { num: n, den: 1 }),
            r.wf(),
    {
        Value { num: n, den: 1 }
    }

    pub fn is_zero(&self) -> (r: bool)
        ensures
            r == (self.num == 0),
    {
        self.num == 0
    }

    pub fn add(self, other: Value) -> (r: Option<Value>)
        requires
            self.wf(),
            other.wf(),
        ensures
            r == spec_add(self, other),
            r matches Some(v) ==> v.wf(),
    {
        proof {
            lemma_abs_mul_le(self.num as int, other.den as int, i64::MAX as int, i64::MAX as int);
            lemma_abs_mul_le(other.num as int, self.den as int, i64::MAX as int, i64::MAX as int);
            lemma_abs_mul_le(self.den as int, other.den as int, i64::MAX as int, i64::MAX as int);
            lemma_mul_ge_one(self.den as int, other.den as int);
        }
        let n: i128 = (self.num as i128) * (other.den as i128) + (other.num as i128) * (self.den
            as i128);
        let d: i128 = (self.den as i128) * (other.den as i128);
        Self::norm_i128(n, d)
    }

    pub fn sub(self, other: Value) -> (r: Option<Value>)
        requires
            self.wf(),
            other.wf(),
        ensures
            r == spec_sub(self, other),
            r matches Some(v) ==> v.wf(),
    {
        proof {
            lemma_abs_mul_le(self.num as int, other.den as int, i64::MAX as int, i64::MAX as int);
            lemma_abs_mul_le(other.num as int, self.den as int, i64::MAX as int, i64::MAX as int);
            lemma_abs_mul_le(self.den as int, other.den as int, i64::MAX as int, i64::MAX as int);
            lemma_mul_ge_one(self.den as int, other.den as int);
        }
        let n: i128 = (self.num as i128) * (other.den as i128) - (other.num as i128) * (self.den
            as i128);
        let d: i128 = (self.den as i128) * (other.den as i128);
        Self::norm_i128(n, d)
    }

    pub fn mul(self, other: Value) -> (r: Option<Value>)
        requires
            self.wf(),
            other.wf(),
        ensures
            r == spec_mul(self, other),
            r matches Some(v) ==> v.wf(),
    {
        proof {
            lemma_abs_mul_le(self.num as int, other.num as int, i64::MAX as int, i64::MAX as int);
            lemma_abs_mul_le(self.den as int, other.den as int, i64::MAX as int, i64::MAX as int);
            lemma_mul_ge_one(self.den as int, other.den as int);
        }
        let n: i128 = (self.num as i128) * (other.num as i128);
        let d: i128 = (self.den as i128) * (other.den as i128);
        Self::norm_i128(n, d)
    }

    pub fn recip(self) -> (r: Value)
        requires
            self.wf(),
            self.num != 0,
        ensures
            r == spec_recip(self),
            r.wf(),
            r.num != 0,
    {
        if self.num > 0 {
            Value { num: self.den, den: self.num }
        } else {
            Value { num: -self.den, den: -self.num }
        }
    }

    pub fn div(self, other: Value) -> (r: Option<Value>)
        requires
            self.wf(),
            other.wf(),
            other.num != 0,
        ensures
            r == spec_div(self, other),
            r matches Some(v) ==> v.wf(),
    {
        self.mul(other.recip())
    }

    pub fn neg(self) -> (r: Value)
        requires
            self.wf(),
        ensures
            r == spec_neg(self),
            r.wf(),
    {
        Value { num: -self.num, den: self.den }
    }

    /// `self^k` by repeated multiplication; `None` on the first partial
    /// product that leaves the representable range.
    pub fn pow_nat(self, k: u64) -> (r: Option<Value>)
        requires
            self.wf(),
        ensures
            r == spec_pow_nat(self, k as nat),
            r matches Some(v) ==> v.wf(),
    {
        let mut acc = Value { num: 1, den: 1 };
        let mut i: u64 = 0;
        while i < k
            invariant
                i <= k,
                self.wf(),
                acc.wf(),
                Some(acc) == spec_pow_nat(self, i as nat),
            decreases k - i,
    {
            match acc.mul(self) {
                Some(v) => {
                    acc = v;
                },
                None => {
                    proof {
                        lemma_pow_none(self, (i + 1) as nat, k as nat);
                    }
                    return None;
                },
            }
            i = i + 1;
        }
        Some(acc)
    }

    pub fn num(&self) -> (r: i64)
        ensures
            r == self.num,
    {
        self.num
    }

    pub fn den(&self) -> (r: i64)
        ensures
            r == self.den,
    {
        self.den
    }
}

} // verus!

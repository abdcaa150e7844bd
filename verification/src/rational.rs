//! Exact fractions in lowest terms.

use vstd::arithmetic::div_mod::*;
use vstd::arithmetic::mul::*;
use vstd::prelude::*;

use crate::text::{
    all_digits, append_int, digits, digits_value, int_text, lemma_digits_leading, lemma_digits_value,
    lemma_padded_value, padded, pow10,
};
use core::cmp::Ordering;
use vstd::std_specs::cmp::PartialOrdSpecImpl;
use crate::Error;

verus! {

/// Greatest common divisor by Euclid's algorithm; `gcd(a, 0) == a`.
pub open spec fn gcd(a: nat, b: nat) -> nat
    decreases b,
{
    if b == 0 {
        a
    } else {
        gcd(b, a % b)
    }
}

pub open spec fn abs(x: int) -> nat {
    if x < 0 {
        (-x) as nat
    } else {
        x as nat
    }
}

/// `n / d` in lowest terms with a positive denominator (`d != 0`).
pub open spec fn reduce(n: int, d: int) -> (int, int) {
    let g = gcd(abs(n), abs(d));
    let mag = abs(n) / g;
    (if (n < 0) != (d < 0) {
        -mag
    } else {
        mag as int
    }, (abs(d) / g) as int)
}

/// The pair fits the `i64` fields of a `Rational`.
pub open spec fn fits_i64(p: (int, int)) -> bool {
    i64::MIN <= p.0 <= i64::MAX && 1 <= p.1 <= i64::MAX
}

/// What turning `n / d` into a `Rational` gives: `ZeroDenominator` for
/// `d == 0`, `Overflow` when the reduced fraction does not fit in `i64`,
/// otherwise the reduced fraction.
pub open spec fn rational_result(n: int, d: int, r: Result<Rational, Error>) -> bool {
    if d == 0 {
        r == Err::<Rational, Error>(Error::ZeroDenominator)
    } else if fits_i64(reduce(n, d)) {
        r matches Ok(q) && (q.numer() as int, q.denom() as int) == reduce(n, d)
    } else {
        r == Err::<Rational, Error>(Error::Overflow)
    }
}

/// `x + y` for fractions given as (numerator, denominator) pairs.
pub open spec fn frac_add(x: (int, int), y: (int, int)) -> (int, int) {
    (x.0 * y.1 + y.0 * x.1, x.1 * y.1)
}

/// Two fractions with non-zero denominators have the same value.
pub open spec fn same_value(x: (int, int), y: (int, int)) -> bool {
    x.0 * y.1 == y.0 * x.1
}

pub proof fn lemma_same_value_trans(x: (int, int), y: (int, int), z: (int, int))
    requires
        y.1 > 0,
        same_value(x, y),
        same_value(y, z),
    ensures
        same_value(x, z),
{
    assert(x.0 * z.1 * y.1 == z.0 * x.1 * y.1) by (nonlinear_arith)
        requires
            x.0 * y.1 == y.0 * x.1,
            y.0 * z.1 == z.0 * y.1,
    ;
    assert(x.0 * z.1 == z.0 * x.1) by (nonlinear_arith)
        requires
            x.0 * z.1 * y.1 == z.0 * x.1 * y.1,
            y.1 > 0,
    ;
}

/// Adding fractions of equal values gives equal values.
pub proof fn lemma_frac_add_congruent(x: (int, int), x2: (int, int), y: (int, int), y2: (int, int))
    requires
        same_value(x, x2),
        same_value(y, y2),
    ensures
        same_value(frac_add(x, y), frac_add(x2, y2)),
        frac_add(x, y).1 == x.1 * y.1,
{
    let (a, b) = x;
    let (a2, b2) = x2;
    let (c, d) = y;
    let (c2, d2) = y2;
    assert(a * d * (b2 * d2) == a2 * d2 * (b * d)) by (nonlinear_arith)
        requires
            a * b2 == a2 * b,
    ;
    assert(c * b * (b2 * d2) == c2 * b2 * (b * d)) by (nonlinear_arith)
        requires
            c * d2 == c2 * d,
    ;
    assert((a * d + c * b) * (b2 * d2) == a * d * (b2 * d2) + c * b * (b2 * d2)) by (nonlinear_arith);
    assert((a2 * d2 + c2 * b2) * (b * d) == a2 * d2 * (b * d) + c2 * b2 * (b * d)) by (nonlinear_arith);
}

/// The sum of the fractions `t(0), ..., t(n - 1)`, added left to right.
pub open spec fn frac_sum(t: spec_fn(int) -> (int, int), n: int) -> (int, int)
    decreases n,
{
    if n <= 0 {
        (0, 1)
    } else {
        frac_add(frac_sum(t, n - 1), t(n - 1))
    }
}

/// Adding a term to a running sum kept over a common denominator `l`.
pub proof fn lemma_sum_step(s: (int, int), total: int, l: int, t: (int, int), a: int)
    requires
        s.1 > 0,
        t.1 > 0,
        l > 0,
        same_value(s, (total, l)),
        same_value(t, (a, l)),
    ensures
        same_value(frac_add(s, t), (total + a, l)),
        frac_add(s, t).1 > 0,
{
    lemma_frac_add_congruent(s, (total, l), t, (a, l));
    assert((total * l + a * l) * l == (total + a) * (l * l)) by (nonlinear_arith);
    assert(l * l > 0) by (nonlinear_arith)
        requires
            l > 0,
    ;
    assert(s.1 * t.1 > 0) by (nonlinear_arith)
        requires
            s.1 > 0,
            t.1 > 0,
    ;
    lemma_same_value_trans(frac_add(s, t), frac_add((total, l), (a, l)), (total + a, l));
}

/// Positive denominators multiply to a positive denominator.
pub proof fn lemma_den_positive(a: int, b: int)
    requires
        a > 0,
        b > 0,
    ensures
        a * b > 0,
{
    assert(a * b > 0) by (nonlinear_arith)
        requires
            a > 0,
            b > 0,
    ;
}

proof fn lemma_mul_divisible(d: int, k: int)
    requires
        d > 0,
    ensures
        (d * k) % d == 0,
{
    lemma_mul_is_commutative(d, k);
    lemma_mod_multiples_basic(k, d);
}

proof fn lemma_divisible_witness(n: int, d: int)
    requires
        d > 0,
        n % d == 0,
    ensures
        n == d * (n / d),
{
    lemma_fundamental_div_mod(n, d);
}

/// `gcd(a, b)` is positive unless both are zero, and divides both.
pub proof fn lemma_gcd_divides(a: nat, b: nat)
    requires
        a > 0 || b > 0,
    ensures
        gcd(a, b) > 0,
        a % gcd(a, b) == 0,
        b % gcd(a, b) == 0,
    decreases b,
{
    if b == 0 {
        lemma_mod_self_0(a as int);
        lemma_small_mod(0, a);
    } else {
        let r = a % b;
        lemma_gcd_divides(b, r);
        let g = gcd(b, r);
        lemma_fundamental_div_mod(a as int, b as int);
        let q = a / b;
        lemma_divisible_witness(b as int, g as int);
        lemma_divisible_witness(r as int, g as int);
        let x = b / g;
        let y = r / g;
        assert(a == g * (x * q + y)) by (nonlinear_arith)
            requires
                a == b * q + r,
                b == g * x,
                r == g * y,
        ;
        lemma_mul_divisible(g as int, (x * q + y) as int);
    }
}

/// Every common divisor of `a` and `b` divides `gcd(a, b)`.
pub proof fn lemma_common_divisor_divides_gcd(a: nat, b: nat, e: nat)
    requires
        e > 0,
        a % e == 0,
        b % e == 0,
    ensures
        gcd(a, b) % e == 0,
    decreases b,
{
    if b != 0 {
        let r = a % b;
        lemma_fundamental_div_mod(a as int, b as int);
        let q = a / b;
        lemma_divisible_witness(a as int, e as int);
        lemma_divisible_witness(b as int, e as int);
        let x = a / e;
        let y = b / e;
        assert(r == e * (x - y * q)) by (nonlinear_arith)
            requires
                a == b * q + r,
                a == e * x,
                b == e * y,
        ;
        lemma_mul_divisible(e as int, x - y * q);
        lemma_common_divisor_divides_gcd(b, r, e);
    }
}

/// Dividing both numbers by their gcd leaves coprime numbers.
pub proof fn lemma_reduced_is_coprime(a: nat, b: nat)
    requires
        b > 0,
    ensures
        gcd(a / gcd(a, b), b / gcd(a, b)) == 1,
{
    let g = gcd(a, b);
    lemma_gcd_divides(a, b);
    lemma_divisible_witness(a as int, g as int);
    lemma_divisible_witness(b as int, g as int);
    let a1 = a / g;
    let b1 = b / g;
    assert(b1 > 0) by (nonlinear_arith)
        requires
            b == g * b1,
            b > 0,
            g > 0,
    ;
    lemma_gcd_divides(a1, b1);
    let h = gcd(a1, b1);
    lemma_divisible_witness(a1 as int, h as int);
    lemma_divisible_witness(b1 as int, h as int);
    let a2 = a1 / h;
    let b2 = b1 / h;
    assert(a == (h * g) * a2 && b == (h * g) * b2) by (nonlinear_arith)
        requires
            a == g * a1,
            b == g * b1,
            a1 == h * a2,
            b1 == h * b2,
    ;
    assert(h * g > 0) by (nonlinear_arith)
        requires
            h > 0,
            g > 0,
    ;
    lemma_mul_divisible((h * g) as int, a2 as int);
    lemma_mul_divisible((h * g) as int, b2 as int);
    lemma_common_divisor_divides_gcd(a, b, (h * g) as nat);
    lemma_divisible_witness(g as int, (h * g) as int);
    let t = g / (h * g);
    assert(h == 1) by (nonlinear_arith)
        requires
            g == (h * g) * t,
            g > 0,
            h > 0,
    ;
}

/// Scaling both numbers scales their remainder: `(k·x) mod (k·y) = k·(x mod y)`.
proof fn lemma_mod_scale(k: nat, x: nat, y: nat)
    requires
        k > 0,
        y > 0,
    ensures
        (k * x) % (k * y) == k * (x % y),
{
    lemma_fundamental_div_mod(x as int, y as int);
    let q = x / y;
    let r = x % y;
    assert(k * x == q * (k * y) + k * r && 0 <= k * r < k * y) by (nonlinear_arith)
        requires
            x == y * q + r,
            0 <= r < y,
            k > 0,
    ;
    lemma_fundamental_div_mod_converse((k * x) as int, (k * y) as int, q as int, (k * r) as int);
}

/// Scaling both numbers scales their gcd: `gcd(k·x, k·y) = k·gcd(x, y)`.
proof fn lemma_gcd_scale(k: nat, x: nat, y: nat)
    requires
        k > 0,
    ensures
        gcd(k * x, k * y) == k * gcd(x, y),
    decreases y,
{
    if y == 0 {
        assert(k * y == 0);
    } else {
        assert(k * y > 0) by (nonlinear_arith)
            requires
                k > 0,
                y > 0,
        ;
        lemma_mod_scale(k, x, y);
        lemma_gcd_scale(k, y, x % y);
    }
}

/// A number that divides `a·d` and shares no factor with `a` divides `d`.
proof fn lemma_coprime_divides(a: nat, b: nat, d: nat)
    requires
        b > 0,
        d > 0,
        gcd(a, b) == 1,
        ((a * d) as int) % (b as int) == 0,
    ensures
        d % b == 0,
{
    lemma_gcd_scale(d, a, b);
    lemma_mul_is_commutative(a as int, d as int);
    lemma_mul_divisible(b as int, d as int);
    lemma_mul_is_commutative(b as int, d as int);
    lemma_common_divisor_divides_gcd(d * a, d * b, b);
}

/// Fractions in lowest terms with positive denominators and the same value
/// are the same fraction: the lowest-terms form of a value is unique.
pub proof fn lemma_reduced_unique(a: int, b: int, c: int, d: int)
    requires
        b > 0,
        d > 0,
        gcd(abs(a), b as nat) == 1,
        gcd(abs(c), d as nat) == 1,
        a * d == c * b,
    ensures
        a == c,
        b == d,
{
    let (x, y) = (abs(a), abs(c));
    assert(x * d == y * b) by (nonlinear_arith)
        requires
            a * d == c * b,
            b > 0,
            d > 0,
            x == (if a < 0 { -a } else { a }),
            y == (if c < 0 { -c } else { c }),
    ;
    lemma_mul_divisible(b, y as int);
    lemma_mul_is_commutative(b, y as int);
    lemma_coprime_divides(x, b as nat, d as nat);
    lemma_mul_divisible(d, x as int);
    lemma_mul_is_commutative(d, x as int);
    lemma_coprime_divides(y, d as nat, b as nat);
    lemma_divisible_witness(d, b);
    lemma_divisible_witness(b, d);
    let (m, n) = (d / b, b / d);
    assert(b == d) by (nonlinear_arith)
        requires
            d == b * m,
            b == d * n,
            b > 0,
            d > 0,
    ;
    assert(a == c) by (nonlinear_arith)
        requires
            a * d == c * b,
            b == d,
            d > 0,
    ;
}

/// Rationals in lowest terms with the same value are the same rational.
pub proof fn lemma_value_determines(x: Rational, y: Rational)
    requires
        x.in_lowest_terms(),
        y.in_lowest_terms(),
        same_value((x.numer() as int, x.denom() as int), (y.numer() as int, y.denom() as int)),
    ensures
        x == y,
{
    lemma_reduced_unique(x.num as int, x.den as int, y.num as int, y.den as int);
}

/// `gcd(a, 1) == 1`.
pub proof fn lemma_gcd_one(a: nat)
    ensures
        gcd(a, 1) == 1,
{
    assert(a % 1 == 0);
    assert(gcd(1, 0) == 1);
}

/// The reduced form of a fraction with a non-zero denominator has the same
/// value, a positive denominator, coprime terms, and is no larger in either
/// term.
pub proof fn lemma_reduce(n: int, d: int)
    requires
        d != 0,
    ensures
        reduce(n, d).1 > 0,
        gcd(abs(reduce(n, d).0), reduce(n, d).1 as nat) == 1,
        reduce(n, d).0 * d == n * reduce(n, d).1,
        abs(reduce(n, d).0) <= abs(n),
        reduce(n, d).1 <= abs(d),
{
    let g = gcd(abs(n), abs(d));
    lemma_gcd_divides(abs(n), abs(d));
    lemma_reduced_is_coprime(abs(n), abs(d));
    lemma_divisible_witness(abs(n) as int, g as int);
    lemma_divisible_witness(abs(d) as int, g as int);
    let a = abs(n) / g;
    let b = abs(d) / g;
    assert(b > 0 && a <= abs(n) && b <= abs(d)) by (nonlinear_arith)
        requires
            abs(n) == g * a,
            abs(d) == g * b,
            abs(d) > 0,
            g > 0,
    ;
    let r = reduce(n, d);
    assert(abs(r.0) == a);
    assert(a * abs(d) == abs(n) * b) by (nonlinear_arith)
        requires
            abs(n) == g * a,
            abs(d) == g * b,
    ;
    if n < 0 && d < 0 {
        assert(r.0 * d == n * r.1) by (nonlinear_arith)
            requires
                r.0 == a,
                r.1 == b,
                a * (-d) == (-n) * b,
        ;
    } else if n < 0 {
        assert(r.0 * d == n * r.1) by (nonlinear_arith)
            requires
                r.0 == -a,
                r.1 == b,
                a * d == (-n) * b,
        ;
    } else if d < 0 {
        assert(r.0 * d == n * r.1) by (nonlinear_arith)
            requires
                r.0 == -a,
                r.1 == b,
                a * (-d) == n * b,
        ;
    } else {
        assert(r.0 * d == n * r.1);
    }
}

/// A fraction whose terms fit in `i64` reduces to one that fits.
pub proof fn lemma_fits_when_small(n: int, d: int)
    requires
        d != 0,
        -i64::MAX <= n <= i64::MAX,
        -i64::MAX <= d <= i64::MAX,
    ensures
        fits_i64(reduce(n, d)),
{
    lemma_reduce(n, d);
}

/// The `Rational` made from `n / d` has the value `n / d`.
pub proof fn lemma_result_value(n: int, d: int, r: Result<Rational, Error>)
    requires
        d != 0,
        rational_result(n, d, r),
        fits_i64(reduce(n, d)),
    ensures
        r matches Ok(q) && q.equals_fraction(n, d),
{
    lemma_reduce(n, d);
}

/// An exact fraction with an `i64` numerator and a positive `i64` denominator,
/// always stored in lowest terms. Arithmetic is done in `i128` and fails with
/// [`Error::Overflow`] if the reduced result does not fit back into `i64`.
#[derive(Clone, Copy, PartialEq, Eq, Structural, Hash, Debug)]
pub struct Rational {
    num: i64,
    den: i64,
}

fn gcd_u128(a: u128, b: u128) -> (g: u128)
    ensures
        g == gcd(a as nat, b as nat),
{
    let mut x = a;
    let mut y = b;
    while y != 0
        invariant
            gcd(x as nat, y as nat) == gcd(a as nat, b as nat),
        decreases y,
    {
        let r = x % y;
        x = y;
        y = r;
    }
    x
}

fn magnitude(x: i128) -> (m: u128)
    ensures
        m == abs(x as int),
{
    if x < 0 {
        ((-(x + 1)) as u128) + 1
    } else {
        x as u128
    }
}

impl Rational {
    #[verifier::type_invariant]
    spec fn lowest_terms(self) -> bool {
        &&& self.den > 0
        &&& gcd(abs(self.num as int), self.den as nat) == 1
    }

    pub closed spec fn spec_numer(self) -> i64 {
        self.num
    }

    pub closed spec fn spec_denom(self) -> i64 {
        self.den
    }

    /// The stored terms are coprime and the denominator positive, as they
    /// always are.
    pub open spec fn in_lowest_terms(self) -> bool {
        self.denom() > 0 && gcd(abs(self.numer() as int), self.denom() as nat) == 1
    }

    /// The value equals `n / d` (with `d > 0`).
    pub open spec fn equals_fraction(self, n: int, d: int) -> bool {
        same_value((self.numer() as int, self.denom() as int), (n, d))
    }

    pub fn new(num: i64, den: i64) -> (r: Result<Rational, Error>)
        ensures
            rational_result(num as int, den as int, r),
    {
        Rational::from_i128(num as i128, den as i128)
    }

    fn from_i128(num: i128, den: i128) -> (r: Result<Rational, Error>)
        ensures
            rational_result(num as int, den as int, r),
    {
        if den == 0 {
            return Err(Error::ZeroDenominator);
        }
        proof {
            lemma_reduce(num as int, den as int);
        }
        let an = magnitude(num);
        let ad = magnitude(den);
        let g = gcd_u128(an, ad);
        proof {
            lemma_gcd_divides(an as nat, ad as nat);
        }
        let rn = an / g;
        let rd = ad / g;
        let negative = (num < 0) != (den < 0);
        let ghost target = reduce(num as int, den as int);
        if rd > 9223372036854775807u128 {
            return Err(Error::Overflow);
        }
        if negative {
            if rn > 9223372036854775808u128 {
                return Err(Error::Overflow);
            }
            let n: i64 = if rn == 9223372036854775808u128 {
                -9223372036854775807i64 - 1
            } else {
                -(rn as i64)
            };
            assert(n == target.0);
            Ok(Rational { num: n, den: rd as i64 })
        } else {
            if rn > 9223372036854775807u128 {
                return Err(Error::Overflow);
            }
            Ok(Rational { num: rn as i64, den: rd as i64 })
        }
    }

    /// The integer `n`.
    pub fn integer(n: i64) -> (r: Rational)
        ensures
            r.numer() == n,
            r.denom() == 1,
    {
        proof {
            lemma_gcd_one(abs(n as int));
        }
        Rational { num: n, den: 1 }
    }

    /// Zero, as `0/1`.
    pub fn zero() -> (r: Rational)
        ensures
            r.numer() == 0,
            r.denom() == 1,
    {
        Rational::integer(0)
    }

    /// One, as `1/1`.
    pub fn one() -> (r: Rational)
        ensures
            r.numer() == 1,
            r.denom() == 1,
    {
        Rational::integer(1)
    }

    #[verifier::when_used_as_spec(spec_numer)]
    pub fn numer(self) -> (n: i64)
        ensures
            n == self.spec_numer(),
            self.denom() > 0,
            gcd(abs(n as int), self.denom() as nat) == 1,
    {
        proof {
            use_type_invariant(&self);
        }
        self.num
    }

    #[verifier::when_used_as_spec(spec_denom)]
    pub fn denom(self) -> (d: i64)
        ensures
            d == self.spec_denom(),
            d > 0,
            gcd(abs(self.numer() as int), d as nat) == 1,
    {
        proof {
            use_type_invariant(&self);
        }
        self.den
    }

    /// The exact sum, reduced; `Overflow` when it does not fit in `i64`.
    pub fn checked_add(self, other: Rational) -> (r: Result<Rational, Error>)
        ensures
            rational_result(
                self.numer() * other.denom() + other.numer() * self.denom(),
                self.denom() * other.denom(),
                r,
            ),
    {
        proof {
            use_type_invariant(&self);
            use_type_invariant(&other);
        }
        let a = self.num as i128;
        let b = self.den as i128;
        let c = other.num as i128;
        let d = other.den as i128;
        proof {
            assert(-0x4000_0000_0000_0000_0000_0000_0000_0000 <= a * d < 0x4000_0000_0000_0000_0000_0000_0000_0000)
                by (nonlinear_arith)
                requires
                    i64::MIN <= a <= i64::MAX,
                    0 < d <= i64::MAX,
            ;
            assert(-0x4000_0000_0000_0000_0000_0000_0000_0000 < c * b < 0x4000_0000_0000_0000_0000_0000_0000_0000)
                by (nonlinear_arith)
                requires
                    i64::MIN <= c <= i64::MAX,
                    0 < b <= i64::MAX,
            ;
            assert(0 < b * d < 0x4000_0000_0000_0000_0000_0000_0000_0000) by (nonlinear_arith)
                requires
                    0 < b <= i64::MAX,
                    0 < d <= i64::MAX,
            ;
        }
        Rational::from_i128(a * d + c * b, b * d)
    }

    /// The exact difference, reduced; `Overflow` when it does not fit in
    /// `i64`.
    pub fn checked_sub(self, other: Rational) -> (r: Result<Rational, Error>)
        ensures
            rational_result(
                self.numer() * other.denom() - other.numer() * self.denom(),
                self.denom() * other.denom(),
                r,
            ),
    {
        proof {
            use_type_invariant(&self);
            use_type_invariant(&other);
        }
        let a = self.num as i128;
        let b = self.den as i128;
        let c = other.num as i128;
        let d = other.den as i128;
        proof {
            assert(-0x4000_0000_0000_0000_0000_0000_0000_0000 < a * d < 0x4000_0000_0000_0000_0000_0000_0000_0000)
                by (nonlinear_arith)
                requires
                    i64::MIN <= a <= i64::MAX,
                    0 < d <= i64::MAX,
            ;
            assert(-0x4000_0000_0000_0000_0000_0000_0000_0000 < c * b < 0x4000_0000_0000_0000_0000_0000_0000_0000)
                by (nonlinear_arith)
                requires
                    i64::MIN <= c <= i64::MAX,
                    0 < b <= i64::MAX,
            ;
            assert(0 < b * d < 0x4000_0000_0000_0000_0000_0000_0000_0000) by (nonlinear_arith)
                requires
                    0 < b <= i64::MAX,
                    0 < d <= i64::MAX,
            ;
        }
        Rational::from_i128(a * d - c * b, b * d)
    }
}

/// What `to_decimal(places)` prints for `num / den`: the value rounded half
/// away from zero to `places` decimals, with a minus sign only when the
/// rounded value is not zero.
pub open spec fn decimal_text(num: int, den: int, places: nat) -> Seq<char> {
    let scale: int = pow10(places) as int;
    let scaled: int = abs(num) * scale;
    let q = if (scaled % den) * 2 >= den {
        scaled / den + 1
    } else {
        scaled / den
    };
    let sign = if num < 0 && q != 0 {
        seq!['-']
    } else {
        Seq::empty()
    };
    if places == 0 {
        sign + digits((q / scale) as nat)
    } else {
        sign + digits((q / scale) as nat) + seq!['.'] + padded((q % scale) as nat, places as int)
    }
}

/// The decimal text reads back as the value rounded half away from zero: an
/// optional minus sign, present exactly when the value is negative and does
/// not round to zero; the integer digits, with no leading zero; and, when
/// `places > 0`, a point followed by exactly `places` digits. Read as one
/// number, the digits are `|num| · 10^places / den` rounded half up, that is
/// `(2·|num|·10^places + den) / (2·den)` in integer division.
pub proof fn lemma_decimal_reads_back(num: int, den: int, places: nat)
    requires
        den > 0,
    ensures
        ({
            let t = decimal_text(num, den, places);
            let rounded = (2 * abs(num) * pow10(places) + den) / (2 * den);
            let m: int = if num < 0 && rounded != 0 {
                1
            } else {
                0
            };
            let ip = if places == 0 {
                t.subrange(m, t.len() as int)
            } else {
                t.subrange(m, t.len() - places - 1)
            };
            let fp = t.subrange(t.len() - places, t.len() as int);
            &&& t.len() >= m + 1 + (if places == 0 {
                0
            } else {
                places + 1
            })
            &&& (m == 1 ==> t[0] == '-')
            &&& ip.len() >= 1
            &&& all_digits(ip)
            &&& (ip.len() == 1 || ip[0] != '0')
            &&& (places > 0 ==> t[t.len() - places - 1] == '.' && all_digits(fp))
            &&& digits_value(ip) * pow10(places) + digits_value(fp) == rounded
        }),
{
    let scale: int = pow10(places) as int;
    lemma_pow10_positive(places);
    let scaled: int = abs(num) * scale;
    assert(scaled >= 0) by (nonlinear_arith)
        requires
            scale >= 1,
            abs(num) >= 0,
            scaled == abs(num) * scale,
    ;
    let q = if (scaled % den) * 2 >= den {
        scaled / den + 1
    } else {
        scaled / den
    };
    let rounded = (2 * abs(num) * pow10(places) + den) / (2 * den);
    lemma_fundamental_div_mod(scaled, den);
    let (qd, r) = (scaled / den, scaled % den);
    assert(2 * abs(num) * pow10(places) + den == (2 * den) * qd + (2 * r + den)) by (nonlinear_arith)
        requires
            scaled == den * qd + r,
            scaled == abs(num) * scale,
            scale == pow10(places),
    ;
    let x = 2 * abs(num) * pow10(places) + den;
    assert(x == (qd + 1) * (2 * den) + (2 * r + den - 2 * den) && x == qd * (2 * den) + (2 * r + den))
        by (nonlinear_arith)
        requires
            x == (2 * den) * qd + (2 * r + den),
    ;
    if 2 * r >= den {
        lemma_fundamental_div_mod_converse(
            2 * abs(num) * pow10(places) + den,
            2 * den,
            qd + 1,
            2 * r + den - 2 * den,
        );
    } else {
        lemma_fundamental_div_mod_converse(2 * abs(num) * pow10(places) + den, 2 * den, qd, 2 * r + den);
    }
    assert(q == rounded);
    assert(q >= 0) by (nonlinear_arith)
        requires
            scaled >= 0,
            den > 0,
            qd == scaled / den,
            q >= qd,
    ;
    lemma_fundamental_div_mod(q, scale);
    let hi = (q / scale) as nat;
    let lo = (q % scale) as nat;
    lemma_digits_value(hi);
    lemma_digits_leading(hi);
    let t = decimal_text(num, den, places);
    let sign = if num < 0 && q != 0 {
        seq!['-']
    } else {
        Seq::<char>::empty()
    };
    let m = sign.len() as int;
    if places == 0 {
        assert(t == sign + digits(hi));
        assert(t.subrange(m, t.len() as int) =~= digits(hi));
        assert(t.subrange(t.len() - places, t.len() as int) =~= Seq::<char>::empty());
        assert(pow10(0) == 1);
    } else {
        lemma_padded_value(lo, places);
        let pd = padded(lo, places as int);
        assert(t == sign + digits(hi) + seq!['.'] + pd);
        assert(t.subrange(m, t.len() - places - 1) =~= digits(hi));
        assert(t.subrange(t.len() - places, t.len() as int) =~= pd);
        assert(hi * scale + lo == q) by (nonlinear_arith)
            requires
                q == scale * (q / scale) + q % scale,
                hi == q / scale,
                lo == q % scale,
        ;
    }
}

/// What `to_string` prints: `n` for an integer, else `n/d`.
pub open spec fn rational_text(num: int, den: int) -> Seq<char> {
    if den == 1 {
        int_text(num, 0)
    } else {
        int_text(num, 0) + seq!['/'] + int_text(den, 0)
    }
}

impl Rational {
    /// Decimal rendering rounded half away from zero, computed by exact long
    /// division so it never passes through a float.
    pub fn to_decimal(self, places: usize) -> (s: String)
        requires
            pow10(places as nat) <= i128::MAX,
            abs(self.numer() as int) * pow10(places as nat) <= i128::MAX,
        ensures
            s@ == decimal_text(self.numer() as int, self.denom() as int, places as nat),
    {
        proof {
            use_type_invariant(&self);
        }
        let neg = self.num < 0;
        let num: u128 = magnitude(self.num as i128);
        let den: u128 = self.den as u128;
        let mut scale: u128 = 1;
        let mut i: usize = 0;
        while i < places
            invariant
                i <= places,
                scale == pow10(i as nat),
                pow10(places as nat) <= i128::MAX,
            decreases places - i,
        {
            proof {
                lemma_pow10_monotone((i + 1) as nat, places as nat);
            }
            scale = scale * 10;
            i = i + 1;
        }
        proof {
            lemma_pow10_positive(places as nat);
            assert(num * scale <= i128::MAX);
        }
        let scaled = num * scale;
        let mut q = scaled / den;
        if (scaled % den) * 2 >= den {
            q = q + 1;
        }
        proof {
            lemma_fundamental_div_mod(scaled as int, den as int);
            assert(q <= scaled + 1) by (nonlinear_arith)
                requires
                    q <= scaled / den + 1,
                    den >= 1,
                    scaled >= 0,
            ;
            lemma_div_is_ordered_by_denominator(scaled as int, 1, den as int);
            if den == 1 {
                lemma_fundamental_div_mod(scaled as int, 1);
                lemma_mod_bound(scaled as int, 1);
                assert(scaled as int % 1 == 0);
                assert(scaled as int / 1 == scaled);
                assert(q == scaled);
            } else {
                lemma_div_is_ordered_by_denominator(scaled as int, 2, den as int);
                assert(q <= scaled as int / 2 + 1);
            }
            assert(q <= i128::MAX);
        }
        let int_part = q / scale;
        let frac_part = q % scale;
        let ghost sign: Seq<char> = if neg && q != 0 {
            seq!['-']
        } else {
            Seq::empty()
        };
        let mut s = String::new();
        if neg && q != 0 {
            s.append("-");
        }
        proof {
            reveal_strlit("-");
            assert(s@ =~= sign);
        }
        append_int(&mut s, int_part as i128, 0);
        let ghost with_int = s@;
        proof {
            assert(int_text(int_part as int, 0) == digits(int_part as nat));
            assert(with_int =~= sign + digits(int_part as nat));
        }
        if places > 0 {
            s.append(".");
            append_int(&mut s, frac_part as i128, places);
            proof {
                reveal_strlit(".");
                assert(int_text(frac_part as int, places as int) == padded(
                    frac_part as nat,
                    places as int,
                ));
                assert(s@ =~= with_int + seq!['.'] + padded(frac_part as nat, places as int));
            }
        }
        proof {
            let sc: int = pow10(places as nat) as int;
            let sd: int = abs(self.numer() as int) * sc;
            assert(num == abs(self.numer() as int));
            assert(scale == sc);
            assert(scaled == sd);
            let sq = if (sd % (den as int)) * 2 >= den {
                sd / (den as int) + 1
            } else {
                sd / (den as int)
            };
            assert(q == sq);
            assert(neg == (self.numer() < 0));
        }
        s
    }

    /// `n` for an integer, else `n/d`.
    pub fn to_string(self) -> (s: String)
        ensures
            s@ == rational_text(self.numer() as int, self.denom() as int),
    {
        let mut s = String::new();
        append_int(&mut s, self.num as i128, 0);
        if self.den != 1 {
            s.append("/");
            append_int(&mut s, self.den as i128, 0);
        }
        proof {
            reveal_strlit("/");
            assert(s@ =~= rational_text(self.numer() as int, self.denom() as int));
        }
        s
    }

    /// The sign of `self - other`: -1, 0 or 1.
    pub fn compare(&self, other: &Rational) -> (c: i8)
        ensures
            c == -1 <==> self.numer() * other.denom() < other.numer() * self.denom(),
            c == 0 <==> self.numer() * other.denom() == other.numer() * self.denom(),
            c == 1 <==> self.numer() * other.denom() > other.numer() * self.denom(),
            c == 0 <==> *self == *other,
            self.denom() > 0,
            other.denom() > 0,
    {
        proof {
            use_type_invariant(self);
            use_type_invariant(other);
        }
        let a = self.num as i128;
        let b = self.den as i128;
        let c = other.num as i128;
        let d = other.den as i128;
        proof {
            assert(-0x4000_0000_0000_0000_0000_0000_0000_0000 <= a * d <= 0x4000_0000_0000_0000_0000_0000_0000_0000)
                by (nonlinear_arith)
                requires
                    i64::MIN <= a <= i64::MAX,
                    0 < d <= i64::MAX,
            ;
            assert(-0x4000_0000_0000_0000_0000_0000_0000_0000 <= c * b <= 0x4000_0000_0000_0000_0000_0000_0000_0000)
                by (nonlinear_arith)
                requires
                    i64::MIN <= c <= i64::MAX,
                    0 < b <= i64::MAX,
            ;
        }
        let left = a * d;
        let right = c * b;
        proof {
            if left == right {
                lemma_reduced_unique(a as int, b as int, c as int, d as int);
            }
        }
        if left < right {
            -1
        } else if left == right {
            0
        } else {
            1
        }
    }
}

pub proof fn lemma_pow10_positive(k: nat)
    ensures
        pow10(k) >= 1,
    decreases k,
{
    if k > 0 {
        lemma_pow10_positive((k - 1) as nat);
    }
}

pub proof fn lemma_pow10_monotone(a: nat, b: nat)
    requires
        a <= b,
    ensures
        pow10(a) <= pow10(b),
    decreases b,
{
    if a < b {
        lemma_pow10_monotone(a, (b - 1) as nat);
        lemma_pow10_positive((b - 1) as nat);
    }
}

impl Rational {
    /// The order of the two values.
    pub fn cmp(&self, other: &Rational) -> (o: Ordering)
        ensures
            (o == Ordering::Less) == (self.numer() * other.denom() < other.numer() * self.denom()),
            (o == Ordering::Equal) == (self.numer() * other.denom() == other.numer() * self.denom()),
            (o == Ordering::Greater) == (self.numer() * other.denom() > other.numer() * self.denom()),
            (o == Ordering::Equal) == (*self == *other),
    {
        let c = self.compare(other);
        if c < 0 {
            Ordering::Less
        } else if c == 0 {
            Ordering::Equal
        } else {
            Ordering::Greater
        }
    }
}

impl PartialOrd for Rational {
    fn partial_cmp(&self, other: &Rational) -> (r: Option<Ordering>) {
        let c = self.compare(other);
        if c < 0 {
            Some(Ordering::Less)
        } else if c == 0 {
            Some(Ordering::Equal)
        } else {
            Some(Ordering::Greater)
        }
    }
}

impl PartialOrdSpecImpl for Rational {
    open spec fn obeys_partial_cmp_spec() -> bool {
        true
    }

    /// Ordered by value: compare `a/b` and `c/d` through `a*d` and `c*b`.
    open spec fn partial_cmp_spec(&self, other: &Rational) -> Option<Ordering> {
        let left = self.numer() * other.denom();
        let right = other.numer() * self.denom();
        if left < right {
            Some(Ordering::Less)
        } else if left == right {
            Some(Ordering::Equal)
        } else {
            Some(Ordering::Greater)
        }
    }
}

} // verus!

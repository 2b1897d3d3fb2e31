use crate::scalar::{tolerance, Exact, Scalar};
use vstd::arithmetic::div_mod::{lemma_fundamental_div_mod, lemma_mod_multiples_basic};
use vstd::prelude::*;

verus! {

/// The greatest common divisor of `a` and `b`, by Euclid's rule.
pub open spec fn gcd(a: nat, b: nat) -> nat
    decreases b,
{
    if b == 0 {
        a
    } else {
        gcd(b, a % b)
    }
}

/// The magnitude of `n`.
pub open spec fn magnitude(n: int) -> nat {
    if n < 0 {
        (-n) as nat
    } else {
        n as nat
    }
}

/// Whether the fraction `n / d`, brought to lowest terms, has parts that a
/// `Ratio` can hold.
pub open spec fn fits(n: int, d: int) -> bool {
    let g = gcd(magnitude(n), magnitude(d));
    &&& d != 0
    &&& magnitude(n) / g <= i64::MAX
    &&& magnitude(d) / g <= i64::MAX
}

/// The numerator of `n / d` in lowest terms, with a positive denominator.
pub open spec fn lowest_num(n: int, d: int) -> int {
    let m = (magnitude(n) / gcd(magnitude(n), magnitude(d))) as int;
    if (n < 0) != (d < 0) {
        -m
    } else {
        m
    }
}

/// The denominator of `n / d` in lowest terms, taken positive.
pub open spec fn lowest_den(n: int, d: int) -> int {
    (magnitude(d) / gcd(magnitude(n), magnitude(d))) as int
}

proof fn lemma_multiple(g: int, x: int)
    requires
        g > 0,
        x % g == 0,
    ensures
        x == g * (x / g),
{
    lemma_fundamental_div_mod(x, g);
}

proof fn lemma_gcd_divides(a: nat, b: nat)
    requires
        a > 0 || b > 0,
    ensures
        gcd(a, b) > 0,
        a % gcd(a, b) == 0,
        b % gcd(a, b) == 0,
    decreases b,
{
    if b == 0 {
        assert(a % a == 0) by (nonlinear_arith)
            requires
                a > 0,
        ;
        assert(0nat % a == 0) by (nonlinear_arith)
            requires
                a > 0,
        ;
    } else {
        let r = a % b;
        lemma_gcd_divides(b, r);
        let g = gcd(b, r) as int;
        lemma_multiple(g, b as int);
        lemma_multiple(g, r as int);
        lemma_fundamental_div_mod(a as int, b as int);
        let q = (a as int) / (b as int);
        let bq = (b as int) / g;
        let rq = (r as int) / g;
        assert(a as int == (bq * q + rq) * g) by (nonlinear_arith)
            requires
                a as int == (b as int) * q + (r as int),
                b as int == g * bq,
                r as int == g * rq,
        ;
        lemma_mod_multiples_basic(bq * q + rq, g);
    }
}

/// The two parts of a fraction, split by a common divisor, stay positive
/// and give the same real number.
proof fn lemma_cancel(m: int, e: int, g: int)
    requires
        g > 0,
        g * e > 0,
    ensures
        e > 0,
        (g * m) as real / (g * e) as real == m as real / e as real,
        (-(g * m)) as real / (g * e) as real == (-m) as real / e as real,
{
    assert(e > 0) by (nonlinear_arith)
        requires
            g > 0,
            g * e > 0,
    ;
    assert((g * m) as real / (g * e) as real == m as real / e as real) by (nonlinear_arith)
        requires
            g > 0,
            e > 0,
    ;
    assert((-(g * m)) as real / (g * e) as real == (-m) as real / e as real) by (nonlinear_arith)
        requires
            g > 0,
            e > 0,
    ;
}

fn gcd_exec(a: u128, b: u128) -> (g: u128)
    ensures
        g == gcd(a as nat, b as nat),
{
    let mut x: u128 = a;
    let mut y: u128 = b;
    while y != 0
        invariant
            gcd(x as nat, y as nat) == gcd(a as nat, b as nat),
        decreases y,
    {
        let r: u128 = x % y;
        x = y;
        y = r;
    }
    x
}

/// An exact rational number: a fraction of two machine integers, kept in
/// lowest terms with a positive denominator.
#[derive(Clone, Copy, Debug, PartialEq, Eq)]
pub struct Ratio {
    num: i64,
    den: i64,
}

impl Ratio {
    /// The numerator.
    pub closed spec fn numer(self) -> int {
        self.num as int
    }

    /// The denominator.
    pub closed spec fn denom(self) -> int {
        self.den as int
    }

    /// The denominator is positive, and the numerator is not `i64::MIN`, so
    /// that its negative is a numerator too. Every `Ratio` that a program
    /// holds is well formed.
    #[verifier::type_invariant]
    pub open spec fn wf(self) -> bool {
        self.denom() > 0 && self.numer() > i64::MIN
    }

    /// The real number that the fraction stands for.
    pub open spec fn value(self) -> real {
        self.numer() as real / self.denom() as real
    }

    /// The fraction `n / d` in lowest terms, where its parts fit.
    pub closed spec fn frac(n: int, d: int) -> Option<Ratio> {
        if fits(n, d) {
            Some(Ratio { num: lowest_num(n, d) as i64, den: lowest_den(n, d) as i64 })
        } else {
            None
        }
    }

    /// What `frac` returns is well formed, has the parts of the fraction in
    /// lowest terms, and stands for the quotient of the two numbers.
    pub proof fn lemma_frac(n: int, d: int)
        ensures
            Ratio::frac(n, d) is Some <==> fits(n, d),
            Ratio::frac(n, d) matches Some(q) ==> {
                &&& q.wf()
                &&& q.numer() == lowest_num(n, d)
                &&& q.denom() == lowest_den(n, d)
                &&& q.value() == n as real / d as real
            },
    {
        if fits(n, d) {
            let a = magnitude(n);
            let b = magnitude(d);
            lemma_gcd_divides(a, b);
            let g = gcd(a, b) as int;
            lemma_multiple(g, a as int);
            lemma_multiple(g, b as int);
            let m = (a as int) / g;
            let e = (b as int) / g;
            lemma_cancel(m, e, g);
            assert(m >= 0) by (nonlinear_arith)
                requires
                    g > 0,
                    g * m >= 0,
            ;
            if (n < 0) != (d < 0) {
                assert(n as real / d as real == (-(g * m)) as real / (g * e) as real)
                    by (nonlinear_arith)
                    requires
                        (n == -(g * m) && d == g * e) || (n == g * m && d == -(g * e)),
                        g * e > 0,
                ;
            } else {
                assert(n as real / d as real == (g * m) as real / (g * e) as real)
                    by (nonlinear_arith)
                    requires
                        (n == g * m && d == g * e) || (n == -(g * m) && d == -(g * e)),
                        g * e > 0,
                ;
            }
        }
    }

    /// Brings `n / d` to lowest terms.
    fn make(n: i128, d: i128) -> (r: Option<Ratio>)
        requires
            d > 0,
            n > i128::MIN,
        ensures
            r == Ratio::frac(n as int, d as int),
    {
        let negative = n < 0;
        let a: u128 = if negative {
            (0 - n) as u128
        } else {
            n as u128
        };
        let b: u128 = d as u128;
        let g: u128 = gcd_exec(a, b);
        proof {
            lemma_gcd_divides(a as nat, b as nat);
            Ratio::lemma_frac(n as int, d as int);
        }
        let m: u128 = a / g;
        let e: u128 = b / g;
        if m <= 0x7fff_ffff_ffff_ffff && e <= 0x7fff_ffff_ffff_ffff {
            let mi: i64 = m as i64;
            let num: i64 = if negative {
                0 - mi
            } else {
                mi
            };
            Some(Ratio { num, den: e as i64 })
        } else {
            None
        }
    }

    /// The fraction `num / den` in lowest terms. There is none where `den`
    /// is zero, or where a part in lowest terms exceeds `i64::MAX` in
    /// magnitude.
    pub fn new(num: i64, den: i64) -> (r: Option<Ratio>)
        ensures
            r is Some <==> fits(num as int, den as int),
            r matches Some(q) ==> {
                &&& q.numer() == lowest_num(num as int, den as int)
                &&& q.denom() == lowest_den(num as int, den as int)
                &&& q.value() == num as real / den as real
            },
    {
        proof {
            Ratio::lemma_frac(num as int, den as int);
        }
        if den == 0 {
            None
        } else if den > 0 {
            Ratio::make(num as i128, den as i128)
        } else {
            let r = Ratio::make(0 - (num as i128), 0 - (den as i128));
            proof {
                let n = num as int;
                let d = den as int;
                let g = gcd(magnitude(n), magnitude(d)) as int;
                lemma_gcd_divides(magnitude(n), magnitude(d));
                assert(0int / g == 0) by (nonlinear_arith)
                    requires
                        g > 0,
                ;
                assert((-n) as real / (-d) as real == n as real / d as real) by (nonlinear_arith)
                    requires
                        d != 0,
                ;
            }
            r
        }
    }

    /// The whole number `v`.
    pub fn from_int(v: i64) -> (r: Option<Ratio>)
        ensures
            r is Some <==> v > i64::MIN,
            r matches Some(q) ==> q.numer() == v && q.denom() == 1 && q.value() == v as real,
    {
        if v == i64::MIN {
            None
        } else {
            assert(v as real / 1real == v as real);
            Some(Ratio { num: v, den: 1 })
        }
    }

    /// The numerator, in lowest terms.
    pub fn numerator(&self) -> (r: i64)
        ensures
            r == self.numer(),
    {
        self.num
    }

    /// The denominator, in lowest terms: always positive.
    pub fn denominator(&self) -> (r: i64)
        ensures
            r == self.denom(),
            r > 0,
    {
        proof {
            use_type_invariant(self);
        }
        self.den
    }
}

/// The largest magnitude of a part of a `Ratio`.
pub open spec fn part_max() -> int {
    0x7fff_ffff_ffff_ffff
}

proof fn lemma_product_bound(x: int, y: int)
    requires
        -part_max() <= x <= part_max(),
        -part_max() <= y <= part_max(),
    ensures
        -0x3fff_ffff_ffff_ffff_0000_0000_0000_0001 <= x * y
            <= 0x3fff_ffff_ffff_ffff_0000_0000_0000_0001,
        (x > 0 && y > 0) ==> x * y > 0,
{
    assert(-0x3fff_ffff_ffff_ffff_0000_0000_0000_0001 <= x * y
        <= 0x3fff_ffff_ffff_ffff_0000_0000_0000_0001) by (nonlinear_arith)
        requires
            -0x7fff_ffff_ffff_ffff <= x <= 0x7fff_ffff_ffff_ffff,
            -0x7fff_ffff_ffff_ffff <= y <= 0x7fff_ffff_ffff_ffff,
    ;
    assert((x > 0 && y > 0) ==> x * y > 0) by (nonlinear_arith);
}

impl Scalar for Ratio {
    closed spec fn zero_spec() -> Self {
        Ratio { num: 0, den: 1 }
    }

    closed spec fn one_spec() -> Self {
        Ratio { num: 1, den: 1 }
    }

    open spec fn add_spec(self, rhs: Self) -> Option<Self> {
        if self.wf() && rhs.wf() {
            Ratio::frac(
                self.numer() * rhs.denom() + rhs.numer() * self.denom(),
                self.denom() * rhs.denom(),
            )
        } else {
            None
        }
    }

    open spec fn sub_spec(self, rhs: Self) -> Option<Self> {
        if self.wf() && rhs.wf() {
            Ratio::frac(
                self.numer() * rhs.denom() - rhs.numer() * self.denom(),
                self.denom() * rhs.denom(),
            )
        } else {
            None
        }
    }

    open spec fn mul_spec(self, rhs: Self) -> Option<Self> {
        if self.wf() && rhs.wf() {
            Ratio::frac(self.numer() * rhs.numer(), self.denom() * rhs.denom())
        } else {
            None
        }
    }

    open spec fn div_spec(self, rhs: Self) -> Option<Self> {
        if self.wf() && rhs.wf() && rhs.numer() != 0 {
            if rhs.numer() > 0 {
                Ratio::frac(self.numer() * rhs.denom(), self.denom() * rhs.numer())
            } else {
                Ratio::frac(-(self.numer() * rhs.denom()), self.denom() * (-rhs.numer()))
            }
        } else {
            None
        }
    }

    open spec fn is_zero_spec(self) -> bool {
        self.value() == 0real
    }

    open spec fn gt_spec(self, rhs: Self) -> bool {
        self.value() > rhs.value()
    }

    open spec fn close_spec(self, rhs: Self) -> bool {
        -tolerance() <= self.value() - rhs.value() <= tolerance()
    }

    proof fn zero_is_zero() {
        assert(0int as real / 1int as real == 0real);
    }

    fn zero() -> (r: Self) {
        Ratio { num: 0, den: 1 }
    }

    fn one() -> (r: Self) {
        Ratio { num: 1, den: 1 }
    }

    fn add(self, rhs: Self) -> (r: Option<Self>) {
        proof {
            use_type_invariant(&self);
            use_type_invariant(&rhs);
            lemma_product_bound(self.num as int, rhs.den as int);
            lemma_product_bound(rhs.num as int, self.den as int);
            lemma_product_bound(self.den as int, rhs.den as int);
        }
        let n: i128 = (self.num as i128) * (rhs.den as i128) + (rhs.num as i128) * (self.den as i128);
        let d: i128 = (self.den as i128) * (rhs.den as i128);
        Ratio::make(n, d)
    }

    fn sub(self, rhs: Self) -> (r: Option<Self>) {
        proof {
            use_type_invariant(&self);
            use_type_invariant(&rhs);
            lemma_product_bound(self.num as int, rhs.den as int);
            lemma_product_bound(rhs.num as int, self.den as int);
            lemma_product_bound(self.den as int, rhs.den as int);
        }
        let n: i128 = (self.num as i128) * (rhs.den as i128) - (rhs.num as i128) * (self.den as i128);
        let d: i128 = (self.den as i128) * (rhs.den as i128);
        Ratio::make(n, d)
    }

    fn mul(self, rhs: Self) -> (r: Option<Self>) {
        proof {
            use_type_invariant(&self);
            use_type_invariant(&rhs);
            lemma_product_bound(self.num as int, rhs.num as int);
            lemma_product_bound(self.den as int, rhs.den as int);
        }
        let n: i128 = (self.num as i128) * (rhs.num as i128);
        let d: i128 = (self.den as i128) * (rhs.den as i128);
        Ratio::make(n, d)
    }

    fn div(self, rhs: Self) -> (r: Option<Self>) {
        proof {
            use_type_invariant(&self);
            use_type_invariant(&rhs);
            lemma_product_bound(self.num as int, rhs.den as int);
            lemma_product_bound(self.den as int, rhs.num as int);
            lemma_product_bound(self.den as int, -(rhs.num as int));
        }
        if rhs.num == 0 {
            None
        } else if rhs.num > 0 {
            let n: i128 = (self.num as i128) * (rhs.den as i128);
            let d: i128 = (self.den as i128) * (rhs.num as i128);
            Ratio::make(n, d)
        } else {
            let n: i128 = 0 - (self.num as i128) * (rhs.den as i128);
            let d: i128 = (self.den as i128) * (0 - (rhs.num as i128));
            Ratio::make(n, d)
        }
    }

    fn is_zero(self) -> (r: bool) {
        proof {
            use_type_invariant(&self);
            let n = self.num as int;
            let d = self.den as int;
            assert((n as real / d as real == 0real) <==> n == 0) by (nonlinear_arith)
                requires
                    d > 0,
            ;
        }
        self.num == 0
    }

    fn gt(self, rhs: Self) -> (r: bool) {
        proof {
            use_type_invariant(&self);
            use_type_invariant(&rhs);
            lemma_product_bound(self.num as int, rhs.den as int);
            lemma_product_bound(rhs.num as int, self.den as int);
            let a = self.num as int;
            let b = self.den as int;
            let c = rhs.num as int;
            let d = rhs.den as int;
            assert((a as real / b as real > c as real / d as real) <==> a * d > c * b)
                by (nonlinear_arith)
                requires
                    b > 0,
                    d > 0,
            ;
        }
        (self.num as i128) * (rhs.den as i128) > (rhs.num as i128) * (self.den as i128)
    }

    fn close_to(self, rhs: Self) -> (r: bool) {
        proof {
            use_type_invariant(&self);
            use_type_invariant(&rhs);
            lemma_product_bound(self.num as int, rhs.den as int);
            lemma_product_bound(rhs.num as int, self.den as int);
            lemma_product_bound(self.den as int, rhs.den as int);
        }
        let n: i128 = (self.num as i128) * (rhs.den as i128) - (rhs.num as i128) * (self.den as i128);
        let d: i128 = (self.den as i128) * (rhs.den as i128);
        let gap: u128 = if n < 0 {
            (0 - n) as u128
        } else {
            n as u128
        };
        let room: u128 = (d as u128) / 1000;
        proof {
            let a = self.num as int;
            let b = self.den as int;
            let c = rhs.num as int;
            let e = rhs.den as int;
            assert((-(1real / 1000real) <= a as real / b as real - c as real / e as real <= 1real
                / 1000real) <==> (-(b * e) <= 1000 * (a * e - c * b) <= b * e)) by (nonlinear_arith)
                requires
                    b > 0,
                    e > 0,
            ;
        }
        gap <= room
    }
}

impl Exact for Ratio {
    open spec fn val(self) -> real {
        self.value()
    }

    proof fn zero_exact() {
        assert(0int as real / 1int as real == 0real);
    }

    proof fn one_exact() {
        assert(1int as real / 1int as real == 1real);
    }

    proof fn add_exact(a: Self, b: Self) {
        if a.wf() && b.wf() {
            let (p, q, r, s) = (a.num as int, a.den as int, b.num as int, b.den as int);
            Ratio::lemma_frac(p * s + r * q, q * s);
            assert((p * s + r * q) as real / (q * s) as real == p as real / q as real + r as real
                / s as real) by (nonlinear_arith)
                requires
                    q > 0,
                    s > 0,
            ;
        }
    }

    proof fn sub_exact(a: Self, b: Self) {
        if a.wf() && b.wf() {
            let (p, q, r, s) = (a.num as int, a.den as int, b.num as int, b.den as int);
            Ratio::lemma_frac(p * s - r * q, q * s);
            assert((p * s - r * q) as real / (q * s) as real == p as real / q as real - r as real
                / s as real) by (nonlinear_arith)
                requires
                    q > 0,
                    s > 0,
            ;
        }
    }

    proof fn mul_exact(a: Self, b: Self) {
        if a.wf() && b.wf() {
            let (p, q, r, s) = (a.num as int, a.den as int, b.num as int, b.den as int);
            Ratio::lemma_frac(p * r, q * s);
            assert((p * r) as real / (q * s) as real == (p as real / q as real) * (r as real
                / s as real)) by (nonlinear_arith)
                requires
                    q > 0,
                    s > 0,
            ;
        }
    }

    proof fn div_exact(a: Self, b: Self) {
        if a.wf() && b.wf() && b.num != 0 {
            let (p, q, r, s) = (a.num as int, a.den as int, b.num as int, b.den as int);
            Ratio::lemma_frac(p * s, q * r);
            Ratio::lemma_frac(-(p * s), q * (-r));
            assert(r as real / s as real != 0real) by (nonlinear_arith)
                requires
                    r != 0,
                    s > 0,
            ;
            assert(((p * s) as real / (q * r) as real) * (r as real / s as real) == p as real
                / q as real) by (nonlinear_arith)
                requires
                    q > 0,
                    s > 0,
                    r != 0,
            ;
            assert(((-(p * s)) as real / (q * (-r)) as real) * (r as real / s as real) == p as real
                / q as real) by (nonlinear_arith)
                requires
                    q > 0,
                    s > 0,
                    r != 0,
            ;
        }
    }

    proof fn is_zero_exact(a: Self) {
    }

    proof fn gt_exact(a: Self, b: Self) {
    }

    proof fn close_exact(a: Self, b: Self) {
    }
}

} // verus!

use vstd::prelude::*;

verus! {

/// A fraction `n / d` of mathematical integers. The operations below do not
/// reduce; two fractions denote the same number when `same` holds.
pub struct Frac {
    pub n: int,
    pub d: int,
}

impl Frac {
    pub open spec fn of_int(v: int) -> Frac {
        Frac { n: v, d: 1 }
    }

    pub open spec fn plus(self, o: Frac) -> Frac {
        Frac { n: self.n * o.d + o.n * self.d, d: self.d * o.d }
    }

    pub open spec fn times(self, o: Frac) -> Frac {
        Frac { n: self.n * o.n, d: self.d * o.d }
    }

    pub open spec fn over(self, o: Frac) -> Frac {
        Frac { n: self.n * o.d, d: self.d * o.n }
    }

    pub open spec fn negated(self) -> Frac {
        Frac { n: -self.n, d: self.d }
    }

    /// Both fractions denote the same number (for non-zero denominators).
    pub open spec fn same(self, o: Frac) -> bool {
        self.n * o.d == o.n * self.d
    }

    /// `self <= o` as numbers (for positive denominators).
    pub open spec fn le(self, o: Frac) -> bool {
        self.n * o.d <= o.n * self.d
    }

    /// `self < o` as numbers (for positive denominators).
    pub open spec fn lt(self, o: Frac) -> bool {
        self.n * o.d < o.n * self.d
    }

    pub open spec fn valid(self) -> bool {
        self.d > 0
    }

    /// The sum as the arithmetic of `Rational` writes it.
    pub open spec fn plus_exact(self, o: Frac) -> Frac {
        normal(self.plus(o).n, self.plus(o).d)
    }

    /// The product as the arithmetic of `Rational` writes it.
    pub open spec fn times_exact(self, o: Frac) -> Frac {
        normal(self.times(o).n, self.times(o).d)
    }

    /// The quotient as the arithmetic of `Rational` writes it.
    pub open spec fn over_exact(self, o: Frac) -> Frac {
        normal(self.over(o).n, self.over(o).d)
    }
}

/// Euclid's greatest common divisor of two non-negative integers.
pub open spec fn gcd_spec(a: int, b: int) -> int
    decreases b,
{
    if b <= 0 {
        a
    } else {
        gcd_spec(b, a % b)
    }
}

/// The form in which `Rational` stores `n / d` (for `d != 0`): the sign moved
/// to the numerator, both parts divided by their greatest common divisor.
pub open spec fn normal(n: int, d: int) -> Frac {
    let sn = if d < 0 { -n } else { n };
    let sd = if d < 0 { -d } else { d };
    let an = if sn < 0 { -sn } else { sn };
    let g = gcd_spec(an, sd);
    if g >= 1 && an % g == 0 && sd % g == 0 {
        Frac { n: if sn < 0 { -(an / g) } else { an / g }, d: sd / g }
    } else {
        Frac { n: sn, d: sd }
    }
}

/// Both parts fit a `Rational`.
pub open spec fn fits64(f: Frac) -> bool {
    -0x7fff_ffff_ffff_ffff <= f.n <= 0x7fff_ffff_ffff_ffff && f.d <= 0x7fff_ffff_ffff_ffff
}

pub open spec fn magnitude(v: int) -> int {
    if v < 0 {
        -v
    } else {
        v
    }
}

/// Both parts are at most `2^15` in magnitude, the denominator positive.
pub open spec fn small(f: Frac) -> bool {
    magnitude(f.n) <= 0x8000 && 0 < f.d <= 0x8000
}

pub proof fn lemma_mul_magnitude(a: int, b: int, ba: int, bb: int)
    requires
        magnitude(a) <= ba,
        magnitude(b) <= bb,
    ensures
        magnitude(a * b) <= ba * bb,
{
    assert(magnitude(a * b) == magnitude(a) * magnitude(b)) by (nonlinear_arith);
    assert(magnitude(a) * magnitude(b) <= ba * bb) by (nonlinear_arith)
        requires
            0 <= magnitude(a) <= ba,
            0 <= magnitude(b) <= bb,
    ;
}

pub proof fn lemma_mul_nonzero(x: int, y: int)
    requires
        x != 0,
        y != 0,
    ensures
        x * y != 0,
{
    assert(x * y != 0) by (nonlinear_arith)
        requires
            x != 0,
            y != 0,
    ;
}

pub proof fn lemma_mul_pos(x: int, y: int)
    requires
        x > 0,
        y > 0,
    ensures
        x * y > 0,
{
    assert(x * y > 0) by (nonlinear_arith)
        requires
            x > 0,
            y > 0,
    ;
}

/// A product of two 64-bit integers fits in 127 bits.
proof fn lemma_mul_fits(x: int, y: int)
    requires
        -0x8000_0000_0000_0000 <= x <= 0x8000_0000_0000_0000,
        -0x8000_0000_0000_0000 <= y <= 0x8000_0000_0000_0000,
    ensures
        -0x4000_0000_0000_0000_0000_0000_0000_0000 <= x * y <= 0x4000_0000_0000_0000_0000_0000_0000_0000,
{
    let b: int = 0x8000_0000_0000_0000;
    assert(-(b * b) <= x * y <= b * b) by (nonlinear_arith)
        requires
            -b <= x <= b,
            -b <= y <= b,
            b > 0,
    ;
}

/// A product of a 64-bit integer and a positive 64-bit integer, with room
/// to add another such product.
proof fn lemma_mul_fits_den(x: int, y: int)
    requires
        -0x8000_0000_0000_0000 <= x <= 0x8000_0000_0000_0000,
        0 < y < 0x8000_0000_0000_0000,
    ensures
        -0x3fff_ffff_ffff_ffff_8000_0000_0000_0000 <= x * y <= 0x3fff_ffff_ffff_ffff_8000_0000_0000_0000,
{
    let b: int = 0x8000_0000_0000_0000;
    assert(-(b * (b - 1)) <= x * y <= b * (b - 1)) by (nonlinear_arith)
        requires
            -b <= x <= b,
            0 < y <= b - 1,
    ;
}

/// `same` is transitive through a fraction with a non-zero denominator.
pub proof fn lemma_same_trans(a: Frac, b: Frac, c: Frac)
    requires
        a.same(b),
        b.same(c),
        b.d != 0,
        a.d != 0,
        c.d != 0,
    ensures
        a.same(c),
{
    assert(a.n * c.d * b.d == c.n * a.d * b.d) by (nonlinear_arith)
        requires
            a.n * b.d == b.n * a.d,
            b.n * c.d == c.n * b.d,
    ;
    assert(a.n * c.d == c.n * a.d) by (nonlinear_arith)
        requires
            a.n * c.d * b.d == c.n * a.d * b.d,
            b.d != 0,
    ;
}

/// Replacing the left factor by an equal number keeps the product's value.
pub proof fn lemma_times_congr(a: Frac, a2: Frac, b: Frac)
    requires
        a.same(a2),
    ensures
        a.times(b).same(a2.times(b)),
{
    assert((a.n * b.n) * (a2.d * b.d) == (a2.n * b.n) * (a.d * b.d)) by (nonlinear_arith)
        requires
            a.n * a2.d == a2.n * a.d,
    ;
}

/// Replacing the right summand by an equal number keeps the sum's value.
pub proof fn lemma_plus_congr(a: Frac, b: Frac, b2: Frac)
    requires
        b.same(b2),
    ensures
        a.plus(b).same(a.plus(b2)),
{
    let k = a.d * a.d;
    assert((a.n * b.d + b.n * a.d) * (a.d * b2.d) == a.n * b.d * (a.d * b2.d) + b.n * a.d * (a.d
        * b2.d)) by (nonlinear_arith);
    assert((a.n * b2.d + b2.n * a.d) * (a.d * b.d) == a.n * b2.d * (a.d * b.d) + b2.n * a.d * (a.d
        * b.d)) by (nonlinear_arith);
    assert(a.n * b.d * (a.d * b2.d) == a.n * b2.d * (a.d * b.d)) by (nonlinear_arith);
    assert(b.n * a.d * (a.d * b2.d) == (b.n * b2.d) * k) by (nonlinear_arith)
        requires
            k == a.d * a.d,
    ;
    assert(b2.n * a.d * (a.d * b.d) == (b2.n * b.d) * k) by (nonlinear_arith)
        requires
            k == a.d * a.d,
    ;
}

/// `<` followed by `<=` gives `<`, for positive denominators.
pub proof fn lemma_lt_le_trans(a: Frac, b: Frac, c: Frac)
    requires
        a.valid(),
        b.valid(),
        c.valid(),
        a.lt(b),
        b.le(c),
    ensures
        a.lt(c),
{
    assert(a.n * b.d * c.d < b.n * a.d * c.d) by (nonlinear_arith)
        requires
            a.n * b.d < b.n * a.d,
            c.d > 0,
    ;
    assert(b.n * c.d * a.d <= c.n * b.d * a.d) by (nonlinear_arith)
        requires
            b.n * c.d <= c.n * b.d,
            a.d > 0,
    ;
    assert(a.n * c.d < c.n * a.d) by (nonlinear_arith)
        requires
            a.n * b.d * c.d < b.n * a.d * c.d,
            b.n * c.d * a.d <= c.n * b.d * a.d,
            b.d > 0,
    ;
}

/// A negative number is below any non-negative one.
pub proof fn lemma_neg_lt_nonneg(a: Frac, b: Frac)
    requires
        a.valid(),
        b.valid(),
        a.n < 0,
        b.n >= 0,
    ensures
        a.lt(b),
{
    assert(a.n * b.d < b.n * a.d) by (nonlinear_arith)
        requires
            a.n < 0,
            b.n >= 0,
            a.d > 0,
            b.d > 0,
    ;
}

/// An exact fraction `num / den` with 64-bit parts, kept in lowest terms with
/// a positive denominator.
#[derive(Clone, Copy, Debug, PartialEq, Eq)]
pub struct Rational {
    num: i64,
    den: i64,
}

impl View for Rational {
    type V = Frac;

    closed spec fn view(&self) -> Frac {
        Frac { n: self.num as int, d: self.den as int }
    }
}

fn gcd(a: i128, b: i128) -> (g: i128)
    requires
        a >= 0,
        b >= 0,
    ensures
        g >= 0,
        g == gcd_spec(a as int, b as int),
{
    let mut x: i128 = a;
    let mut y: i128 = b;
    while y != 0
        invariant
            x >= 0,
            y >= 0,
            gcd_spec(x as int, y as int) == gcd_spec(a as int, b as int),
        decreases y,
    {
        let t: i128 = x % y;
        x = y;
        y = t;
    }
    x
}

proof fn lemma_cancel(n: int, an: int, d: int, g: int, q1: int, q2: int)
    requires
        g > 0,
        an == g * q1,
        d == g * q2,
        n == an || n == -an,
    ensures
        (if n == an { q1 } else { -q1 }) * d == n * q2,
{
    assert((if n == an { q1 } else { -q1 }) * d == n * q2) by (nonlinear_arith)
        requires
            an == g * q1,
            d == g * q2,
            n == an || n == -an,
    ;
}

proof fn lemma_quot_bounds(a: int, g: int, q: int)
    requires
        g >= 1,
        a >= 0,
        a == g * q,
    ensures
        0 <= q <= a,
{
    assert(0 <= q <= a) by (nonlinear_arith)
        requires
            g >= 1,
            a >= 0,
            a == g * q,
    ;
}

/// Builds the fraction `n / d` in lowest terms; `None` when it does not fit
/// in 64-bit parts.
fn normalize(n: i128, d: i128) -> (r: Option<Rational>)
    requires
        d != 0,
        -0x7fff_ffff_ffff_ffff_ffff_ffff_ffff_ffff <= n,
        -0x7fff_ffff_ffff_ffff_ffff_ffff_ffff_ffff <= d,
    ensures
        r matches Some(x) ==> x@.same(Frac { n: n as int, d: d as int }),
        r matches Some(x) ==> x@ == normal(n as int, d as int),
        r is Some <==> fits64(normal(n as int, d as int)),
        r matches Some(x) ==> magnitude(x@.n) <= magnitude(n as int) && x@.d <= magnitude(d as int),
        (-0x7fff_ffff_ffff_ffff <= n <= 0x7fff_ffff_ffff_ffff && -0x7fff_ffff_ffff_ffff <= d
            <= 0x7fff_ffff_ffff_ffff) ==> r is Some,
{
    let (sn, sd) = if d < 0 {
        (-n, -d)
    } else {
        (n, d)
    };
    assert(sn * d == n * sd) by (nonlinear_arith)
        requires
            (sn == -n && sd == -d) || (sn == n && sd == d),
    ;
    let an: i128 = if sn < 0 {
        -sn
    } else {
        sn
    };
    let g: i128 = gcd(an, sd);
    let (rn, rd) = if g >= 1 && an % g == 0 && sd % g == 0 {
        let q1: i128 = an / g;
        let q2: i128 = sd / g;
        proof {
            vstd::arithmetic::div_mod::lemma_fundamental_div_mod(an as int, g as int);
            vstd::arithmetic::div_mod::lemma_fundamental_div_mod(sd as int, g as int);
            lemma_cancel(sn as int, an as int, sd as int, g as int, q1 as int, q2 as int);
            lemma_quot_bounds(an as int, g as int, q1 as int);
            lemma_quot_bounds(sd as int, g as int, q2 as int);
            if q2 == 0 {
                assert(g * q2 == 0) by (nonlinear_arith)
                    requires
                        q2 == 0,
                ;
            }
        }
        let rn: i128 = if sn < 0 {
            -q1
        } else {
            q1
        };
        (rn, q2)
    } else {
        (sn, sd)
    };
    assert(rn * sd == sn * rd);
    assert(rn * d == n * rd) by (nonlinear_arith)
        requires
            rn * sd == sn * rd,
            sn * d == n * sd,
            sd != 0,
            sd == d || sd == -d,
            sn == n || sn == -n,
            (sn == -n && sd == -d) || (sn == n && sd == d),
    ;
    if rn < -0x7fff_ffff_ffff_ffff || rn > 0x7fff_ffff_ffff_ffff || rd > 0x7fff_ffff_ffff_ffff {
        None
    } else {
        Some(Rational { num: rn as i64, den: rd as i64 })
    }
}

impl Rational {
    #[verifier::type_invariant]
    spec fn inv(self) -> bool {
        self.den > 0
    }

    /// The integer `v`.
    pub fn from_int(v: i64) -> (r: Rational)
        ensures
            r@ == Frac::of_int(v as int),
    {
        Rational { num: v, den: 1 }
    }

    /// The fraction `num / den` in lowest terms; `None` when `den` is zero,
    /// or when a part is `i64::MIN`.
    pub fn new(num: i64, den: i64) -> (r: Option<Rational>)
        ensures
            r matches Some(x) ==> x@.same(Frac { n: num as int, d: den as int }) && x@.valid(),
            r is Some <==> (den != 0 && num != i64::MIN && den != i64::MIN),
    {
        if den == 0 || num == i64::MIN || den == i64::MIN {
            return None;
        }
        let r = normalize(num as i128, den as i128);
        match r {
            Some(x) => {
                proof {
                    use_type_invariant(&x);
                }
                Some(x)
            },
            None => None,
        }
    }

    /// The numerator, in lowest terms.
    pub fn numer(&self) -> (r: i64)
        ensures
            r == self@.n,
    {
        self.num
    }

    /// The denominator, in lowest terms; always positive.
    pub fn denom(&self) -> (r: i64)
        ensures
            r == self@.d,
            r > 0,
            self@.valid(),
    {
        proof {
            use_type_invariant(self);
        }
        self.den
    }

    pub fn is_negative(&self) -> (r: bool)
        ensures
            r == (self@.n < 0),
    {
        self.num < 0
    }

    pub fn is_positive(&self) -> (r: bool)
        ensures
            r == (self@.n > 0),
    {
        self.num > 0
    }

    /// Whether `self < o`.
    pub fn lt(&self, o: &Rational) -> (r: bool)
        ensures
            r == self@.lt(o@),
    {
        proof {
            lemma_mul_fits(self.num as int, o.den as int);
            lemma_mul_fits(o.num as int, self.den as int);
        }
        (self.num as i128) * (o.den as i128) < (o.num as i128) * (self.den as i128)
    }

    /// The negation; `None` only for the numerator `i64::MIN`.
    pub fn negated(&self) -> (r: Option<Rational>)
        ensures
            r matches Some(x) ==> x@ == self@.negated(),
            r is Some <==> self@.n != i64::MIN,
    {
        proof {
            use_type_invariant(self);
        }
        if self.num == i64::MIN {
            None
        } else {
            Some(Rational { num: -self.num, den: self.den })
        }
    }

    /// The sum; `None` when it does not fit in 64-bit parts.
    pub fn plus(&self, o: &Rational) -> (r: Option<Rational>)
        ensures
            r matches Some(x) ==> x@.same(self@.plus(o@)) && x@.valid(),
            r matches Some(x) ==> x@ == self@.plus_exact(o@),
            r is Some <==> fits64(self@.plus_exact(o@)),
            r matches Some(x) ==> magnitude(x@.n) <= magnitude(self@.plus(o@).n) && x@.d
                <= self@.plus(o@).d,
            (magnitude(self@.plus(o@).n) <= i64::MAX && self@.plus(o@).d <= i64::MAX) ==> r is Some,
    {
        proof {
            use_type_invariant(self);
            use_type_invariant(o);
            lemma_mul_fits_den(self.num as int, o.den as int);
            lemma_mul_fits_den(o.num as int, self.den as int);
            lemma_mul_fits(self.den as int, o.den as int);
            lemma_mul_pos(self.den as int, o.den as int);
        }
        let n: i128 = (self.num as i128) * (o.den as i128) + (o.num as i128) * (self.den as i128);
        let d: i128 = (self.den as i128) * (o.den as i128);
        let r = normalize(n, d);
        match r {
            Some(x) => {
                proof {
                    use_type_invariant(&x);
                }
                Some(x)
            },
            None => None,
        }
    }

    /// The product; `None` when it does not fit in 64-bit parts.
    pub fn times(&self, o: &Rational) -> (r: Option<Rational>)
        ensures
            r matches Some(x) ==> x@.same(self@.times(o@)) && x@.valid(),
            r matches Some(x) ==> x@ == self@.times_exact(o@),
            r is Some <==> fits64(self@.times_exact(o@)),
            r matches Some(x) ==> magnitude(x@.n) <= magnitude(self@.times(o@).n) && x@.d
                <= self@.times(o@).d,
            (magnitude(self@.times(o@).n) <= i64::MAX && self@.times(o@).d <= i64::MAX) ==> r is Some,
    {
        proof {
            use_type_invariant(self);
            use_type_invariant(o);
            lemma_mul_fits(self.num as int, o.num as int);
            lemma_mul_fits(self.den as int, o.den as int);
            lemma_mul_pos(self.den as int, o.den as int);
        }
        let n: i128 = (self.num as i128) * (o.num as i128);
        let d: i128 = (self.den as i128) * (o.den as i128);
        let r = normalize(n, d);
        match r {
            Some(x) => {
                proof {
                    use_type_invariant(&x);
                }
                Some(x)
            },
            None => None,
        }
    }

    /// The quotient by a non-zero `o`; `None` when it does not fit in 64-bit
    /// parts.
    pub fn over(&self, o: &Rational) -> (r: Option<Rational>)
        requires
            o@.n != 0,
        ensures
            r matches Some(x) ==> x@.same(self@.over(o@)) && x@.valid(),
            r matches Some(x) ==> x@ == self@.over_exact(o@),
            r is Some <==> fits64(self@.over_exact(o@)),
            r matches Some(x) ==> magnitude(x@.n) <= magnitude(self@.over(o@).n) && x@.d
                <= magnitude(self@.over(o@).d),
            (magnitude(self@.over(o@).n) <= i64::MAX && magnitude(self@.over(o@).d) <= i64::MAX)
                ==> r is Some,
    {
        proof {
            use_type_invariant(self);
            use_type_invariant(o);
            lemma_mul_fits(self.num as int, o.den as int);
            lemma_mul_fits(self.den as int, o.num as int);
            lemma_mul_nonzero(self.den as int, o.num as int);
        }
        let n: i128 = (self.num as i128) * (o.den as i128);
        let d: i128 = (self.den as i128) * (o.num as i128);
        let r = normalize(n, d);
        match r {
            Some(x) => {
                proof {
                    use_type_invariant(&x);
                }
                Some(x)
            },
            None => None,
        }
    }
}

/// Both cross products that compare `a / b` with `c / e` fit in 128 bits.
pub open spec fn ratio_cross_fits(a: Frac, b: Frac, c: Frac, e: Frac) -> bool {
    &&& i128::MIN <= (a.n * b.d) * (c.d * e.n) <= i128::MAX
    &&& i128::MIN <= (c.n * e.d) * (a.d * b.n) <= i128::MAX
}

/// Whether `a / b < c / e` (for positive `b` and `e`), by cross products;
/// `None` when they do not fit in 128 bits.
pub fn ratio_lt(a: &Rational, b: &Rational, c: &Rational, e: &Rational) -> (r: Option<bool>)
    ensures
        r matches Some(x) ==> x == a@.over(b@).lt(c@.over(e@)),
        r is Some <==> ratio_cross_fits(a@, b@, c@, e@),
{
    proof {
        lemma_mul_fits(a.num as int, b.den as int);
        lemma_mul_fits(c.den as int, e.num as int);
        lemma_mul_fits(c.num as int, e.den as int);
        lemma_mul_fits(a.den as int, b.num as int);
    }
    let l1: i128 = (a.num as i128) * (b.den as i128);
    let l2: i128 = (c.den as i128) * (e.num as i128);
    let r1: i128 = (c.num as i128) * (e.den as i128);
    let r2: i128 = (a.den as i128) * (b.num as i128);
    match (l1.checked_mul(l2), r1.checked_mul(r2)) {
        (Some(l), Some(r)) => Some(l < r),
        _ => None,
    }
}

} // verus!

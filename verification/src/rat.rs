//! Exact rational coordinates.
//!
//! Every coordinate the engine computes with is a fraction of two `i64`
//! values, kept in lowest terms with a positive denominator.  The
//! mathematical model of a value is the ghost fraction [`Frac`] over
//! unbounded integers; executable operations compute over `i128`
//! intermediates, reduce by the greatest common divisor, and report `None`
//! when the reduced result leaves the `i64` range.

use vstd::prelude::*;
use vstd::arithmetic::div_mod::{
    lemma_fundamental_div_mod,
    lemma_div_multiples_vanish,
    lemma_mod_multiples_basic,
    lemma_mod_self_0,
};
use vstd::math::abs;

verus! {

/// Mathematical value of a rational: numerator over denominator.
pub ghost struct Frac {
    pub n: int,
    pub d: int,
}

/// A fraction is well formed when its denominator is positive.
pub open spec fn fwf(a: Frac) -> bool {
    a.d >= 1
}

/// Value equality of fractions, by cross multiplication.
pub open spec fn feq(a: Frac, b: Frac) -> bool {
    a.n * b.d == b.n * a.d
}

/// `a <= b` as rational values (denominators positive).
pub open spec fn fle(a: Frac, b: Frac) -> bool {
    a.n * b.d <= b.n * a.d
}

/// `a < b` as rational values.
pub open spec fn flt(a: Frac, b: Frac) -> bool {
    a.n * b.d < b.n * a.d
}

pub open spec fn fzero() -> Frac {
    Frac { n: 0, d: 1 }
}

pub open spec fn fadd(a: Frac, b: Frac) -> Frac {
    Frac { n: a.n * b.d + b.n * a.d, d: a.d * b.d }
}

pub open spec fn fsub(a: Frac, b: Frac) -> Frac {
    Frac { n: a.n * b.d - b.n * a.d, d: a.d * b.d }
}

pub open spec fn fmul(a: Frac, b: Frac) -> Frac {
    Frac { n: a.n * b.n, d: a.d * b.d }
}

/// Division `a / b`; the sign moves to the numerator so the denominator
/// stays positive.  Meaningful only when `b` is nonzero.
pub open spec fn fdiv(a: Frac, b: Frac) -> Frac {
    if b.n >= 0 {
        Frac { n: a.n * b.d, d: a.d * b.n }
    } else {
        Frac { n: -(a.n * b.d), d: -(a.d * b.n) }
    }
}

/// Greatest common divisor by Euclid's recursion.
pub open spec fn gcd(a: nat, b: nat) -> nat
    decreases b,
{
    if b == 0 {
        a
    } else {
        gcd(b, a % b)
    }
}

/// A fraction in lowest terms: both components divided by their gcd.
pub open spec fn fred(v: Frac) -> Frac {
    let g = gcd(abs(v.n), v.d as nat) as int;
    if g <= 1 {
        v
    } else {
        Frac { n: v.n / g, d: v.d / g }
    }
}

/// Whether a reduced fraction is storable in two `i64` components.
pub open spec fn ffits(v: Frac) -> bool {
    &&& -0x7fff_ffff_ffff_ffff <= v.n <= 0x7fff_ffff_ffff_ffff
    &&& 1 <= v.d <= 0x7fff_ffff_ffff_ffff
}

/// Reduce to lowest terms, `None` when the result leaves the `i64` range.
pub open spec fn fnorm(v: Frac) -> Option<Frac> {
    let r = fred(v);
    if ffits(r) {
        Some(r)
    } else {
        None
    }
}

/// Checked rational addition, as the executable engine performs it.
pub open spec fn cadd(a: Frac, b: Frac) -> Option<Frac> {
    fnorm(fadd(a, b))
}

pub open spec fn csub(a: Frac, b: Frac) -> Option<Frac> {
    fnorm(fsub(a, b))
}

pub open spec fn cmul(a: Frac, b: Frac) -> Option<Frac> {
    fnorm(fmul(a, b))
}

/// Checked division; `None` also covers a zero divisor.
pub open spec fn cdiv(a: Frac, b: Frac) -> Option<Frac> {
    if b.n == 0 {
        None
    } else {
        fnorm(fdiv(a, b))
    }
}

proof fn lemma_mul_bounds(a: int, b: int, ba: int, bb: int)
    requires
        -ba <= a <= ba,
        -bb <= b <= bb,
        0 <= ba,
        0 <= bb,
    ensures
        -(ba * bb) <= a * b <= ba * bb,
{
    assert(-(ba * bb) <= a * b <= ba * bb) by (nonlinear_arith)
        requires
            -ba <= a <= ba,
            -bb <= b <= bb,
            0 <= ba,
            0 <= bb,
    ;
}

proof fn lemma_mul_pos(a: int, b: int)
    requires
        a >= 1,
        b >= 1,
    ensures
        a * b >= 1,
{
    assert(a * b >= 1) by (nonlinear_arith)
        requires
            a >= 1,
            b >= 1,
    ;
}

/// `<=` on rational values is transitive.
pub proof fn lemma_fle_trans(a: Frac, b: Frac, c: Frac)
    requires
        fwf(a),
        fwf(b),
        fwf(c),
        fle(a, b),
        fle(b, c),
    ensures
        fle(a, c),
{
    assert(a.n * c.d <= c.n * a.d) by (nonlinear_arith)
        requires
            a.n * b.d <= b.n * a.d,
            b.n * c.d <= c.n * b.d,
            a.d >= 1,
            b.d >= 1,
            c.d >= 1,
    ;
}

/// `<` on rational values is transitive with `<=` on either side.
pub proof fn lemma_flt_fle_trans(a: Frac, b: Frac, c: Frac)
    requires
        fwf(a),
        fwf(b),
        fwf(c),
        flt(a, b),
        fle(b, c),
    ensures
        flt(a, c),
{
    assert(a.n * c.d < c.n * a.d) by (nonlinear_arith)
        requires
            a.n * b.d < b.n * a.d,
            b.n * c.d <= c.n * b.d,
            a.d >= 1,
            b.d >= 1,
            c.d >= 1,
    ;
}

/// Value equality of rationals is transitive.
pub proof fn lemma_feq_trans(a: Frac, b: Frac, c: Frac)
    requires
        fwf(a),
        fwf(b),
        fwf(c),
        feq(a, b),
        feq(b, c),
    ensures
        feq(a, c),
{
    assert(a.n * c.d == c.n * a.d) by (nonlinear_arith)
        requires
            a.n * b.d == b.n * a.d,
            b.n * c.d == c.n * b.d,
            a.d >= 1,
            b.d >= 1,
            c.d >= 1,
    ;
}

/// A quotient of a product by one factor equals, as a value, the other
/// factor: from `c = a / b`, `a = area * cen` and `b = area` (all as
/// values, `b` nonzero) follows `c = cen`.
pub proof fn lemma_div_mul_cancel(c: Frac, a: Frac, b: Frac, area: Frac, cen: Frac)
    requires
        fwf(c),
        fwf(a),
        fwf(b),
        fwf(area),
        fwf(cen),
        b.n != 0,
        feq(c, fdiv(a, b)),
        feq(a, fmul(area, cen)),
        feq(b, area),
    ensures
        feq(c, cen),
{
    // The branches of `fdiv` differ only by negating both components,
    // which value equality ignores.
    assert(c.n * (a.d * b.n) == (a.n * b.d) * c.d) by {
        if b.n >= 0 {
        } else {
            assert(c.n * (-(a.d * b.n)) == (-(a.n * b.d)) * c.d);
            assert(c.n * (a.d * b.n) == (a.n * b.d) * c.d) by (nonlinear_arith)
                requires
                    c.n * (-(a.d * b.n)) == (-(a.n * b.d)) * c.d,
            ;
        }
    }
    assert(area.n != 0) by (nonlinear_arith)
        requires
            b.n * area.d == area.n * b.d,
            b.n != 0,
            area.d >= 1,
            b.d >= 1,
    ;
    assert(c.n * b.n * (area.d * cen.d) == (area.n * cen.n) * (b.d * c.d)) by (nonlinear_arith)
        requires
            c.n * (a.d * b.n) == (a.n * b.d) * c.d,
            a.n * (area.d * cen.d) == (area.n * cen.n) * a.d,
            a.d >= 1,
    ;
    assert((area.n * b.d) * (c.n * cen.d) == (area.n * b.d) * (cen.n * c.d)) by (nonlinear_arith)
        requires
            c.n * b.n * (area.d * cen.d) == (area.n * cen.n) * (b.d * c.d),
            b.n * area.d == area.n * b.d,
    ;
    assert(c.n * cen.d == cen.n * c.d) by (nonlinear_arith)
        requires
            (area.n * b.d) * (c.n * cen.d) == (area.n * b.d) * (cen.n * c.d),
            area.n != 0,
            b.d >= 1,
    ;
}

/// Dividing value-equal rationals by the same positive constant keeps
/// value equality.
pub proof fn lemma_feq_div_pos(a: Frac, b: Frac, k: Frac)
    requires
        fwf(a),
        fwf(b),
        k.n >= 1,
        k.d >= 1,
        feq(a, b),
    ensures
        feq(fdiv(a, k), fdiv(b, k)),
{
    assert((a.n * k.d) * (b.d * k.n) == (b.n * k.d) * (a.d * k.n)) by (nonlinear_arith)
        requires
            a.n * b.d == b.n * a.d,
    ;
}

/// The gcd of a pair with a positive second component is positive and
/// divides both components.
pub proof fn lemma_gcd_divides(a: nat, b: nat)
    requires
        b >= 1,
    ensures
        gcd(a, b) >= 1,
        (a as int) % (gcd(a, b) as int) == 0,
        (b as int) % (gcd(a, b) as int) == 0,
    decreases b,
{
    let g = gcd(a, b) as int;
    let r = a % b;
    if r == 0 {
        // gcd(a, b) unfolds to gcd(b, 0) == b.
        assert(gcd(b, 0) == b);
        lemma_mod_self_0(b as int);
        assert(a % b == 0);
    } else {
        lemma_gcd_divides(b, r);
        assert(gcd(a, b) == gcd(b, r));
        let kb = (b as int) / g;
        let kr = (r as int) / g;
        lemma_fundamental_div_mod(b as int, g);
        lemma_fundamental_div_mod(r as int, g);
        assert(b == g * kb + 0);
        assert(r == g * kr + 0);
        lemma_fundamental_div_mod(a as int, b as int);
        let q = (a as int) / (b as int);
        assert(a == b * q + r);
        assert(a == (kb * q + kr) * g) by (nonlinear_arith)
            requires
                a == b * q + r,
                b == g * kb,
                r == g * kr,
        ;
        lemma_mod_multiples_basic(kb * q + kr, g);
    }
}

/// A successful checked addition returns the exact rational sum.
pub proof fn lemma_cadd_feq(a: Frac, b: Frac)
    requires
        fwf(a),
        fwf(b),
        cadd(a, b) is Some,
    ensures
        fwf(cadd(a, b).unwrap()),
        feq(cadd(a, b).unwrap(), fadd(a, b)),
        cadd(a, b).unwrap().n == 0 <==> fadd(a, b).n == 0,
{
    lemma_mul_pos(a.d, b.d);
    lemma_fred_keeps_value(fadd(a, b));
}

/// A successful checked subtraction returns the exact rational difference.
pub proof fn lemma_csub_feq(a: Frac, b: Frac)
    requires
        fwf(a),
        fwf(b),
        csub(a, b) is Some,
    ensures
        fwf(csub(a, b).unwrap()),
        feq(csub(a, b).unwrap(), fsub(a, b)),
        csub(a, b).unwrap().n == 0 <==> fsub(a, b).n == 0,
{
    lemma_mul_pos(a.d, b.d);
    lemma_fred_keeps_value(fsub(a, b));
}

/// A successful checked multiplication returns the exact rational product.
pub proof fn lemma_cmul_feq(a: Frac, b: Frac)
    requires
        fwf(a),
        fwf(b),
        cmul(a, b) is Some,
    ensures
        fwf(cmul(a, b).unwrap()),
        feq(cmul(a, b).unwrap(), fmul(a, b)),
        cmul(a, b).unwrap().n == 0 <==> fmul(a, b).n == 0,
{
    lemma_mul_pos(a.d, b.d);
    lemma_fred_keeps_value(fmul(a, b));
}

/// A successful checked division returns the exact rational quotient.
pub proof fn lemma_cdiv_feq(a: Frac, b: Frac)
    requires
        fwf(a),
        fwf(b),
        cdiv(a, b) is Some,
    ensures
        fwf(cdiv(a, b).unwrap()),
        feq(cdiv(a, b).unwrap(), fdiv(a, b)),
{
    if b.n >= 1 {
        lemma_mul_pos(a.d, b.n);
    } else {
        assert(-(a.d * b.n) >= 1) by (nonlinear_arith)
            requires
                a.d >= 1,
                b.n <= -1,
        ;
    }
    lemma_fred_keeps_value(fdiv(a, b));
}

/// Reduction keeps the rational value and well-formedness.
pub proof fn lemma_fred_keeps_value(v: Frac)
    requires
        fwf(v),
    ensures
        fwf(fred(v)),
        feq(fred(v), v),
        fred(v).n == 0 <==> v.n == 0,
{
    let g = gcd(abs(v.n), v.d as nat) as int;
    lemma_gcd_divides(abs(v.n), v.d as nat);
    if g <= 1 {
    } else {
        let kn = v.n / g;
        let kd = v.d / g;
        lemma_fundamental_div_mod(v.d, g);
        assert(v.d == g * kd);
        assert(kd >= 1) by (nonlinear_arith)
            requires
                v.d == g * kd,
                v.d >= 1,
                g >= 2,
        ;
        if v.n >= 0 {
            lemma_fundamental_div_mod(v.n, g);
            assert(v.n == g * kn);
        } else {
            // abs(v.n) is divisible by g, hence so is v.n itself.
            let m = abs(v.n) as int;
            lemma_fundamental_div_mod(m, g);
            let km = m / g;
            assert(m == g * km);
            assert(v.n == g * (-km)) by (nonlinear_arith)
                requires
                    m == g * km,
                    v.n == -m,
            ;
            lemma_div_multiples_vanish(-km, g);
            assert(kn == -km);
            assert(v.n == g * kn);
        }
        assert(kn * v.d == v.n * kd) by (nonlinear_arith)
            requires
                v.n == g * kn,
                v.d == g * kd,
        ;
        assert(kn == 0 <==> v.n == 0) by (nonlinear_arith)
            requires
                v.n == g * kn,
                g >= 2,
        ;
    }
}

/// An executable rational in lowest terms with a positive denominator.
#[derive(Debug, Clone, Copy, PartialEq, Eq)]
pub struct Rat {
    num: i64,
    den: i64,
}

impl View for Rat {
    type V = Frac;

    closed spec fn view(&self) -> Frac {
        Frac { n: self.num as int, d: self.den as int }
    }
}

impl Rat {
    /// Validity: the stored fraction lies in the storable range, its
    /// denominator positive.
    pub open spec fn wf(self) -> bool {
        ffits(self@)
    }

    /// The absolute value.
    pub fn abs_val(self) -> (r: Rat)
        requires
            self.wf(),
        ensures
            r.wf(),
            r@ == fabsf(self@),
    {
        if self.num < 0 {
            Rat { num: -self.num, den: self.den }
        } else {
            self
        }
    }

    /// The constant one half.
    pub fn half() -> (r: Rat)
        ensures
            r.wf(),
            r@ == (Frac { n: 1, d: 2 }),
    {
        Rat { num: 1, den: 2 }
    }

    /// The constant two.
    pub fn two() -> (r: Rat)
        ensures
            r.wf(),
            r@ == (Frac { n: 2, d: 1 }),
    {
        Rat { num: 2, den: 1 }
    }

    /// The constant three.
    pub fn three() -> (r: Rat)
        ensures
            r.wf(),
            r@ == (Frac { n: 3, d: 1 }),
    {
        Rat { num: 3, den: 1 }
    }

    /// The exact zero.
    pub fn zero() -> (r: Rat)
        ensures
            r.wf(),
            r@ == fzero(),
    {
        Rat { num: 0, den: 1 }
    }

    /// Builds `num / den` in lowest terms; `None` when `den` is zero or
    /// the reduced value cannot be stored.
    pub fn new(num: i64, den: i64) -> (r: Option<Rat>)
        ensures
            den == 0 ==> r is None,
            den != 0 ==> match r {
                Some(q) => q.wf() && Some(q@) == fnorm(fsigned(num as int, den as int)),
                None => fnorm(fsigned(num as int, den as int)) is None,
            },
    {
        if den == 0 {
            None
        } else if den < 0 {
            norm128(-(num as i128), -(den as i128))
        } else {
            norm128(num as i128, den as i128)
        }
    }

    /// Builds the integer `num` as a rational.
    pub fn from_int(num: i64) -> (r: Option<Rat>)
        ensures
            match r {
                Some(q) => q.wf() && Some(q@) == fnorm(Frac { n: num as int, d: 1 }),
                None => fnorm(Frac { n: num as int, d: 1 }) is None,
            },
    {
        norm128(num as i128, 1)
    }

    /// The numerator of the stored lowest-terms fraction.
    pub fn num(&self) -> (r: i64)
        ensures
            r == self@.n,
    {
        self.num
    }

    /// The denominator of the stored lowest-terms fraction.
    pub fn den(&self) -> (r: i64)
        ensures
            r == self@.d,
    {
        self.den
    }

    /// `self <= other` as rational values.
    pub fn le(&self, other: &Rat) -> (r: bool)
        requires
            self.wf(),
            other.wf(),
        ensures
            r == fle(self@, other@),
    {
        proof {
            lemma_mul_bounds(
                self.num as int,
                other.den as int,
                0x8000_0000_0000_0000,
                0x7fff_ffff_ffff_ffff,
            );
            lemma_mul_bounds(
                other.num as int,
                self.den as int,
                0x8000_0000_0000_0000,
                0x7fff_ffff_ffff_ffff,
            );
        }
        (self.num as i128) * (other.den as i128) <= (other.num as i128) * (self.den as i128)
    }

    /// `self < other` as rational values.
    pub fn lt(&self, other: &Rat) -> (r: bool)
        requires
            self.wf(),
            other.wf(),
        ensures
            r == flt(self@, other@),
    {
        proof {
            lemma_mul_bounds(
                self.num as int,
                other.den as int,
                0x8000_0000_0000_0000,
                0x7fff_ffff_ffff_ffff,
            );
            lemma_mul_bounds(
                other.num as int,
                self.den as int,
                0x8000_0000_0000_0000,
                0x7fff_ffff_ffff_ffff,
            );
        }
        (self.num as i128) * (other.den as i128) < (other.num as i128) * (self.den as i128)
    }

    /// Value equality of two rationals.
    pub fn eq_val(&self, other: &Rat) -> (r: bool)
        requires
            self.wf(),
            other.wf(),
        ensures
            r == feq(self@, other@),
    {
        proof {
            lemma_mul_bounds(
                self.num as int,
                other.den as int,
                0x8000_0000_0000_0000,
                0x7fff_ffff_ffff_ffff,
            );
            lemma_mul_bounds(
                other.num as int,
                self.den as int,
                0x8000_0000_0000_0000,
                0x7fff_ffff_ffff_ffff,
            );
        }
        (self.num as i128) * (other.den as i128) == (other.num as i128) * (self.den as i128)
    }

    /// Whether the value is exactly zero.
    pub fn is_zero(&self) -> (r: bool)
        requires
            self.wf(),
        ensures
            r == feq(self@, fzero()),
    {
        self.num == 0
    }

    /// Checked addition in lowest terms.
    pub fn checked_add(self, other: Rat) -> (r: Option<Rat>)
        requires
            self.wf(),
            other.wf(),
        ensures
            match r {
                Some(q) => q.wf() && Some(q@) == cadd(self@, other@),
                None => cadd(self@, other@) is None,
            },
    {
        proof {
            lemma_mul_bounds(
                self.num as int,
                other.den as int,
                0x8000_0000_0000_0000,
                0x7fff_ffff_ffff_ffff,
            );
            lemma_mul_bounds(
                other.num as int,
                self.den as int,
                0x8000_0000_0000_0000,
                0x7fff_ffff_ffff_ffff,
            );
            lemma_mul_bounds(
                self.den as int,
                other.den as int,
                0x7fff_ffff_ffff_ffff,
                0x7fff_ffff_ffff_ffff,
            );
            lemma_mul_pos(self.den as int, other.den as int);
        }
        let n: i128 = (self.num as i128) * (other.den as i128) + (other.num as i128) * (self.den
            as i128);
        let d: i128 = (self.den as i128) * (other.den as i128);
        norm128(n, d)
    }

    /// Checked subtraction in lowest terms.
    pub fn checked_sub(self, other: Rat) -> (r: Option<Rat>)
        requires
            self.wf(),
            other.wf(),
        ensures
            match r {
                Some(q) => q.wf() && Some(q@) == csub(self@, other@),
                None => csub(self@, other@) is None,
            },
    {
        proof {
            lemma_mul_bounds(
                self.num as int,
                other.den as int,
                0x8000_0000_0000_0000,
                0x7fff_ffff_ffff_ffff,
            );
            lemma_mul_bounds(
                other.num as int,
                self.den as int,
                0x8000_0000_0000_0000,
                0x7fff_ffff_ffff_ffff,
            );
            lemma_mul_bounds(
                self.den as int,
                other.den as int,
                0x7fff_ffff_ffff_ffff,
                0x7fff_ffff_ffff_ffff,
            );
            lemma_mul_pos(self.den as int, other.den as int);
        }
        let n: i128 = (self.num as i128) * (other.den as i128) - (other.num as i128) * (self.den
            as i128);
        let d: i128 = (self.den as i128) * (other.den as i128);
        norm128(n, d)
    }

    /// Checked multiplication in lowest terms.
    pub fn checked_mul(self, other: Rat) -> (r: Option<Rat>)
        requires
            self.wf(),
            other.wf(),
        ensures
            match r {
                Some(q) => q.wf() && Some(q@) == cmul(self@, other@),
                None => cmul(self@, other@) is None,
            },
    {
        proof {
            lemma_mul_bounds(
                self.num as int,
                other.num as int,
                0x8000_0000_0000_0000,
                0x8000_0000_0000_0000,
            );
            lemma_mul_bounds(
                self.den as int,
                other.den as int,
                0x7fff_ffff_ffff_ffff,
                0x7fff_ffff_ffff_ffff,
            );
            lemma_mul_pos(self.den as int, other.den as int);
        }
        let n: i128 = (self.num as i128) * (other.num as i128);
        let d: i128 = (self.den as i128) * (other.den as i128);
        norm128(n, d)
    }

    /// Checked division in lowest terms; `None` on a zero divisor.
    pub fn checked_div(self, other: Rat) -> (r: Option<Rat>)
        requires
            self.wf(),
            other.wf(),
        ensures
            match r {
                Some(q) => q.wf() && Some(q@) == cdiv(self@, other@),
                None => cdiv(self@, other@) is None,
            },
    {
        proof {
            lemma_mul_bounds(
                self.num as int,
                other.den as int,
                0x8000_0000_0000_0000,
                0x7fff_ffff_ffff_ffff,
            );
            lemma_mul_bounds(
                self.den as int,
                other.num as int,
                0x7fff_ffff_ffff_ffff,
                0x8000_0000_0000_0000,
            );
        }
        if other.num == 0 {
            None
        } else if other.num < 0 {
            proof {
                assert((self.den as int) * (other.num as int) <= -1) by (nonlinear_arith)
                    requires
                        self.den as int >= 1,
                        other.num as int <= -1,
                ;
            }
            let n: i128 = -((self.num as i128) * (other.den as i128));
            let d: i128 = -((self.den as i128) * (other.num as i128));
            norm128(n, d)
        } else {
            proof {
                lemma_mul_pos(self.den as int, other.num as int);
            }
            let n: i128 = (self.num as i128) * (other.den as i128);
            let d: i128 = (self.den as i128) * (other.num as i128);
            norm128(n, d)
        }
    }
}

/// Sign normalization used by [`Rat::new`]: moves a negative denominator's
/// sign to the numerator.
/// The absolute value of a fraction.
pub open spec fn fabsf(v: Frac) -> Frac {
    if v.n < 0 {
        Frac { n: -v.n, d: v.d }
    } else {
        v
    }
}

/// The smaller of two rational values (the first on a tie).
pub open spec fn fmin(a: Frac, b: Frac) -> Frac {
    if fle(a, b) {
        a
    } else {
        b
    }
}

pub open spec fn fsigned(n: int, d: int) -> Frac {
    if d < 0 {
        Frac { n: -n, d: -d }
    } else {
        Frac { n: n, d: d }
    }
}

/// Euclid's algorithm.
fn gcd_u128(a: u128, b: u128) -> (g: u128)
    ensures
        g == gcd(a as nat, b as nat),
{
    let mut x = a;
    let mut y = b;
    while y != 0
        invariant
            gcd(x as nat, y as nat) == gcd(a as nat, b as nat),
        decreases y,
    {
        let t = x % y;
        x = y;
        y = t;
    }
    x
}

/// Reduces `n / d` to lowest terms and stores it, `None` when the reduced
/// fraction does not fit.
fn norm128(n: i128, d: i128) -> (r: Option<Rat>)
    requires
        d >= 1,
        -0x7fff_ffff_ffff_ffff_ffff_ffff_ffff_ffff <= n,
    ensures
        match r {
            Some(q) => q.wf() && Some(q@) == fnorm(Frac { n: n as int, d: d as int }),
            None => fnorm(Frac { n: n as int, d: d as int }) is None,
        },
{
    let ghost v = Frac { n: n as int, d: d as int };
    let neg = n < 0;
    let mag: u128 = if neg {
        (-n) as u128
    } else {
        n as u128
    };
    assert(mag == abs(v.n));
    let du: u128 = d as u128;
    let g = gcd_u128(mag, du);
    proof {
        lemma_gcd_divides(abs(v.n), v.d as nat);
    }
    let (m2, d2): (u128, u128) = if g > 1 {
        proof {
            let gi = g as int;
            let km = (mag as int) / gi;
            let kd = (du as int) / gi;
            lemma_fundamental_div_mod(mag as int, gi);
            lemma_fundamental_div_mod(du as int, gi);
            assert(mag == gi * km);
            assert(du == gi * kd);
            assert(kd >= 1) by (nonlinear_arith)
                requires
                    du == gi * kd,
                    du >= 1,
                    gi >= 2,
            ;
            assert(km >= 0) by (nonlinear_arith)
                requires
                    mag == gi * km,
                    mag >= 0,
                    gi >= 2,
            ;
            if neg {
                assert(v.n == gi * (-km)) by (nonlinear_arith)
                    requires
                        mag == gi * km,
                        v.n == -(mag as int),
                ;
                lemma_div_multiples_vanish(-km, gi);
                assert(v.n / gi == -km);
            } else {
                assert(v.n / gi == km);
            }
            assert(fred(v) == Frac { n: if neg { -km } else { km }, d: kd });
        }
        (mag / g, du / g)
    } else {
        proof {
            assert(fred(v) == v);
        }
        (mag, du)
    };
    if m2 > 0x7fff_ffff_ffff_ffff || d2 > 0x7fff_ffff_ffff_ffff {
        assert(!ffits(fred(v)));
        None
    } else {
        let num: i64 = if neg {
            -(m2 as i64)
        } else {
            m2 as i64
        };
        let q = Rat { num, den: d2 as i64 };
        assert(q@ == fred(v));
        assert(ffits(fred(v)));
        Some(q)
    }
}

} // verus!

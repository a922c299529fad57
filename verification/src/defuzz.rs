//! Center-of-gravity defuzzification.
//!
//! The aggregate output curve is decomposed segment by segment into a
//! rectangle plus a right triangle; the crisp result is the area-weighted
//! mean of the segment centroids.

use vstd::prelude::*;
use crate::rat::{Rat, Frac, feq, fle, fzero, fabsf, fmin, csub, cmul, cdiv, cadd};
use crate::set::{Point, FPoint, cv, sorted_x};
use crate::common::{FuzzyError, FuzzyResult};

verus! {

/// Area of the trapezoid under segment `(p, q)`:
/// `min(y1, y2) * dx + 1/2 * |y2 - y1| * dx`.
pub open spec fn seg_area(p: FPoint, q: FPoint) -> Option<Frac> {
    match csub(q.x, p.x) {
        None => None,
        Some(dx) => match csub(q.y, p.y) {
            None => None,
            Some(dy0) => {
                let dy = fabsf(dy0);
                let height = fmin(p.y, q.y);
                match cmul(height, dx) {
                    None => None,
                    Some(t1) => match cmul(Frac { n: 1, d: 2 }, dy) {
                        None => None,
                        Some(t2) => match cmul(t2, dx) {
                            None => None,
                            Some(t3) => cadd(t1, t3),
                        },
                    },
                }
            },
        },
    }
}

/// Centroid abscissa of one segment: the rectangle's middle for a flat
/// segment, `(2 * x1 + x2) / 3` otherwise.
pub open spec fn seg_centroid(p: FPoint, q: FPoint) -> Option<Frac> {
    if feq(p.y, q.y) {
        match cadd(p.x, q.x) {
            None => None,
            Some(sum) => cdiv(sum, Frac { n: 2, d: 1 }),
        }
    } else {
        match cmul(Frac { n: 2, d: 1 }, p.x) {
            None => None,
            Some(t) => match cadd(t, q.x) {
                None => None,
                Some(u) => cdiv(u, Frac { n: 3, d: 1 }),
            },
        }
    }
}

/// Accumulates `(sum of area * centroid, sum of area)` over the segments
/// from index `i` on.
pub open spec fn cog_fold(cs: Seq<FPoint>, i: nat, acc_a: Frac, acc_b: Frac) -> Option<
    (Frac, Frac),
>
    decreases cs.len() - i,
{
    if i + 1 >= cs.len() {
        Some((acc_a, acc_b))
    } else {
        match seg_area(cs[i as int], cs[i as int + 1]) {
            None => None,
            Some(area) => match seg_centroid(cs[i as int], cs[i as int + 1]) {
                None => None,
                Some(cen) => match cmul(area, cen) {
                    None => None,
                    Some(w) => match cadd(acc_a, w) {
                        None => None,
                        Some(a2) => match cadd(acc_b, area) {
                            None => None,
                            Some(b2) => cog_fold(cs, i + 1, a2, b2),
                        },
                    },
                },
            },
        }
    }
}

/// Outcome of the center-of-gravity computation.
pub ghost enum CogRes {
    /// A step left the representable range.
    Overflow,
    /// The curve's total area is exactly zero.
    ZeroArea,
    /// The crisp centroid.
    Val(Frac),
}

/// The center of gravity of a curve, as the engine computes it.
pub open spec fn scog(cs: Seq<FPoint>) -> CogRes {
    match cog_fold(cs, 0, fzero(), fzero()) {
        None => CogRes::Overflow,
        Some((a, b)) => if feq(b, fzero()) {
            CogRes::ZeroArea
        } else {
            match cdiv(a, b) {
                None => CogRes::Overflow,
                Some(c) => CogRes::Val(c),
            }
        },
    }
}

/// Center-of-gravity defuzzification of an aggregate curve.
///
/// Fewer than two points, an unsorted curve, or a zero total area are
/// rejected with `InvalidPoints`; a computation that leaves the
/// representable range is reported as `Misc`.
pub fn cog(points: &Vec<Point>) -> (r: FuzzyResult<Rat>)
    requires
        forall|i: int| #![trigger points@[i]]
            0 <= i < points@.len() ==> points@[i].x.wf() && points@[i].y.wf(),
    ensures
        match r {
            Ok(y) => y.wf() && points@.len() >= 2 && sorted_x(cv(points@)) && scog(cv(points@))
                == CogRes::Val(y@),
            Err(FuzzyError::InvalidPoints) => points@.len() < 2 || !sorted_x(cv(points@)) || (
            points@.len() >= 2 && sorted_x(cv(points@)) && scog(cv(points@)) == CogRes::ZeroArea),
            Err(FuzzyError::Misc(_)) => points@.len() >= 2 && sorted_x(cv(points@)) && scog(
                cv(points@),
            ) == CogRes::Overflow,
            _ => false,
        },
{
    let ghost cs = cv(points@);
    let n = points.len();
    if n < 2 {
        return Err(FuzzyError::InvalidPoints);
    }
    let mut i: usize = 0;
    while i < n - 1
        invariant
            n == points@.len(),
            cs == cv(points@),
            n >= 2,
            i <= n - 1,
            forall|j: int| #![trigger points@[j]]
                0 <= j < points@.len() ==> points@[j].x.wf() && points@[j].y.wf(),
            forall|j: int| 0 <= j < i ==> fle(#[trigger] cs[j].x, cs[j + 1].x),
        decreases n - i,
    {
        if !points[i].x.le(&points[i + 1].x) {
            proof {
                let j = i as int;
                assert(!fle(cs[j].x, cs[j + 1].x));
                assert(!sorted_x(cs));
            }
            return Err(FuzzyError::InvalidPoints);
        }
        i += 1;
    }
    assert(sorted_x(cs));
    let mut a = Rat::zero();
    let mut b = Rat::zero();
    let mut k: usize = 0;
    while k < n - 1
        invariant
            n == points@.len(),
            cs == cv(points@),
            n >= 2,
            k <= n - 1,
            a.wf(),
            b.wf(),
            sorted_x(cs),
            forall|j: int| #![trigger points@[j]]
                0 <= j < points@.len() ==> points@[j].x.wf() && points@[j].y.wf(),
            cog_fold(cs, 0, fzero(), fzero()) == cog_fold(cs, k as nat, a@, b@),
        decreases n - k,
    {
        let p = points[k];
        let q = points[k + 1];
        let area = match seg_area_exec(&p, &q) {
            Some(w) => w,
            None => {
                return Err(FuzzyError::Misc(range_message()));
            },
        };
        let cen = match seg_centroid_exec(&p, &q) {
            Some(w) => w,
            None => {
                return Err(FuzzyError::Misc(range_message()));
            },
        };
        let w = match area.checked_mul(cen) {
            Some(w) => w,
            None => {
                return Err(FuzzyError::Misc(range_message()));
            },
        };
        a = match a.checked_add(w) {
            Some(w2) => w2,
            None => {
                return Err(FuzzyError::Misc(range_message()));
            },
        };
        b = match b.checked_add(area) {
            Some(w2) => w2,
            None => {
                return Err(FuzzyError::Misc(range_message()));
            },
        };
        k += 1;
    }
    if b.is_zero() {
        return Err(FuzzyError::InvalidPoints);
    }
    match a.checked_div(b) {
        Some(c) => Ok(c),
        None => Err(FuzzyError::Misc(range_message())),
    }
}

/// The message carried by arithmetic range errors.
fn range_message() -> (r: String) {
    "arithmetic overflow".to_owned()
}

/// Executable mirror of [`seg_area`].
fn seg_area_exec(p: &Point, q: &Point) -> (r: Option<Rat>)
    requires
        p.x.wf(),
        p.y.wf(),
        q.x.wf(),
        q.y.wf(),
    ensures
        match r {
            Some(w) => w.wf() && seg_area(
                FPoint { x: p.x@, y: p.y@ },
                FPoint { x: q.x@, y: q.y@ },
            ) == Some(w@),
            None => seg_area(FPoint { x: p.x@, y: p.y@ }, FPoint { x: q.x@, y: q.y@ }) is None,
        },
{
    let dx = match q.x.checked_sub(p.x) {
        Some(w) => w,
        None => {
            return None;
        },
    };
    let dy0 = match q.y.checked_sub(p.y) {
        Some(w) => w,
        None => {
            return None;
        },
    };
    let dy = dy0.abs_val();
    let height = if p.y.le(&q.y) {
        p.y
    } else {
        q.y
    };
    let t1 = match height.checked_mul(dx) {
        Some(w) => w,
        None => {
            return None;
        },
    };
    let t2 = match Rat::half().checked_mul(dy) {
        Some(w) => w,
        None => {
            return None;
        },
    };
    let t3 = match t2.checked_mul(dx) {
        Some(w) => w,
        None => {
            return None;
        },
    };
    t1.checked_add(t3)
}

/// Executable mirror of [`seg_centroid`].
fn seg_centroid_exec(p: &Point, q: &Point) -> (r: Option<Rat>)
    requires
        p.x.wf(),
        p.y.wf(),
        q.x.wf(),
        q.y.wf(),
    ensures
        match r {
            Some(w) => w.wf() && seg_centroid(
                FPoint { x: p.x@, y: p.y@ },
                FPoint { x: q.x@, y: q.y@ },
            ) == Some(w@),
            None => seg_centroid(FPoint { x: p.x@, y: p.y@ }, FPoint { x: q.x@, y: q.y@ })
                is None,
        },
{
    if p.y.eq_val(&q.y) {
        let sum = match p.x.checked_add(q.x) {
            Some(w) => w,
            None => {
                return None;
            },
        };
        sum.checked_div(Rat::two())
    } else {
        let t = match Rat::two().checked_mul(p.x) {
            Some(w) => w,
            None => {
                return None;
            },
        };
        let u = match t.checked_add(q.x) {
            Some(w) => w,
            None => {
                return None;
            },
        };
        u.checked_div(Rat::three())
    }
}

} // verus!

//! Engine-wide laws, proved from the specifications the public functions
//! carry.

use vstd::prelude::*;
use crate::rat::{Frac, feq, fle, flt, fwf, fzero, fadd, fsub, fmul, fdiv, fmin, fabsf, cadd,
    csub, cmul, cdiv, lemma_fle_trans, lemma_flt_fle_trans, lemma_feq_trans, lemma_cadd_feq,
    lemma_csub_feq, lemma_cmul_feq, lemma_cdiv_feq, lemma_div_mul_cancel, lemma_feq_div_pos};
use crate::set::{
    FPoint,
    curve_wf,
    sorted_x,
    find_bracket,
    interp,
    seval,
    cross,
    run_replace,
    clip_from,
    sclip,
};
use crate::fuzz::{FuzzyRule, srule_strength, lemma_fold_min_is_min, lemma_fold_max_is_max};
use crate::defuzz::{seg_area, seg_centroid, cog_fold, scog, CogRes};

verus! {

/// Strictly ascending `x` coordinates (no duplicate abscissas).
pub open spec fn strictly_sorted_x(cs: Seq<FPoint>) -> bool {
    forall|i: int| #![trigger cs[i]] 0 <= i && i + 1 < cs.len() ==> flt(cs[i].x, cs[i + 1].x)
}

/// In a sorted curve every earlier point lies at or left of every later
/// one.
pub proof fn lemma_sorted_pairwise(cs: Seq<FPoint>, i: int, j: int)
    requires
        curve_wf(cs),
        sorted_x(cs),
        0 <= i <= j < cs.len(),
    ensures
        fle(cs[i].x, cs[j].x),
    decreases j - i,
{
    if i == j {
    } else {
        lemma_sorted_pairwise(cs, i + 1, j);
        lemma_fle_trans(cs[i].x, cs[i + 1].x, cs[j].x);
    }
}

proof fn lemma_strict_pairwise(cs: Seq<FPoint>, i: int, j: int)
    requires
        curve_wf(cs),
        strictly_sorted_x(cs),
        0 <= i < j < cs.len(),
    ensures
        flt(cs[i].x, cs[j].x),
    decreases j - i,
{
    if i + 1 == j {
    } else {
        lemma_strict_pairwise(cs, i, j - 1);
        lemma_flt_fle_trans(cs[i].x, cs[j - 1].x, cs[j].x);
    }
}

proof fn lemma_strict_sorted(cs: Seq<FPoint>)
    requires
        strictly_sorted_x(cs),
    ensures
        sorted_x(cs),
{
}

/// Evaluation at the leftmost point's abscissa returns exactly its
/// ordinate, for every sorted curve.
pub proof fn lemma_eval_at_leftmost(cs: Seq<FPoint>)
    requires
        curve_wf(cs),
        sorted_x(cs),
    ensures
        seval(cs, cs[0].x) == Some(cs[0].y),
{
    let x = cs[0].x;
    lemma_sorted_pairwise(cs, 0, cs.len() - 1);
    if cs.len() == 1 {
    } else {
        assert(fle(cs[0].x, x) && fle(x, cs[1].x));
        assert(find_bracket(cs, x, 0) == Some(0nat));
    }
}

/// Evaluation at the rightmost point's abscissa returns exactly its
/// ordinate, for every strictly sorted curve.
pub proof fn lemma_eval_at_rightmost(cs: Seq<FPoint>)
    requires
        curve_wf(cs),
        strictly_sorted_x(cs),
    ensures
        seval(cs, cs[cs.len() - 1].x) == Some(cs[cs.len() - 1].y),
{
    lemma_strict_sorted(cs);
    let n = cs.len() as int;
    let x = cs[n - 1].x;
    lemma_sorted_pairwise(cs, 0, n - 1);
    if n == 1 {
    } else {
        // A bracket exists, so the scan returns the first one.
        assert(fle(cs[n - 2].x, x) && fle(x, cs[n - 1].x)) by {
            lemma_sorted_pairwise(cs, n - 2, n - 1);
        }
        lemma_bracket_found(cs, x, 0, (n - 2) as nat);
        let i = find_bracket(cs, x, 0).unwrap() as int;
        lemma_bracket_props(cs, x, 0);
        // The bracket's right end must be the last point: anything earlier
        // lies strictly left of `x`.
        if i + 1 < n - 1 {
            lemma_strict_pairwise(cs, i + 1, n - 1);
            assert(false);
        }
        assert(i + 1 == n - 1);
        if i > 0 {
            lemma_strict_pairwise(cs, 0, i);
        }
        assert(interp(cs[i], cs[i + 1], x) == Some(cs[n - 1].y)) by {
            if feq(x, cs[i].x) {
                lemma_strict_pairwise(cs, i, n - 1);
                assert(false);
            }
        }
    }
}

/// Extrapolation: outside the domain the boundary ordinate is returned,
/// however far the query lies.
pub proof fn lemma_eval_extrapolates(cs: Seq<FPoint>, x: Frac)
    requires
        curve_wf(cs),
        sorted_x(cs),
        fwf(x),
    ensures
        flt(x, cs[0].x) ==> seval(cs, x) == Some(cs[0].y),
        flt(cs[cs.len() - 1].x, x) ==> seval(cs, x) == Some(cs[cs.len() - 1].y),
{
    if flt(cs[cs.len() - 1].x, x) {
        lemma_sorted_pairwise(cs, 0, cs.len() - 1);
        lemma_fle_trans(cs[0].x, cs[cs.len() - 1].x, x);
        assert(!flt(x, cs[0].x));
    }
}

/// If some segment starting at or after `i` brackets `x`, the scan finds
/// a bracket.
proof fn lemma_bracket_found(cs: Seq<FPoint>, x: Frac, i: nat, w: nat)
    requires
        i <= w,
        w + 1 < cs.len(),
        fle(cs[w as int].x, x),
        fle(x, cs[w as int + 1].x),
    ensures
        find_bracket(cs, x, i) is Some,
    decreases w - i,
{
    if i == w {
    } else if fle(cs[i as int].x, x) && fle(x, cs[i as int + 1].x) {
    } else {
        lemma_bracket_found(cs, x, i + 1, w);
    }
}

/// What a found bracket satisfies.
proof fn lemma_bracket_props(cs: Seq<FPoint>, x: Frac, i: nat)
    requires
        find_bracket(cs, x, i) is Some,
    ensures
        i <= find_bracket(cs, x, i).unwrap(),
        find_bracket(cs, x, i).unwrap() + 1 < cs.len(),
        fle(cs[find_bracket(cs, x, i).unwrap() as int].x, x),
        fle(x, cs[find_bracket(cs, x, i).unwrap() as int + 1].x),
    decreases cs.len() - i,
{
    if i + 1 >= cs.len() {
    } else if fle(cs[i as int].x, x) && fle(x, cs[i as int + 1].x) {
    } else {
        lemma_bracket_props(cs, x, i + 1);
    }
}

/// Clipping at a threshold strictly above every ordinate leaves the
/// curve unchanged, point for point.
pub proof fn lemma_clip_above_max(cs: Seq<FPoint>, v: Frac)
    requires
        forall|i: int| #![trigger cs[i]] 0 <= i < cs.len() ==> flt(cs[i].y, v),
    ensures
        sclip(cs, v) == Some(cs),
{
    lemma_clip_above_from(cs, v, 0);
    assert(cs.skip(0) =~= cs);
}

proof fn lemma_clip_above_from(cs: Seq<FPoint>, v: Frac, i: nat)
    requires
        i <= cs.len(),
        forall|j: int| #![trigger cs[j]] 0 <= j < cs.len() ==> flt(cs[j].y, v),
    ensures
        clip_from(cs, v, i, None) == Some(cs.skip(i as int)),
    decreases cs.len() - i,
{
    if i >= cs.len() {
        assert(cs.skip(i as int) =~= Seq::<FPoint>::empty());
    } else {
        lemma_clip_above_from(cs, v, i + 1);
        assert(seq![cs[i as int]] + cs.skip(i as int + 1) =~= cs.skip(i as int));
    }
}

/// Clipping at a threshold at or below every ordinate collapses the
/// curve to exactly two points at the threshold height spanning the
/// original domain.
pub proof fn lemma_clip_below_min(cs: Seq<FPoint>, v: Frac)
    requires
        cs.len() >= 1,
        forall|i: int| #![trigger cs[i]] 0 <= i < cs.len() ==> fle(v, cs[i].y),
    ensures
        sclip(cs, v) == Some(
            seq![
                FPoint { x: cs[0].x, y: v },
                FPoint { x: cs[cs.len() - 1].x, y: v },
            ],
        ),
{
    lemma_clip_below_from(cs, v, 1);
}

proof fn lemma_clip_below_from(cs: Seq<FPoint>, v: Frac, i: nat)
    requires
        cs.len() >= 1,
        1 <= i <= cs.len(),
        forall|j: int| #![trigger cs[j]] 0 <= j < cs.len() ==> fle(v, cs[j].y),
    ensures
        clip_from(cs, v, i, Some(0)) == Some(
            seq![
                FPoint { x: cs[0].x, y: v },
                FPoint { x: cs[cs.len() - 1].x, y: v },
            ],
        ),
    decreases cs.len() - i,
{
    if i >= cs.len() {
    } else {
        lemma_clip_below_from(cs, v, i + 1);
    }
}

/// An `And` rule's firing strength is the minimum of its antecedents'
/// sampled degrees: at or below each of them, and equal to one of them.
pub proof fn lemma_and_strength_is_min(rule: FuzzyRule, ys: Seq<Frac>)
    requires
        rule is And,
        ys.len() >= 1,
        forall|j: int| 0 <= j < ys.len() ==> fwf(#[trigger] ys[j]),
    ensures
        forall|j: int| 0 <= j < ys.len() ==> fle(srule_strength(rule, ys), #[trigger] ys[j]),
        exists|j: int| 0 <= j < ys.len() && srule_strength(rule, ys) == ys[j],
{
    lemma_fold_min_is_min(ys, 1, ys[0]);
}

/// An `Or` rule's firing strength is the maximum of its antecedents'
/// sampled degrees: at or above each of them, and equal to one of them.
pub proof fn lemma_or_strength_is_max(rule: FuzzyRule, ys: Seq<Frac>)
    requires
        rule is Or,
        ys.len() >= 1,
        forall|j: int| 0 <= j < ys.len() ==> fwf(#[trigger] ys[j]),
    ensures
        forall|j: int| 0 <= j < ys.len() ==> fle(#[trigger] ys[j], srule_strength(rule, ys)),
        exists|j: int| 0 <= j < ys.len() && srule_strength(rule, ys) == ys[j],
{
    lemma_fold_max_is_max(ys, 1, ys[0]);
}

/// A `Unit` rule's firing strength is its single sampled degree.
pub proof fn lemma_unit_strength(rule: FuzzyRule, ys: Seq<Frac>)
    requires
        rule is Unit,
        ys.len() >= 1,
    ensures
        srule_strength(rule, ys) == ys[0],
{
}

/// The centroid of a flat two-point curve is the midpoint of its domain,
/// which is the curve's center of point symmetry: whenever the
/// computation stays in range, the crisp result equals
/// `(x1 + x2) / 2` as a rational value.
pub proof fn lemma_cog_flat_is_center(p: FPoint, q: FPoint, c: Frac)
    requires
        fwf(p.x),
        fwf(p.y),
        fwf(q.x),
        fwf(q.y),
        feq(p.y, q.y),
        scog(seq![p, q]) == CogRes::Val(c),
    ensures
        fwf(c),
        feq(c, fdiv(fadd(p.x, q.x), Frac { n: 2, d: 1 })),
{
    let cs = seq![p, q];
    assert(cs.len() == 2 && cs[0] == p && cs[1] == q);
    let z = fzero();
    let half = Frac { n: 1, d: 2 };
    let two = Frac { n: 2, d: 1 };
    // The whole chain must have stayed in range, else the outcome were
    // `Overflow`.
    assert(seg_area(p, q) is Some) by {
        if seg_area(p, q) is None {
            assert(cog_fold(cs, 0, z, z) is None);
        }
    }
    let area = seg_area(p, q).unwrap();
    assert(seg_centroid(p, q) is Some) by {
        if seg_centroid(p, q) is None {
            assert(cog_fold(cs, 0, z, z) is None);
        }
    }
    let cen = seg_centroid(p, q).unwrap();
    assert(cmul(area, cen) is Some) by {
        if cmul(area, cen) is None {
            assert(cog_fold(cs, 0, z, z) is None);
        }
    }
    let w = cmul(area, cen).unwrap();
    assert(cadd(z, w) is Some) by {
        if cadd(z, w) is None {
            assert(cog_fold(cs, 0, z, z) is None);
        }
    }
    let a2 = cadd(z, w).unwrap();
    assert(cadd(z, area) is Some) by {
        if cadd(z, area) is None {
            assert(cog_fold(cs, 0, z, z) is None);
        }
    }
    let b2 = cadd(z, area).unwrap();
    assert(cog_fold(cs, 1, a2, b2) == Some((a2, b2)));
    assert(cog_fold(cs, 0, z, z) == Some((a2, b2)));
    assert(!feq(b2, z));
    assert(cdiv(a2, b2) == Some(c));
    // The flat segment contributes no triangle: the area is, as a value,
    // `min(y1, y2) * dx`.
    let dx = csub(q.x, p.x).unwrap();
    let dy0 = csub(q.y, p.y).unwrap();
    let height = fmin(p.y, q.y);
    assert(csub(q.x, p.x) is Some && csub(q.y, p.y) is Some);
    assert(cmul(height, dx) is Some) by {
        if cmul(height, dx) is None {
            assert(seg_area(p, q) is None);
        }
    }
    let t1 = cmul(height, dx).unwrap();
    assert(cmul(half, fabsf(dy0)) is Some) by {
        if cmul(half, fabsf(dy0)) is None {
            assert(seg_area(p, q) is None);
        }
    }
    let t2 = cmul(half, fabsf(dy0)).unwrap();
    assert(cmul(t2, dx) is Some) by {
        if cmul(t2, dx) is None {
            assert(seg_area(p, q) is None);
        }
    }
    let t3 = cmul(t2, dx).unwrap();
    assert(cadd(t1, t3) == Some(area));
    lemma_csub_feq(q.x, p.x);
    lemma_csub_feq(q.y, p.y);
    assert(fsub(q.y, p.y).n == 0);
    assert(dy0.n == 0);
    assert(fabsf(dy0) == dy0);
    lemma_cmul_feq(height, dx);
    lemma_cmul_feq(half, dy0);
    assert(fmul(half, dy0).n == half.n * dy0.n);
    assert(half.n * dy0.n == 0) by (nonlinear_arith)
        requires
            dy0.n == 0,
    ;
    assert(t2.n == 0);
    lemma_cmul_feq(t2, dx);
    assert(fmul(t2, dx).n == t2.n * dx.n);
    assert(t2.n * dx.n == 0) by (nonlinear_arith)
        requires
            t2.n == 0,
    ;
    assert(t3.n == 0);
    lemma_cadd_feq(t1, t3);
    assert(feq(fadd(t1, t3), t1)) by (nonlinear_arith)
        requires
            t3.n == 0,
            fadd(t1, t3) == (Frac { n: t1.n * t3.d + t3.n * t1.d, d: t1.d * t3.d }),
    ;
    lemma_feq_trans(area, fadd(t1, t3), t1);
    // The centroid of the flat segment is the midpoint.
    let sum = cadd(p.x, q.x).unwrap();
    assert(cadd(p.x, q.x) is Some && cdiv(sum, two) == Some(cen));
    lemma_cadd_feq(p.x, q.x);
    lemma_cdiv_feq(sum, two);
    // The fold's accumulators carry the exact products and sums.
    lemma_cmul_feq(area, cen);
    lemma_cadd_feq(z, w);
    lemma_cadd_feq(z, area);
    assert(feq(fadd(z, w), w)) by (nonlinear_arith)
        requires
            fadd(z, w) == (Frac { n: 0 * w.d + w.n * 1, d: 1 * w.d }),
            fwf(w),
    ;
    assert(feq(fadd(z, area), area)) by (nonlinear_arith)
        requires
            fadd(z, area) == (Frac { n: 0 * area.d + area.n * 1, d: 1 * area.d }),
            fwf(area),
    ;
    lemma_feq_trans(a2, fadd(z, w), w);
    lemma_feq_trans(a2, w, fmul(area, cen));
    lemma_feq_trans(b2, fadd(z, area), area);
    lemma_cdiv_feq(a2, b2);
    assert(b2.n != 0);
    lemma_div_mul_cancel(c, a2, b2, area, cen);
    // Chain down to the midpoint of the domain.
    lemma_feq_div_pos(sum, fadd(p.x, q.x), two);
    assert(fwf(fdiv(sum, two)));
    assert(fwf(fdiv(fadd(p.x, q.x), two)));
    lemma_feq_trans(cen, fdiv(sum, two), fdiv(fadd(p.x, q.x), two));
    lemma_feq_trans(c, cen, fdiv(fadd(p.x, q.x), two));
}

/// A point of a clipped curve sits exactly at the threshold.
pub open spec fn plat(p: FPoint, v: Frac) -> bool {
    p.y == v
}

/// A point of a clipped curve lies strictly below the threshold.
pub open spec fn keeps(p: FPoint, v: Frac) -> bool {
    flt(p.y, v)
}

/// How a threshold point may sit inside a clipped curve: as half of a
/// whole-curve collapse, as the single replacement of a boundary run with
/// its neighbour below the threshold, or as half of an interior pair
/// flanked by points below the threshold.
pub open spec fn shape_at(r: Seq<FPoint>, v: Frac, k: int) -> bool {
    ||| (k == 0 && r.len() == 2 && plat(r[1], v))
    ||| (k == 1 && r.len() == 2 && plat(r[0], v))
    ||| (k == 0 && r.len() >= 2 && keeps(r[1], v))
    ||| (k == r.len() - 1 && k >= 1 && keeps(r[k - 1], v))
    ||| (1 <= k && k + 2 < r.len() && keeps(r[k - 1], v) && plat(r[k + 1], v) && keeps(
        r[k + 2],
        v,
    ))
    ||| (2 <= k && k + 1 < r.len() && keeps(r[k - 2], v) && plat(r[k - 1], v) && keeps(
        r[k + 1],
        v,
    ))
}

/// The normal form the alpha-cut produces: every point below the
/// threshold or exactly at it, and every threshold point placed as
/// [`shape_at`] allows.
pub open spec fn clipped_shape(r: Seq<FPoint>, v: Frac) -> bool {
    &&& forall|k: int| #![trigger r[k]]
        0 <= k < r.len() ==> keeps(r[k], v) || plat(r[k], v)
    &&& forall|k: int| #![trigger r[k]] 0 <= k < r.len() && plat(r[k], v) ==> shape_at(r, v, k)
}

proof fn lemma_fix_none(r: Seq<FPoint>, v: Frac, i: nat)
    requires
        clipped_shape(r, v),
        i <= r.len(),
        i == 0 || keeps(r[i as int - 1], v),
    ensures
        clip_from(r, v, i, None) == Some(r.skip(i as int)),
    decreases r.len() - i,
{
    if i >= r.len() {
        assert(r.skip(i as int) =~= Seq::<FPoint>::empty());
    } else if fle(v, r[i as int].y) {
        assert(plat(r[i as int], v));
        lemma_fix_some(r, v, i + 1, i);
    } else {
        assert(keeps(r[i as int], v));
        lemma_fix_none(r, v, i + 1);
        assert(seq![r[i as int]] + r.skip(i as int + 1) =~= r.skip(i as int));
    }
}

#[verifier::rlimit(100)]
proof fn lemma_fix_some(r: Seq<FPoint>, v: Frac, i: nat, s: nat)
    requires
        clipped_shape(r, v),
        s < i <= r.len(),
        i <= s + 2,
        s < r.len(),
        plat(r[s as int], v),
        s == 0 || keeps(r[s as int - 1], v),
        i == s + 2 ==> plat(r[s as int + 1], v),
    ensures
        clip_from(r, v, i, Some(s)) == Some(r.skip(s as int)),
    decreases r.len() - i,
{
    let si = s as int;
    if i >= r.len() {
        if s == 0 {
            if i == 1 {
                assert(shape_at(r, v, 0));
                assert(false);
            }
            assert(r.len() == 2 && plat(r[1], v));
            let rep = seq![FPoint { x: r[0].x, y: v }, FPoint { x: r[1].x, y: v }];
            assert(FPoint { x: r[0].x, y: v } == r[0]);
            assert(FPoint { x: r[1].x, y: v } == r[1]);
            assert(run_replace(r, v, 0, r.len() - 1) == Some(rep));
            assert(rep =~= r.skip(0));
        } else {
            if i == s + 2 {
                assert(shape_at(r, v, si));
                assert(false);
            }
            assert(s == r.len() - 1);
            assert(!feq(v, r[si - 1].y));
            assert(feq(v, r[si].y));
            assert(cross(r[si - 1], r[si], v) == Some(r[si].x));
            let rep = seq![FPoint { x: r[si].x, y: v }];
            assert(FPoint { x: r[si].x, y: v } == r[si]);
            assert(run_replace(r, v, si, r.len() - 1) == Some(rep));
            assert(rep =~= r.skip(si));
        }
    } else if fle(v, r[i as int].y) {
        assert(plat(r[i as int], v));
        if i == s + 2 {
            assert(shape_at(r, v, si + 1));
            assert(false);
        }
        lemma_fix_some(r, v, i + 1, s);
    } else {
        assert(keeps(r[i as int], v));
        lemma_fix_none(r, v, i + 1);
        if s == 0 {
            if i == 2 {
                assert(shape_at(r, v, 0));
                assert(false);
            }
            assert(i == 1);
            assert(feq(v, r[0].y));
            assert(cross(r[0], r[1], v) == Some(r[0].x));
            assert(run_replace(r, v, 0, 0) == Some(seq![FPoint { x: r[0].x, y: v }]));
            assert(FPoint { x: r[0].x, y: v } == r[0]);
            assert(seq![FPoint { x: r[0].x, y: v }] + seq![r[1]] + r.skip(2) =~= r.skip(0));
        } else {
            if i == s + 1 {
                assert(shape_at(r, v, si));
                assert(false);
            }
            assert(i == s + 2 && plat(r[si + 1], v));
            assert(!feq(v, r[si - 1].y));
            assert(feq(v, r[si].y));
            assert(cross(r[si - 1], r[si], v) == Some(r[si].x));
            assert(feq(v, r[si + 1].y));
            assert(cross(r[si + 1], r[si + 2], v) == Some(r[si + 1].x));
            let rep = seq![FPoint { x: r[si].x, y: v }, FPoint { x: r[si + 1].x, y: v }];
            assert(run_replace(r, v, si, si + 1) == Some(rep));
            assert(FPoint { x: r[si].x, y: v } == r[si]);
            assert(FPoint { x: r[si + 1].x, y: v } == r[si + 1]);
            assert(rep + seq![r[i as int]] + r.skip(i as int + 1) =~= r.skip(si));
        }
    }
}

/// A curve already in clipped normal form is a fixpoint of clipping:
/// clipping it again at the same threshold reproduces it exactly.
pub proof fn lemma_clipped_shape_fixpoint(r: Seq<FPoint>, v: Frac)
    requires
        clipped_shape(r, v),
    ensures
        sclip(r, v) == Some(r),
{
    lemma_fix_none(r, v, 0);
    assert(r.skip(0) =~= r);
}

/// [`shape_at`] relative to a context: `pre` says that in the full curve
/// a point strictly below the threshold immediately precedes this piece.
pub open spec fn shape_at_ctx(r: Seq<FPoint>, v: Frac, k: int, pre: bool) -> bool {
    ||| (!pre && k == 0 && r.len() == 2 && plat(r[1], v))
    ||| (!pre && k == 1 && r.len() == 2 && plat(r[0], v))
    ||| (!pre && k == 0 && r.len() >= 2 && keeps(r[1], v))
    ||| (k == r.len() - 1 && (k >= 1 ==> keeps(r[k - 1], v)) && (k == 0 ==> pre))
    ||| (k + 2 < r.len() && (k >= 1 ==> keeps(r[k - 1], v)) && (k == 0 ==> pre) && plat(
        r[k + 1],
        v,
    ) && keeps(r[k + 2], v))
    ||| (1 <= k && k + 1 < r.len() && plat(r[k - 1], v) && (k >= 2 ==> keeps(r[k - 2], v)) && (k
        == 1 ==> pre) && keeps(r[k + 1], v))
}

/// Clipped normal form of a curve piece, relative to its context.
pub open spec fn ctx_shape(r: Seq<FPoint>, v: Frac, pre: bool) -> bool {
    &&& forall|k: int| #![trigger r[k]]
        0 <= k < r.len() ==> keeps(r[k], v) || plat(r[k], v)
    &&& forall|k: int| #![trigger r[k]]
        0 <= k < r.len() && plat(r[k], v) ==> shape_at_ctx(r, v, k, pre)
}

/// At the start of the whole curve, the contextual normal form is the
/// absolute one.
proof fn lemma_ctx_shape_closed(r: Seq<FPoint>, v: Frac)
    requires
        ctx_shape(r, v, false),
    ensures
        clipped_shape(r, v),
{
    assert forall|k: int| 0 <= k < r.len() && plat(#[trigger] r[k], v) implies shape_at(
        r,
        v,
        k,
    ) by {
        assert(shape_at_ctx(r, v, k, false));
    }
}

/// Prepending a piece that ends strictly below the threshold keeps a
/// following normal-form piece in normal form.
proof fn lemma_ctx_prepend(q: Seq<FPoint>, r: Seq<FPoint>, v: Frac, pre: bool)
    requires
        q.len() >= 1,
        keeps(q[q.len() - 1], v),
        ctx_shape(r, v, true),
        forall|k: int| #![trigger q[k]]
            0 <= k < q.len() ==> keeps(q[k], v) || plat(q[k], v),
        forall|k: int| #![trigger q[k]]
            0 <= k < q.len() && plat(q[k], v) ==> shape_at_ctx(q + r, v, k, pre),
    ensures
        ctx_shape(q + r, v, pre),
{
    let t = q + r;
    let m = q.len() as int;
    assert forall|k: int| 0 <= k < t.len() implies keeps(#[trigger] t[k], v) || plat(t[k], v) by {
        if k < m {
            assert(t[k] == q[k]);
        } else {
            assert(t[k] == r[k - m]);
        }
    }
    assert forall|k: int| 0 <= k < t.len() && plat(#[trigger] t[k], v) implies shape_at_ctx(
        t,
        v,
        k,
        pre,
    ) by {
        if k < m {
            assert(t[k] == q[k]);
        } else {
            let j = k - m;
            assert(t[k] == r[j]);
            assert(shape_at_ctx(r, v, j, true));
            if j == r.len() - 1 && (j >= 1 ==> keeps(r[j - 1], v)) && (j == 0 ==> true) {
                assert(k == t.len() - 1);
                if j >= 1 {
                    assert(t[k - 1] == r[j - 1]);
                } else {
                    assert(t[k - 1] == q[m - 1]);
                }
                assert(shape_at_ctx(t, v, k, pre));
            } else if j + 2 < r.len() && (j >= 1 ==> keeps(r[j - 1], v)) && (j == 0 ==> true)
                && plat(r[j + 1], v) && keeps(r[j + 2], v) {
                assert(t[k + 1] == r[j + 1]);
                assert(t[k + 2] == r[j + 2]);
                if j >= 1 {
                    assert(t[k - 1] == r[j - 1]);
                } else {
                    assert(t[k - 1] == q[m - 1]);
                }
                assert(shape_at_ctx(t, v, k, pre));
            } else {
                assert(1 <= j && j + 1 < r.len() && plat(r[j - 1], v) && (j >= 2 ==> keeps(
                    r[j - 2],
                    v,
                )) && keeps(r[j + 1], v));
                assert(t[k - 1] == r[j - 1]);
                assert(t[k + 1] == r[j + 1]);
                if j >= 2 {
                    assert(t[k - 2] == r[j - 2]);
                } else {
                    assert(t[k - 2] == q[m - 1]);
                }
                assert(shape_at_ctx(t, v, k, pre));
            }
        }
    }
}

/// What the alpha-cut emits outside a run is in contextual normal form.
proof fn lemma_clip_shape_none(cs: Seq<FPoint>, v: Frac, i: nat, pre: bool)
    requires
        clip_from(cs, v, i, None) is Some,
        pre == (i >= 1),
    ensures
        ctx_shape(clip_from(cs, v, i, None).unwrap(), v, pre),
    decreases cs.len() - i, 1nat,
{
    if i >= cs.len() {
        let e = clip_from(cs, v, i, None).unwrap();
        assert(e.len() == 0);
    } else if fle(v, cs[i as int].y) {
        lemma_clip_shape_some(cs, v, i + 1, i, pre);
    } else {
        let rest = clip_from(cs, v, (i + 1) as nat, None).unwrap();
        lemma_clip_shape_none(cs, v, i + 1, true);
        let q = seq![cs[i as int]];
        assert(keeps(q[0], v));
        lemma_ctx_prepend(q, rest, v, pre);
        assert(clip_from(cs, v, i, None).unwrap() == q + rest);
    }
}

/// What the alpha-cut emits for an open run is in contextual normal
/// form; `pre` reflects whether anything below the threshold precedes
/// the run, which is exactly `s >= 1`.
#[verifier::rlimit(100)]
proof fn lemma_clip_shape_some(cs: Seq<FPoint>, v: Frac, i: nat, s: nat, pre: bool)
    requires
        clip_from(cs, v, i, Some(s)) is Some,
        s < i <= cs.len(),
        pre == (s >= 1),
    ensures
        ctx_shape(clip_from(cs, v, i, Some(s)).unwrap(), v, pre),
    decreases cs.len() - i, 0nat,
{
    let si = s as int;
    let r = clip_from(cs, v, i, Some(s)).unwrap();
    if i >= cs.len() {
        // The run reaches the right boundary.
        if s == 0 {
            let rep = run_replace(cs, v, 0, cs.len() - 1).unwrap();
            assert(r == rep);
            assert(rep.len() == 2 && plat(rep[0], v) && plat(rep[1], v));
            assert forall|k: int| 0 <= k < r.len() && plat(#[trigger] r[k], v)
                implies shape_at_ctx(r, v, k, pre) by {}
        } else {
            let rep = run_replace(cs, v, si, cs.len() - 1).unwrap();
            assert(r == rep);
            assert(rep.len() == 1 && plat(rep[0], v));
            assert(shape_at_ctx(r, v, 0, pre));
        }
    } else if fle(v, cs[i as int].y) {
        lemma_clip_shape_some(cs, v, i + 1, s, pre);
    } else {
        // The run closes before `i`.
        let rep = run_replace(cs, v, si, i - 1).unwrap();
        let rest = clip_from(cs, v, (i + 1) as nat, None).unwrap();
        lemma_clip_shape_none(cs, v, i + 1, true);
        let q = rep + seq![cs[i as int]];
        assert(r == rep + seq![cs[i as int]] + rest);
        assert(rep + seq![cs[i as int]] + rest =~= q + rest);
        assert(keeps(cs[i as int], v));
        if s == 0 {
            assert(rep.len() == 1 && plat(rep[0], v));
            assert(q.len() == 2 && q[0] == rep[0] && q[1] == cs[i as int]);
            assert(keeps(q[q.len() - 1], v));
            assert forall|k: int| 0 <= k < q.len() && plat(#[trigger] q[k], v)
                implies shape_at_ctx(q + rest, v, k, pre) by {
                assert(k == 0);
                assert((q + rest)[1] == cs[i as int]);
                assert((q + rest).len() >= 2);
            }
            lemma_ctx_prepend(q, rest, v, pre);
        } else {
            assert(rep.len() == 2 && plat(rep[0], v) && plat(rep[1], v));
            assert(q.len() == 3 && q[0] == rep[0] && q[1] == rep[1] && q[2] == cs[i as int]);
            assert(keeps(q[q.len() - 1], v));
            assert forall|k: int| 0 <= k < q.len() && plat(#[trigger] q[k], v)
                implies shape_at_ctx(q + rest, v, k, pre) by {
                assert((q + rest)[0] == q[0] && (q + rest)[1] == q[1] && (q + rest)[2] == q[2]);
                if k == 0 {
                    assert(0 + 2 < (q + rest).len() && plat((q + rest)[1], v) && keeps(
                        (q + rest)[2],
                        v,
                    ));
                } else {
                    assert(k == 1);
                }
            }
            lemma_ctx_prepend(q, rest, v, pre);
        }
    }
}

/// Clipping is idempotent: the curve that one alpha-cut produces is
/// reproduced, point for point, by clipping it again at the same
/// threshold.
pub proof fn lemma_clip_idempotent(cs: Seq<FPoint>, v: Frac)
    requires
        sclip(cs, v) is Some,
    ensures
        sclip(sclip(cs, v).unwrap(), v) == sclip(cs, v),
{
    lemma_clip_shape_none(cs, v, 0, false);
    lemma_ctx_shape_closed(sclip(cs, v).unwrap(), v);
    lemma_clipped_shape_fixpoint(sclip(cs, v).unwrap(), v);
}

} // verus!

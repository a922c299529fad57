//! Fuzzy sets: named piecewise-linear membership curves.
//!
//! A curve is a list of control points ordered by `x`; evaluation
//! interpolates linearly inside the domain and extrapolates flatly outside
//! it.  The alpha-cut transform `apply_threshold` reshapes a curve so no
//! point exceeds a given activation level, with exact crossing points.

use vstd::prelude::*;
use vstd::multiset::Multiset;
use crate::rat::{Rat, Frac, ffits, feq, fle, flt, csub, cmul, cdiv, cadd};
use crate::common::{FuzzyError, FuzzyResult};

verus! {

/// One control point of a membership curve.
#[derive(Debug, Clone, Copy, PartialEq)]
pub struct Point {
    pub x: Rat,
    pub y: Rat,
}

/// Mathematical value of a control point.
pub ghost struct FPoint {
    pub x: Frac,
    pub y: Frac,
}

/// The mathematical curve a point list stands for.
pub open spec fn cv(ps: Seq<Point>) -> Seq<FPoint> {
    Seq::new(ps.len(), |i: int| FPoint { x: ps[i].x@, y: ps[i].y@ })
}

/// A usable curve: nonempty, every coordinate well formed.
pub open spec fn curve_wf(cs: Seq<FPoint>) -> bool {
    &&& cs.len() >= 1
    &&& forall|i: int| #![trigger cs[i]] 0 <= i < cs.len() ==> ffits(cs[i].x) && ffits(cs[i].y)
}

/// Points ordered by `x` (duplicates allowed, their order unspecified).
pub open spec fn sorted_x(cs: Seq<FPoint>) -> bool {
    forall|i: int| #![trigger cs[i]] 0 <= i && i + 1 < cs.len() ==> fle(cs[i].x, cs[i + 1].x)
}

/// First index at or after `i` whose key equals `k`.
pub open spec fn find_idx<T>(ts: Seq<(String, T)>, k: Seq<char>, i: nat) -> Option<nat>
    decreases ts.len() - i,
{
    if i >= ts.len() {
        None
    } else if ts[i as int].0@ == k {
        Some(i)
    } else {
        find_idx(ts, k, (i + 1) as nat)
    }
}

/// The point list registered under term name `k`, if any.
pub open spec fn find_term(ts: Seq<(String, Vec<Point>)>, k: Seq<char>) -> Option<Seq<Point>> {
    match find_idx(ts, k, 0) {
        Some(i) => Some(ts[i as int].1@),
        None => None,
    }
}

/// Index of the segment `[p_i, p_{i+1}]` that brackets `x`, scanning left
/// to right from `i`.
pub open spec fn find_bracket(cs: Seq<FPoint>, x: Frac, i: nat) -> Option<nat>
    decreases cs.len() - i,
{
    if i + 1 >= cs.len() {
        None
    } else if fle(cs[i as int].x, x) && fle(x, cs[i + 1 as int].x) {
        Some(i)
    } else {
        find_bracket(cs, x, (i + 1) as nat)
    }
}

/// Linear interpolation of the segment `(p, q)` at `x`:
/// `y = p.y + (x - p.x) * slope` with `slope = (p.y - q.y) / (p.x - q.x)`,
/// a degenerate vertical segment treated as flat.  `None` when a step
/// leaves the representable range.
pub open spec fn interp(p: FPoint, q: FPoint, x: Frac) -> Option<Frac> {
    if feq(x, p.x) {
        Some(p.y)
    } else if feq(x, q.x) {
        Some(q.y)
    } else if feq(p.x, q.x) {
        Some(p.y)
    } else {
        match csub(p.y, q.y) {
            None => None,
            Some(dy) => match csub(p.x, q.x) {
                None => None,
                Some(dx) => match cdiv(dy, dx) {
                    None => None,
                    Some(slope) => match csub(x, p.x) {
                        None => None,
                        Some(off) => match cmul(off, slope) {
                            None => None,
                            Some(rise) => cadd(p.y, rise),
                        },
                    },
                },
            },
        }
    }
}

/// Evaluation of a curve at `x`: flat extrapolation outside the domain,
/// linear interpolation on the first bracketing segment inside it.
pub open spec fn seval(cs: Seq<FPoint>, x: Frac) -> Option<Frac>
    recommends
        cs.len() >= 1,
{
    let first = cs[0];
    let last = cs[cs.len() - 1];
    if flt(x, first.x) {
        Some(first.y)
    } else if flt(last.x, x) {
        Some(last.y)
    } else {
        match find_bracket(cs, x, 0) {
            Some(i) => interp(cs[i as int], cs[i as int + 1], x),
            None => interp(first, last, x),
        }
    }
}

/// A fuzzy set: a mapping from term name to its membership curve.
#[derive(Debug, Clone, PartialEq)]
pub struct FuzzySet {
    terms: Vec<(String, Vec<Point>)>,
}

impl View for FuzzySet {
    type V = Seq<(String, Vec<Point>)>;

    closed spec fn view(&self) -> Seq<(String, Vec<Point>)> {
        self.terms@
    }
}

impl FuzzySet {
    /// Validity: every curve usable, term names unique.
    pub open spec fn wf(self) -> bool {
        &&& forall|i: int| #![trigger self@[i]] 0 <= i < self@.len() ==> curve_wf(cv(self@[i].1@))
        &&& forall|i: int, j: int|
            0 <= i < j < self@.len() ==> #[trigger] self@[i].0@ != #[trigger] self@[j].0@
    }

    /// An empty fuzzy set.
    pub fn new() -> (r: Self)
        ensures
            r.wf(),
            r@ =~= Seq::<(String, Vec<Point>)>::empty(),
    {
        FuzzySet { terms: Vec::new() }
    }

    /// Registers (or replaces) the curve of term `key`, sorting `points`
    /// by `x`; a list of fewer than two points is rejected.
    pub fn term(self, key: String, points: Vec<Point>) -> (r: FuzzyResult<Self>)
        requires
            self.wf(),
            forall|i: int| #![trigger points@[i]]
                0 <= i < points@.len() ==> points@[i].x.wf() && points@[i].y.wf(),
        ensures
            points@.len() < 2 ==> r matches Err(FuzzyError::InvalidPoints),
            points@.len() >= 2 ==> (r matches Ok(s) && {
                &&& s.wf()
                &&& (find_term(s@, key@) matches Some(sp) && sorted_x(cv(sp))
                    && sp.to_multiset() == points@.to_multiset() && sp.len() == points@.len())
                &&& forall|k: Seq<char>|
                    k != key@ ==> #[trigger] find_term(s@, k) == find_term(self@, k)
            }),
    {
        if points.len() < 2 {
            return Err(FuzzyError::InvalidPoints);
        }
        let ghost orig = self@;
        let sorted = sort_points(points);
        let mut s = self;
        let found = lookup_idx(&s.terms, &key);
        match found {
            Some(i) => {
                proof {
                    lemma_find_idx_in_range(s.terms@, key@, 0);
                }
                s.terms.set(i, (key, sorted));
                proof {
                    lemma_replace_at_found(orig, s.terms@, key@, i as nat);
                    assert(curve_wf(cv(sorted@)));
                    assert forall|j: int| 0 <= j < s@.len() implies curve_wf(
                        cv(#[trigger] s@[j].1@),
                    ) by {
                        if j != i {
                            assert(s@[j] == orig[j]);
                        }
                    }
                }
            },
            None => {
                s.terms.push((key, sorted));
                proof {
                    lemma_push_new(orig, s.terms@, key@);
                    lemma_find_idx_all_differ(orig, key@, 0);
                    assert(curve_wf(cv(sorted@)));
                    assert forall|j: int| 0 <= j < s@.len() implies curve_wf(
                        cv(#[trigger] s@[j].1@),
                    ) by {
                        if j < orig.len() {
                            assert(s@[j] == orig[j]);
                        }
                    }
                    assert forall|a: int, b: int| 0 <= a < b < s@.len() implies s@[a].0@
                        != s@[b].0@ by {
                        if b < orig.len() {
                            assert(s@[a] == orig[a] && s@[b] == orig[b]);
                        } else {
                            assert(s@[a] == orig[a]);
                        }
                    }
                }
            },
        }
        Ok(s)
    }

    /// Reshapes the named term's curve so no point exceeds `value`
    /// (alpha-cut implication); the exact clipped shape is [`sclip`].
    /// On any error the set is left unchanged.
    pub fn apply_threshold(&mut self, term: &String, value: &Rat) -> (r: FuzzyResult<()>)
        requires
            old(self).wf(),
            value.wf(),
        ensures
            final(self).wf(),
            match r {
                Ok(()) => {
                    &&& (find_term(old(self)@, term@) matches Some(ps)
                        && find_term(final(self)@, term@) is Some
                        && sclip(cv(ps), value@) == Some(
                            cv(find_term(final(self)@, term@).unwrap()),
                        ))
                    &&& forall|k: Seq<char>| k != term@ ==> #[trigger] find_term(final(self)@, k)
                        == find_term(old(self)@, k)
                },
                Err(e) => final(self)@ == old(self)@ && match e {
                    FuzzyError::InvalidTerm(t) => t@ == term@ && find_term(old(self)@, term@)
                        is None,
                    FuzzyError::Misc(_) => (find_term(old(self)@, term@) matches Some(ps)
                        && sclip(cv(ps), value@) is None),
                    _ => false,
                },
            },
    {
        let ghost orig = self@;
        let found = lookup_idx(&self.terms, term);
        match found {
            Some(i) => {
                proof {
                    lemma_find_idx_in_range(self.terms@, term@, 0);
                    assert(curve_wf(cv(self@[i as int].1@)));
                }
                match clip_points(&self.terms[i].1, value) {
                    Some(out) => {
                        let name = self.terms[i].0.clone();
                        self.terms.set(i, (name, out));
                        proof {
                            lemma_replace_at_found(orig, self.terms@, term@, i as nat);
                            assert forall|j: int| 0 <= j < self@.len() implies curve_wf(
                                cv(#[trigger] self@[j].1@),
                            ) by {
                                if j != i {
                                    assert(self@[j] == orig[j]);
                                }
                            }
                        }
                        Ok(())
                    },
                    None => Err(FuzzyError::Misc(overflow_message())),
                }
            },
            None => Err(FuzzyError::InvalidTerm(term.clone())),
        }
    }

    /// A set holding exactly one term, the points taken as given.
    pub fn single_term(name: String, points: Vec<Point>) -> (r: FuzzyResult<Self>)
        requires
            forall|i: int| #![trigger points@[i]]
                0 <= i < points@.len() ==> points@[i].x.wf() && points@[i].y.wf(),
        ensures
            points@.len() < 2 ==> r matches Err(FuzzyError::InvalidPoints),
            points@.len() >= 2 ==> (r matches Ok(s) && s.wf() && s@.len() == 1 && s@[0].0 == name
                && s@[0].1@ == points@),
    {
        if points.len() < 2 {
            return Err(FuzzyError::InvalidPoints);
        }
        let mut terms: Vec<(String, Vec<Point>)> = Vec::new();
        terms.push((name, points));
        let s = FuzzySet { terms };
        proof {
            assert(curve_wf(cv(s@[0].1@)));
        }
        Ok(s)
    }

    /// Read access to all `(term, points)` pairs.
    pub fn terms(&self) -> (r: &Vec<(String, Vec<Point>)>)
        ensures
            r@ == self@,
    {
        &self.terms
    }

    /// The point list of one named term.
    pub fn points(&self, term: &String) -> (r: FuzzyResult<&Vec<Point>>)
        ensures
            match r {
                Ok(ps) => find_term(self@, term@) == Some(ps@),
                Err(e) => find_term(self@, term@) is None && (e matches
                    FuzzyError::InvalidTerm(t) && t@ == term@),
            },
    {
        let found = lookup_idx(&self.terms, term);
        match found {
            Some(i) => {
                proof {
                    lemma_find_idx_in_range(self.terms@, term@, 0);
                }
                Ok(&self.terms[i].1)
            },
            None => Err(FuzzyError::InvalidTerm(term.clone())),
        }
    }

    /// Membership degree of one named term at the crisp value `x`.
    pub fn call_single(&self, term: &String, x: &Rat) -> (r: FuzzyResult<Rat>)
        requires
            self.wf(),
            x.wf(),
        ensures
            match r {
                Ok(y) => y.wf() && (find_term(self@, term@) matches Some(ps)
                    && seval(cv(ps), x@) == Some(y@)),
                Err(e) => match e {
                    FuzzyError::InvalidTerm(t) => t@ == term@ && find_term(self@, term@) is None,
                    FuzzyError::Misc(_) => find_term(self@, term@) matches Some(ps)
                        && seval(cv(ps), x@) is None,
                    _ => false,
                },
            },
    {
        let found = lookup_idx(&self.terms, term);
        match found {
            Some(i) => {
                proof {
                    lemma_find_idx_in_range(self.terms@, term@, 0);
                }
                match eval_curve(&self.terms[i].1, x) {
                    Some(y) => Ok(y),
                    None => Err(FuzzyError::Misc(overflow_message())),
                }
            },
            None => Err(FuzzyError::InvalidTerm(term.clone())),
        }
    }

    /// Membership degrees of every term at the crisp value `x`, in
    /// registration order.
    pub fn call(&self, x: &Rat) -> (r: FuzzyResult<Vec<(String, Rat)>>)
        requires
            self.wf(),
            x.wf(),
        ensures
            match r {
                Ok(ys) => {
                    &&& ys@.len() == self@.len()
                    &&& forall|i: int| #![trigger ys@[i]] 0 <= i < self@.len() ==> {
                        &&& ys@[i].0@ == self@[i].0@
                        &&& ys@[i].1.wf()
                        &&& Some(ys@[i].1@) == seval(cv(self@[i].1@), x@)
                    }
                },
                Err(e) => (e matches FuzzyError::Misc(_)) && exists|i: int|
                    0 <= i < self@.len() && seval(cv(#[trigger] self@[i].1@), x@) is None,
            },
    {
        let mut ys: Vec<(String, Rat)> = Vec::new();
        let n = self.terms.len();
        for i in 0..n
            invariant
                n == self@.len(),
                self.wf(),
                x.wf(),
                ys@.len() == i,
                forall|j: int| #![trigger ys@[j]] 0 <= j < i ==> {
                    &&& ys@[j].0@ == self@[j].0@
                    &&& ys@[j].1.wf()
                    &&& Some(ys@[j].1@) == seval(cv(self@[j].1@), x@)
                },
        {
            match eval_curve(&self.terms[i].1, x) {
                Some(y) => {
                    let name = self.terms[i].0.clone();
                    ys.push((name, y));
                },
                None => {
                    return Err(FuzzyError::Misc(overflow_message()));
                },
            }
        }
        Ok(ys)
    }
}

/// The message carried by arithmetic range errors.
fn overflow_message() -> (r: String) {
    "arithmetic overflow".to_owned()
}

/// Linear scan for a key in an association list.
pub fn lookup_idx<T>(ts: &Vec<(String, T)>, k: &String) -> (r: Option<usize>)
    ensures
        match r {
            Some(i) => find_idx(ts@, k@, 0) == Some(i as nat),
            None => find_idx(ts@, k@, 0) is None,
        },
{
    let n = ts.len();
    for i in 0..n
        invariant
            n == ts@.len(),
            find_idx(ts@, k@, 0) == find_idx(ts@, k@, i as nat),
    {
        if String::eq(&ts[i].0, k) {
            return Some(i);
        }
    }
    None
}

/// A found index lies inside the list and carries the key looked for.
pub proof fn lemma_find_idx_in_range<T>(ts: Seq<(String, T)>, k: Seq<char>, i: nat)
    requires
        find_idx(ts, k, i) is Some,
        i <= ts.len(),
    ensures
        i <= find_idx(ts, k, i).unwrap() < ts.len(),
        ts[find_idx(ts, k, i).unwrap() as int].0@ == k,
        forall|j: nat| i <= j < find_idx(ts, k, i).unwrap() ==> ts[j as int].0@ != k,
    decreases ts.len() - i,
{
    if i >= ts.len() {
    } else if ts[i as int].0@ == k {
    } else {
        lemma_find_idx_in_range(ts, k, i + 1);
    }
}

/// A missed lookup means every key from `i` on differs from `k`.
pub proof fn lemma_find_idx_all_differ<T>(ts: Seq<(String, T)>, k: Seq<char>, i: nat)
    requires
        find_idx(ts, k, i) is None,
    ensures
        forall|j: int| i <= j < ts.len() ==> #[trigger] ts[j].0@ != k,
    decreases ts.len() - i,
{
    if i >= ts.len() {
    } else {
        lemma_find_idx_all_differ(ts, k, i + 1);
    }
}

/// Lookups agree on lists whose keys and positions agree.
proof fn lemma_find_idx_congruent(
    a: Seq<(String, Vec<Point>)>,
    b: Seq<(String, Vec<Point>)>,
    k: Seq<char>,
    i: nat,
)
    requires
        a.len() == b.len(),
        forall|j: int| 0 <= j < a.len() ==> #[trigger] a[j].0@ == #[trigger] b[j].0@,
    ensures
        find_idx(a, k, i) == find_idx(b, k, i),
    decreases a.len() - i,
{
    if i >= a.len() {
    } else {
        assert(a[i as int].0@ == b[i as int].0@);
        lemma_find_idx_congruent(a, b, k, i + 1);
    }
}

/// Replacing the entry at the index the key scans to keeps every other
/// term's binding and installs the new one.
proof fn lemma_replace_at_found(
    before: Seq<(String, Vec<Point>)>,
    after: Seq<(String, Vec<Point>)>,
    key: Seq<char>,
    i: nat,
)
    requires
        i < before.len(),
        after.len() == before.len(),
        find_idx(before, key, 0) == Some(i),
        after[i as int].0@ == key,
        forall|j: int| 0 <= j < before.len() && j != i ==> after[j] == before[j],
        forall|j: nat| j < i ==> before[j as int].0@ != key,
    ensures
        find_term(after, key) == Some(after[i as int].1@),
        forall|j: int| 0 <= j < after.len() ==> #[trigger] after[j].0@ == before[j].0@,
        forall|k2: Seq<char>| k2 != key ==> #[trigger] find_term(after, k2) == find_term(
            before,
            k2,
        ),
{
    assert forall|j: int| 0 <= j < after.len() implies #[trigger] after[j].0@ == before[j].0@ by {
        if j != i {
        } else {
            lemma_find_idx_in_range(before, key, 0);
        }
    }
    lemma_find_idx_congruent(before, after, key, 0);
    assert forall|k2: Seq<char>| k2 != key implies #[trigger] find_term(after, k2) == find_term(
        before,
        k2,
    ) by {
        lemma_find_idx_congruent(before, after, k2, 0);
        match find_idx(before, k2, 0) {
            Some(j) => {
                lemma_find_idx_in_range(before, k2, 0);
                assert(j != i);
            },
            None => {},
        }
    }
}

/// Appending a fresh key leaves every existing binding alone.
proof fn lemma_push_new(
    before: Seq<(String, Vec<Point>)>,
    after: Seq<(String, Vec<Point>)>,
    key: Seq<char>,
)
    requires
        find_idx(before, key, 0) is None,
        after.len() == before.len() + 1,
        after[after.len() - 1].0@ == key,
        forall|j: int| 0 <= j < before.len() ==> after[j] == before[j],
    ensures
        find_term(after, key) == Some(after[after.len() - 1].1@),
        forall|k2: Seq<char>| k2 != key ==> #[trigger] find_term(after, k2) == find_term(
            before,
            k2,
        ),
{
    lemma_find_idx_misses_prefix(before, after, key, 0);
    assert forall|k2: Seq<char>| k2 != key implies #[trigger] find_term(after, k2) == find_term(
        before,
        k2,
    ) by {
        lemma_find_idx_extend(before, after, k2, 0);
        match find_idx(before, k2, 0) {
            Some(j) => {
                lemma_find_idx_in_range(before, k2, 0);
                assert(after[j as int] == before[j as int]);
            },
            None => {},
        }
    }
}

/// A key absent from the prefix is found exactly at the appended slot.
proof fn lemma_find_idx_misses_prefix(
    before: Seq<(String, Vec<Point>)>,
    after: Seq<(String, Vec<Point>)>,
    key: Seq<char>,
    i: nat,
)
    requires
        find_idx(before, key, i) is None,
        i <= before.len(),
        after.len() == before.len() + 1,
        after[after.len() - 1].0@ == key,
        forall|j: int| 0 <= j < before.len() ==> after[j] == before[j],
    ensures
        find_idx(after, key, i) == Some(before.len() as nat),
    decreases before.len() - i,
{
    if i >= before.len() {
    } else {
        lemma_find_idx_misses_prefix(before, after, key, i + 1);
    }
}

/// Appending an entry cannot change where an absent-from-the-tail key is
/// found among the original entries.
proof fn lemma_find_idx_extend(
    before: Seq<(String, Vec<Point>)>,
    after: Seq<(String, Vec<Point>)>,
    k2: Seq<char>,
    i: nat,
)
    requires
        i <= before.len(),
        after.len() == before.len() + 1,
        after[after.len() - 1].0@ != k2,
        forall|j: int| 0 <= j < before.len() ==> after[j] == before[j],
    ensures
        find_idx(after, k2, i) == find_idx(before, k2, i),
    decreases before.len() - i,
{
    if i >= before.len() {
    } else {
        lemma_find_idx_extend(before, after, k2, i + 1);
    }
}

/// Stable insertion sort of control points by `x`.
fn sort_points(points: Vec<Point>) -> (r: Vec<Point>)
    requires
        forall|i: int| #![trigger points@[i]]
            0 <= i < points@.len() ==> points@[i].x.wf() && points@[i].y.wf(),
    ensures
        r@.len() == points@.len(),
        sorted_x(cv(r@)),
        r@.to_multiset() == points@.to_multiset(),
        forall|i: int| #![trigger r@[i]] 0 <= i < r@.len() ==> r@[i].x.wf() && r@[i].y.wf(),
{
    let n = points.len();
    let mut out: Vec<Point> = Vec::new();
    proof {
        broadcast use vstd::seq_lib::group_to_multiset_ensures;

        assert(points@.subrange(0, 0) =~= Seq::<Point>::empty());
        assert(out@.to_multiset() =~= points@.subrange(0, 0).to_multiset());
    }
    for i in 0..n
        invariant
            n == points@.len(),
            out@.len() == i,
            sorted_x(cv(out@)),
            out@.to_multiset() == points@.subrange(0, i as int).to_multiset(),
            forall|j: int| #![trigger points@[j]]
                0 <= j < points@.len() ==> points@[j].x.wf() && points@[j].y.wf(),
            forall|j: int| #![trigger out@[j]] 0 <= j < out@.len() ==> out@[j].x.wf()
                && out@[j].y.wf(),
    {
        let p = points[i];
        let mut k: usize = 0;
        while k < out.len() && !p.x.lt(&out[k].x)
            invariant
                k <= out@.len(),
                forall|j: int| #![trigger out@[j]] 0 <= j < out@.len() ==> out@[j].x.wf()
                    && out@[j].y.wf(),
                p.x.wf(),
                forall|j: int| 0 <= j < k ==> fle(#[trigger] cv(out@)[j].x, p.x@),
            decreases out@.len() - k,
        {
            k += 1;
        }
        let ghost before = out@;
        out.insert(k, p);
        proof {
            broadcast use vstd::seq_lib::group_to_multiset_ensures;

            assert(out@ =~= before.insert(k as int, p));
            lemma_insert_multiset(before, k as int, p);
            assert(points@.subrange(0, i + 1) =~= points@.subrange(0, i as int).push(p));
            assert(sorted_x(cv(out@))) by {
                assert forall|j: int| 0 <= j && j + 1 < out@.len() implies fle(
                    #[trigger] cv(out@)[j].x,
                    cv(out@)[j + 1].x,
                ) by {
                    if j + 1 < k {
                        assert(cv(before)[j] == cv(out@)[j]);
                        assert(cv(before)[j + 1] == cv(out@)[j + 1]);
                    } else if j + 1 == k {
                        assert(cv(out@)[j] == cv(before)[j]);
                    } else if j == k as int {
                        assert(cv(out@)[j + 1] == cv(before)[j]);
                    } else {
                        assert(cv(out@)[j] == cv(before)[j - 1]);
                        assert(cv(out@)[j + 1] == cv(before)[j]);
                    }
                }
            }
        }
    }
    proof {
        assert(points@.subrange(0, n as int) =~= points@);
    }
    out
}

/// Inserting an element adds exactly it to the multiset of a sequence.
proof fn lemma_insert_multiset(s: Seq<Point>, k: int, p: Point)
    requires
        0 <= k <= s.len(),
    ensures
        s.insert(k, p).to_multiset() == s.to_multiset().insert(p),
{
    broadcast use vstd::seq_lib::group_to_multiset_ensures;

    let left = s.subrange(0, k);
    let right = s.subrange(k, s.len() as int);
    assert(s.insert(k, p) =~= left + seq![p] + right);
    assert(s =~= left + right);
    vstd::seq_lib::lemma_multiset_commutative(left + seq![p], right);
    vstd::seq_lib::lemma_multiset_commutative(left, seq![p]);
    vstd::seq_lib::lemma_multiset_commutative(left, right);
    assert(seq![p] =~= Seq::<Point>::empty().push(p));
    assert(seq![p].to_multiset() =~= Multiset::<Point>::empty().insert(p));
    assert((left + seq![p] + right).to_multiset() =~= (left + right).to_multiset().insert(p));
}

/// Evaluates a curve at `x`, mirroring [`seval`]; `None` when a step
/// leaves the representable range.
pub fn eval_curve(ps: &Vec<Point>, x: &Rat) -> (r: Option<Rat>)
    requires
        curve_wf(cv(ps@)),
        x.wf(),
    ensures
        match r {
            Some(y) => y.wf() && seval(cv(ps@), x@) == Some(y@),
            None => seval(cv(ps@), x@) is None,
        },
{
    let ghost cs = cv(ps@);
    let n = ps.len();
    let first = ps[0];
    let last = ps[n - 1];
    if x.lt(&first.x) {
        return Some(first.y);
    }
    if last.x.lt(x) {
        return Some(last.y);
    }
    let mut i: usize = 0;
    while i < n - 1
        invariant
            n == ps@.len(),
            cs == cv(ps@),
            curve_wf(cs),
            x.wf(),
            i <= n,
            !flt(x@, cs[0].x),
            !flt(cs[n - 1].x, x@),
            find_bracket(cs, x@, 0) == find_bracket(cs, x@, i as nat),
        decreases n - i,
    {
        if ps[i].x.le(x) && x.le(&ps[i + 1].x) {
            assert(find_bracket(cs, x@, i as nat) == Some(i as nat));
            return interp_exec(&ps[i], &ps[i + 1], x);
        }
        i += 1;
    }
    assert(find_bracket(cs, x@, 0) is None);
    interp_exec(&first, &last, x)
}

/// Executable mirror of [`interp`].
fn interp_exec(p: &Point, q: &Point, x: &Rat) -> (r: Option<Rat>)
    requires
        p.x.wf(),
        p.y.wf(),
        q.x.wf(),
        q.y.wf(),
        x.wf(),
    ensures
        match r {
            Some(y) => y.wf() && interp(
                FPoint { x: p.x@, y: p.y@ },
                FPoint { x: q.x@, y: q.y@ },
                x@,
            ) == Some(y@),
            None => interp(FPoint { x: p.x@, y: p.y@ }, FPoint { x: q.x@, y: q.y@ }, x@) is None,
        },
{
    if x.eq_val(&p.x) {
        return Some(p.y);
    }
    if x.eq_val(&q.x) {
        return Some(q.y);
    }
    if p.x.eq_val(&q.x) {
        return Some(p.y);
    }
    let dy = match p.y.checked_sub(q.y) {
        Some(v) => v,
        None => {
            return None;
        },
    };
    let dx = match p.x.checked_sub(q.x) {
        Some(v) => v,
        None => {
            return None;
        },
    };
    let slope = match dy.checked_div(dx) {
        Some(v) => v,
        None => {
            return None;
        },
    };
    let off = match x.checked_sub(p.x) {
        Some(v) => v,
        None => {
            return None;
        },
    };
    let rise = match off.checked_mul(slope) {
        Some(v) => v,
        None => {
            return None;
        },
    };
    p.y.checked_add(rise)
}

/// Exact crossing of segment `(p, q)` with the horizontal line `y = v`:
/// `x = (v - p.y) / slope + p.x` with `slope = (p.y - q.y) / (p.x - q.x)`,
/// degenerate flat or vertical segments answered with `p.x`, and segment
/// ends already at height `v` answered exactly.
pub open spec fn cross(p: FPoint, q: FPoint, v: Frac) -> Option<Frac> {
    if feq(v, p.y) {
        Some(p.x)
    } else if feq(v, q.y) {
        Some(q.x)
    } else if feq(p.x, q.x) {
        Some(p.x)
    } else if feq(p.y, q.y) {
        Some(p.x)
    } else {
        match csub(p.y, q.y) {
            None => None,
            Some(dy) => match csub(p.x, q.x) {
                None => None,
                Some(dx) => match cdiv(dy, dx) {
                    None => None,
                    Some(slope) => match csub(v, p.y) {
                        None => None,
                        Some(num) => match cdiv(num, slope) {
                            None => None,
                            Some(off) => cadd(off, p.x),
                        },
                    },
                },
            },
        }
    }
}

/// Replacement for a maximal run `[s, e]` of points at or above the
/// threshold `v`: the whole curve collapses to two plateau points, a run
/// touching one boundary becomes one crossing point, an interior run
/// becomes its two crossing points.
pub open spec fn run_replace(cs: Seq<FPoint>, v: Frac, s: int, e: int) -> Option<Seq<FPoint>>
    recommends
        0 <= s <= e < cs.len(),
{
    if s == 0 && e == cs.len() - 1 {
        Some(
            seq![
                FPoint { x: cs[0].x, y: v },
                FPoint { x: cs[cs.len() - 1].x, y: v },
            ],
        )
    } else if s == 0 {
        match cross(cs[e], cs[e + 1], v) {
            None => None,
            Some(xc) => Some(seq![FPoint { x: xc, y: v }]),
        }
    } else if e == cs.len() - 1 {
        match cross(cs[s - 1], cs[s], v) {
            None => None,
            Some(xc) => Some(seq![FPoint { x: xc, y: v }]),
        }
    } else {
        match cross(cs[s - 1], cs[s], v) {
            None => None,
            Some(x1) => match cross(cs[e], cs[e + 1], v) {
                None => None,
                Some(x2) => Some(
                    seq![FPoint { x: x1, y: v }, FPoint { x: x2, y: v }],
                ),
            },
        }
    }
}

/// One left-to-right pass of the alpha-cut: points below the threshold are
/// kept, maximal runs at or above it are replaced by [`run_replace`].
/// `run` carries the start of the currently open run.
pub open spec fn clip_from(cs: Seq<FPoint>, v: Frac, i: nat, run: Option<nat>) -> Option<
    Seq<FPoint>,
>
    decreases cs.len() - i,
{
    if i >= cs.len() {
        match run {
            Some(s) => run_replace(cs, v, s as int, cs.len() - 1),
            None => Some(Seq::empty()),
        }
    } else if fle(v, cs[i as int].y) {
        clip_from(cs, v, i + 1, if run is Some { run } else { Some(i) })
    } else {
        match run {
            Some(s) => match run_replace(cs, v, s as int, i - 1) {
                None => None,
                Some(rep) => match clip_from(cs, v, i + 1, None) {
                    None => None,
                    Some(rest) => Some(rep + seq![cs[i as int]] + rest),
                },
            },
            None => match clip_from(cs, v, i + 1, None) {
                None => None,
                Some(rest) => Some(seq![cs[i as int]] + rest),
            },
        }
    }
}

/// The clipped form of a whole curve.
pub open spec fn sclip(cs: Seq<FPoint>, v: Frac) -> Option<Seq<FPoint>> {
    clip_from(cs, v, 0, None)
}

/// A successful clip of a nonempty remainder is nonempty.
pub proof fn lemma_clip_nonempty(cs: Seq<FPoint>, v: Frac, i: nat, run: Option<nat>)
    requires
        clip_from(cs, v, i, run) is Some,
        i < cs.len() || run is Some,
        run matches Some(s) ==> s < cs.len(),
    ensures
        clip_from(cs, v, i, run).unwrap().len() >= 1,
    decreases cs.len() - i,
{
    if i >= cs.len() {
    } else if fle(v, cs[i as int].y) {
        lemma_clip_nonempty(cs, v, i + 1, if run is Some { run } else { Some(i) });
    } else {
    }
}

/// Spec mapping of the executable run marker.
pub open spec fn run_of(run: Option<usize>) -> Option<nat> {
    match run {
        Some(s) => Some(s as nat),
        None => None,
    }
}

/// Executable mirror of [`cross`].
fn cross_exec(p: &Point, q: &Point, v: &Rat) -> (r: Option<Rat>)
    requires
        p.x.wf(),
        p.y.wf(),
        q.x.wf(),
        q.y.wf(),
        v.wf(),
    ensures
        match r {
            Some(xc) => xc.wf() && cross(
                FPoint { x: p.x@, y: p.y@ },
                FPoint { x: q.x@, y: q.y@ },
                v@,
            ) == Some(xc@),
            None => cross(FPoint { x: p.x@, y: p.y@ }, FPoint { x: q.x@, y: q.y@ }, v@) is None,
        },
{
    if v.eq_val(&p.y) {
        return Some(p.x);
    }
    if v.eq_val(&q.y) {
        return Some(q.x);
    }
    if p.x.eq_val(&q.x) {
        return Some(p.x);
    }
    if p.y.eq_val(&q.y) {
        return Some(p.x);
    }
    let dy = match p.y.checked_sub(q.y) {
        Some(w) => w,
        None => {
            return None;
        },
    };
    let dx = match p.x.checked_sub(q.x) {
        Some(w) => w,
        None => {
            return None;
        },
    };
    let slope = match dy.checked_div(dx) {
        Some(w) => w,
        None => {
            return None;
        },
    };
    let num = match v.checked_sub(p.y) {
        Some(w) => w,
        None => {
            return None;
        },
    };
    let off = match num.checked_div(slope) {
        Some(w) => w,
        None => {
            return None;
        },
    };
    off.checked_add(p.x)
}

/// Clips a curve at threshold `v`, mirroring [`sclip`]; `None` when a
/// crossing leaves the representable range.
#[verifier::rlimit(60)]
pub fn clip_points(ps: &Vec<Point>, v: &Rat) -> (r: Option<Vec<Point>>)
    requires
        curve_wf(cv(ps@)),
        v.wf(),
    ensures
        match r {
            Some(out) => {
                &&& sclip(cv(ps@), v@) == Some(cv(out@))
                &&& out@.len() >= 1
                &&& forall|j: int| #![trigger out@[j]]
                    0 <= j < out@.len() ==> out@[j].x.wf() && out@[j].y.wf()
            },
            None => sclip(cv(ps@), v@) is None,
        },
{
    let ghost cs = cv(ps@);
    let n = ps.len();
    let mut out: Vec<Point> = Vec::new();
    let mut run: Option<usize> = None;
    let mut i: usize = 0;
    proof {
        assert(cv(out@) + clip_from(cs, v@, 0, None).unwrap() =~= clip_from(
            cs,
            v@,
            0,
            None,
        ).unwrap());
    }
    while i < n
        invariant
            n == ps@.len(),
            cs == cv(ps@),
            curve_wf(cs),
            v.wf(),
            i <= n,
            run matches Some(s) ==> s < i && i <= n,
            forall|j: int| #![trigger out@[j]]
                0 <= j < out@.len() ==> out@[j].x.wf() && out@[j].y.wf(),
            match clip_from(cs, v@, i as nat, run_of(run)) {
                Some(rest) => sclip(cs, v@) == Some(cv(out@) + rest),
                None => sclip(cs, v@) is None,
            },
        decreases n - i,
    {
        let ghost out_before = out@;
        let ghost run_before = run_of(run);
        if v.le(&ps[i].y) {
            if run.is_none() {
                run = Some(i);
            }
        } else {
            match run {
                Some(s) => {
                    let rep0: Point;
                    let rep1: Option<Point>;
                    if s == 0 {
                        let xc = match cross_exec(&ps[i - 1], &ps[i], v) {
                            Some(w) => w,
                            None => {
                                return None;
                            },
                        };
                        rep0 = Point { x: xc, y: *v };
                        rep1 = None;
                    } else {
                        let x1 = match cross_exec(&ps[s - 1], &ps[s], v) {
                            Some(w) => w,
                            None => {
                                return None;
                            },
                        };
                        let x2 = match cross_exec(&ps[i - 1], &ps[i], v) {
                            Some(w) => w,
                            None => {
                                return None;
                            },
                        };
                        rep0 = Point { x: x1, y: *v };
                        rep1 = Some(Point { x: x2, y: *v });
                    }
                    out.push(rep0);
                    if let Some(p1) = rep1 {
                        out.push(p1);
                    }
                    out.push(ps[i]);
                    run = None;
                    proof {
                        let rep = run_replace(cs, v@, s as int, i - 1).unwrap();
                        assert(cv(out@) =~= cv(out_before) + rep + seq![cs[i as int]]);
                        if clip_from(cs, v@, (i + 1) as nat, None) is Some {
                            assert(cv(out_before) + (rep + seq![cs[i as int]] + clip_from(
                                cs,
                                v@,
                                (i + 1) as nat,
                                None,
                            ).unwrap()) =~= cv(out@) + clip_from(cs, v@, (i + 1) as nat, None).unwrap());
                        }
                    }
                },
                None => {
                    out.push(ps[i]);
                    proof {
                        assert(cv(out@) =~= cv(out_before) + seq![cs[i as int]]);
                        if clip_from(cs, v@, (i + 1) as nat, None) is Some {
                            assert(cv(out_before) + (seq![cs[i as int]] + clip_from(
                                cs,
                                v@,
                                (i + 1) as nat,
                                None,
                            ).unwrap()) =~= cv(out@) + clip_from(cs, v@, (i + 1) as nat, None).unwrap());
                        }
                    }
                },
            }
        }
        i += 1;
    }
    let ghost out_old = out@;
    match run {
        Some(s) => {
            if s == 0 {
                let p0 = Point { x: ps[0].x, y: *v };
                let p1 = Point { x: ps[n - 1].x, y: *v };
                out.push(p0);
                out.push(p1);
                proof {
                    let rep = run_replace(cs, v@, 0, n - 1).unwrap();
                    assert(cv(out@) =~= cv(out_old) + rep);
                }
            } else {
                let xc = match cross_exec(&ps[s - 1], &ps[s], v) {
                    Some(w) => w,
                    None => {
                        return None;
                    },
                };
                out.push(Point { x: xc, y: *v });
                proof {
                    let rep = run_replace(cs, v@, s as int, n - 1).unwrap();
                    assert(cv(out@) =~= cv(out_old) + rep);
                }
            }
        },
        None => {
            proof {
                assert(cv(out@) + Seq::<FPoint>::empty() =~= cv(out@));
            }
        },
    }
    proof {
        lemma_clip_nonempty(cs, v@, 0, None);
    }
    Some(out)
}

} // verus!

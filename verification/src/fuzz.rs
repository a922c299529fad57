//! The inference engine: registered input and output fuzzy sets, a rule
//! list, rule firing with min/max connectives, max-accumulation of firing
//! strengths per output term, and synthesis of one aggregate output curve
//! per fired output category.

use vstd::prelude::*;
use crate::rat::{Rat, Frac, fwf, feq, fle, flt, fzero, cadd, lemma_fle_trans};
use crate::set::{
    FuzzySet,
    Point,
    FPoint,
    cv,
    curve_wf,
    find_idx,
    find_term,
    seval,
    sclip,
    clip_points,
    eval_curve,
    lookup_idx,
    lemma_find_idx_in_range,
};
use crate::common::{FuzzyError, FuzzyResult, Category, Term, FuzzyIdent};

verus! {

/// Engine-wide configuration; the accumulation and implication policies
/// are fixed to maximum and clipping, so nothing is configurable yet.
pub struct FuzzerConfig {}

impl FuzzerConfig {
    pub fn new() -> (r: Self) {
        FuzzerConfig {}
    }
}

/// One inference rule: antecedents and the output `(category, term)` they
/// fire.  `And` combines by minimum, `Or` by maximum.
#[derive(Debug, PartialEq)]
pub enum FuzzyRule {
    Unit(FuzzyIdent, FuzzyIdent),
    And(Vec<FuzzyIdent>, FuzzyIdent),
    Or(Vec<FuzzyIdent>, FuzzyIdent),
}

impl FuzzyRule {
    /// The `(category, term)` pairs the rule samples.
    pub open spec fn antecedents(self) -> Seq<(String, String)> {
        match self {
            FuzzyRule::Unit(id, _) => seq![id],
            FuzzyRule::And(ids, _) => ids@,
            FuzzyRule::Or(ids, _) => ids@,
        }
    }

    /// The `(category, term)` the rule fires.
    pub open spec fn output(self) -> (String, String) {
        match self {
            FuzzyRule::Unit(_, o) => o,
            FuzzyRule::And(_, o) => o,
            FuzzyRule::Or(_, o) => o,
        }
    }

    /// A rule must sample at least one antecedent.
    pub open spec fn rule_wf(self) -> bool {
        self.antecedents().len() >= 1
    }
}

/// Outcome of sampling one antecedent.
pub ghost enum Sampled {
    /// The category is missing from the crisp inputs or from the
    /// registered sets (for an output reference: never registered).
    MissingCategory(Seq<char>),
    /// The term is missing from its category's set.
    MissingTerm(Seq<char>),
    /// A step left the representable range.
    Overflow,
    /// The sampled membership degree.
    Val(Frac),
}

/// The crisp input registered under category name `k`.
pub open spec fn find_val(vs: Seq<(String, Rat)>, k: Seq<char>) -> Option<Rat> {
    match find_idx(vs, k, 0) {
        Some(i) => Some(vs[i as int].1),
        None => None,
    }
}

/// The fuzzy set registered under category name `k`.
pub open spec fn find_set(ss: Seq<(String, FuzzySet)>, k: Seq<char>) -> Option<FuzzySet> {
    match find_idx(ss, k, 0) {
        Some(i) => Some(ss[i as int].1),
        None => None,
    }
}

/// Samples the membership degree of `id = (category, term)` at that
/// category's crisp input.
pub open spec fn ssample(
    cats: Seq<(String, FuzzySet)>,
    values: Seq<(String, Rat)>,
    id: (String, String),
) -> Sampled {
    match find_val(values, id.0@) {
        None => Sampled::MissingCategory(id.0@),
        Some(x) => match find_set(cats, id.0@) {
            None => Sampled::MissingCategory(id.0@),
            Some(set) => match find_term(set@, id.1@) {
                None => Sampled::MissingTerm(id.1@),
                Some(ps) => match seval(cv(ps), x@) {
                    None => Sampled::Overflow,
                    Some(y) => Sampled::Val(y),
                },
            },
        },
    }
}

/// Samples the antecedents from index `i` on; the first failure wins.
pub open spec fn ssample_from(
    cats: Seq<(String, FuzzySet)>,
    values: Seq<(String, Rat)>,
    ids: Seq<(String, String)>,
    i: nat,
) -> Result<Seq<Frac>, Sampled>
    decreases ids.len() - i,
{
    if i >= ids.len() {
        Ok(Seq::empty())
    } else {
        match ssample(cats, values, ids[i as int]) {
            Sampled::Val(y) => match ssample_from(cats, values, ids, i + 1) {
                Ok(tl) => Ok(seq![y] + tl),
                Err(e) => Err(e),
            },
            e => Err(e),
        }
    }
}

/// Left fold of the minimum, keeping the earlier value on ties.
pub open spec fn fold_min(ys: Seq<Frac>, i: nat, acc: Frac) -> Frac
    decreases ys.len() - i,
{
    if i >= ys.len() {
        acc
    } else {
        fold_min(
            ys,
            i + 1,
            if flt(ys[i as int], acc) {
                ys[i as int]
            } else {
                acc
            },
        )
    }
}

/// Left fold of the maximum, keeping the later value on ties.
pub open spec fn fold_max(ys: Seq<Frac>, i: nat, acc: Frac) -> Frac
    decreases ys.len() - i,
{
    if i >= ys.len() {
        acc
    } else {
        fold_max(
            ys,
            i + 1,
            if fle(acc, ys[i as int]) {
                ys[i as int]
            } else {
                acc
            },
        )
    }
}

/// The firing strength of a rule over its sampled degrees: the single
/// degree for `Unit`, their minimum for `And`, their maximum for `Or`.
pub open spec fn srule_strength(rule: FuzzyRule, ys: Seq<Frac>) -> Frac
    recommends
        ys.len() >= 1,
{
    match rule {
        FuzzyRule::Unit(_, _) => ys[0],
        FuzzyRule::And(_, _) => fold_min(ys, 1, ys[0]),
        FuzzyRule::Or(_, _) => fold_max(ys, 1, ys[0]),
    }
}

/// The minimum fold yields a sampled value that is at or below every
/// sampled value; the maximum fold, one at or above every sampled value.
pub proof fn lemma_fold_min_is_min(ys: Seq<Frac>, i: nat, acc: Frac)
    requires
        i <= ys.len(),
        fwf(acc),
        forall|j: int| 0 <= j < ys.len() ==> fwf(#[trigger] ys[j]),
    ensures
        fle(fold_min(ys, i, acc), acc),
        fwf(fold_min(ys, i, acc)),
        forall|j: int| i <= j < ys.len() ==> fle(fold_min(ys, i, acc), #[trigger] ys[j]),
        fold_min(ys, i, acc) == acc || exists|j: int|
            i <= j < ys.len() && fold_min(ys, i, acc) == ys[j],
    decreases ys.len() - i,
{
    if i >= ys.len() {
    } else {
        let acc2 = if flt(ys[i as int], acc) {
            ys[i as int]
        } else {
            acc
        };
        lemma_fold_min_is_min(ys, i + 1, acc2);
        let m = fold_min(ys, i, acc);
        assert(m == fold_min(ys, i + 1, acc2));
        lemma_fle_trans(m, acc2, acc);
        assert forall|j: int| i <= j < ys.len() implies fle(m, #[trigger] ys[j]) by {
            if j == i {
                lemma_fle_trans(m, acc2, ys[i as int]);
            }
        }
    }
}

/// See [`lemma_fold_min_is_min`].
pub proof fn lemma_fold_max_is_max(ys: Seq<Frac>, i: nat, acc: Frac)
    requires
        i <= ys.len(),
        fwf(acc),
        forall|j: int| 0 <= j < ys.len() ==> fwf(#[trigger] ys[j]),
    ensures
        fle(acc, fold_max(ys, i, acc)),
        fwf(fold_max(ys, i, acc)),
        forall|j: int| i <= j < ys.len() ==> fle(#[trigger] ys[j], fold_max(ys, i, acc)),
        fold_max(ys, i, acc) == acc || exists|j: int|
            i <= j < ys.len() && fold_max(ys, i, acc) == ys[j],
    decreases ys.len() - i,
{
    if i >= ys.len() {
    } else {
        let acc2 = if fle(acc, ys[i as int]) {
            ys[i as int]
        } else {
            acc
        };
        lemma_fold_max_is_max(ys, i + 1, acc2);
        let m = fold_max(ys, i, acc);
        assert(m == fold_max(ys, i + 1, acc2));
        lemma_fle_trans(acc, acc2, m);
        assert forall|j: int| i <= j < ys.len() implies fle(#[trigger] ys[j], m) by {
            if j == i {
                lemma_fle_trans(ys[i as int], acc2, m);
            }
        }
    }
}

proof fn lemma_fold_min_push(ys: Seq<Frac>, v: Frac, i: nat, acc: Frac)
    requires
        i <= ys.len(),
    ensures
        fold_min(ys.push(v), i, acc) == (if flt(v, fold_min(ys, i, acc)) {
            v
        } else {
            fold_min(ys, i, acc)
        }),
    decreases ys.len() - i,
{
    if i >= ys.len() {
        assert(ys.push(v)[i as int] == v);
        let acc2 = if flt(v, acc) {
            v
        } else {
            acc
        };
        assert(fold_min(ys.push(v), i, acc) == fold_min(ys.push(v), i + 1, acc2));
        assert(fold_min(ys.push(v), i + 1, acc2) == acc2);
        assert(fold_min(ys, i, acc) == acc);
    } else {
        assert(ys.push(v)[i as int] == ys[i as int]);
        let acc2 = if flt(ys[i as int], acc) {
            ys[i as int]
        } else {
            acc
        };
        lemma_fold_min_push(ys, v, i + 1, acc2);
    }
}

proof fn lemma_fold_max_push(ys: Seq<Frac>, v: Frac, i: nat, acc: Frac)
    requires
        i <= ys.len(),
    ensures
        fold_max(ys.push(v), i, acc) == (if fle(fold_max(ys, i, acc), v) {
            v
        } else {
            fold_max(ys, i, acc)
        }),
    decreases ys.len() - i,
{
    if i >= ys.len() {
        assert(ys.push(v)[i as int] == v);
        let acc2 = if fle(acc, v) {
            v
        } else {
            acc
        };
        assert(fold_max(ys.push(v), i, acc) == fold_max(ys.push(v), i + 1, acc2));
        assert(fold_max(ys.push(v), i + 1, acc2) == acc2);
        assert(fold_max(ys, i, acc) == acc);
    } else {
        assert(ys.push(v)[i as int] == ys[i as int]);
        let acc2 = if fle(acc, ys[i as int]) {
            ys[i as int]
        } else {
            acc
        };
        lemma_fold_max_push(ys, v, i + 1, acc2);
    }
}

/// A list whose samples are all known values is sampled to exactly them.
proof fn lemma_ssample_from_vals(
    cats: Seq<(String, FuzzySet)>,
    values: Seq<(String, Rat)>,
    ids: Seq<(String, String)>,
    pref: Seq<Frac>,
    i: nat,
)
    requires
        i <= ids.len(),
        pref.len() == ids.len(),
        forall|j: int| i <= j < ids.len() ==> ssample(cats, values, #[trigger] ids[j])
            == Sampled::Val(pref[j]),
    ensures
        ssample_from(cats, values, ids, i) == Ok::<Seq<Frac>, Sampled>(
            pref.skip(i as int),
        ),
    decreases ids.len() - i,
{
    if i >= ids.len() {
        assert(pref.skip(i as int) =~= Seq::<Frac>::empty());
    } else {
        lemma_ssample_from_vals(cats, values, ids, pref, i + 1);
        assert(seq![pref[i as int]] + pref.skip(i as int + 1) =~= pref.skip(i as int));
    }
}

/// A failure at index `e`, after successes before it, fails the whole
/// sampling with that failure.
proof fn lemma_ssample_from_err(
    cats: Seq<(String, FuzzySet)>,
    values: Seq<(String, Rat)>,
    ids: Seq<(String, String)>,
    pref: Seq<Frac>,
    i: nat,
    e: nat,
)
    requires
        i <= e < ids.len(),
        forall|j: int| i <= j < e ==> j < pref.len() && ssample(cats, values, #[trigger] ids[j])
            == Sampled::Val(pref[j]),
        !(ssample(cats, values, ids[e as int]) is Val),
    ensures
        ssample_from(cats, values, ids, i) == Err::<Seq<Frac>, Sampled>(
            ssample(cats, values, ids[e as int]),
        ),
    decreases ids.len() - i,
{
    if i == e {
    } else {
        lemma_ssample_from_err(cats, values, ids, pref, i + 1, e);
    }
}

/// Samples one antecedent: the crisp input of `id`'s category, evaluated
/// on `id`'s term curve.
fn sample_exec(
    cats: &Vec<(String, FuzzySet)>,
    values: &Vec<(String, Rat)>,
    id: &(String, String),
) -> (r: FuzzyResult<Rat>)
    requires
        forall|i: int| 0 <= i < cats@.len() ==> (#[trigger] cats@[i].1).wf(),
        forall|i: int| 0 <= i < values@.len() ==> (#[trigger] values@[i].1).wf(),
    ensures
        match r {
            Ok(y) => y.wf() && ssample(cats@, values@, *id) == Sampled::Val(y@),
            Err(e) => match e {
                FuzzyError::InvalidCategory(t) => ssample(cats@, values@, *id)
                    == Sampled::MissingCategory(t@),
                FuzzyError::InvalidTerm(t) => ssample(cats@, values@, *id)
                    == Sampled::MissingTerm(t@),
                FuzzyError::Misc(_) => ssample(cats@, values@, *id) == Sampled::Overflow,
                _ => false,
            },
        },
{
    let x = match lookup_idx(values, &id.0) {
        Some(i) => {
            proof {
                lemma_find_idx_in_range(values@, id.0@, 0);
            }
            values[i].1
        },
        None => {
            return Err(FuzzyError::InvalidCategory(id.0.clone()));
        },
    };
    let set = match lookup_idx(cats, &id.0) {
        Some(i) => {
            proof {
                lemma_find_idx_in_range(cats@, id.0@, 0);
            }
            &cats[i].1
        },
        None => {
            return Err(FuzzyError::InvalidCategory(id.0.clone()));
        },
    };
    set.call_single(&id.1, &x)
}

/// Samples a list of antecedents and folds them with the minimum
/// (`use_min`) or the maximum connective.
fn fold_samples(
    cats: &Vec<(String, FuzzySet)>,
    values: &Vec<(String, Rat)>,
    ids: &Vec<(String, String)>,
    use_min: bool,
) -> (r: FuzzyResult<Rat>)
    requires
        ids@.len() >= 1,
        forall|i: int| 0 <= i < cats@.len() ==> (#[trigger] cats@[i].1).wf(),
        forall|i: int| 0 <= i < values@.len() ==> (#[trigger] values@[i].1).wf(),
    ensures
        match r {
            Ok(y) => y.wf() && (ssample_from(cats@, values@, ids@, 0) matches Ok(ys) && y@ == (
            if use_min {
                fold_min(ys, 1, ys[0])
            } else {
                fold_max(ys, 1, ys[0])
            })),
            Err(e) => ssample_from(cats@, values@, ids@, 0) matches Err(se) && err_matches(
                e,
                se,
            ),
        },
{
    let n = ids.len();
    let ghost mut pref: Seq<Frac> = Seq::empty();
    let mut acc = match sample_exec(cats, values, &ids[0]) {
        Ok(y) => y,
        Err(e) => {
            proof {
                lemma_ssample_from_err(cats@, values@, ids@, Seq::empty(), 0, 0);
            }
            return Err(e);
        },
    };
    proof {
        pref = seq![acc@];
    }
    let mut i: usize = 1;
    while i < n
        invariant
            n == ids@.len(),
            n >= 1,
            1 <= i <= n,
            forall|k: int| 0 <= k < cats@.len() ==> (#[trigger] cats@[k].1).wf(),
            forall|k: int| 0 <= k < values@.len() ==> (#[trigger] values@[k].1).wf(),
            acc.wf(),
            pref.len() == i,
            forall|j: int| 0 <= j < i ==> ssample(cats@, values@, #[trigger] ids@[j])
                == Sampled::Val(pref[j]),
            acc@ == (if use_min {
                fold_min(pref, 1, pref[0])
            } else {
                fold_max(pref, 1, pref[0])
            }),
        decreases n - i,
    {
        let y = match sample_exec(cats, values, &ids[i]) {
            Ok(y) => y,
            Err(e) => {
                proof {
                    lemma_ssample_from_err(cats@, values@, ids@, pref, 0, i as nat);
                }
                return Err(e);
            },
        };
        proof {
            lemma_fold_min_push(pref, y@, 1, pref[0]);
            lemma_fold_max_push(pref, y@, 1, pref[0]);
            assert(pref.push(y@)[0] == pref[0]);
        }
        if use_min {
            if y.lt(&acc) {
                acc = y;
            }
        } else {
            if acc.le(&y) {
                acc = y;
            }
        }
        proof {
            pref = pref.push(y@);
        }
        i += 1;
    }
    proof {
        lemma_ssample_from_vals(cats@, values@, ids@, pref, 0);
        assert(pref.skip(0) =~= pref);
    }
    Ok(acc)
}

/// Whether an engine error mirrors a sampling failure.
pub open spec fn err_matches(e: FuzzyError, se: Sampled) -> bool {
    match se {
        Sampled::MissingCategory(c) => e matches FuzzyError::InvalidCategory(t) && t@ == c,
        Sampled::MissingTerm(c) => e matches FuzzyError::InvalidTerm(t) && t@ == c,
        Sampled::Overflow => e matches FuzzyError::Misc(_),
        Sampled::Val(_) => false,
    }
}

impl FuzzyRule {
    /// Evaluates the rule against crisp inputs: samples every antecedent
    /// and combines the degrees per the connective, yielding the fired
    /// output `(category, term)` and the firing strength.
    pub fn apply(&self, fuzzer: &Fuzzer, values: &Vec<(String, Rat)>) -> (r: FuzzyResult<
        (String, String, Rat),
    >)
        requires
            self.rule_wf(),
            fuzzer.wf(),
            forall|i: int| 0 <= i < values@.len() ==> (#[trigger] values@[i].1).wf(),
        ensures
            match r {
                Ok(t) => t.2.wf() && t.0 == self.output().0 && t.1 == self.output().1 && (
                ssample_from(fuzzer.cats(), values@, self.antecedents(), 0) matches Ok(ys) && t.2@
                    == srule_strength(*self, ys)),
                Err(e) => ssample_from(fuzzer.cats(), values@, self.antecedents(), 0)
                    matches Err(se) && err_matches(e, se),
            },
    {
        match self {
            FuzzyRule::Unit(id, out) => {
                let y = match sample_exec(&fuzzer.categories, values, id) {
                    Ok(y) => y,
                    Err(e) => {
                        proof {
                            lemma_ssample_from_err(
                                fuzzer.cats(),
                                values@,
                                self.antecedents(),
                                Seq::empty(),
                                0,
                                0,
                            );
                        }
                        return Err(e);
                    },
                };
                proof {
                    lemma_ssample_from_vals(
                        fuzzer.cats(),
                        values@,
                        self.antecedents(),
                        seq![y@],
                        0,
                    );
                    assert(seq![y@].skip(0) =~= seq![y@]);
                }
                Ok((out.0.clone(), out.1.clone(), y))
            },
            FuzzyRule::And(ids, out) => {
                let y = match fold_samples(&fuzzer.categories, values, ids, true) {
                    Ok(y) => y,
                    Err(e) => {
                        return Err(e);
                    },
                };
                Ok((out.0.clone(), out.1.clone(), y))
            },
            FuzzyRule::Or(ids, out) => {
                let y = match fold_samples(&fuzzer.categories, values, ids, false) {
                    Ok(y) => y,
                    Err(e) => {
                        return Err(e);
                    },
                };
                Ok((out.0.clone(), out.1.clone(), y))
            },
        }
    }
}

/// The inference engine: input sets, output base sets, and rules, built
/// once and read-only during inference.
pub struct Fuzzer {
    categories: Vec<(String, FuzzySet)>,
    outputs: Vec<(String, FuzzySet)>,
    rules: Vec<FuzzyRule>,
    _config: FuzzerConfig,
}

impl Fuzzer {
    /// The registered input sets.
    pub closed spec fn cats(self) -> Seq<(String, FuzzySet)> {
        self.categories@
    }

    /// The registered output base sets.
    pub closed spec fn outs(self) -> Seq<(String, FuzzySet)> {
        self.outputs@
    }

    /// The rules, in registration order.
    pub closed spec fn rules_seq(self) -> Seq<FuzzyRule> {
        self.rules@
    }

    /// Validity: every registered set is well formed.
    pub open spec fn wf(self) -> bool {
        &&& forall|i: int| 0 <= i < self.cats().len() ==> (#[trigger] self.cats()[i].1).wf()
        &&& forall|i: int| 0 <= i < self.outs().len() ==> (#[trigger] self.outs()[i].1).wf()
    }

    /// An engine with no sets and no rules.
    pub fn new() -> (r: Self)
        ensures
            r.wf(),
            r.cats() =~= Seq::<(String, FuzzySet)>::empty(),
            r.outs() =~= Seq::<(String, FuzzySet)>::empty(),
            r.rules_seq() =~= Seq::<FuzzyRule>::empty(),
    {
        Fuzzer {
            categories: Vec::new(),
            outputs: Vec::new(),
            rules: Vec::new(),
            _config: FuzzerConfig::new(),
        }
    }

    /// Evaluates every rule against the crisp `values`, accumulates
    /// firing strengths per output term by maximum, and returns one
    /// aggregate single-term fuzzy set per output category that at least
    /// one rule fired.  A rule referencing an unregistered category fails
    /// with `InvalidCategory`; one referencing an unregistered term, with
    /// `InvalidTerm`.
    #[verifier::rlimit(100)]
    pub fn apply(&self, values: &Vec<(String, Rat)>) -> (r: FuzzyResult<Vec<(String, FuzzySet)>>)
        requires
            self.wf(),
            forall|i: int|
                0 <= i < self.rules_seq().len() ==> (#[trigger] self.rules_seq()[i]).rule_wf(),
            forall|i: int| 0 <= i < values@.len() ==> (#[trigger] values@[i].1).wf(),
        ensures
            match r {
                Ok(out) => sfire(self.cats(), self.outs(), self.rules_seq(), values@, 0)
                    matches Ok(tv) && (sbuild_all(self.outs(), saccum(tv, 0, Seq::empty()), 0)
                    matches Ok(curves) && {
                    let m = saccum(tv, 0, Seq::empty());
                    &&& out@.len() == m.len()
                    &&& forall|a: int| 0 <= a < m.len() ==> {
                        &&& (#[trigger] out@[a]).0@ == m[a].0
                        &&& out@[a].1.wf()
                        &&& out@[a].1@.len() == 1
                        &&& out@[a].1@[0].0@ == "out"@
                        &&& cv(out@[a].1@[0].1@) == curves[a]
                    }
                }),
                Err(e) => {
                    let fired = sfire(self.cats(), self.outs(), self.rules_seq(), values@, 0);
                    match e {
                        FuzzyError::InvalidCategory(t) => fired == Err::<
                            Seq<(String, String, Frac)>,
                            Sampled,
                        >(Sampled::MissingCategory(t@)),
                        FuzzyError::InvalidTerm(t) => fired == Err::<
                            Seq<(String, String, Frac)>,
                            Sampled,
                        >(Sampled::MissingTerm(t@)),
                        FuzzyError::Misc(_) => fired == Err::<
                            Seq<(String, String, Frac)>,
                            Sampled,
                        >(Sampled::Overflow) || (fired matches Ok(tv) && sbuild_all(
                            self.outs(),
                            saccum(tv, 0, Seq::empty()),
                            0,
                        ) == Err::<Seq<Seq<FPoint>>, BuildErr>(BuildErr::Overflow)),
                        FuzzyError::InvalidPoints => fired matches Ok(tv) && sbuild_all(
                            self.outs(),
                            saccum(tv, 0, Seq::empty()),
                            0,
                        ) == Err::<Seq<Seq<FPoint>>, BuildErr>(BuildErr::TooFew),
                    }
                },
            },
    {
        let ghost cats = self.cats();
        let ghost outs = self.outs();
        let ghost rules = self.rules_seq();
        let mut trips: Vec<(String, String, Rat)> = Vec::new();
        let rn = self.rules.len();
        proof {
            if sfire(cats, outs, rules, values@, 0) is Ok {
                assert(tview(trips@) + (sfire(cats, outs, rules, values@, 0) -> Ok_0) =~= (sfire(
                    cats,
                    outs,
                    rules,
                    values@,
                    0,
                ) -> Ok_0));
            }
        }
        for i in 0..rn
            invariant
                rn == rules.len(),
                cats == self.cats(),
                outs == self.outs(),
                rules == self.rules_seq(),
                self.wf(),
                forall|k: int| 0 <= k < rules.len() ==> (#[trigger] rules[k]).rule_wf(),
                forall|k: int| 0 <= k < values@.len() ==> (#[trigger] values@[k].1).wf(),
                forall|k: int| 0 <= k < trips@.len() ==> (#[trigger] trips@[k]).2.wf(),
                match sfire(cats, outs, rules, values@, i as nat) {
                    Ok(tl) => sfire(cats, outs, rules, values@, 0) == Ok::<
                        Seq<(String, String, Frac)>,
                        Sampled,
                    >(tview(trips@) + tl),
                    Err(e) => sfire(cats, outs, rules, values@, 0) == Err::<
                        Seq<(String, String, Frac)>,
                        Sampled,
                    >(e),
                },
        {
            let trip = match self.rules[i].apply(self, values) {
                Ok(t) => t,
                Err(e) => {
                    return Err(e);
                },
            };
            let registered = lookup_idx(&self.outputs, &trip.0);
            if registered.is_none() {
                return Err(FuzzyError::InvalidCategory(trip.0));
            }
            let ghost before = trips@;
            trips.push(trip);
            proof {
                assert(tview(trips@) =~= tview(before).push(
                    (trips@[trips@.len() - 1].0, trips@[trips@.len() - 1].1, trips@[trips@.len()
                        - 1].2@),
                ));
                if sfire(cats, outs, rules, values@, (i + 1) as nat) is Ok {
                    assert(tview(before) + (seq![
                        (trips@[trips@.len() - 1].0, trips@[trips@.len() - 1].1, trips@[
                            trips@.len() - 1].2@),
                    ] + (sfire(cats, outs, rules, values@, (i + 1) as nat) -> Ok_0)) =~= tview(
                        trips@,
                    ) + (sfire(cats, outs, rules, values@, (i + 1) as nat) -> Ok_0));
                }
            }
        }
        let ghost tv = tview(trips@);
        proof {
            assert(tv + Seq::<(String, String, Frac)>::empty() =~= tv);
            assert(sfire(cats, outs, rules, values@, 0) == Ok::<
                Seq<(String, String, Frac)>,
                Sampled,
            >(tv));
        }
        let m = accumulate(&trips);
        let ghost mspec = saccum(tv, 0, Seq::empty());
        proof {
            lemma_sfire_registered(cats, outs, rules, values@, 0);
            lemma_saccum_keys(tv, 0, Seq::empty());
            assert forall|a: int| 0 <= a < mspec.len() implies find_idx(
                outs,
                (#[trigger] mspec[a]).0,
                0,
            ) is Some by {
                assert(exists|j: int| 0 <= j < tv.len() && mspec[a].0 == tv[j].0@);
                let j = choose|j: int| 0 <= j < tv.len() && mspec[a].0 == tv[j].0@;
                assert(find_idx(outs, tv[j].0@, 0) is Some);
            }
        }
        let mut out: Vec<(String, FuzzySet)> = Vec::new();
        let ghost mut cacc: Seq<Seq<FPoint>> = Seq::empty();
        let mn = m.len();
        proof {
            if sbuild_all(outs, mspec, 0) is Ok {
                assert(cacc + (sbuild_all(outs, mspec, 0) -> Ok_0) =~= (sbuild_all(
                    outs,
                    mspec,
                    0,
                ) -> Ok_0));
            }
        }
        for a in 0..mn
            invariant
                mn == m@.len(),
                cats == self.cats(),
                outs == self.outs(),
                rules == self.rules_seq(),
                self.wf(),
                sfire(cats, outs, rules, values@, 0) == Ok::<Seq<(String, String, Frac)>, Sampled>(
                    tv,
                ),
                mspec == saccum(tv, 0, Seq::empty()),
                mspec == mview(m@),
                forall|b: int| 0 <= b < mspec.len() ==> find_idx(
                    outs,
                    (#[trigger] mspec[b]).0,
                    0,
                ) is Some,
                forall|b: int, c: int|
                    0 <= b < m@.len() && 0 <= c < (#[trigger] m@[b]).1@.len() ==> (
                    #[trigger] m@[b].1@[c]).1.wf(),
                out@.len() == a,
                cacc.len() == a,
                forall|b: int| 0 <= b < a ==> {
                    &&& (#[trigger] out@[b]).0@ == mspec[b].0
                    &&& out@[b].1.wf()
                    &&& out@[b].1@.len() == 1
                    &&& out@[b].1@[0].0@ == "out"@
                    &&& cv(out@[b].1@[0].1@) == cacc[b]
                },
                match sbuild_all(outs, mspec, a as nat) {
                    Ok(tl) => sbuild_all(outs, mspec, 0) == Ok::<Seq<Seq<FPoint>>, BuildErr>(
                        cacc + tl,
                    ),
                    Err(e) => sbuild_all(outs, mspec, 0) == Err::<Seq<Seq<FPoint>>, BuildErr>(e),
                },
        {
            proof {
                assert(mspec[a as int].0 == m@[a as int].0@);
            }
            let bi = match lookup_idx(&self.outputs, &m[a].0) {
                Some(bi) => {
                    proof {
                        lemma_find_idx_in_range(self.outputs@, m@[a as int].0@, 0);
                    }
                    bi
                },
                None => {
                    proof {
                        assert(find_idx(outs, mspec[a as int].0, 0) is Some);
                        assert(false);
                    }
                    return Err(FuzzyError::InvalidPoints);
                },
            };
            proof {
                assert(find_set(outs, mspec[a as int].0) == Some(self.outputs@[bi as int].1));
                assert((self.outputs@[bi as int].1).wf());
                assert(mspec[a as int].1 == vview(m@[a as int].1@));
            }
            let built = match build_output(&self.outputs[bi].1, &m[a].1) {
                Ok(s) => s,
                Err(e) => {
                    return Err(e);
                },
            };
            let ghost built_curve = (sbuild_all(outs, mspec, a as nat) -> Ok_0)[0];
            out.push((m[a].0.clone(), built));
            proof {
                let old_cacc = cacc;
                cacc = cacc.push(cv(built@[0].1@));
                if sbuild_all(outs, mspec, (a + 1) as nat) is Ok {
                    assert(old_cacc + (seq![cv(built@[0].1@)] + (sbuild_all(
                        outs,
                        mspec,
                        (a + 1) as nat,
                    ) -> Ok_0)) =~= cacc + (sbuild_all(outs, mspec, (a + 1) as nat) -> Ok_0));
                }
            }
        }
        proof {
            assert(cacc + Seq::<Seq<FPoint>>::empty() =~= cacc);
        }
        Ok(out)
    }

    /// Appends a rule.
    pub fn rule(self, rule: FuzzyRule) -> (r: Self)
        requires
            self.wf(),
        ensures
            r.wf(),
            r.cats() == self.cats(),
            r.outs() == self.outs(),
            r.rules_seq() == self.rules_seq().push(rule),
    {
        let mut s = self;
        s.rules.push(rule);
        proof {
            assert forall|j: int| 0 <= j < s.cats().len() implies (#[trigger] s.cats()[j].1).wf()
            by {
                assert(s.cats()[j] == self.cats()[j]);
            }
            assert forall|j: int| 0 <= j < s.outs().len() implies (#[trigger] s.outs()[j].1).wf()
            by {
                assert(s.outs()[j] == self.outs()[j]);
            }
        }
        s
    }

    /// Registers (or replaces) the input set of a category.
    pub fn fuzzify(self, ident: String, category: FuzzySet) -> (r: Self)
        requires
            self.wf(),
            category.wf(),
        ensures
            r.wf(),
            r.outs() == self.outs(),
            r.rules_seq() == self.rules_seq(),
            find_set(r.cats(), ident@) == Some(category),
            forall|k: Seq<char>| k != ident@ ==> #[trigger] find_set(r.cats(), k) == find_set(
                self.cats(),
                k,
            ),
    {
        let mut s = self;
        let found = lookup_idx(&s.categories, &ident);
        match found {
            Some(i) => {
                proof {
                    lemma_find_idx_in_range(s.categories@, ident@, 0);
                }
                s.categories.set(i, (ident, category));
                proof {
                    lemma_assoc_replace(self.cats(), s.cats(), ident@, i as nat);
                    assert forall|j: int| 0 <= j < s.cats().len() implies (#[trigger] s.cats()[j].1).wf() by {
                        if j != i {
                            assert(s.cats()[j] == self.cats()[j]);
                        }
                    }
                }
            },
            None => {
                s.categories.push((ident, category));
                proof {
                    lemma_assoc_push(self.cats(), s.cats(), ident@);
                    assert forall|j: int| 0 <= j < s.cats().len() implies (#[trigger] s.cats()[j].1).wf() by {
                        if j < self.cats().len() {
                            assert(s.cats()[j] == self.cats()[j]);
                        }
                    }
                }
            },
        }
        proof {
            assert forall|j: int| 0 <= j < s.outs().len() implies (#[trigger] s.outs()[j].1).wf()
            by {
                assert(s.outs()[j] == self.outs()[j]);
            }
        }
        s
    }

    /// Registers (or replaces) the output base set of a category.
    pub fn defuzzify(self, ident: String, output: FuzzySet) -> (r: Self)
        requires
            self.wf(),
            output.wf(),
        ensures
            r.wf(),
            r.cats() == self.cats(),
            r.rules_seq() == self.rules_seq(),
            find_set(r.outs(), ident@) == Some(output),
            forall|k: Seq<char>| k != ident@ ==> #[trigger] find_set(r.outs(), k) == find_set(
                self.outs(),
                k,
            ),
    {
        let mut s = self;
        let found = lookup_idx(&s.outputs, &ident);
        match found {
            Some(i) => {
                proof {
                    lemma_find_idx_in_range(s.outputs@, ident@, 0);
                }
                s.outputs.set(i, (ident, output));
                proof {
                    lemma_assoc_replace(self.outs(), s.outs(), ident@, i as nat);
                    assert forall|j: int| 0 <= j < s.outs().len() implies (#[trigger] s.outs()[j].1).wf() by {
                        if j != i {
                            assert(s.outs()[j] == self.outs()[j]);
                        }
                    }
                }
            },
            None => {
                s.outputs.push((ident, output));
                proof {
                    lemma_assoc_push(self.outs(), s.outs(), ident@);
                    assert forall|j: int| 0 <= j < s.outs().len() implies (#[trigger] s.outs()[j].1).wf() by {
                        if j < self.outs().len() {
                            assert(s.outs()[j] == self.outs()[j]);
                        }
                    }
                }
            },
        }
        proof {
            assert forall|j: int| 0 <= j < s.cats().len() implies (#[trigger] s.cats()[j].1).wf()
            by {
                assert(s.cats()[j] == self.cats()[j]);
            }
        }
        s
    }
}

/// Replacing the entry found for a key rebinds it and nothing else.
proof fn lemma_assoc_replace(
    before: Seq<(String, FuzzySet)>,
    after: Seq<(String, FuzzySet)>,
    key: Seq<char>,
    i: nat,
)
    requires
        i < before.len(),
        after.len() == before.len(),
        find_idx(before, key, 0) == Some(i),
        after[i as int].0@ == key,
        forall|j: int| 0 <= j < before.len() && j != i ==> after[j] == before[j],
        forall|j: nat| j < i ==> before[j as int].0@ != key,
    ensures
        find_set(after, key) == Some(after[i as int].1),
        forall|k2: Seq<char>| k2 != key ==> #[trigger] find_set(after, k2) == find_set(
            before,
            k2,
        ),
{
    assert forall|j: int| 0 <= j < after.len() implies #[trigger] after[j].0@ == before[j].0@ by {
        if j == i {
            lemma_find_idx_in_range(before, key, 0);
        }
    }
    lemma_assoc_congruent(before, after, key, 0);
    assert forall|k2: Seq<char>| k2 != key implies #[trigger] find_set(after, k2) == find_set(
        before,
        k2,
    ) by {
        lemma_assoc_congruent(before, after, k2, 0);
        match find_idx(before, k2, 0) {
            Some(j) => {
                lemma_find_idx_in_range(before, k2, 0);
                assert(j != i);
            },
            None => {},
        }
    }
}

/// Appending a fresh key leaves every existing binding alone.
proof fn lemma_assoc_push(
    before: Seq<(String, FuzzySet)>,
    after: Seq<(String, FuzzySet)>,
    key: Seq<char>,
)
    requires
        find_idx(before, key, 0) is None,
        after.len() == before.len() + 1,
        after[after.len() - 1].0@ == key,
        forall|j: int| 0 <= j < before.len() ==> after[j] == before[j],
    ensures
        find_set(after, key) == Some(after[after.len() - 1].1),
        forall|k2: Seq<char>| k2 != key ==> #[trigger] find_set(after, k2) == find_set(
            before,
            k2,
        ),
{
    lemma_assoc_miss_extend(before, after, key, 0);
    assert forall|k2: Seq<char>| k2 != key implies #[trigger] find_set(after, k2) == find_set(
        before,
        k2,
    ) by {
        lemma_assoc_keep_extend(before, after, k2, 0);
        match find_idx(before, k2, 0) {
            Some(j) => {
                lemma_find_idx_in_range(before, k2, 0);
                assert(after[j as int] == before[j as int]);
            },
            None => {},
        }
    }
}

proof fn lemma_assoc_congruent(
    a: Seq<(String, FuzzySet)>,
    b: Seq<(String, FuzzySet)>,
    k: Seq<char>,
    i: nat,
)
    requires
        a.len() == b.len(),
        forall|j: int| 0 <= j < a.len() ==> #[trigger] a[j].0@ == #[trigger] b[j].0@,
    ensures
        find_idx(a, k, i) == find_idx(b, k, i),
    decreases a.len() - i,
{
    if i >= a.len() {
    } else {
        assert(a[i as int].0@ == b[i as int].0@);
        lemma_assoc_congruent(a, b, k, i + 1);
    }
}

proof fn lemma_assoc_miss_extend(
    before: Seq<(String, FuzzySet)>,
    after: Seq<(String, FuzzySet)>,
    key: Seq<char>,
    i: nat,
)
    requires
        find_idx(before, key, i) is None,
        i <= before.len(),
        after.len() == before.len() + 1,
        after[after.len() - 1].0@ == key,
        forall|j: int| 0 <= j < before.len() ==> after[j] == before[j],
    ensures
        find_idx(after, key, i) == Some(before.len() as nat),
    decreases before.len() - i,
{
    if i >= before.len() {
    } else {
        lemma_assoc_miss_extend(before, after, key, i + 1);
    }
}

proof fn lemma_assoc_keep_extend(
    before: Seq<(String, FuzzySet)>,
    after: Seq<(String, FuzzySet)>,
    k2: Seq<char>,
    i: nat,
)
    requires
        i <= before.len(),
        after.len() == before.len() + 1,
        after[after.len() - 1].0@ != k2,
        forall|j: int| 0 <= j < before.len() ==> after[j] == before[j],
    ensures
        find_idx(after, k2, i) == find_idx(before, k2, i),
    decreases before.len() - i,
{
    if i >= before.len() {
    } else {
        lemma_assoc_keep_extend(before, after, k2, i + 1);
    }
}

/// First index at or after `i` whose key (already a character sequence)
/// equals `k`.
pub open spec fn kfind<T>(m: Seq<(Seq<char>, T)>, k: Seq<char>, i: nat) -> Option<nat>
    decreases m.len() - i,
{
    if i >= m.len() {
        None
    } else if m[i as int].0 == k {
        Some(i)
    } else {
        kfind(m, k, (i + 1) as nat)
    }
}

/// Mathematical view of a fired-rule list.
pub open spec fn tview(trips: Seq<(String, String, Rat)>) -> Seq<(String, String, Frac)> {
    Seq::new(trips.len(), |i: int| (trips[i].0, trips[i].1, trips[i].2@))
}

/// Mathematical view of a `(term, strength)` list.
pub open spec fn vview(vs: Seq<(String, Rat)>) -> Seq<(Seq<char>, Frac)> {
    Seq::new(vs.len(), |i: int| (vs[i].0@, vs[i].1@))
}

/// Mathematical view of accumulated strengths per category and term.
pub open spec fn mview(m: Seq<(String, Vec<(String, Rat)>)>) -> Seq<
    (Seq<char>, Seq<(Seq<char>, Frac)>),
> {
    Seq::new(m.len(), |i: int| (m[i].0@, vview(m[i].1@)))
}

/// Fires the rules from index `i` on: each rule's sampled strength and
/// fired output, with the output category's registration checked; the
/// first failure wins.
pub open spec fn sfire(
    cats: Seq<(String, FuzzySet)>,
    outs: Seq<(String, FuzzySet)>,
    rules: Seq<FuzzyRule>,
    values: Seq<(String, Rat)>,
    i: nat,
) -> Result<Seq<(String, String, Frac)>, Sampled>
    decreases rules.len() - i,
{
    if i >= rules.len() {
        Ok(Seq::empty())
    } else {
        let rule = rules[i as int];
        match ssample_from(cats, values, rule.antecedents(), 0) {
            Err(e) => Err(e),
            Ok(ys) => if find_idx(outs, rule.output().0@, 0) is None {
                Err(Sampled::MissingCategory(rule.output().0@))
            } else {
                match sfire(cats, outs, rules, values, i + 1) {
                    Err(e) => Err(e),
                    Ok(tl) => Ok(
                        seq![(rule.output().0, rule.output().1, srule_strength(rule, ys))] + tl,
                    ),
                }
            },
        }
    }
}

/// Records one firing: the strength accumulates per `(category, term)` by
/// maximum, a strictly greater strength replacing the stored one.
pub open spec fn supsert(
    m: Seq<(Seq<char>, Seq<(Seq<char>, Frac)>)>,
    cat: Seq<char>,
    term: Seq<char>,
    y: Frac,
) -> Seq<(Seq<char>, Seq<(Seq<char>, Frac)>)> {
    match kfind(m, cat, 0) {
        None => m.push((cat, seq![(term, y)])),
        Some(a) => {
            let inner = m[a as int].1;
            let inner2 = match kfind(inner, term, 0) {
                None => inner.push((term, y)),
                Some(b) => if flt(inner[b as int].1, y) {
                    inner.update(b as int, (inner[b as int].0, y))
                } else {
                    inner
                },
            };
            m.update(a as int, (m[a as int].0, inner2))
        },
    }
}

/// Accumulates all firings from index `i` on.
pub open spec fn saccum(
    trips: Seq<(String, String, Frac)>,
    i: nat,
    m: Seq<(Seq<char>, Seq<(Seq<char>, Frac)>)>,
) -> Seq<(Seq<char>, Seq<(Seq<char>, Frac)>)>
    decreases trips.len() - i,
{
    if i >= trips.len() {
        m
    } else {
        saccum(trips, i + 1, supsert(m, trips[i as int].0@, trips[i as int].1@, trips[i as int].2))
    }
}

/// Mathematical view of a list of clipped curves.
pub open spec fn cvv(cs: Seq<Vec<Point>>) -> Seq<Seq<FPoint>> {
    Seq::new(cs.len(), |i: int| cv(cs[i]@))
}

/// Clips every term of the base set at its accumulated strength (zero for
/// a term no rule fired), in registration order.
pub open spec fn sclip_all(
    base: Seq<(String, Vec<Point>)>,
    st: Seq<(Seq<char>, Frac)>,
    i: nat,
) -> Option<Seq<Seq<FPoint>>>
    decreases base.len() - i,
{
    if i >= base.len() {
        Some(Seq::empty())
    } else {
        let strength = match kfind(st, base[i as int].0@, 0) {
            Some(j) => st[j as int].1,
            None => fzero(),
        };
        match sclip(cv(base[i as int].1@), strength) {
            None => None,
            Some(c) => match sclip_all(base, st, i + 1) {
                None => None,
                Some(tl) => Some(seq![c] + tl),
            },
        }
    }
}

/// The position at which `x` stands or belongs in an ascending list.
pub open spec fn xs_pos(xs: Seq<Frac>, x: Frac, j: nat) -> nat
    decreases xs.len() - j,
{
    if j >= xs.len() {
        j
    } else if flt(xs[j as int], x) {
        xs_pos(xs, x, (j + 1) as nat)
    } else {
        j
    }
}

/// Inserts `x` into an ascending list of distinct values, keeping it
/// ascending and distinct.
pub open spec fn xs_insert(xs: Seq<Frac>, x: Frac) -> Seq<Frac> {
    let p = xs_pos(xs, x, 0);
    if p < xs.len() && feq(xs[p as int], x) {
        xs
    } else {
        xs.insert(p as int, x)
    }
}

/// Folds every `x` coordinate of one curve into the list.
pub open spec fn xs_curve(xs: Seq<Frac>, cs: Seq<FPoint>, j: nat) -> Seq<Frac>
    decreases cs.len() - j,
{
    if j >= cs.len() {
        xs
    } else {
        xs_curve(xs_insert(xs, cs[j as int].x), cs, j + 1)
    }
}

/// Folds every `x` coordinate of every curve into the list.
pub open spec fn xs_all(xs: Seq<Frac>, curves: Seq<Seq<FPoint>>, i: nat) -> Seq<Frac>
    decreases curves.len() - i,
{
    if i >= curves.len() {
        xs
    } else {
        xs_all(xs_curve(xs, curves[i as int], 0), curves, i + 1)
    }
}

/// The sum of every clipped curve's value at `x`, from curve `i` on.
pub open spec fn sum_at(curves: Seq<Seq<FPoint>>, x: Frac, i: nat, acc: Frac) -> Option<Frac>
    decreases curves.len() - i,
{
    if i >= curves.len() {
        Some(acc)
    } else {
        match seval(curves[i as int], x) {
            None => None,
            Some(y) => match cadd(acc, y) {
                None => None,
                Some(acc2) => sum_at(curves, x, i + 1, acc2),
            },
        }
    }
}

/// The aggregate surface: one point per collected `x`, its height the sum
/// of every clipped curve there.
pub open spec fn agg_points(curves: Seq<Seq<FPoint>>, xs: Seq<Frac>, k: nat) -> Option<
    Seq<FPoint>,
>
    decreases xs.len() - k,
{
    if k >= xs.len() {
        Some(Seq::empty())
    } else {
        match sum_at(curves, xs[k as int], 0, fzero()) {
            None => None,
            Some(y) => match agg_points(curves, xs, k + 1) {
                None => None,
                Some(tl) => Some(seq![FPoint { x: xs[k as int], y: y }] + tl),
            },
        }
    }
}

/// Outcome of building one output category's aggregate set.
pub ghost enum BuildRes {
    /// A step left the representable range.
    Overflow,
    /// The aggregate surface has fewer than two points.
    TooFew,
    /// The aggregate curve.
    Curve(Seq<FPoint>),
}

/// Builds the aggregate output curve of one category from its base set
/// and the accumulated strengths.
pub open spec fn sbuild(base: Seq<(String, Vec<Point>)>, st: Seq<(Seq<char>, Frac)>) -> BuildRes {
    match sclip_all(base, st, 0) {
        None => BuildRes::Overflow,
        Some(curves) => {
            let xs = xs_all(Seq::empty(), curves, 0);
            match agg_points(curves, xs, 0) {
                None => BuildRes::Overflow,
                Some(pts) => if pts.len() < 2 {
                    BuildRes::TooFew
                } else {
                    BuildRes::Curve(pts)
                },
            }
        },
    }
}

/// Why building an output category failed.
pub ghost enum BuildErr {
    Overflow,
    TooFew,
}

/// Builds every fired category's aggregate curve, in first-firing order;
/// the first failure wins.
pub open spec fn sbuild_all(
    outs: Seq<(String, FuzzySet)>,
    m: Seq<(Seq<char>, Seq<(Seq<char>, Frac)>)>,
    a: nat,
) -> Result<Seq<Seq<FPoint>>, BuildErr>
    decreases m.len() - a,
{
    if a >= m.len() {
        Ok(Seq::empty())
    } else {
        match find_set(outs, m[a as int].0) {
            None => Err(BuildErr::Overflow),
            Some(base) => match sbuild(base@, m[a as int].1) {
                BuildRes::Overflow => Err(BuildErr::Overflow),
                BuildRes::TooFew => Err(BuildErr::TooFew),
                BuildRes::Curve(c) => match sbuild_all(outs, m, a + 1) {
                    Err(e) => Err(e),
                    Ok(tl) => Ok(seq![c] + tl),
                },
            },
        }
    }
}

/// A found view-key index lies inside the list and carries the key.
pub proof fn lemma_kfind_in_range<T>(m: Seq<(Seq<char>, T)>, k: Seq<char>, i: nat)
    requires
        kfind(m, k, i) is Some,
        i <= m.len(),
    ensures
        i <= kfind(m, k, i).unwrap() < m.len(),
        m[kfind(m, k, i).unwrap() as int].0 == k,
    decreases m.len() - i,
{
    if i >= m.len() {
    } else if m[i as int].0 == k {
    } else {
        lemma_kfind_in_range(m, k, i + 1);
    }
}

/// The two lookups agree: keys of the view are the views of the keys.
proof fn lemma_kfind_vview(vs: Seq<(String, Rat)>, k: Seq<char>, i: nat)
    ensures
        find_idx(vs, k, i) == kfind(vview(vs), k, i),
    decreases vs.len() - i,
{
    if i >= vs.len() {
    } else {
        lemma_kfind_vview(vs, k, i + 1);
    }
}

/// See [`lemma_kfind_vview`].
proof fn lemma_kfind_mview(m: Seq<(String, Vec<(String, Rat)>)>, k: Seq<char>, i: nat)
    ensures
        find_idx(m, k, i) == kfind(mview(m), k, i),
    decreases m.len() - i,
{
    if i >= m.len() {
    } else {
        lemma_kfind_mview(m, k, i + 1);
    }
}

/// Every fired output category was checked against the registered ones.
proof fn lemma_sfire_registered(
    cats: Seq<(String, FuzzySet)>,
    outs: Seq<(String, FuzzySet)>,
    rules: Seq<FuzzyRule>,
    values: Seq<(String, Rat)>,
    i: nat,
)
    requires
        sfire(cats, outs, rules, values, i) is Ok,
    ensures
        forall|j: int|
            0 <= j < (sfire(cats, outs, rules, values, i) -> Ok_0).len() ==> find_idx(
                outs,
                (#[trigger] (sfire(cats, outs, rules, values, i) -> Ok_0)[j]).0@,
                0,
            ) is Some,
    decreases rules.len() - i,
{
    if i >= rules.len() {
    } else {
        let rule = rules[i as int];
        match ssample_from(cats, values, rule.antecedents(), 0) {
            Err(_) => {},
            Ok(_) => {
                lemma_sfire_registered(cats, outs, rules, values, i + 1);
            },
        }
    }
}

/// Every category key the accumulation holds came from the map it started
/// with or from a fired triple.
proof fn lemma_saccum_keys(
    trips: Seq<(String, String, Frac)>,
    i: nat,
    m: Seq<(Seq<char>, Seq<(Seq<char>, Frac)>)>,
)
    ensures
        forall|a: int|
            0 <= a < saccum(trips, i, m).len() ==> (exists|b: int|
                0 <= b < m.len() && (#[trigger] saccum(trips, i, m)[a]).0 == m[b].0) || (exists|
                j: int,
            |
                i <= j < trips.len() && saccum(trips, i, m)[a].0 == trips[j].0@),
    decreases trips.len() - i,
{
    if i >= trips.len() {
    } else {
        let m2 = supsert(m, trips[i as int].0@, trips[i as int].1@, trips[i as int].2);
        lemma_saccum_keys(trips, i + 1, m2);
        let res = saccum(trips, i, m);
        assert(res == saccum(trips, i + 1, m2));
        assert forall|a: int| 0 <= a < res.len() implies ((exists|b: int|
            0 <= b < m.len() && (#[trigger] res[a]).0 == m[b].0) || (exists|j: int|
            i <= j < trips.len() && res[a].0 == trips[j].0@)) by {
            assert(res[a] == saccum(trips, i + 1, m2)[a]);
            if exists|b: int| 0 <= b < m2.len() && res[a].0 == m2[b].0 {
                let b = choose|b: int| 0 <= b < m2.len() && res[a].0 == m2[b].0;
                match kfind(m, trips[i as int].0@, 0) {
                    None => {
                        if b < m.len() {
                            assert(m2[b].0 == m[b].0);
                            assert(0 <= b < m.len() && res[a].0 == m[b].0);
                        } else {
                            assert(m2[b].0 == trips[i as int].0@);
                            assert(i <= i < trips.len() && res[a].0 == trips[i as int].0@);
                        }
                    },
                    Some(c) => {
                        lemma_kfind_in_range(m, trips[i as int].0@, 0);
                        assert(m2[b].0 == m[b].0);
                        assert(0 <= b < m.len() && res[a].0 == m[b].0);
                    },
                }
            } else {
                assert(exists|j: int| i + 1 <= j < trips.len() && res[a].0 == trips[j].0@);
                let j = choose|j: int| i + 1 <= j < trips.len() && res[a].0 == trips[j].0@;
                assert(i <= j < trips.len() && res[a].0 == trips[j].0@);
            }
        }
    }
}

/// Mathematical view of a list of collected `x` coordinates.
pub open spec fn xsv(s: Seq<Rat>) -> Seq<Frac> {
    Seq::new(s.len(), |i: int| s[i]@)
}

/// Inserts `x` into the ascending duplicate-free list of coordinates,
/// mirroring [`xs_insert`].
fn insert_unique(xs: &mut Vec<Rat>, x: Rat)
    requires
        x.wf(),
        forall|i: int| 0 <= i < old(xs)@.len() ==> (#[trigger] old(xs)@[i]).wf(),
    ensures
        xsv(final(xs)@) == xs_insert(xsv(old(xs)@), x@),
        forall|i: int| 0 <= i < final(xs)@.len() ==> (#[trigger] final(xs)@[i]).wf(),
{
    let ghost xv = xsv(xs@);
    let n = xs.len();
    let mut j: usize = 0;
    while j < n && xs[j].lt(&x)
        invariant
            n == xs@.len(),
            xs@ == old(xs)@,
            xv == xsv(xs@),
            x.wf(),
            forall|i: int| 0 <= i < xs@.len() ==> (#[trigger] xs@[i]).wf(),
            j <= n,
            xs_pos(xv, x@, 0) == xs_pos(xv, x@, j as nat),
        decreases n - j,
    {
        j += 1;
    }
    assert(xs_pos(xv, x@, 0) == j as nat);
    if j < n && xs[j].eq_val(&x) {
        return ;
    }
    let ghost before = xs@;
    xs.insert(j, x);
    proof {
        assert(xsv(xs@) =~= xsv(before).insert(j as int, x@));
    }
}

/// Deep copy of a `(term, strength)` list.
fn copy_strengths(v: &Vec<(String, Rat)>) -> (r: Vec<(String, Rat)>)
    ensures
        r@ == v@,
{
    let mut r: Vec<(String, Rat)> = Vec::new();
    let n = v.len();
    for i in 0..n
        invariant
            n == v@.len(),
            r@.len() == i,
            forall|j: int| 0 <= j < i ==> #[trigger] r@[j] == v@[j],
    {
        r.push((v[i].0.clone(), v[i].1));
    }
    proof {
        assert(r@ =~= v@);
    }
    r
}

/// Accumulates the fired strengths per output category and term,
/// mirroring [`saccum`] from the empty map.
fn accumulate(trips: &Vec<(String, String, Rat)>) -> (m: Vec<(String, Vec<(String, Rat)>)>)
    requires
        forall|i: int| 0 <= i < trips@.len() ==> (#[trigger] trips@[i]).2.wf(),
    ensures
        mview(m@) == saccum(tview(trips@), 0, Seq::empty()),
        forall|a: int, b: int|
            0 <= a < m@.len() && 0 <= b < (#[trigger] m@[a]).1@.len() ==> (#[trigger] m@[a].1@[b]).1.wf(),
{
    let ghost tv = tview(trips@);
    let mut m: Vec<(String, Vec<(String, Rat)>)> = Vec::new();
    let n = trips.len();
    proof {
        assert(mview(m@) =~= Seq::<(Seq<char>, Seq<(Seq<char>, Frac)>)>::empty());
    }
    for i in 0..n
        invariant
            n == trips@.len(),
            tv == tview(trips@),
            forall|k: int| 0 <= k < trips@.len() ==> (#[trigger] trips@[k]).2.wf(),
            saccum(tv, 0, Seq::empty()) == saccum(tv, i as nat, mview(m@)),
            forall|a: int, b: int|
                0 <= a < m@.len() && 0 <= b < (#[trigger] m@[a]).1@.len() ==> (#[trigger] m@[a].1@[b]).1.wf(),
    {
        let ghost mv = mview(m@);
        let cat_view = Ghost(trips@[i as int].0@);
        let y = trips[i].2;
        let found = lookup_idx(&m, &trips[i].0);
        proof {
            lemma_kfind_mview(m@, trips@[i as int].0@, 0);
        }
        match found {
            Some(a) => {
                proof {
                    lemma_find_idx_in_range(m@, trips@[i as int].0@, 0);
                }
                let mut inner = copy_strengths(&m[a].1);
                let tfound = lookup_idx(&inner, &trips[i].1);
                proof {
                    lemma_kfind_vview(inner@, trips@[i as int].1@, 0);
                }
                match tfound {
                    Some(b) => {
                        proof {
                            lemma_find_idx_in_range(inner@, trips@[i as int].1@, 0);
                        }
                        if inner[b].1.lt(&y) {
                            let tname = inner[b].0.clone();
                            let ghost inner_before = inner@;
                            inner.set(b, (tname, y));
                            proof {
                                assert(vview(inner@) =~= vview(inner_before).update(
                                    b as int,
                                    (inner_before[b as int].0@, y@),
                                ));
                            }
                        }
                    },
                    None => {
                        let ghost inner_before = inner@;
                        inner.push((trips[i].1.clone(), y));
                        proof {
                            assert(vview(inner@) =~= vview(inner_before).push(
                                (trips@[i as int].1@, y@),
                            ));
                        }
                    },
                }
                let cname = m[a].0.clone();
                m.set(a, (cname, inner));
                proof {
                    assert(mview(m@) =~~= supsert(
                        mv,
                        trips@[i as int].0@,
                        trips@[i as int].1@,
                        y@,
                    ));
                }
            },
            None => {
                let mut inner: Vec<(String, Rat)> = Vec::new();
                inner.push((trips[i].1.clone(), y));
                m.push((trips[i].0.clone(), inner));
                proof {
                    assert(mview(m@) =~~= supsert(
                        mv,
                        trips@[i as int].0@,
                        trips@[i as int].1@,
                        y@,
                    ));
                }
            },
        }
    }
    m
}

/// Builds the aggregate output set of one category: clips every base
/// term at its accumulated strength, collects the distinct `x`
/// coordinates of the clipped curves in ascending order, and sums the
/// clipped curves at each; the result is a single-term set named `out`.
pub fn build_output(base: &FuzzySet, st: &Vec<(String, Rat)>) -> (r: FuzzyResult<FuzzySet>)
    requires
        base.wf(),
        forall|i: int| 0 <= i < st@.len() ==> (#[trigger] st@[i]).1.wf(),
    ensures
        match r {
            Ok(s) => s.wf() && (sbuild(base@, vview(st@)) matches BuildRes::Curve(pts)
                && s@.len() == 1 && s@[0].0@ == "out"@ && cv(s@[0].1@) == pts),
            Err(FuzzyError::InvalidPoints) => sbuild(base@, vview(st@)) is TooFew,
            Err(FuzzyError::Misc(_)) => sbuild(base@, vview(st@)) is Overflow,
            _ => false,
        },
{
    let ghost stv = vview(st@);
    let bterms = base.terms();
    let n = bterms.len();
    let mut clipped: Vec<Vec<Point>> = Vec::new();
    proof {
        assert(cvv(clipped@) =~= Seq::<Seq<FPoint>>::empty());
        if sclip_all(base@, stv, 0) is Some {
            assert(cvv(clipped@) + (sclip_all(base@, stv, 0) -> Some_0) =~= (sclip_all(
                base@,
                stv,
                0,
            ) -> Some_0));
        }
    }
    for i in 0..n
        invariant
            n == base@.len(),
            bterms@ == base@,
            stv == vview(st@),
            base.wf(),
            forall|k: int| 0 <= k < st@.len() ==> (#[trigger] st@[k]).1.wf(),
            clipped@.len() == i,
            forall|a: int| 0 <= a < clipped@.len() ==> curve_wf(cv(#[trigger] clipped@[a]@)),
            match sclip_all(base@, stv, i as nat) {
                Some(tl) => sclip_all(base@, stv, 0) == Some(cvv(clipped@) + tl),
                None => sclip_all(base@, stv, 0) is None,
            },
    {
        let found = lookup_idx(st, &bterms[i].0);
        proof {
            lemma_kfind_vview(st@, base@[i as int].0@, 0);
        }
        let strength = match found {
            Some(j) => {
                proof {
                    lemma_find_idx_in_range(st@, base@[i as int].0@, 0);
                }
                st[j].1
            },
            None => Rat::zero(),
        };
        proof {
            assert(curve_wf(cv(base@[i as int].1@)));
        }
        let ghost before = clipped@;
        match clip_points(&bterms[i].1, &strength) {
            Some(cps) => {
                clipped.push(cps);
                proof {
                    assert(cvv(clipped@) =~= cvv(before).push(cv(cps@)));
                    if sclip_all(base@, stv, (i + 1) as nat) is Some {
                        assert(cvv(before) + (seq![cv(cps@)] + (sclip_all(
                            base@,
                            stv,
                            (i + 1) as nat,
                        ) -> Some_0)) =~= cvv(clipped@) + (sclip_all(base@, stv, (i + 1) as nat)
                            -> Some_0));
                    }
                }
            },
            None => {
                return Err(FuzzyError::Misc(range_note()));
            },
        }
    }
    let ghost curvesv = cvv(clipped@);
    proof {
        assert(sclip_all(base@, stv, 0) == Some(curvesv + Seq::<Seq<FPoint>>::empty()));
        assert(curvesv + Seq::<Seq<FPoint>>::empty() =~= curvesv);
    }
    let cn = clipped.len();
    let mut xs: Vec<Rat> = Vec::new();
    proof {
        assert(xsv(xs@) =~= Seq::<Frac>::empty());
    }
    for a in 0..cn
        invariant
            cn == clipped@.len(),
            curvesv == cvv(clipped@),
            forall|b: int| 0 <= b < clipped@.len() ==> curve_wf(cv(#[trigger] clipped@[b]@)),
            forall|b: int| 0 <= b < xs@.len() ==> (#[trigger] xs@[b]).wf(),
            xs_all(Seq::empty(), curvesv, 0) == xs_all(xsv(xs@), curvesv, a as nat),
    {
        let pn = clipped[a].len();
        let mut b: usize = 0;
        while b < pn
            invariant
                cn == clipped@.len(),
                a < cn,
                pn == clipped@[a as int]@.len(),
                curvesv == cvv(clipped@),
                forall|c: int| 0 <= c < clipped@.len() ==> curve_wf(cv(#[trigger] clipped@[c]@)),
                forall|c: int| 0 <= c < xs@.len() ==> (#[trigger] xs@[c]).wf(),
                b <= pn,
                xs_all(Seq::empty(), curvesv, 0) == xs_all(
                    xs_curve(xsv(xs@), curvesv[a as int], b as nat),
                    curvesv,
                    (a + 1) as nat,
                ),
            decreases pn - b,
        {
            let x = clipped[a][b].x;
            proof {
                assert(cv(clipped@[a as int]@)[b as int].x == x@);
            }
            insert_unique(&mut xs, x);
            b += 1;
        }
        proof {
            assert(xs_curve(xsv(xs@), curvesv[a as int], pn as nat) == xsv(xs@));
        }
    }
    let ghost xsfull = xsv(xs@);
    proof {
        assert(xs_all(xsfull, curvesv, cn as nat) == xsfull);
    }
    let xn = xs.len();
    let mut pts: Vec<Point> = Vec::new();
    proof {
        if agg_points(curvesv, xsfull, 0) is Some {
            assert(cv(pts@) + (agg_points(curvesv, xsfull, 0) -> Some_0) =~= (agg_points(
                curvesv,
                xsfull,
                0,
            ) -> Some_0));
        }
    }
    for k in 0..xn
        invariant
            xn == xs@.len(),
            cn == clipped@.len(),
            curvesv == cvv(clipped@),
            xsfull == xsv(xs@),
            stv == vview(st@),
            sclip_all(base@, stv, 0) == Some(curvesv),
            xsfull == xs_all(Seq::empty(), curvesv, 0),
            forall|c: int| 0 <= c < clipped@.len() ==> curve_wf(cv(#[trigger] clipped@[c]@)),
            forall|c: int| 0 <= c < xs@.len() ==> (#[trigger] xs@[c]).wf(),
            forall|c: int| #![trigger pts@[c]]
                0 <= c < pts@.len() ==> pts@[c].x.wf() && pts@[c].y.wf(),
            match agg_points(curvesv, xsfull, k as nat) {
                Some(tl) => agg_points(curvesv, xsfull, 0) == Some(cv(pts@) + tl),
                None => agg_points(curvesv, xsfull, 0) is None,
            },
    {
        let x = xs[k];
        let mut acc = Rat::zero();
        let mut a: usize = 0;
        while a < cn
            invariant
                xn == xs@.len(),
                k < xn,
                cn == clipped@.len(),
                curvesv == cvv(clipped@),
                xsfull == xsv(xs@),
                stv == vview(st@),
                sclip_all(base@, stv, 0) == Some(curvesv),
                xsfull == xs_all(Seq::empty(), curvesv, 0),
                match agg_points(curvesv, xsfull, k as nat) {
                    Some(tl) => agg_points(curvesv, xsfull, 0) == Some(cv(pts@) + tl),
                    None => agg_points(curvesv, xsfull, 0) is None,
                },
                x == xs@[k as int],
                x.wf(),
                acc.wf(),
                a <= cn,
                forall|c: int| 0 <= c < clipped@.len() ==> curve_wf(cv(#[trigger] clipped@[c]@)),
                sum_at(curvesv, xsfull[k as int], 0, fzero()) == sum_at(
                    curvesv,
                    xsfull[k as int],
                    a as nat,
                    acc@,
                ),
            decreases cn - a,
        {
            let y = match eval_curve(&clipped[a], &x) {
                Some(w) => w,
                None => {
                    return Err(FuzzyError::Misc(range_note()));
                },
            };
            acc = match acc.checked_add(y) {
                Some(w) => w,
                None => {
                    return Err(FuzzyError::Misc(range_note()));
                },
            };
            a += 1;
        }
        let ghost pts_before = pts@;
        pts.push(Point { x, y: acc });
        proof {
            assert(cv(pts@) =~= cv(pts_before).push(FPoint { x: x@, y: acc@ }));
            if agg_points(curvesv, xsfull, (k + 1) as nat) is Some {
                assert(cv(pts_before) + (seq![FPoint { x: x@, y: acc@ }] + (agg_points(
                    curvesv,
                    xsfull,
                    (k + 1) as nat,
                ) -> Some_0)) =~= cv(pts@) + (agg_points(curvesv, xsfull, (k + 1) as nat)
                    -> Some_0));
            }
        }
    }
    proof {
        assert(agg_points(curvesv, xsfull, 0) == Some(cv(pts@) + Seq::<FPoint>::empty()));
        assert(cv(pts@) + Seq::<FPoint>::empty() =~= cv(pts@));
    }
    if pts.len() < 2 {
        return Err(FuzzyError::InvalidPoints);
    }
    match FuzzySet::single_term("out".to_owned(), pts) {
        Ok(s) => Ok(s),
        Err(e) => {
            proof {
                assert(false);
            }
            Err(e)
        },
    }
}

/// The message carried by arithmetic range errors.
fn range_note() -> (r: String) {
    "arithmetic overflow".to_owned()
}

} // verus!

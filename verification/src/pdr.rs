//! Lattice-theoretic property directed reachability (LT-PDR).
//!
//! Given a monotone `f` on a complete lattice and a bound `alpha`, LT-PDR asks whether the
//! least fixed point of `f` lies below `alpha`. It keeps a KT sequence `[X_1, ..., X_{n-1}]`
//! (over-approximations of the iterates of `f` from the bottom, `X_0` being the bottom
//! itself) and a Kleene sequence `[C_{n-1}, ..., C_i]` (a candidate counterexample, built
//! backwards), and applies one rule at a time until one of the sequences answers.
use vstd::prelude::*;
use crate::lattice::{CLat, LatticeLaws};

verus! {

/// The answer of LT-PDR: `Valid` with the KT sequence that proves the bound, or `InValid`
/// with the Kleene sequence that refutes it.
pub enum PDRAnswer<T> {
    Valid(Vec<T>),
    InValid(Vec<T>),
}

impl<T> PDRAnswer<T> {
    /// The name of the answer, as it is shown to a user.
    pub fn label(&self) -> (s: &'static str)
        ensures
            s@ == (if self is Valid {
                "Valid"@
            } else {
                "InValid"@
            }),
    {
        match self {
            PDRAnswer::Valid(_) => "Valid",
            PDRAnswer::InValid(_) => "InValid",
        }
    }
}

/// How much of the run is shown.
pub enum Verbosity {
    PrintAll,
    PrintLength,
    NoPrint,
}

/// Options of a run.
pub struct Options {
    pub print: Verbosity,
}

impl Options {
    /// The default options: nothing is shown.
    pub fn default_opt() -> (r: Options)
        ensures
            r.print is NoPrint,
    {
        Options { print: Verbosity::NoPrint }
    }
}

/// `r` is a result of applying `f` to `x`.
pub open spec fn maps<T, F: Fn(&T) -> T>(f: F, x: T, r: T) -> bool {
    call_ensures(f, (&x,), r)
}

/// `f` may be applied to any value.
pub open spec fn callable<T, F: Fn(&T) -> T>(f: F) -> bool {
    forall|x: &T| call_requires(f, (x,))
}

/// `f` is monotone on the lattice of `alpha`.
pub open spec fn monotone<T: CLat, F: Fn(&T) -> T>(f: F, alpha: &T) -> bool {
    forall|a: T, b: T, ra: T, rb: T|
        #![trigger maps(f, a, ra), maps(f, b, rb)]
        a.member_spec() && b.member_spec() && a.compat_spec(alpha) && b.compat_spec(alpha)
            && a.le_spec(&b) && maps(f, a, ra) && maps(f, b, rb) ==> ra.le_spec(&rb)
}

/// `f` maps the lattice of `alpha` into itself.
pub open spec fn closed<T: CLat, F: Fn(&T) -> T>(f: F, alpha: &T) -> bool {
    forall|a: T, r: T|
        #![trigger maps(f, a, r)]
        a.member_spec() && a.compat_spec(alpha) && maps(f, a, r) ==> r.member_spec()
            && r.compat_spec(alpha)
}

/// The three choices that LT-PDR leaves to a heuristics: a candidate counterexample, the
/// predecessor of a counterexample step, and the lemma that removes a refuted step.
///
/// An implementation states what its choices are through the spec functions, and proves in
/// `HeuristicsLaws` that they are admissible whenever `suits` holds of the transformer and
/// the bound.  The choices follow the spec functions only for a heuristics that
/// `obeys_heuristics_spec`: an implementation outside verification leaves it, and the other
/// spec functions, at their defaults, and nothing is then stated of its choices.
pub trait Heuristics<T: CLat, F: Fn(&T) -> T> {
    /// The choices of this heuristics follow the spec functions below.
    open spec fn obeys_heuristics_spec(&self) -> bool {
        false
    }

    /// `r` is the candidate chosen for the last KT element `xn1`, which is not below `alpha`.
    open spec fn candidate_spec(&self, xn1: &T, alpha: &T, info: &T::Info, r: &T) -> bool {
        false
    }

    /// `r` is the element chosen below `xi1` whose image covers the candidate `ci`.
    open spec fn decide_spec(
        &self,
        xi1: &T,
        ci: &T,
        f: F,
        info: &T::Info,
        r: &T,
    ) -> bool {
        false
    }

    /// `r` is the lemma chosen to separate the image of `xi1` from the candidate `ci`.
    open spec fn conflict_spec(
        &self,
        xi1: &T,
        ci: &T,
        f: F,
        info: &T::Info,
        r: &T,
    ) -> bool {
        false
    }

    /// The heuristics' choices are admissible for the transformer `f` and the bound `alpha`.
    open spec fn suits(&self, f: F, alpha: &T) -> bool {
        false
    }

    fn f_candidate(&self, xn1: &T, alpha: &T, info: &T::Info) -> (r: T)
        ensures
            self.obeys_heuristics_spec() ==> self.candidate_spec(xn1, alpha, info, &r),
    ;

    fn f_decide(&self, xi1: &T, ci: &T, f: &F, info: &T::Info) -> (r: T)
        requires
            callable(*f),
        ensures
            self.obeys_heuristics_spec() ==> self.decide_spec(xi1, ci, *f, info, &r),
    ;

    fn f_conflict(&self, xi1: &T, ci: &T, f: &F, info: &T::Info) -> (r: T)
        requires
            callable(*f),
        ensures
            self.obeys_heuristics_spec() ==> self.conflict_spec(xi1, ci, *f, info, &r),
    ;
}

/// The admissibility of a heuristics' choices, proved by the implementation whenever
/// `suits` holds of the transformer and the bound.
pub trait HeuristicsLaws<T: LatticeLaws, F: Fn(&T) -> T>: Heuristics<T, F> {
    /// The choices follow the spec functions.
    proof fn lemma_obeys(&self)
        ensures
            self.obeys_heuristics_spec(),
    ;

    /// A candidate lies below the last KT element and is not below the bound.
    proof fn lemma_candidate(&self, xn1: &T, alpha: &T, info: &T::Info, r: &T)
        requires
            self.candidate_spec(xn1, alpha, info, r),
            alpha.member_spec(),
            xn1.member_spec(),
            xn1.compat_spec(alpha),
            !xn1.le_spec(alpha),
        ensures
            r.member_spec(),
            r.compat_spec(alpha),
            r.le_spec(xn1),
            !r.le_spec(alpha),
    ;

    /// A decided element lies below `xi1` and every image of it covers the candidate `ci`,
    /// given that some image `fx` of `xi1` does.
    proof fn lemma_decide(
        &self,
        f: F,
        alpha: &T,
        xi1: &T,
        ci: &T,
        info: &T::Info,
        fx: &T,
        r: &T,
    )
        requires
            self.suits(f, alpha),
            self.decide_spec(xi1, ci, f, info, r),
            alpha.member_spec(),
            xi1.member_spec(),
            xi1.compat_spec(alpha),
            ci.member_spec(),
            ci.compat_spec(alpha),
            maps(f, *xi1, *fx),
            ci.le_spec(fx),
        ensures
            r.member_spec(),
            r.compat_spec(alpha),
            r.le_spec(xi1),
            forall|fr: T| #[trigger] maps(f, *r, fr) ==> ci.le_spec(&fr),
    ;

    /// A conflict lemma bounds the image of every element below both `xi1` and itself.
    proof fn lemma_conflict(
        &self,
        f: F,
        alpha: &T,
        xi1: &T,
        ci: &T,
        info: &T::Info,
        fx: &T,
        r: &T,
    )
        requires
            self.suits(f, alpha),
            self.conflict_spec(xi1, ci, f, info, r),
            alpha.member_spec(),
            xi1.member_spec(),
            xi1.compat_spec(alpha),
            ci.member_spec(),
            ci.compat_spec(alpha),
            maps(f, *xi1, *fx),
            !ci.le_spec(fx),
        ensures
            r.member_spec(),
            r.compat_spec(alpha),
            !ci.le_spec(r),
            forall|y: T, fy: T|
                #![trigger maps(f, y, fy), y.le_spec(r)]
                y.member_spec() && y.compat_spec(alpha) && y.le_spec(xi1) && y.le_spec(r) && maps(
                    f,
                    y,
                    fy,
                ) ==> fy.le_spec(r),
    ;
}

/// The state of a run: the KT sequence `[X_1, ..., X_{n-1}]` and the Kleene sequence
/// `[C_{n-1}, ..., C_i]`, whose last element is the candidate of lowest index.
pub struct KTKl<T>(pub Vec<T>, pub Vec<T>);

/// The rule that a step applied.
pub enum Rule {
    Unfold,
    Candidate,
    Decide,
    Conflict,
}

/// What a step of LT-PDR gives: the answer, or the rule applied and the new state.
pub enum Step<T> {
    Answer(PDRAnswer<T>),
    Next(Rule, KTKl<T>),
}

/// Some element of the KT sequence is above its successor.
pub open spec fn valid_found<T: CLat>(xs: Seq<T>) -> bool {
    exists|i: int| 0 <= i < xs.len() - 1 && #[trigger] xs[i + 1].le_spec(&xs[i])
}

/// Whether some element of the KT sequence `xs` is above its successor, which makes it an
/// inductive invariant below the bound.
pub fn check_valid<T: CLat>(xs: &Vec<T>) -> (r: bool)
    requires
        xs@.len() >= 1,
    ensures
        T::obeys_lattice_spec() ==> r == valid_found(xs@),
{
    let mut result = false;
    let n = xs.len() - 1;
    for i in 0..n
        invariant
            n == xs@.len() - 1,
            T::obeys_lattice_spec() ==> result == (exists|j: int|
                0 <= j < i && #[trigger] xs@[j + 1].le_spec(&xs@[j])),
    {
        let (b, _) = xs[i + 1].leq(&xs[i]);
        result = result || b;
    }
    result
}

/// The first state of a run: the KT sequence holds the image of the bottom alone.
pub fn lt_pdr_init<T: CLat, F: Fn(&T) -> T>(f: &F, alpha: &T) -> (r: KTKl<T>)
    requires
        callable(*f),
    ensures
        r.0@.len() == 1,
        r.1@.len() == 0,
        T::obeys_lattice_spec() ==> exists|b: T| alpha.bot_spec(&b) && maps(*f, b, r.0@[0]),
{
    let b = alpha.bot();
    let x = f(&b);
    let mut xs: Vec<T> = Vec::new();
    xs.push(x);
    KTKl(xs, Vec::new())
}

/// The effect of one step of LT-PDR on the state `cur`, run with the heuristics `h`, the
/// transformer `f` and the bound `alpha`.
pub open spec fn step_spec<T: CLat, H: Heuristics<T, F>, F: Fn(&T) -> T>(
    h: H,
    f: F,
    alpha: T,
    cur: KTKl<T>,
    r: Step<T>,
) -> bool {
    let xs = cur.0@;
    let cs = cur.1@;
    let m = xs.len();
    if valid_found(xs) {
        r == Step::Answer(PDRAnswer::Valid(cur.0))
    } else if m == cs.len() {
        r == Step::Answer(PDRAnswer::InValid(cur.1))
    } else if xs[m - 1].le_spec(&alpha) {
        &&& r matches Step::Next(Rule::Unfold, next)
        &&& next.1@.len() == 0
        &&& next.0@.len() == m + 1
        &&& next.0@.take(m as int) == xs
        &&& alpha.top_spec(&next.0@[m as int])
    } else if cs.len() == 0 {
        &&& r matches Step::Next(Rule::Candidate, next)
        &&& next.0@ == xs
        &&& next.1@.len() == 1
        &&& exists|info: T::Info|
            #[trigger] xs[m - 1].info_spec(&alpha, &info) && h.candidate_spec(
                &xs[m - 1],
                &alpha,
                &info,
                &next.1@[0],
            )
    } else {
        let ci = cs.last();
        let i = m - cs.len() + 1;
        let xi1 = xs[i - 2];
        exists|fx: T, info: T::Info|
            #[trigger] maps(f, xi1, fx) && #[trigger] ci.info_spec(&fx, &info) && refine_outcome(
                h,
                f,
                cur,
                r,
                fx,
                info,
            )
    }
}

/// The outcome of a step that compares the candidate `C_i` with an image `fx` of `X_{i-1}`,
/// the comparison reporting `info`: Decide, with an element chosen below `X_{i-1}`, when
/// `C_i` is below `fx`; Conflict, with every KT element up to `X_{i-1}` met with the lemma,
/// otherwise.
pub open spec fn refine_outcome<T: CLat, H: Heuristics<T, F>, F: Fn(&T) -> T>(
    h: H,
    f: F,
    cur: KTKl<T>,
    r: Step<T>,
    fx: T,
    info: T::Info,
) -> bool {
    let xs = cur.0@;
    let cs = cur.1@;
    let m = xs.len();
    let ci = cs.last();
    let i = m - cs.len() + 1;
    let xi1 = xs[i - 2];
    if ci.le_spec(&fx) {
        &&& r matches Step::Next(Rule::Decide, next)
        &&& next.0@ == xs
        &&& next.1@.len() == cs.len() + 1
        &&& next.1@.take(cs.len() as int) == cs
        &&& h.decide_spec(&xi1, &ci, f, &info, &next.1@[cs.len() as int])
    } else {
        &&& r matches Step::Next(Rule::Conflict, next)
        &&& next.1@ == cs.drop_last()
        &&& next.0@.len() == m
        &&& exists|x: T|
            {
                &&& #[trigger] h.conflict_spec(&xi1, &ci, f, &info, &x)
                &&& forall|k: int| 0 <= k < i ==> #[trigger] xs[k].meet_spec(&x, &next.0@[k])
                &&& forall|k: int| i <= k < m ==> #[trigger] next.0@[k] == xs[k]
            }
    }
}

/// The shape of a step, whatever the lattice: an answer hands back the sequence it was found
/// in, `InValid` exactly when the Kleene sequence is as long as the KT sequence; Unfold
/// appends one element to the KT sequence and empties the Kleene sequence; Candidate starts
/// the Kleene sequence; Decide appends one element to it; Conflict drops its last element and
/// changes no KT element from the index of the dropped candidate on.
pub open spec fn step_shape<T>(cur: KTKl<T>, r: Step<T>) -> bool {
    let xs = cur.0@;
    let cs = cur.1@;
    let m = xs.len();
    &&& m == cs.len() ==> r is Answer
    &&& match r {
        Step::Answer(PDRAnswer::Valid(v)) => v == cur.0,
        Step::Answer(PDRAnswer::InValid(c)) => c == cur.1 && m == cs.len(),
        Step::Next(Rule::Unfold, next) => {
            &&& next.0@.len() == m + 1
            &&& next.0@.take(m as int) == xs
            &&& next.1@.len() == 0
        },
        Step::Next(Rule::Candidate, next) => {
            &&& cs.len() == 0
            &&& next.0@ == xs
            &&& next.1@.len() == 1
        },
        Step::Next(Rule::Decide, next) => {
            &&& 0 < cs.len() < m
            &&& next.0@ == xs
            &&& next.1@.len() == cs.len() + 1
            &&& next.1@.take(cs.len() as int) == cs
        },
        Step::Next(Rule::Conflict, next) => {
            &&& 0 < cs.len() < m
            &&& next.1@ == cs.drop_last()
            &&& next.0@.len() == m
            &&& forall|k: int| m - cs.len() + 1 <= k < m ==> #[trigger] next.0@[k] == xs[k]
        },
    }
}

/// One step of LT-PDR: answers if the KT sequence holds an inductive invariant (`Valid`) or
/// the Kleene sequence reaches back to the bottom (`InValid`); otherwise applies the rule
/// that fits the state (Unfold, Candidate, Decide or Conflict) and returns the new state.
pub fn lt_pdr_step<T: CLat, H: Heuristics<T, F>, F: Fn(&T) -> T>(
    heuristics: &H,
    f: &F,
    alpha: &T,
    current: KTKl<T>,
) -> (r: Step<T>)
    requires
        callable(*f),
        current.0@.len() >= 1,
        current.1@.len() <= current.0@.len(),
    ensures
        step_shape(current, r),
        T::obeys_lattice_spec() && heuristics.obeys_heuristics_spec() ==> step_spec(
            *heuristics,
            *f,
            *alpha,
            current,
            r,
        ),
{
    let ghost cur = current;
    let KTKl(mut xs, mut cs) = current;
    if check_valid(&xs) {
        return Step::Answer(PDRAnswer::Valid(xs));
    }
    if xs.len() == cs.len() {
        return Step::Answer(PDRAnswer::InValid(cs));
    }
    let n = xs.len();
    let (result1, solver1) = xs[n - 1].leq(alpha);
    if result1 {
        let t = alpha.top();
        let ghost xs0 = xs@;
        xs.push(t);
        assert(xs@.take(n as int) =~= xs0);
        return Step::Next(Rule::Unfold, KTKl(xs, Vec::new()));
    }
    let ghost cs0 = cs@;
    match cs.pop() {
        None => {
            let c = heuristics.f_candidate(&xs[n - 1], alpha, &solver1);
            proof {
                if T::obeys_lattice_spec() {
                    assert(xs@[n - 1].info_spec(alpha, &solver1));
                }
            }
            cs.push(c);
            Step::Next(Rule::Candidate, KTKl(xs, cs))
        },
        Some(ci) => {
            // `ci` is C_i, and `xs[i - 2]` is X_{i-1}.
            let i = xs.len() - cs.len();
            let fx = f(&xs[i - 2]);
            let (result2, solver2) = ci.leq(&fx);
            proof {
                if T::obeys_lattice_spec() {
                    assert(!valid_found(cur.0@));
                    assert(i == cur.0@.len() - cs0.len() + 1);
                    assert(ci == cs0.last());
                    assert(maps(*f, xs@[i - 2], fx));
                    assert(ci.info_spec(&fx, &solver2));
                }
            }
            if result2 {
                let x = heuristics.f_decide(&xs[i - 2], &ci, f, &solver2);
                cs.push(ci);
                cs.push(x);
                assert(cs@.take(cs0.len() as int) =~= cs0);
                Step::Next(Rule::Decide, KTKl(xs, cs))
            } else {
                let x = heuristics.f_conflict(&xs[i - 2], &ci, f, &solver2);
                let ghost xs0 = xs@;
                let mut k: usize = 0;
                while k < i
                    invariant
                        i <= xs@.len(),
                        k <= i,
                        xs@.len() == xs0.len(),
                        T::obeys_lattice_spec() ==> forall|j: int|
                            0 <= j < k ==> #[trigger] xs0[j].meet_spec(&x, &xs@[j]),
                        forall|j: int| k <= j < xs@.len() ==> #[trigger] xs@[j] == xs0[j],
                    decreases i - k,
                {
                    let m = xs[k].meet(&x);
                    xs.set(k, m);
                    k += 1;
                }
                assert(cs@ =~= cs0.drop_last());
                assert(heuristics.obeys_heuristics_spec() ==> heuristics.conflict_spec(
                    &xs0[i - 2],
                    &ci,
                    *f,
                    &solver2,
                    &x,
                ));
                Step::Next(Rule::Conflict, KTKl(xs, cs))
            }
        },
    }
}

} // verus!

//! A whole run of LT-PDR on a lattice of finite height, from the first state to the answer.
use vstd::prelude::*;
use crate::lattice::{CLat, FiniteHeight};
use crate::pdr::{
    callable, closed, lt_pdr_init, lt_pdr_step, maps, monotone, step_spec, valid_found, Heuristics, HeuristicsLaws,
    KTKl, Options, PDRAnswer, Rule, Step,
};
use crate::soundness::{counterexample, lemma_init_establishes_inv, lemma_step_keeps_inv, pdr_inv, valid_certificate};
use crate::termination::{lemma_step_decreases_measure, rank_sum};

verus! {

/// `states` is the beginning of a run of LT-PDR with the heuristics `h`, the transformer `f`
/// and the bound `alpha`: it starts with the image of the bottom alone, and each state is
/// what a step of LT-PDR makes of the one before.
pub open spec fn run_prefix<T: CLat, H: Heuristics<T, F>, F: Fn(&T) -> T>(
    h: H,
    f: F,
    alpha: T,
    states: Seq<KTKl<T>>,
) -> bool {
    &&& states.len() >= 1
    &&& states[0].0@.len() == 1
    &&& states[0].1@.len() == 0
    &&& exists|b: T| alpha.bot_spec(&b) && #[trigger] maps(f, b, states[0].0@[0])
    &&& forall|k: int|
        0 <= k < states.len() - 1 ==> #[trigger] steps_to(h, f, alpha, states[k], states[k + 1])
}

/// A step of LT-PDR, by some rule, leads from the state `a` to the state `b`.
#[verifier::opaque]
pub open spec fn steps_to<T: CLat, H: Heuristics<T, F>, F: Fn(&T) -> T>(
    h: H,
    f: F,
    alpha: T,
    a: KTKl<T>,
    b: KTKl<T>,
) -> bool {
    exists|rule: Rule| #[trigger] step_spec(h, f, alpha, a, Step::Next(rule, b))
}

/// `states` is a whole run of LT-PDR that ends in the answer `r`.
pub open spec fn is_run<T: CLat, H: Heuristics<T, F>, F: Fn(&T) -> T>(
    h: H,
    f: F,
    alpha: T,
    states: Seq<KTKl<T>>,
    r: PDRAnswer<T>,
) -> bool {
    &&& run_prefix(h, f, alpha, states)
    &&& step_spec(h, f, alpha, states.last(), Step::Answer(r))
}

/// A run prefix followed by a step of LT-PDR is a longer run prefix.
proof fn lemma_run_extend<T: CLat, H: Heuristics<T, F>, F: Fn(&T) -> T>(
    h: H,
    f: F,
    alpha: T,
    states: Seq<KTKl<T>>,
    rule: Rule,
    next: KTKl<T>,
)
    requires
        run_prefix(h, f, alpha, states),
        step_spec(h, f, alpha, states.last(), Step::Next(rule, next)),
    ensures
        run_prefix(h, f, alpha, states.push(next)),
{
    let ns = states.push(next);
    assert(ns[0] == states[0]);
    assert(steps_to(h, f, alpha, states.last(), next)) by {
        reveal(steps_to);
    }
    assert forall|k: int| 0 <= k < ns.len() - 1 implies #[trigger] steps_to(
        h,
        f,
        alpha,
        ns[k],
        ns[k + 1],
    ) by {
        if k < states.len() - 1 {
            assert(ns[k] == states[k] && ns[k + 1] == states[k + 1]);
        } else {
            assert(ns[k] == states.last() && ns[k + 1] == next);
        }
    }
}

/// Runs LT-PDR to its answer: `Valid` with a KT sequence that holds an inductive invariant
/// below `alpha`, or `InValid` with a Kleene sequence that refutes `alpha`.  The run ends on
/// every lattice of finite height.  Nothing is shown while it runs, whatever `opt` asks: a
/// caller that wants the steps shown applies `lt_pdr_step` itself and shows each state.
pub fn lt_pdr<T: FiniteHeight, F: Fn(&T) -> T, H: HeuristicsLaws<T, F>>(
    opt: Options,
    heuristics: H,
    f: &F,
    alpha: T,
) -> (r: PDRAnswer<T>)
    requires
        callable(*f),
        alpha.member_spec(),
        monotone(*f, &alpha),
        closed(*f, &alpha),
        heuristics.suits(*f, &alpha),
    ensures
        exists|states: Seq<KTKl<T>>| is_run(heuristics, *f, alpha, states, r),
        r matches PDRAnswer::Valid(xs) ==> {
            &&& valid_found(xs@)
            &&& valid_certificate(xs@, *f, alpha)
            &&& exists|cs: Seq<T>| pdr_inv(xs@, cs, *f, alpha)
        },
        r matches PDRAnswer::InValid(cs) ==> {
            &&& counterexample(cs@, *f, alpha)
            &&& exists|xs: Seq<T>| xs.len() == cs@.len() && pdr_inv(xs, cs@, *f, alpha)
        },
{
    proof {
        T::lemma_obeys();
        heuristics.lemma_obeys();
    }
    let mut current = lt_pdr_init(f, &alpha);
    let ghost mut states: Seq<KTKl<T>> = seq![current];
    proof {
        lemma_init_establishes_inv(*f, alpha, current);
    }
    loop
        invariant
            callable(*f),
            closed(*f, &alpha),
            heuristics.suits(*f, &alpha),
            T::obeys_lattice_spec(),
            heuristics.obeys_heuristics_spec(),
            pdr_inv(current.0@, current.1@, *f, alpha),
            run_prefix(heuristics, *f, alpha, states),
            states.last() == current,
        decreases
            alpha.height() + 2 - current.0@.len(),
            rank_sum(current.0@),
            current.0@.len() - current.1@.len(),
    {
        let ghost before = current;
        let step = lt_pdr_step(&heuristics, f, &alpha, current);
        proof {
            lemma_step_keeps_inv(heuristics, *f, alpha, before, step);
            lemma_step_decreases_measure(heuristics, *f, alpha, before, step);
        }
        match step {
            Step::Answer(answer) => {
                proof {
                    assert(is_run(heuristics, *f, alpha, states, answer));
                    assert(answer matches PDRAnswer::Valid(xs) ==> xs@ == before.0@);
                    assert(answer matches PDRAnswer::InValid(cs) ==> cs@ == before.1@);
                }
                return answer;
            },
            Step::Next(rule, next) => {
                proof {
                    lemma_run_extend(heuristics, *f, alpha, states, rule, next);
                    states = states.push(next);
                }
                current = next;
            },
        }
    }
}

} // verus!

//! What the answers of LT-PDR say of a transition system: with its forward transformer, an
//! answer is `Valid` exactly when every state reachable from the initial states lies in the
//! bound.
use vstd::prelude::*;
use std::collections::HashSet;
use crate::instances::simple_trans::{
    deterministic, forward_image, forward_ps, heuristics_sts, lemma_forward_suits_heuristics, within, PS,
};
use crate::lattice::{CLat, LatticeLaws};
use crate::pdr::{callable, maps, Options, PDRAnswer};
use crate::run::lt_pdr;
use crate::soundness::{all_members, counterexample, inductive_below, kleene_covered, valid_certificate};

verus! {

broadcast use vstd::std_specs::hash::group_hash_axioms;

/// `s` is reached from an initial state by `n` steps of `delta`.
pub open spec fn reaches_in<D: Fn(&u32) -> HashSet<u32>>(
    init: Set<u32>,
    delta: D,
    n: nat,
    s: u32,
) -> bool
    decreases n,
{
    if n == 0 {
        init.contains(s)
    } else {
        exists|t: u32, d: HashSet<u32>|
            #![trigger call_ensures(delta, (&t,), d)]
            reaches_in(init, delta, (n - 1) as nat, t) && call_ensures(delta, (&t,), d)
                && d@.contains(s)
    }
}

/// `s` is reached from an initial state by steps of `delta`.
pub open spec fn reachable<D: Fn(&u32) -> HashSet<u32>>(init: Set<u32>, delta: D, s: u32) -> bool {
    exists|n: nat| #[trigger] reaches_in(init, delta, n, s)
}

/// Every reachable state lies in `bound`.
pub open spec fn safe<D: Fn(&u32) -> HashSet<u32>>(init: Set<u32>, delta: D, bound: Set<u32>) -> bool {
    forall|s: u32| #[trigger] reachable(init, delta, s) ==> bound.contains(s)
}

/// `f` gives `x` an image.
pub open spec fn has_image<T, F: Fn(&T) -> T>(f: F, x: T) -> bool {
    exists|r: T| #[trigger] maps(f, x, r)
}

/// The states of an inductive invariant below the bound include every state reached in `n`
/// steps.
proof fn lemma_invariant_holds_reached<'a, D: Fn(&u32) -> HashSet<u32>, F: Fn(&PS<'a>) -> PS<'a>>(
    f: F,
    init: Set<u32>,
    delta: D,
    alpha: PS<'a>,
    p: PS<'a>,
    n: nat,
    s: u32,
)
    requires
        forall|x: PS<'a>, r: PS<'a>| #[trigger] maps(f, x, r) ==> forward_image(init, delta, x, r),
        deterministic(delta),
        inductive_below(p, f, alpha),
        has_image(f, p),
        reaches_in(init, delta, n, s),
    ensures
        p.subset@.contains(s),
    decreases n,
{
    let r = choose|r: PS<'a>| #[trigger] maps(f, p, r);
    PS::lemma_le_reflexive(&p);
    assert(r.le_spec(&p));
    assert(forward_image(init, delta, p, r));
    if n > 0 {
        let (t, d) = choose|t: u32, d: HashSet<u32>|
            #![trigger call_ensures(delta, (&t,), d)]
            reaches_in(init, delta, (n - 1) as nat, t) && call_ensures(delta, (&t,), d)
                && d@.contains(s);
        lemma_invariant_holds_reached(f, init, delta, alpha, p, (n - 1) as nat, t);
        let d2 = choose|d2: HashSet<u32>|
            #[trigger] call_ensures(delta, (&t,), d2) && d2@.subset_of(r.subset@);
        assert(d@ == d2@);
        assert(r.subset@.contains(s));
    }
}

/// Every state of every element of a counterexample is reachable.
proof fn lemma_counterexample_reachable<'a, D: Fn(&u32) -> HashSet<u32>, F: Fn(&PS<'a>) -> PS<'a>>(
    f: F,
    init: Set<u32>,
    delta: D,
    alpha: PS<'a>,
    bot: PS<'a>,
    cs: Seq<PS<'a>>,
    t: int,
    e: u32,
)
    requires
        forall|x: PS<'a>, r: PS<'a>| #[trigger] maps(f, x, r) ==> forward_image(init, delta, x, r),
        has_image(f, bot),
        forall|k: int| 0 <= k < cs.len() ==> #[trigger] has_image(f, cs[k]),
        alpha.bot_spec(&bot),
        counterexample(cs, f, alpha),
        0 <= t < cs.len(),
        cs[t].subset@.contains(e),
    ensures
        reachable(init, delta, e),
    decreases cs.len() - t,
{
    if t == cs.len() - 1 {
        let rb = choose|rb: PS<'a>| #[trigger] maps(f, bot, rb);
        assert(cs[t].le_spec(&rb));
        assert(forward_image(init, delta, bot, rb));
        assert(init.contains(e));
        assert(reaches_in(init, delta, 0, e));
    } else {
        let c = cs[t + 1];
        assert(all_members(cs, alpha));
        assert(has_image(f, cs[t + 1]));
        let rc = choose|rc: PS<'a>| #[trigger] maps(f, c, rc);
        assert(kleene_covered(cs, f));
        assert(cs[t].le_spec(&rc));
        assert(forward_image(init, delta, c, rc));
        assert(rc.subset@.contains(e));
        if init.contains(e) {
            assert(reaches_in(init, delta, 0, e));
        } else {
            let (s, d) = choose|s: u32, d: HashSet<u32>|
                #![trigger call_ensures(delta, (&s,), d), d@.contains(e)]
                c.subset@.contains(s) && call_ensures(delta, (&s,), d) && d@.contains(e);
            lemma_counterexample_reachable(f, init, delta, alpha, bot, cs, t + 1, s);
            let n = choose|n: nat| #[trigger] reaches_in(init, delta, n, s);
            assert(reaches_in(init, delta, n + 1, e));
        }
    }
}

/// The answers of LT-PDR on a transition system are exact: an answer that carries its
/// certificate, as every answer of `lt_pdr` and `lt_pdr_step` does, is `Valid` exactly when
/// every state reachable from the initial states lies in the bound.  This holds for the
/// forward transformer of a successor function that is a function of the state, given images
/// of the bottom and of the elements of the answer's sequence.
pub proof fn lemma_answer_exact<'a, D: Fn(&u32) -> HashSet<u32>, F: Fn(&PS<'a>) -> PS<'a>>(
    f: F,
    init: Set<u32>,
    delta: D,
    alpha: PS<'a>,
    bot: PS<'a>,
    answer: PDRAnswer<PS<'a>>,
)
    requires
        forall|x: PS<'a>, r: PS<'a>| #[trigger] maps(f, x, r) ==> forward_image(init, delta, x, r),
        deterministic(delta),
        alpha.bot_spec(&bot),
        has_image(f, bot),
        answer matches PDRAnswer::Valid(xs) ==> valid_certificate(xs@, f, alpha) && forall|k: int|
            0 <= k < xs@.len() ==> #[trigger] has_image(f, xs@[k]),
        answer matches PDRAnswer::InValid(cs) ==> counterexample(cs@, f, alpha) && forall|k: int|
            0 <= k < cs@.len() ==> #[trigger] has_image(f, cs@[k]),
    ensures
        answer is Valid <==> safe(init, delta, alpha.subset@),
{
    match answer {
        PDRAnswer::Valid(xs) => {
            let j = choose|j: int|
                0 <= j < xs@.len() && #[trigger] inductive_below(xs@[j], f, alpha);
            let p = xs@[j];
            assert(has_image(f, p));
            assert forall|s: u32| #[trigger] reachable(init, delta, s) implies alpha.subset@.contains(
                s,
            ) by {
                let n = choose|n: nat| #[trigger] reaches_in(init, delta, n, s);
                lemma_invariant_holds_reached(f, init, delta, alpha, p, n, s);
            }
        },
        PDRAnswer::InValid(cs) => {
            let c = cs@[0];
            let e = choose|e: u32| c.subset@.contains(e) && !alpha.subset@.contains(e);
            lemma_counterexample_reachable(f, init, delta, alpha, bot, cs@, 0, e);
        },
    }
}

/// Checks the transition system with initial states `init` and successor function `delta`
/// against the bound `alpha` by a run of LT-PDR with its forward transformer and the
/// heuristics of `heuristics_sts`: the answer is `Valid` exactly when every state reachable
/// from `init` lies in the bound.  Besides the run, it applies the transformer to the bottom
/// and to each element of the answer's sequence, whose images the exactness of the answer
/// speaks of.
pub fn check_safety<'a, D: Fn(&u32) -> HashSet<u32>>(
    init: &'a HashSet<u32>,
    delta: &'a D,
    alpha: PS<'a>,
) -> (r: PDRAnswer<PS<'a>>)
    requires
        forall|s: &u32| call_requires(*delta, (s,)),
        deterministic(*delta),
        within(init@, *delta, alpha.all@),
        alpha.member_spec(),
    ensures
        r is Valid <==> safe(init@, *delta, alpha.subset@),
{
    let f = forward_ps(init, delta);
    let bot = alpha.bot();
    let ghost a = alpha;
    proof {
        lemma_forward_suits_heuristics(f, init@, *delta, alpha);
    }
    let fb = f(&bot);
    assert(maps(f, bot, fb));
    let answer = lt_pdr(Options::default_opt(), heuristics_sts(), &f, alpha);
    let seq: &Vec<PS<'a>> = match &answer {
        PDRAnswer::Valid(xs) => xs,
        PDRAnswer::InValid(cs) => cs,
    };
    let mut k: usize = 0;
    while k < seq.len()
        invariant
            k <= seq@.len(),
            callable(f),
            forall|j: int| 0 <= j < k ==> #[trigger] has_image(f, seq@[j]),
        decreases seq@.len() - k,
    {
        let fx = f(&seq[k]);
        assert(maps(f, seq@[k as int], fx));
        k += 1;
    }
    proof {
        lemma_answer_exact(f, init@, *delta, a, bot, answer);
    }
    answer
}

} // verus!

use ltpdr::instances::simple_trans::{forward_ps, heuristics_sts, HeuristicsSts, PS};
use ltpdr::{lt_pdr_init, lt_pdr_step, KTKl, PDRAnswer, Rule, Step};
use std::collections::HashSet;

fn set(items: &[u32]) -> HashSet<u32> {
    items.iter().cloned().collect()
}

fn delta1(s: &u32) -> HashSet<u32> {
    match s {
        1 => HashSet::from([2, 3]),
        2 => HashSet::from([1, 3]),
        4 => HashSet::from([5]),
        _ => HashSet::new(),
    }
}

fn subsets(seq: &[PS]) -> Vec<HashSet<u32>> {
    seq.iter().map(|p| p.subset.clone()).collect()
}

fn rule_of<T>(step: &Step<T>) -> &'static str {
    match step {
        Step::Answer(PDRAnswer::Valid(_)) => "valid",
        Step::Answer(PDRAnswer::InValid(_)) => "invalid",
        Step::Next(Rule::Unfold, _) => "unfold",
        Step::Next(Rule::Candidate, _) => "candidate",
        Step::Next(Rule::Decide, _) => "decide",
        Step::Next(Rule::Conflict, _) => "conflict",
    }
}

/// Runs to the answer and returns the rules applied on the way.
fn trace<'a, F: Fn(&PS<'a>) -> PS<'a>>(
    f: &F,
    alpha: &PS<'a>,
) -> (Vec<&'static str>, PDRAnswer<PS<'a>>) {
    let h: HeuristicsSts = heuristics_sts();
    let mut rules = Vec::new();
    let mut current = lt_pdr_init(f, alpha);
    loop {
        let step = lt_pdr_step(&h, f, alpha, current);
        rules.push(rule_of(&step));
        match step {
            Step::Answer(answer) => return (rules, answer),
            Step::Next(_, next) => current = next,
        }
    }
}

#[test]
fn init_holds_image_of_bottom() {
    let init = set(&[1]);
    let all = set(&[1, 2, 3, 4, 5]);
    let f = forward_ps(&init, &delta1);
    let alpha = PS { all: &all, subset: set(&[1, 2]) };
    let st = lt_pdr_init(&f, &alpha);
    assert_eq!(subsets(&st.0), vec![set(&[1])]);
    assert!(st.1.is_empty());
}

#[test]
fn step_unfold_candidate_conflict() {
    let init = set(&[1]);
    let all = set(&[1, 2, 3, 4, 5]);
    let f = forward_ps(&init, &delta1);
    let alpha = PS { all: &all, subset: set(&[1, 2]) };
    let h: HeuristicsSts = heuristics_sts();
    let st = lt_pdr_init(&f, &alpha);
    let st = match lt_pdr_step(&h, &f, &alpha, st) {
        Step::Next(Rule::Unfold, next) => next,
        _ => panic!("expected an unfold"),
    };
    assert_eq!(subsets(&st.0), vec![set(&[1]), all.clone()]);
    assert!(st.1.is_empty());
    let st = match lt_pdr_step(&h, &f, &alpha, st) {
        Step::Next(Rule::Candidate, next) => next,
        _ => panic!("expected a candidate"),
    };
    assert_eq!(subsets(&st.1), vec![set(&[3, 4, 5])]);
    let st = match lt_pdr_step(&h, &f, &alpha, st) {
        Step::Next(Rule::Conflict, next) => next,
        _ => panic!("expected a conflict"),
    };
    assert_eq!(subsets(&st.0), vec![set(&[1]), set(&[1, 2, 3])]);
    assert!(st.1.is_empty());
}

#[test]
fn step_decide_then_invalid() {
    let init = set(&[1]);
    let all = set(&[1, 2, 3, 4, 5]);
    let f = forward_ps(&init, &delta1);
    let alpha = PS { all: &all, subset: set(&[1, 2]) };
    let h: HeuristicsSts = heuristics_sts();
    let st = KTKl(
        vec![PS { all: &all, subset: set(&[1]) }, PS { all: &all, subset: set(&[1, 2, 3]) }],
        vec![PS { all: &all, subset: set(&[3]) }],
    );
    let st = match lt_pdr_step(&h, &f, &alpha, st) {
        Step::Next(Rule::Decide, next) => next,
        _ => panic!("expected a decide"),
    };
    assert_eq!(subsets(&st.1), vec![set(&[3]), set(&[1])]);
    match lt_pdr_step(&h, &f, &alpha, st) {
        Step::Answer(PDRAnswer::InValid(cs)) => assert_eq!(subsets(&cs), vec![set(&[3]), set(&[1])]),
        _ => panic!("expected an invalid answer"),
    }
}

#[test]
fn run_unsafe_system_gives_counterexample() {
    let init = set(&[1]);
    let all = set(&[1, 2, 3, 4, 5]);
    let f = forward_ps(&init, &delta1);
    let alpha = PS { all: &all, subset: set(&[1, 2]) };
    let (rules, answer) = trace(&f, &alpha);
    assert_eq!(rules, vec!["unfold", "candidate", "conflict", "candidate", "decide", "invalid"]);
    match answer {
        PDRAnswer::InValid(cs) => {
            assert_eq!(subsets(&cs), vec![set(&[3]), set(&[1])]);
            // The counterexample: C_1 lies in the image of the empty set, C_2 in the image of
            // C_1, and C_2 escapes the bound.
            let bottom = PS { all: &all, subset: set(&[]) };
            assert!(cs[1].subset.is_subset(&f(&bottom).subset));
            assert!(cs[0].subset.is_subset(&f(&cs[1]).subset));
            assert!(!cs[0].subset.is_subset(&alpha.subset));
        }
        PDRAnswer::Valid(_) => panic!("expected an invalid answer"),
    }
}

#[test]
fn run_safe_system_gives_inductive_invariant() {
    let init = set(&[1]);
    let all = set(&[1, 2, 3, 4, 5]);
    let f = forward_ps(&init, &delta1);
    let alpha = PS { all: &all, subset: set(&[1, 2, 3, 4]) };
    let (rules, answer) = trace(&f, &alpha);
    assert_eq!(
        rules,
        vec![
            "unfold", "candidate", "conflict", "unfold", "candidate", "decide", "conflict",
            "conflict", "unfold", "candidate", "decide", "conflict", "valid",
        ]
    );
    match answer {
        PDRAnswer::Valid(xs) => {
            assert_eq!(
                subsets(&xs),
                vec![set(&[1]), set(&[1, 2, 3]), set(&[1, 2, 3]), all.clone()]
            );
            // An element of the KT sequence is an inductive invariant below the bound.
            let p = &xs[1];
            assert!(f(p).subset.is_subset(&p.subset));
            assert!(p.subset.is_subset(&alpha.subset));
        }
        PDRAnswer::InValid(_) => panic!("expected a valid answer"),
    }
}

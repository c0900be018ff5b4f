use ltpdr::instances::reachability::check_safety;
use ltpdr::instances::simple_trans::{forward_ps, heuristics_sts, HeuristicsSts, PS};
use ltpdr::{lt_pdr, lt_pdr_init, lt_pdr_step, KTKl, Options, PDRAnswer, Step};
use std::collections::HashSet;

fn set(items: &[u32]) -> HashSet<u32> {
    items.iter().cloned().collect()
}

fn delta1(s: &u32) -> HashSet<u32> {
    match s {
        1 => HashSet::from([2, 3]),
        2 => HashSet::from([1, 3]),
        4 => HashSet::from([5]),
        _ => HashSet::new(),
    }
}

/// The measure of a state: height + 2 - |KT|, the sum of the sizes of the KT sets, and
/// |KT| - |Kleene|.
fn measure(st: &KTKl<PS>, height: usize) -> (i64, i64, i64) {
    let kt = st.0.len() as i64;
    let ranks: i64 = st.0.iter().map(|p| p.subset.len() as i64).sum();
    (height as i64 + 2 - kt, ranks, kt - st.1.len() as i64)
}

/// Runs to the answer, checking that every step lowers the measure, and returns whether the
/// answer is `Valid` and the number of steps taken.
fn run_checking_measure<'a, F: Fn(&PS<'a>) -> PS<'a>>(f: &F, alpha: &PS<'a>) -> (bool, usize) {
    let h: HeuristicsSts = heuristics_sts();
    let height = alpha.all.len();
    let mut current = lt_pdr_init(f, alpha);
    let mut steps = 0;
    loop {
        let before = measure(&current, height);
        steps += 1;
        match lt_pdr_step(&h, f, alpha, current) {
            Step::Answer(PDRAnswer::Valid(_)) => return (true, steps),
            Step::Answer(PDRAnswer::InValid(_)) => return (false, steps),
            Step::Next(_, next) => {
                let after = measure(&next, height);
                assert!(after.0 >= 0 && after.1 >= 0 && after.2 >= 0);
                assert!(after < before, "measure {:?} did not fall below {:?}", after, before);
                current = next;
            }
        }
    }
}

/// The states reachable from `init` by steps of `delta1`.
fn reachable(init: &HashSet<u32>) -> HashSet<u32> {
    let mut seen = init.clone();
    let mut todo: Vec<u32> = init.iter().cloned().collect();
    while let Some(s) = todo.pop() {
        for t in delta1(&s) {
            if seen.insert(t) {
                todo.push(t);
            }
        }
    }
    seen
}

#[test]
fn measure_falls_on_every_step() {
    let init = set(&[1]);
    let all = set(&[1, 2, 3, 4, 5]);
    let f = forward_ps(&init, &delta1);
    let safe_bound = PS { all: &all, subset: set(&[1, 2, 3]) };
    assert_eq!(run_checking_measure(&f, &safe_bound).0, true);
    let unsafe_bound = PS { all: &all, subset: set(&[1, 2]) };
    assert_eq!(run_checking_measure(&f, &unsafe_bound).0, false);
}

#[test]
fn valid_exactly_when_reachable_states_in_bound() {
    let universe: Vec<u32> = vec![1, 2, 3, 4, 5];
    let all = set(&universe);
    for init_mask in 0u32..32 {
        let init: HashSet<u32> =
            universe.iter().cloned().filter(|s| init_mask & (1 << (s - 1)) != 0).collect();
        let reach = reachable(&init);
        let f = forward_ps(&init, &delta1);
        for bound_mask in 0u32..32 {
            let bound: HashSet<u32> =
                universe.iter().cloned().filter(|s| bound_mask & (1 << (s - 1)) != 0).collect();
            let alpha = PS { all: &all, subset: bound.clone() };
            let (valid, _) = run_checking_measure(&f, &alpha);
            assert_eq!(valid, reach.is_subset(&bound), "init {:?}, bound {:?}", init, bound);
            let answer = lt_pdr(Options::default_opt(), heuristics_sts(), &f, alpha);
            assert_eq!(matches!(answer, PDRAnswer::Valid(_)), valid);
            let checked = check_safety(&init, &delta1, PS { all: &all, subset: bound.clone() });
            assert_eq!(matches!(checked, PDRAnswer::Valid(_)), valid);
        }
    }
}

fn subsets(seq: &[PS]) -> Vec<HashSet<u32>> {
    seq.iter().map(|p| p.subset.clone()).collect()
}

#[test]
fn lt_pdr_returns_the_run_sequences() {
    let init = set(&[1]);
    let all: HashSet<u32> = (1..6).collect();
    let f = forward_ps(&init, &delta1);
    let safe_bound = PS { all: &all, subset: (1..5).collect() };
    match lt_pdr(Options::default_opt(), heuristics_sts(), &f, safe_bound) {
        PDRAnswer::Valid(xs) => {
            assert_eq!(subsets(&xs), vec![set(&[1]), set(&[1, 2, 3]), set(&[1, 2, 3]), all.clone()]);
            assert!(xs.iter().all(|p| std::ptr::eq(p.all, &all)));
        }
        PDRAnswer::InValid(_) => panic!("expected a valid answer"),
    }
    let unsafe_bound = PS { all: &all, subset: (1..3).collect() };
    match lt_pdr(Options::default_opt(), heuristics_sts(), &f, unsafe_bound) {
        PDRAnswer::InValid(cs) => assert_eq!(subsets(&cs), vec![set(&[3]), set(&[1])]),
        PDRAnswer::Valid(_) => panic!("expected an invalid answer"),
    }
}

#[test]
fn check_safety_on_the_example_system() {
    let init = set(&[1]);
    let all: HashSet<u32> = (1..6).collect();
    let safe = check_safety(&init, &delta1, PS { all: &all, subset: (1..5).collect() });
    assert!(matches!(safe, PDRAnswer::Valid(_)));
    let unsafe_answer = check_safety(&init, &delta1, PS { all: &all, subset: (1..3).collect() });
    assert!(matches!(unsafe_answer, PDRAnswer::InValid(_)));
}

#[test]
fn powerset_elements_print() {
    let all = set(&[1]);
    let p = PS { all: &all, subset: set(&[1]) };
    let shown = format!("{:?}", p);
    assert!(shown.contains("subset"));
}

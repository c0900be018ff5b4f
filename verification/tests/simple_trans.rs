use ltpdr::instances::simple_trans::{forward_ps, heuristics_sts, PS};
use ltpdr::{lt_pdr, Options, PDRAnswer};
use std::collections::HashSet;

fn is_valid<T>(result: PDRAnswer<T>) -> bool {
    match result {
        PDRAnswer::Valid(_) => true,
        PDRAnswer::InValid(_) => false,
    }
}

fn delta1(s: &u32) -> HashSet<u32> {
    match s {
        1 => HashSet::from([2, 3]),
        2 => HashSet::from([1, 3]),
        4 => HashSet::from([5]),
        _ => HashSet::new(),
    }
}

#[test]
fn case1() {
    let init = HashSet::from([1]);
    let all = HashSet::from_iter(1..6);
    let f = forward_ps(&init, &delta1);
    let alpha = PS {
        all: &all,
        subset: HashSet::from_iter(1..5),
    };
    let result = lt_pdr(Options::default_opt(), heuristics_sts(), &f, alpha);
    assert!(is_valid(result));
}

#[test]
fn case2() {
    let init = HashSet::from([1]);
    let all = HashSet::from_iter(1..6);
    let f = forward_ps(&init, &delta1);
    let alpha = PS {
        all: &all,
        subset: HashSet::from_iter(1..3),
    };
    let result = lt_pdr(Options::default_opt(), heuristics_sts(), &f, alpha);
    assert!(!is_valid(result));
}

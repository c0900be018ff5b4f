use ltpdr::instances::simple_trans::{forward_ps, heuristics_sts, HeuristicsSts, PS};
use ltpdr::{check_valid, CLat, Heuristics, Options, PDRAnswer, Verbosity};
use std::collections::HashSet;

fn set(items: &[u32]) -> HashSet<u32> {
    items.iter().cloned().collect()
}

fn delta1(s: &u32) -> HashSet<u32> {
    match s {
        1 => HashSet::from([2, 3]),
        2 => HashSet::from([1, 3]),
        4 => HashSet::from([5]),
        _ => HashSet::new(),
    }
}

#[test]
fn ps_leq_is_inclusion() {
    let all = set(&[1, 2, 3, 4, 5]);
    let a = PS { all: &all, subset: set(&[1, 2]) };
    let b = PS { all: &all, subset: set(&[1, 2, 3]) };
    assert!(a.leq(&b).0);
    assert!(!b.leq(&a).0);
    assert!(a.leq(&a).0);
}

#[test]
fn ps_bot_top_meet() {
    let all = set(&[1, 2, 3, 4, 5]);
    let a = PS { all: &all, subset: set(&[1, 2, 4]) };
    let b = PS { all: &all, subset: set(&[2, 3, 4]) };
    assert_eq!(a.bot().subset, set(&[]));
    assert_eq!(a.top().subset, all);
    assert_eq!(a.meet(&b).subset, set(&[2, 4]));
    assert!(std::ptr::eq(a.meet(&b).all, &all));
}

#[test]
fn forward_ps_image() {
    let init = set(&[1]);
    let all = set(&[1, 2, 3, 4, 5]);
    let f = forward_ps(&init, &delta1);
    assert_eq!(f(&PS { all: &all, subset: set(&[]) }).subset, set(&[1]));
    assert_eq!(f(&PS { all: &all, subset: set(&[1]) }).subset, set(&[1, 2, 3]));
    assert_eq!(f(&PS { all: &all, subset: set(&[4]) }).subset, set(&[1, 5]));
    assert_eq!(f(&PS { all: &all, subset: set(&[2, 4, 5]) }).subset, set(&[1, 3, 5]));
}

/// The candidate of the heuristics, used with the transformer `_f`.
fn candidate_for<'a, F: Fn(&PS<'a>) -> PS<'a>>(
    h: &HeuristicsSts,
    _f: &F,
    xn1: &PS<'a>,
    alpha: &PS<'a>,
) -> PS<'a> {
    <HeuristicsSts as Heuristics<PS<'a>, F>>::f_candidate(h, xn1, alpha, &())
}

#[test]
fn candidate_is_excluded_part() {
    let all = set(&[1, 2, 3, 4, 5]);
    let init = set(&[1]);
    let f = forward_ps(&init, &delta1);
    let h: HeuristicsSts = heuristics_sts();
    let xn1 = PS { all: &all, subset: set(&[1, 2, 3, 5]) };
    let alpha = PS { all: &all, subset: set(&[1, 2, 3, 4]) };
    let c = candidate_for(&h, &f, &xn1, &alpha);
    assert_eq!(c.subset, set(&[5]));
}

#[test]
fn decide_keeps_states_reaching_candidate() {
    let all = set(&[1, 2, 3, 4, 5]);
    let init = set(&[1]);
    let f = forward_ps(&init, &delta1);
    let h: HeuristicsSts = heuristics_sts();
    let xi1 = PS { all: &all, subset: set(&[1, 2, 3, 4]) };
    let ci = PS { all: &all, subset: set(&[5]) };
    let x = h.f_decide(&xi1, &ci, &f, &());
    assert_eq!(x.subset, set(&[4]));
    let ci2 = PS { all: &all, subset: set(&[3]) };
    let x2 = h.f_decide(&xi1, &ci2, &f, &());
    assert_eq!(x2.subset, set(&[1, 2]));
}

#[test]
fn conflict_removes_unreached_candidate_states() {
    let all = set(&[1, 2, 3, 4, 5]);
    let init = set(&[1]);
    let f = forward_ps(&init, &delta1);
    let h: HeuristicsSts = heuristics_sts();
    let xi1 = PS { all: &all, subset: set(&[1]) };
    let ci = PS { all: &all, subset: set(&[4]) };
    let x = h.f_conflict(&xi1, &ci, &f, &());
    assert_eq!(x.subset, set(&[1, 2, 3, 5]));
    let ci2 = PS { all: &all, subset: set(&[3, 4, 5]) };
    let x2 = h.f_conflict(&xi1, &ci2, &f, &());
    assert_eq!(x2.subset, set(&[1, 2, 3]));
}

#[test]
fn check_valid_finds_descent() {
    let all = set(&[1, 2, 3, 4, 5]);
    let xs = vec![
        PS { all: &all, subset: set(&[1]) },
        PS { all: &all, subset: set(&[1, 2]) },
        PS { all: &all, subset: set(&[1, 2]) },
    ];
    assert!(check_valid(&xs));
    let ys = vec![PS { all: &all, subset: set(&[1]) }, PS { all: &all, subset: set(&[1, 2]) }];
    assert!(!check_valid(&ys));
    let zs = vec![PS { all: &all, subset: set(&[1]) }];
    assert!(!check_valid(&zs));
}

#[test]
fn default_options_print_nothing() {
    assert!(matches!(Options::default_opt().print, Verbosity::NoPrint));
}

#[test]
fn answer_labels() {
    let v: PDRAnswer<u32> = PDRAnswer::Valid(vec![]);
    let i: PDRAnswer<u32> = PDRAnswer::InValid(vec![]);
    assert_eq!(v.label(), "Valid");
    assert_eq!(i.label(), "InValid");
}

#[test]
fn ps_lattice_laws_on_values() {
    let all = set(&[1, 2, 3, 4, 5]);
    let a = PS { all: &all, subset: set(&[1, 2]) };
    let b = PS { all: &all, subset: set(&[1, 2, 3]) };
    let c = PS { all: &all, subset: set(&[1, 2, 3, 4]) };
    // transitivity
    assert!(a.leq(&b).0 && b.leq(&c).0 && a.leq(&c).0);
    // bottom below, top above
    assert!(a.bot().leq(&a).0 && a.leq(&a.top()).0);
    // the meet is the greatest lower bound
    let d = PS { all: &all, subset: set(&[2, 3, 5]) };
    let m = c.meet(&d);
    assert!(m.leq(&c).0 && m.leq(&d).0);
    let below_both = PS { all: &all, subset: set(&[2]) };
    assert!(below_both.leq(&m).0);
}

#[test]
fn forward_ps_is_monotone_and_additive_on_values() {
    let init = set(&[1]);
    let all = set(&[1, 2, 3, 4, 5]);
    let f = forward_ps(&init, &delta1);
    let small = PS { all: &all, subset: set(&[1]) };
    let large = PS { all: &all, subset: set(&[1, 4]) };
    assert!(f(&small).subset.is_subset(&f(&large).subset));
    let four = PS { all: &all, subset: set(&[4]) };
    let union: HashSet<u32> = f(&small).subset.union(&f(&four).subset).cloned().collect();
    assert_eq!(f(&large).subset, union);
}

//! The invariant of LT-PDR and the soundness of its answers.
//!
//! With `X_0` the bottom, the KT sequence `xs = [X_1, ..., X_{n-1}]` is an ascending chain
//! of over-approximations of the iterates of `f`, all below the bound but possibly the last,
//! whose first element `X_1` stays equal, in the order, to every image of the bottom;
//! the Kleene sequence `cs = [C_{n-1}, ..., C_i]` lies below the KT sequence, its first
//! element escapes the bound, and each element is covered by the image of the next.  Every
//! step keeps this invariant, so a `Valid` answer holds an inductive invariant below the
//! bound, and an `InValid` answer a chain from the image of the bottom to outside the bound.
use vstd::prelude::*;
use crate::lattice::{CLat, LatticeLaws};
use crate::pdr::{
    closed, maps, monotone, refine_outcome, step_spec, Heuristics, HeuristicsLaws, KTKl, PDRAnswer, Step,
};

verus! {

/// Every element of `s` is a well-formed element of the lattice of `alpha`.
pub open spec fn all_members<T: CLat>(s: Seq<T>, alpha: T) -> bool {
    forall|k: int|
        #![trigger s[k]]
        0 <= k < s.len() ==> s[k].member_spec() && s[k].compat_spec(&alpha)
}

/// `x` lies below every image of the bottom of the lattice of `alpha`.
pub open spec fn below_image_of_bot<T: CLat, F: Fn(&T) -> T>(x: T, f: F, alpha: T) -> bool {
    forall|b: T, fb: T|
        #![trigger alpha.bot_spec(&b), maps(f, b, fb)]
        alpha.bot_spec(&b) && maps(f, b, fb) ==> x.le_spec(&fb)
}

/// Every image of the bottom of the lattice of `alpha` lies below `x`.
pub open spec fn above_image_of_bot<T: CLat, F: Fn(&T) -> T>(x: T, f: F, alpha: T) -> bool {
    forall|b: T, fb: T|
        #![trigger alpha.bot_spec(&b), maps(f, b, fb)]
        alpha.bot_spec(&b) && maps(f, b, fb) ==> fb.le_spec(&x)
}

/// The KT sequence is an ascending chain.
pub open spec fn ascending<T: CLat>(xs: Seq<T>) -> bool {
    forall|j: int, k: int|
        #![trigger xs[j], xs[k]]
        0 <= j <= k < xs.len() ==> xs[j].le_spec(&xs[k])
}

/// Each element of the KT sequence bounds the image of everything below its predecessor.
pub open spec fn images_bounded<T: CLat, F: Fn(&T) -> T>(xs: Seq<T>, f: F, alpha: T) -> bool {
    forall|k: int, y: T, fy: T|
        #![trigger y.le_spec(&xs[k]), maps(f, y, fy)]
        0 <= k < xs.len() - 1 && y.member_spec() && y.compat_spec(&alpha) && y.le_spec(&xs[k])
            && maps(f, y, fy) ==> fy.le_spec(&xs[k + 1])
}

/// Every element of the KT sequence but the last is below the bound.
pub open spec fn below_bound<T: CLat>(xs: Seq<T>, alpha: T) -> bool {
    forall|k: int| #![trigger xs[k]] 0 <= k < xs.len() - 1 ==> xs[k].le_spec(&alpha)
}

/// Each element of the Kleene sequence lies below the KT element of the same index.
pub open spec fn kleene_below_kt<T: CLat>(xs: Seq<T>, cs: Seq<T>) -> bool {
    forall|t: int|
        #![trigger cs[t]]
        0 <= t < cs.len() ==> cs[t].le_spec(&xs[xs.len() - 1 - t])
}

/// Each element of the Kleene sequence is covered by every image of the next one.
pub open spec fn kleene_covered<T: CLat, F: Fn(&T) -> T>(cs: Seq<T>, f: F) -> bool {
    forall|t: int, fr: T|
        #![trigger maps(f, cs[t + 1], fr)]
        0 <= t < cs.len() - 1 && maps(f, cs[t + 1], fr) ==> cs[t].le_spec(&fr)
}

/// The invariant of LT-PDR on a KT sequence `xs` and a Kleene sequence `cs`.
pub open spec fn pdr_inv<T: CLat, F: Fn(&T) -> T>(xs: Seq<T>, cs: Seq<T>, f: F, alpha: T) -> bool {
    &&& 1 <= xs.len()
    &&& cs.len() <= xs.len()
    &&& alpha.member_spec()
    &&& all_members(xs, alpha)
    &&& all_members(cs, alpha)
    &&& below_image_of_bot(xs[0], f, alpha)
    &&& above_image_of_bot(xs[0], f, alpha)
    &&& ascending(xs)
    &&& images_bounded(xs, f, alpha)
    &&& below_bound(xs, alpha)
    &&& kleene_below_kt(xs, cs)
    &&& cs.len() > 0 ==> !cs[0].le_spec(&alpha)
    &&& kleene_covered(cs, f)
}

/// `p` is below the bound and `f` maps everything below `p` to below `p`: an inductive
/// invariant that contains the least fixed point of `f` and proves the bound.
pub open spec fn inductive_below<T: CLat, F: Fn(&T) -> T>(p: T, f: F, alpha: T) -> bool {
    &&& p.member_spec()
    &&& p.compat_spec(&alpha)
    &&& p.le_spec(&alpha)
    &&& forall|y: T, fy: T|
        #![trigger y.le_spec(&p), maps(f, y, fy)]
        y.member_spec() && y.compat_spec(&alpha) && y.le_spec(&p) && maps(f, y, fy)
            ==> fy.le_spec(&p)
}

/// Some element of `xs` is an inductive invariant below the bound.
pub open spec fn valid_certificate<T: CLat, F: Fn(&T) -> T>(xs: Seq<T>, f: F, alpha: T) -> bool {
    exists|j: int| 0 <= j < xs.len() && #[trigger] inductive_below(xs[j], f, alpha)
}

/// `cs = [C_{n-1}, ..., C_1]` refutes the bound: `C_1` is below every image of the bottom,
/// each `C_{j+1}` is below every image of `C_j`, and `C_{n-1}` is not below the bound.
pub open spec fn counterexample<T: CLat, F: Fn(&T) -> T>(cs: Seq<T>, f: F, alpha: T) -> bool {
    &&& cs.len() >= 1
    &&& all_members(cs, alpha)
    &&& !cs[0].le_spec(&alpha)
    &&& kleene_covered(cs, f)
    &&& below_image_of_bot(cs[cs.len() - 1], f, alpha)
}

/// The first state of a run, the image of the bottom alone, satisfies the invariant.
pub proof fn lemma_init_establishes_inv<T: LatticeLaws, F: Fn(&T) -> T>(
    f: F,
    alpha: T,
    start: KTKl<T>,
)
    requires
        alpha.member_spec(),
        monotone(f, &alpha),
        closed(f, &alpha),
        start.0@.len() == 1,
        start.1@.len() == 0,
        exists|b: T| alpha.bot_spec(&b) && maps(f, b, start.0@[0]),
    ensures
        pdr_inv(start.0@, start.1@, f, alpha),
{
    let xs = start.0@;
    let b0 = choose|b: T| alpha.bot_spec(&b) && maps(f, b, xs[0]);
    T::lemma_bot(&alpha, &b0, &b0);
    T::lemma_compat(&b0, &alpha, &b0);
    assert(xs[0].member_spec() && xs[0].compat_spec(&alpha));
    T::lemma_le_reflexive(&xs[0]);
    assert forall|b: T, fb: T|
        #![trigger alpha.bot_spec(&b), maps(f, b, fb)]
        alpha.bot_spec(&b) && maps(f, b, fb) implies xs[0].le_spec(&fb) && fb.le_spec(&xs[0]) by {
        T::lemma_bot(&alpha, &b, &b);
        T::lemma_bot(&alpha, &b0, &b);
        T::lemma_compat(&b, &alpha, &b0);
        T::lemma_bot(&alpha, &b, &b0);
    }
}

/// An Unfold step, which appends the top to the KT sequence and empties the Kleene
/// sequence, keeps the invariant.
proof fn lemma_unfold_keeps_inv<T: LatticeLaws, F: Fn(&T) -> T>(
    xs: Seq<T>,
    cs: Seq<T>,
    nx: Seq<T>,
    f: F,
    alpha: T,
)
    requires
        pdr_inv(xs, cs, f, alpha),
        closed(f, &alpha),
        xs[xs.len() - 1].le_spec(&alpha),
        nx.len() == xs.len() + 1,
        nx.take(xs.len() as int) == xs,
        alpha.top_spec(&nx[xs.len() as int]),
    ensures
        pdr_inv(nx, Seq::<T>::empty(), f, alpha),
{
    let m = xs.len() as int;
    let t = nx[m];
    assert forall|k: int| 0 <= k < m implies nx[k] == xs[k] by {
        assert(nx.take(m)[k] == nx[k]);
    }
    T::lemma_top(&alpha, &t, &t);
    assert(all_members(nx, alpha));
    assert forall|j: int, k: int|
        #![trigger nx[j], nx[k]]
        0 <= j <= k < nx.len() implies nx[j].le_spec(&nx[k]) by {
        if k == m {
            T::lemma_top(&alpha, &t, &nx[j]);
        } else {
            assert(xs[j].le_spec(&xs[k]));
        }
    }
    assert forall|k: int, y: T, fy: T|
        #![trigger y.le_spec(&nx[k]), maps(f, y, fy)]
        0 <= k < nx.len() - 1 && y.member_spec() && y.compat_spec(&alpha) && y.le_spec(&nx[k])
            && maps(f, y, fy) implies fy.le_spec(&nx[k + 1]) by {
        if k == m - 1 {
            T::lemma_top(&alpha, &t, &fy);
        } else {
            assert(y.le_spec(&xs[k]));
        }
    }
    assert forall|k: int| #![trigger nx[k]] 0 <= k < nx.len() - 1 implies nx[k].le_spec(&alpha) by {
        if k < m - 1 {
            assert(xs[k].le_spec(&alpha));
        }
    }
    assert(below_image_of_bot(nx[0], f, alpha));
    assert(above_image_of_bot(nx[0], f, alpha));
}

/// A Candidate step, which starts the Kleene sequence with the heuristics' candidate, keeps
/// the invariant.
proof fn lemma_candidate_keeps_inv<T: LatticeLaws, F: Fn(&T) -> T, H: HeuristicsLaws<T, F>>(
    h: H,
    xs: Seq<T>,
    nc: Seq<T>,
    f: F,
    alpha: T,
    info: T::Info,
)
    requires
        pdr_inv(xs, Seq::<T>::empty(), f, alpha),
        !xs[xs.len() - 1].le_spec(&alpha),
        nc.len() == 1,
        h.candidate_spec(&xs[xs.len() - 1], &alpha, &info, &nc[0]),
    ensures
        pdr_inv(xs, nc, f, alpha),
{
    let m = xs.len() as int;
    h.lemma_candidate(&xs[m - 1], &alpha, &info, &nc[0]);
    assert(all_members(nc, alpha));
    assert(kleene_below_kt(xs, nc));
}

/// A Decide step, which extends the Kleene sequence with the heuristics' choice below the
/// KT element of the next lower index, keeps the invariant.
proof fn lemma_decide_keeps_inv<T: LatticeLaws, F: Fn(&T) -> T, H: HeuristicsLaws<T, F>>(
    h: H,
    xs: Seq<T>,
    cs: Seq<T>,
    nc: Seq<T>,
    f: F,
    alpha: T,
    fx: T,
    info: T::Info,
)
    requires
        pdr_inv(xs, cs, f, alpha),
        h.suits(f, &alpha),
        0 < cs.len() < xs.len(),
        maps(f, xs[xs.len() - cs.len() - 1], fx),
        cs[cs.len() - 1].le_spec(&fx),
        nc.len() == cs.len() + 1,
        nc.take(cs.len() as int) == cs,
        h.decide_spec(
            &xs[xs.len() - cs.len() - 1],
            &cs[cs.len() - 1],
            f,
            &info,
            &nc[cs.len() as int],
        ),
    ensures
        pdr_inv(xs, nc, f, alpha),
{
    let m = xs.len() as int;
    let l = cs.len() as int;
    let xi1 = xs[m - l - 1];
    let ci = cs[l - 1];
    let x = nc[l];
    assert forall|t: int| 0 <= t < l implies nc[t] == cs[t] by {
        assert(nc.take(l)[t] == nc[t]);
    }
    h.lemma_decide(f, &alpha, &xi1, &ci, &info, &fx, &x);
    assert(all_members(nc, alpha)) by {
        assert forall|t: int| #![trigger nc[t]] 0 <= t < nc.len() implies nc[t].member_spec()
            && nc[t].compat_spec(&alpha) by {
            if t < l {
                assert(cs[t] == nc[t]);
            }
        }
    }
    assert(kleene_below_kt(xs, nc)) by {
        assert forall|t: int| #![trigger nc[t]] 0 <= t < nc.len() implies nc[t].le_spec(
            &xs[xs.len() - 1 - t],
        ) by {
            if t < l {
                assert(cs[t] == nc[t]);
            }
        }
    }
    assert(kleene_covered(nc, f)) by {
        assert forall|t: int, fr: T|
            #![trigger maps(f, nc[t + 1], fr)]
            0 <= t < nc.len() - 1 && maps(f, nc[t + 1], fr) implies nc[t].le_spec(&fr) by {
            if t < l - 1 {
                assert(nc[t + 1] == cs[t + 1]);
                assert(nc[t] == cs[t]);
                assert(maps(f, cs[t + 1], fr));
            }
        }
    }
    assert(nc[0] == cs[0]);
}

/// A Conflict step, which drops the refuted candidate and strengthens the KT elements up to
/// its index by the heuristics' lemma, keeps the invariant.
proof fn lemma_conflict_keeps_inv<T: LatticeLaws, F: Fn(&T) -> T, H: HeuristicsLaws<T, F>>(
    h: H,
    xs: Seq<T>,
    cs: Seq<T>,
    nx: Seq<T>,
    f: F,
    alpha: T,
    fx: T,
    info: T::Info,
    x: T,
)
    requires
        pdr_inv(xs, cs, f, alpha),
        h.suits(f, &alpha),
        0 < cs.len() < xs.len(),
        maps(f, xs[xs.len() - cs.len() - 1], fx),
        !cs[cs.len() - 1].le_spec(&fx),
        h.conflict_spec(&xs[xs.len() - cs.len() - 1], &cs[cs.len() - 1], f, &info, &x),
        nx.len() == xs.len(),
        forall|k: int|
            0 <= k < xs.len() - cs.len() + 1 ==> #[trigger] xs[k].meet_spec(&x, &nx[k]),
        forall|k: int| xs.len() - cs.len() + 1 <= k < xs.len() ==> #[trigger] nx[k] == xs[k],
    ensures
        pdr_inv(nx, cs.drop_last(), f, alpha),
{
    let m = xs.len() as int;
    let l = cs.len() as int;
    let i = m - l + 1;
    let xi1 = xs[i - 2];
    let ci = cs[l - 1];
    let nc = cs.drop_last();
    h.lemma_conflict(f, &alpha, &xi1, &ci, &info, &fx, &x);
    T::lemma_compat(&x, &alpha, &x);
    assert forall|k: int| 0 <= k < i implies {
        &&& #[trigger] nx[k].le_spec(&xs[k])
        &&& nx[k].le_spec(&x)
        &&& nx[k].member_spec()
        &&& nx[k].compat_spec(&alpha)
    } by {
        assert(xs[k].meet_spec(&x, &nx[k]));
        T::lemma_compat(&xs[k], &alpha, &x);
        T::lemma_meet(&xs[k], &x, &nx[k], &nx[k]);
        T::lemma_compat(&nx[k], &xs[k], &alpha);
    }
    assert(all_members(nx, alpha)) by {
        assert forall|k: int| #![trigger nx[k]] 0 <= k < nx.len() implies nx[k].member_spec()
            && nx[k].compat_spec(&alpha) by {
            if k < i {
                assert(nx[k].le_spec(&xs[k]));
            } else {
                assert(nx[k] == xs[k]);
            }
        }
    }
    assert(ascending(nx)) by {
        assert forall|j: int, k: int|
            #![trigger nx[j], nx[k]]
            0 <= j <= k < nx.len() implies nx[j].le_spec(&nx[k]) by {
            assert(xs[j].le_spec(&xs[k]));
            if k < i {
                assert(nx[j].le_spec(&xs[j]));
                T::lemma_le_transitive(&nx[j], &xs[j], &xs[k]);
                assert(xs[k].meet_spec(&x, &nx[k]));
                T::lemma_meet(&xs[k], &x, &nx[k], &nx[j]);
            } else if j < i {
                assert(nx[j].le_spec(&xs[j]));
                assert(nx[k] == xs[k]);
                T::lemma_le_transitive(&nx[j], &xs[j], &xs[k]);
            } else {
                assert(nx[j] == xs[j]);
                assert(nx[k] == xs[k]);
            }
        }
    }
    assert(images_bounded(nx, f, alpha)) by {
        assert forall|k: int, y: T, fy: T|
            #![trigger y.le_spec(&nx[k]), maps(f, y, fy)]
            0 <= k < nx.len() - 1 && y.member_spec() && y.compat_spec(&alpha) && y.le_spec(&nx[k])
                && maps(f, y, fy) implies fy.le_spec(&nx[k + 1]) by {
            if k < i {
                assert(nx[k].le_spec(&xs[k]));
                T::lemma_le_transitive(&y, &nx[k], &xs[k]);
            } else {
                assert(nx[k] == xs[k]);
            }
            assert(y.le_spec(&xs[k]));
            assert(fy.le_spec(&xs[k + 1]));
            if k + 1 < i {
                assert(xs[k].le_spec(&xs[i - 2]));
                T::lemma_le_transitive(&y, &xs[k], &xs[i - 2]);
                assert(nx[k].le_spec(&x));
                T::lemma_le_transitive(&y, &nx[k], &x);
                assert(fy.le_spec(&x));
                assert(xs[k + 1].meet_spec(&x, &nx[k + 1]));
                T::lemma_meet(&xs[k + 1], &x, &nx[k + 1], &fy);
            } else {
                assert(nx[k + 1] == xs[k + 1]);
            }
        }
    }
    assert(below_bound(nx, alpha)) by {
        assert forall|k: int| #![trigger nx[k]] 0 <= k < nx.len() - 1 implies nx[k].le_spec(
            &alpha,
        ) by {
            assert(xs[k].le_spec(&alpha));
            if k < i {
                assert(nx[k].le_spec(&xs[k]));
                T::lemma_le_transitive(&nx[k], &xs[k], &alpha);
            } else {
                assert(nx[k] == xs[k]);
            }
        }
    }
    assert(above_image_of_bot(nx[0], f, alpha)) by {
        assert forall|b: T, fb: T|
            #![trigger alpha.bot_spec(&b), maps(f, b, fb)]
            alpha.bot_spec(&b) && maps(f, b, fb) implies fb.le_spec(&nx[0]) by {
            T::lemma_bot(&alpha, &b, &xi1);
            T::lemma_bot(&alpha, &b, &x);
            T::lemma_compat(&b, &alpha, &b);
            assert(fb.le_spec(&xs[0]));
            assert(fb.le_spec(&x));
            assert(xs[0].meet_spec(&x, &nx[0]));
            T::lemma_meet(&xs[0], &x, &nx[0], &fb);
        }
    }
    assert(below_image_of_bot(nx[0], f, alpha)) by {
        assert(nx[0].le_spec(&xs[0]));
        assert forall|b: T, fb: T|
            #![trigger alpha.bot_spec(&b), maps(f, b, fb)]
            alpha.bot_spec(&b) && maps(f, b, fb) implies nx[0].le_spec(&fb) by {
            T::lemma_le_transitive(&nx[0], &xs[0], &fb);
        }
    }
    assert(all_members(nc, alpha)) by {
        assert forall|t: int| #![trigger nc[t]] 0 <= t < nc.len() implies nc[t].member_spec()
            && nc[t].compat_spec(&alpha) by {
            assert(nc[t] == cs[t]);
        }
    }
    assert(kleene_below_kt(nx, nc)) by {
        assert forall|t: int| #![trigger nc[t]] 0 <= t < nc.len() implies nc[t].le_spec(
            &nx[nx.len() - 1 - t],
        ) by {
            assert(nc[t] == cs[t]);
            assert(nx[m - 1 - t] == xs[m - 1 - t]);
        }
    }
    assert(kleene_covered(nc, f)) by {
        assert forall|t: int, fr: T|
            #![trigger maps(f, nc[t + 1], fr)]
            0 <= t < nc.len() - 1 && maps(f, nc[t + 1], fr) implies nc[t].le_spec(&fr) by {
            assert(nc[t + 1] == cs[t + 1]);
            assert(nc[t] == cs[t]);
            assert(maps(f, cs[t + 1], fr));
        }
    }
    if nc.len() > 0 {
        assert(nc[0] == cs[0]);
    }
}

/// The answers of LT-PDR under the invariant: `Valid` with an inductive invariant below the
/// bound in the KT sequence, `InValid` with a counterexample in the Kleene sequence.
proof fn lemma_answers_sound<T: LatticeLaws, F: Fn(&T) -> T>(
    xs: Seq<T>,
    cs: Seq<T>,
    f: F,
    alpha: T,
)
    requires
        pdr_inv(xs, cs, f, alpha),
    ensures
        crate::pdr::valid_found(xs) ==> valid_certificate(xs, f, alpha),
        xs.len() == cs.len() ==> counterexample(cs, f, alpha),
{
    if crate::pdr::valid_found(xs) {
        let j = choose|j: int| 0 <= j < xs.len() - 1 && #[trigger] xs[j + 1].le_spec(&xs[j]);
        assert forall|y: T, fy: T|
            #![trigger y.le_spec(&xs[j]), maps(f, y, fy)]
            y.member_spec() && y.compat_spec(&alpha) && y.le_spec(&xs[j]) && maps(f, y, fy)
                implies fy.le_spec(&xs[j]) by {
            T::lemma_le_transitive(&fy, &xs[j + 1], &xs[j]);
        }
        assert(xs[j].le_spec(&alpha));
        assert(inductive_below(xs[j], f, alpha));
    }
    if xs.len() == cs.len() {
        let last = cs[cs.len() - 1];
        assert(last.le_spec(&xs[0]));
        assert forall|b: T, fb: T|
            #![trigger alpha.bot_spec(&b), maps(f, b, fb)]
            alpha.bot_spec(&b) && maps(f, b, fb) implies last.le_spec(&fb) by {
            T::lemma_le_transitive(&last, &xs[0], &fb);
        }
    }
}

/// A step that compares a candidate with an image of the KT element before it: the image,
/// what the comparison reported, and the outcome that the step took from them.
pub proof fn lemma_refine_witness<T: CLat, H: Heuristics<T, F>, F: Fn(&T) -> T>(
    h: H,
    f: F,
    alpha: T,
    cur: KTKl<T>,
    r: Step<T>,
) -> (w: (T, T::Info))
    requires
        step_spec(h, f, alpha, cur, r),
        !crate::pdr::valid_found(cur.0@),
        0 < cur.1@.len() < cur.0@.len(),
        !cur.0@[cur.0@.len() - 1].le_spec(&alpha),
    ensures
        maps(f, cur.0@[cur.0@.len() - cur.1@.len() - 1], w.0),
        cur.1@.last().info_spec(&w.0, &w.1),
        refine_outcome(h, f, cur, r, w.0, w.1),
{
    let xs = cur.0@;
    let cs = cur.1@;
    let xi1 = xs[xs.len() - cs.len() - 1];
    let ci = cs.last();
    choose|fx: T, info: T::Info|
        #[trigger] maps(f, xi1, fx) && #[trigger] ci.info_spec(&fx, &info) && refine_outcome(
            h,
            f,
            cur,
            r,
            fx,
            info,
        )
}

/// Every step of LT-PDR keeps the invariant, and its answers are sound: `Valid` comes with
/// an inductive invariant below the bound in the KT sequence it returns, and `InValid` with a
/// counterexample in the Kleene sequence it returns.  This holds for a lattice, a transformer
/// that keeps to the lattice, and heuristics whose choices are admissible for them.
pub proof fn lemma_step_keeps_inv<T: LatticeLaws, F: Fn(&T) -> T, H: HeuristicsLaws<T, F>>(
    h: H,
    f: F,
    alpha: T,
    cur: KTKl<T>,
    r: Step<T>,
)
    requires
        pdr_inv(cur.0@, cur.1@, f, alpha),
        step_spec(h, f, alpha, cur, r),
        closed(f, &alpha),
        h.suits(f, &alpha),
    ensures
        r matches Step::Next(_, next) ==> pdr_inv(next.0@, next.1@, f, alpha),
        r matches Step::Answer(PDRAnswer::Valid(xs)) ==> valid_certificate(xs@, f, alpha),
        r matches Step::Answer(PDRAnswer::InValid(cs)) ==> counterexample(cs@, f, alpha),
{
    let xs = cur.0@;
    let cs = cur.1@;
    let m = xs.len();
    lemma_answers_sound(xs, cs, f, alpha);
    if crate::pdr::valid_found(xs) || m == cs.len() {
    } else if xs[m - 1].le_spec(&alpha) {
        let next = r->Next_1;
        lemma_unfold_keeps_inv(xs, cs, next.0@, f, alpha);
    } else if cs.len() == 0 {
        let next = r->Next_1;
        let info = choose|info: T::Info|
            #[trigger] xs[m - 1].info_spec(&alpha, &info) && h.candidate_spec(
                &xs[m - 1],
                &alpha,
                &info,
                &next.1@[0],
            );
        assert(cs =~= Seq::<T>::empty());
        lemma_candidate_keeps_inv(h, xs, next.1@, f, alpha, info);
    } else {
        let (fx, info) = lemma_refine_witness(h, f, alpha, cur, r);
        lemma_refine_keeps_inv(h, f, alpha, cur, r, fx, info);
    }
}

/// A Decide or Conflict step keeps the invariant.
proof fn lemma_refine_keeps_inv<T: LatticeLaws, F: Fn(&T) -> T, H: HeuristicsLaws<T, F>>(
    h: H,
    f: F,
    alpha: T,
    cur: KTKl<T>,
    r: Step<T>,
    fx: T,
    info: T::Info,
)
    requires
        pdr_inv(cur.0@, cur.1@, f, alpha),
        closed(f, &alpha),
        h.suits(f, &alpha),
        !crate::pdr::valid_found(cur.0@),
        0 < cur.1@.len() < cur.0@.len(),
        !cur.0@[cur.0@.len() - 1].le_spec(&alpha),
        maps(f, cur.0@[cur.0@.len() - cur.1@.len() - 1], fx),
        cur.1@.last().info_spec(&fx, &info),
        refine_outcome(h, f, cur, r, fx, info),
    ensures
        r matches Step::Next(_, next) ==> pdr_inv(next.0@, next.1@, f, alpha),
{
    let xs = cur.0@;
    let cs = cur.1@;
    let m = xs.len();
    let ci = cs.last();
    let i = m - cs.len() + 1;
    let xi1 = xs[i - 2];
    let next = r->Next_1;
    if ci.le_spec(&fx) {
        lemma_decide_keeps_inv(h, xs, cs, next.1@, f, alpha, fx, info);
    } else {
        let x = choose|x: T|
            {
                &&& #[trigger] h.conflict_spec(&xi1, &ci, f, &info, &x)
                &&& forall|k: int| 0 <= k < i ==> #[trigger] xs[k].meet_spec(&x, &next.0@[k])
                &&& forall|k: int| i <= k < m ==> #[trigger] next.0@[k] == xs[k]
            };
        lemma_conflict_keeps_inv(h, xs, cs, next.0@, f, alpha, fx, info, x);
    }
}

} // verus!

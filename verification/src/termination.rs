//! Termination of LT-PDR on a lattice of finite height.
//!
//! Under the invariant, every step that does not answer lowers the measure
//! `(height + 2 - |KT|, sum of the ranks of the KT elements, |KT| - |Kleene|)` in the
//! lexicographic order, and every component of the new measure is a natural number.  So a run
//! answers after finitely many steps: Unfold lengthens the KT sequence, which stays shorter
//! than the height allows; Conflict strictly lowers a KT element; Candidate and Decide
//! lengthen the Kleene sequence, which stays no longer than the KT sequence.
use vstd::prelude::*;
use crate::lattice::FiniteHeight;
use crate::pdr::{closed, maps, refine_outcome, step_spec, valid_found, HeuristicsLaws, KTKl, Step};
use crate::soundness::{all_members, ascending, lemma_refine_witness, pdr_inv};

verus! {

/// The sum of the ranks of the elements of `xs`.
pub open spec fn rank_sum<T: FiniteHeight>(xs: Seq<T>) -> nat
    decreases xs.len(),
{
    if xs.len() == 0 {
        0
    } else {
        rank_sum(xs.drop_last()) + xs.last().rank()
    }
}

/// The measure of a state with KT sequence `xs` and Kleene sequence `cs`.
pub open spec fn pdr_measure<T: FiniteHeight>(xs: Seq<T>, cs: Seq<T>, alpha: T) -> (int, int, int) {
    (alpha.height() + 2 - xs.len(), rank_sum(xs) as int, xs.len() - cs.len())
}

/// `b` is below `a` in the lexicographic order, and every component of `b` is a natural number.
pub open spec fn measure_decreases(a: (int, int, int), b: (int, int, int)) -> bool {
    &&& 0 <= b.0
    &&& 0 <= b.1
    &&& 0 <= b.2
    &&& b.0 < a.0 || (b.0 == a.0 && (b.1 < a.1 || (b.1 == a.1 && b.2 < a.2)))
}

/// Along a KT sequence in which no element is above its successor, the ranks grow strictly.
proof fn lemma_rank_grows<T: FiniteHeight>(xs: Seq<T>, alpha: T, k: int)
    requires
        ascending(xs),
        all_members(xs, alpha),
        !valid_found(xs),
        0 <= k < xs.len(),
    ensures
        xs[k].rank() >= k,
    decreases k,
{
    if k > 0 {
        lemma_rank_grows(xs, alpha, k - 1);
        assert(xs[k - 1].le_spec(&xs[k]));
        assert(xs[k - 1].member_spec() && xs[k - 1].compat_spec(&alpha));
        assert(xs[k].member_spec() && xs[k].compat_spec(&alpha));
        T::lemma_compat(&xs[k], &alpha, &xs[k]);
        T::lemma_compat(&xs[k - 1], &alpha, &xs[k]);
        T::lemma_rank(&xs[k - 1], &xs[k]);
        if xs[k].rank() == xs[k - 1].rank() {
            assert(xs[(k - 1) + 1].le_spec(&xs[k - 1]));
            assert(valid_found(xs));
        }
    }
}

/// A KT sequence in which no element is above its successor is no longer than the height
/// of the lattice plus one.
proof fn lemma_kt_bounded<T: FiniteHeight, F: Fn(&T) -> T>(
    xs: Seq<T>,
    cs: Seq<T>,
    f: F,
    alpha: T,
)
    requires
        pdr_inv(xs, cs, f, alpha),
        !valid_found(xs),
    ensures
        xs.len() <= alpha.height() + 1,
{
    let m = xs.len() as int;
    lemma_rank_grows(xs, alpha, m - 1);
    T::lemma_rank_bounded(&xs[m - 1], &alpha);
}

/// Lowering the ranks pointwise, one of them strictly, lowers their sum.
proof fn lemma_rank_sum_lower<T: FiniteHeight>(xs: Seq<T>, nx: Seq<T>, j: int)
    requires
        nx.len() == xs.len(),
        forall|k: int| 0 <= k < xs.len() ==> #[trigger] nx[k].rank() <= xs[k].rank(),
        0 <= j < xs.len(),
        nx[j].rank() < xs[j].rank(),
    ensures
        rank_sum(nx) < rank_sum(xs),
    decreases xs.len(),
{
    let n = xs.len() - 1;
    if j == n {
        lemma_rank_sum_le(xs.drop_last(), nx.drop_last());
    } else {
        assert(nx.drop_last()[j] == nx[j] && xs.drop_last()[j] == xs[j]);
        lemma_rank_sum_lower(xs.drop_last(), nx.drop_last(), j);
        assert(nx[n].rank() <= xs[n].rank());
    }
}

/// Lowering the ranks pointwise lowers their sum or keeps it.
proof fn lemma_rank_sum_le<T: FiniteHeight>(xs: Seq<T>, nx: Seq<T>)
    requires
        nx.len() == xs.len(),
        forall|k: int| 0 <= k < xs.len() ==> #[trigger] nx[k].rank() <= xs[k].rank(),
    ensures
        rank_sum(nx) <= rank_sum(xs),
    decreases xs.len(),
{
    if xs.len() > 0 {
        let n = xs.len() - 1;
        assert forall|k: int| 0 <= k < n implies #[trigger] nx.drop_last()[k].rank()
            <= xs.drop_last()[k].rank() by {
            assert(nx[k].rank() <= xs[k].rank());
        }
        lemma_rank_sum_le(xs.drop_last(), nx.drop_last());
        assert(nx[n].rank() <= xs[n].rank());
    }
}

/// A Conflict step strictly lowers the sum of the ranks of the KT sequence: the KT element
/// of the candidate's index was above the candidate, and its meet with the lemma is not.
proof fn lemma_conflict_lowers_ranks<T: FiniteHeight, F: Fn(&T) -> T, H: HeuristicsLaws<T, F>>(
    h: H,
    xs: Seq<T>,
    cs: Seq<T>,
    nx: Seq<T>,
    f: F,
    alpha: T,
    fx: T,
    info: T::Info,
    x: T,
)
    requires
        pdr_inv(xs, cs, f, alpha),
        h.suits(f, &alpha),
        0 < cs.len() < xs.len(),
        maps(f, xs[xs.len() - cs.len() - 1], fx),
        !cs[cs.len() - 1].le_spec(&fx),
        h.conflict_spec(&xs[xs.len() - cs.len() - 1], &cs[cs.len() - 1], f, &info, &x),
        nx.len() == xs.len(),
        forall|k: int|
            0 <= k < xs.len() - cs.len() + 1 ==> #[trigger] xs[k].meet_spec(&x, &nx[k]),
        forall|k: int| xs.len() - cs.len() + 1 <= k < xs.len() ==> #[trigger] nx[k] == xs[k],
    ensures
        rank_sum(nx) < rank_sum(xs),
{
    let m = xs.len() as int;
    let l = cs.len() as int;
    let i = m - l + 1;
    let xi1 = xs[i - 2];
    let ci = cs[l - 1];
    h.lemma_conflict(f, &alpha, &xi1, &ci, &info, &fx, &x);
    T::lemma_compat(&x, &alpha, &x);
    assert forall|k: int| 0 <= k < xs.len() implies #[trigger] nx[k].rank() <= xs[k].rank() by {
        if k < i {
            assert(xs[k].meet_spec(&x, &nx[k]));
            assert(xs[k].member_spec() && xs[k].compat_spec(&alpha));
            T::lemma_compat(&xs[k], &alpha, &x);
            T::lemma_meet(&xs[k], &x, &nx[k], &nx[k]);
            T::lemma_compat(&nx[k], &xs[k], &xs[k]);
            T::lemma_rank(&nx[k], &xs[k]);
        } else {
            assert(nx[k] == xs[k]);
        }
    }
    let j = i - 1;
    assert(xs[j].meet_spec(&x, &nx[j]));
    assert(xs[j].member_spec() && xs[j].compat_spec(&alpha));
    T::lemma_compat(&xs[j], &alpha, &x);
    T::lemma_meet(&xs[j], &x, &nx[j], &nx[j]);
    T::lemma_compat(&nx[j], &xs[j], &xs[j]);
    T::lemma_rank(&nx[j], &xs[j]);
    if nx[j].rank() == xs[j].rank() {
        assert(ci.le_spec(&xs[m - 1 - (l - 1)]));
        T::lemma_le_transitive(&ci, &xs[j], &nx[j]);
        T::lemma_le_transitive(&ci, &nx[j], &x);
    }
    lemma_rank_sum_lower(xs, nx, j);
}

/// LT-PDR terminates on a lattice of finite height: under the invariant, every step that does
/// not answer lowers the measure of the state in the lexicographic order, and the new measure
/// has natural components.  This holds for a transformer that keeps to the lattice and
/// heuristics whose choices are admissible for it.
pub proof fn lemma_step_decreases_measure<T: FiniteHeight, F: Fn(&T) -> T, H: HeuristicsLaws<T, F>>(
    h: H,
    f: F,
    alpha: T,
    cur: KTKl<T>,
    r: Step<T>,
)
    requires
        pdr_inv(cur.0@, cur.1@, f, alpha),
        step_spec(h, f, alpha, cur, r),
        closed(f, &alpha),
        h.suits(f, &alpha),
    ensures
        r matches Step::Next(_, next) ==> measure_decreases(
            pdr_measure(cur.0@, cur.1@, alpha),
            pdr_measure(next.0@, next.1@, alpha),
        ),
{
    let xs = cur.0@;
    let cs = cur.1@;
    let m = xs.len();
    if valid_found(xs) || m == cs.len() {
    } else {
        lemma_kt_bounded(xs, cs, f, alpha);
        let next = r->Next_1;
        if xs[m - 1].le_spec(&alpha) {
        } else if cs.len() == 0 {
        } else {
            let (fx, info) = lemma_refine_witness(h, f, alpha, cur, r);
            lemma_refine_lowers_measure(h, f, alpha, cur, r, fx, info);
        }
    }
}

/// A Decide step lengthens the Kleene sequence and keeps the KT sequence; a Conflict step
/// keeps the length of the KT sequence and lowers the sum of its ranks.
proof fn lemma_refine_lowers_measure<T: FiniteHeight, F: Fn(&T) -> T, H: HeuristicsLaws<T, F>>(
    h: H,
    f: F,
    alpha: T,
    cur: KTKl<T>,
    r: Step<T>,
    fx: T,
    info: T::Info,
)
    requires
        pdr_inv(cur.0@, cur.1@, f, alpha),
        h.suits(f, &alpha),
        cur.0@.len() <= alpha.height() + 1,
        0 < cur.1@.len() < cur.0@.len(),
        maps(f, cur.0@[cur.0@.len() - cur.1@.len() - 1], fx),
        refine_outcome(h, f, cur, r, fx, info),
    ensures
        r matches Step::Next(_, next) ==> measure_decreases(
            pdr_measure(cur.0@, cur.1@, alpha),
            pdr_measure(next.0@, next.1@, alpha),
        ),
{
    let xs = cur.0@;
    let cs = cur.1@;
    let m = xs.len();
    let ci = cs.last();
    let i = m - cs.len() + 1;
    let xi1 = xs[i - 2];
    let next = r->Next_1;
    if !ci.le_spec(&fx) {
        let x = choose|x: T|
            {
                &&& #[trigger] h.conflict_spec(&xi1, &ci, f, &info, &x)
                &&& forall|k: int| 0 <= k < i ==> #[trigger] xs[k].meet_spec(&x, &next.0@[k])
                &&& forall|k: int| i <= k < m ==> #[trigger] next.0@[k] == xs[k]
            };
        lemma_conflict_lowers_ranks(h, xs, cs, next.0@, f, alpha, fx, info, x);
    }
}

} // verus!

//! The powerset lattice of the states of a transition system, with the heuristics and the
//! forward transformer that LT-PDR uses to check a safety property of the system.
use vstd::prelude::*;
use std::collections::HashSet;
use crate::lattice::{CLat, FiniteHeight, LatticeLaws};
use crate::pdr::{callable, closed, maps, monotone, Heuristics, HeuristicsLaws};
use vstd::std_specs::iter::IteratorSpec;
use crate::sets::{copy_of, difference, extend_with, intersection, is_disjoint, is_subset, singleton};

verus! {

broadcast use vstd::std_specs::hash::group_hash_axioms;

/// A set of states `subset`, drawn from the universe of states `all`.
#[derive(Debug)]
pub struct PS<'a> {
    pub all: &'a HashSet<u32>,
    pub subset: HashSet<u32>,
}

impl<'a> CLat for PS<'a> {
    type Info = ();

    open spec fn obeys_lattice_spec() -> bool {
        true
    }

    open spec fn le_spec(&self, rhs: &Self) -> bool {
        self.subset@.subset_of(rhs.subset@)
    }

    open spec fn compat_spec(&self, rhs: &Self) -> bool {
        self.all@ == rhs.all@
    }

    open spec fn member_spec(&self) -> bool {
        self.all@.finite() && self.subset@.subset_of(self.all@)
    }

    open spec fn bot_spec(&self, r: &Self) -> bool {
        r.all == self.all && r.subset@ == Set::<u32>::empty()
    }

    open spec fn top_spec(&self, r: &Self) -> bool {
        r.all == self.all && r.subset@ == self.all@
    }

    open spec fn meet_spec(&self, rhs: &Self, r: &Self) -> bool {
        r.all == self.all && r.subset@ == self.subset@.intersect(rhs.subset@)
    }

    open spec fn info_spec(&self, rhs: &Self, info: &()) -> bool {
        true
    }

    fn leq(&self, rhs: &Self) -> (r: (bool, ())) {
        (is_subset(&self.subset, &rhs.subset), ())
    }

    fn bot(&self) -> (r: Self) {
        PS { all: self.all, subset: HashSet::new() }
    }

    fn top(&self) -> (r: Self) {
        PS { all: self.all, subset: copy_of(self.all) }
    }

    fn meet(&self, rhs: &Self) -> (r: Self) {
        PS { all: self.all, subset: intersection(&self.subset, &rhs.subset) }
    }
}

impl<'a> LatticeLaws for PS<'a> {
    proof fn lemma_obeys() {
    }

    proof fn lemma_le_reflexive(a: &Self) {
    }

    proof fn lemma_le_transitive(a: &Self, b: &Self, c: &Self) {
    }

    proof fn lemma_compat(a: &Self, b: &Self, c: &Self) {
    }

    proof fn lemma_bot(a: &Self, r: &Self, y: &Self) {
    }

    proof fn lemma_top(a: &Self, r: &Self, y: &Self) {
    }

    proof fn lemma_meet(a: &Self, b: &Self, r: &Self, c: &Self) {
    }
}

/// A set of states is ranked by its size; the universe bounds the sizes.
impl<'a> FiniteHeight for PS<'a> {
    open spec fn rank(&self) -> nat {
        self.subset@.len()
    }

    open spec fn height(&self) -> nat {
        self.all@.len()
    }

    proof fn lemma_rank(a: &Self, b: &Self) {
        vstd::set_lib::lemma_len_subset(b.subset@, b.all@);
        vstd::set_lib::lemma_len_subset(a.subset@, b.subset@);
        if a.rank() == b.rank() {
            vstd::set_lib::lemma_subset_equality(a.subset@, b.subset@);
        }
    }

    proof fn lemma_rank_bounded(a: &Self, alpha: &Self) {
        vstd::set_lib::lemma_len_subset(a.subset@, alpha.all@);
    }
}

/// `p` is the singleton `{s}` over the universe `all`.
pub open spec fn is_single<'a>(p: PS<'a>, all: Set<u32>, s: u32) -> bool {
    p.all@ == all && p.subset@ == set![s]
}

/// Some image under `f` of the singleton `{s}` over `all` meets (when `meets` holds) or
/// misses (otherwise) the set `c`.
pub open spec fn single_image_meets<'a, F: Fn(&PS<'a>) -> PS<'a>>(
    f: F,
    all: Set<u32>,
    s: u32,
    c: Set<u32>,
    meets: bool,
) -> bool {
    exists|p: PS<'a>, rp: PS<'a>|
        #![trigger maps(f, p, rp)]
        is_single(p, all, s) && maps(f, p, rp) && rp.subset@.disjoint(c) != meets
}

/// Every state in an image of a set of states is in every image of every set of states (it
/// is an initial state), or in every image of one state of the set alone: `f` distributes
/// over unions.
pub open spec fn additive<'a, F: Fn(&PS<'a>) -> PS<'a>>(f: F, alpha: &PS<'a>) -> bool {
    forall|x: PS<'a>, r: PS<'a>, e: u32|
        #![trigger maps(f, x, r), r.subset@.contains(e)]
        x.member_spec() && x.compat_spec(alpha) && maps(f, x, r) && r.subset@.contains(e) ==> (
        forall|y: PS<'a>, ry: PS<'a>|
            #![trigger maps(f, y, ry)]
            y.member_spec() && y.compat_spec(alpha) && maps(f, y, ry) ==> ry.subset@.contains(e))
            || (exists|s: u32|
            #![trigger x.subset@.contains(s)]
            x.subset@.contains(s) && forall|p: PS<'a>, rp: PS<'a>|
                #![trigger maps(f, p, rp)]
                is_single(p, x.all@, s) && maps(f, p, rp) ==> rp.subset@.contains(e))
}

/// The heuristics of LT-PDR for safety of a transition system.
pub struct HeuristicsSts;

impl<'a, F: Fn(&PS<'a>) -> PS<'a>> Heuristics<PS<'a>, F> for HeuristicsSts {
    open spec fn obeys_heuristics_spec(&self) -> bool {
        true
    }

    /// The candidate holds the states of `xn1` that the property excludes.
    open spec fn candidate_spec(&self, xn1: &PS<'a>, alpha: &PS<'a>, info: &(), r: &PS<'a>) -> bool {
        r.all == xn1.all && r.subset@ == xn1.subset@.difference(alpha.subset@)
    }

    /// The decided set keeps the states of `xi1` from which `f` reaches the candidate `ci`.
    open spec fn decide_spec(
        &self,
        xi1: &PS<'a>,
        ci: &PS<'a>,
        f: F,
        info: &(),
        r: &PS<'a>,
    ) -> bool {
        &&& r.all == xi1.all
        &&& r.subset@.subset_of(xi1.subset@)
        &&& forall|s: u32|
            #![trigger xi1.subset@.contains(s)]
            xi1.subset@.contains(s) ==> single_image_meets(
                f,
                xi1.all@,
                s,
                ci.subset@,
                r.subset@.contains(s),
            )
    }

    /// The lemma holds every state but those of `ci` outside the image of `xi1`.
    open spec fn conflict_spec(
        &self,
        xi1: &PS<'a>,
        ci: &PS<'a>,
        f: F,
        info: &(),
        r: &PS<'a>,
    ) -> bool {
        exists|fx: PS<'a>|
            #[trigger] maps(f, *xi1, fx) && r.all == xi1.all && r.subset@ == xi1.all@.difference(
                ci.subset@.difference(fx.subset@),
            )
    }

    /// The transformer is monotone, keeps to the universe of states and distributes over
    /// unions.
    open spec fn suits(&self, f: F, alpha: &PS<'a>) -> bool {
        monotone(f, alpha) && closed(f, alpha) && additive(f, alpha)
    }

    fn f_candidate(&self, xn1: &PS<'a>, alpha: &PS<'a>, info: &()) -> (r: PS<'a>) {
        PS { all: xn1.all, subset: difference(&xn1.subset, &alpha.subset) }
    }

    fn f_decide(
        &self,
        xi1: &PS<'a>,
        ci: &PS<'a>,
        f: &F,
        info: &(),
    ) -> (r: PS<'a>) {
        let ghost keys = xi1.subset.iter().remaining().unref();
        let mut subset: HashSet<u32> = HashSet::new();
        for s in it: xi1.subset.iter()
            invariant
                it.seq().unref() == keys,
                keys.to_set() == xi1.subset@,
                callable(*f),
                subset@.subset_of(keys.take(it.index()).to_set()),
                forall|j: int|
                    0 <= j < it.index() ==> single_image_meets(
                        *f,
                        xi1.all@,
                        #[trigger] keys[j],
                        ci.subset@,
                        subset@.contains(keys[j]),
                    ),
        {
            let ghost i = it.index();
            proof {
                assert(keys.take(i + 1) == keys.take(i).push(keys[i]));
                keys.take(i).lemma_push_to_set_commute(keys[i]);
            }
            let p = PS { all: xi1.all, subset: singleton(*s) };
            let fp = f(&p);
            assert(maps(*f, p, fp));
            if !is_disjoint(&fp.subset, &ci.subset) {
                subset.insert(*s);
            }
            proof {
                assert forall|j: int| 0 <= j < i + 1 implies single_image_meets(
                    *f,
                    xi1.all@,
                    #[trigger] keys[j],
                    ci.subset@,
                    subset@.contains(keys[j]),
                ) by {
                    if j == i {
                        assert(is_single(p, xi1.all@, keys[j]));
                    } else {
                        assert(keys.no_duplicates());
                        assert(keys[j] != keys[i]);
                    }
                }
            }
        }
        proof {
            assert(keys.take(keys.len() as int) == keys);
        }
        PS { all: xi1.all, subset }
    }

    fn f_conflict(
        &self,
        xi1: &PS<'a>,
        ci: &PS<'a>,
        f: &F,
        info: &(),
    ) -> (r: PS<'a>) {
        let fxi1 = f(xi1);
        let ci_fxi1 = difference(&ci.subset, &fxi1.subset);
        let subset = difference(xi1.all, &ci_fxi1);
        let r = PS { all: xi1.all, subset };
        assert(maps(*f, *xi1, fxi1));
        r
    }

}

impl<'a, F: Fn(&PS<'a>) -> PS<'a>> HeuristicsLaws<PS<'a>, F> for HeuristicsSts {
    proof fn lemma_obeys(&self) {
    }

    proof fn lemma_candidate(&self, xn1: &PS<'a>, alpha: &PS<'a>, info: &(), r: &PS<'a>) {
        let e = choose|e: u32| xn1.subset@.contains(e) && !alpha.subset@.contains(e);
        assert(r.subset@.contains(e));
    }

    proof fn lemma_decide(
        &self,
        f: F,
        alpha: &PS<'a>,
        xi1: &PS<'a>,
        ci: &PS<'a>,
        info: &(),
        fx: &PS<'a>,
        r: &PS<'a>,
    ) {
        assert forall|fr: PS<'a>| #[trigger] maps(f, *r, fr) implies ci.le_spec(&fr) by {
            assert forall|c: u32| ci.subset@.contains(c) implies fr.subset@.contains(c) by {
                assert(fx.subset@.contains(c));
                if !(forall|y: PS<'a>, ry: PS<'a>|
                    #![trigger maps(f, y, ry)]
                    y.member_spec() && y.compat_spec(alpha) && maps(f, y, ry)
                        ==> ry.subset@.contains(c)) {
                    let s = choose|s: u32|
                        #![trigger xi1.subset@.contains(s)]
                        xi1.subset@.contains(s) && forall|p: PS<'a>, rp: PS<'a>|
                            #![trigger maps(f, p, rp)]
                            is_single(p, xi1.all@, s) && maps(f, p, rp) ==> rp.subset@.contains(c);
                    assert(single_image_meets(f, xi1.all@, s, ci.subset@, r.subset@.contains(s)));
                    let (p, rp) = choose|p: PS<'a>, rp: PS<'a>|
                        #![trigger maps(f, p, rp)]
                        is_single(p, xi1.all@, s) && maps(f, p, rp) && rp.subset@.disjoint(
                            ci.subset@,
                        ) != r.subset@.contains(s);
                    assert(rp.subset@.contains(c));
                    assert(r.subset@.contains(s));
                    assert(p.le_spec(r));
                    assert(rp.le_spec(&fr));
                }
            }
        }
    }

    proof fn lemma_conflict(
        &self,
        f: F,
        alpha: &PS<'a>,
        xi1: &PS<'a>,
        ci: &PS<'a>,
        info: &(),
        fx: &PS<'a>,
        r: &PS<'a>,
    ) {
        let fx0 = choose|fx0: PS<'a>|
            #[trigger] maps(f, *xi1, fx0) && r.all == xi1.all && r.subset@ == xi1.all@.difference(
                ci.subset@.difference(fx0.subset@),
            );
        assert forall|y: PS<'a>, fy: PS<'a>|
            #![trigger maps(f, y, fy), y.le_spec(r)]
            y.member_spec() && y.compat_spec(alpha) && y.le_spec(xi1) && y.le_spec(r) && maps(
                f,
                y,
                fy,
            ) implies fy.le_spec(r) by {
            assert(fy.le_spec(&fx0));
        }
        // `fx` and `fx0` are images of the same set, so they hold the same states.
        PS::lemma_le_reflexive(xi1);
        assert(fx0.le_spec(fx));
        let c = choose|c: u32| ci.subset@.contains(c) && !fx.subset@.contains(c);
        assert(!fx0.subset@.contains(c));
        assert(!r.subset@.contains(c));
    }
}

/// The candidate that Candidate chooses holds exactly the states of the last KT element that
/// the bound excludes.
pub proof fn lemma_candidate_is_excluded_part<'a, F: Fn(&PS<'a>) -> PS<'a>>(
    xn1: PS<'a>,
    alpha: PS<'a>,
    r: PS<'a>,
)
    requires
        <HeuristicsSts as Heuristics<PS<'a>, F>>::candidate_spec(&HeuristicsSts, &xn1, &alpha, &(), &r),
    ensures
        r.all == xn1.all,
        forall|s: u32|
            r.subset@.contains(s) <==> (xn1.subset@.contains(s) && !alpha.subset@.contains(s)),
{
}

/// The operations of the powerset lattice are those of sets: the order is inclusion, the
/// bottom is the empty set, the top is the universe, and the meet is the intersection, each
/// over the universe of its arguments.
pub proof fn lemma_ps_operations_are_set_operations<'a>(a: PS<'a>, b: PS<'a>, r: PS<'a>)
    ensures
        a.le_spec(&b) <==> (forall|s: u32| a.subset@.contains(s) ==> b.subset@.contains(s)),
        a.bot_spec(&r) <==> (r.all == a.all && forall|s: u32| !r.subset@.contains(s)),
        a.top_spec(&r) <==> (r.all == a.all && forall|s: u32|
            r.subset@.contains(s) <==> a.all@.contains(s)),
        a.meet_spec(&b, &r) <==> (r.all == a.all && forall|s: u32|
            r.subset@.contains(s) <==> (a.subset@.contains(s) && b.subset@.contains(s))),
{
    if r.all == a.all && forall|s: u32| !r.subset@.contains(s) {
        assert(r.subset@ =~= Set::<u32>::empty());
    }
    if r.all == a.all && forall|s: u32| r.subset@.contains(s) <==> a.all@.contains(s) {
        assert(r.subset@ =~= a.all@);
    }
    if r.all == a.all && forall|s: u32|
        r.subset@.contains(s) <==> (a.subset@.contains(s) && b.subset@.contains(s)) {
        assert(r.subset@ =~= a.subset@.intersect(b.subset@));
    }
}

/// The lemma that Conflict chooses keeps every state of the universe outside the candidate,
/// and keeps a state of the candidate exactly when the image of `xi1` holds it: it removes
/// the states of the candidate that the image of `xi1` misses, and nothing else.  This holds
/// for every image `fx` of `xi1` under a transformer that suits the heuristics.
pub proof fn lemma_conflict_keeps_all_but_unreached<'a, F: Fn(&PS<'a>) -> PS<'a>>(
    f: F,
    alpha: PS<'a>,
    xi1: PS<'a>,
    ci: PS<'a>,
    fx: PS<'a>,
    r: PS<'a>,
)
    requires
        <HeuristicsSts as Heuristics<PS<'a>, F>>::conflict_spec(&HeuristicsSts, &xi1, &ci, f, &(), &r),
        <HeuristicsSts as Heuristics<PS<'a>, F>>::suits(&HeuristicsSts, f, &alpha),
        xi1.member_spec(),
        xi1.compat_spec(&alpha),
        maps(f, xi1, fx),
    ensures
        r.all == xi1.all,
        r.subset@.subset_of(xi1.all@),
        forall|s: u32| xi1.all@.contains(s) && !ci.subset@.contains(s) ==> r.subset@.contains(s),
        forall|s: u32|
            ci.subset@.contains(s) ==> (r.subset@.contains(s) <==> fx.subset@.contains(s)),
{
    let fx0 = choose|fx0: PS<'a>|
        #[trigger] maps(f, xi1, fx0) && r.all == xi1.all && r.subset@ == xi1.all@.difference(
            ci.subset@.difference(fx0.subset@),
        );
    PS::lemma_le_reflexive(&xi1);
    assert(fx0.le_spec(&fx));
    assert(fx.le_spec(&fx0));
    assert(fx.member_spec());
    assert forall|s: u32|
        ci.subset@.contains(s) implies (r.subset@.contains(s) <==> fx.subset@.contains(s)) by {
        if fx.subset@.contains(s) {
            assert(fx0.subset@.contains(s));
            assert(xi1.all@.contains(s));
        }
    }
}

/// Decide keeps a state `s` of `xi1` exactly when the image of the singleton `{s}` meets the
/// candidate `ci`, and keeps no state outside `xi1`.  This holds for every image `rp` of
/// `{s}` under a transformer that suits the heuristics.
pub proof fn lemma_decide_keeps_states_reaching_candidate<'a, F: Fn(&PS<'a>) -> PS<'a>>(
    f: F,
    alpha: PS<'a>,
    xi1: PS<'a>,
    ci: PS<'a>,
    r: PS<'a>,
    s: u32,
    p: PS<'a>,
    rp: PS<'a>,
)
    requires
        <HeuristicsSts as Heuristics<PS<'a>, F>>::decide_spec(&HeuristicsSts, &xi1, &ci, f, &(), &r),
        <HeuristicsSts as Heuristics<PS<'a>, F>>::suits(&HeuristicsSts, f, &alpha),
        xi1.member_spec(),
        xi1.compat_spec(&alpha),
        xi1.subset@.contains(s),
        is_single(p, xi1.all@, s),
        maps(f, p, rp),
    ensures
        r.all == xi1.all,
        r.subset@.subset_of(xi1.subset@),
        r.subset@.contains(s) <==> !rp.subset@.disjoint(ci.subset@),
{
    assert(single_image_meets(f, xi1.all@, s, ci.subset@, r.subset@.contains(s)));
    let (p0, rp0) = choose|p0: PS<'a>, rp0: PS<'a>|
        #![trigger maps(f, p0, rp0)]
        is_single(p0, xi1.all@, s) && maps(f, p0, rp0) && rp0.subset@.disjoint(ci.subset@)
            != r.subset@.contains(s);
    assert(p.member_spec() && p.compat_spec(&alpha));
    assert(p0.member_spec() && p0.compat_spec(&alpha));
    assert(p.le_spec(&p0) && p0.le_spec(&p));
    assert(rp.le_spec(&rp0) && rp0.le_spec(&rp));
    assert(rp.subset@ == rp0.subset@);
}

/// `r` is the image of `x` under the forward transformer of the transition system with
/// initial states `init` and successor function `delta`: `r` holds the initial states and the
/// successors of the states of `x`, and nothing else.
pub open spec fn forward_image<'a, D: Fn(&u32) -> HashSet<u32>>(
    init: Set<u32>,
    delta: D,
    x: PS<'a>,
    r: PS<'a>,
) -> bool {
    &&& r.all == x.all
    &&& init.subset_of(r.subset@)
    &&& forall|e: u32|
        #[trigger] r.subset@.contains(e) ==> init.contains(e) || exists|s: u32, d: HashSet<u32>|
            #![trigger call_ensures(delta, (&s,), d), d@.contains(e)]
            x.subset@.contains(s) && call_ensures(delta, (&s,), d) && d@.contains(e)
    &&& forall|s: u32|
        #[trigger] x.subset@.contains(s) ==> exists|d: HashSet<u32>|
            #[trigger] call_ensures(delta, (&s,), d) && d@.subset_of(r.subset@)
}

/// The forward transformer of the transition system with initial states `init` and
/// successor function `delta`: it maps a set of states to the initial states together with
/// the successors of the given states.
pub fn forward_ps<'a, D: Fn(&u32) -> HashSet<u32>>(init: &'a HashSet<u32>, delta: &'a D) -> (f: impl Fn(
    &PS<'a>,
) -> PS<'a> + 'a)
    requires
        forall|s: &u32| call_requires(*delta, (s,)),
    ensures
        callable(f),
        forall|x: PS<'a>, r: PS<'a>| #[trigger] maps(f, x, r) ==> forward_image(init@, *delta, x, r),
{
    move |ps: &PS<'a>| -> (r: PS<'a>)
        ensures
            forward_image(init@, *delta, *ps, r),
        {
            let ghost keys = ps.subset.iter().remaining().unref();
            let ghost mut images: Seq<HashSet<u32>> = Seq::empty();
            let mut subset = copy_of(init);
            for s in it: ps.subset.iter()
                invariant
                    it.seq().unref() == keys,
                    keys.to_set() == ps.subset@,
                    forall|s: &u32| call_requires(*delta, (s,)),
                    images.len() == it.index(),
                    forall|j: int|
                        0 <= j < it.index() ==> call_ensures(*delta, (&keys[j],), #[trigger] images[j])
                            && images[j]@.subset_of(subset@),
                    init@.subset_of(subset@),
                    forall|e: u32|
                        #[trigger] subset@.contains(e) ==> init@.contains(e) || exists|j: int|
                            0 <= j < it.index() && #[trigger] images[j]@.contains(e),
            {
                let ghost before = subset@;
                let d = delta(s);
                extend_with(&mut subset, &d);
                proof {
                    let old_images = images;
                    images = images.push(d);
                    assert forall|e: u32| #[trigger] subset@.contains(e) implies init@.contains(e)
                        || exists|j: int| 0 <= j < images.len() && #[trigger] images[j]@.contains(e) by {
                        if !before.contains(e) {
                            assert(images[images.len() - 1]@.contains(e));
                        } else if !init@.contains(e) {
                            let j = choose|j: int|
                                0 <= j < old_images.len() && #[trigger] old_images[j]@.contains(e);
                            assert(images[j] == old_images[j]);
                        }
                    }
                }
            }
            let r = PS { all: ps.all, subset };
            proof {
                assert forall|s: u32| #[trigger] ps.subset@.contains(s) implies exists|d: HashSet<u32>|
                    #[trigger] call_ensures(*delta, (&s,), d) && d@.subset_of(r.subset@) by {
                    assert(keys.contains(s));
                    let j = choose|j: int| 0 <= j < keys.len() && keys[j] == s;
                    assert(call_ensures(*delta, (&keys[j],), images[j]));
                }
                assert forall|e: u32| #[trigger] r.subset@.contains(e) implies init@.contains(e)
                    || exists|s: u32, d: HashSet<u32>|
                    #![trigger call_ensures(*delta, (&s,), d), d@.contains(e)]
                    ps.subset@.contains(s) && call_ensures(*delta, (&s,), d) && d@.contains(e) by {
                    if !init@.contains(e) {
                        let j = choose|j: int| 0 <= j < keys.len() && #[trigger] images[j]@.contains(e);
                        assert(ps.subset@.contains(keys[j]));
                        assert(call_ensures(*delta, (&keys[j],), images[j]));
                    }
                }
            }
            r
        }
}

/// `delta` gives the same successors whenever it is applied to the same state.
pub open spec fn deterministic<D: Fn(&u32) -> HashSet<u32>>(delta: D) -> bool {
    forall|s: u32, d1: HashSet<u32>, d2: HashSet<u32>|
        #![trigger call_ensures(delta, (&s,), d1), call_ensures(delta, (&s,), d2)]
        call_ensures(delta, (&s,), d1) && call_ensures(delta, (&s,), d2) ==> d1@ == d2@
}

/// The initial states, and every successor that `delta` gives of a state of the universe
/// `all`, lie in `all`.
pub open spec fn within<D: Fn(&u32) -> HashSet<u32>>(init: Set<u32>, delta: D, all: Set<u32>) -> bool {
    &&& init.subset_of(all)
    &&& forall|s: u32, d: HashSet<u32>|
        all.contains(s) && #[trigger] call_ensures(delta, (&s,), d) ==> d@.subset_of(all)
}

/// The forward transformer of a transition system whose successor function is a function of
/// the state, and whose states lie in the universe of the bound, suits the heuristics of
/// `heuristics_sts`: it is monotone, keeps to the universe and distributes over unions.
pub proof fn lemma_forward_suits_heuristics<'a, D: Fn(&u32) -> HashSet<u32>, F: Fn(&PS<'a>) -> PS<'a>>(
    f: F,
    init: Set<u32>,
    delta: D,
    alpha: PS<'a>,
)
    requires
        forall|x: PS<'a>, r: PS<'a>| #[trigger] maps(f, x, r) ==> forward_image(init, delta, x, r),
        deterministic(delta),
        within(init, delta, alpha.all@),
    ensures
        <HeuristicsSts as Heuristics<PS<'a>, F>>::suits(&HeuristicsSts, f, &alpha),
{
    assert forall|a: PS<'a>, b: PS<'a>, ra: PS<'a>, rb: PS<'a>|
        #![trigger maps(f, a, ra), maps(f, b, rb)]
        a.member_spec() && b.member_spec() && a.compat_spec(&alpha) && b.compat_spec(&alpha)
            && a.le_spec(&b) && maps(f, a, ra) && maps(f, b, rb) implies ra.le_spec(&rb) by {
        assert forall|e: u32| ra.subset@.contains(e) implies rb.subset@.contains(e) by {
            if !init.contains(e) {
                let (s, d) = choose|s: u32, d: HashSet<u32>|
                    #![trigger call_ensures(delta, (&s,), d), d@.contains(e)]
                    a.subset@.contains(s) && call_ensures(delta, (&s,), d) && d@.contains(e);
                assert(b.subset@.contains(s));
                let d2 = choose|d2: HashSet<u32>|
                    #[trigger] call_ensures(delta, (&s,), d2) && d2@.subset_of(rb.subset@);
            }
        }
    }
    assert forall|a: PS<'a>, r: PS<'a>|
        #![trigger maps(f, a, r)]
        a.member_spec() && a.compat_spec(&alpha) && maps(f, a, r) implies r.member_spec()
            && r.compat_spec(&alpha) by {
        assert forall|e: u32| r.subset@.contains(e) implies r.all@.contains(e) by {
            if !init.contains(e) {
                let (s, d) = choose|s: u32, d: HashSet<u32>|
                    #![trigger call_ensures(delta, (&s,), d), d@.contains(e)]
                    a.subset@.contains(s) && call_ensures(delta, (&s,), d) && d@.contains(e);
            }
        }
    }
    assert forall|x: PS<'a>, r: PS<'a>, e: u32|
        #![trigger maps(f, x, r), r.subset@.contains(e)]
        x.member_spec() && x.compat_spec(&alpha) && maps(f, x, r) && r.subset@.contains(e) implies (
        forall|y: PS<'a>, ry: PS<'a>|
            #![trigger maps(f, y, ry)]
            y.member_spec() && y.compat_spec(&alpha) && maps(f, y, ry) ==> ry.subset@.contains(e))
            || (exists|s: u32|
            #![trigger x.subset@.contains(s)]
            x.subset@.contains(s) && forall|p: PS<'a>, rp: PS<'a>|
                #![trigger maps(f, p, rp)]
                is_single(p, x.all@, s) && maps(f, p, rp) ==> rp.subset@.contains(e)) by {
        if !init.contains(e) {
            let (s, d) = choose|s: u32, d: HashSet<u32>|
                #![trigger call_ensures(delta, (&s,), d), d@.contains(e)]
                x.subset@.contains(s) && call_ensures(delta, (&s,), d) && d@.contains(e);
            assert forall|p: PS<'a>, rp: PS<'a>|
                #![trigger maps(f, p, rp)]
                is_single(p, x.all@, s) && maps(f, p, rp) implies rp.subset@.contains(e) by {
                assert(p.subset@.contains(s));
                let d2 = choose|d2: HashSet<u32>|
                    #[trigger] call_ensures(delta, (&s,), d2) && d2@.subset_of(rp.subset@);
            }
        }
    }
}

/// The heuristics of LT-PDR for safety of a transition system.
pub fn heuristics_sts() -> (h: HeuristicsSts)
    ensures
        h == HeuristicsSts,
{
    HeuristicsSts
}

} // verus!

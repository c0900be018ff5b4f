use vstd::prelude::*;

verus! {

/// A complete lattice, as LT-PDR sees it.
///
/// Every value belongs to one lattice, its carrier; `compat_spec` says that two values
/// belong to the same one, and `member_spec` that a value is a well-formed element of
/// its carrier.  The exact meaning of each operation is given by the implementing type
/// through the spec functions below, and `LatticeLaws` holds the laws that it proves about
/// them.  The operations follow the spec functions only for a type that `obeys_lattice_spec`:
/// an implementation outside verification leaves it, and the other spec functions, at
/// their defaults, and nothing is then stated of its operations.
pub trait CLat: Sized {
    /// What a comparison hands on to the heuristics besides its verdict.
    type Info;

    /// The operations of this type follow the spec functions below.
    open spec fn obeys_lattice_spec() -> bool {
        false
    }

    /// The order of the lattice.
    open spec fn le_spec(&self, rhs: &Self) -> bool {
        false
    }

    /// `self` and `rhs` are elements of the same lattice.
    open spec fn compat_spec(&self, rhs: &Self) -> bool {
        true
    }

    /// `self` is a well-formed element of its lattice.
    open spec fn member_spec(&self) -> bool {
        false
    }

    /// `r` is the least element of the lattice of `self`.
    open spec fn bot_spec(&self, r: &Self) -> bool {
        false
    }

    /// `r` is the greatest element of the lattice of `self`.
    open spec fn top_spec(&self, r: &Self) -> bool {
        false
    }

    /// `r` is the meet of `self` and `rhs`.
    open spec fn meet_spec(&self, rhs: &Self, r: &Self) -> bool {
        false
    }

    /// `info` is what comparing `self` with `rhs` reports.
    open spec fn info_spec(&self, rhs: &Self, info: &Self::Info) -> bool {
        false
    }

    /// Compares `self` with `rhs`: the verdict is whether `self` is below `rhs`.
    fn leq(&self, rhs: &Self) -> (r: (bool, Self::Info))
        ensures
            Self::obeys_lattice_spec() ==> r.0 == self.le_spec(rhs) && self.info_spec(rhs, &r.1),
    ;

    /// The least element of the lattice of `self`.
    fn bot(&self) -> (r: Self)
        ensures
            Self::obeys_lattice_spec() ==> self.bot_spec(&r),
    ;

    /// The greatest element of the lattice of `self`.
    fn top(&self) -> (r: Self)
        ensures
            Self::obeys_lattice_spec() ==> self.top_spec(&r),
    ;

    /// The meet of `self` and `rhs`.
    fn meet(&self, rhs: &Self) -> (r: Self)
        ensures
            Self::obeys_lattice_spec() ==> self.meet_spec(rhs, &r),
    ;
}

/// The lattice laws of a `CLat` implementation, proved about its spec functions.
pub trait LatticeLaws: CLat {
    /// The operations follow the spec functions.
    proof fn lemma_obeys()
        ensures
            Self::obeys_lattice_spec(),
    ;

    /// The order is reflexive on well-formed elements.
    proof fn lemma_le_reflexive(a: &Self)
        requires
            a.member_spec(),
        ensures
            a.le_spec(a),
    ;

    /// The order is transitive.
    proof fn lemma_le_transitive(a: &Self, b: &Self, c: &Self)
        requires
            a.le_spec(b),
            b.le_spec(c),
        ensures
            a.le_spec(c),
    ;

    /// Belonging to the same lattice is an equivalence.
    proof fn lemma_compat(a: &Self, b: &Self, c: &Self)
        ensures
            a.compat_spec(a),
            a.compat_spec(b) ==> b.compat_spec(a),
            a.compat_spec(b) && b.compat_spec(c) ==> a.compat_spec(c),
    ;

    /// The bottom is a well-formed element below every element of its lattice.
    proof fn lemma_bot(a: &Self, r: &Self, y: &Self)
        requires
            a.bot_spec(r),
            a.member_spec(),
        ensures
            r.member_spec(),
            r.compat_spec(a),
            y.compat_spec(a) ==> r.le_spec(y),
    ;

    /// The top is a well-formed element above every well-formed element of its lattice.
    proof fn lemma_top(a: &Self, r: &Self, y: &Self)
        requires
            a.top_spec(r),
            a.member_spec(),
        ensures
            r.member_spec(),
            r.compat_spec(a),
            y.member_spec() && y.compat_spec(a) ==> y.le_spec(r),
    ;

    /// The meet is the greatest lower bound.
    proof fn lemma_meet(a: &Self, b: &Self, r: &Self, c: &Self)
        requires
            a.meet_spec(b, r),
        ensures
            r.le_spec(a),
            r.le_spec(b),
            c.le_spec(a) && c.le_spec(b) ==> c.le_spec(r),
            a.member_spec() && b.member_spec() && a.compat_spec(b) ==> r.member_spec()
                && r.compat_spec(a),
    ;
}

/// A lattice of finite height: `rank` grows strictly along strictly ascending chains and
/// stays below the `height` of the lattice.
pub trait FiniteHeight: LatticeLaws {
    /// The rank of an element.
    spec fn rank(&self) -> nat;

    /// A bound on the ranks in the lattice of `self`.
    spec fn height(&self) -> nat;

    /// Going up does not lower the rank, and going strictly up raises it.
    proof fn lemma_rank(a: &Self, b: &Self)
        requires
            a.member_spec(),
            b.member_spec(),
            a.compat_spec(b),
            a.le_spec(b),
        ensures
            a.rank() <= b.rank(),
            a.rank() == b.rank() ==> b.le_spec(a),
    ;

    /// Every rank in a lattice is below its height.
    proof fn lemma_rank_bounded(a: &Self, alpha: &Self)
        requires
            alpha.member_spec(),
            a.member_spec(),
            a.compat_spec(alpha),
        ensures
            a.rank() <= alpha.height(),
    ;
}

} // verus!

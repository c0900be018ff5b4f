# ltpdr

Lattice-theoretic property directed reachability (LT-PDR), verified with Verus.

Given a monotone function `f` on a complete lattice and a bound `alpha`, LT-PDR asks whether
the least fixed point of `f` lies below `alpha`. Each answer is sound: `Valid` comes with a
KT sequence that contains an inductive invariant below the bound, and `InValid` with a Kleene
sequence that leads from the image of the bottom to outside the bound. On a lattice of finite
height, such as the sets of states of a finite transition system, every run answers: each
step that does not answer lowers a well-founded measure of the state. On a transition system
with the forward transformer, `Valid` is answered exactly when every reachable state lies in
the bound (`check_safety`).

Layout:

- `src/lattice.rs`: the `CLat` trait of complete lattices, its laws (`LatticeLaws`) and
  lattices of finite height (`FiniteHeight`).
- `src/pdr.rs`: the answers, the `Heuristics` trait and its laws, and one step of the
  algorithm (`lt_pdr_init`, `lt_pdr_step`) with its exact effect (`step_spec`).
- `src/run.rs`: a whole run (`lt_pdr`) on a lattice of finite height, proved to end; its
  answer is tied to the sequence of states that the steps produce (`is_run`).
- `src/soundness.rs`: the invariant of LT-PDR; the first state establishes it, every step
  keeps it, and the answers are sound.
- `src/termination.rs`: the measure that every step lowers on a lattice of finite height.
- `src/instances/simple_trans.rs`: the powerset lattice of the states of a transition
  system, the forward transformer `forward_ps` and the heuristics `heuristics_sts`, with the
  proof that they fit each other.
- `src/instances/reachability.rs`: the answers on a transition system, stated in terms of
  its reachable states, and `check_safety`, which runs LT-PDR on one.
- `app/`: the program that runs the steps one after the other and prints them, on a Markov
  decision process over floating-point probabilities. Its lattice and heuristics are
  implemented outside verification: they do not declare that they follow the spec functions
  of `CLat` and `Heuristics`, so nothing proved in `src/` is claimed of that run.

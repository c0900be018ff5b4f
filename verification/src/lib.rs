pub mod instances;
pub mod lattice;
pub mod pdr;
pub mod run;
mod sets;
pub mod soundness;
pub mod termination;

pub use crate::lattice::{CLat, FiniteHeight, LatticeLaws};
pub use crate::run::lt_pdr;
pub use crate::pdr::{
    check_valid, lt_pdr_init, lt_pdr_step, Heuristics, HeuristicsLaws, KTKl, Options, PDRAnswer, Rule, Step,
    Verbosity,
};

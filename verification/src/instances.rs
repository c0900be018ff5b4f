pub mod reachability;
pub mod simple_trans;

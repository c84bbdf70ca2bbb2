//! The bench harness: which loads to run, what their rows say, and how two
//! result files compare.
pub mod compare;
pub mod load;
pub mod plan;
pub mod results;
pub mod sorting;

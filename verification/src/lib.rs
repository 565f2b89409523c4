//! Causal-State Splitting Reconstruction: inference of the causal states of a
//! discrete-valued process from one observed symbol sequence.
//!
//! Everything here works on exact integers. A next-symbol distribution is kept as
//! tallies over a total, and the reconstruction is a resumable machine that stops
//! whenever two distributions have to be compared by a chi-square test, which is
//! floating-point work left to the caller.

pub mod alphabet;
pub mod coverage;
pub mod cssr;
pub mod estimator;
pub mod generations;
pub mod model;
pub mod ngram;
pub mod partition;
pub mod similarity;
pub mod state;

pub use cssr::{Step, CSSR};
pub use estimator::{compute_next_symbol_dist, Distribution, History};
pub use model::Phase;
pub use ngram::get_n_gram_id;
pub use similarity::{compare_supports, Comparison};
pub use state::CausalState;

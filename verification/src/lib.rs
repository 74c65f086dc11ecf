//! Fitting a smoothly broken power law to light curves in several bands at once.

pub mod arith;
pub mod bands;
pub mod cost;
pub mod cost_laws;
pub mod data_laws;
pub mod fit;
pub mod fit_laws;
pub mod gather_laws;
pub mod laws;
pub mod model;
pub mod model_laws;
pub mod move_laws;
pub mod observe;
pub mod reals;
pub mod refine;
pub mod refine_laws;
pub mod report_laws;
pub mod result;
pub mod rng;
pub mod rounding;
pub mod swarm;
pub mod unit_laws;
pub mod word;
pub mod word_laws;

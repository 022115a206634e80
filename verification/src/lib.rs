//! A two-class Naive Bayes text classifier over integer token identifiers,
//! with Laplace-smoothed likelihoods, exact rational scoring and k-fold
//! cross-validation.
//!
//! Every probability is kept as an exact ratio of integers, so the contracts
//! speak of the mathematical quantities themselves and no rounding enters a
//! decision.

pub mod bignat;
pub mod classify;
pub mod corpus;
pub mod model;
pub mod source;
pub mod validate;

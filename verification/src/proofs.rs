//! The proofs that the laws of the codec rest on.

pub mod canonical_form;
pub mod completeness;
pub mod paths;
pub mod soundness;
pub mod unfolding;

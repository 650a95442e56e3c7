//! A verified baby-step/giant-step discrete-logarithm recovery engine.
//!
//! The library recovers a secret scalar ("the trapdoor") of a weak trusted
//! setup from public group elements that are exponentiations of that secret
//! by known small factors.  The search is split into a known high segment
//! and two square-root-sized unknown segments, a lookup table of baby steps
//! is filled in parallel, and a sequential giant-step walk probes it.
//!
//! Group elements are values of a cyclic subgroup of the multiplicative
//! group of integers modulo a prime, so that every step of the algebra is
//! stated and proved over plain modular arithmetic.

pub mod arith;
pub mod decomposer;
pub mod table;
pub mod searcher;
pub mod solver;

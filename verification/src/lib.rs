//! A Horn-clause resolution engine for trait satisfiability questions, with
//! the coherence layer (specialization priorities and the orphan check) that
//! is built on top of it.
pub mod formula;
pub mod infer;
pub mod render;
pub mod environment;
pub mod forest;
pub mod solve;
pub mod coherence;
pub mod laws;
pub mod unify_laws;
pub mod soundness;
pub mod universes;
pub mod conjunction;

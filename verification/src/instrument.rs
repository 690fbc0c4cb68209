//! The promotion protocol: artifacts carry sealed evidence graphs, a
//! policy says which evidence is required, and `evaluate::evaluate_transition`
//! decides whether a candidate replaces its parent. The verification gate
//! (`predicate`, `gate`) and the evidence contract (`coverage`,
//! `evidence_contract`) record what the test suites established.
pub mod artifact;
pub mod event;
pub mod policy;
pub mod evaluate;
pub mod predicate;
pub mod gate;
pub mod coverage;
pub mod evidence;
pub mod evidence_contract;

//! Recursive compute schedules, validated before any code is generated for them.
//!
//! [`validator::validate`] certifies a schedule or says what is wrong with it,
//! and [`cuda_codegen::generate`] turns one into source. What certification
//! promises of the schedule as a whole is stated and proved in `safety`,
//! `reports`, `generation`, `script` and `encoding`. What the results mean, in
//! terms of the tensors and waits that nodes list and of the text that is
//! written, is stated and proved in `hazards`, `contents`, `readback`, `calls`
//! and `layout`.
pub mod adversarial;
pub mod calls;
pub mod contents;
pub mod cuda_codegen;
pub mod driver;
pub mod encoding;
pub mod fingerprint;
pub mod generation;
pub mod graph;
pub mod hazards;
pub mod interface;
pub mod ir;
pub mod layout;
pub mod order;
pub mod readback;
pub mod reports;
pub mod rules;
pub mod safety;
pub mod script;
pub mod search;
pub mod spots;
pub mod text;
pub mod validator;

//! The finite-decision profile: the lowered plan's shape, the checks on its
//! helper functions, the runtime's fault vocabulary, and the evaluation a
//! deliberation performs before its frontier.
pub mod plan;
pub mod cycles;
pub mod runtime;
pub mod deliberation;
pub mod models;
pub mod lowering_spec;
pub mod lowering;

//! Planning of stacked-branch rebases: the pure logic behind the `trail` tool.

pub mod answers;
pub mod branch_set;
pub mod changes;
pub mod command;
pub mod error;
pub mod history;
pub mod ids;
pub mod impact;
pub mod plan;
pub mod plan_proofs;
pub mod text;
pub mod trailers;
pub mod with;

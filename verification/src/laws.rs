//! What holds of the readbacks as a whole.

pub mod agreement;
pub mod bindings;
pub mod faithfulness;
pub mod inlining;
pub mod labels;
pub mod linear_steps;
pub mod linear_validity;
pub mod naming;
pub mod non_linear_steps;
pub mod operations;
pub mod outline;
pub mod readability;
pub mod records;
pub mod refreshing;
pub mod renaming;
pub mod scopes;
pub mod shape;
pub mod single_use;
pub mod substitution;
pub mod termination;
pub mod terms;
pub mod uniqueness;
pub mod validity;
pub mod variables;

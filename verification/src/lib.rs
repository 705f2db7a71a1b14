pub mod cmd;
pub mod error;
pub mod git;
pub mod hooks;
pub mod inventory;
pub mod mirror;
pub mod model;
pub mod order;
pub mod plan;
pub mod profile;
pub mod prompt;
pub mod publish;
pub mod removal;
pub mod rewrite;
pub mod select;
pub mod size;
pub mod stats;
pub mod strset;
pub mod term;
pub mod text;

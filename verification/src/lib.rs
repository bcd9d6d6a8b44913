//! `uvxy` finds the command in a `uvx` command line and supplies `--from`.
pub mod cli;
pub mod config;
pub mod flags;
pub mod rewrite;
pub mod sorted;
pub mod text;
pub mod uvbin;

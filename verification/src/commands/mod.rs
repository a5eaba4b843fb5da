//! The decisions of the subcommands, apart from their input and output.
pub mod config;
pub mod keys;
pub mod run;

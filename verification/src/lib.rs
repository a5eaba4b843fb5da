//! The decisions of a batch image compressor built on the TinyPNG service:
//! which files to compress, with which API key, what each reply of the
//! service means, where results go and what is reported, each stated as a
//! contract and proved.

pub mod text;
pub mod cli;
pub mod error;
pub mod config;
pub mod size;
pub mod scan;
pub mod compress;
pub mod runner;
pub mod commands;
pub mod output;
pub mod keys;

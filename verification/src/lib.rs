//! Verified core of a code-snippet runner: support levels, source ranges and
//! their squashing, the decisions taken while walking up syntax-tree
//! dependencies, and the text processing that turns an editor selection into a
//! program for the Rust and Python 3 interpreters.
#![allow(non_camel_case_types)]

pub mod level;
pub mod error;
pub mod interpreter;
pub mod foreign;
pub mod text;
pub mod data;
pub mod treesitter_utils;
pub mod interpreters;

pub use data::DataHolder;

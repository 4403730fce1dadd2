//! The `tp` coding-agent library: prompt assembly, the coding tools' text
//! logic and the one-shot run's decisions, with their contracts.

use vstd::prelude::*;

pub mod cli;
pub mod path;
pub mod prompt;
pub mod run;
pub mod text;
pub mod tools;

pub use cli::Cli;

verus! {

} // verus!

use vstd::prelude::*;

pub mod text;
pub mod sorting;
pub mod config;
pub mod error;
pub mod skip;
pub mod state;
pub mod utils;
pub mod sync;
pub mod track;
pub mod cli;
pub mod size;
pub mod config_laws;
pub mod command_laws;

verus! {
}

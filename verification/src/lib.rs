use vstd::prelude::*;

pub mod text;
pub mod calendar;
pub mod regex;
pub mod pattern;
pub mod strings;
pub mod models;
pub mod file_parser;
pub mod index;
pub mod signoff;
pub mod args;
pub mod append;
pub mod signoff_read;
pub mod warmstart;
pub mod ticks;
pub mod recall;
pub mod locks;
pub mod json;
pub mod claims;
pub mod session;
pub mod rpc;
pub mod compliance;
pub mod briefs;
pub mod config;
pub mod readback;

verus! {
} // verus!

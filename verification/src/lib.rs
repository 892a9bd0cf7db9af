//! Write asset ids and config values into a Roblox place.
//!
//! A place, a set of rules and what they are resolved against go in; the place
//! with the rules applied and a report of what was done come out. No network, no
//! credentials: reading and writing files is left to the caller.

pub mod asset_map;
pub mod assets;
pub mod catalogue;
pub mod check;
pub mod chunks;
pub mod cli;
pub mod config;
pub mod dom;
pub mod inject;
pub mod inject_laws;
pub mod inputs;
pub mod lua;
pub mod luau;
pub mod luau_edit;
pub mod luau_laws;
pub mod luau_order;
pub mod luau_print;
pub mod luau_read;
pub mod luau_text;
pub mod luau_trees;
pub mod place;
pub mod place_file;
pub mod reflection;
pub mod resolve;
pub mod run_laws;
pub mod sources;
pub mod text;
pub mod text_map;
pub mod two_runs;

pub use crate::inject::{apply, Report};
pub use crate::resolve::module_reference;

//! Rewrites the module requests of Luau scripts in snapshots of Roblox instance trees.
//!
//! A request such as `require("@shared/module")` names a module by an alias of a
//! configuration file. Inside a game there are no files, only instances, so the request is
//! replaced by an expression that leads from the script to the instance that stands for the
//! module. Requests that Roblox resolves by itself stay as they are.
//!
//! The library reads no files. A run that needs to know something of the file system ends
//! with a question; whoever runs it records the answer and starts it again.

pub mod alias_cache;
pub mod config;
pub mod config_luau;
pub mod drives;
pub mod duplicate;
pub mod edits;
pub mod error;
pub mod expression;
pub mod files;
pub mod laws;
pub mod literals;
pub mod luau;
pub mod module_index;
pub mod paths;
pub mod personal;
pub mod questions;
pub mod require_by_string;
pub mod resume;
pub mod rewrite;
pub mod runs;
pub mod snapshot;
pub mod text;
pub mod text_map;
pub mod transformer;

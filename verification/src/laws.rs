//! What the operations of this library are for: laws on their results, over the texts,
//! trees and answers that they are given.

pub mod aliases;
pub mod answers;
pub mod configurations;
pub mod hosts;
pub mod literals;
pub mod messages;
pub mod modules;
pub mod paths;
pub mod pipelines;
pub mod plans;
pub mod requests;
pub mod routes;
pub mod trees;

//! The logic of a disk usage browser: the tree it holds, the plans it stages, how those plans are
//! checked and carried out, and what it shows. Every item is verified.

pub mod big;
pub mod bytes;
pub mod config;
pub mod digest;
pub mod dup;
pub mod exec;
pub mod export;
pub mod format;
pub mod inode;
pub mod model;
pub mod order;
pub mod path;
pub mod plan;
pub mod remote;
pub mod report;
pub mod scan;
pub mod stat;
pub mod text;
pub mod tui;

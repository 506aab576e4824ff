//! Scanning a tree on another machine.
//!
//! A remote target runs an agent over ssh and talks to it on stdin and stdout. The remote does the
//! walking, where the files are; the local side gets the finished tree and browses it. The
//! protocol is deliberately narrow, because every message is a thing that has to keep working
//! across versions.

pub mod agent;
pub mod client;
pub mod protocol;

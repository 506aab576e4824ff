//! What the browser does: its state, how keys change it, and what it shows.

pub mod app;
pub mod keys;
pub mod treemap;
pub mod ui;

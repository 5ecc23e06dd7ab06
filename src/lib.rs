//! Finds project directories under configured roots and ranks them against a
//! fuzzy query typed by the user.

pub mod config;
pub mod matcher;
pub mod order;
pub mod picker;
pub mod project;
pub mod scanner;

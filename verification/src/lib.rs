//! Version control for the table layout of a PostgreSQL database.
//!
//! The library holds the model of the tracked objects (tables and their
//! columns), the text rules of the command line (argument and input parsing,
//! file locations inside a repository), and the decisions behind each
//! command: what `status` reports, what `stage`, `unstage` and `remove`
//! leave in the staging area, and what `commit` records.

pub mod dbconnector;
pub mod utils;
pub mod files;
pub mod workflow;
pub mod changes;
pub mod laws;
pub mod command;

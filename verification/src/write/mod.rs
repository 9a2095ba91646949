//! Carrying out on files what a client did to instances.
pub mod addition;
pub mod files;
pub mod removal;
pub mod update;

//! Carries out on files and project files what a client did to instances.
pub mod exchange;
pub mod laws;
pub mod meta;
pub mod node;
pub mod path;
pub mod properties;
pub mod read;
pub mod snapshot;
pub mod table;
pub mod text;
pub mod tree;
pub mod value;
pub mod write;

//! What holds of the operations as a whole.
pub mod account;
pub mod addition;
pub mod basics;
pub mod content;
pub mod entries;
pub mod folders;
pub mod nodes;
pub mod planting;
pub mod refusing;
pub mod removal;
pub mod removing;
pub mod revising;
pub mod saving;
pub mod talk;
pub mod tree;
pub mod update;
pub mod writing;

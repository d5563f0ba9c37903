pub mod adding;
pub mod checkout;
pub mod command_utils;
pub mod handler;
pub mod inspect;
pub mod merge;
pub mod rebase;
pub mod snapshot;
pub mod staging;
pub mod status;
pub mod tags;
pub mod write_tree;

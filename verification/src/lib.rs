pub mod ancestry;
pub mod bomberman;
pub mod codec;
pub mod commands;
pub mod diff;
pub mod file_manager;
pub mod git_transport;
pub mod gitr_errors;
pub mod logger;
pub mod objects;
pub mod server;
pub mod sorting;
pub mod text;

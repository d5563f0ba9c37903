pub mod blob;
pub mod commit;
pub mod git_object;
pub mod pull_request;
pub mod tag;
pub mod tree;

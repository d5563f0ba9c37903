pub mod http;
pub mod server_utils;

//! URLs and HTTP.

pub mod http;
pub mod http_laws;
pub mod into_url;

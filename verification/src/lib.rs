//! The verified core of a small HTTP file server: request parsing, response
//! assembly, query handling, path normalisation and the decisions that the
//! file handlers take.

pub mod strings;
pub mod utils_lib;
pub mod http_lib;
pub mod handlers;

//! The HTTP side: requests, responses and the steps of a connection.

pub mod http;
pub mod http_laws;
pub mod response;
pub mod steps;

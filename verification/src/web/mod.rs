//! The web service's requests and rejections.

pub mod dto;
pub mod extractors;
pub mod handlers;

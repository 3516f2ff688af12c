//! The fraud detector: request parsing, vectors, indexes and searches.

pub mod calendar;
pub mod data;
pub mod json;
pub mod json_laws;
pub mod knn;
pub mod model;
pub mod numerals;
pub mod request_laws;
pub mod search;
pub mod search_laws;
pub mod vector;

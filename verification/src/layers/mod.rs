//! Per-layer rules: which objects qualify, and the text, scores and ids of
//! the features they become.

pub mod common;
pub mod street;
pub mod poi;
pub mod place;
pub mod postcode;
pub mod address;
pub mod details;

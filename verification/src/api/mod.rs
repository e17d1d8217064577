//! Request-side types and conversions: web game states, state validation
//! and request signatures.

pub mod analysis;
pub mod text;
pub mod cache;
pub mod web_api;
pub mod web_api_simple;

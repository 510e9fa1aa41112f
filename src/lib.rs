//! Maintains an HTTP `baggage` header by merging the values of a configured
//! set of request headers into the entries the header already carries.
pub mod codec;
pub mod config;
pub mod filter;
pub mod json;

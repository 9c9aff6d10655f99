//! The HTTP-facing parts of the gateway.

pub mod web_api;

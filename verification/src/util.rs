//! Shared utilities around the store's environment.

pub mod env;

//! A small employee-onboarding library: a file-backed record store for
//! employee and admin records, and a credential utility that derives
//! handles, generates and hashes passwords, and mints session tokens.
//!
//! The store keeps its records in memory and is written out as a JSON
//! document keyed by record identifier; the codec that renders and parses
//! that document lives here as well, with a proved round trip.

pub mod errors;
pub mod models;
pub mod onboarding;
pub mod password_utils;
pub mod session;
pub mod store;
pub mod codec;
pub mod text;

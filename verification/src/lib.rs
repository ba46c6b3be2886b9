//! A minimal self-hosted notes app's core: password checks and session cookies, session
//! expiry timestamps, the decisions of the HTTP handlers, and static-file content types.

pub mod auth;
pub mod datetime;
pub mod server;
pub mod text;

//! Request-line parsing, endpoint matching and request dispatch for a small
//! express-style HTTP server.
pub mod text;
pub mod table;
pub mod route;
pub mod request_line;
pub mod param;
pub mod request;
pub mod response;
pub mod app;
pub mod basic;

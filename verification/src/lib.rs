//! A small verified HTTP responder core: a byte-level request reader, a
//! sandboxed static-path resolver, a line-oriented configuration format,
//! and the pure parts of the route handlers.
pub mod blog;
pub mod bytemap;
pub mod chat;
pub mod config;
pub mod dispatch;
pub mod request;
pub mod response;
pub mod static_files;
pub mod text;

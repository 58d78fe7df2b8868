//! The request-handling core of a small HTTP server framework: path
//! patterns and the trie that indexes them, the handler registry with its
//! global registration order, the ordered dispatcher, and the assembler
//! that turns the bytes read from a connection into a request.

pub mod assembler;
pub mod config;
pub mod constants;
pub mod dispatch;
pub mod error;
pub mod fragments;
pub mod head;
pub mod matching;
pub mod middlewares;
pub mod order;
pub mod path;
pub mod registry;
pub mod request;
pub mod responder;
pub mod router;
pub mod server;
pub mod trie;
pub mod util;

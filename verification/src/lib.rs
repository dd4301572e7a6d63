//! A small collection of verified building blocks: an N-queens board and
//! backtracking solver, an HTTP request parser, a lazily evaluated value,
//! an `Either` sum type, a round-robin interleaver, and helpers for a
//! tiny static-file web server.

pub mod queens;
mod text;
pub mod http_msgs;
pub mod address;
pub mod either;
pub mod cached;
pub mod usado_em;
pub mod complex;
pub mod interleaver;
pub mod matrix;
pub mod server;
pub mod glossary;

//! A content-addressed file store: named links point at deduplicated
//! sources, payloads are framed by a chunked compression codec, and a
//! two-queue broker carries requests between the network front end and
//! the single serial worker.

pub mod auth;
pub mod catalog;
pub mod cli;
pub mod codec;
pub mod conveyer;
pub mod dtos;
pub mod front;
pub mod ordque;
pub mod porter;
pub mod store;
pub mod tidy;
pub mod vars;

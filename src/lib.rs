//! A live, identity-stable model of a watched project tree, with a
//! cursor-based change feed for remote clients.

pub mod feed;
pub mod online;
pub mod fetcher;
pub mod ports;
pub mod session;
pub mod tree;
pub mod ui;

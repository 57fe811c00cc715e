//! A scrolling headline ticker: composition of the character buffer,
//! the fixed-point scroll clock, link lookup and fair rotation.
pub mod cache;
pub mod config;
pub mod control;
pub mod feeds;
pub mod order;
pub mod text;
pub mod ticker;
pub mod ui;

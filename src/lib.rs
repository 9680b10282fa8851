//! A URL shortener's core: a key generator that mints short printable keys
//! from a URL and a sequence number, and an append-only store that maps
//! those keys back to their URLs.

pub mod keygen;
pub mod store;
pub mod pages;
pub mod service;

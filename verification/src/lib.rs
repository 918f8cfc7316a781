//! Discovery of chains of geographic containment facts: a place inside a
//! boundary whose name itself denotes a place inside a further boundary, and
//! so on. The library holds the chain-search engine — fact store, name index,
//! bounded priority frontier, memory governor and search driver — while input
//! parsing, signal wiring and report formatting are left to the surrounding
//! program.

pub mod chain;
pub mod engine;
pub mod fact;
pub mod finished;
pub mod frontier;
pub mod index;
pub mod laws;
pub mod store;

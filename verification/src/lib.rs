//! A word-level Markov chain that learns from chat messages and answers them.
pub mod assoc;
pub mod bot;
pub mod brain;
pub mod chance;
pub mod config;
pub mod counting;
pub mod edges;
pub mod laws;
pub mod legacy;
pub mod reply;
pub mod storage;
pub mod text;

pub use brain::{format_token, Brain};
pub use chance::TypingSender;
pub use edges::{Edges, Token, Weight};

//! A second-order Markov-chain language model for chat lines, with its binary
//! persistence format, and the plain decisions of the chat bot built around it.

pub mod bytes;
pub mod word;
pub mod model;
pub mod dictionary;
pub mod generate;
pub mod codec;
pub mod laws;
pub mod bot;
pub mod settings;
pub mod plugins;
pub mod logs;
mod text;
mod random;

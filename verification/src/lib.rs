//! Parsers for the tool calls that language models write into their output.
//!
//! [`xml`], [`kimi_k2`] and [`dsml`] read the formats of different models, [`reasoning`] treats what a
//! model thinks before it answers, and [`laws`] states what holds of their operations together.
pub mod arguments;
pub mod config;
pub mod dsml;
pub mod grammar;
pub mod kimi_k2;
pub mod laws;
pub mod number;
pub mod pattern;
pub mod reasoning;
pub mod response;
pub mod schema;
pub mod stream;
pub mod text;
pub mod values;
pub mod xml;

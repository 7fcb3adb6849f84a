//! Laws: what holds of several operations together.
pub mod arguments;
pub mod dsml;
pub mod dsml_format;
pub mod dsml_scanning;
pub mod kimi_k2;
pub mod kimi_k2_closing;
pub mod kimi_k2_format;
pub mod kimi_k2_scanning;
pub mod numbers;
pub mod parameters;
pub mod reports;
pub mod results;
pub mod rewriting;
pub mod schema;
pub mod streaming;
pub mod text;
pub mod tokens;
pub mod values;
pub mod xml;
pub mod xml_format;
pub mod xml_scanning;

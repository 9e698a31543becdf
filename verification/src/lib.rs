//! Parsing, filtering and exporting of proxy share links (`vless://`, `ss://`).

pub mod text;
pub mod models;
pub mod error;
pub mod decode;
pub mod url_parts;
pub mod parser;
pub mod json;
pub mod exporter;
pub mod order;
pub mod processor;
pub mod laws;

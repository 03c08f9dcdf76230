//! Streaming parsers for the tool calls that a language model writes into its
//! output.

pub mod json;
pub mod text;
pub mod tool_calling;
pub mod xml;

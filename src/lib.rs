//! A lossless CSS tokenizer and parser.
//!
//! Source text is turned into tokens (byte spans) by [`tokenizer::Tokenizer`],
//! the tokens into a tree of nodes with exact byte spans by [`parser::parse`],
//! following the grammar of [`grammar`], and the tree back into text by
//! [`stringifier::stringify`], which reproduces the source byte for byte.
mod search;
pub mod error;
pub mod grammar;
pub mod input;
pub mod list;
pub mod node;
pub mod parser;
pub mod printer;
pub mod ref_ring;
pub mod stringifier;
pub mod tokenizer;
pub mod visitor;

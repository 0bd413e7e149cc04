//! A small HTML parser with CSS-like selectors and text extraction.
pub mod text;
pub mod lexer;
pub mod html;
pub mod matching;
pub mod operations;
pub mod retrieval;

pub use lexer::Lexer;
pub use html::{
    Attribute, ContextChain, ContextItem, Document, Element, ElementChildren, HTMLParseError,
    HTMLParseErrorReason, Node, Children, html_tag_contains_literal_content, html_tag_is_self_closing,
};
pub use retrieval::retrieve;

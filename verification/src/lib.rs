//! A small markup parser: it turns the text of a document into a tree of
//! text, element and comment nodes.

pub mod dom;
pub mod grammar;
pub mod html_parser;

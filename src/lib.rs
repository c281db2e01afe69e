//! A typesetting-language front end: a mutable character-category table, a
//! lexer driven by it, and a macro and conditional expander.
pub mod category;
pub mod token;
pub mod makro;
pub mod state;
pub mod lexer;
pub mod parser;

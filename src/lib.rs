//! Recursive-descent parsers for a small markup language and a small stylesheet language,
//! sharing one character cursor. Each parse is a function of its input text and either
//! returns the whole tree or the condition that stopped it.

pub mod cursor;
pub mod dom;
pub mod html;
pub mod css;

pub use cursor::ParseError;

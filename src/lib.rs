//! A scanner for assembly source text: it turns the text into tokens with
//! exact spans and decoded literals, and records recoverable errors.
pub mod laws;
pub mod lexical;
pub mod scan;
pub mod token;

pub use lexical::ErrorKind;
pub use scan::{scan, Scanner};
pub use token::{Error, ErrorCollector, Token};

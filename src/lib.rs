//! A small macro language for building byte-escape strings.
//!
//! Source text binds names to sequences of quoted text, `0x` addresses and
//! references to other names; the name `out` is expanded depth-first and its
//! text fragments are concatenated into the program's output.

pub mod emitter;
pub mod laws;
pub mod lexer;
pub mod program;
pub mod resolver;
pub mod table;
pub mod text;
pub mod token;

pub use emitter::concat_all_text;
pub use lexer::{tokenize, trim_start};
pub use program::compile;
pub use resolver::encode_address;
pub use table::{build_table, SymbolTable};
pub use token::{ErrorView, MacroError, Token, TokenView};

//! A lexer for a small scripting language: it turns source bytes into a
//! sequence of positioned tokens, and says in its contracts which sequence.

pub mod grammar;
pub mod laws;
pub mod lexer;
pub mod types;

pub use crate::lexer::new_lexer;
pub use crate::types::position::new_position;
pub use crate::types::LexError;
pub use crate::types::Lexer;
pub use crate::types::Position;
pub use crate::types::Token;
pub use crate::types::TokenTypes;
pub use crate::types::TokenValue;

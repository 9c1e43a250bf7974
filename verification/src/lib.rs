//! kaon (a small scripting language) and kwark (a modal text editor core),
//! with the contracts of their logic stated and proved.

pub mod text;
pub mod spanned;
pub mod token;
pub mod op_registry;
pub mod value;
pub mod error;
pub mod expr;
pub mod lex;
pub mod parse;
pub mod engine;
pub mod scope;
pub mod ropes;
pub mod buffer;
pub mod cursor;
pub mod buffer_list;
pub mod autocomplete;
pub mod input;
pub mod registration;

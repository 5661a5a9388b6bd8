pub mod block;
pub mod document;
pub mod formatting;

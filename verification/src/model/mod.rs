pub mod block;
pub mod document;

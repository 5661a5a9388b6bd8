//! Widget templates of the editor.
pub mod generator;

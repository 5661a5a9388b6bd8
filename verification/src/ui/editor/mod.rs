//! The span-based document editor.
pub mod area;
pub mod rich_text_editor;

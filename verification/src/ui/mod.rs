//! The block editor's user interface logic.
pub mod components;
pub mod editor;
pub mod events;
pub mod template_selector;

pub use template_selector::get_template_for_block;

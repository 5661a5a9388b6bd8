pub mod block_renderer;
pub mod indentation;
pub mod inline_formatter;
pub mod ordered_list;
pub mod rich_text_editor;
pub mod rich_text_renderer;

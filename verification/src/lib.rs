use vstd::prelude::*;

pub mod app_state;
pub mod block;
pub mod block_editor;
pub mod editor;
pub mod editor_state;
pub mod file_explorer;
pub mod markdown;
pub mod model;
pub mod rich_text_editor;
pub mod rich_text_input;
pub mod storage;
pub mod templates;
pub mod text;
pub mod ui;

verus! {
}

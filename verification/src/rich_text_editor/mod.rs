pub mod history;
pub mod widget;

pub use history::HistoryManager;
pub use widget::RichTextEditor;

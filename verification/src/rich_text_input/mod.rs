pub mod cursor;
pub mod inline;
pub mod text_mapping;
pub mod types;

pub use cursor::CursorManager;
pub use text_mapping::{TextMapping, VisualSegment};
pub use types::{CursorPosition, HistoryEntry, TextSelection};

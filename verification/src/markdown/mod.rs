pub mod inline;
pub mod parser;

pub use inline::{extract_plain_text, parse_inline_formatting, InlineFormat, InlineSpan};
pub use parser::{detect_heading_level, detect_list_item, is_list_item, ListInfo, ListType};

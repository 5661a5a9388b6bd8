//! Text of the heading input templates: for each heading level an active
//! and a read-only template with the level's font size.
use vstd::prelude::*;

use crate::text::push_str;

verus! {

/// The active and the read-only template of one heading level.
pub open spec fn template_pair(level: Seq<char>, size: Seq<char>) -> Seq<char> {
    "BlockInput"@ + level
        + " = <TextInput> {\n                width: Fill, height: Fit, padding: 10\n                draw_bg: { color: #2a2a2a }\n                draw_text: {\n                    text_style: <THEME_FONT_REGULAR> {font_size: "@
        + size
        + "}\n                    color: #ffffff\n                }\n            }\n            \n            "@
        + "BlockInputInactive"@ + level
        + " = <TextInput> {\n                width: Fill, height: Fit, padding: 10\n                is_read_only: true\n                draw_bg: { color: #1a1a1a }\n                draw_text: {\n                    text_style: <THEME_FONT_REGULAR> {font_size: "@
        + size
        + "}\n                    color: #cccccc\n                }\n            }\n            \n            "@
}

/// The templates of the three heading levels: `H1` at size 25, `H2` at 21,
/// `H3` at 18.
pub open spec fn heading_templates() -> Seq<char> {
    template_pair("H1"@, "25"@) + template_pair("H2"@, "21"@) + template_pair("H3"@, "18"@)
}

/// Appends the two templates of one level.
fn push_template_pair(s: &mut String, level: &str, size: &str)
    ensures
        final(s)@ == old(s)@ + template_pair(level@, size@),
{
    push_str(s, "BlockInput");
    push_str(s, level);
    push_str(
        s,
        " = <TextInput> {\n                width: Fill, height: Fit, padding: 10\n                draw_bg: { color: #2a2a2a }\n                draw_text: {\n                    text_style: <THEME_FONT_REGULAR> {font_size: ",
    );
    push_str(s, size);
    push_str(
        s,
        "}\n                    color: #ffffff\n                }\n            }\n            \n            ",
    );
    push_str(s, "BlockInputInactive");
    push_str(s, level);
    push_str(
        s,
        " = <TextInput> {\n                width: Fill, height: Fit, padding: 10\n                is_read_only: true\n                draw_bg: { color: #1a1a1a }\n                draw_text: {\n                    text_style: <THEME_FONT_REGULAR> {font_size: ",
    );
    push_str(s, size);
    push_str(
        s,
        "}\n                    color: #cccccc\n                }\n            }\n            \n            ",
    );
    assert(s@ =~= old(s)@ + template_pair(level@, size@));
}

/// The heading templates (see `heading_templates`).
pub fn generate_heading_templates() -> (r: String)
    ensures
        r@ == heading_templates(),
{
    let mut templates = String::new();
    push_template_pair(&mut templates, "H1", "25");
    push_template_pair(&mut templates, "H2", "21");
    push_template_pair(&mut templates, "H3", "18");
    assert(templates@ =~= heading_templates());
    templates
}

} // verus!

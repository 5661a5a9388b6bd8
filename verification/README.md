# ndown

A block-based Markdown editor. The editing logic is a library whose
functions carry `requires`/`ensures` contracts proved with Verus; the
window, drawing, clipboard and file access form a thin program around it.

- `src/`: the verified library.
  - `markdown/`: headings, list items and inline `**bold**`, `*italic*`,
    `` `code` `` spans of a line.
  - `block.rs`, `editor_state.rs`, `block_editor.rs`, `ui/`: the block
    editor (one line of Markdown per block), its key handling, list
    indentation and numbering, inline toggles and input templates.
  - `editor/`: the document editor: blocks with style runs, typing, deleting,
    selections, pasting, inline formatting, saving as Markdown, loading lines.
  - `model/`: the span-based document model and its editor state.
  - `rich_text_input/`, `rich_text_editor/`: the rich text input: cursor and
    selection, undo history, the mapping between raw and displayed text.
  - `storage/`, `templates/`, `file_explorer.rs`, `app_state.rs`: the file
    format, the heading templates, the explorer's file list and the panels.
  - `text.rs`: character-level helpers shared by all of the above.
- `tests/`: tests of the library on concrete values.
- `app/`: the program: the window, the editor widget, the explorer and the
  background reads and writes.

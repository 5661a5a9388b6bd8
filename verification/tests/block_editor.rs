use ndown::block::{Block, BlockId, BlockIdGenerator, BlockType};
use ndown::block_editor::{
    apply_pending, handle_backspace, replace_blocks, toggle_active_format, PendingOutcome,
};
use ndown::editor_state::EditorState;
use ndown::markdown::inline::InlineFormat;
use ndown::ui::events::{EventHandler, NavigationKey};

fn state_with(texts: &[&str], ids: &mut BlockIdGenerator) -> EditorState {
    let mut st = EditorState::new(ids);
    let blocks: Vec<Block> = texts.iter().map(|t| Block::text(t.to_string(), ids)).collect();
    replace_blocks(&mut st, blocks);
    st
}

#[test]
fn ids_are_handed_out_in_order() {
    let mut ids = BlockIdGenerator::new();
    let a = BlockId::new(&mut ids);
    let b = BlockId::new(&mut ids);
    assert_eq!(a.value(), 0);
    assert_eq!(b.value(), 1);
    assert_ne!(a, b);
}

#[test]
fn block_constructors() {
    let mut ids = BlockIdGenerator::new();
    let h = Block::heading(2, "Title".to_string(), &mut ids);
    assert_eq!(h.block_type, BlockType::Heading(2));
    assert_eq!(h.content, "Title");
    let l = Block::list("- x".to_string(), &mut ids);
    assert_eq!(l.block_type, BlockType::List);
    assert_eq!(l.id.value(), 1);
    let t = Block::new(BlockType::Text, "t".to_string(), &mut ids);
    assert_eq!(t.block_type, BlockType::Text);
    assert_eq!(t.id.value(), 2);
}

#[test]
fn new_state_has_one_empty_active_block() {
    let mut ids = BlockIdGenerator::new();
    let st = EditorState::new(&mut ids);
    assert_eq!(st.blocks().len(), 1);
    assert_eq!(st.blocks()[0].content, "");
    assert_eq!(st.active_block_index(), 0);
    assert!(st.active_block().is_some());
}

#[test]
fn create_and_delete_blocks() {
    let mut ids = BlockIdGenerator::new();
    let mut st = state_with(&["a", "b"], &mut ids);
    let c = Block::text("c".to_string(), &mut ids);
    st.create_block(1, c);
    assert_eq!(st.blocks().len(), 3);
    assert_eq!(st.blocks()[1].content, "c");
    let past_end = Block::text("z".to_string(), &mut ids);
    st.create_block(9, past_end);
    assert_eq!(st.blocks().len(), 3);
    st.set_active_block(2);
    let removed = st.delete_block(2).unwrap();
    assert_eq!(removed.content, "b");
    assert_eq!(st.active_block_index(), 1);
    assert!(st.delete_block(5).is_none());
}

#[test]
fn only_block_is_not_deleted() {
    let mut ids = BlockIdGenerator::new();
    let mut st = EditorState::new(&mut ids);
    assert!(st.delete_block(0).is_none());
    assert_eq!(st.blocks().len(), 1);
}

#[test]
fn next_and_prev_stay_in_range() {
    let mut ids = BlockIdGenerator::new();
    let mut st = state_with(&["a", "b"], &mut ids);
    st.prev_block();
    assert_eq!(st.active_block_index(), 0);
    st.next_block();
    assert_eq!(st.active_block_index(), 1);
    st.next_block();
    assert_eq!(st.active_block_index(), 1);
    st.set_active_block(7);
    assert_eq!(st.active_block_index(), 1);
}

#[test]
fn active_block_mut_changes_that_block() {
    let mut ids = BlockIdGenerator::new();
    let mut st = state_with(&["a", "b"], &mut ids);
    st.set_active_block(1);
    st.active_block_mut().unwrap().content = "B".to_string();
    assert_eq!(st.blocks()[1].content, "B");
    assert_eq!(st.blocks()[0].content, "a");
}

#[test]
fn backspace_in_blank_block_deletes_it() {
    let mut ids = BlockIdGenerator::new();
    let mut st = state_with(&["a", "  "], &mut ids);
    st.set_active_block(1);
    assert!(handle_backspace(&mut st));
    assert_eq!(st.blocks().len(), 1);
    assert_eq!(st.active_block_index(), 0);
}

#[test]
fn backspace_keeps_first_and_nonblank_blocks() {
    let mut ids = BlockIdGenerator::new();
    let mut st = state_with(&["", "x"], &mut ids);
    assert!(!handle_backspace(&mut st));
    st.set_active_block(1);
    assert!(!handle_backspace(&mut st));
    assert_eq!(st.blocks().len(), 2);
}

#[test]
fn text_change_that_makes_a_list_item_recreates_the_block() {
    let mut ids = BlockIdGenerator::new();
    let mut st = state_with(&["plain"], &mut ids);
    let mut h = EventHandler::new();
    h.handle_text_changed(0, "- item".to_string(), &mut st);
    assert_eq!(st.blocks()[0].block_type, BlockType::List);
    assert_eq!(h.blocks_to_recreate, vec![0]);
    h.handle_text_changed(0, "- item 2".to_string(), &mut st);
    assert_eq!(st.blocks()[0].content, "- item 2");
    assert_eq!(h.blocks_to_recreate, vec![0]);
    h.handle_text_changed(4, "ignored".to_string(), &mut st);
    assert_eq!(st.blocks().len(), 1);
}

#[test]
fn heading_change_sets_text_kind() {
    let mut ids = BlockIdGenerator::new();
    let mut st = state_with(&["plain"], &mut ids);
    let mut h = EventHandler::new();
    h.handle_text_changed(0, "# Head".to_string(), &mut st);
    assert_eq!(st.blocks()[0].block_type, BlockType::Text);
    assert_eq!(h.blocks_to_recreate, vec![0]);
}

#[test]
fn key_focus_on_other_block_activates_it() {
    let mut ids = BlockIdGenerator::new();
    let mut st = state_with(&["a", "b"], &mut ids);
    let mut h = EventHandler::new();
    assert!(!h.handle_key_focus(1, &mut st));
    assert_eq!(st.active_block_index(), 1);
    assert_eq!(h.blocks_to_recreate, vec![0, 1]);
    assert!(h.handle_key_focus(1, &mut st));
    assert_eq!(h.blocks_to_recreate, vec![0, 1]);
}

#[test]
fn arrow_navigation_targets() {
    let mut ids = BlockIdGenerator::new();
    let st = state_with(&["a", "b", "c"], &mut ids);
    let mut h = EventHandler::new();
    h.handle_navigation(1, NavigationKey::ArrowUp, &st);
    assert_eq!(h.navigation_target, Some(0));
    h.handle_navigation(1, NavigationKey::ArrowDown, &st);
    assert_eq!(h.navigation_target, Some(2));
    let mut h2 = EventHandler::new();
    h2.handle_navigation(2, NavigationKey::ArrowDown, &st);
    assert_eq!(h2.navigation_target, None);
    h2.handle_navigation(0, NavigationKey::ArrowUp, &st);
    assert_eq!(h2.navigation_target, None);
    h2.handle_navigation(1, NavigationKey::Other, &st);
    assert_eq!(h2.navigation_target, None);
}

#[test]
fn backspace_navigation_in_empty_block() {
    let mut ids = BlockIdGenerator::new();
    let st = state_with(&["a", ""], &mut ids);
    let mut h = EventHandler::new();
    h.handle_navigation(1, NavigationKey::Backspace, &st);
    assert!(h.should_delete_block);
    assert_eq!(h.navigation_target, Some(0));
    let mut h2 = EventHandler::new();
    h2.handle_navigation(0, NavigationKey::Backspace, &st);
    assert!(!h2.should_delete_block);
}

#[test]
fn enter_after_list_item_continues_the_list() {
    let mut ids = BlockIdGenerator::new();
    let st = state_with(&["  - item", "3. x", "- ", "text"], &mut ids);
    let mut h = EventHandler::new();
    h.handle_enter_key(0, &st);
    assert_eq!(h.should_create_new_block, Some((1, "  - ".to_string())));
    h.handle_enter_key(1, &st);
    assert_eq!(h.should_create_new_block, Some((2, "1. ".to_string())));
    h.handle_enter_key(2, &st);
    assert_eq!(h.should_create_new_block, Some((3, String::new())));
    h.handle_enter_key(3, &st);
    assert_eq!(h.should_create_new_block, Some((4, String::new())));
}

#[test]
fn tab_indents_list_items_only() {
    let mut ids = BlockIdGenerator::new();
    let mut st = state_with(&["- a", "text"], &mut ids);
    let mut h = EventHandler::new();
    assert!(h.handle_tab_key(0, false, &mut st));
    assert_eq!(st.blocks()[0].content, "  - a");
    assert!(h.handle_tab_key(0, true, &mut st));
    assert_eq!(st.blocks()[0].content, "- a");
    assert!(h.handle_tab_key(0, true, &mut st));
    assert_eq!(st.blocks()[0].content, "- a");
    assert!(!h.handle_tab_key(1, false, &mut st));
    assert_eq!(st.blocks()[1].content, "text");
    assert_eq!(h.blocks_to_recreate, vec![0, 0, 0]);
}

#[test]
fn pending_deletion_comes_first() {
    let mut ids = BlockIdGenerator::new();
    let mut st = state_with(&["a", "b"], &mut ids);
    st.set_active_block(1);
    let mut h = EventHandler::new();
    h.should_delete_block = true;
    h.should_create_new_block = Some((0, "x".to_string()));
    assert_eq!(apply_pending(&h, &mut st, &mut ids), PendingOutcome::Deleted);
    assert_eq!(st.blocks().len(), 1);
    assert_eq!(st.blocks()[0].content, "a");
}

#[test]
fn pending_creation_inserts_and_activates() {
    let mut ids = BlockIdGenerator::new();
    let mut st = state_with(&["a"], &mut ids);
    let mut h = EventHandler::new();
    h.should_create_new_block = Some((1, "- next".to_string()));
    assert_eq!(apply_pending(&h, &mut st, &mut ids), PendingOutcome::Created);
    assert_eq!(st.blocks().len(), 2);
    assert_eq!(st.blocks()[1].content, "- next");
    assert_eq!(st.blocks()[1].block_type, BlockType::List);
    assert_eq!(st.active_block_index(), 1);
}

#[test]
fn pending_navigation_and_nothing() {
    let mut ids = BlockIdGenerator::new();
    let mut st = state_with(&["a", "b"], &mut ids);
    let mut h = EventHandler::new();
    assert_eq!(apply_pending(&h, &mut st, &mut ids), PendingOutcome::Nothing);
    h.navigation_target = Some(1);
    assert_eq!(
        apply_pending(&h, &mut st, &mut ids),
        PendingOutcome::Navigated { old_active: 0, new_active: 1 }
    );
    assert_eq!(st.active_block_index(), 1);
}

#[test]
fn toggle_in_active_block() {
    let mut ids = BlockIdGenerator::new();
    let mut st = state_with(&["hello"], &mut ids);
    let (text, cursor) = toggle_active_format(&mut st, "hello", 2, InlineFormat::Bold);
    assert_eq!(text, "he****llo");
    assert_eq!(cursor, 4);
    assert_eq!(st.blocks()[0].content, "he****llo");
}

#[test]
fn replace_blocks_activates_first() {
    let mut ids = BlockIdGenerator::new();
    let mut st = state_with(&["a", "b"], &mut ids);
    st.set_active_block(1);
    let blocks = vec![Block::text("x".to_string(), &mut ids)];
    replace_blocks(&mut st, blocks);
    assert_eq!(st.blocks().len(), 1);
    assert_eq!(st.active_block_index(), 0);
}

#[test]
fn deleting_a_created_block_restores_the_list() {
    let mut ids = BlockIdGenerator::new();
    let mut st = state_with(&["a", "b"], &mut ids);
    let fresh = Block::text("new".to_string(), &mut ids);
    let fresh_id = fresh.id;
    st.create_block(1, fresh);
    let removed = st.delete_block(1).unwrap();
    assert_eq!(removed.id, fresh_id);
    let texts: Vec<&str> = st.blocks().iter().map(|b| b.content.as_str()).collect();
    assert_eq!(texts, vec!["a", "b"]);
}

#[test]
fn next_then_prev_returns() {
    let mut ids = BlockIdGenerator::new();
    let mut st = state_with(&["a", "b", "c"], &mut ids);
    st.set_active_block(1);
    st.next_block();
    st.prev_block();
    assert_eq!(st.active_block_index(), 1);
}

#[test]
fn many_draws_are_all_distinct() {
    let mut ids = BlockIdGenerator::new();
    let drawn: Vec<usize> = (0..100).map(|_| BlockId::new(&mut ids).value()).collect();
    for i in 0..drawn.len() {
        assert_eq!(drawn[i], i);
        for j in 0..i {
            assert_ne!(drawn[i], drawn[j]);
        }
    }
}

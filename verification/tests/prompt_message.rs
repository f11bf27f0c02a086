use editor::message::{Message, MessageKind};
use editor::prompt::{Prompt, PromptKind};

#[test]
fn prompt_starts_empty_after_its_label() {
    let p = Prompt::new(PromptKind::Open);
    assert_eq!(p.prompt(), "");
    assert!(matches!(p.kind(), PromptKind::Open));
    assert_eq!(p.cursor_pos(), 6);
    assert_eq!(p.viewport(), (0, 0));
    assert_eq!(p.visible_line(), "open: ");
    let q = Prompt::new(PromptKind::SaveAs);
    assert!(matches!(q.kind(), PromptKind::SaveAs));
    assert_eq!(q.cursor_pos(), 9);
}

#[test]
fn prompt_editing_keys() {
    let mut p = Prompt::new(PromptKind::Open);
    p.set_viewport_size(40);
    p.insert('a');
    p.insert('b');
    assert_eq!(p.prompt(), "ab");
    assert_eq!(p.cursor_pos(), 8);
    p.move_left();
    assert_eq!(p.cursor_pos(), 7);
    p.delete_back();
    assert_eq!(p.prompt(), "b");
    assert_eq!(p.cursor_pos(), 6);
    p.delete_back();
    assert_eq!(p.prompt(), "b");
    p.move_end();
    assert_eq!(p.cursor_pos(), 7);
    p.delete_forward();
    assert_eq!(p.prompt(), "b");
    p.move_home();
    p.delete_forward();
    assert_eq!(p.prompt(), "");
    assert_eq!(p.visible_line(), "open: ");
}

#[test]
fn prompt_insert_then_delete_back_restores() {
    let mut p = Prompt::new(PromptKind::SaveAs);
    p.insert('x');
    p.insert('y');
    p.move_left();
    p.insert('€');
    assert_eq!(p.prompt(), "x€y");
    assert_eq!(p.cursor_pos(), 11);
    p.delete_back();
    assert_eq!(p.prompt(), "xy");
    assert_eq!(p.cursor_pos(), 10);
    p.move_right();
    p.move_right();
    assert_eq!(p.cursor_pos(), 11);
}

#[test]
fn prompt_view_width_leaves_out_the_label() {
    let mut p = Prompt::new(PromptKind::Open);
    p.set_viewport_size(20);
    assert_eq!(p.viewport(), (0, 14));
    let mut q = Prompt::new(PromptKind::SaveAs);
    q.set_viewport_size(20);
    assert_eq!(q.viewport(), (0, 11));
    q.set_viewport_size(4);
    assert_eq!(q.viewport(), (0, 0));
}

#[test]
fn prompt_scrolls_to_its_cursor() {
    let mut p = Prompt::new(PromptKind::Open);
    p.set_viewport_size(8);
    for c in "abcdef".chars() {
        p.insert(c);
    }
    p.scroll_to_cursor();
    assert_eq!(p.viewport(), (9, 2));
    assert_eq!(p.visible_line(), "open: ");
    p.move_home();
    p.scroll_to_cursor();
    assert_eq!(p.viewport(), (0, 2));
    assert_eq!(p.visible_line(), "open: ab");
}

#[test]
fn message_texts() {
    assert_eq!(Message::new("x.txt", MessageKind::Saved).text(), "saved at: x.txt");
    assert_eq!(
        Message::new("denied", MessageKind::FailedOpen).text(),
        "failed to open: denied"
    );
    assert_eq!(
        Message::new("full", MessageKind::FailedSave).text(),
        "failed to save at: full"
    );
}

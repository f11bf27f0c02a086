use editor::app::{
    command_for, count_digits, decimal_string, prompt_command_for, truncate_to, Action, App,
    CursorTarget, EditorCommand, Event, Key, KeyInput, PromptCommand,
};

fn press(code: Key) -> Event {
    Event::Key(KeyInput { code, control: false, press: true })
}

fn ctrl(c: char) -> Event {
    Event::Key(KeyInput { code: Key::Char(c), control: true, press: true })
}

fn type_text(app: &mut App, text: &str) {
    for c in text.chars() {
        assert!(matches!(app.handle_event(press(Key::Char(c))), Action::Continue));
        app.scroll();
    }
}

fn sized(file: Option<(String, Result<String, String>)>, cols: u16, rows: u16) -> App {
    let mut app = App::new(file);
    app.set_terminal_size(cols, rows);
    app.update_viewport();
    app
}

fn named(name: &str, text: &str) -> Option<(String, Result<String, String>)> {
    Some((name.to_string(), Ok(text.to_string())))
}

#[test]
fn app_new_buffer_status_line() {
    let app = sized(None, 20, 5);
    assert!(app.path().is_none());
    assert_eq!(app.terminal_size(), (20, 5));
    assert_eq!(app.default_status(), "new              1:1");
    assert_eq!(app.status_text(), "new              1:1");
    assert_eq!(app.editor_lines(), vec!["1 | \r\n"]);
    assert_eq!(app.cursor_target(), CursorTarget::Show(4, 0));
}

#[test]
fn app_status_line_cuts_a_long_name_from_the_front() {
    let app = sized(named("abcdefghijkl", ""), 10, 5);
    assert_eq!(app.default_status(), "fghijkl1:1");
}

#[test]
fn app_typing_goes_to_the_editor() {
    let mut app = sized(None, 20, 5);
    type_text(&mut app, "hi");
    assert_eq!(app.contents(), "hi");
    assert_eq!(app.default_status(), "new              1:3");
    assert!(matches!(app.handle_event(press(Key::Enter)), Action::Continue));
    assert!(matches!(app.handle_event(press(Key::Tab)), Action::Continue));
    assert_eq!(app.contents(), "hi\n    ");
    app.update_viewport();
    assert_eq!(app.editor_lines(), vec!["1 | hi\r\n", "2 |     \r\n"]);
    assert_eq!(app.cursor_target(), CursorTarget::Show(8, 1));
}

#[test]
fn app_key_release_and_other_events_change_nothing() {
    let mut app = sized(None, 20, 5);
    let release = Event::Key(KeyInput { code: Key::Char('a'), control: false, press: false });
    assert!(matches!(app.handle_event(release), Action::Continue));
    assert!(matches!(app.handle_event(Event::Other), Action::Continue));
    assert_eq!(app.contents(), "");
}

#[test]
fn app_resize_sets_the_terminal_size() {
    let mut app = sized(None, 20, 5);
    assert!(matches!(app.handle_event(Event::Resize(30, 8)), Action::Continue));
    assert_eq!(app.terminal_size(), (30, 8));
}

#[test]
fn app_escape_quits() {
    let mut app = sized(None, 20, 5);
    assert!(matches!(app.handle_event(press(Key::Esc)), Action::Quit));
}

#[test]
fn app_save_without_a_name_asks_for_one() {
    let mut app = sized(None, 30, 5);
    type_text(&mut app, "x");
    assert!(matches!(app.handle_event(ctrl('s')), Action::Continue));
    assert!(app.prompt().is_some());
    app.update_viewport();
    assert_eq!(app.status_text(), "save as: ");
    assert_eq!(app.cursor_target(), CursorTarget::Show(9, 4));
    type_text(&mut app, "f.txt");
    assert_eq!(app.status_text(), "save as: f.txt");
    match app.handle_event(press(Key::Enter)) {
        Action::SaveAs(name, contents) => {
            assert_eq!(name, "f.txt");
            assert_eq!(contents, "x");
            app.finish_save_as(name, Ok(()));
        }
        other => panic!("unexpected {other:?}"),
    }
    assert!(app.prompt().is_none());
    assert_eq!(app.path().map(|p| p.as_str()), Some("f.txt"));
    assert_eq!(app.status_text(), "saved at: f.txt");
    type_text(&mut app, "y");
    assert_eq!(app.status_text(), "f.txt                      1:3");
}

#[test]
fn app_save_as_failure_keeps_the_name() {
    let mut app = sized(named("old.txt", "a"), 30, 5);
    assert!(matches!(app.handle_event(press(Key::F(2))), Action::Continue));
    type_text(&mut app, "new.txt");
    match app.handle_event(press(Key::Enter)) {
        Action::SaveAs(name, _) => app.finish_save_as(name, Err("denied".to_string())),
        other => panic!("unexpected {other:?}"),
    }
    assert_eq!(app.path().map(|p| p.as_str()), Some("old.txt"));
    assert_eq!(app.status_text(), "failed to save at: denied");
}

#[test]
fn app_save_with_a_name_writes_the_file() {
    let mut app = sized(named("a.txt", "one\r\ntwo\r\n"), 30, 5);
    type_text(&mut app, "z");
    match app.handle_event(ctrl('s')) {
        Action::Save(contents) => assert_eq!(contents, "zone\r\ntwo\r\n"),
        other => panic!("unexpected {other:?}"),
    }
    app.finish_save(Ok(()));
    assert_eq!(app.status_text(), "saved at: a.txt");
    app.finish_save(Err("disk full".to_string()));
    assert_eq!(app.status_text(), "failed to save at: disk full");
}

#[test]
fn app_open_prompt_then_failure() {
    let mut app = sized(named("a.txt", "abc"), 30, 5);
    assert!(matches!(app.handle_event(ctrl('o')), Action::Continue));
    assert_eq!(app.status_text(), "open: ");
    type_text(&mut app, "b.txt");
    match app.handle_event(press(Key::Enter)) {
        Action::Open(name) => {
            assert_eq!(name, "b.txt");
            app.finish_open(name, Err("not found".to_string()));
        }
        other => panic!("unexpected {other:?}"),
    }
    assert_eq!(app.path().map(|p| p.as_str()), Some("b.txt"));
    assert_eq!(app.status_text(), "failed to open: not found");
    assert_eq!(app.contents(), "");
}

#[test]
fn app_open_reads_crlf_files() {
    let mut app = sized(None, 30, 5);
    app.finish_open("c.txt".to_string(), Ok("a\r\nb\r\n".to_string()));
    app.update_viewport();
    assert_eq!(app.editor_lines(), vec!["1 | a\r\n", "2 | b\r\n", "3 | \r\n"]);
    assert_eq!(app.contents(), "a\r\nb\r\n");
    assert_eq!(app.status_text(), "c.txt                      1:1");
}

#[test]
fn app_mixed_endings_are_kept_when_the_last_is_lf() {
    let app = App::new(named("m.txt", "a\r\nb\n"));
    assert_eq!(app.contents(), "a\r\nb\n");
}

#[test]
fn app_save_then_open_gives_back_the_text() {
    for text in ["one\r\ntwo\r\n", "one\ntwo", "x\r\r\ny\r\n", "no break"] {
        let app = App::new(named("f", text));
        let saved = app.contents();
        assert_eq!(saved, text);
        let again = App::new(named("f", &saved));
        assert_eq!(again.contents(), saved);
    }
}

#[test]
fn app_unreadable_file_gives_an_empty_named_buffer() {
    let app = sized(Some(("gone".to_string(), Err("no such file".to_string()))), 40, 5);
    assert_eq!(app.path().map(|p| p.as_str()), Some("gone"));
    assert_eq!(app.contents(), "");
    assert_eq!(app.status_text(), "failed to open: no such file");
}

#[test]
fn app_message_is_cleared_by_the_next_key() {
    let mut app = sized(Some(("gone".to_string(), Err("x".to_string()))), 20, 5);
    assert!(matches!(app.handle_event(press(Key::Right)), Action::Continue));
    assert_eq!(app.status_text(), "gone             1:1");
}

#[test]
fn app_escape_closes_the_prompt() {
    let mut app = sized(None, 20, 5);
    app.handle_event(ctrl('o'));
    type_text(&mut app, "abc");
    assert!(matches!(app.handle_event(press(Key::Esc)), Action::Continue));
    assert!(app.prompt().is_none());
    assert_eq!(app.contents(), "");
    assert_eq!(app.status_text(), "new              1:1");
}

#[test]
fn app_control_keys_move_and_delete() {
    let mut app = sized(named("t", "one two\nthree"), 30, 5);
    app.handle_event(Event::Key(KeyInput { code: Key::Right, control: true, press: true }));
    assert_eq!(app.default_status(), "t                          1:4");
    app.handle_event(Event::Key(KeyInput { code: Key::End, control: true, press: true }));
    assert_eq!(app.default_status(), "t                          2:6");
    app.handle_event(Event::Key(KeyInput { code: Key::Left, control: true, press: true }));
    assert_eq!(app.default_status(), "t                          2:1");
    app.handle_event(ctrl('x'));
    assert_eq!(app.contents(), "one two");
    app.handle_event(Event::Key(KeyInput { code: Key::Home, control: true, press: true }));
    app.handle_event(press(Key::Delete));
    assert_eq!(app.contents(), "ne two");
    app.handle_event(press(Key::End));
    app.handle_event(press(Key::Backspace));
    assert_eq!(app.contents(), "ne tw");
    app.handle_event(press(Key::Up));
    app.handle_event(press(Key::Down));
    app.handle_event(press(Key::Home));
    assert_eq!(app.default_status(), "t                          1:1");
}

#[test]
fn app_keys_map_to_commands() {
    let k = |code: Key, control: bool| KeyInput { code, control, press: true };
    assert_eq!(command_for(k(Key::Char('o'), true)), EditorCommand::OpenPrompt);
    assert_eq!(command_for(k(Key::Char('s'), true)), EditorCommand::Save);
    assert_eq!(command_for(k(Key::Char('x'), true)), EditorCommand::DeleteLine);
    assert_eq!(command_for(k(Key::Char('q'), true)), EditorCommand::Insert('q'));
    assert_eq!(command_for(k(Key::F(2), false)), EditorCommand::SaveAsPrompt);
    assert_eq!(command_for(k(Key::F(3), false)), EditorCommand::Nothing);
    assert_eq!(command_for(k(Key::Home, true)), EditorCommand::HomeFull);
    assert_eq!(command_for(k(Key::Home, false)), EditorCommand::Home);
    assert_eq!(command_for(k(Key::Other, false)), EditorCommand::Nothing);
    assert_eq!(prompt_command_for(k(Key::Esc, false)), PromptCommand::Cancel);
    assert_eq!(prompt_command_for(k(Key::Enter, false)), PromptCommand::Submit);
    assert_eq!(prompt_command_for(k(Key::Up, false)), PromptCommand::Nothing);
    assert_eq!(prompt_command_for(k(Key::Tab, false)), PromptCommand::Nothing);
}

#[test]
fn app_line_numbers_are_right_aligned() {
    let text = "1\n2\n3\n4\n5\n6\n7\n8\n9\n10";
    let mut app = sized(named("n", text), 20, 12);
    app.update_viewport();
    let lines = app.editor_lines();
    assert_eq!(lines.len(), 10);
    assert_eq!(lines[0], " 1 | 1\r\n");
    assert_eq!(lines[9], "10 | 10\r\n");
    assert_eq!(app.cursor_target(), CursorTarget::Show(5, 0));
}

#[test]
fn app_view_follows_the_cursor() {
    let mut app = sized(named("n", "a\nb\nc\nd\ne\nf\ng\nh"), 20, 12);
    app.handle_event(Event::Key(KeyInput { code: Key::End, control: true, press: true }));
    app.scroll();
    app.update_viewport();
    let lines = app.editor_lines();
    assert_eq!(lines.len(), 7);
    assert_eq!(lines[0], "2 | b\r\n");
    assert_eq!(lines[6], "8 | h\r\n");
    assert_eq!(app.cursor_target(), CursorTarget::Show(5, 6));
}

#[test]
fn app_cursor_hidden_when_out_of_view() {
    let mut app = sized(named("n", "a\nb\nc\nd\ne\nf\ng\nh"), 20, 4);
    app.handle_event(Event::Key(KeyInput { code: Key::End, control: true, press: true }));
    app.scroll();
    app.update_viewport();
    assert!(app.editor_lines().is_empty());
    assert_eq!(app.cursor_target(), CursorTarget::Hide);
}

#[test]
fn app_numbers() {
    assert_eq!(decimal_string(0), "0");
    assert_eq!(decimal_string(7), "7");
    assert_eq!(decimal_string(1234), "1234");
    assert_eq!(count_digits(9), 1);
    assert_eq!(count_digits(10), 2);
    assert_eq!(count_digits(usize::MAX), decimal_string(usize::MAX).len());
}

#[test]
fn app_truncate_to() {
    assert_eq!(truncate_to("hello", 3), "hel");
    assert_eq!(truncate_to("hi", 10), "hi");
    assert_eq!(truncate_to("é!", 2), "é");
}

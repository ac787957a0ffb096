use diffo::theme::{catppuccin_mocha, Ansi};
use diffo::tui::{Focus, Layout, State};
use diffo::tui_editor::{visual_lines, Action, Editor, EditorLayout};
use diffo::tui_input::{KeyCode, KeyEvent, KeyModifiers};
use diffo::tui_text::display_width;

fn key(code: KeyCode) -> KeyEvent {
    KeyEvent::new(code, KeyModifiers::empty())
}

#[test]
fn utf8_insertion_backspace_and_delete() {
    let mut e = Editor::default();
    e.insert("ab架");
    e.key(key(KeyCode::Backspace));
    assert_eq!(e.body, "ab");
    e.key(key(KeyCode::Left));
    e.insert("字");
    e.key(key(KeyCode::Delete));
    assert_eq!(e.body, "a字");
    assert_eq!(e.cursor, 4);
}

#[test]
fn multiline_actions_and_paste_are_not_commands() {
    let mut e = Editor::default();
    e.insert("first");
    assert_eq!(
        e.key(KeyEvent::new(KeyCode::Enter, KeyModifiers::shift_only())),
        Action::Continue
    );
    e.paste("second\r\nq\x1b]52;c;evil\x07");
    assert_eq!(e.body, "first\nsecond\nq");
    assert_eq!(e.key(key(KeyCode::Enter)), Action::Save);
    assert_eq!(e.key(key(KeyCode::Esc)), Action::Cancel);
    assert_eq!(
        e.key(KeyEvent::new(KeyCode::Char('c'), KeyModifiers::control_only())),
        Action::Quit
    );
    let body = e.body.clone();
    assert_eq!(
        e.key(KeyEvent::new(KeyCode::Char('d'), KeyModifiers::control_only())),
        Action::Continue
    );
    assert_eq!(e.body, body);
}

#[test]
fn vertical_arrows_preserve_cell_column() {
    let mut e = Editor::default();
    e.insert("abc\n架de\nxy");
    e.cursor = 7;
    e.vertical(false);
    assert_eq!(e.cursor, 2);
    e.vertical(true);
    assert_eq!(e.cursor, 7);
    e.vertical(true);
    assert_eq!(e.cursor, 12);
}

#[test]
fn editor_docks_and_wraps_cjk_and_empty_tail() {
    let state = State {
        comment_open: true,
        focus: Focus::Editor,
        ..Default::default()
    };
    let l = EditorLayout::new(Layout::new(120, 40).with_panels(&state));
    assert_eq!(
        (l.x, l.y, l.width, l.height, l.content_width, l.body_rows),
        (0, 32, 120, 7, 118, 7)
    );
    let lines = visual_lines("架abc", 3);
    assert_eq!((lines[0].start, lines[0].end, lines[1].start), (0, 4, 4));
    assert_eq!(visual_lines("one\n", 3).len(), 2);
    let rows = visual_lines("abcdefghi", 4);
    assert_eq!(rows.iter().position(|l| l.contains(9)), Some(2));
    assert_eq!(rows.iter().position(|l| l.contains(4)), Some(0));
}

#[test]
fn editor_content_width_is_exact_and_cursor_tracks_tail() {
    let mut e = Editor::default();
    e.insert("架ab\nlast");
    let state = State {
        comment_open: true,
        focus: Focus::Editor,
        ..Default::default()
    };
    let screen = e.draw(
        Layout::new(60, 8).with_panels(&state),
        Ansi {
            enabled: false,
            true_color: false,
        },
        catppuccin_mocha(),
    );
    assert!(screen.contains("架ab"));
    assert!(screen.ends_with("\x1b[?25h"));
    for line in screen.split('H').filter(|s| s.starts_with(' ')) {
        assert_eq!(display_width(line.split('\x1b').next().unwrap()), 60);
    }
    assert!(screen.starts_with("\x1b[6;1H"));
}

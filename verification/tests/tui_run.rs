use diffo::diff::{make_review_target, parse_patch, DiffSnapshot, DiffSource, Repository};
use diffo::store::Store;
use diffo::theme::{catppuccin_mocha, Ansi};
use diffo::tui::{line_height, line_number, Focus, Layout, ReadingPosition, State};
use diffo::tui_comments::{comment_rows, row_has_comment};
use diffo::tui_copy::{copy_line, cursor_label, cursor_position, display_path, file_stats, line_side};
use diffo::tui_editor::Editor;
use diffo::tui_frame::frame_rows;
use diffo::tui_input::{
    Event, KeyCode, KeyEvent, KeyModifiers, MouseEvent, MouseEventKind,
};
use diffo::tui_keys::{comment_anchor, selection_bounds};
use diffo::tui_run::{
    close_editor, copy_notice, editor_event, handle_event, resized, start, CopyMethod, Effect,
};
use diffo::tui_text::display_width;
use diffo::tui_view::{FoldMode, RowKind};

const PATCH: &str = "diff --git a/first.txt b/first.txt\nold mode 100644\nnew mode 100755\ndiff --git a/old.txt b/new.txt\nrename from old.txt\nrename to new.txt\n--- a/old.txt\n+++ b/new.txt\n@@ -1,3 +1,3 @@\n keep\n-gone\n+come\n last";

fn snapshot(patch: &str) -> DiffSnapshot {
    DiffSnapshot {
        snapshot_id: "snapshot".into(),
        repository: Repository {
            root_path: b"repo".to_vec(),
            repo_id: "repo".into(),
            current_branch: "main".into(),
        },
        review_target: make_review_target(&[]),
        files: parse_patch(patch.as_bytes(), DiffSource::Explicit).unwrap(),
    }
}

fn store() -> Store {
    Store::at(Vec::new(), None, None).unwrap()
}

fn key(code: KeyCode) -> Event {
    Event::Key(KeyEvent::new(code, KeyModifiers::empty()))
}

#[test]
fn a_review_starts_at_the_first_file_with_a_change() {
    let shot = snapshot(PATCH);
    let s = start(&shot, Layout::new(80, 24));
    assert_eq!(s.active_file, 1);
    let view = s.file_view(&shot);
    assert_eq!(cursor_position(&view, &s), "old:2");
    assert_eq!(cursor_label(&view, &s), "CODE old:2");
    assert_eq!(display_path(&shot.files[1]), "old.txt -> new.txt");
    assert_eq!(file_stats(&view), "-1 +1");
    assert_eq!((shot.files[1].line_count(), shot.total_lines()), (5, 5));

    let unchanged = snapshot("diff --git a/first.txt b/first.txt\nold mode 100644\nnew mode 100755\n");
    let s = start(&unchanged, Layout::new(80, 24));
    assert_eq!((s.active_file, s.cursor_row, s.scroll_row), (0, 0, 0));
    let view = s.file_view(&unchanged);
    assert_eq!(cursor_position(&view, &s), "file");
    assert_eq!(file_stats(&view), "");
}

#[test]
fn events_ask_the_caller_for_what_they_cannot_do() {
    let shot = snapshot(PATCH);
    let store = store();
    let l = Layout::new(80, 24);
    let mut s = start(&shot, l);
    let mut send = |s: &mut State, event| handle_event(&shot, &store, s, event, 1, l);
    assert_eq!(send(&mut s, key(KeyCode::Char('q'))), Effect::Quit);
    assert_eq!(send(&mut s, key(KeyCode::Char('y'))), Effect::Copy);
    assert_eq!(send(&mut s, key(KeyCode::Char('r'))), Effect::Review(true));
    assert_eq!(send(&mut s, Event::FocusLost), Effect::Continue);
    assert_eq!(send(&mut s, Event::Paste("q".into())), Effect::Continue);
    let row = s.cursor_row;
    assert_eq!(
        send(
            &mut s,
            Event::Mouse(MouseEvent {
                kind: MouseEventKind::ScrollDown,
                column: 0,
                row: 5,
                modifiers: KeyModifiers::empty(),
            })
        ),
        Effect::Continue
    );
    assert!(s.cursor_row >= row);
}

#[test]
fn an_editor_keeps_only_text_and_says_what_became_of_it() {
    let mut editor = Editor::default();
    assert_eq!(
        editor_event(&mut editor, key(KeyCode::Enter)),
        Effect::CloseEditor { save: false }
    );
    assert_eq!(
        editor_event(&mut editor, Event::Paste("a\x1b[31mb".into())),
        Effect::Continue
    );
    assert_eq!(editor.body, "ab");
    assert_eq!(editor_event(&mut editor, Event::FocusGained), Effect::Continue);
    assert_eq!(
        editor_event(&mut editor, key(KeyCode::Enter)),
        Effect::CloseEditor { save: true }
    );
    assert_eq!(
        editor_event(&mut editor, key(KeyCode::Esc)),
        Effect::CloseEditor { save: false }
    );

    let l = Layout::new(80, 24);
    let mut s = State::default();
    s.selection_start = Some(0);
    s.open_comments(Focus::Comments, l);
    assert!(s.comment_open);
    close_editor(&mut s, Some(true), l);
    assert_eq!((s.notice.as_str(), s.comment_open), ("comment added", false));
    assert_eq!(s.selection_start, None);
    close_editor(&mut s, Some(false), l);
    assert_eq!(s.notice, "no diff line in current file");
    close_editor(&mut s, None, l);
    assert_eq!(s.notice, "no diff line in current file");
}

#[test]
fn copies_are_reported_by_the_way_they_went() {
    assert_eq!(
        copy_notice(Some(CopyMethod::System), 1),
        "copied 1 line to clipboard"
    );
    assert_eq!(
        copy_notice(Some(CopyMethod::System), 12),
        "copied 12 lines to clipboard"
    );
    assert!(copy_notice(Some(CopyMethod::Tmux), 3).starts_with("3 lines saved to tmux buffer"));
    assert_eq!(
        copy_notice(Some(CopyMethod::Unavailable), 3),
        "clipboard unavailable; install xclip/wl-copy or enable OSC 52"
    );
    assert_eq!(copy_notice(None, 0), "nothing copyable at cursor");
}

#[test]
fn a_new_size_forgets_places_within_rows() {
    let l = Layout::new(80, 24);
    let mut s = State {
        cursor_row: 3,
        cursor_line: 2,
        scroll_row: 1,
        scroll_line: 4,
        selection_start: Some(2),
        ..State::default()
    };
    let place = ReadingPosition::capture(&s, l);
    resized(&mut s);
    assert_eq!(
        (s.cursor_row, s.cursor_line, s.scroll_row, s.scroll_line, s.selection_start),
        (3, 0, 1, 0, None)
    );
    place.restore(&mut s, l);
    assert_eq!((s.cursor_row, s.cursor_line), (3, 2));
    s.clear_selection();
    assert_eq!(s.selection_start, None);
}

#[test]
fn rows_name_their_lines_sides_and_comments() {
    let shot = snapshot(PATCH);
    let mut store = store();
    let l = Layout::new(80, 24);
    let mut s = start(&shot, l);
    s.fold_mode = FoldMode::Unfold;
    let file = &shot.files[1];
    let lines = &file.hunks[0].lines;
    let copied: Vec<String> = lines.iter().map(copy_line).collect();
    assert_eq!(copied, [" keep", "-gone", "+come", " last"]);
    let sides: Vec<&str> = lines.iter().map(line_side).collect();
    assert_eq!(sides, ["new", "old", "new", "new"]);
    let numbers: Vec<Option<u32>> = lines.iter().map(line_number).collect();
    assert_eq!(numbers, [Some(1), Some(2), Some(2), Some(3)]);
    assert_eq!(line_height(&lines[0], 20, 2), 1);
    assert_eq!(line_height(&lines[0], 4, 2), 3);

    let view = s.file_view(&shot);
    assert_eq!(selection_bounds(&s, view.rows.len()), (s.cursor_row, s.cursor_row));
    let (line, header, end) = comment_anchor(file, &view, &s).unwrap();
    assert_eq!((line.text.as_str(), header, end), ("gone", "@@ -1,3 +1,3 @@", 2));
    let (change, _) = store.add_comment(
        "repo",
        &shot.review_target.target_id,
        file,
        line,
        header,
        end,
        "body",
        "tester",
        "2026-01-01T00:00:00Z",
    );
    store.apply_comments(change, true).unwrap();
    assert_eq!(store.all_comment_count(Some("new.txt")), 1);
    assert_eq!(store.all_comment_count(Some("old.txt")), 0);
    let target = &shot.review_target.target_id;
    let marked: Vec<usize> = (0..view.rows.len())
        .filter(|&i| row_has_comment(&view.rows[i], &store.comments[0], file, target))
        .collect();
    assert_eq!(marked, [s.cursor_row]);
    let rows = comment_rows(&shot, &store, &view, &s, 60);
    assert!(rows.iter().any(|r| r.contains("body")));
    s.selection_start = Some(s.cursor_row + 1);
    assert_eq!(
        selection_bounds(&s, view.rows.len()),
        (s.cursor_row, s.cursor_row + 1)
    );
    assert_eq!(cursor_label(&view, &s), "SELECT 2 rows  old:2");
    assert_eq!(view.rows[0].clone_row().kind, RowKind::FileHeader);
}

#[test]
fn a_frame_has_a_row_for_each_line_of_the_screen() {
    let shot = snapshot(PATCH);
    let store = store();
    let plain = Ansi {
        enabled: false,
        true_color: false,
    };
    for (width, height) in [(40, 8), (80, 24), (120, 30)] {
        let l = Layout::new(width, height);
        let mut s = start(&shot, l);
        let l = l.with_panels(&s);
        let rows = frame_rows(&shot, &store, &mut s, l, plain, catppuccin_mocha(), &Vec::new());
        assert_eq!(rows.len(), height);
        assert!(rows.iter().all(|r| display_width(r) == width));
        assert!(rows.iter().any(|r| r.contains("come")));
    }
}

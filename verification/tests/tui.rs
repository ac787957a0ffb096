use base64::engine::general_purpose::STANDARD;
use base64::Engine;
use diffo::diff::{
    make_review_target, parse_patch, DiffLineKind, DiffSnapshot, DiffSource, Repository,
};
use diffo::git::FileSide;
use diffo::inline_diff::Range;
use diffo::store::Store;
use diffo::syntax_cache::{compute_outcome, SyntaxCache};
use diffo::syntax_query::{compile, CompiledQuery};
use diffo::theme::{self, Ansi};
use diffo::tui::{row_height, wrap_widths, Focus, Layout, ReadingPosition, State};
use diffo::tui_comments::{add_comment, comment_matches, comment_target_label};
use diffo::tui_copy::{osc52, selected_text};
use diffo::tui_frame::Renderer;
use diffo::tui_geometry::{visual_position, KnownHeights, ViewRows};
use diffo::tui_input::{
    KeyCode, KeyEvent, KeyEventKind, KeyModifiers, MouseButton, MouseEvent, MouseEventKind,
};
use diffo::tui_keys::{handle_key, handle_mouse, KeyAction};
use diffo::tui_nav::{
    center, ensure_visible, file_tree_start, first_change, height_between, move_index, move_visual,
    row_at_offset, toggle_folds,
};
use diffo::tui_render::{Canvas, RowHighlight};
use diffo::tui_screen::Screen;
use diffo::tui_style::{apply_inline, inline_bg, style_cell};
use diffo::tui_text::{display_width, plain_text};
use diffo::tui_view::{FileView, FoldMode, RowKind, ViewMode};
use diffo::tui_wrap::wrap_ansi;
use std::sync::Arc;

const PATCH: &str = "diff --git a/sample.txt b/sample.txt\n--- a/sample.txt\n+++ b/sample.txt\n@@ -1,2 +1,4 @@\n keep\n-old\n+new\n+three\n+four\n";
const ANSI: Ansi = Ansi {
    enabled: true,
    true_color: true,
};
const PLAIN: Ansi = Ansi {
    enabled: false,
    true_color: false,
};
struct Fixture {
    snapshot: DiffSnapshot,
    store: Store,
}
impl Fixture {
    fn new(patch: &str) -> Self {
        let store = Store::at(Vec::new(), None, None).unwrap();
        let snapshot = DiffSnapshot {
            snapshot_id: "test-snapshot".into(),
            repository: Repository {
                root_path: b"repo".to_vec(),
                repo_id: "test-repo".into(),
                current_branch: "main".into(),
            },
            review_target: make_review_target(&[]),
            files: parse_patch(patch.as_bytes(), DiffSource::Untracked).unwrap(),
        };
        Self { snapshot, store }
    }
    fn renderer(&self, ansi: Ansi) -> Renderer {
        Renderer {
            cache: SyntaxCache::default(),
            ansi,
            palette: theme::catppuccin_mocha(),
            screen: Screen::default(),
        }
    }
    fn draw(
        &self,
        renderer: &Renderer,
        state: &State,
        view: &FileView<'_>,
        index: usize,
        width: usize,
    ) -> Vec<String> {
        let canvas = Canvas {
            file: &self.snapshot.files[state.active_file],
            store: &self.store,
            target: &self.snapshot.review_target.target_id,
            view,
            state,
            ansi: renderer.ansi,
            palette: renderer.palette,
        };
        let plain = RowHighlight {
            line: None,
            left: None,
            right: None,
        };
        canvas.row(index, width, &plain)
    }
    fn row(&self, state: &State, text: &str) -> usize {
        state
            .file_view(&self.snapshot)
            .rows
            .iter()
            .position(|r| r.comment_line().is_some_and(|l| l.text == text))
            .unwrap()
    }
    fn key(&mut self, state: &mut State, code: KeyCode, layout: Layout) -> KeyAction {
        let action = handle_key(
            &self.snapshot,
            &self.store,
            state,
            KeyEvent::new(code, KeyModifiers::empty()),
            layout,
        );
        if let KeyAction::Review(reviewed) = action {
            let change = self.store.set_reviewed(
                &self.snapshot.repository.repo_id,
                &self.snapshot.review_target.target_id,
                &self.snapshot.files[state.active_file],
                reviewed,
                "2026-01-01T00:00:00Z",
            );
            self.store.apply_states(change, true).unwrap();
        }
        action
    }
    fn add_comment(&mut self, state: &State, body: &str, author: &str) -> bool {
        let now = "2026-01-01T00:00:00Z";
        match add_comment(&self.snapshot, &self.store, state, body, author, now) {
            Some((change, _)) => {
                self.store.apply_comments(change, true).unwrap();
                true
            }
            None => false,
        }
    }
    fn reload(&self) -> Store {
        let (comments, states) = self.store.save();
        Store::at(Vec::new(), Some(comments), Some(states)).unwrap()
    }
}
fn long_patch(count: usize, changes: &[usize]) -> String {
    let mut patch = format!(
        "diff --git a/sample.txt b/sample.txt\n--- a/sample.txt\n+++ b/sample.txt\n@@ -1,{count} +1,{count} @@\n"
    );
    for n in 1..=count {
        if changes.contains(&n) {
            patch.push_str(&format!("-line {n}\n+line {n} changed\n"));
        } else {
            patch.push_str(&format!(" line {n}\n"));
        }
    }
    patch
}

#[test]
fn layout_status_body_footer_and_sidebar_boundaries() {
    let l = Layout::new(100, 20);
    assert_eq!(
        (l.body_height, l.main_width, l.sidebar_width, l.main_x),
        (18, 100, 0, 0)
    );
    let mut s = State {
        sidebar_open: true,
        ..State::default()
    };
    assert_eq!(Layout::new(89, 20).with_panels(&s).sidebar_width, 0);
    let wide = Layout::new(120, 20).with_panels(&s);
    assert_eq!(
        (wide.sidebar_width, wide.main_x, wide.main_width),
        (30, 31, 89)
    );
    assert_eq!(Layout::new(300, 20).with_panels(&s).sidebar_width, 34);
    s.focus = Focus::Files;
    let narrow = l.with_panels(&s);
    assert!(narrow.sidebar_overlay);
    assert_eq!(
        (narrow.sidebar_width, narrow.main_width, narrow.main_x),
        (100, 100, 0)
    );
    s.focus = Focus::Comments;
    s.comment_open = true;
    let dock = l.with_panels(&s);
    assert_eq!(
        (dock.body_height, dock.dock_y, dock.dock_height),
        (12, 13, 6)
    );
    assert_eq!(file_tree_start(20, 0, 5), 0);
    assert_eq!(file_tree_start(20, 3, 5), 0);
    assert_eq!(file_tree_start(20, 4, 5), 1);
    assert_eq!(file_tree_start(20, 4, 1), 0);
    assert_eq!(move_index(0, 0, 1, false), 0);
    assert_eq!(move_index(2, 4, isize::MAX as usize, true), 3);
}

#[test]
fn file_picker_selects_without_opening_and_returns_to_code() {
    let patch = format!(
        "{}{}",
        PATCH,
        PATCH
            .replace("sample.txt", "other.txt")
            .replace("+new", "+candidate body")
    );
    let mut f = Fixture::new(&patch);
    let mut s = State::default();
    let l = Layout::new(120, 24);
    s.cursor_row = f.row(&s, "three");
    let cursor = s.cursor_row;
    f.key(&mut s, KeyCode::Tab, l);
    f.key(&mut s, KeyCode::Down, l);
    assert_eq!((s.active_file, s.file_cursor, s.cursor_row), (0, 1, cursor));
    let screen = f
        .renderer(PLAIN)
        .frame(&f.snapshot, &f.store, &mut s, l, false);
    assert!(screen.contains("FILES"));
    assert!(!screen.contains("candidate body"));
    assert_eq!(
        screen.lines().filter(|line| line.starts_with('>')).count(),
        1
    );
    f.key(&mut s, KeyCode::Enter, l);
    assert_eq!((s.active_file, s.focus), (1, Focus::Code));
    assert!(s.sidebar_open);
    f.key(&mut s, KeyCode::Esc, l);
    assert!(!s.sidebar_open);
    let small = Layout::new(80, 24);
    f.key(&mut s, KeyCode::Tab, small);
    assert!(small.with_panels(&s).sidebar_overlay);
    f.key(&mut s, KeyCode::Up, small);
    assert_eq!(s.active_file, 1);
    f.key(&mut s, KeyCode::Enter, small);
    assert_eq!(s.active_file, 0);
    assert_eq!(s.cursor_row, cursor);
    assert!(!s.sidebar_open);
}

#[test]
fn returning_to_a_file_restores_cursor_scroll_layout_and_folds() {
    let patch = long_patch(160, &[40, 120]);
    let mut f = Fixture::new(&format!(
        "{patch}{}",
        patch.replace("sample.txt", "other.txt")
    ));
    let mut s = State {
        mode: ViewMode::Split,
        fold_mode: FoldMode::Fold,
        ..State::default()
    };
    let l = Layout::new(140, 20);
    f.key(&mut s, KeyCode::Char('Z'), l);
    s.cursor_row = f.row(&s, "line 70");
    let view = s.file_view(&f.snapshot);
    center(&view, &mut s, l);
    let expected = ReadingPosition::capture(&s, l);
    s.selection_start = Some(s.cursor_row - 1);
    f.key(&mut s, KeyCode::Char('J'), l);
    assert_eq!(s.selection_start, None);
    f.key(&mut s, KeyCode::Char('v'), l);
    f.key(&mut s, KeyCode::Char('C'), l);
    f.key(&mut s, KeyCode::End, l);
    let other = ReadingPosition::capture(&s, l);
    f.key(&mut s, KeyCode::Char('K'), l);
    assert_eq!((s.cursor_row, s.cursor_line), expected.cursor);
    assert_eq!((s.scroll_row, s.scroll_line), expected.scroll);
    assert_eq!((s.mode, s.fold_mode), (expected.mode, expected.fold_mode));
    assert_eq!(
        s.file_view(&f.snapshot).rows[s.cursor_row]
            .comment_line()
            .unwrap()
            .text,
        "line 70"
    );
    f.key(&mut s, KeyCode::Char('J'), l);
    assert_eq!((s.cursor_row, s.cursor_line), other.cursor);
    assert_eq!((s.scroll_row, s.scroll_line), other.scroll);
    assert_eq!((s.mode, s.fold_mode), (other.mode, other.fold_mode));
    f.key(&mut s, KeyCode::Char('K'), Layout::new(80, 12));
    assert_eq!(s.cursor_row, expected.cursor.0);
    assert_eq!(s.cursor_line, 0);
    assert!(f.store.comments.is_empty());
}

#[test]
fn closing_comments_restores_the_viewport_and_keeps_the_anchor() {
    let mut f = Fixture::new(&long_patch(100, &[80]));
    let l = Layout::new(100, 20);
    let mut s = State::default();
    s.cursor_row = f.row(&s, "line 80 changed");
    s.scroll_row = s.cursor_row - (l.body_height - 1);
    let original = ReadingPosition::capture(&s, l);
    f.key(&mut s, KeyCode::Enter, l);
    assert_eq!(s.focus, Focus::Comments);
    f.renderer(PLAIN)
        .frame(&f.snapshot, &f.store, &mut s, l, false);
    assert!(s.scroll_row > original.scroll.0);
    f.key(&mut s, KeyCode::End, l);
    assert_eq!(s.cursor_row, original.cursor.0);
    f.key(&mut s, KeyCode::Esc, l);
    assert_eq!((s.scroll_row, s.scroll_line), original.scroll);
    s.selection_start = Some(s.cursor_row - 2);
    assert_eq!(f.key(&mut s, KeyCode::Char('c'), l), KeyAction::Comment);
    assert_eq!(s.focus, Focus::Editor);
    let view = s.file_view(&f.snapshot);
    assert!(comment_target_label(&f.snapshot.files[0], &view, &s).contains('-'));
    assert!(s.selection_start.is_some());
    assert_eq!(s.cursor_row, original.cursor.0);
}

#[test]
fn panels_and_dock_frames_fit_narrow_short_and_wide_terminals() {
    let mut f = Fixture::new(PATCH);
    for width in [1, 19, 40, 60, 80, 100, 112, 160] {
        for height in [3, 6, 7, 12, 24] {
            for focus in [Focus::Code, Focus::Files, Focus::Comments, Focus::Editor] {
                let mut s = State {
                    sidebar_open: true,
                    comment_open: true,
                    focus,
                    ..State::default()
                };
                s.cursor_row = f.row(&s, "new");
                let base = Layout::new(width, height);
                let l = base.with_panels(&s);
                assert_eq!(l.body_height + l.dock_height + 2, l.height);
                assert_eq!(l.dock_y, l.body_height + 1);
                assert_eq!(l.main_x + l.main_width, l.width);
                let frame = f
                    .renderer(PLAIN)
                    .frame(&f.snapshot, &f.store, &mut s, base, false);
                assert_eq!(frame.lines().count(), height);
                assert!(
                    frame.lines().all(|line| display_width(line) == width),
                    "{width}x{height}, {focus:?}"
                );
                assert!(!frame.contains('\x1b'));
                if width >= 19 {
                    let hint = match focus {
                        Focus::Code => "? help",
                        Focus::Editor => "Esc cancel",
                        _ => "Esc close",
                    };
                    assert!(
                        frame.lines().last().unwrap().ends_with(hint),
                        "{width}x{height}: {hint}"
                    );
                }
            }
        }
    }
    let mut s = State::default();
    s.cursor_row = f.row(&s, "new");
    assert_eq!(
        f.key(&mut s, KeyCode::Char('c'), Layout::new(19, 6)),
        KeyAction::Continue
    );
    assert!(!s.comment_open);
    assert!(s.notice.contains("enlarge"));
    s.help = true;
    f.key(&mut s, KeyCode::PageDown, Layout::new(80, 8));
    let screen = f
        .renderer(PLAIN)
        .frame(&f.snapshot, &f.store, &mut s, Layout::new(80, 8), false);
    assert!(s.help_scroll > 0);
    assert!(screen.contains("HELP  j/k scroll"));
}


#[test]
fn cursor_moves_before_viewport_and_does_not_scroll_on_redraw() {
    let mut f = Fixture::new(&long_patch(60, &[30]));
    let l = Layout::new(80, 12);
    let mut s = State::default();
    f.key(&mut s, KeyCode::Down, l);
    assert_eq!(s.cursor_row, 1);
    assert_eq!((s.scroll_row, s.scroll_line), (0, 0));
    move_visual(&f.snapshot, &mut s, 3, true, l);
    assert_eq!(s.cursor_row, 4);
    assert_eq!((s.scroll_row, s.scroll_line), (0, 0));
    for _ in 0..6 {
        f.key(&mut s, KeyCode::Char('j'), l);
    }
    assert_eq!(s.cursor_row, 10);
    assert_eq!((s.scroll_row, s.scroll_line), (1, 0));
    f.key(&mut s, KeyCode::Char('k'), l);
    assert_eq!((s.scroll_row, s.scroll_line), (1, 0));
    let view = s.file_view(&f.snapshot);
    s.cursor_row = view.rows.len() - 2;
    center(&view, &mut s, l);
    let scroll = (s.scroll_row, s.scroll_line);
    let cursor = s.cursor_row;
    f.renderer(PLAIN)
        .frame(&f.snapshot, &f.store, &mut s, l, false);
    assert_eq!((s.scroll_row, s.scroll_line), scroll);
    f.key(&mut s, KeyCode::Char('V'), l);
    assert_eq!((s.scroll_row, s.scroll_line), scroll);
    f.key(&mut s, KeyCode::Char('J'), l);
    assert_eq!(s.cursor_row, cursor);
    assert!(s.selection_start.is_some());
}

#[test]
fn page_navigation_uses_screen_height_and_wrapped_positions() {
    let mut f = Fixture::new(&long_patch(100, &[80]));
    for height in [8, 12, 24] {
        let l = Layout::new(80, height);
        let mut s = State {
            cursor_row: 1,
            ..State::default()
        };
        f.key(&mut s, KeyCode::PageDown, l);
        assert_eq!(s.cursor_row, l.body_height);
        f.key(&mut s, KeyCode::PageUp, l);
        assert_eq!((s.cursor_row, s.cursor_line), (1, 0));
    }
    let mut f = Fixture::new(&PATCH.replace("+new", &format!("+{}TAIL", "word ".repeat(250))));
    for mode in [ViewMode::Stacked, ViewMode::Split] {
        let l = Layout::new(40, 8);
        let mut s = State {
            mode,
            ..State::default()
        };
        s.cursor_row = s
            .file_view(&f.snapshot)
            .rows
            .iter()
            .position(|row| {
                row.comment_line()
                    .is_some_and(|line| line.text.ends_with("TAIL"))
            })
            .unwrap();
        let row = s.cursor_row;
        f.key(&mut s, KeyCode::PageDown, l);
        assert_eq!((s.cursor_row, s.cursor_line), (row, l.body_height - 1));
        f.key(&mut s, KeyCode::PageDown, l);
        assert_eq!(
            (s.cursor_row, s.cursor_line),
            (row, 2 * (l.body_height - 1))
        );
        assert!(s.scroll_line > 0);
        let frame = f
            .renderer(PLAIN)
            .frame(&f.snapshot, &f.store, &mut s, l, false);
        assert_eq!(
            frame.lines().filter(|line| line.starts_with("> ")).count(),
            1
        );
        f.key(&mut s, KeyCode::PageUp, l);
        f.key(&mut s, KeyCode::PageUp, l);
        assert_eq!((s.cursor_row, s.cursor_line), (row, 0));
    }
}

#[test]
fn cursor_and_selection_have_distinct_markers_without_color() {
    let mut f = Fixture::new(PATCH);
    let l = Layout::new(100, 12);
    let mut s = State::default();
    s.cursor_row = f.row(&s, "new");
    let start = s.cursor_row;
    assert!(!s.selected(start));
    for ansi in [PLAIN, ANSI] {
        let mut renderer = f.renderer(ansi);
        let view = s.file_view(&f.snapshot);
        let row = f.draw(&renderer, &s, &view, start, l.main_width);
        assert!(plain_text(&row[0]).starts_with("> "));
    }
    f.key(&mut s, KeyCode::Char('V'), l);
    f.key(&mut s, KeyCode::Char('j'), l);
    let view = s.file_view(&f.snapshot);
    let mut renderer = f.renderer(PLAIN);
    assert!(
        f.draw(&renderer, &s, &view, start, l.main_width)[0]
            .starts_with("| ")
    );
    assert!(
        f.draw(&renderer, &s, &view, s.cursor_row, l.main_width)[0]
            .starts_with("> ")
    );
    assert!(
        renderer
            .frame(&f.snapshot, &f.store, &mut s, l, false)
            .contains("SELECT 2 rows")
    );
    assert_eq!(selected_text(&f.snapshot, &s), ("+new\n+three".into(), 2));
    f.key(&mut s, KeyCode::Char('V'), l);
    assert_eq!(s.selection_start, None);
    assert!(
        renderer
            .frame(&f.snapshot, &f.store, &mut s, l, false)
            .contains("CODE new:3")
    );
    f.key(&mut s, KeyCode::Home, l);
    assert_eq!(f.key(&mut s, KeyCode::Char('c'), l), KeyAction::Continue);
    assert_eq!(s.notice, "select a code line to comment");
    assert!(f.store.comments.is_empty());
    let view = s.file_view(&f.snapshot);
    assert!(
        f.draw(&renderer, &s, &view, 0, l.main_width)[0]
            .starts_with("> ")
    );
}

#[test]
fn layout_and_fold_changes_keep_the_cursor_source_position() {
    let mut f = Fixture::new(&long_patch(100, &[10, 30, 70]));
    let l = Layout::new(100, 20);
    for text in ["line 30 changed", "line 65"] {
        let mut s = State::default();
        s.cursor_row = f.row(&s, text);
        let id = s.file_view(&f.snapshot).rows[s.cursor_row]
            .comment_line()
            .unwrap()
            .stable_line_id
            .clone();
        for _ in 0..2 {
            f.key(&mut s, KeyCode::Char('v'), l);
            assert_eq!(
                s.file_view(&f.snapshot).rows[s.cursor_row]
                    .comment_line()
                    .unwrap()
                    .stable_line_id,
                id
            );
        }
    }
    let mut s = State::default();
    s.cursor_row = f.row(&s, "line 50");
    f.key(&mut s, KeyCode::Char('C'), l);
    let row = s.file_view(&f.snapshot).rows[s.cursor_row].clone();
    assert_eq!(row.kind, RowKind::Fold);
    assert!(row.fold_lines.iter().any(|line| line.text == "line 50"));
    let id = row.fold_id;
    f.key(&mut s, KeyCode::Char('v'), l);
    assert_eq!(s.file_view(&f.snapshot).rows[s.cursor_row].fold_id, id);
    f.key(&mut s, KeyCode::Char('z'), l);
    assert_eq!(s.file_view(&f.snapshot).rows[s.cursor_row].fold_id, id);
    s.cursor_row = f.row(&s, "line 70 changed");
    f.key(&mut s, KeyCode::Char('Z'), l);
    assert_eq!(
        s.file_view(&f.snapshot).rows[s.cursor_row]
            .comment_line()
            .unwrap()
            .text,
        "line 70 changed"
    );
}

#[test]
fn selection_only_previews_comments_at_the_cursor() {
    let mut f = Fixture::new(PATCH);
    let mut s = State::default();
    let l = Layout::new(80, 12);
    s.cursor_row = f.row(&s, "new");
    f.add_comment(&s, "preview", "tester");
    let start = s.cursor_row;
    f.key(&mut s, KeyCode::Char('V'), l);
    f.key(&mut s, KeyCode::Char('j'), l);
    let view = s.file_view(&f.snapshot);
    assert!(s.selected(start));
    assert_eq!(row_height(&view, start, l), 1);
    let row = f.draw(&f.renderer(PLAIN), &s, &view, start, l.main_width);
    assert_eq!(row.len(), 1);
    assert!(!row[0].contains("preview"));
    f.key(&mut s, KeyCode::Enter, l);
    let frame = f
        .renderer(PLAIN)
        .frame(&f.snapshot, &f.store, &mut s, l, false);
    assert!(frame.contains("COMMENTS  new:3"));
    assert!(!frame.contains("preview"));
}

#[test]
fn word_wrap_prefers_words_code_delimiters_and_assignment() {
    for (text, first, continuation, expected) in [
        ("abcdefghi", 4, 3, vec!["abcd", "efg", "hi"]),
        ("alpha beta gamma", 12, 12, vec!["alpha beta", "gamma"]),
        ("call(alpha,beta)", 11, 11, vec!["call(alpha,", "beta)"]),
        (
            "const value = call()",
            14,
            14,
            vec!["const value =", "call()"],
        ),
        ("架abc", 3, 3, vec!["架a", "bc"]),
        ("", 3, 3, vec![""]),
    ] {
        assert_eq!(wrap_ansi(text, first, continuation), expected);
    }
    assert_eq!(wrap_widths(80, 8, "    code"), (72, 67, 13));
    assert_eq!(
        wrap_widths(21, 8, &format!("{}code", " ".repeat(40))),
        (13, 1, 20)
    );
    assert_eq!(wrap_widths(80, 8, "\tcode"), (72, 67, 13));
}

#[test]
fn wrap_retains_syntax_on_continuations_and_strips_injection() {
    let rows = wrap_ansi("\x1b[31mabcdef\x1b[0m", 3, 3);
    assert_eq!(rows[0], "\x1b[31mabc");
    assert_eq!(rows[1], "\x1b[31mdef\x1b[0m");
    assert_eq!(
        plain_text("safe\x1b]52;c;ZXZpbA==\x07\x1b[2J\x1b[31m!\x1b[0m\tend"),
        "safe! end"
    );
    let rows = wrap_ansi("e\u{301}架", 1, 1);
    assert_eq!(rows.len(), 2);
    assert_eq!(plain_text(&rows[0]), "e\u{301}");
}

#[test]
fn inline_background_survives_resets_and_unicode_boundaries() {
    let p = theme::catppuccin_mocha();
    let inline = inline_bg(false, DiffLineKind::Delete);
    let text = apply_inline(
        "\x1b[31m架old\x1b[0mValue",
        &[Range { start: 0, end: 11 }],
        ANSI,
        p.diff_del_bg,
        inline,
    );
    let code = ANSI.bg(inline);
    assert!(text.matches(&code).count() >= 2);
    let styled = style_cell(&text, 30, ANSI, p.diff_del_bg, p.diff_del_fg);
    assert!(styled.contains(&format!(
        "\x1b[0m{}{}{}",
        ANSI.bg(p.diff_del_bg),
        ANSI.fg(p.diff_del_fg),
        code
    )));
    assert_eq!(display_width(&styled), 30);
    assert_eq!(plain_text(&styled).trim_end(), "架oldValue");
    let unchanged = apply_inline(
        "abc",
        &[Range { start: 0, end: 1 }],
        PLAIN,
        p.diff_del_bg,
        inline,
    );
    assert_eq!(unchanged, "abc");
}

#[test]
fn selected_stacked_and_split_text_are_patch_text() {
    let f = Fixture::new(PATCH);
    let mut s = State::default();
    s.selection_start = Some(f.row(&s, "old"));
    s.cursor_row = f.row(&s, "new");
    assert_eq!(selected_text(&f.snapshot, &s), ("-old\n+new".into(), 2));
    s.mode = ViewMode::Split;
    s.selection_start = None;
    s.cursor_row = f.row(&s, "new");
    assert_eq!(selected_text(&f.snapshot, &s), ("-old\n+new".into(), 2));
    s.cursor_row = f.row(&s, "keep");
    assert_eq!(selected_text(&f.snapshot, &s), (" keep".into(), 1));
    s.cursor_row = 0;
    assert_eq!(selected_text(&f.snapshot, &s).0, "sample.txt (-1 +3)");
}

#[test]
fn copy_and_osc52_cannot_execute_source_sequences() {
    let f = Fixture::new(&PATCH.replace("+new", "+new\x1b]52;c;evil\x07\x1b[2J"));
    let mut s = State::default();
    s.cursor_row = s
        .file_view(&f.snapshot)
        .rows
        .iter()
        .position(|r| r.line.is_some_and(|l| l.kind == DiffLineKind::Add))
        .unwrap();
    let (text, _) = selected_text(&f.snapshot, &s);
    assert_eq!(text, "+new");
    let sequence = osc52(&text);
    let encoded = sequence
        .strip_prefix("\x1b]52;c;")
        .unwrap()
        .strip_suffix('\x07')
        .unwrap();
    assert_eq!(STANDARD.decode(encoded).unwrap(), b"+new");
}

#[test]
fn keyboard_edges_prefixes_help_selection_and_release() {
    let mut f = Fixture::new(PATCH);
    let mut s = State::default();
    let l = Layout::new(80, 12);
    f.key(&mut s, KeyCode::Char('G'), l);
    assert_eq!(s.cursor_row, s.file_view(&f.snapshot).rows.len() - 1);
    f.key(&mut s, KeyCode::Char('g'), l);
    assert_eq!(s.pending, Some('g'));
    f.key(&mut s, KeyCode::Char('g'), l);
    assert_eq!(s.cursor_row, 0);
    f.key(&mut s, KeyCode::Char('V'), l);
    f.key(&mut s, KeyCode::Down, l);
    assert_eq!(s.selection_start, Some(0));
    assert_eq!(s.cursor_row, 1);
    f.key(&mut s, KeyCode::Esc, l);
    assert_eq!(s.selection_start, None);
    s.help = true;
    s.selection_start = Some(0);
    s.notice = "copied".into();
    s.pending = Some('g');
    f.key(&mut s, KeyCode::Char('x'), l);
    assert_eq!(s.cursor_row, 1);
    assert!(!s.help);
    assert_eq!(s.selection_start, Some(0));
    assert_eq!(s.pending, None);
    assert!(s.notice.is_empty());
    let release = KeyEvent {
        kind: KeyEventKind::Release,
        ..KeyEvent::new(KeyCode::Char('q'), KeyModifiers::empty())
    };
    assert_eq!(
        handle_key(&f.snapshot, &f.store, &mut s, release, l),
        KeyAction::Continue
    );
    assert_eq!(f.key(&mut s, KeyCode::Char('y'), l), KeyAction::Copy);
    assert_eq!(f.key(&mut s, KeyCode::Char('c'), l), KeyAction::Comment);
    assert_eq!(f.key(&mut s, KeyCode::Char('q'), l), KeyAction::Quit);
}

#[test]
fn layout_changes_clear_selection_not_folds_in_unfold_mode() {
    let mut f = Fixture::new(&long_patch(30, &[20]));
    let mut s = State::default();
    let l = Layout::new(80, 12);
    s.selection_start = Some(1);
    f.key(&mut s, KeyCode::Char('z'), l);
    assert_eq!(s.selection_start, Some(1));
    assert!(s.folds.is_empty());
    f.key(&mut s, KeyCode::Char('v'), l);
    assert_eq!(s.mode, ViewMode::Split);
    assert_eq!(s.selection_start, None);
    s.selection_start = Some(1);
    f.key(&mut s, KeyCode::Char('C'), l);
    assert_eq!(s.fold_mode, FoldMode::Fold);
    assert_eq!(s.selection_start, None);
    assert!(
        s.file_view(&f.snapshot)
            .rows
            .iter()
            .any(|r| r.kind == RowKind::Fold)
    );
    f.key(&mut s, KeyCode::Char('C'), l);
    assert!(
        s.file_view(&f.snapshot)
            .rows
            .iter()
            .all(|r| r.kind != RowKind::Fold)
    );
}

#[test]
fn comment_selection_persists_both_directions_without_nearest_line_fallback() {
    for reverse in [false, true] {
        let mut f = Fixture::new(PATCH);
        let mut s = State::default();
        let start = f.row(&s, "new");
        let end = f.row(&s, "four");
        s.selection_start = Some(if reverse { end } else { start });
        s.cursor_row = if reverse { start } else { end };
        assert!(f.add_comment(&s, "first\nsecond", "tester"));
        let saved = f.reload();
        assert_eq!(saved.comments.len(), 1);
        let comment = &saved.comments[0];
        assert_eq!((comment.start_line, comment.end_line), (2, 4));
        assert_eq!(comment.body, "first\nsecond");
        for row in &s.file_view(&f.snapshot).rows {
            if let Some(line) = row.comment_line() {
                assert!(!comment_matches(
                    comment,
                    &f.snapshot.files[0],
                    line,
                    "other-target"
                ));
                if ["new", "three", "four"].contains(&line.text.as_str()) {
                    assert!(comment_matches(
                        comment,
                        &f.snapshot.files[0],
                        line,
                        &f.snapshot.review_target.target_id
                    ));
                }
            }
        }
        s.cursor_row = 0;
        s.selection_start = None;
        assert!(
            !f.add_comment(&s, "header comment", "tester")
        );
        assert_eq!(f.store.comments.len(), 1);
    }
}

#[test]
fn comments_only_render_in_the_dock_and_do_not_change_code_geometry() {
    let mut f = Fixture::new(PATCH);
    let mut s = State::default();
    let l = Layout::new(80, 12);
    s.cursor_row = f.row(&s, "new");
    f.add_comment(&s, "history body\nsecond line",
        "tester");
    let view = s.file_view(&f.snapshot);
    let mut renderer = f.renderer(PLAIN);
    let rendered = f.draw(&renderer, &s, &view, s.cursor_row, l.main_width);
    assert_eq!(
        rendered.len(),
        row_height(&view, s.cursor_row, l)
    );
    assert_eq!(rendered.len(), 1);
    assert!(rendered[0].contains('!'));
    let offset = height_between(&ViewRows { view: &view, layout: l }, s.scroll_row, s.cursor_row);
    assert_eq!(
        row_at_offset(&view, &s, offset + 1, l),
        (s.cursor_row + 1, 0)
    );
    let screen = renderer
        .frame(&f.snapshot, &f.store, &mut s, l, false);
    assert!(!screen.contains("history body"));
    let cursor = s.cursor_row;
    f.key(&mut s, KeyCode::Enter, l);
    assert_eq!(s.focus, Focus::Comments);
    let screen = renderer
        .frame(&f.snapshot, &f.store, &mut s, l, false);
    let dock = l.with_panels(&s);
    assert_eq!(s.cursor_row, cursor);
    assert!(
        screen
            .lines()
            .nth(dock.dock_y)
            .unwrap()
            .contains("COMMENTS  new:2")
    );
    assert!(
        screen
            .lines()
            .nth(dock.dock_y + 1)
            .unwrap()
            .contains("tester [exact]")
    );
    assert!(screen.contains("history body"));
    f.key(&mut s, KeyCode::Char('j'), l);
    assert_eq!(s.cursor_row, cursor);
    f.key(&mut s, KeyCode::Esc, l);
    assert!(!s.comment_open);
    s.cursor_row = 0;
    assert!(
        !renderer
            .frame(&f.snapshot, &f.store, &mut s, l, false)
            .contains("history body")
    );
}

#[test]
fn first_change_navigation_centers_both_directions() {
    let mut f = Fixture::new(&long_patch(40, &[8, 20, 32]));
    let mut s = State::default();
    let l = Layout::new(80, 12);
    assert!(first_change(&f.snapshot, &mut s, l));
    let changes = s.file_view(&f.snapshot).changes;
    assert_eq!(s.cursor_row, changes[0].start_row);
    f.key(&mut s, KeyCode::Char('n'), l);
    assert_eq!(s.cursor_row, changes[1].start_row);
    assert_eq!(s.scroll_row, s.cursor_row - 5);
    f.key(&mut s, KeyCode::Char('n'), l);
    f.key(&mut s, KeyCode::Char('p'), l);
    assert_eq!(s.cursor_row, changes[1].start_row);
    assert_eq!(s.scroll_row, s.cursor_row - 5);
    let view = s.file_view(&f.snapshot);
    s.cursor_row = view.rows.len() - 2;
    center(&view, &mut s, l);
    assert_eq!(s.scroll_row, s.cursor_row - 5);
}

#[test]
fn file_navigation_review_and_unreviewed_are_persistent() {
    let patch = format!("{}{}", PATCH, PATCH.replace("sample.txt", "other.txt"));
    let mut f = Fixture::new(&patch);
    let mut s = State::default();
    let l = Layout::new(100, 12);
    s.selection_start = Some(0);
    f.key(&mut s, KeyCode::Char('J'), l);
    assert_eq!(s.active_file, 1);
    assert_eq!(s.selection_start, None);
    assert_eq!(s.cursor_row, s.file_view(&f.snapshot).changes[0].start_row);
    f.key(&mut s, KeyCode::Char('K'), l);
    f.key(&mut s, KeyCode::Char('r'), l);
    let file = &f.snapshot.files[0];
    let saved = f.reload();
    assert!(saved.is_reviewed(
        &file.path,
        &file.patch_fingerprint,
        &f.snapshot.review_target.target_id
    ));
    f.key(&mut s, KeyCode::Char('u'), l);
    assert_eq!(s.active_file, 1);
    f.key(&mut s, KeyCode::Char('['), l);
    f.key(&mut s, KeyCode::Char('f'), l);
    assert_eq!(s.active_file, 0);
}

#[test]
fn fold_toggle_keeps_cursor_on_fold_and_collapses_from_its_context() {
    for mode in [ViewMode::Stacked, ViewMode::Split] {
        let mut f = Fixture::new(&long_patch(130, &[118]));
        let l = Layout::new(80, 24);
        let mut s = State {
            mode,
            fold_mode: FoldMode::Fold,
            ..State::default()
        };
        f.key(&mut s, KeyCode::Char('z'), l);
        assert!(s.folds.is_empty());
        assert_eq!(s.cursor_row, 0);
        let view = s.file_view(&f.snapshot);
        let fold_row = view
            .rows
            .iter()
            .position(|r| r.kind == RowKind::Fold)
            .unwrap();
        let id = view.rows[fold_row].fold_id;
        s.cursor_row = fold_row;
        f.key(&mut s, KeyCode::Char('z'), l);
        let updated = s.file_view(&f.snapshot);
        assert_eq!(s.cursor_row, fold_row);
        assert_eq!(updated.rows[s.cursor_row].fold_id, id);
        assert!(updated.rows[s.cursor_row].fold_expanded);
        f.key(&mut s, KeyCode::Char('j'), l);
        assert_eq!(
            s.file_view(&f.snapshot).rows[s.cursor_row]
                .comment_line()
                .unwrap()
                .text,
            "line 1"
        );
        f.key(&mut s, KeyCode::Char('z'), l);
        assert_eq!(s.cursor_row, fold_row);
        assert!(!s.file_view(&f.snapshot).rows[s.cursor_row].fold_expanded);
        f.key(&mut s, KeyCode::Char('C'), l);
        assert_eq!(
            s.file_view(&f.snapshot).rows[s.cursor_row]
                .comment_line()
                .unwrap()
                .text,
            "line 1"
        );
        f.key(&mut s, KeyCode::Char('C'), l);
        assert_eq!(s.file_view(&f.snapshot).rows[s.cursor_row].fold_id, id);
    }
}

#[test]
fn all_folds_toggle_preserves_anchor_and_clears_selection() {
    let f = Fixture::new(&long_patch(130, &[118]));
    let l = Layout::new(80, 24);
    let mut s = State {
        fold_mode: FoldMode::Fold,
        selection_start: Some(0),
        ..State::default()
    };
    toggle_folds(&f.snapshot, &mut s, 'Z', l);
    assert_eq!(s.selection_start, None);
    assert_eq!(s.cursor_row, 0);
    assert_eq!(
        s.file_view(&f.snapshot).rows[s.cursor_row].kind,
        RowKind::FileHeader
    );
    assert!(
        s.file_view(&f.snapshot)
            .rows
            .iter()
            .filter(|r| r.kind == RowKind::Fold)
            .all(|r| r.fold_expanded)
    );
    toggle_folds(&f.snapshot, &mut s, 'Z', l);
    assert!(
        s.file_view(&f.snapshot)
            .rows
            .iter()
            .any(|r| r.kind == RowKind::Fold && !r.fold_expanded)
    );
}

#[test]
fn mouse_click_drag_wheel_and_sidebar_use_visual_rows() {
    let patch = format!(
        "{}{}",
        PATCH.replace("+new", &format!("+{}", "long_word ".repeat(20))),
        PATCH.replace("sample.txt", "other.txt")
    );
    let mut f = Fixture::new(&patch);
    let mut s = State::default();
    let l = Layout::new(140, 24);
    let mouse = |kind, x, y| MouseEvent {
        kind,
        column: x,
        row: y,
        modifiers: KeyModifiers::empty(),
    };
    let view = s.file_view(&f.snapshot);
    let long = view
        .rows
        .iter()
        .position(|r| {
            r.line
                .is_some_and(|line| line.text.starts_with("long_word"))
        })
        .unwrap();
    let offset = height_between(&ViewRows { view: &view, layout: l }, 0, long);
    handle_mouse(&f.snapshot, &mut s,
        mouse(
            MouseEventKind::Down(MouseButton::Left),
            5,
            (offset + 2) as u16,
        ),
        1,
        l,
    );
    assert_eq!(s.cursor_row, long);
    handle_mouse(&f.snapshot, &mut s,
        mouse(MouseEventKind::Drag(MouseButton::Left), 5, 2),
        1,
        l,
    );
    assert_eq!(s.selection_start, Some(long));
    assert!(s.cursor_row < long);
    s.sidebar_open = true;
    handle_mouse(&f.snapshot, &mut s,
        mouse(MouseEventKind::Down(MouseButton::Left), 1, 3),
        1,
        l,
    );
    assert_eq!(s.active_file, 1);
    assert_eq!(s.selection_start, None);
    handle_mouse(&f.snapshot, &mut s,
        mouse(MouseEventKind::ScrollUp, 1, 4),
        1,
        l,
    );
    assert_eq!(s.active_file, 1);
    assert_eq!(s.file_cursor, 0);
    f.key(&mut s, KeyCode::Enter, l);
    let x = l.with_panels(&s).main_x as u16 + 1;
    handle_mouse(&f.snapshot, &mut s,
        mouse(MouseEventKind::ScrollDown, x, 4),
        1,
        l,
    );
    assert!(s.cursor_row >= long);
}

#[test]
fn batched_wheel_selects_files_without_opening_them() {
    let patch: String = (0..8)
        .map(|n| PATCH.replace("sample.txt", &format!("file{n}.txt")))
        .collect();
    let f = Fixture::new(&patch);
    for (kind, start, count, expected) in [
        (MouseEventKind::ScrollDown, 0, 2, 6),
        (MouseEventKind::ScrollDown, 0, 256, 7),
        (MouseEventKind::ScrollUp, 7, 2, 1),
        (MouseEventKind::ScrollUp, 7, 256, 0),
    ] {
        let mut s = State {
            active_file: 2,
            cursor_row: 3,
            scroll_row: 1,
            sidebar_open: true,
            file_cursor: start,
            ..State::default()
        };
        let mouse = MouseEvent {
            kind,
            column: 2,
            row: 4,
            modifiers: KeyModifiers::empty(),
        };
        handle_mouse(&f.snapshot, &mut s,
            mouse,
            count,
            Layout::new(140, 24),
        );
        assert_eq!(s.file_cursor, expected);
        assert_eq!(s.focus, Focus::Files);
        assert_eq!((s.active_file, s.cursor_row, s.scroll_row), (2, 3, 1));
    }
}

#[test]
fn batched_wheel_matches_single_events_across_wrapping_and_folds() {
    let patch = long_patch(90, &[10, 50, 80])
        .replace(" line 40\n", &format!(" {}\n", "wide word ".repeat(180)));
    let f = Fixture::new(&patch);
    let l = Layout::new(80, 16);
    for mode in [ViewMode::Stacked, ViewMode::Split] {
        for fold_mode in [FoldMode::Fold, FoldMode::Unfold] {
            for kind in [MouseEventKind::ScrollUp, MouseEventKind::ScrollDown] {
                for count in [1, 8, 48, 256] {
                    let initial = || {
                        let mut state = State {
                            mode,
                            fold_mode,
                            ..State::default()
                        };
                        if kind == MouseEventKind::ScrollUp {
                            state.cursor_row = state.file_view(&f.snapshot).rows.len() - 1;
                        }
                        state.selection_start = Some(state.cursor_row);
                        state
                    };
                    let mut single = initial();
                    let mut batch = initial();
                    let view = single.file_view(&f.snapshot);
                    ensure_visible(&view, &mut single, l);
                    ensure_visible(&view, &mut batch, l);
                    let mouse = MouseEvent {
                        kind,
                        column: 5,
                        row: 5,
                        modifiers: KeyModifiers::empty(),
                    };
                    for _ in 0..count {
                        handle_mouse(&f.snapshot, &mut single, mouse, 1, l);
                    }
                    handle_mouse(&f.snapshot, &mut batch, mouse, count, l);
                    let position = |s: &State| {
                        (
                            s.cursor_row,
                            s.cursor_line,
                            s.scroll_row,
                            s.scroll_line,
                            s.selection_start,
                        )
                    };
                    assert_eq!(
                        position(&single),
                        position(&batch),
                        "{mode:?} {fold_mode:?} {kind:?} {count}"
                    );
                }
            }
        }
    }
}

#[test]
fn oversized_wrapped_line_can_scroll_without_losing_content() {
    let f = Fixture::new(&PATCH.replace("+new", &format!("+{}TAIL", "word ".repeat(250))));
    let mut s = State::default();
    let l = Layout::new(40, 8);
    let view = s.file_view(&f.snapshot);
    s.cursor_row = view
        .rows
        .iter()
        .position(|r| r.line.is_some_and(|l| l.text.ends_with("TAIL")))
        .unwrap();
    s.scroll_row = s.cursor_row;
    let mut renderer = f.renderer(PLAIN);
    assert!(
        !renderer
            .frame(&f.snapshot, &f.store, &mut s, l, false)
            .contains("TAIL")
    );
    let cursor = s.cursor_row;
    let height = row_height(&view, cursor, l);
    move_visual(&f.snapshot, &mut s, height - 1, true, l);
    assert_eq!(s.cursor_row, cursor);
    let frame = renderer
        .frame(&f.snapshot, &f.store, &mut s, l, false);
    assert!(frame.contains("TAIL"));
    assert!(s.scroll_line > 0);
    let scroll = (s.scroll_row, s.scroll_line);
    move_visual(&f.snapshot, &mut s, 3, false, l);
    assert_eq!((s.scroll_row, s.scroll_line), scroll);
    move_visual(&f.snapshot, &mut s, l.body_height, false, l);
    assert!(
        !renderer
            .frame(&f.snapshot, &f.store, &mut s, l, false)
            .contains("TAIL")
    );
}

#[test]
fn every_rendered_row_matches_geometry_and_exact_terminal_width() {
    let f = Fixture::new(&PATCH.replace(
        "+new",
        &format!("+    架{}", "let value = call(alpha,beta); ".repeat(8)),
    ));
    for mode in [ViewMode::Stacked, ViewMode::Split] {
        for width in [1, 20, 31, 32, 59, 60, 80, 100, 140] {
            let s = State {
                mode,
                ..State::default()
            };
            let l = Layout::new(width, 24);
            let view = s.file_view(&f.snapshot);
            let mut renderer = f.renderer(ANSI);
            for (index, _) in view.rows.iter().enumerate() {
                let rows = f.draw(&renderer, &s, &view, index, l.main_width);
                assert_eq!(
                    rows.len(),
                    row_height(&view, index, l)
                );
                for row in rows {
                    assert_eq!(
                        display_width(&row),
                        l.main_width,
                        "width={width}, mode={mode:?}"
                    );
                }
            }
        }
    }
}

#[test]
fn repeated_navigation_only_paints_changed_rows_and_scrolls_the_body() {
    let mut f = Fixture::new(&long_patch(120, &[60]));
    let mut s = State::default();
    let l = Layout::new(100, 24);
    let mut renderer = f.renderer(ANSI);
    renderer
        .frame(&f.snapshot, &f.store, &mut s, l, true);
    let mut scrolled_up = false;
    let mut scrolled_down = false;
    for key in std::iter::repeat_n('j', 80).chain(std::iter::repeat_n('k', 80)) {
        f.key(&mut s, KeyCode::Char(key), l);
        let frame = renderer
            .frame(&f.snapshot, &f.store, &mut s, l, true);
        assert!(
            frame.matches(";1H").count() <= 4,
            "Navigation repainted unchanged rows"
        );
        assert!(frame.contains("\x1b[1;1H"));
        assert!(frame.contains("\x1b[24;1H"));
        scrolled_up |= frame.contains("\x1b[1S");
        scrolled_down |= frame.contains("\x1b[1T");
    }
    assert!(scrolled_up && scrolled_down);
}

#[test]
fn frame_fully_repaints_status_footer_and_static_is_escape_free() {
    let f = Fixture::new(PATCH);
    let mut s = State::default();
    let l = Layout::new(100, 12);
    let mut renderer = f.renderer(PLAIN);
    let frame = renderer
        .frame(&f.snapshot, &f.store, &mut s, l, false);
    assert_eq!(frame.lines().count(), 12);
    for line in frame.lines() {
        assert_eq!(display_width(line), 100);
    }
    assert!(!frame.contains('\x1b'));
    assert!(frame.contains("files"));
    assert!(frame.contains("stacked/unfold"));
    let mut renderer = f.renderer(ANSI);
    s.help = true;
    let frame = renderer
        .frame(&f.snapshot, &f.store, &mut s, l, true);
    assert!(frame.contains("\x1b[1;1H"));
    assert!(frame.contains("\x1b[12;1H"));
    assert_eq!(frame.matches(";1H").count(), 12);
    assert!(!frame.contains("\x1b[K"));
    assert!(!frame.contains('\n'));
    let unchanged = renderer
        .frame(&f.snapshot, &f.store, &mut s, l, true);
    assert_eq!(unchanged.matches(";1H").count(), 2);
    assert!(unchanged.contains("\x1b[1;1H"));
    assert!(unchanged.contains("\x1b[12;1H"));
}


#[test]
fn randomized_wrapping_terminates_and_matches_plain_geometry() {
    let alphabet = ["a", "b", " ", "  ", "架", "\u{301}", ",", "=", ")", "\t"];
    let mut random = 0x9e3779b97f4a7c15_u64;
    for _ in 0..1000 {
        let mut text = String::new();
        for _ in 0..50 {
            random ^= random << 13;
            random ^= random >> 7;
            random ^= random << 17;
            text.push_str(alphabet[(random as usize) % alphabet.len()]);
        }
        let width = (random as usize % 20) + 2;
        let plain = wrap_ansi(&text, width, width - 1);
        let highlighted = wrap_ansi(&format!("\x1b[31m{text}\x1b[0m"), width, width - 1);
        assert_eq!(plain.len(), highlighted.len());
        for (a, b) in plain.iter().zip(highlighted) {
            assert_eq!(plain_text(a), plain_text(&b));
        }
    }
}

#[test]
fn visual_positions_match_flat_screen_coordinates() {
    let geometry = KnownHeights {
        heights: vec![1, 4, 2, 10],
    };
    let positions: Vec<_> = geometry
        .heights
        .iter()
        .enumerate()
        .flat_map(|(row, &height)| (0..height).map(move |line| (row, line)))
        .collect();
    for (index, &position) in positions.iter().enumerate() {
        for delta in [isize::MIN, -8, -1, 0, 1, 8, isize::MAX] {
            let (count, down) = (delta.unsigned_abs(), delta > 0);
            assert_eq!(
                visual_position(&geometry, position, count, down),
                positions[move_index(index, positions.len(), count, down)],
            );
        }
    }
    assert_eq!(
        visual_position(&KnownHeights { heights: vec![] }, (10, 10), 1, true),
        (0, 0)
    );
}

#[test]
fn real_syntax_cache_and_inline_pair_colors_render_together() {
    let patch = "diff --git a/sample.rs b/sample.rs\n--- a/sample.rs\n+++ b/sample.rs\n@@ -1 +1 @@\n-fn old_name() { let x = 1; }\n+fn new_name() { let x = 2; }\n";
    let f = Fixture::new(patch);
    let mut s = State {
        mode: ViewMode::Split,
        ..State::default()
    };
    let mut renderer = f.renderer(ANSI);
    let l = Layout::new(122, 12);
    assert_eq!(
        renderer.missing_sides(&f.snapshot, &mut s, l),
        [FileSide::Old, FileSide::New]
    );
    renderer.cache.insert(
        0,
        FileSide::New,
        compute_outcome(
            grammar(),
            Ok(Some(b"fn new_name() { let x = 2; }\n".to_vec())),
        )
        .unwrap(),
    );
    assert_eq!(
        renderer.missing_sides(&f.snapshot, &mut s, l),
        [FileSide::Old]
    );
    let frame = renderer.frame(&f.snapshot, &f.store, &mut s, l, false);
    let row = frame
        .lines()
        .find(|line| plain_text(line).contains("old_name"))
        .unwrap();
    assert!(row.contains(&ANSI.fg(renderer.palette.syntax_keyword)));
    assert!(row.contains(&ANSI.bg(inline_bg(false, DiffLineKind::Add))));
    assert!(row.contains(&ANSI.bg(inline_bg(false, DiffLineKind::Delete))));
    assert!(plain_text(row).contains("fn new_name()"));
}

#[test]
fn only_the_sides_of_drawn_lines_are_asked_for() {
    let head = "diff --git a/sample.rs b/sample.rs\n--- a/sample.rs\n+++ b/sample.rs\n";
    let missing = |body: &str, mode: ViewMode, width: usize, height: usize| {
        let f = Fixture::new(&format!("{head}{body}"));
        let mut s = State {
            mode,
            ..State::default()
        };
        f.renderer(ANSI)
            .missing_sides(&f.snapshot, &mut s, Layout::new(width, height))
    };
    let pair = "@@ -1 +1 @@\n-fn a() {}\n+fn b() {}";
    let both = [FileSide::Old, FileSide::New];
    assert_eq!(missing(pair, ViewMode::Split, 80, 12), both);
    assert_eq!(missing(pair, ViewMode::Stacked, 80, 12), both);
    // One side of a split row is drawn where there is no room for two.
    assert_eq!(missing(pair, ViewMode::Split, 33, 12), [FileSide::New]);
    assert_eq!(missing(pair, ViewMode::Split, 34, 12), both);
    // A line with control characters is drawn without colours.
    let unsafe_line = "@@ -1 +1 @@\n-fn a() {\u{7}}\n+fn b() {}";
    assert_eq!(
        missing(unsafe_line, ViewMode::Stacked, 80, 12),
        [FileSide::New]
    );
    // The wrapped line fills the body before the deleted one is reached.
    let long = format!("@@ -1 +1 @@\n+{}\n-fn a() {{}}", "word ".repeat(100));
    assert_eq!(
        missing(&long, ViewMode::Stacked, 40, 8),
        [FileSide::New]
    );
    assert_eq!(
        missing(&long, ViewMode::Stacked, 40, 40),
        [FileSide::New, FileSide::Old]
    );
    let renderer = Fixture::new(&format!("{head}{pair}")).renderer(PLAIN);
    let f = Fixture::new(&format!("{head}{pair}"));
    assert_eq!(
        renderer.missing_sides(&f.snapshot, &mut State::default(), Layout::new(80, 12)),
        []
    );
}

#[test]
fn tab_indented_source_keeps_real_syntax_highlighting() {
    let patch = "diff --git a/sample.rs b/sample.rs\n--- /dev/null\n+++ b/sample.rs\n@@ -0,0 +1 @@\n+\tfn main() {}\n";
    let f = Fixture::new(patch);
    let mut s = State::default();
    let mut renderer = f.renderer(ANSI);
    renderer.cache.insert(
        0,
        FileSide::New,
        compute_outcome(grammar(), Ok(Some(b"\tfn main() {}\n".to_vec()))).unwrap(),
    );
    let frame = renderer.frame(&f.snapshot, &f.store, &mut s, Layout::new(80, 12), false);
    let row = frame
        .lines()
        .find(|line| plain_text(line).contains("main()"))
        .unwrap();
    assert!(row.contains(&ANSI.fg(renderer.palette.syntax_keyword)));
    assert_eq!(display_width(row), 80);
}

fn grammar() -> Option<(tree_sitter::Language, Arc<CompiledQuery>)> {
    let language: tree_sitter::Language = tree_sitter_rust::LANGUAGE.into();
    let query = compile(&language, tree_sitter_rust::HIGHLIGHTS_QUERY).unwrap();
    Some((language, query))
}

//! What the keys and the mouse do.
use vstd::prelude::*;
use crate::diff::FileModel;
use crate::tui::{changes_of, law_fold_set, panelled, rows_of, Focus, Layout, StateModel};
use crate::tui_input::{KeyCode, KeyEvent, KeyEventKind, KeyModifiers};
use crate::tui_keys::{
    at_end, change_visited, code_key, comment_place, comments_wanted, files_key, first_unreviewed,
    focused_key, followed, key_outcome, letter_key, mode_toggled, KeyAction,
};
use crate::tui_nav::{file_moved, file_opened, folds_toggled, line_moved, moved_index, with_cursor};
use crate::tui_view::{change_after, change_before, state_of, FoldMode, FoldState};

verus! {

/// The press of a key without modifiers.
pub open spec fn press(code: KeyCode) -> KeyEvent {
    KeyEvent { code, modifiers: KeyModifiers::none(), kind: KeyEventKind::Press }
}

/// Whether the code has the focus and nothing covers it.
pub open spec fn in_code(files: Seq<FileModel>, s: StateModel) -> bool {
    &&& s.focus == Focus::Code
    &&& !s.help
    &&& s.active_file < files.len()
}

/// A state that differs in nothing but the place of the cursor within its row
/// and in what can be seen.
pub open spec fn same_but_scrolled(a: StateModel, b: StateModel) -> bool {
    b == (StateModel {
        cursor_line: b.cursor_line,
        scroll_row: b.scroll_row,
        scroll_line: b.scroll_line,
        ..a
    })
}

proof fn lemma_followed(files: Seq<FileModel>, s: StateModel, l: Layout)
    requires
        rows_of(files, s).len() > 0,
        s.cursor_row < rows_of(files, s).len(),
    ensures
        same_but_scrolled(s, followed(files, s, l)),
{
    reveal(followed);
}

/// A key in the code goes to the code, and the cursor is followed.
pub proof fn lemma_code_key(
    files: Seq<FileModel>,
    marks: Seq<bool>,
    s: StateModel,
    code: KeyCode,
    l: Layout,
)
    requires
        in_code(files, s),
        code != KeyCode::Char('q'),
        code != KeyCode::Esc,
        code != KeyCode::Tab,
    ensures
        ({
            let t = StateModel {
                notice: if code == KeyCode::Char('y') {
                    s.notice
                } else {
                    seq![]
                },
                pending: None,
                ..s
            };
            let inner = panelled(l, s);
            let (u, action) = code_key(files, marks, t, s.pending, code, inner);
            key_outcome(files, marks, s, press(code), l) == if action == KeyAction::Copy || action
                == KeyAction::Comment {
                (u, action)
            } else {
                (followed(files, u, inner), action)
            }
        }),
{
    reveal(key_outcome);
    reveal(focused_key);
}

proof fn lemma_letters_0(
    files: Seq<FileModel>,
    marks: Seq<bool>,
    t: StateModel,
    pending: Option<char>,
    l: Layout,
)
    ensures
        letter_key(files, marks, t, pending, 'g', l) == if pending == Some('g') {
            (with_cursor(t, (0, 0)), KeyAction::Continue)
        } else {
            (StateModel { pending: Some('g'), ..t }, KeyAction::Continue)
        },
        letter_key(files, marks, t, pending, 'G', l) == (at_end(files, t), KeyAction::Continue),
        letter_key(files, marks, t, pending, 'j', l) == (
            line_moved(files, t, 1),
            KeyAction::Continue,
        ),
{
    reveal(letter_key);
}

proof fn lemma_letters_1(
    files: Seq<FileModel>,
    marks: Seq<bool>,
    t: StateModel,
    pending: Option<char>,
    l: Layout,
)
    ensures
        letter_key(files, marks, t, pending, 'k', l) == (
            line_moved(files, t, -1),
            KeyAction::Continue,
        ),
        letter_key(files, marks, t, pending, 'J', l) == (
            file_moved(files, t, 1, l),
            KeyAction::Continue,
        ),
        letter_key(files, marks, t, pending, 'K', l) == (
            file_moved(files, t, -1, l),
            KeyAction::Continue,
        ),
{
    reveal(letter_key);
}

proof fn lemma_letters_2(
    files: Seq<FileModel>,
    marks: Seq<bool>,
    t: StateModel,
    pending: Option<char>,
    l: Layout,
)
    ensures
        letter_key(files, marks, t, pending, 'n', l) == (
            change_visited(files, t, true, l),
            KeyAction::Continue,
        ),
        letter_key(files, marks, t, pending, 'p', l) == (
            change_visited(files, t, false, l),
            KeyAction::Continue,
        ),
        letter_key(files, marks, t, pending, 'C', l) == (
            folds_toggled(files, t, 'C', l),
            KeyAction::Continue,
        ),
{
    reveal(letter_key);
}

proof fn lemma_letters_3(
    files: Seq<FileModel>,
    marks: Seq<bool>,
    t: StateModel,
    pending: Option<char>,
    l: Layout,
)
    ensures
        letter_key(files, marks, t, pending, 'z', l) == (
            folds_toggled(files, t, 'z', l),
            KeyAction::Continue,
        ),
        letter_key(files, marks, t, pending, 'v', l) == (
            mode_toggled(files, t, l),
            KeyAction::Continue,
        ),
        letter_key(files, marks, t, pending, 'V', l) == (
            StateModel {
                selection_start: if t.selection_start is Some {
                    None
                } else {
                    Some(t.cursor_row)
                },
                ..t
            },
            KeyAction::Continue,
        ),
{
    reveal(letter_key);
}

proof fn lemma_letters_4(
    files: Seq<FileModel>,
    marks: Seq<bool>,
    t: StateModel,
    pending: Option<char>,
    l: Layout,
)
    ensures
        letter_key(files, marks, t, pending, 'y', l) == (t, KeyAction::Copy),
        letter_key(files, marks, t, pending, 'c', l) == comments_wanted(files, t, true, l),
        letter_key(files, marks, t, pending, '?', l) == (
            StateModel { help: !t.help, ..t },
            KeyAction::Continue,
        ),
{
    reveal(letter_key);
}

proof fn lemma_letters_5(
    files: Seq<FileModel>,
    marks: Seq<bool>,
    t: StateModel,
    pending: Option<char>,
    l: Layout,
)
    ensures
        letter_key(files, marks, t, pending, 'r', l) == (
            t,
            KeyAction::Review(!marks[t.active_file as int]),
        ),
        letter_key(files, marks, t, pending, 'u', l) == (
            match first_unreviewed(marks, 0) {
                Some(k) => file_opened(files, t, k as usize, l),
                None => t,
            },
            KeyAction::Continue,
        ),
{
    reveal(letter_key);
}

/// What the keys of the code do to it.
proof fn lemma_letter(
    files: Seq<FileModel>,
    marks: Seq<bool>,
    t: StateModel,
    pending: Option<char>,
    l: Layout,
)
    ensures
        letter_key(files, marks, t, pending, 'g', l) == if pending == Some('g') {
            (with_cursor(t, (0, 0)), KeyAction::Continue)
        } else {
            (StateModel { pending: Some('g'), ..t }, KeyAction::Continue)
        },
        letter_key(files, marks, t, pending, 'G', l) == (at_end(files, t), KeyAction::Continue),
        letter_key(files, marks, t, pending, 'j', l) == (
            line_moved(files, t, 1),
            KeyAction::Continue,
        ),
        letter_key(files, marks, t, pending, 'k', l) == (
            line_moved(files, t, -1),
            KeyAction::Continue,
        ),
        letter_key(files, marks, t, pending, 'J', l) == (
            file_moved(files, t, 1, l),
            KeyAction::Continue,
        ),
        letter_key(files, marks, t, pending, 'K', l) == (
            file_moved(files, t, -1, l),
            KeyAction::Continue,
        ),
        letter_key(files, marks, t, pending, 'n', l) == (
            change_visited(files, t, true, l),
            KeyAction::Continue,
        ),
        letter_key(files, marks, t, pending, 'p', l) == (
            change_visited(files, t, false, l),
            KeyAction::Continue,
        ),
        letter_key(files, marks, t, pending, 'C', l) == (
            folds_toggled(files, t, 'C', l),
            KeyAction::Continue,
        ),
        letter_key(files, marks, t, pending, 'z', l) == (
            folds_toggled(files, t, 'z', l),
            KeyAction::Continue,
        ),
        letter_key(files, marks, t, pending, 'v', l) == (
            mode_toggled(files, t, l),
            KeyAction::Continue,
        ),
        letter_key(files, marks, t, pending, 'V', l) == (
            StateModel {
                selection_start: if t.selection_start is Some {
                    None
                } else {
                    Some(t.cursor_row)
                },
                ..t
            },
            KeyAction::Continue,
        ),
        letter_key(files, marks, t, pending, 'y', l) == (t, KeyAction::Copy),
        letter_key(files, marks, t, pending, 'c', l) == comments_wanted(files, t, true, l),
        letter_key(files, marks, t, pending, '?', l) == (
            StateModel { help: !t.help, ..t },
            KeyAction::Continue,
        ),
        letter_key(files, marks, t, pending, 'r', l) == (
            t,
            KeyAction::Review(!marks[t.active_file as int]),
        ),
        letter_key(files, marks, t, pending, 'u', l) == (
            match first_unreviewed(marks, 0) {
                Some(k) => file_opened(files, t, k as usize, l),
                None => t,
            },
            KeyAction::Continue,
        ),
{
    lemma_letters_0(files, marks, t, pending, l);
    lemma_letters_1(files, marks, t, pending, l);
    lemma_letters_2(files, marks, t, pending, l);
    lemma_letters_3(files, marks, t, pending, l);
    lemma_letters_4(files, marks, t, pending, l);
    lemma_letters_5(files, marks, t, pending, l);
}

proof fn lemma_code_keys(files: Seq<FileModel>, marks: Seq<bool>, s: StateModel, l: Layout)
    ensures
        ({
            let t = StateModel { notice: seq![], pending: None, ..s };
            let u = StateModel { pending: None, ..s };
            let inner = panelled(l, s);
            &&& forall|c: char, v: StateModel| #[trigger]
                code_key(files, marks, v, s.pending, KeyCode::Char(c), inner) == letter_key(
                    files,
                    marks,
                    v,
                    s.pending,
                    c,
                    inner,
                )
            &&& code_key(files, marks, t, s.pending, KeyCode::Home, inner) == (
                with_cursor(t, (0, 0)),
                KeyAction::Continue,
            )
            &&& code_key(files, marks, t, s.pending, KeyCode::End, inner) == (
                at_end(files, t),
                KeyAction::Continue,
            )
            &&& code_key(files, marks, t, s.pending, KeyCode::Down, inner) == (
                line_moved(files, t, 1),
                KeyAction::Continue,
            )
            &&& code_key(files, marks, t, s.pending, KeyCode::Up, inner) == (
                line_moved(files, t, -1),
                KeyAction::Continue,
            )
            &&& code_key(files, marks, t, s.pending, KeyCode::Enter, inner) == comments_wanted(
                files,
                t,
                false,
                inner,
            )
        }),
{
    reveal(code_key);
}

/// `q` and Ctrl+C end the review, whatever has the focus, and change nothing;
/// letting a key go does nothing at all.
pub proof fn law_quitting(
    files: Seq<FileModel>,
    marks: Seq<bool>,
    s: StateModel,
    key: KeyEvent,
    l: Layout,
)
    ensures
        key.kind == KeyEventKind::Release ==> key_outcome(files, marks, s, key, l) == (
            s,
            KeyAction::Continue,
        ),
        key.kind != KeyEventKind::Release && key.modifiers.control && key.code == KeyCode::Char('c')
            ==> key_outcome(files, marks, s, key, l) == (s, KeyAction::Quit),
        key == press(KeyCode::Char('q')) ==> key_outcome(files, marks, s, key, l) == (
            s,
            KeyAction::Quit,
        ),
{
    reveal(key_outcome);
}

/// `j` and Down go to the next row, `k` and Up to the one before, as far as
/// there are rows; nothing else of the review changes.
pub proof fn law_keys_move_by_a_row(
    files: Seq<FileModel>,
    marks: Seq<bool>,
    s: StateModel,
    code: KeyCode,
    l: Layout,
)
    requires
        in_code(files, s),
        s.cursor_row < rows_of(files, s).len() <= usize::MAX,
        code == KeyCode::Char('j') || code == KeyCode::Down || code == KeyCode::Char('k') || code
            == KeyCode::Up,
    ensures
        ({
            let (t, action) = key_outcome(files, marks, s, press(code), l);
            let down = code == KeyCode::Char('j') || code == KeyCode::Down;
            &&& action == KeyAction::Continue
            &&& t.cursor_row == if down {
                if s.cursor_row + 1 < rows_of(files, s).len() {
                    s.cursor_row + 1
                } else {
                    s.cursor_row as int
                }
            } else {
                if s.cursor_row > 0 {
                    s.cursor_row - 1
                } else {
                    0
                }
            }
            &&& t.active_file == s.active_file
            &&& t.selection_start == s.selection_start
            &&& t.mode == s.mode
            &&& t.fold_mode == s.fold_mode
            &&& t.folds == s.folds
            &&& t.focus == s.focus
        }),
{
    lemma_code_keys(files, marks, s, l);
    lemma_letter(
        files,
        marks,
        StateModel { notice: seq![], pending: None, ..s },
        s.pending,
        panelled(l, s),
    );
    lemma_code_key(files, marks, s, code, l);
    let t = StateModel { notice: seq![], pending: None, ..s };
    let down = code == KeyCode::Char('j') || code == KeyCode::Down;
    let u = line_moved(
        files,
        t,
        if down {
            1
        } else {
            -1
        },
    );
    assert(crate::tui::setting_of(t) == crate::tui::setting_of(s));
    assert(crate::tui::setting_of(u) == crate::tui::setting_of(s));
    lemma_followed(files, u, panelled(l, s));
}

/// Home, and `g` twice, go to the first row; End and `G` to the last.
pub proof fn law_keys_go_to_the_ends(
    files: Seq<FileModel>,
    marks: Seq<bool>,
    s: StateModel,
    code: KeyCode,
    l: Layout,
)
    requires
        in_code(files, s),
        0 < rows_of(files, s).len() <= usize::MAX,
        code == KeyCode::Home || code == KeyCode::End || code == KeyCode::Char('G') || (code
            == KeyCode::Char('g') && s.pending == Some('g')),
    ensures
        ({
            let (t, action) = key_outcome(files, marks, s, press(code), l);
            &&& action == KeyAction::Continue
            &&& t.cursor_row == if code == KeyCode::End || code == KeyCode::Char('G') {
                rows_of(files, s).len() - 1
            } else {
                0
            }
            &&& t.active_file == s.active_file
            &&& t.pending is None
        }),
{
    lemma_code_keys(files, marks, s, l);
    lemma_letter(
        files,
        marks,
        StateModel { notice: seq![], pending: None, ..s },
        s.pending,
        panelled(l, s),
    );
    lemma_code_key(files, marks, s, code, l);
    let t = StateModel { notice: seq![], pending: None, ..s };
    let u = code_key(files, marks, t, s.pending, code, panelled(l, s)).0;
    assert(crate::tui::setting_of(u) == crate::tui::setting_of(s));
    assert(crate::tui::setting_of(t) == crate::tui::setting_of(s));
    lemma_followed(files, u, panelled(l, s));
}

/// `g` alone waits for another one.
pub proof fn law_first_g_waits(
    files: Seq<FileModel>,
    marks: Seq<bool>,
    s: StateModel,
    l: Layout,
)
    requires
        in_code(files, s),
        s.cursor_row < rows_of(files, s).len(),
        s.pending != Some('g'),
    ensures
        ({
            let (t, _) = key_outcome(files, marks, s, press(KeyCode::Char('g')), l);
            t.pending == Some('g') && t.cursor_row == s.cursor_row
        }),
{
    lemma_code_keys(files, marks, s, l);
    lemma_letter(
        files,
        marks,
        StateModel { notice: seq![], pending: None, ..s },
        s.pending,
        panelled(l, s),
    );
    lemma_code_key(files, marks, s, KeyCode::Char('g'), l);
    let t = StateModel { notice: seq![], pending: Some('g'), ..s };
    assert(crate::tui::setting_of(t) == crate::tui::setting_of(s));
    lemma_followed(files, t, panelled(l, s));
}

/// `V` starts a selection at the cursor, or gives it up.
pub proof fn law_selecting(files: Seq<FileModel>, marks: Seq<bool>, s: StateModel, l: Layout)
    requires
        in_code(files, s),
        s.cursor_row < rows_of(files, s).len(),
    ensures
        ({
            let (t, action) = key_outcome(files, marks, s, press(KeyCode::Char('V')), l);
            &&& action == KeyAction::Continue
            &&& t.selection_start == if s.selection_start is Some {
                None
            } else {
                Some(s.cursor_row)
            }
            &&& t.cursor_row == s.cursor_row
        }),
{
    lemma_code_keys(files, marks, s, l);
    lemma_letter(
        files,
        marks,
        StateModel { notice: seq![], pending: None, ..s },
        s.pending,
        panelled(l, s),
    );
    lemma_code_key(files, marks, s, KeyCode::Char('V'), l);
    let t = StateModel { notice: seq![], pending: None, ..s };
    let u = code_key(files, marks, t, s.pending, KeyCode::Char('V'), panelled(l, s)).0;
    assert(crate::tui::setting_of(u) == crate::tui::setting_of(s));
    lemma_followed(files, u, panelled(l, s));
}

/// `y` asks for a copy of the selection, and `r` for the other mark of the
/// active file; neither moves the cursor or changes the selection.
pub proof fn law_copying_and_marking(
    files: Seq<FileModel>,
    marks: Seq<bool>,
    s: StateModel,
    l: Layout,
)
    requires
        in_code(files, s),
        marks.len() == files.len(),
        s.cursor_row < rows_of(files, s).len(),
    ensures
        ({
            let (t, action) = key_outcome(files, marks, s, press(KeyCode::Char('y')), l);
            action == KeyAction::Copy && t == (StateModel { pending: None, ..s })
        }),
        ({
            let (t, action) = key_outcome(files, marks, s, press(KeyCode::Char('r')), l);
            &&& action == KeyAction::Review(!marks[s.active_file as int])
            &&& t.cursor_row == s.cursor_row
            &&& t.active_file == s.active_file
            &&& t.selection_start == s.selection_start
        }),
{
    lemma_code_keys(files, marks, s, l);
    lemma_letter(
        files,
        marks,
        StateModel { notice: seq![], pending: None, ..s },
        s.pending,
        panelled(l, s),
    );
    lemma_letter(files, marks, StateModel { pending: None, ..s }, s.pending, panelled(l, s));
    lemma_code_key(files, marks, s, KeyCode::Char('y'), l);
    lemma_code_key(files, marks, s, KeyCode::Char('r'), l);
    let t = StateModel { notice: seq![], pending: None, ..s };
    assert(crate::tui::setting_of(t) == crate::tui::setting_of(s));
    lemma_followed(files, t, panelled(l, s));
}

pub proof fn lemma_opened(files: Seq<FileModel>, s: StateModel, index: usize, l: Layout)
    ensures
        file_opened(files, s, index, l).active_file == index,
        file_opened(files, s, index, l).file_cursor == index,
        file_opened(files, s, index, l).selection_start is None,
{
    reveal(file_opened);
}

proof fn lemma_followed_file(files: Seq<FileModel>, s: StateModel, l: Layout)
    ensures
        followed(files, s, l).active_file == s.active_file,
        followed(files, s, l).mode == s.mode,
        followed(files, s, l).fold_mode == s.fold_mode,
        followed(files, s, l).folds == s.folds,
        followed(files, s, l).focus == s.focus,
        followed(files, s, l).help == s.help,
        followed(files, s, l).comment_open == s.comment_open,
        followed(files, s, l).notice == s.notice,
{
    reveal(followed);
}

/// `J` opens the next file and `K` the one before, as far as there are files.
pub proof fn law_keys_move_by_a_file(
    files: Seq<FileModel>,
    marks: Seq<bool>,
    s: StateModel,
    down: bool,
    l: Layout,
)
    requires
        in_code(files, s),
        files.len() <= usize::MAX,
    ensures
        ({
            let code = if down {
                KeyCode::Char('J')
            } else {
                KeyCode::Char('K')
            };
            let (t, action) = key_outcome(files, marks, s, press(code), l);
            &&& action == KeyAction::Continue
            &&& t.active_file == if down {
                if s.active_file + 1 < files.len() {
                    s.active_file + 1
                } else {
                    s.active_file as int
                }
            } else {
                if s.active_file > 0 {
                    s.active_file - 1
                } else {
                    0
                }
            }
        }),
{
    lemma_code_keys(files, marks, s, l);
    lemma_letter(
        files,
        marks,
        StateModel { notice: seq![], pending: None, ..s },
        s.pending,
        panelled(l, s),
    );
    let code = if down {
        KeyCode::Char('J')
    } else {
        KeyCode::Char('K')
    };
    lemma_code_key(files, marks, s, code, l);
    let t = StateModel { notice: seq![], pending: None, ..s };
    let next = moved_index(
        s.active_file,
        files.len() as int,
        if down {
            1
        } else {
            -1
        },
    );
    let inner = panelled(l, s);
    lemma_opened(files, t, next, inner);
    let u = code_key(files, marks, t, s.pending, code, inner).0;
    lemma_followed_file(files, u, inner);
}

proof fn lemma_first_unreviewed(marks: Seq<bool>, i: int)
    requires
        0 <= i,
    ensures
        match first_unreviewed(marks, i) {
            Some(k) => i <= k < marks.len() && !marks[k] && forall|j: int|
                i <= j < k ==> #[trigger] marks[j],
            None => forall|j: int| i <= j < marks.len() ==> #[trigger] marks[j],
        },
    decreases marks.len() - i,
{
    if i < marks.len() && marks[i] {
        lemma_first_unreviewed(marks, i + 1);
    }
}

/// `u` opens the first file that is not reviewed; where all are, the file
/// stays.
pub proof fn law_unreviewed_file_opens(
    files: Seq<FileModel>,
    marks: Seq<bool>,
    s: StateModel,
    l: Layout,
)
    requires
        in_code(files, s),
        marks.len() == files.len() <= usize::MAX,
    ensures
        ({
            let (t, action) = key_outcome(files, marks, s, press(KeyCode::Char('u')), l);
            &&& action == KeyAction::Continue
            &&& (exists|k: int| 0 <= k < marks.len() && !#[trigger] marks[k]) ==> !marks[t.active_file as int]
                && forall|j: int| 0 <= j < t.active_file ==> #[trigger] marks[j]
            &&& (forall|k: int| 0 <= k < marks.len() ==> #[trigger] marks[k]) ==> t.active_file
                == s.active_file
        }),
{
    lemma_code_keys(files, marks, s, l);
    lemma_letter(
        files,
        marks,
        StateModel { notice: seq![], pending: None, ..s },
        s.pending,
        panelled(l, s),
    );
    lemma_code_key(files, marks, s, KeyCode::Char('u'), l);
    lemma_first_unreviewed(marks, 0);
    let t = StateModel { notice: seq![], pending: None, ..s };
    let inner = panelled(l, s);
    let u = code_key(files, marks, t, s.pending, KeyCode::Char('u'), inner).0;
    if let Some(k) = first_unreviewed(marks, 0) {
        lemma_opened(files, t, k as usize, inner);
    }
    lemma_followed_file(files, u, inner);
}

proof fn lemma_visited(files: Seq<FileModel>, s: StateModel, forward: bool, l: Layout)
    requires
        s.cursor_row < rows_of(files, s).len(),
        forall|k: int|
            0 <= k < changes_of(files, s).len() ==> (#[trigger] changes_of(files, s)[k]).start_row
                < rows_of(files, s).len(),
    ensures
        ({
            let u = change_visited(files, s, forward, l);
            let wanted = if forward {
                change_after(changes_of(files, s), s.cursor_row)
            } else {
                change_before(changes_of(files, s), s.cursor_row)
            };
            &&& u.cursor_row == match wanted {
                Some(row) => row,
                None => s.cursor_row,
            }
            &&& u.cursor_row < rows_of(files, s).len()
            &&& u.active_file == s.active_file
            &&& crate::tui::setting_of(u) == crate::tui::setting_of(s)
        }),
{
    reveal(change_visited);
    lemma_change_rows(changes_of(files, s), s.cursor_row);
}

proof fn lemma_turned_mode(files: Seq<FileModel>, s: StateModel, l: Layout)
    ensures
        mode_toggled(files, s, l).mode != s.mode,
        mode_toggled(files, s, l).fold_mode == s.fold_mode,
{
    reveal(mode_toggled);
}

proof fn lemma_turned_folding(files: Seq<FileModel>, s: StateModel, l: Layout)
    ensures
        ({
            let u = folds_toggled(files, s, 'C', l);
            &&& u.fold_mode != s.fold_mode
            &&& u.mode == s.mode
            &&& u.fold_mode == FoldMode::Fold ==> u.folds.len() == 0
        }),
{
    reveal(folds_toggled);
}

proof fn lemma_turned_fold(
    files: Seq<FileModel>,
    s: StateModel,
    l: Layout,
    id: crate::tui_view::FoldId,
)
    requires
        s.fold_mode == FoldMode::Fold,
        s.cursor_row < rows_of(files, s).len(),
        rows_of(files, s)[s.cursor_row as int].fold_id is Some,
    ensures
        ({
            let here = rows_of(files, s)[s.cursor_row as int].fold_id->0;
            let u = folds_toggled(files, s, 'z', l);
            &&& state_of(u.folds, here) != state_of(s.folds, here)
            &&& id != here ==> state_of(u.folds, id) == state_of(s.folds, id)
            &&& u.fold_mode == s.fold_mode
            &&& u.mode == s.mode
        }),
{
    reveal(folds_toggled);
    let here = rows_of(files, s)[s.cursor_row as int].fold_id->0;
    let other = if state_of(s.folds, here) == FoldState::Collapsed {
        FoldState::Expanded
    } else {
        FoldState::Collapsed
    };
    law_fold_set(s.folds, here, other, here);
    law_fold_set(s.folds, here, other, id);
}

proof fn lemma_wanted(files: Seq<FileModel>, s: StateModel, write: bool, l: Layout)
    ensures
        ({
            let place = comment_place(files[s.active_file as int], rows_of(files, s), s);
            let room = l.height >= 7 && l.main_width >= 20;
            let (u, action) = comments_wanted(files, s, write, l);
            &&& action == (if write && place is Some && room {
                KeyAction::Comment
            } else {
                KeyAction::Continue
            })
            &&& place is Some && room ==> u.comment_open && u.focus == (if write {
                Focus::Editor
            } else {
                Focus::Comments
            })
            &&& !(place is Some && room) ==> u.focus == s.focus && u.notice.len() > 0
        }),
{
    reveal(comments_wanted);
    reveal_strlit("select a code line to comment");
    reveal_strlit("enlarge terminal to open comments");
}

/// `n` puts the cursor on the next change and `p` on the one before; where
/// there is none the cursor stays on its row.
pub proof fn law_keys_visit_changes(
    files: Seq<FileModel>,
    marks: Seq<bool>,
    s: StateModel,
    forward: bool,
    l: Layout,
)
    requires
        in_code(files, s),
        s.cursor_row < rows_of(files, s).len(),
        forall|k: int|
            0 <= k < changes_of(files, s).len() ==> (#[trigger] changes_of(files, s)[k]).start_row
                < rows_of(files, s).len(),
    ensures
        ({
            let code = if forward {
                KeyCode::Char('n')
            } else {
                KeyCode::Char('p')
            };
            let (t, action) = key_outcome(files, marks, s, press(code), l);
            let wanted = if forward {
                change_after(changes_of(files, s), s.cursor_row)
            } else {
                change_before(changes_of(files, s), s.cursor_row)
            };
            &&& action == KeyAction::Continue
            &&& t.active_file == s.active_file
            &&& t.cursor_row == match wanted {
                Some(row) => row,
                None => s.cursor_row,
            }
        }),
{
    lemma_code_keys(files, marks, s, l);
    lemma_letter(
        files,
        marks,
        StateModel { notice: seq![], pending: None, ..s },
        s.pending,
        panelled(l, s),
    );
    let code = if forward {
        KeyCode::Char('n')
    } else {
        KeyCode::Char('p')
    };
    lemma_code_key(files, marks, s, code, l);
    let t = StateModel { notice: seq![], pending: None, ..s };
    let inner = panelled(l, s);
    assert(crate::tui::setting_of(t) == crate::tui::setting_of(s));
    let u = change_visited(files, t, forward, inner);
    lemma_visited(files, t, forward, inner);
    lemma_followed(files, u, inner);
}

proof fn lemma_change_rows(spans: Seq<crate::tui_view::ChangeSpan>, row: usize)
    ensures
        change_after(spans, row) matches Some(r) ==> exists|k: int|
            0 <= k < spans.len() && (#[trigger] spans[k]).start_row == r,
        change_before(spans, row) matches Some(r) ==> exists|k: int|
            0 <= k < spans.len() && (#[trigger] spans[k]).start_row == r,
    decreases spans.len(),
{
    if spans.len() > 0 {
        lemma_change_rows(spans.skip(1), row);
        lemma_change_rows(spans.drop_last(), row);
        if let Some(r) = change_after(spans, row) {
            if spans[0].start_row > row {
                assert(spans[0].start_row == r);
            } else {
                let k = choose|k: int|
                    0 <= k < spans.skip(1).len() && (#[trigger] spans.skip(1)[k]).start_row == r;
                assert(spans[k + 1].start_row == r);
            }
        }
        if let Some(r) = change_before(spans, row) {
            let n = spans.len() - 1;
            if spans[n].start_row < row {
                assert(spans[n].start_row == r);
            } else {
                let k = choose|k: int|
                    0 <= k < spans.drop_last().len() && (#[trigger] spans.drop_last()[k]).start_row
                        == r;
                assert(spans[k].start_row == r);
            }
        }
    }
}

/// `v` turns the layout over, `C` the folding, and `?` the help; each key twice
/// gives back what there was.
pub proof fn law_keys_turn_the_view(
    files: Seq<FileModel>,
    marks: Seq<bool>,
    s: StateModel,
    l: Layout,
)
    requires
        in_code(files, s),
    ensures
        key_outcome(files, marks, s, press(KeyCode::Char('v')), l).0.mode != s.mode,
        key_outcome(files, marks, s, press(KeyCode::Char('v')), l).0.fold_mode == s.fold_mode,
        key_outcome(files, marks, s, press(KeyCode::Char('C')), l).0.fold_mode != s.fold_mode,
        key_outcome(files, marks, s, press(KeyCode::Char('C')), l).0.mode == s.mode,
        key_outcome(files, marks, s, press(KeyCode::Char('C')), l).0.fold_mode == FoldMode::Fold
            ==> key_outcome(files, marks, s, press(KeyCode::Char('C')), l).0.folds.len() == 0,
        key_outcome(files, marks, s, press(KeyCode::Char('?')), l).0.help,
        key_outcome(files, marks, s, press(KeyCode::Char('?')), l).0.active_file == s.active_file,
{
    lemma_code_keys(files, marks, s, l);
    lemma_letter(
        files,
        marks,
        StateModel { notice: seq![], pending: None, ..s },
        s.pending,
        panelled(l, s),
    );
    let inner = panelled(l, s);
    let t = StateModel { notice: seq![], pending: None, ..s };
    lemma_code_key(files, marks, s, KeyCode::Char('v'), l);
    lemma_code_key(files, marks, s, KeyCode::Char('C'), l);
    lemma_code_key(files, marks, s, KeyCode::Char('?'), l);
    lemma_turned_mode(files, t, inner);
    lemma_turned_folding(files, t, inner);
    lemma_followed_file(
        files,
        code_key(files, marks, t, s.pending, KeyCode::Char('v'), inner).0,
        inner,
    );
    lemma_followed_file(
        files,
        code_key(files, marks, t, s.pending, KeyCode::Char('C'), inner).0,
        inner,
    );
    lemma_followed_file(
        files,
        code_key(files, marks, t, s.pending, KeyCode::Char('?'), inner).0,
        inner,
    );
}

/// `z` turns the fold at the cursor over, and no other.
pub proof fn law_key_turns_the_fold(
    files: Seq<FileModel>,
    marks: Seq<bool>,
    s: StateModel,
    l: Layout,
    id: crate::tui_view::FoldId,
)
    requires
        in_code(files, s),
        s.fold_mode == FoldMode::Fold,
        s.cursor_row < rows_of(files, s).len(),
        rows_of(files, s)[s.cursor_row as int].fold_id is Some,
    ensures
        ({
            let here = rows_of(files, s)[s.cursor_row as int].fold_id->0;
            let t = key_outcome(files, marks, s, press(KeyCode::Char('z')), l).0;
            &&& state_of(t.folds, here) != state_of(s.folds, here)
            &&& id != here ==> state_of(t.folds, id) == state_of(s.folds, id)
            &&& t.fold_mode == s.fold_mode
            &&& t.mode == s.mode
        }),
{
    lemma_code_keys(files, marks, s, l);
    lemma_letter(
        files,
        marks,
        StateModel { notice: seq![], pending: None, ..s },
        s.pending,
        panelled(l, s),
    );
    let inner = panelled(l, s);
    let t = StateModel { notice: seq![], pending: None, ..s };
    assert(crate::tui::setting_of(t) == crate::tui::setting_of(s));
    lemma_code_key(files, marks, s, KeyCode::Char('z'), l);
    lemma_turned_fold(files, t, inner, id);
    lemma_followed_file(
        files,
        code_key(files, marks, t, s.pending, KeyCode::Char('z'), inner).0,
        inner,
    );
}

/// Tab shows the files with the active one chosen, and again hides them; Enter
/// there opens the chosen file.
pub proof fn law_choosing_a_file(
    files: Seq<FileModel>,
    marks: Seq<bool>,
    s: StateModel,
    l: Layout,
)
    requires
        !s.help,
    ensures
        s.focus != Focus::Files ==> {
            let t = key_outcome(files, marks, s, press(KeyCode::Tab), l).0;
            t.focus == Focus::Files && t.sidebar_open && t.file_cursor == s.active_file
                && t.active_file == s.active_file
        },
        s.focus == Focus::Files ==> {
            let t = key_outcome(files, marks, s, press(KeyCode::Tab), l).0;
            t.focus == Focus::Code && !t.sidebar_open && t.active_file == s.active_file
        },
        s.focus == Focus::Files ==> {
            let t = key_outcome(files, marks, s, press(KeyCode::Enter), l).0;
            t.active_file == s.file_cursor && t.focus == Focus::Code
        },
{
    reveal(key_outcome);
    reveal(focused_key);
    reveal(files_key);
    let t = StateModel { notice: seq![], pending: None, ..s };
    lemma_opened(files, t, s.file_cursor, panelled(l, s));
    lemma_opened_focus(files, t, s.file_cursor, panelled(l, s));
}

proof fn lemma_opened_focus(files: Seq<FileModel>, s: StateModel, index: usize, l: Layout)
    ensures
        file_opened(files, s, index, l).focus == Focus::Code,
{
    reveal(file_opened);
}

/// `c` opens the editor, and Enter the comments, where a selected row has code
/// and there is room; otherwise the reader is told why not.
pub proof fn law_opening_comments(
    files: Seq<FileModel>,
    marks: Seq<bool>,
    s: StateModel,
    l: Layout,
)
    requires
        in_code(files, s),
    ensures
        ({
            let (t, action) = key_outcome(files, marks, s, press(KeyCode::Char('c')), l);
            let place = comment_place(files[s.active_file as int], rows_of(files, s), s);
            let inner = panelled(l, s);
            let room = inner.height >= 7 && inner.main_width >= 20;
            &&& action == KeyAction::Comment <==> place is Some && room
            &&& place is Some && room ==> t.focus == Focus::Editor && t.comment_open
            &&& !(place is Some && room) ==> t.focus == s.focus && t.notice.len() > 0
        }),
        ({
            let (t, action) = key_outcome(files, marks, s, press(KeyCode::Enter), l);
            let place = comment_place(files[s.active_file as int], rows_of(files, s), s);
            let inner = panelled(l, s);
            let room = inner.height >= 7 && inner.main_width >= 20;
            &&& action == KeyAction::Continue
            &&& place is Some && room ==> t.focus == Focus::Comments && t.comment_open
            &&& !(place is Some && room) ==> t.focus == s.focus && t.notice.len() > 0
        }),
{
    lemma_code_keys(files, marks, s, l);
    lemma_letter(
        files,
        marks,
        StateModel { notice: seq![], pending: None, ..s },
        s.pending,
        panelled(l, s),
    );
    let inner = panelled(l, s);
    let t = StateModel { notice: seq![], pending: None, ..s };
    assert(crate::tui::setting_of(t) == crate::tui::setting_of(s));
    lemma_code_key(files, marks, s, KeyCode::Char('c'), l);
    lemma_code_key(files, marks, s, KeyCode::Enter, l);
    lemma_wanted(files, t, true, inner);
    lemma_wanted(files, t, false, inner);
    assert(comment_place(files[s.active_file as int], rows_of(files, s), t) == comment_place(
        files[s.active_file as int],
        rows_of(files, s),
        s,
    ));
    lemma_followed_file(files, comments_wanted(files, t, true, inner).0, inner);
    lemma_followed_file(files, comments_wanted(files, t, false, inner).0, inner);
}

} // verus!

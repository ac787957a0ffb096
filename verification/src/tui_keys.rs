//! What keys and the mouse do to a review.
use vstd::prelude::*;
use crate::diff::{file_models, DiffFile, DiffLine, DiffSnapshot, FileModel, LineModel};
use crate::store::{reviewed, Store};
use crate::tui::{
    cleared_selection, closed_comments, heights, layout_fits, line_number, minus, number_of,
    opened_comments, panelled, ready, rows_of, Focus, Layout, State, StateModel,
};
use crate::tui_geometry::{moved, within};
use crate::tui_input::{KeyCode, KeyEvent, KeyEventKind, MouseButton, MouseEvent, MouseEventKind};
use crate::tui_nav::{
    anchor_of, anchored, capture_anchor, center, centered, ensure_visible, file_moved, file_opened,
    file_tree_start, folds_toggled, lemma_view_rows, line_moved, move_file, move_index, move_line,
    move_visual, moved_index, open_file, restore_anchor, row_at_offset, screen_moved, scroll_of,
    toggle_folds, tree_start, visible, with_cursor,
};
use crate::tui_view::{
    change_after, change_before, comment_line_of, larger, next_change, previous_change, row_models,
    FileView, RowModel, ViewMode, VisualRow,
};

verus! {

/// The number of lines of the help.
pub const HELP_LINES: usize = 16;

/// What the caller has to do after a key.
#[derive(Clone, Copy, Debug, PartialEq, Eq, Structural)]
pub enum KeyAction {
    Continue,
    Quit,
    /// Open the comment editor.
    Comment,
    /// Copy the selected rows.
    Copy,
    /// Keep that the active file is, or is no longer, reviewed.
    Review(bool),
}

// ---------------------------------------------------------------------------
// The code that a comment is about
// ---------------------------------------------------------------------------

/// A number that is at most another.
pub open spec fn at_most(n: int, limit: int) -> int {
    if n <= limit {
        n
    } else {
        limit
    }
}

/// The rows from the start of the selection to the cursor, in order; without a
/// selection, the row of the cursor.
pub open spec fn selected_rows(s: StateModel, count: int) -> (int, int) {
    let cursor = at_most(s.cursor_row as int, count - 1);
    let start = match s.selection_start {
        Some(x) => at_most(x as int, count - 1),
        None => cursor,
    };
    if start <= cursor {
        (start, cursor)
    } else {
        (cursor, start)
    }
}

/// Whether a comment can be about a row.
pub open spec fn takes_comment(r: RowModel) -> bool {
    comment_line_of(r) matches Some(l) && number_of(l) is Some
}

/// The first row from `i` to before `end` that takes a comment.
pub open spec fn first_taking(rows: Seq<RowModel>, i: int, end: int) -> Option<int>
    decreases end - i,
{
    if i >= end {
        None
    } else if takes_comment(rows[i]) {
        Some(i)
    } else {
        first_taking(rows, i + 1, end)
    }
}

/// The last row from `i` to before `end` that takes a comment.
pub open spec fn last_taking(rows: Seq<RowModel>, i: int, end: int) -> Option<int>
    decreases end - i,
{
    if i >= end {
        None
    } else if takes_comment(rows[end - 1]) {
        Some(end - 1)
    } else {
        last_taking(rows, i, end - 1)
    }
}

/// The heading of the hunk that a row belongs to.
pub open spec fn header_of(f: FileModel, r: RowModel) -> Seq<char> {
    match r.hunk_index {
        Some(i) => if i < f.hunks.len() {
            f.hunks[i as int].header
        } else {
            ""@
        },
        None => ""@,
    }
}

/// What a comment would be about: the first selected line of code, the heading
/// of its hunk, and the number of the last selected line of code.
pub open spec fn comment_place(f: FileModel, rows: Seq<RowModel>, s: StateModel) -> Option<
    (LineModel, Seq<char>, u32),
> {
    if rows.len() == 0 {
        None
    } else {
        let (low, high) = selected_rows(s, rows.len() as int);
        match (first_taking(rows, low, high + 1), last_taking(rows, low, high + 1)) {
            (Some(a), Some(b)) => Some(
                (
                    comment_line_of(rows[a])->0,
                    header_of(f, rows[a]),
                    number_of(comment_line_of(rows[b])->0)->0,
                ),
            ),
            _ => None,
        }
    }
}

proof fn lemma_first_taking(rows: Seq<RowModel>, i: int, end: int)
    ensures
        first_taking(rows, i, end) is Some ==> i <= first_taking(rows, i, end)->0 < end
            && takes_comment(rows[first_taking(rows, i, end)->0]),
        forall|k: int|
            i <= k < end && takes_comment(#[trigger] rows[k]) ==> first_taking(rows, i, end) is Some
                && first_taking(rows, i, end)->0 <= k,
    decreases end - i,
{
    if i < end && !takes_comment(rows[i]) {
        lemma_first_taking(rows, i + 1, end);
    }
}

proof fn lemma_last_taking(rows: Seq<RowModel>, i: int, end: int)
    ensures
        last_taking(rows, i, end) is Some ==> i <= last_taking(rows, i, end)->0 < end
            && takes_comment(rows[last_taking(rows, i, end)->0]),
        forall|k: int|
            i <= k < end && takes_comment(#[trigger] rows[k]) ==> last_taking(rows, i, end) is Some
                && last_taking(rows, i, end)->0 >= k,
    decreases end - i,
{
    if i < end && !takes_comment(rows[end - 1]) {
        lemma_last_taking(rows, i, end - 1);
    }
}

/// A comment is about selected code only: there is a place for it exactly
/// where a selected row takes one, and it is never on a row beside them.
pub proof fn law_comment_is_on_selection(f: FileModel, rows: Seq<RowModel>, s: StateModel)
    requires
        rows.len() > 0,
    ensures
        ({
            let (low, high) = selected_rows(s, rows.len() as int);
            &&& comment_place(f, rows, s) is Some <==> exists|k: int|
                low <= k <= high && takes_comment(#[trigger] rows[k])
            &&& comment_place(f, rows, s) matches Some(p) ==> exists|a: int, b: int|
                low <= a <= b <= high && comment_line_of(#[trigger] rows[a]) == Some(p.0)
                    && number_of(comment_line_of(#[trigger] rows[b])->0) == Some(p.2)
        }),
{
    let (low, high) = selected_rows(s, rows.len() as int);
    lemma_first_taking(rows, low, high + 1);
    lemma_last_taking(rows, low, high + 1);
    match (first_taking(rows, low, high + 1), last_taking(rows, low, high + 1)) {
        (Some(a), Some(b)) => {
            assert(takes_comment(rows[a]) && takes_comment(rows[b]));
            assert(a <= b);
        },
        _ => {},
    }
}

/// What a place for a comment says.
pub open spec fn opt_place(r: Option<(&DiffLine, &str, u32)>) -> Option<
    (LineModel, Seq<char>, u32),
> {
    match r {
        Some((line, header, end)) => Some((line@, header@, end)),
        None => None,
    }
}

fn row_number(row: &VisualRow<'_>) -> (r: Option<u32>)
    ensures
        r == match comment_line_of(row@) {
            Some(l) => number_of(l),
            None => None,
        },
{
    match row.comment_line() {
        Some(line) => line_number(line),
        None => None,
    }
}

fn row_header<'a>(file: &'a DiffFile, row: &VisualRow<'a>) -> (r: &'a str)
    ensures
        r@ == header_of(file@, row@),
{
    match row.hunk_index {
        Some(i) => if i < file.hunks.len() {
            file.hunks[i].header.as_str()
        } else {
            ""
        },
        None => "",
    }
}

/// The selected rows of a list that is not empty.
pub fn selection_bounds(state: &State, count: usize) -> (r: (usize, usize))
    requires
        count > 0,
    ensures
        (r.0 as int, r.1 as int) == selected_rows(state@, count as int),
        r.0 <= r.1 < count,
{
    let cursor: usize = if state.cursor_row <= count - 1 {
        state.cursor_row
    } else {
        count - 1
    };
    let start: usize = match state.selection_start {
        Some(x) => if x <= count - 1 {
            x
        } else {
            count - 1
        },
        None => cursor,
    };
    if start <= cursor {
        (start, cursor)
    } else {
        (cursor, start)
    }
}

/// What a comment would be about.
pub fn comment_anchor<'a>(file: &'a DiffFile, view: &FileView<'a>, state: &State) -> (r: Option<
    (&'a DiffLine, &'a str, u32),
>)
    ensures
        opt_place(r) == comment_place(file@, row_models(view.rows@), state@),
{
    let ghost rows = row_models(view.rows@);
    let count: usize = view.rows.len();
    if count == 0 {
        return None;
    }
    let (low, high) = selection_bounds(state, count);
    let mut i: usize = low;
    while i <= high && row_number(&view.rows[i]).is_none()
        invariant
            rows == row_models(view.rows@),
            low <= i <= high + 1,
            high < count == view.rows@.len(),
            first_taking(rows, low as int, high + 1) == first_taking(rows, i as int, high + 1),
        decreases high + 1 - i,
    {
        assert(rows[i as int] == view.rows@[i as int]@);
        i += 1;
    }
    if i > high {
        return None;
    }
    let mut j: usize = high;
    assert(rows[i as int] == view.rows@[i as int]@);
    while row_number(&view.rows[j]).is_none()
        invariant
            rows == row_models(view.rows@),
            low <= i <= j <= high < view.rows@.len(),
            takes_comment(rows[i as int]),
            last_taking(rows, low as int, high + 1) == last_taking(rows, low as int, j + 1),
        decreases j,
    {
        assert(rows[j as int] == view.rows@[j as int]@);
        j -= 1;
    }
    assert(rows[j as int] == view.rows@[j as int]@);
    match (view.rows[i].comment_line(), row_number(&view.rows[j])) {
        (Some(line), Some(end)) => Some((line, row_header(file, &view.rows[i]), end)),
        _ => None,
    }
}

// ---------------------------------------------------------------------------
// Keys
// ---------------------------------------------------------------------------

/// How far a key moves, where a page is so many lines.
pub open spec fn distance(code: KeyCode, page: int) -> int {
    match code {
        KeyCode::Char(c) => if c == 'j' {
            1
        } else if c == 'k' {
            -1
        } else {
            0
        },
        KeyCode::Down => 1,
        KeyCode::Up => -1,
        KeyCode::PageDown => page,
        KeyCode::PageUp => -page,
        _ => 0,
    }
}

/// A number moved by a distance, as far as it can go.
pub open spec fn shifted(n: usize, delta: int) -> usize {
    within(n + delta, 0, usize::MAX as int) as usize
}

fn key_distance(code: KeyCode, page: usize) -> (r: (usize, bool))
    ensures
        crate::tui_nav::signed(r.0, r.1) == distance(code, page as int),
{
    match code {
        KeyCode::Char(c) => if c == 'j' {
            (1, true)
        } else if c == 'k' {
            (1, false)
        } else {
            (0, true)
        },
        KeyCode::Down => (1, true),
        KeyCode::Up => (1, false),
        KeyCode::PageDown => (page, true),
        KeyCode::PageUp => (page, false),
        _ => (0, true),
    }
}

fn shift(n: usize, count: usize, down: bool) -> (r: usize)
    ensures
        r == shifted(n, crate::tui_nav::signed(count, down)),
{
    if down {
        if count <= usize::MAX - n {
            n + count
        } else {
            usize::MAX
        }
    } else if count <= n {
        n - count
    } else {
        0
    }
}

/// Escape closes the help, the files or the comments, whichever is in front;
/// with nothing else open it clears the selection or hides the files.
pub open spec fn escaped(s: StateModel, l: Layout) -> StateModel {
    cleared_selection(
        if s.help {
            StateModel { help: false, ..s }
        } else if s.focus == Focus::Files {
            StateModel { sidebar_open: false, focus: Focus::Code, ..s }
        } else if s.focus == Focus::Comments || (s.selection_start is None && s.comment_open) {
            closed_comments(s, l)
        } else if s.selection_start is None {
            StateModel { sidebar_open: false, ..s }
        } else {
            s
        },
    )
}

fn escape(state: &mut State, layout: Layout)
    ensures
        final(state)@ == escaped(old(state)@, layout),
{
    if state.help {
        state.help = false;
    } else if state.focus == Focus::Files {
        state.sidebar_open = false;
        state.focus = Focus::Code;
    } else if state.focus == Focus::Comments || (state.selection_start.is_none()
        && state.comment_open) {
        state.close_comments(layout);
    } else if state.selection_start.is_none() {
        state.sidebar_open = false;
    }
    state.clear_selection();
}

/// A key while the help is shown: it scrolls, or the help is closed.
pub open spec fn help_key(s: StateModel, code: KeyCode, l: Layout) -> StateModel {
    let delta = distance(code, minus(l.height as nat, 3) as int);
    if delta != 0 {
        StateModel {
            help_scroll: within(
                s.help_scroll + delta,
                0,
                minus(HELP_LINES as nat, minus(l.height as nat, 2)) as int,
            ) as usize,
            ..s
        }
    } else {
        StateModel { help: false, pending: None, notice: seq![], ..s }
    }
}

fn key_in_help(state: &mut State, code: KeyCode, layout: Layout)
    requires
        layout.height >= 3,
    ensures
        final(state)@ == help_key(old(state)@, code, layout),
{
    let (count, down) = key_distance(code, layout.height - 3);
    if count != 0 {
        let last: usize = if HELP_LINES >= layout.height - 2 {
            HELP_LINES - (layout.height - 2)
        } else {
            0
        };
        let next = shift(state.help_scroll, count, down);
        state.help_scroll = if next <= last {
            next
        } else {
            last
        };
    } else {
        state.help = false;
        state.pending = None;
        state.notice = String::new();
        assert(state@.notice =~= Seq::<char>::empty());
    }
}

/// Tab opens the files, with the active one chosen, or closes them.
pub open spec fn tabbed(s: StateModel) -> StateModel {
    if s.focus == Focus::Files {
        StateModel { selection_start: None, sidebar_open: false, focus: Focus::Code, ..s }
    } else {
        StateModel {
            selection_start: None,
            sidebar_open: true,
            file_cursor: s.active_file,
            focus: Focus::Files,
            ..s
        }
    }
}

/// A key while the files have the focus: it chooses a file, and Enter opens
/// the chosen one.
#[verifier::opaque]
pub open spec fn files_key(files: Seq<FileModel>, s: StateModel, code: KeyCode, l: Layout) ->
    StateModel {
    let n = files.len() as int;
    let delta = distance(code, minus(l.height as nat, 3) as int);
    match code {
        KeyCode::Home => StateModel { file_cursor: 0, ..s },
        KeyCode::End => StateModel { file_cursor: (n - 1) as usize, ..s },
        KeyCode::Enter => file_opened(files, s, s.file_cursor, l),
        KeyCode::Char(c) => if c == 'G' {
            StateModel { file_cursor: (n - 1) as usize, ..s }
        } else if c == '?' {
            StateModel { help: true, ..s }
        } else if c == 'j' || c == 'k' {
            StateModel { file_cursor: moved_index(s.file_cursor, n, delta), ..s }
        } else {
            s
        },
        KeyCode::Down | KeyCode::Up | KeyCode::PageDown | KeyCode::PageUp => StateModel {
            file_cursor: moved_index(s.file_cursor, n, delta),
            ..s
        },
        _ => s,
    }
}

fn key_in_files(snapshot: &DiffSnapshot, state: &mut State, code: KeyCode, layout: Layout)
    requires
        ready(*snapshot, old(state)@),
        layout.width >= 1,
        layout.height >= 3,
    ensures
        final(state)@ == files_key(file_models(snapshot.files@), old(state)@, code, layout),
        ready(*snapshot, final(state)@),
{
    reveal(files_key);
    assert(file_models(snapshot.files@).len() == snapshot.files@.len());
    let n: usize = snapshot.files.len();
    let (count, down) = key_distance(code, layout.height - 3);
    match code {
        KeyCode::Home => {
            state.file_cursor = 0;
        },
        KeyCode::End => {
            state.file_cursor = n - 1;
        },
        KeyCode::Enter => {
            open_file(snapshot, state, state.file_cursor, layout);
        },
        KeyCode::Char(c) => {
            if c == 'G' {
                state.file_cursor = n - 1;
            } else if c == '?' {
                state.help = true;
            } else if c == 'j' || c == 'k' {
                state.file_cursor = move_index(state.file_cursor, n, count, down);
            }
        },
        KeyCode::Down | KeyCode::Up | KeyCode::PageDown | KeyCode::PageUp => {
            state.file_cursor = move_index(state.file_cursor, n, count, down);
        },
        _ => {},
    }
}

/// Whether a key does the same in the comments as in the code.
pub open spec fn shared_key(code: KeyCode) -> bool {
    code matches KeyCode::Char(c) && (c == 'c' || c == '?' || c == 'J' || c == 'K')
}

/// A key of their own while the comments have the focus: it scrolls them, and
/// Enter goes back to the code.
pub open spec fn comments_key(s: StateModel, code: KeyCode, l: Layout) -> StateModel {
    let delta = distance(code, larger(minus(l.dock_height as nat, 2), 1) as int);
    if delta != 0 {
        StateModel { comment_scroll: shifted(s.comment_scroll, delta), ..s }
    } else {
        match code {
            KeyCode::Enter => StateModel { focus: Focus::Code, ..s },
            KeyCode::Home => StateModel { comment_scroll: 0, ..s },
            KeyCode::End => StateModel { comment_scroll: usize::MAX, ..s },
            KeyCode::Char(c) => if c == 'g' {
                StateModel { comment_scroll: 0, ..s }
            } else if c == 'G' {
                StateModel { comment_scroll: usize::MAX, ..s }
            } else {
                s
            },
            _ => s,
        }
    }
}

fn is_shared_key(code: KeyCode) -> (r: bool)
    ensures
        r == shared_key(code),
{
    match code {
        KeyCode::Char(c) => c == 'c' || c == '?' || c == 'J' || c == 'K',
        _ => false,
    }
}

fn key_in_comments(state: &mut State, code: KeyCode, layout: Layout)
    ensures
        final(state)@ == comments_key(old(state)@, code, layout),
{
    let page: usize = if layout.dock_height >= 3 {
        layout.dock_height - 2
    } else {
        1
    };
    let (count, down) = key_distance(code, page);
    if count != 0 {
        state.comment_scroll = shift(state.comment_scroll, count, down);
        return;
    }
    match code {
        KeyCode::Enter => {
            state.focus = Focus::Code;
        },
        KeyCode::Home => {
            state.comment_scroll = 0;
        },
        KeyCode::End => {
            state.comment_scroll = usize::MAX;
        },
        KeyCode::Char(c) => {
            if c == 'g' {
                state.comment_scroll = 0;
            } else if c == 'G' {
                state.comment_scroll = usize::MAX;
            }
        },
        _ => {},
    }
}

pub open spec fn other_mode(m: ViewMode) -> ViewMode {
    if m == ViewMode::Stacked {
        ViewMode::Split
    } else {
        ViewMode::Stacked
    }
}

/// The other layout of the code, without a selection and at the same place.
#[verifier::opaque]
pub open spec fn mode_toggled(files: Seq<FileModel>, s: StateModel, l: Layout) -> StateModel {
    let next = StateModel { selection_start: None, mode: other_mode(s.mode), ..s };
    anchored(
        rows_of(files, next),
        heights(files, next, l),
        next,
        anchor_of(rows_of(files, s), heights(files, s, l), s),
        l.body_height,
    )
}

fn toggle_mode(snapshot: &DiffSnapshot, state: &mut State, layout: Layout)
    requires
        ready(*snapshot, old(state)@),
        layout.body_height >= 1,
    ensures
        final(state)@ == mode_toggled(file_models(snapshot.files@), old(state)@, layout),
        ready(*snapshot, final(state)@),
{
    reveal(mode_toggled);
    let ghost files = file_models(snapshot.files@);
    let view = state.file_view(snapshot);
    proof {
        lemma_view_rows(view, files, state@, layout);
    }
    let anchor = capture_anchor(&view, state, layout);
    state.selection_start = None;
    state.mode = if state.mode == ViewMode::Stacked {
        ViewMode::Split
    } else {
        ViewMode::Stacked
    };
    let updated = state.file_view(snapshot);
    proof {
        lemma_view_rows(updated, files, state@, layout);
    }
    restore_anchor(&updated, state, anchor, layout);
}

/// The cursor on the next or previous change, in the middle of the body.
#[verifier::opaque]
pub open spec fn change_visited(
    files: Seq<FileModel>,
    s: StateModel,
    forward: bool,
    l: Layout,
) -> StateModel {
    let changes = crate::tui::changes_of(files, s);
    let next = if forward {
        change_after(changes, s.cursor_row)
    } else {
        change_before(changes, s.cursor_row)
    };
    match next {
        Some(row) => centered(
            with_cursor(s, (row as int, 0)),
            heights(files, s, l),
            l.body_height,
        ),
        None => s,
    }
}

fn visit_change(snapshot: &DiffSnapshot, state: &mut State, forward: bool, layout: Layout)
    requires
        ready(*snapshot, old(state)@),
        layout.body_height >= 1,
    ensures
        final(state)@ == change_visited(
            file_models(snapshot.files@),
            old(state)@,
            forward,
            layout,
        ),
        ready(*snapshot, final(state)@),
{
    reveal(change_visited);
    let view = state.file_view(snapshot);
    proof {
        lemma_view_rows(view, file_models(snapshot.files@), state@, layout);
    }
    let next = if forward {
        next_change(&view, state.cursor_row)
    } else {
        previous_change(&view, state.cursor_row)
    };
    if let Some(row) = next {
        state.cursor_row = row;
        state.cursor_line = 0;
        center(&view, state, layout);
    }
}

/// The comments opened at the cursor, to write one or to read them.
#[verifier::opaque]
pub open spec fn comments_wanted(
    files: Seq<FileModel>,
    s: StateModel,
    write: bool,
    l: Layout,
) -> (StateModel, KeyAction) {
    let place = comment_place(files[s.active_file as int], rows_of(files, s), s);
    if place is None {
        (
            StateModel { notice: "select a code line to comment"@, ..s },
            KeyAction::Continue,
        )
    } else if l.height < 7 || l.main_width < 20 {
        (
            StateModel { notice: "enlarge terminal to open comments"@, ..s },
            KeyAction::Continue,
        )
    } else if write {
        (opened_comments(s, Focus::Editor, l), KeyAction::Comment)
    } else {
        (opened_comments(s, Focus::Comments, l), KeyAction::Continue)
    }
}

fn want_comments(
    snapshot: &DiffSnapshot,
    state: &mut State,
    write: bool,
    layout: Layout,
) -> (r: KeyAction)
    requires
        ready(*snapshot, old(state)@),
    ensures
        (final(state)@, r) == comments_wanted(
            file_models(snapshot.files@),
            old(state)@,
            write,
            layout,
        ),
        ready(*snapshot, final(state)@),
{
    reveal(comments_wanted);
    let view = state.file_view(snapshot);
    proof {
        lemma_view_rows(view, file_models(snapshot.files@), state@, layout);
    }
    let place = comment_anchor(&snapshot.files[state.active_file], &view, state);
    if place.is_none() {
        state.notice = "select a code line to comment".to_string();
        KeyAction::Continue
    } else if layout.height < 7 || layout.main_width < 20 {
        state.notice = "enlarge terminal to open comments".to_string();
        KeyAction::Continue
    } else if write {
        state.open_comments(Focus::Editor, layout);
        KeyAction::Comment
    } else {
        state.open_comments(Focus::Comments, layout);
        KeyAction::Continue
    }
}

/// Which files of a snapshot are reviewed.
pub open spec fn marks(snapshot: DiffSnapshot, store: Store) -> Seq<bool> {
    let files = file_models(snapshot.files@);
    Seq::new(
        files.len(),
        |k: int|
            reviewed(
                store@.states,
                files[k].path,
                files[k].patch_fingerprint,
                snapshot.review_target.target_id@,
            ),
    )
}

/// The first file that is not reviewed.
pub open spec fn first_unreviewed(marks: Seq<bool>, i: int) -> Option<int>
    decreases marks.len() - i,
{
    if i < 0 || i >= marks.len() {
        None
    } else if !marks[i] {
        Some(i)
    } else {
        first_unreviewed(marks, i + 1)
    }
}

fn file_reviewed(snapshot: &DiffSnapshot, store: &Store, index: usize) -> (r: bool)
    requires
        index < snapshot.files@.len(),
    ensures
        r == marks(*snapshot, *store)[index as int],
{
    let file = &snapshot.files[index];
    assert(file_models(snapshot.files@)[index as int] == file@);
    store.is_reviewed(
        file.path.as_str(),
        file.patch_fingerprint.as_str(),
        snapshot.review_target.target_id.as_str(),
    )
}

fn find_unreviewed(snapshot: &DiffSnapshot, store: &Store) -> (r: Option<usize>)
    ensures
        match r {
            Some(i) => first_unreviewed(marks(*snapshot, *store), 0) == Some(i as int) && i
                < snapshot.files@.len(),
            None => first_unreviewed(marks(*snapshot, *store), 0) is None,
        },
{
    let ghost m = marks(*snapshot, *store);
    let mut i: usize = 0;
    while i < snapshot.files.len()
        invariant
            m == marks(*snapshot, *store),
            m.len() == snapshot.files@.len(),
            i <= snapshot.files@.len(),
            first_unreviewed(m, 0) == first_unreviewed(m, i as int),
        decreases snapshot.files@.len() - i,
    {
        if !file_reviewed(snapshot, store, i) {
            return Some(i);
        }
        i += 1;
    }
    None
}

/// A letter while the code has the focus.  `pending` is the letter before it,
/// where that starts a pair.
#[verifier::opaque]
pub open spec fn letter_key(
    files: Seq<FileModel>,
    marks: Seq<bool>,
    s: StateModel,
    pending: Option<char>,
    c: char,
    l: Layout,
) -> (StateModel, KeyAction) {
    let pair = pending == Some('[') || pending == Some(']');
    let next = if c == 'g' && pending != Some('g') {
        StateModel { pending: Some('g'), ..s }
    } else if c == 'g' {
        with_cursor(s, (0, 0))
    } else if c == 'G' {
        at_end(files, s)
    } else if c == '[' || c == ']' {
        StateModel { pending: Some(c), ..s }
    } else if c == 'f' && pair {
        file_moved(
            files,
            s,
            if pending == Some('[') {
                -1
            } else {
                1
            },
            l,
        )
    } else if c == 'j' {
        line_moved(files, s, 1)
    } else if c == 'k' {
        line_moved(files, s, -1)
    } else if c == 'J' {
        file_moved(files, s, 1, l)
    } else if c == 'K' {
        file_moved(files, s, -1, l)
    } else if c == 'n' || c == 'p' {
        change_visited(files, s, c == 'n', l)
    } else if c == 'C' || c == 'z' || c == 'Z' {
        folds_toggled(files, s, c, l)
    } else if c == 'v' {
        mode_toggled(files, s, l)
    } else if c == 'V' {
        StateModel {
            selection_start: if s.selection_start is Some {
                None
            } else {
                Some(s.cursor_row)
            },
            ..s
        }
    } else if c == 'c' {
        comments_wanted(files, s, true, l).0
    } else if c == '?' {
        StateModel { help: !s.help, ..s }
    } else if c == 'u' && first_unreviewed(marks, 0) is Some {
        file_opened(files, s, first_unreviewed(marks, 0)->0 as usize, l)
    } else {
        s
    };
    let action = if c == 'y' {
        KeyAction::Copy
    } else if c == 'c' {
        comments_wanted(files, s, true, l).1
    } else if c == 'r' {
        KeyAction::Review(!marks[s.active_file as int])
    } else {
        KeyAction::Continue
    };
    (next, action)
}

/// The cursor on the last line of the last row.
pub open spec fn at_end(files: Seq<FileModel>, s: StateModel) -> StateModel {
    StateModel {
        cursor_row: minus(rows_of(files, s).len(), 1) as usize,
        cursor_line: usize::MAX,
        ..s
    }
}

fn go_to_end(snapshot: &DiffSnapshot, state: &mut State)
    requires
        ready(*snapshot, old(state)@),
    ensures
        final(state)@ == at_end(file_models(snapshot.files@), old(state)@),
        ready(*snapshot, final(state)@),
{
    let view = state.file_view(snapshot);
    proof {
        lemma_view_rows(
            view,
            file_models(snapshot.files@),
            state@,
            crate::tui::bare_layout(1, 3),
        );
    }
    state.cursor_row = if view.rows.len() >= 1 {
        view.rows.len() - 1
    } else {
        0
    };
    state.cursor_line = usize::MAX;
}

fn letter(
    snapshot: &DiffSnapshot,
    store: &Store,
    state: &mut State,
    pending: Option<char>,
    c: char,
    layout: Layout,
) -> (r: KeyAction)
    requires
        ready(*snapshot, old(state)@),
        layout_fits(layout),
    ensures
        (final(state)@, r) == letter_key(
            file_models(snapshot.files@),
            marks(*snapshot, *store),
            old(state)@,
            pending,
            c,
            layout,
        ),
        ready(*snapshot, final(state)@),
{
    reveal(letter_key);
    let mut action = KeyAction::Continue;
    match c {
        'g' => {
            if pending != Some('g') {
                state.pending = Some('g');
            } else {
                state.cursor_row = 0;
                state.cursor_line = 0;
            }
        },
        'G' => go_to_end(snapshot, state),
        '[' | ']' => {
            state.pending = Some(c);
        },
        'f' => {
            if pending == Some('[') {
                move_file(snapshot, state, 1, false, layout);
            } else if pending == Some(']') {
                move_file(snapshot, state, 1, true, layout);
            }
        },
        'j' => move_line(snapshot, state, 1, true),
        'k' => move_line(snapshot, state, 1, false),
        'J' => move_file(snapshot, state, 1, true, layout),
        'K' => move_file(snapshot, state, 1, false, layout),
        'n' | 'p' => visit_change(snapshot, state, c == 'n', layout),
        'C' | 'z' | 'Z' => toggle_folds(snapshot, state, c, layout),
        'v' => toggle_mode(snapshot, state, layout),
        'V' => {
            state.selection_start = if state.selection_start.is_some() {
                None
            } else {
                Some(state.cursor_row)
            };
        },
        'y' => {
            action = KeyAction::Copy;
        },
        'c' => {
            action = want_comments(snapshot, state, true, layout);
        },
        '?' => {
            state.help = !state.help;
        },
        'u' => {
            if let Some(index) = find_unreviewed(snapshot, store) {
                open_file(snapshot, state, index, layout);
            }
        },
        'r' => {
            action = KeyAction::Review(!file_reviewed(snapshot, store, state.active_file));
        },
        _ => {},
    }
    action
}

/// A key while the code has the focus.
#[verifier::opaque]
pub open spec fn code_key(
    files: Seq<FileModel>,
    marks: Seq<bool>,
    s: StateModel,
    pending: Option<char>,
    code: KeyCode,
    l: Layout,
) -> (StateModel, KeyAction) {
    let page = larger(minus(l.body_height as nat, 1), 1) as int;
    match code {
        KeyCode::Char(c) => letter_key(files, marks, s, pending, c, l),
        KeyCode::Home => (with_cursor(s, (0, 0)), KeyAction::Continue),
        KeyCode::End => (at_end(files, s), KeyAction::Continue),
        KeyCode::Down => (line_moved(files, s, 1), KeyAction::Continue),
        KeyCode::Up => (line_moved(files, s, -1), KeyAction::Continue),
        KeyCode::PageDown => (screen_moved(files, s, page, l), KeyAction::Continue),
        KeyCode::PageUp => (screen_moved(files, s, -page, l), KeyAction::Continue),
        KeyCode::Enter => comments_wanted(files, s, false, l),
        _ => (s, KeyAction::Continue),
    }
}

fn key_in_code(
    snapshot: &DiffSnapshot,
    store: &Store,
    state: &mut State,
    pending: Option<char>,
    code: KeyCode,
    layout: Layout,
) -> (r: KeyAction)
    requires
        ready(*snapshot, old(state)@),
        layout_fits(layout),
    ensures
        (final(state)@, r) == code_key(
            file_models(snapshot.files@),
            marks(*snapshot, *store),
            old(state)@,
            pending,
            code,
            layout,
        ),
        ready(*snapshot, final(state)@),
{
    reveal(code_key);
    let page: usize = if layout.body_height >= 2 {
        layout.body_height - 1
    } else {
        1
    };
    match code {
        KeyCode::Char(c) => letter(snapshot, store, state, pending, c, layout),
        KeyCode::Home => {
            state.cursor_row = 0;
            state.cursor_line = 0;
            KeyAction::Continue
        },
        KeyCode::End => {
            go_to_end(snapshot, state);
            KeyAction::Continue
        },
        KeyCode::Down => {
            move_line(snapshot, state, 1, true);
            KeyAction::Continue
        },
        KeyCode::Up => {
            move_line(snapshot, state, 1, false);
            KeyAction::Continue
        },
        KeyCode::PageDown => {
            move_visual(snapshot, state, page, true, layout);
            KeyAction::Continue
        },
        KeyCode::PageUp => {
            move_visual(snapshot, state, page, false, layout);
            KeyAction::Continue
        },
        KeyCode::Enter => want_comments(snapshot, state, false, layout),
        _ => KeyAction::Continue,
    }
}

/// A state with the cursor followed, on the screen as it then is.
#[verifier::opaque]
pub open spec fn followed(files: Seq<FileModel>, s: StateModel, l: Layout) -> StateModel {
    let inner = panelled(l, s);
    visible(s, heights(files, s, inner), inner.body_height)
}

/// A key that is neither a general one nor for the help: it goes to the part
/// of the screen that has the focus.
#[verifier::opaque]
pub open spec fn focused_key(
    files: Seq<FileModel>,
    marks: Seq<bool>,
    s: StateModel,
    code: KeyCode,
    l: Layout,
) -> (StateModel, KeyAction) {
    let t = StateModel {
        notice: if code == KeyCode::Char('y') {
            s.notice
        } else {
            seq![]
        },
        pending: None,
        ..s
    };
    if code == KeyCode::Tab {
        (tabbed(t), KeyAction::Continue)
    } else if t.focus == Focus::Files {
        (files_key(files, t, code, l), KeyAction::Continue)
    } else if t.focus == Focus::Comments && !shared_key(code) {
        (comments_key(t, code, l), KeyAction::Continue)
    } else {
        let (u, action) = code_key(files, marks, t, s.pending, code, l);
        if action == KeyAction::Copy || action == KeyAction::Comment {
            (u, action)
        } else {
            (followed(files, u, l), action)
        }
    }
}

/// What a key does to a state, and what the caller has to do.
#[verifier::opaque]
pub open spec fn key_outcome(
    files: Seq<FileModel>,
    marks: Seq<bool>,
    s: StateModel,
    key: KeyEvent,
    layout: Layout,
) -> (StateModel, KeyAction) {
    let l = panelled(layout, s);
    if key.kind == KeyEventKind::Release {
        (s, KeyAction::Continue)
    } else if key.modifiers.control && key.code == KeyCode::Char('c') {
        (s, KeyAction::Quit)
    } else if key.modifiers.control || key.modifiers.alt {
        (s, KeyAction::Continue)
    } else if key.code == KeyCode::Char('q') {
        (s, KeyAction::Quit)
    } else if key.code == KeyCode::Esc {
        (escaped(s, l), KeyAction::Continue)
    } else if s.help && key.code != KeyCode::Char('?') {
        (help_key(s, key.code, l), KeyAction::Continue)
    } else {
        focused_key(files, marks, s, key.code, l)
    }
}

/// Follows the cursor on the screen as it then is.
fn follow_cursor(snapshot: &DiffSnapshot, state: &mut State, layout: Layout)
    requires
        ready(*snapshot, old(state)@),
        layout.width >= 1,
        layout.height >= 3,
    ensures
        final(state)@ == followed(file_models(snapshot.files@), old(state)@, layout),
        ready(*snapshot, final(state)@),
{
    reveal(followed);
    let view = state.file_view(snapshot);
    let inner = layout.with_panels(state);
    proof {
        lemma_view_rows(view, file_models(snapshot.files@), state@, inner);
    }
    ensure_visible(&view, state, inner);
}

fn tab(state: &mut State)
    ensures
        final(state)@ == tabbed(old(state)@),
{
    state.selection_start = None;
    if state.focus == Focus::Files {
        state.sidebar_open = false;
        state.focus = Focus::Code;
    } else {
        state.sidebar_open = true;
        state.file_cursor = state.active_file;
        state.focus = Focus::Files;
    }
}

fn key_in_focus(
    snapshot: &DiffSnapshot,
    store: &Store,
    state: &mut State,
    code: KeyCode,
    layout: Layout,
) -> (r: KeyAction)
    requires
        ready(*snapshot, old(state)@),
        layout_fits(layout),
    ensures
        (final(state)@, r) == focused_key(
            file_models(snapshot.files@),
            marks(*snapshot, *store),
            old(state)@,
            code,
            layout,
        ),
        ready(*snapshot, final(state)@),
{
    reveal(focused_key);
    if code != KeyCode::Char('y') {
        state.notice = String::new();
        assert(state@.notice =~= Seq::<char>::empty());
    }
    let pending = state.pending;
    state.pending = None;
    if code == KeyCode::Tab {
        tab(state);
        return KeyAction::Continue;
    }
    if state.focus == Focus::Files {
        key_in_files(snapshot, state, code, layout);
        return KeyAction::Continue;
    }
    if state.focus == Focus::Comments && !is_shared_key(code) {
        key_in_comments(state, code, layout);
        return KeyAction::Continue;
    }
    let action = key_in_code(snapshot, store, state, pending, code, layout);
    if action != KeyAction::Copy && action != KeyAction::Comment {
        follow_cursor(snapshot, state, layout);
    }
    action
}

/// Takes a key.  What goes beyond the state is left to the caller.
pub fn handle_key(
    snapshot: &DiffSnapshot,
    store: &Store,
    state: &mut State,
    key: KeyEvent,
    layout: Layout,
) -> (r: KeyAction)
    requires
        ready(*snapshot, old(state)@),
        layout.width >= 1,
        layout.height >= 3,
    ensures
        (final(state)@, r) == key_outcome(
            file_models(snapshot.files@),
            marks(*snapshot, *store),
            old(state)@,
            key,
            layout,
        ),
        ready(*snapshot, final(state)@),
{
    reveal(key_outcome);
    if key.kind == KeyEventKind::Release {
        return KeyAction::Continue;
    }
    if key.modifiers.control && key.code == KeyCode::Char('c') {
        return KeyAction::Quit;
    }
    if key.modifiers.control || key.modifiers.alt {
        return KeyAction::Continue;
    }
    if key.code == KeyCode::Char('q') {
        return KeyAction::Quit;
    }
    let layout = layout.with_panels(state);
    if key.code == KeyCode::Esc {
        escape(state, layout);
        return KeyAction::Continue;
    }
    if state.help && key.code != KeyCode::Char('?') {
        key_in_help(state, key.code, layout);
        return KeyAction::Continue;
    }
    key_in_focus(snapshot, store, state, key.code, layout)
}

// ---------------------------------------------------------------------------
// The mouse
// ---------------------------------------------------------------------------

/// How far the wheel moves when it has been turned so many times.
pub open spec fn wheel(kind: MouseEventKind, repeat: u16) -> int {
    match kind {
        MouseEventKind::ScrollUp => -(3 * repeat as int),
        MouseEventKind::ScrollDown => 3 * repeat as int,
        _ => 0,
    }
}

/// Whether the mouse does nothing there: it is outside the body, the help
/// covers the body, or the event is only a motion.
pub open spec fn mouse_ignored(s: StateModel, m: MouseEvent, l: Layout) -> bool {
    s.help || m.column >= l.width || m.row < 1 || m.row >= l.height - 1 || m.kind
        is Moved || m.kind is Up
}

/// The wheel chooses a file, scrolls the comments, or moves the cursor,
/// whichever is below the mouse.
pub open spec fn wheel_turned(
    files: Seq<FileModel>,
    s: StateModel,
    delta: int,
    sidebar: bool,
    dock: bool,
    l: Layout,
) -> StateModel {
    if sidebar {
        StateModel {
            focus: Focus::Files,
            file_cursor: moved_index(s.file_cursor, files.len() as int, delta),
            ..s
        }
    } else if dock {
        StateModel {
            focus: Focus::Comments,
            comment_scroll: shifted(s.comment_scroll, delta),
            ..s
        }
    } else {
        screen_moved(files, StateModel { focus: Focus::Code, ..s }, delta, l)
    }
}

/// A click on the code, or a drag over it, moves the cursor; a drag keeps the
/// other end of the selection.
pub open spec fn code_clicked(
    files: Seq<FileModel>,
    s: StateModel,
    offset: int,
    drag: bool,
    l: Layout,
) -> StateModel {
    let focused = StateModel { focus: Focus::Code, ..s };
    let h = heights(files, focused, l);
    if h.len() == 0 {
        focused
    } else {
        visible(
            with_cursor(
                StateModel {
                    selection_start: if !drag {
                        None
                    } else if s.selection_start is Some {
                        s.selection_start
                    } else {
                        Some(s.cursor_row)
                    },
                    comment_scroll: 0,
                    ..focused
                },
                moved(h, scroll_of(s), offset),
            ),
            h,
            l.body_height,
        )
    }
}

/// A click on a file opens it.
pub open spec fn file_clicked(
    files: Seq<FileModel>,
    s: StateModel,
    row: int,
    l: Layout,
) -> StateModel {
    let index = tree_start(
        files.len(),
        s.file_cursor as nat,
        minus(l.height as nat, 2),
    ) + row - 2;
    if row != 1 && index < files.len() {
        file_opened(files, s, index as usize, l)
    } else {
        s
    }
}

/// What the mouse does to a state.
pub open spec fn mouse_outcome(
    files: Seq<FileModel>,
    s: StateModel,
    m: MouseEvent,
    repeat: u16,
    layout: Layout,
) -> StateModel {
    let l = panelled(layout, s);
    if mouse_ignored(s, m, l) {
        s
    } else {
        let t = StateModel { pending: None, notice: seq![], ..s };
        let sidebar = m.column < l.sidebar_width;
        let dock = !sidebar && l.dock_height > 0 && m.row >= l.dock_y;
        let delta = wheel(m.kind, repeat);
        let drag = m.kind == MouseEventKind::Drag(MouseButton::Left);
        if delta != 0 {
            wheel_turned(files, t, delta, sidebar, dock, l)
        } else if m.kind != MouseEventKind::Down(MouseButton::Left) && !drag {
            t
        } else if sidebar {
            if drag {
                t
            } else {
                file_clicked(files, t, m.row as int, l)
            }
        } else if dock {
            StateModel { focus: Focus::Comments, ..t }
        } else if m.column >= l.main_x {
            code_clicked(files, t, m.row - 1, drag, l)
        } else {
            t
        }
    }
}

fn turn_wheel(
    snapshot: &DiffSnapshot,
    state: &mut State,
    count: usize,
    down: bool,
    sidebar: bool,
    dock: bool,
    layout: Layout,
)
    requires
        ready(*snapshot, old(state)@),
        layout.body_height >= 1,
    ensures
        final(state)@ == wheel_turned(
            file_models(snapshot.files@),
            old(state)@,
            crate::tui_nav::signed(count, down),
            sidebar,
            dock,
            layout,
        ),
        ready(*snapshot, final(state)@),
{
    assert(file_models(snapshot.files@).len() == snapshot.files@.len());
    if sidebar {
        state.focus = Focus::Files;
        state.file_cursor = move_index(state.file_cursor, snapshot.files.len(), count, down);
    } else if dock {
        state.focus = Focus::Comments;
        state.comment_scroll = shift(state.comment_scroll, count, down);
    } else {
        state.focus = Focus::Code;
        move_visual(snapshot, state, count, down, layout);
    }
}

fn click_code(
    snapshot: &DiffSnapshot,
    state: &mut State,
    offset: usize,
    drag: bool,
    layout: Layout,
)
    requires
        ready(*snapshot, old(state)@),
        layout.body_height >= 1,
    ensures
        final(state)@ == code_clicked(
            file_models(snapshot.files@),
            old(state)@,
            offset as int,
            drag,
            layout,
        ),
        ready(*snapshot, final(state)@),
{
    state.focus = Focus::Code;
    let view = state.file_view(snapshot);
    proof {
        lemma_view_rows(view, file_models(snapshot.files@), state@, layout);
    }
    if view.rows.len() == 0 {
        return;
    }
    let (row, line) = row_at_offset(&view, state, offset, layout);
    if !drag {
        state.selection_start = None;
    } else if state.selection_start.is_none() {
        state.selection_start = Some(state.cursor_row);
    }
    state.cursor_row = row;
    state.cursor_line = line;
    state.comment_scroll = 0;
    ensure_visible(&view, state, layout);
}

fn click_file(snapshot: &DiffSnapshot, state: &mut State, row: usize, layout: Layout)
    requires
        ready(*snapshot, old(state)@),
        1 <= row,
        row < layout.height,
        layout.width >= 1,
        layout.height >= 3,
    ensures
        final(state)@ == file_clicked(
            file_models(snapshot.files@),
            old(state)@,
            row as int,
            layout,
        ),
        ready(*snapshot, final(state)@),
{
    assert(file_models(snapshot.files@).len() == snapshot.files@.len());
    if row == 1 {
        return;
    }
    let count: usize = snapshot.files.len();
    let start: usize = file_tree_start(count, state.file_cursor, layout.height - 2);
    if start < count && row - 2 < count - start {
        open_file(snapshot, state, start + (row - 2), layout);
    }
}

/// Takes a mouse event; `repeat` counts the turns of the wheel.
pub fn handle_mouse(
    snapshot: &DiffSnapshot,
    state: &mut State,
    mouse: MouseEvent,
    repeat: u16,
    layout: Layout,
)
    requires
        ready(*snapshot, old(state)@),
        layout.width >= 1,
        layout.height >= 3,
    ensures
        final(state)@ == mouse_outcome(
            file_models(snapshot.files@),
            old(state)@,
            mouse,
            repeat,
            layout,
        ),
        ready(*snapshot, final(state)@),
{
    let layout = layout.with_panels(state);
    let column: usize = mouse.column as usize;
    let row: usize = mouse.row as usize;
    // Nothing but the body takes the mouse.
    if state.help || column >= layout.width || row < 1 || row >= layout.height - 1 || matches!(
        mouse.kind,
        MouseEventKind::Moved | MouseEventKind::Up(_)
    ) {
        return;
    }
    state.pending = None;
    state.notice = String::new();
    assert(state@.notice =~= Seq::<char>::empty());
    let sidebar = column < layout.sidebar_width;
    let dock = !sidebar && layout.dock_height > 0 && row >= layout.dock_y;
    let down = mouse.kind == MouseEventKind::ScrollDown;
    if (down || mouse.kind == MouseEventKind::ScrollUp) && repeat > 0 {
        turn_wheel(snapshot, state, 3 * repeat as usize, down, sidebar, dock, layout);
        return;
    }
    let drag = mouse.kind == MouseEventKind::Drag(MouseButton::Left);
    if mouse.kind != MouseEventKind::Down(MouseButton::Left) && !drag {
        return;
    }
    if sidebar {
        if !drag {
            click_file(snapshot, state, row, layout);
        }
    } else if dock {
        state.focus = Focus::Comments;
    } else if column >= layout.main_x {
        click_code(snapshot, state, row - 1, drag, layout);
    }
}

} // verus!

//! What holds of moving through a review.
use vstd::prelude::*;
use crate::diff::{FileModel, LineModel};
use crate::tui::{
    captured_position, digits_of, heights, panelled, rows_of, setting_of, Focus, Layout, StateModel,
};
use crate::tui_geometry::{
    above, filled, flat, law_moves_add_up, lemma_above_order, lemma_above_step, lemma_flat_order,
    lemma_flat_place, lemma_moved_on_rows, lemma_place_flat, lemma_settled, moved, on_rows, place,
};
use crate::tui_input::{KeyCode, MouseEvent, MouseEventKind};
use crate::tui_keys::{
    comments_key, files_key, mode_toggled, mouse_ignored, mouse_outcome, wheel, wheel_turned,
};
use crate::tui_nav::{
    anchor_line, anchor_of, anchored, cursor_of, file_opened, folds_away, folds_toggled, following,
    law_cursor_is_visible, lemma_heights_filled, new_place, place_of, representable, row_shows,
    same_line, screen_moved, scroll_of, stands_for, visible, wanted, with_cursor,
};
use crate::tui_view::{
    comment_line_of, has_fold, law_fold_markers_stay, law_views_show_the_same,
    lemma_no_line_on_fold, numbered_rows, plain_rows, shown, FoldId, FoldMode, RowKind, RowModel,
};

verus! {

// ---------------------------------------------------------------------------
// The viewport
// ---------------------------------------------------------------------------

/// The viewport moves only when it has to: while the row of the cursor is in
/// sight, following it changes nothing.
pub proof fn law_viewport_stays(s: StateModel, h: Seq<nat>, body: usize)
    requires
        filled(h),
        representable(h),
        on_rows(h, cursor_of(s)),
        on_rows(h, scroll_of(s)),
        h[s.cursor_row as int] <= body,
        flat(h, scroll_of(s)) <= above(h, s.cursor_row as int),
        above(h, s.cursor_row + 1) <= flat(h, scroll_of(s)) + body,
    ensures
        visible(s, h, body) == s,
{
    lemma_above_step(h, s.cursor_row as int);
    lemma_place_flat(h, scroll_of(s));
}

/// What is to be kept in sight moves with the cursor.
proof fn lemma_wanted_order(h: Seq<nat>, p: (int, int), q: (int, int), body: int)
    requires
        on_rows(h, p),
        on_rows(h, q),
        flat(h, p) <= flat(h, q),
    ensures
        wanted(h, p, body).0 <= wanted(h, q, body).0,
        wanted(h, p, body).1 <= wanted(h, q, body).1,
        wanted(h, p, body).0 <= flat(h, p) <= wanted(h, p, body).1,
        wanted(h, p, body).1 - wanted(h, p, body).0 < body || body < 1,
{
    lemma_flat_order(h, q, p);
    lemma_above_step(h, p.0);
    lemma_above_step(h, q.0);
    if p.0 < q.0 {
        lemma_above_order(h, p.0 + 1, q.0);
    }
}

/// Moving the viewport to where it has to go, by way of what lies between, is
/// moving it there at once.
proof fn lemma_following_adds_up(f: int, t0: int, b0: int, t1: int, b1: int, t2: int, b2: int, body: int)
    requires
        following(f, t0, b0, body) == f,
        (t0 <= t1 <= t2 && b0 <= b1 <= b2) || (t0 >= t1 >= t2 && b0 >= b1 >= b2),
        b0 - t0 < body,
        b1 - t1 < body,
        b2 - t2 < body,
    ensures
        following(following(f, t1, b1, body), t2, b2, body) == following(f, t2, b2, body),
{
}

/// The cursor moved, and followed.
spec fn step(s: StateModel, h: Seq<nat>, delta: int, body: usize) -> StateModel {
    visible(with_cursor(s, moved(h, cursor_of(s), delta)), h, body)
}

/// Where a step brings the cursor and the viewport.
proof fn lemma_step(s: StateModel, h: Seq<nat>, delta: int, body: usize)
    requires
        filled(h),
        representable(h),
        h.len() > 0,
        on_rows(h, cursor_of(s)),
        on_rows(h, scroll_of(s)),
        body >= 1,
    ensures
        ({
            let t = step(s, h, delta, body);
            let c = moved(h, cursor_of(s), delta);
            let (top, bottom) = wanted(h, c, body as int);
            let first = following(flat(h, scroll_of(s)), top, bottom, body as int);
            &&& on_rows(h, c)
            &&& cursor_of(t) == c
            &&& on_rows(h, scroll_of(t))
            &&& flat(h, scroll_of(t)) == first
            &&& t == crate::tui_nav::with_scroll(with_cursor(s, c), place(h, first))
        }),
{
    let c = moved(h, cursor_of(s), delta);
    let moved_on = with_cursor(s, c);
    lemma_moved_on_rows(h, cursor_of(s), delta);
    lemma_settled(h, c);
    lemma_settled(h, scroll_of(s));
    lemma_place_flat(h, scroll_of(s));
    assert(cursor_of(moved_on) == c);
    law_cursor_is_visible(moved_on, h, body);
    let (top, bottom) = wanted(h, c, body as int);
    let first = following(flat(h, scroll_of(s)), top, bottom, body as int);
    lemma_place_flat(h, c);
    lemma_above_step(h, c.0);
    lemma_above_order(h, c.0 + 1, h.len() as int);
    lemma_flat_place(h, first);
}

proof fn lemma_steps_add_up(s: StateModel, h: Seq<nat>, a: int, b: int, body: usize)
    requires
        filled(h),
        representable(h),
        visible(s, h, body) == s,
        body >= 1,
        (a >= 0 && b >= 0) || (a <= 0 && b <= 0),
    ensures
        step(step(s, h, a, body), h, b, body) == step(s, h, a + b, body),
{
    if h.len() > 0 {
        law_cursor_is_visible(s, h, body);
        let c0 = cursor_of(s);
        let c1 = moved(h, c0, a);
        let c2 = moved(h, c0, a + b);
        let one = step(s, h, a, body);
        lemma_step(s, h, a, body);
        lemma_step(s, h, a + b, body);
        lemma_step(one, h, b, body);
        law_moves_add_up(h, c0, a, b);
        lemma_moved_on_rows(h, c0, a);
        lemma_moved_on_rows(h, c0, a + b);
        lemma_settled(h, c0);
        lemma_settled(h, scroll_of(s));
        lemma_place_flat(h, c0);
        lemma_place_flat(h, scroll_of(s));
        lemma_wanted_order(h, c0, c0, body as int);
        lemma_wanted_order(h, c1, c1, body as int);
        lemma_wanted_order(h, c2, c2, body as int);
        if a >= 0 && b >= 0 {
            lemma_wanted_order(h, c0, c1, body as int);
            lemma_wanted_order(h, c1, c2, body as int);
        } else {
            lemma_wanted_order(h, c1, c0, body as int);
            lemma_wanted_order(h, c2, c1, body as int);
        }
        let f0 = flat(h, scroll_of(s));
        let w0 = wanted(h, c0, body as int);
        let w1 = wanted(h, c1, body as int);
        let w2 = wanted(h, c2, body as int);
        assert(following(f0, w0.0, w0.1, body as int) == f0) by {
            lemma_above_step(h, c0.0);
        }
        lemma_following_adds_up(f0, w0.0, w0.1, w1.0, w1.1, w2.0, w2.1, body as int);
    }
}

/// Two moves in the same direction are one: the cursor and the viewport end
/// where one move by both distances would bring them.
pub proof fn law_screen_moves_add_up(
    files: Seq<FileModel>,
    s: StateModel,
    a: int,
    b: int,
    l: Layout,
)
    requires
        representable(heights(files, s, l)),
        visible(s, heights(files, s, l), l.body_height) == s,
        l.body_height >= 1,
        (a >= 0 && b >= 0) || (a <= 0 && b <= 0),
    ensures
        screen_moved(files, screen_moved(files, s, a, l), b, l) == screen_moved(files, s, a + b, l),
{
    let h = heights(files, s, l);
    lemma_heights_filled(
        rows_of(files, s),
        digits_of(files[s.active_file as int]),
        l.main_width as nat,
    );
    let one = screen_moved(files, s, a, l);
    assert(setting_of(one) == setting_of(s));
    assert(heights(files, one, l) == h);
    lemma_steps_add_up(s, h, a, b, l.body_height);
}

/// Following the cursor does not depend on the focus, the prefix or the notice.
proof fn lemma_visible_keeps(
    s: StateModel,
    h: Seq<nat>,
    body: usize,
    focus: Focus,
    pending: Option<char>,
    notice: Seq<char>,
)
    ensures
        visible(StateModel { focus, pending, notice, ..s }, h, body) == (StateModel {
            focus,
            pending,
            notice,
            ..visible(s, h, body)
        }),
{
}

proof fn lemma_screen_moved_focus(files: Seq<FileModel>, s: StateModel, delta: int, l: Layout)
    ensures
        screen_moved(files, s, delta, l).focus == s.focus,
{
}

proof fn lemma_code_wheel_adds_up(
    files: Seq<FileModel>,
    t: StateModel,
    a: int,
    b: int,
    l: Layout,
)
    requires
        representable(heights(files, t, l)),
        visible(t, heights(files, t, l), l.body_height) == t,
        l.body_height >= 1,
        (a >= 0 && b >= 0) || (a <= 0 && b <= 0),
    ensures
        ({
            let c = StateModel { focus: Focus::Code, ..t };
            let v = screen_moved(files, c, a, l);
            screen_moved(files, StateModel { focus: Focus::Code, ..v }, b, l) == screen_moved(
                files,
                c,
                a + b,
                l,
            )
        }),
{
    let c = StateModel { focus: Focus::Code, ..t };
    assert(setting_of(c) == setting_of(t));
    let h = heights(files, t, l);
    assert(heights(files, c, l) == h);
    lemma_visible_keeps(t, h, l.body_height, Focus::Code, t.pending, t.notice);
    assert(c == StateModel { focus: Focus::Code, pending: t.pending, notice: t.notice, ..t });
    law_screen_moves_add_up(files, c, a, b, l);
    lemma_screen_moved_focus(files, c, a, l);
    let v = screen_moved(files, c, a, l);
    assert(StateModel { focus: Focus::Code, ..v } == v);
}

proof fn lemma_wheel_adds_up(
    files: Seq<FileModel>,
    t: StateModel,
    a: int,
    b: int,
    sidebar: bool,
    dock: bool,
    l: Layout,
)
    requires
        t.file_cursor < files.len() <= usize::MAX,
        representable(heights(files, t, l)),
        visible(t, heights(files, t, l), l.body_height) == t,
        l.body_height >= 1,
        (a >= 0 && b >= 0) || (a <= 0 && b <= 0),
    ensures
        wheel_turned(
            files,
            wheel_turned(files, t, a, sidebar, dock, l),
            b,
            sidebar,
            dock,
            l,
        ) == wheel_turned(files, t, a + b, sidebar, dock, l),
{
    if !sidebar && !dock {
        lemma_code_wheel_adds_up(files, t, a, b, l);
    }
}

/// The wheel leaves what decides on the panels, the prefix and the notice.
proof fn lemma_wheel_keeps(
    files: Seq<FileModel>,
    t: StateModel,
    delta: int,
    sidebar: bool,
    dock: bool,
    l: Layout,
)
    ensures
        ({
            let u = wheel_turned(files, t, delta, sidebar, dock, l);
            &&& u.pending == t.pending
            &&& u.notice == t.notice
            &&& u.help == t.help
            &&& u.sidebar_open == t.sidebar_open
            &&& u.comment_open == t.comment_open
            &&& (u.focus == Focus::Files) == sidebar
        }),
{
}

/// Turns of the wheel taken together do what they do one after the other.
pub proof fn law_wheel_turns_add_up(
    files: Seq<FileModel>,
    s: StateModel,
    m: MouseEvent,
    a: u16,
    b: u16,
    layout: Layout,
)
    requires
        m.kind == MouseEventKind::ScrollUp || m.kind == MouseEventKind::ScrollDown,
        a >= 1,
        b >= 1,
        a + b <= u16::MAX,
        layout.width >= 1,
        layout.height >= 3,
        s.file_cursor < files.len() <= usize::MAX,
        representable(heights(files, s, panelled(layout, s))),
        visible(
            s,
            heights(files, s, panelled(layout, s)),
            panelled(layout, s).body_height,
        ) == s,
    ensures
        mouse_outcome(files, mouse_outcome(files, s, m, a, layout), m, b, layout) == mouse_outcome(
            files,
            s,
            m,
            (a + b) as u16,
            layout,
        ),
{
    let l = panelled(layout, s);
    if !mouse_ignored(s, m, l) {
        let t = StateModel { pending: None, notice: seq![], ..s };
        let sidebar = m.column < l.sidebar_width;
        let dock = !sidebar && l.dock_height > 0 && m.row >= l.dock_y;
        let da = wheel(m.kind, a);
        let db = wheel(m.kind, b);
        assert(wheel(m.kind, (a + b) as u16) == da + db);
        assert(setting_of(t) == setting_of(s));
        let h = heights(files, s, l);
        assert(heights(files, t, l) == h);
        lemma_visible_keeps(s, h, l.body_height, s.focus, None, seq![]);
        assert(t == StateModel { focus: s.focus, pending: None, notice: seq![], ..s });
        lemma_wheel_adds_up(files, t, da, db, sidebar, dock, l);
        lemma_wheel_keeps(files, t, da, sidebar, dock, l);
        let one = wheel_turned(files, t, da, sidebar, dock, l);
        assert(mouse_outcome(files, s, m, a, layout) == one);
        assert(panelled(layout, one) == l);
        assert(one == StateModel { pending: None, notice: seq![], ..one });
    }
}

// ---------------------------------------------------------------------------
// What stays as it is
// ---------------------------------------------------------------------------

/// In the list of files only Enter opens one: every other key leaves the code
/// as it is.
pub proof fn law_choosing_opens_nothing(
    files: Seq<FileModel>,
    s: StateModel,
    code: KeyCode,
    l: Layout,
)
    requires
        code != KeyCode::Enter,
    ensures
        files_key(files, s, code, l) == (StateModel {
            file_cursor: files_key(files, s, code, l).file_cursor,
            help: files_key(files, s, code, l).help,
            ..s
        }),
{
    reveal(files_key);
}

/// Scrolling the comments does not move the code.
pub proof fn law_comments_leave_code(s: StateModel, code: KeyCode, l: Layout)
    ensures
        comments_key(s, code, l) == (StateModel {
            comment_scroll: comments_key(s, code, l).comment_scroll,
            focus: comments_key(s, code, l).focus,
            ..s
        }),
{
}

/// A reader who goes to another file and comes back finds the cursor, the
/// viewport, the layout and the folds as they were.
pub proof fn law_return_to_file(files: Seq<FileModel>, s: StateModel, other: usize, l: Layout)
    requires
        s.active_file < files.len(),
        other < files.len(),
        other != s.active_file,
        s.focus == Focus::Code,
        !s.comment_open,
        s.dock_origin is None,
        l == panelled(l, s),
        visible(s, heights(files, s, l), l.body_height) == s,
    ensures
        ({
            let back = file_opened(files, file_opened(files, s, other, l), s.active_file, l);
            &&& back.active_file == s.active_file
            &&& cursor_of(back) == cursor_of(s)
            &&& scroll_of(back) == scroll_of(s)
            &&& back.mode == s.mode
            &&& back.fold_mode == s.fold_mode
            &&& back.folds == s.folds
            &&& rows_of(files, back) == rows_of(files, s)
        }),
{
    reveal(file_opened);
    let there = file_opened(files, s, other, l);
    assert(there.folds == s.folds);
    assert(there.sidebar_open == s.sidebar_open);
    assert(!there.comment_open && there.focus == Focus::Code);
    assert(there.active_file == other);
    let kept = captured_position(s, l);
    assert(there.positions.dom().contains(s.active_file));
    assert(there.positions[s.active_file] == kept);
    let back = file_opened(files, there, s.active_file, l);
    let returned = StateModel {
        positions: back.positions,
        active_file: s.active_file,
        selection_start: None,
        file_cursor: s.active_file,
        ..s
    };
    assert(setting_of(returned) == setting_of(s));
}

// ---------------------------------------------------------------------------
// Changes of the view
// ---------------------------------------------------------------------------

/// Where some row will do, the first of them is found.
proof fn lemma_place_found(rows: Seq<RowModel>, a: RowModel, folded: bool, i: int, k: int)
    requires
        0 <= i <= k < rows.len(),
        if folded {
            folds_away(rows[k], a)
        } else {
            stands_for(rows[k], a)
        },
    ensures
        place_of(rows, a, folded, i) is Some,
    decreases k - i,
{
    if !(if folded {
        folds_away(rows[i], a)
    } else {
        stands_for(rows[i], a)
    }) {
        lemma_place_found(rows, a, folded, i + 1, k);
    }
}

/// A row that is found is there and will do.
proof fn lemma_place_right(rows: Seq<RowModel>, a: RowModel, folded: bool, i: int)
    requires
        i >= 0,
    ensures
        place_of(rows, a, folded, i) matches Some(k) ==> i <= k < rows.len() && if folded {
            folds_away(rows[k], a)
        } else {
            stands_for(rows[k], a)
        },
    decreases rows.len() - i,
{
    if i < rows.len() && !(if folded {
        folds_away(rows[i], a)
    } else {
        stands_for(rows[i], a)
    }) {
        lemma_place_right(rows, a, folded, i + 1);
    }
}

/// The cursor is where the row that it was on has gone.
proof fn lemma_anchored(
    rows: Seq<RowModel>,
    h: Seq<nat>,
    s: StateModel,
    a: RowModel,
    offset: nat,
    body: usize,
)
    requires
        filled(h),
        h.len() == rows.len(),
        rows.len() <= usize::MAX,
        new_place(rows, a) is Some,
    ensures
        anchored(rows, h, s, Some((a, offset)), body).cursor_row == new_place(rows, a)->0,
        0 <= new_place(rows, a)->0 < rows.len(),
{
    lemma_place_right(rows, a, false, 0);
    lemma_place_right(rows, a, true, 0);
}

/// After a change of the view the cursor is on a row that shows the same line
/// of code, or on the fold that hides it.
pub proof fn law_place_is_kept(
    files: Seq<FileModel>,
    s: StateModel,
    t: StateModel,
    x: LineModel,
    l: Layout,
)
    requires
        s.active_file < files.len(),
        t.active_file == s.active_file,
        s.cursor_row < rows_of(files, s).len(),
        rows_of(files, t).len() <= usize::MAX,
        comment_line_of(rows_of(files, s)[s.cursor_row as int]) == Some(x),
    ensures
        ({
            let u = anchored(
                rows_of(files, t),
                heights(files, t, l),
                t,
                anchor_of(rows_of(files, s), heights(files, s, l), s),
                l.body_height,
            );
            let row = rows_of(files, t)[u.cursor_row as int];
            &&& u.cursor_row < rows_of(files, t).len()
            &&& row_shows(row, Some(x)) || (row.kind == RowKind::Fold && exists|k: int|
                0 <= k < row.fold_lines.len() && (#[trigger] row.fold_lines[k]).stable_line_id
                    == x.stable_line_id)
        }),
{
    let f = files[s.active_file as int];
    let before = rows_of(files, s);
    let rows = rows_of(files, t);
    let a = before[s.cursor_row as int];
    let h = heights(files, t, l);
    lemma_heights_filled(rows, digits_of(f), l.main_width as nat);
    law_views_show_the_same(f, setting_of(s), setting_of(t), s.cursor_row as int, x);
    let k = choose|k: int|
        0 <= k < plain_rows(f, setting_of(t)).len() && shown(
            #[trigger] numbered_rows(plain_rows(f, setting_of(t)))[k],
        ).contains(x);
    let r = rows[k];
    assert(rows.len() == plain_rows(f, setting_of(t)).len());
    assert(anchor_line(a) == Some(x));
    if r.kind == RowKind::Fold {
        let j = choose|j: int| 0 <= j < shown(r).len() && shown(r)[j] == x;
        assert(same_line(Some(x), Some(r.fold_lines[j])));
        assert(folds_away(r, a));
        lemma_place_found(rows, a, true, 0, k);
    } else {
        let j = choose|j: int| 0 <= j < shown(r).len() && shown(r)[j] == x;
        assert(row_shows(r, Some(x)));
        if a.kind == RowKind::Fold {
            lemma_no_line_on_fold(f, setting_of(s), s.cursor_row as int);
        }
        assert(stands_for(r, a));
        lemma_place_found(rows, a, false, 0, k);
    }
    lemma_place_right(rows, a, false, 0);
    lemma_place_right(rows, a, true, 0);
    let offset = (anchor_of(before, heights(files, s, l), s)->0).1;
    lemma_anchored(rows, h, t, a, offset, l.body_height);
    let row = rows[new_place(rows, a)->0];
    if a.kind == RowKind::Fold {
        lemma_no_line_on_fold(f, setting_of(s), s.cursor_row as int);
    }
    if !row_shows(row, Some(x)) {
        assert(folds_away(row, a));
        let j = choose|j: int|
            0 <= j < row.fold_lines.len() && same_line(
                anchor_line(a),
                Some(#[trigger] row.fold_lines[j]),
            );
        assert(row.fold_lines[j].stable_line_id == x.stable_line_id);
    }
}

/// Changing between the stacked and the split layout keeps the line of code
/// at the cursor, and clears the selection.
pub proof fn law_mode_change_keeps_place(
    files: Seq<FileModel>,
    s: StateModel,
    x: LineModel,
    l: Layout,
)
    requires
        s.active_file < files.len(),
        s.cursor_row < rows_of(files, s).len(),
        rows_of(files, mode_toggled(files, s, l)).len() <= usize::MAX,
        comment_line_of(rows_of(files, s)[s.cursor_row as int]) == Some(x),
    ensures
        ({
            let u = mode_toggled(files, s, l);
            let row = rows_of(files, u)[u.cursor_row as int];
            &&& u.selection_start is None
            &&& u.folds == s.folds
            &&& u.mode != s.mode
            &&& u.cursor_row < rows_of(files, u).len()
            &&& row_shows(row, Some(x)) || (row.kind == RowKind::Fold && exists|k: int|
                0 <= k < row.fold_lines.len() && (#[trigger] row.fold_lines[k]).stable_line_id
                    == x.stable_line_id)
        }),
{
    reveal(crate::tui_keys::mode_toggled);
    let t = StateModel {
        selection_start: None,
        mode: crate::tui_keys::other_mode(s.mode),
        ..s
    };
    let u = mode_toggled(files, s, l);
    assert(setting_of(u) == setting_of(t));
    law_place_is_kept(files, s, t, x, l);
}

/// Folding and unfolding keep the line of code at the cursor, or leave the
/// cursor on the fold that hides it.
pub proof fn law_fold_change_keeps_place(
    files: Seq<FileModel>,
    s: StateModel,
    key: char,
    x: LineModel,
    l: Layout,
)
    requires
        s.active_file < files.len(),
        s.cursor_row < rows_of(files, s).len(),
        rows_of(files, folds_toggled(files, s, key, l)).len() <= usize::MAX,
        comment_line_of(rows_of(files, s)[s.cursor_row as int]) == Some(x),
    ensures
        ({
            let u = folds_toggled(files, s, key, l);
            let row = rows_of(files, u)[u.cursor_row as int];
            &&& u.cursor_row < rows_of(files, u).len()
            &&& row_shows(row, Some(x)) || (row.kind == RowKind::Fold && exists|k: int|
                0 <= k < row.fold_lines.len() && (#[trigger] row.fold_lines[k]).stable_line_id
                    == x.stable_line_id)
        }),
{
    reveal(crate::tui_nav::folds_toggled);
    let u = folds_toggled(files, s, key, l);
    let t = StateModel {
        fold_mode: u.fold_mode,
        folds: u.folds,
        selection_start: None,
        scroll_line: 0,
        ..s
    };
    if u != s {
        assert(setting_of(u) == setting_of(t));
        law_place_is_kept(files, s, t, x, l);
    }
}

/// Turning the fold at the cursor leaves the cursor at the fold: on its
/// marker, or on a row that shows its first line.
pub proof fn law_fold_turn_stays(files: Seq<FileModel>, s: StateModel, id: FoldId, l: Layout)
    requires
        s.active_file < files.len(),
        s.fold_mode == FoldMode::Fold,
        s.cursor_row < rows_of(files, s).len(),
        rows_of(files, folds_toggled(files, s, 'z', l)).len() <= usize::MAX,
        rows_of(files, s)[s.cursor_row as int].kind == RowKind::Fold,
        rows_of(files, s)[s.cursor_row as int].fold_id == Some(id),
    ensures
        ({
            let u = folds_toggled(files, s, 'z', l);
            let row = rows_of(files, u)[u.cursor_row as int];
            &&& u.cursor_row < rows_of(files, u).len()
            &&& u.selection_start is None
            &&& (row.kind == RowKind::Fold && row.fold_id == Some(id)) || row_shows(
                row,
                anchor_line(rows_of(files, s)[s.cursor_row as int]),
            )
        }),
{
    reveal(crate::tui_nav::folds_toggled);
    let f = files[s.active_file as int];
    let before = rows_of(files, s);
    let a = before[s.cursor_row as int];
    let u = folds_toggled(files, s, 'z', l);
    let t = StateModel { folds: u.folds, selection_start: None, scroll_line: 0, ..s };
    let rows = rows_of(files, t);
    assert(setting_of(u) == setting_of(t));
    assert(has_fold(before, id));
    law_fold_markers_stay(f, setting_of(s), setting_of(t), id);
    let k = choose|k: int|
        0 <= k < rows.len() && (#[trigger] rows[k]).kind == RowKind::Fold && rows[k].fold_id
            == Some(id);
    assert(stands_for(rows[k], a));
    lemma_place_found(rows, a, false, 0, k);
    lemma_place_right(rows, a, false, 0);
    lemma_heights_filled(rows, digits_of(f), l.main_width as nat);
    let offset = (anchor_of(before, heights(files, s, l), s)->0).1;
    lemma_anchored(rows, heights(files, t, l), t, a, offset, l.body_height);
}

} // verus!

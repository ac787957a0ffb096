//! Which row of the code is drawn on which line of the screen, and how far
//! pages, the wheel and clicks go.
use vstd::prelude::*;
use crate::diff::FileModel;
use crate::tui::{heights, minus, panelled, rows_of, Focus, Layout, StateModel};
use crate::tui_frame::{
    code_body, code_shown, frame_lines, highlight_at, lemma_nothing_up_to, lines_up_to,
    rows_coloured, scene, FrameModel,
};
use crate::tui_frame_laws::{law_row_matches_geometry, lemma_lines_grow};
use crate::tui_geometry::{
    above, filled, flat, lemma_above_step, lemma_moved_on_rows, lemma_settled, on_rows, settled,
    total, within,
};
use crate::tui_input::{KeyCode, MouseButton, MouseEvent, MouseEventKind};
use crate::tui_key_laws::{in_code, lemma_code_key, press};
use crate::tui_keys::{code_key, followed, key_outcome, mouse_outcome, KeyAction};
use crate::tui_nav::{cursor_of, screen_moved, scroll_of, tree_start};
use crate::tui_render::row_lines;

verus! {

// ---------------------------------------------------------------------------
// Lines of the body
// ---------------------------------------------------------------------------

/// A frame whose first visible line is on the rows, with colours that leave
/// the texts as they are.
pub open spec fn well_scrolled(m: FrameModel) -> bool {
    &&& m.state.active_file < m.files.len()
    &&& on_rows(heights(m.files, m.state, m.layout), scroll_of(m.state))
    &&& rows_coloured(
        rows_of(m.files, m.state),
        m.state.scroll_row as int,
        m.highlights,
        m.ansi,
        m.palette,
    )
}

proof fn lemma_lines_before(m: FrameModel, k: int)
    requires
        well_scrolled(m),
        m.state.scroll_row < k <= rows_of(m.files, m.state).len(),
    ensures
        lines_up_to(scene(m), m.highlights, m.layout.main_width as nat, k).len() == above(
            heights(m.files, m.state, m.layout),
            k,
        ) - flat(heights(m.files, m.state, m.layout), scroll_of(m.state)),
    decreases k,
{
    let h = heights(m.files, m.state, m.layout);
    let first = m.state.scroll_row as int;
    lemma_above_step(h, k - 1);
    lemma_lines_grow(m, k - 1);
    if k - 1 > first {
        lemma_lines_before(m, k - 1);
    } else {
        lemma_nothing_up_to(scene(m), m.highlights, m.layout.main_width as nat, first);
    }
}

/// The lines up to a row begin with those up to an earlier one.
proof fn lemma_lines_begin(m: FrameModel, k: int, n: int, j: int)
    requires
        0 <= k <= n,
        0 <= j < lines_up_to(scene(m), m.highlights, m.layout.main_width as nat, k).len(),
    ensures
        ({
            let a = lines_up_to(scene(m), m.highlights, m.layout.main_width as nat, k);
            let b = lines_up_to(scene(m), m.highlights, m.layout.main_width as nat, n);
            j < b.len() && b[j] == a[j]
        }),
    decreases n - k,
{
    if k < n {
        lemma_lines_begin(m, k, n - 1, j);
    }
}

/// The body shows the rows from the first visible line on: the line of the
/// code that has `y` lines between it and the first visible one is drawn on
/// the line `y` of the body.
pub proof fn law_body_shows_the_rows(m: FrameModel, k: int, i: int, y: int)
    requires
        well_scrolled(m),
        code_shown(m.state, m.layout),
        on_rows(heights(m.files, m.state, m.layout), (k, i)),
        y == flat(heights(m.files, m.state, m.layout), (k, i)) - flat(
            heights(m.files, m.state, m.layout),
            scroll_of(m.state),
        ),
        0 <= y < m.layout.body_height,
    ensures
        y < code_body(m).len(),
        code_body(m)[y] == row_lines(
            scene(m),
            k,
            m.layout.main_width as nat,
            highlight_at(m.highlights, k - m.state.scroll_row),
        )[i],
{
    let h = heights(m.files, m.state, m.layout);
    let w = m.layout.main_width as nat;
    let sc = scene(m);
    let hs = m.highlights;
    let first = m.state.scroll_row as int;
    let n = rows_of(m.files, m.state).len() as int;
    let hl = highlight_at(hs, k - first);
    crate::tui_geometry::lemma_flat_order(h, (k, i), scroll_of(m.state));
    assert(k >= first);
    if k - first < hs.len() {
        assert(crate::tui_frame::row_coloured(
            rows_of(m.files, m.state)[first + (k - first)],
            hs[k - first],
            m.ansi,
            m.palette,
        ));
    }
    law_row_matches_geometry(m, k, w, hl);
    let own = row_lines(sc, k, w, hl);
    assert(own.len() == h[k]);
    let before = lines_up_to(sc, hs, w, k);
    let upto = lines_up_to(sc, hs, w, k + 1);
    lemma_above_step(h, k);
    if k == first {
        lemma_nothing_up_to(sc, hs, w, first);
        let skip = m.state.scroll_line as int;
        assert(upto =~= own.skip(skip));
        assert(y == i - skip);
        assert(upto[y] == own[i]);
    } else {
        lemma_lines_before(m, k);
        assert(upto == before + own);
        assert(before.len() == y - i);
        assert(upto[y] == own[i]);
    }
    lemma_lines_begin(m, k + 1, n, y);
}

/// Without the files and without the help, the screen shows the body below the
/// status line.
pub proof fn law_screen_shows_the_body(m: FrameModel, y: int)
    requires
        !m.state.help,
        m.layout.sidebar_width == 0,
        0 <= y < m.layout.body_height,
        y < code_body(m).len(),
        m.layout.height >= 3,
        m.layout.body_height <= m.layout.height - 2,
    ensures
        frame_lines(m).len() == m.layout.height,
        frame_lines(m)[y + 1] == code_body(m)[y],
{
}

// ---------------------------------------------------------------------------
// Pages, the wheel, and clicks on files
// ---------------------------------------------------------------------------

/// The wheel moves the cursor in the code by three lines of the screen for each
/// turn, down or up, as far as there are lines.
pub proof fn law_wheel_moves_three_lines(
    files: Seq<FileModel>,
    s: StateModel,
    m: MouseEvent,
    repeat: u16,
    layout: Layout,
)
    requires
        !s.help,
        s.active_file < files.len(),
        repeat > 0,
        m.kind == MouseEventKind::ScrollDown || m.kind == MouseEventKind::ScrollUp,
        ({
            let l = panelled(layout, s);
            &&& 1 <= m.row < l.height - 1
            &&& l.sidebar_width <= m.column < l.width
            &&& l.dock_height == 0 || m.row < l.dock_y
            &&& filled(heights(files, s, l))
            &&& heights(files, s, l).len() > 0
            &&& heights(files, s, l).len() <= usize::MAX
            &&& total(heights(files, s, l)) <= usize::MAX
        }),
    ensures
        ({
            let l = panelled(layout, s);
            let h = heights(files, s, l);
            let t = mouse_outcome(files, s, m, repeat, layout);
            &&& t.focus == Focus::Code
            &&& on_rows(h, (t.cursor_row as int, t.cursor_line as int))
            &&& flat(h, (t.cursor_row as int, t.cursor_line as int)) == within(
                flat(h, settled(h, cursor_of(s))) + (if m.kind == MouseEventKind::ScrollDown {
                    3 * repeat as int
                } else {
                    -(3 * repeat as int)
                }),
                0,
                total(h) - 1,
            )
        }),
{
    let l = panelled(layout, s);
    let h = heights(files, s, l);
    let focused = StateModel { focus: Focus::Code, pending: None, notice: seq![], ..s };
    assert(crate::tui::setting_of(focused) == crate::tui::setting_of(s));
    assert(heights(files, focused, l) == h);
    let delta = if m.kind == MouseEventKind::ScrollDown {
        3 * repeat as int
    } else {
        -(3 * repeat as int)
    };
    lemma_moved_on_rows(h, cursor_of(s), delta);
    let p = crate::tui_geometry::moved(h, cursor_of(s), delta);
    lemma_settled(h, p);
    crate::tui_geometry::lemma_place_flat(h, p);
}

/// PageDown and PageUp move the cursor in the code by the lines of the screen
/// that the body has, less the one that stays in sight, as far as there are
/// lines.
pub proof fn law_keys_move_by_a_page(
    files: Seq<FileModel>,
    marks: Seq<bool>,
    s: StateModel,
    down: bool,
    layout: Layout,
)
    requires
        in_code(files, s),
        ({
            let l = panelled(layout, s);
            &&& l.body_height >= 2
            &&& filled(heights(files, s, l))
            &&& heights(files, s, l).len() > 0
            &&& heights(files, s, l).len() <= usize::MAX
            &&& total(heights(files, s, l)) <= usize::MAX
        }),
    ensures
        ({
            let l = panelled(layout, s);
            let h = heights(files, s, l);
            let code = if down {
                KeyCode::PageDown
            } else {
                KeyCode::PageUp
            };
            let (t, action) = key_outcome(files, marks, s, press(code), layout);
            &&& action == KeyAction::Continue
            &&& on_rows(h, cursor_of(t))
            &&& flat(h, cursor_of(t)) == within(
                flat(h, settled(h, cursor_of(s))) + (if down {
                    l.body_height - 1
                } else {
                    1 - l.body_height
                }),
                0,
                total(h) - 1,
            )
            &&& t.active_file == s.active_file
            &&& t.focus == s.focus
        }),
{
    reveal(code_key);
    let l = panelled(layout, s);
    let h = heights(files, s, l);
    let code = if down {
        KeyCode::PageDown
    } else {
        KeyCode::PageUp
    };
    let delta = if down {
        l.body_height - 1
    } else {
        1 - l.body_height
    };
    let cleared = StateModel { notice: seq![], pending: None, ..s };
    assert(crate::tui::setting_of(cleared) == crate::tui::setting_of(s));
    assert(heights(files, cleared, l) == h);
    lemma_code_key(files, marks, s, code, layout);
    lemma_moved_on_rows(h, cursor_of(s), delta);
    let p = crate::tui_geometry::moved(h, cursor_of(s), delta);
    lemma_settled(h, p);
    crate::tui_geometry::lemma_place_flat(h, p);
    let u = code_key(files, marks, cleared, s.pending, code, l).0;
    assert(u == screen_moved(files, cleared, delta, l));
    assert(crate::tui::setting_of(u) == crate::tui::setting_of(s));
    assert(cursor_of(u) == p);
    assert(rows_of(files, u) == rows_of(files, s));
    reveal(followed);
    assert(panelled(l, u) == l);
    assert(heights(files, u, l) == h);
}

/// A click on the list of files opens the file that is drawn there: on the line
/// `y` below the heading of the list stands the file with the index `y` behind
/// the first one that is shown.
pub proof fn law_click_opens_the_file(
    files: Seq<FileModel>,
    s: StateModel,
    m: MouseEvent,
    layout: Layout,
)
    requires
        !s.help,
        files.len() <= usize::MAX,
        m.kind == MouseEventKind::Down(MouseButton::Left),
        ({
            let l = panelled(layout, s);
            &&& 2 <= m.row < l.height - 1
            &&& m.column < l.sidebar_width
            &&& m.column < l.width
        }),
    ensures
        ({
            let l = panelled(layout, s);
            let index = tree_start(
                files.len(),
                s.file_cursor as nat,
                minus(l.height as nat, 2),
            ) + (m.row - 1) - 1;
            let t = mouse_outcome(files, s, m, 1, layout);
            if index < files.len() {
                t.active_file == index && t.file_cursor == index
            } else {
                t.active_file == s.active_file
            }
        }),
{
    let l = panelled(layout, s);
    let index = tree_start(files.len(), s.file_cursor as nat, minus(l.height as nat, 2)) + (m.row
        - 1) - 1;
    let t = StateModel { pending: None, notice: seq![], ..s };
    if index < files.len() {
        crate::tui_key_laws::lemma_opened(files, t, index as usize, l);
    }
}

/// Escape closes what is in front: the help, the list of files, or the
/// comments; and it always gives up the selection.
pub proof fn law_escape_closes(
    files: Seq<FileModel>,
    marks: Seq<bool>,
    s: StateModel,
    l: Layout,
)
    ensures
        ({
            let (t, action) = key_outcome(files, marks, s, press(KeyCode::Esc), l);
            &&& action == KeyAction::Continue
            &&& t.selection_start is None
            &&& !t.help
            &&& t.pending is None
            &&& t.active_file == s.active_file
            &&& t.cursor_row == s.cursor_row
            &&& s.help ==> t.focus == s.focus && t.sidebar_open == s.sidebar_open
            &&& !s.help && s.focus == Focus::Files ==> t.focus == Focus::Code && !t.sidebar_open
            &&& !s.help && s.focus == Focus::Comments ==> t.focus == Focus::Code && !t.comment_open
            &&& !s.help && s.focus == Focus::Code && s.selection_start is Some ==> t.comment_open
                == s.comment_open && t.sidebar_open == s.sidebar_open
            &&& !s.help && s.focus == Focus::Code && s.selection_start is None && s.comment_open
                ==> !t.comment_open
        }),
{
    reveal(key_outcome);
}

} // verus!

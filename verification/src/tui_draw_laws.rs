//! What a reader sees of a line, of the cursor and of comments, and what a
//! click and the keys of the editor do.
use vstd::prelude::*;
use crate::comment_laws::counted;
use crate::diff::{DiffLineKind, FileModel, LineModel};
use crate::store::CommentModel;
use crate::tui::{heights, panelled, row_selected, Focus, Layout, StateModel};
use crate::tui_cell_laws::law_cell_text;
use crate::tui_comments::{
    comment_block, comment_blocks, comments_at_cursor, is_about, is_on_row, line_end,
};
use crate::tui_editor::{edited, start_of, Action, EditorModel};
use crate::tui_frame::reviewed_before;
use crate::tui_frame_laws::{lemma_printable_width, printable};
use crate::tui_geometry::{filled, flat, lemma_moved_on_rows, lemma_settled, on_rows, total, within};
use crate::tui_input::{
    KeyCode, KeyEvent, KeyEventKind, KeyModifiers, MouseButton, MouseEvent, MouseEventKind,
};
use crate::tui_keys::mouse_outcome;
use crate::tui_nav::scroll_of;
use crate::tui_render::{
    code_lines, gutter, line_prefix, number_text, pair_ranges, row_lines, HighlightModel, Scene,
};
use crate::tui_style::cell;
use crate::tui_text::{
    cell_width, cleaned, fitted, fitted_pieces, is_control, lemma_pieces_step, lemma_plain_kept,
    pieces, spaces, Piece,
};
use crate::tui_view::{RowKind, RowModel};
use crate::util::decimal;

verus! {

// ---------------------------------------------------------------------------
// Before a line of code
// ---------------------------------------------------------------------------

/// What stands before a line of code: in the stacked layout a bar just where
/// the line is a change, then `!` just where a comment is about it, and its
/// number, at the right of its column.
pub proof fn law_prefix_says(
    comments: Seq<CommentModel>,
    path: Seq<char>,
    l: LineModel,
    target: Seq<char>,
    digits: nat,
    stacked: bool,
    n: u32,
)
    requires
        counted(l, n),
        decimal(n as nat).len() <= digits,
    ensures
        ({
            let p = line_prefix(comments, path, l, target, digits, stacked);
            let first: int = if stacked {
                1
            } else {
                0
            };
            &&& p.len() == first + digits + 4
            &&& stacked ==> p[0] == (if l.kind == DiffLineKind::Add || l.kind
                == DiffLineKind::Delete {
                '|'
            } else {
                ' '
            })
            &&& p[first] == (if exists|k: int|
                0 <= k < comments.len() && is_about(#[trigger] comments[k], path, l, target) {
                '!'
            } else {
                ' '
            })
            &&& p.subrange(first + 2, first + 2 + digits) == spaces(
                (digits - decimal(n as nat).len()) as nat,
            ) + decimal(n as nat)
        }),
{
    reveal_strlit("");
    reveal_strlit("|");
    reveal_strlit(" ");
    reveal_strlit("!");
    reveal_strlit("  ");
    let p = line_prefix(comments, path, l, target, digits, stacked);
    let first: int = if stacked {
        1
    } else {
        0
    };
    assert(crate::tui::number_of(l) == Some(n));
    let number = number_text(Some(n), digits);
    assert(number.len() == digits);
    assert(p.subrange(first + 2, first + 2 + digits) =~= number);
}

// ---------------------------------------------------------------------------
// The gutter
// ---------------------------------------------------------------------------

proof fn lemma_fitted_printable(s: Seq<char>)
    requires
        printable(s),
    ensures
        fitted_pieces(pieces(s), s.len()) == pieces(s),
        crate::tui_text::all_clean(pieces(s)),
        forall|k: int| 0 <= k < pieces(s).len() ==> (#[trigger] pieces(s)[k]) is Character,
    decreases s.len(),
{
    lemma_printable_width(s);
    if s.len() == 0 {
        assert(pieces(s) =~= Seq::<Piece>::empty());
        assert(fitted_pieces(pieces(s), 0) =~= Seq::<Piece>::empty());
    } else {
        lemma_pieces_step(s);
        assert(0x20 <= s[0] as u32 <= 0x7e);
        assert(crate::tui_text::escape_len(s) == 0) by {
            reveal(crate::tui_text::escape_len);
        }
        let t = s.skip(1);
        assert forall|k: int| 0 <= k < t.len() implies 0x20 <= (#[trigger] t[k]) as u32 <= 0x7e by {
            assert(t[k] == s[k + 1]);
        }
        lemma_fitted_printable(t);
        let ps = pieces(s);
        assert(ps.skip(1) == pieces(t));
        assert(ps[0] == Piece::Character(s[0]));
        assert(cell_width(s[0]) == 1);
        assert(fitted_pieces(ps, s.len()) =~= seq![ps[0]] + pieces(t));
        assert(ps =~= seq![ps[0]] + pieces(t));
        assert forall|k: int| 0 <= k < ps.len() implies (#[trigger] ps[k]) is Character by {
            if k > 0 {
                assert(ps[k] == pieces(t)[k - 1]);
            }
        }
    }
}

proof fn lemma_printable_cell(s: Seq<char>, ansi: crate::theme::Ansi, bg: Seq<char>, fg: Seq<char>)
    requires
        printable(s),
        s.len() > 0,
    ensures
        cleaned(cell(s, s.len(), ansi, bg, fg), false) == s,
{
    lemma_fitted_printable(s);
    crate::tui_text::law_pieces_lossless(s);
    lemma_plain_kept(pieces(s));
    assert(fitted(s, s.len()) == s);
    law_cell_text(s, s.len(), ansi, bg, fg);
    assert(cleaned(s, false) == s);
}

/// The gutter shows `>` on the line of the cursor while the code has the focus,
/// `|` on the other lines between the start of the selection and the cursor,
/// and nothing elsewhere.
pub proof fn law_gutter_shows_cursor(sc: Scene, k: int, line: int)
    requires
        0 <= k <= usize::MAX,
    ensures
        cleaned(gutter(sc, k, line, 2), false) == (if k == sc.state.cursor_row && sc.state.focus
            == Focus::Code && line == sc.state.cursor_line {
            seq!['>', ' ']
        } else if sc.state.selection_start is Some && ((sc.state.selection_start->0 <= k
            <= sc.state.cursor_row) || (sc.state.cursor_row <= k <= sc.state.selection_start->0)) {
            seq!['|', ' ']
        } else {
            seq![' ', ' ']
        }),
{
    reveal_strlit("> ");
    reveal_strlit("| ");
    reveal_strlit("  ");
    let cursor = k == sc.state.cursor_row && sc.state.focus == Focus::Code && line
        == sc.state.cursor_line;
    let text = if cursor {
        "> "@
    } else if row_selected(sc.state, k as usize) {
        "| "@
    } else {
        "  "@
    };
    assert(text.len() == 2);
    lemma_printable_cell(
        text,
        sc.ansi,
        sc.palette.bg_panel.hex@,
        if cursor {
            sc.palette.fg_accent.hex@
        } else {
            sc.palette.fg_muted.hex@
        },
    );
    assert("> "@ =~= seq!['>', ' ']);
    assert("| "@ =~= seq!['|', ' ']);
    assert("  "@ =~= seq![' ', ' ']);
}

// ---------------------------------------------------------------------------
// Two sides
// ---------------------------------------------------------------------------

/// In a split row the left side is drawn at the left and the right side at the
/// right, each in its own columns, with a line between them; a side that is
/// shorter is filled up.
pub proof fn law_split_row_has_two_sides(
    sc: Scene,
    k: int,
    width: nat,
    hl: HighlightModel,
    i: int,
)
    requires
        0 <= k < sc.rows.len(),
        sc.rows[k].kind == RowKind::SplitCode,
        width >= 34,
        0 <= i < row_lines(sc, k, width, hl).len(),
    ensures
        ({
            let r = sc.rows[k];
            let selected = k == sc.state.cursor_row || row_selected(sc.state, k as usize);
            let a = ((width - 5) / 2) as nat;
            let b = (width - 5 - a) as nat;
            let left = code_lines(sc, r.left, a, selected, false, pair_ranges(r).0, hl.left);
            let right = code_lines(sc, r.right, b, selected, false, pair_ranges(r).1, hl.right);
            let row = row_lines(sc, k, width, hl)[i];
            let bar = cell(" │ "@, 3, sc.ansi, sc.palette.bg_default.hex@, sc.palette.border.hex@);
            exists|x: Seq<char>, y: Seq<char>|
                row == gutter(sc, k, i, 2) + #[trigger] (x + bar + y) && (i < left.len() ==> x
                    == left[i]) && (i < right.len() ==> y == right[i])
        }),
{
    let r = sc.rows[k];
    let selected = k == sc.state.cursor_row || row_selected(sc.state, k as usize);
    let a = ((width - 5) / 2) as nat;
    let b = (width - 5 - a) as nat;
    let left = code_lines(sc, r.left, a, selected, false, pair_ranges(r).0, hl.left);
    let right = code_lines(sc, r.right, b, selected, false, pair_ranges(r).1, hl.right);
    let bar = cell(" │ "@, 3, sc.ansi, sc.palette.bg_default.hex@, sc.palette.border.hex@);
    let bg = crate::tui_style::row_background(selected, DiffLineKind::Context, sc.palette);
    let fg = sc.palette.fg_default.hex@;
    let x = crate::tui_render::line_or(left, i, cell(""@, a, sc.ansi, bg, fg));
    let y = crate::tui_render::line_or(right, i, cell(""@, b, sc.ansi, bg, fg));
    assert(row_lines(sc, k, width, hl)[i] == gutter(sc, k, i, 2) + (x + bar + y));
}

/// The count of reviewed files is the number of marks that are set.
pub proof fn law_progress_counts_marks(marks: Seq<bool>, n: int)
    requires
        0 <= n <= marks.len(),
    ensures
        reviewed_before(marks, n) == marks.take(n).filter(|b: bool| b).len(),
    decreases n,
{
    reveal(Seq::filter);
    if n > 0 {
        law_progress_counts_marks(marks, n - 1);
        assert(marks.take(n).drop_last() =~= marks.take(n - 1));
        assert(marks.take(n).last() == marks[n - 1]);
    } else {
        assert(marks.take(0) =~= Seq::<bool>::empty());
    }
}

// ---------------------------------------------------------------------------
// Clicks
// ---------------------------------------------------------------------------

/// A click on a line of the code puts the cursor on that line: it has as many
/// lines above it as the first visible one and the lines between them; behind
/// the end it is the last line.  The selection goes, and a drag starts one
/// where the cursor was.
pub proof fn law_click_puts_the_cursor(
    files: Seq<FileModel>,
    s: StateModel,
    m: MouseEvent,
    layout: Layout,
)
    requires
        !s.help,
        s.active_file < files.len(),
        m.kind == MouseEventKind::Down(MouseButton::Left) || m.kind == MouseEventKind::Drag(
            MouseButton::Left,
        ),
        ({
            let l = panelled(layout, s);
            &&& 1 <= m.row < l.height - 1
            &&& l.sidebar_width <= m.column < l.width
            &&& l.main_x <= m.column
            &&& l.dock_height == 0 || m.row < l.dock_y
            &&& filled(heights(files, s, l))
            &&& heights(files, s, l).len() > 0
            &&& heights(files, s, l).len() <= usize::MAX
            &&& total(heights(files, s, l)) <= usize::MAX
        }),
    ensures
        ({
            let l = panelled(layout, s);
            let h = heights(files, s, l);
            let t = mouse_outcome(files, s, m, 1, layout);
            let scroll = crate::tui_geometry::settled(h, scroll_of(s));
            &&& t.focus == Focus::Code
            &&& on_rows(h, (t.cursor_row as int, t.cursor_line as int))
            &&& flat(h, (t.cursor_row as int, t.cursor_line as int)) == within(
                flat(h, scroll) + m.row - 1,
                0,
                total(h) - 1,
            )
            &&& t.selection_start == (if m.kind == MouseEventKind::Down(MouseButton::Left) {
                None
            } else if s.selection_start is Some {
                s.selection_start
            } else {
                Some(s.cursor_row)
            })
            &&& t.active_file == s.active_file
        }),
{
    let l = panelled(layout, s);
    let h = heights(files, s, l);
    let cleared = StateModel { pending: None, notice: seq![], ..s };
    let focused = StateModel { focus: Focus::Code, ..cleared };
    assert(crate::tui::setting_of(focused) == crate::tui::setting_of(s));
    assert(heights(files, focused, l) == h);
    lemma_moved_on_rows(h, scroll_of(s), m.row - 1);
    let p = crate::tui_geometry::moved(h, scroll_of(s), m.row - 1);
    lemma_settled(h, p);
    lemma_bounded(h, p);
}

proof fn lemma_bounded(h: Seq<nat>, p: (int, int))
    requires
        on_rows(h, p),
        h.len() <= usize::MAX,
        total(h) <= usize::MAX,
    ensures
        p.0 <= usize::MAX,
        p.1 <= usize::MAX,
{
    crate::tui_geometry::lemma_place_flat(h, p);
}

// ---------------------------------------------------------------------------
// Comments at the cursor
// ---------------------------------------------------------------------------

/// Whether rows hold a block, one row after the other.
pub open spec fn holds_block(rows: Seq<Seq<char>>, block: Seq<Seq<char>>) -> bool {
    exists|i: int|
        0 <= i <= rows.len() - block.len() && #[trigger] rows.subrange(i, i + block.len()) == block
}

proof fn lemma_blocks(
    comments: Seq<CommentModel>,
    path: Seq<char>,
    r: RowModel,
    target: Seq<char>,
    width: nat,
    n: int,
    k: int,
)
    requires
        0 <= k < n <= comments.len(),
    ensures
        is_on_row(comments[k], path, r, target) ==> holds_block(
            comment_blocks(comments, path, r, target, width, n),
            comment_block(comments[k], width),
        ) && comment_blocks(comments, path, r, target, width, n).len() > 0,
    decreases n,
{
    if is_on_row(comments[k], path, r, target) {
        let before = comment_blocks(comments, path, r, target, width, n - 1);
        let all = comment_blocks(comments, path, r, target, width, n);
        let own = comment_block(comments[k], width);
        if k == n - 1 {
            let i = all.len() - own.len();
            assert(all.subrange(i, i + own.len()) =~= own);
        } else {
            lemma_blocks(comments, path, r, target, width, n - 1, k);
            let i = choose|i: int|
                0 <= i <= before.len() - own.len() && #[trigger] before.subrange(i, i + own.len())
                    == own;
            assert(all.subrange(i, i + own.len()) =~= before.subrange(i, i + own.len()));
        }
    }
}

proof fn lemma_no_blocks(
    comments: Seq<CommentModel>,
    path: Seq<char>,
    r: RowModel,
    target: Seq<char>,
    width: nat,
    n: int,
)
    requires
        0 <= n <= comments.len(),
        forall|k: int|
            0 <= k < comments.len() ==> !is_on_row(#[trigger] comments[k], path, r, target),
    ensures
        comment_blocks(comments, path, r, target, width, n).len() == 0,
    decreases n,
{
    if n > 0 {
        assert(!is_on_row(comments[n - 1], path, r, target));
        lemma_no_blocks(comments, path, r, target, width, n - 1);
    }
}

/// Every comment that is about a line of the row of the cursor is shown with
/// its author, its status and its text; where there is none, the reader is told
/// so.
pub proof fn law_comments_of_the_row_are_shown(
    comments: Seq<CommentModel>,
    f: FileModel,
    rows: Seq<RowModel>,
    s: StateModel,
    target: Seq<char>,
    width: nat,
    k: int,
)
    requires
        s.cursor_row < rows.len(),
        0 <= k < comments.len(),
    ensures
        is_on_row(comments[k], f.path, rows[s.cursor_row as int], target) ==> holds_block(
            comments_at_cursor(comments, f, rows, s, target, width),
            comment_block(comments[k], width),
        ),
        (forall|j: int|
            0 <= j < comments.len() ==> !is_on_row(
                #[trigger] comments[j],
                f.path,
                rows[s.cursor_row as int],
                target,
            )) ==> comments_at_cursor(comments, f, rows, s, target, width) == seq![
            "No comments here. Press c to add one."@,
        ],
        comment_block(comments[k], width)[0] == cleaned(
            comments[k].author + " ["@ + comments[k].match_status.label_text() + "]"@,
            false,
        ),
{
    let r = rows[s.cursor_row as int];
    lemma_blocks(comments, f.path, r, target, width, comments.len() as int, k);
    if forall|j: int|
        0 <= j < comments.len() ==> !is_on_row(#[trigger] comments[j], f.path, r, target) {
        lemma_no_blocks(comments, f.path, r, target, width, comments.len() as int);
    }
}

// ---------------------------------------------------------------------------
// The editor
// ---------------------------------------------------------------------------

pub open spec fn plain_press(code: KeyCode) -> KeyEvent {
    KeyEvent { code, modifiers: KeyModifiers::none(), kind: KeyEventKind::Press }
}

/// Typing puts a character at the cursor and goes behind it; Backspace takes
/// the character before the cursor and Delete the one behind it; the arrows
/// move by one character and change nothing.
pub proof fn law_editor_keys(m: EditorModel, c: char)
    requires
        0 <= m.at <= m.body.len(),
        !is_control(c),
    ensures
        edited(m, plain_press(KeyCode::Char(c))) == (
            EditorModel {
                body: m.body.take(m.at) + seq![c] + m.body.skip(m.at),
                at: m.at + 1,
            },
            Action::Continue,
        ),
        m.at > 0 ==> edited(m, plain_press(KeyCode::Backspace)) == (
            EditorModel { body: m.body.take(m.at - 1) + m.body.skip(m.at), at: m.at - 1 },
            Action::Continue,
        ),
        m.at == 0 ==> edited(m, plain_press(KeyCode::Backspace)).0.body == m.body,
        m.at < m.body.len() ==> edited(m, plain_press(KeyCode::Delete)) == (
            EditorModel { body: m.body.take(m.at) + m.body.skip(m.at + 1), at: m.at },
            Action::Continue,
        ),
        m.at == m.body.len() ==> edited(m, plain_press(KeyCode::Delete)).0.body == m.body,
        edited(m, plain_press(KeyCode::Left)).0 == (EditorModel {
            at: if m.at > 0 {
                m.at - 1
            } else {
                0
            },
            ..m
        }),
        edited(m, plain_press(KeyCode::Right)).0 == (EditorModel {
            at: if m.at < m.body.len() {
                m.at + 1
            } else {
                m.at
            },
            ..m
        }),
{
    let a = edited(m, plain_press(KeyCode::Char(c))).0;
    assert(a.body =~= m.body.take(m.at) + seq![c] + m.body.skip(m.at));
    let b = edited(m, plain_press(KeyCode::Backspace)).0;
    let d = edited(m, plain_press(KeyCode::Delete)).0;
    if m.at > 0 {
        assert(b.body =~= m.body.take(m.at - 1) + m.body.skip(m.at));
    } else {
        assert(b.body =~= m.body);
    }
    if m.at < m.body.len() {
        assert(d.body =~= m.body.take(m.at) + m.body.skip(m.at + 1));
    } else {
        assert(d.body =~= m.body);
    }
}

/// Enter keeps the comment, Shift+Enter starts a new line, Escape gives up, and
/// Ctrl+C ends the review; none but the second changes the text.
pub proof fn law_editor_actions(m: EditorModel)
    requires
        0 <= m.at <= m.body.len(),
    ensures
        edited(m, plain_press(KeyCode::Enter)) == (m, Action::Save),
        edited(m, plain_press(KeyCode::Esc)) == (m, Action::Cancel),
        edited(
            m,
            KeyEvent {
                code: KeyCode::Char('c'),
                modifiers: KeyModifiers { control: true, ..KeyModifiers::none() },
                kind: KeyEventKind::Press,
            },
        ) == (m, Action::Quit),
        edited(
            m,
            KeyEvent {
                code: KeyCode::Enter,
                modifiers: KeyModifiers { shift: true, ..KeyModifiers::none() },
                kind: KeyEventKind::Press,
            },
        ).0.body == m.body.take(m.at) + seq!['\n'] + m.body.skip(m.at),
{
}

proof fn lemma_line_start(s: Seq<char>, at: int)
    requires
        0 <= at <= s.len(),
    ensures
        0 <= start_of(s, at) <= at,
        start_of(s, at) > 0 ==> s[start_of(s, at) - 1] == '\n',
        forall|k: int| start_of(s, at) <= k < at ==> (#[trigger] s[k]) != '\n',
    decreases at,
{
    if at > 0 && s[at - 1] != '\n' {
        lemma_line_start(s, at - 1);
    }
}

proof fn lemma_line_stop(s: Seq<char>, at: int)
    requires
        0 <= at <= s.len(),
    ensures
        at <= line_end(s, at) <= s.len(),
        line_end(s, at) < s.len() ==> s[line_end(s, at)] == '\n',
        forall|k: int| at <= k < line_end(s, at) ==> (#[trigger] s[k]) != '\n',
    decreases s.len() - at,
{
    if at < s.len() && s[at] != '\n' {
        lemma_line_stop(s, at + 1);
    }
}

/// Home goes to the start of the line of the cursor and End to its end.
pub proof fn law_editor_line_ends(m: EditorModel)
    requires
        0 <= m.at <= m.body.len(),
    ensures
        ({
            let a = edited(m, plain_press(KeyCode::Home)).0;
            &&& a.body == m.body
            &&& 0 <= a.at <= m.at
            &&& a.at > 0 ==> m.body[a.at - 1] == '\n'
            &&& forall|k: int| a.at <= k < m.at ==> (#[trigger] m.body[k]) != '\n'
        }),
        ({
            let z = edited(m, plain_press(KeyCode::End)).0;
            &&& z.body == m.body
            &&& m.at <= z.at <= m.body.len()
            &&& z.at < m.body.len() ==> m.body[z.at] == '\n'
            &&& forall|k: int| m.at <= k < z.at ==> (#[trigger] m.body[k]) != '\n'
        }),
{
    lemma_line_start(m.body, m.at);
    lemma_line_stop(m.body, m.at);
}

} // verus!

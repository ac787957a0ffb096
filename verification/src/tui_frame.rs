//! A frame of the screen.
use vstd::prelude::*;
use crate::diff::{file_models, DiffLine, DiffSnapshot, FileModel};
use crate::git::FileSide;
use crate::store::{CommentModel, Store};
use crate::syntax::{highlighted_line, HighlightSpan};
use crate::syntax_cache::{
    after_colouring, coloured_line, entry_for, line_place, line_ref, EntryModel, SyntaxCache,
};
use crate::theme::{Ansi, ThemeTokens};
use crate::tui::{
    digits_of, heights, heights_of, layout_fits, minus, panelled, ready, row_height, rows_of, Focus,
    Layout, State, StateModel, CURSOR_GUTTER,
};
use crate::tui_comments::{
    comment_rows, comment_target_label, comments_at_cursor, target_text,
};
use crate::tui_copy::{
    cursor_label, cursor_position, cursor_text, display_path, path_text, position_text, stats_text,
};
use crate::tui_keys::{marks, HELP_LINES};
use crate::tui_nav::{
    ensure_visible, file_tree_start, lemma_view_rows, tree_start, visible,
};
use crate::tui_render::{
    file_comments, is_safe, no_highlight, opt_string, panel, panel_text, row_lines, safe_text,
    Canvas, HighlightModel, RowHighlight, Scene,
};
use crate::tui_screen::{commands_text, frame_commands, Screen, ScreenModel};
use crate::tui_style::{cell, style_cell};
use crate::tui_text::{cleaned, display_width, fit_cell, fitted, plain_text, text_width};
use crate::tui_view::{
    all_lines, count_kind, larger, opt_line, row_models, FileView, RowKind, RowModel, VisualRow,
};
use crate::util::{decimal, push_decimal, push_text, same_text, texts};

verus! {

/// What a frame is drawn from.  The layout and the state are those with which
/// it is shown.
pub ghost struct FrameModel {
    pub files: Seq<FileModel>,
    pub marks: Seq<bool>,
    pub comments: Seq<CommentModel>,
    pub target: Seq<char>,
    pub title: Seq<char>,
    pub state: StateModel,
    pub layout: Layout,
    pub ansi: Ansi,
    pub palette: ThemeTokens,
    pub highlights: Seq<HighlightModel>,
}

/// The file that is shown.
pub open spec fn active(m: FrameModel) -> FileModel {
    m.files[m.state.active_file as int]
}

/// What the rows of the file are drawn from.
pub open spec fn scene(m: FrameModel) -> Scene {
    let f = active(m);
    Scene {
        file: f,
        comments: m.comments,
        target: m.target,
        rows: rows_of(m.files, m.state),
        digits: digits_of(f),
        stats: stats_text(
            count_kind(all_lines(f), crate::diff::DiffLineKind::Delete),
            count_kind(all_lines(f), crate::diff::DiffLineKind::Add),
        ),
        state: m.state,
        ansi: m.ansi,
        palette: m.palette,
    }
}

// ---------------------------------------------------------------------------
// Help
// ---------------------------------------------------------------------------

/// A line of the help.
pub open spec fn help_text(i: int) -> Seq<char> {
    if i == 0 {
        "HELP  Esc / ? close"@
    } else if i == 2 {
        "Tab          Open / close file navigation"@
    } else if i == 3 {
        "j/k arrows   Move cursor; select a file in FILES"@
    } else if i == 4 {
        "Enter        Open selected file / view comments"@
    } else if i == 5 {
        "J/K          Next / previous file, keeping its position"@
    } else if i == 6 {
        "n/p          Next / previous change"@
    } else if i == 7 {
        "PgUp/PgDn    Page; scroll comments in COMMENTS"@
    } else if i == 8 {
        "G/gg         Last / first line"@
    } else if i == 9 {
        "c            Comment on cursor / selected code"@
    } else if i == 10 {
        "V / Esc      Select range / clear selection"@
    } else if i == 11 {
        "y            Copy cursor / selected diff"@
    } else if i == 12 {
        "v            Stacked / split layout"@
    } else if i == 13 {
        "C / z / Z    Fold mode / current fold / all folds"@
    } else if i == 14 {
        "r / u        Mark reviewed / first unreviewed file"@
    } else if i == 15 {
        "q / Ctrl+C   Quit"@
    } else {
        ""@
    }
}

fn help_line(scroll: usize, y: usize) -> (r: &'static str)
    ensures
        r@ == help_text(scroll + y),
{
    if scroll >= HELP_LINES || y >= HELP_LINES {
        return "";
    }
    match scroll + y {
        0 => "HELP  Esc / ? close",
        2 => "Tab          Open / close file navigation",
        3 => "j/k arrows   Move cursor; select a file in FILES",
        4 => "Enter        Open selected file / view comments",
        5 => "J/K          Next / previous file, keeping its position",
        6 => "n/p          Next / previous change",
        7 => "PgUp/PgDn    Page; scroll comments in COMMENTS",
        8 => "G/gg         Last / first line",
        9 => "c            Comment on cursor / selected code",
        10 => "V / Esc      Select range / clear selection",
        11 => "y            Copy cursor / selected diff",
        12 => "v            Stacked / split layout",
        13 => "C / z / Z    Fold mode / current fold / all folds",
        14 => "r / u        Mark reviewed / first unreviewed file",
        15 => "q / Ctrl+C   Quit",
        _ => "",
    }
}

// ---------------------------------------------------------------------------
// The status row
// ---------------------------------------------------------------------------

/// How many of the first `n` files are reviewed.
pub open spec fn reviewed_before(marks: Seq<bool>, n: int) -> nat
    decreases n,
{
    if n <= 0 {
        0
    } else {
        reviewed_before(marks, n - 1) + if marks[n - 1] {
            1nat
        } else {
            0
        }
    }
}

/// The right part of the status: the target, the layout and the progress.
pub open spec fn status_right(m: FrameModel) -> Seq<char> {
    cleaned(
        "  "@ + (if m.title.len() == 0 {
            "working tree"@
        } else {
            m.title
        }) + "  "@ + m.state.mode.label_text() + "/"@ + m.state.fold_mode.label_text() + "  "@
            + decimal(reviewed_before(m.marks, m.files.len() as int)) + "/"@ + decimal(m.files.len())
            + " reviewed "@,
        false,
    )
}

/// The text of the status.  On a wide screen the right part stands at the
/// right.
pub open spec fn status_text(m: FrameModel) -> Seq<char> {
    let right = status_right(m);
    let path = cleaned(" "@ + path_text(active(m)), false);
    let width = m.layout.width;
    if width >= 80 && text_width(right) < width / 2 {
        fitted(path, (width - text_width(right)) as nat) + right
    } else {
        path + "  "@ + right
    }
}

fn count_reviewed(snapshot: &DiffSnapshot, store: &Store) -> (n: usize)
    ensures
        n == reviewed_before(marks(*snapshot, *store), snapshot.files@.len() as int),
{
    let ghost flags = marks(*snapshot, *store);
    let count: usize = snapshot.files.len();
    let mut n: usize = 0;
    let mut i: usize = 0;
    while i < count
        invariant
            flags == marks(*snapshot, *store),
            count == snapshot.files@.len(),
            flags.len() == count,
            n <= i <= count,
            n == reviewed_before(flags, i as int),
        decreases count - i,
    {
        let file = &snapshot.files[i];
        assert(file_models(snapshot.files@)[i as int] == file@);
        if store.is_reviewed(
            file.path.as_str(),
            file.patch_fingerprint.as_str(),
            snapshot.review_target.target_id.as_str(),
        ) {
            n += 1;
        }
        i += 1;
    }
    n
}

// ---------------------------------------------------------------------------
// The list of files
// ---------------------------------------------------------------------------

/// The mark that a file has comments.
pub open spec fn badge_text(count: nat) -> Seq<char> {
    if count > 0 {
        " !"@ + decimal(count)
    } else {
        seq![]
    }
}

/// A row of the list of files.
pub open spec fn file_line(m: FrameModel, y: int, start: int, width: nat) -> Seq<char> {
    let index = start + y - 1;
    if y == 0 {
        panel_text(
            " FILES  "@ + decimal((m.state.file_cursor + 1) as nat) + "/"@ + decimal(m.files.len()),
            width,
            false,
            m.ansi,
            m.palette,
        )
    } else if index >= m.files.len() {
        panel_text(""@, width, false, m.ansi, m.palette)
    } else {
        let f = m.files[index];
        let badge = badge_text(file_comments(m.comments, f.path, m.target));
        let focused = m.state.focus == Focus::Files && index == m.state.file_cursor;
        panel_text(
            (if focused {
                ">"@
            } else if index == m.state.active_file {
                "*"@
            } else {
                " "@
            }) + f.status.label_text() + " "@ + (if m.marks[index] {
                "x"@
            } else {
                "."@
            }) + " "@ + fitted(
                cleaned(f.path, false),
                minus(width, 6 + text_width(badge)),
            ) + badge,
            width,
            focused,
            m.ansi,
            m.palette,
        )
    }
}

// ---------------------------------------------------------------------------
// The body
// ---------------------------------------------------------------------------

pub open spec fn highlight_at(hs: Seq<HighlightModel>, i: int) -> HighlightModel {
    if 0 <= i < hs.len() {
        hs[i]
    } else {
        no_highlight()
    }
}

/// Lines without the first `n`.
pub open spec fn lines_after(v: Seq<Seq<char>>, n: int) -> Seq<Seq<char>> {
    if n <= v.len() {
        v.skip(n)
    } else {
        seq![]
    }
}

/// At most the first `n` lines.
pub open spec fn lines_before(v: Seq<Seq<char>>, n: int) -> Seq<Seq<char>> {
    if n <= v.len() {
        v.take(n)
    } else {
        v
    }
}

/// The lines of the rows from the first visible one to before `k`.
pub open spec fn lines_up_to(sc: Scene, hs: Seq<HighlightModel>, width: nat, k: int) -> Seq<
    Seq<char>,
>
    decreases k,
{
    let first = sc.state.scroll_row as int;
    if k <= first || k <= 0 {
        seq![]
    } else {
        let lines = row_lines(sc, k - 1, width, highlight_at(hs, k - 1 - first));
        lines_up_to(sc, hs, width, k - 1) + (if k - 1 == first {
            lines_after(lines, sc.state.scroll_line as int)
        } else {
            lines
        })
    }
}

/// Whether the code is to be seen.
pub open spec fn code_shown(s: StateModel, l: Layout) -> bool {
    !l.sidebar_overlay && !s.help
}

/// The lines of code in the body.
pub open spec fn code_body(m: FrameModel) -> Seq<Seq<char>> {
    if code_shown(m.state, m.layout) {
        lines_before(
            lines_up_to(
                scene(m),
                m.highlights,
                m.layout.main_width as nat,
                rows_of(m.files, m.state).len() as int,
            ),
            m.layout.body_height as int,
        )
    } else {
        seq![]
    }
}

/// The rows of the comments in the dock.
pub open spec fn dock_comments(
    comments: Seq<CommentModel>,
    files: Seq<FileModel>,
    s: StateModel,
    target: Seq<char>,
    l: Layout,
) -> Seq<Seq<char>> {
    if l.dock_height > 0 && s.focus != Focus::Editor {
        comments_at_cursor(
            comments,
            files[s.active_file as int],
            rows_of(files, s),
            s,
            target,
            larger(minus(l.main_width as nat, 2), 1),
        )
    } else {
        seq![]
    }
}

/// The heading of the dock.
pub open spec fn dock_heading(m: FrameModel) -> Seq<char> {
    let rows = rows_of(m.files, m.state);
    cleaned(
        " "@ + (if m.state.focus == Focus::Editor {
            "COMMENT"@
        } else {
            "COMMENTS"@
        }) + "  "@ + (if m.state.focus == Focus::Editor {
            target_text(active(m), rows, m.state)
        } else {
            position_text(rows, m.state)
        }) + "  "@ + active(m).path,
        false,
    )
}

/// The main part of a row: code, the heading of the dock, or a comment.
pub open spec fn main_line(m: FrameModel, y: int) -> Seq<char> {
    let width = m.layout.main_width as nat;
    let body = m.layout.body_height as int;
    let code = code_body(m);
    let comments = dock_comments(m.comments, m.files, m.state, m.target, m.layout);
    if y < body {
        if y < code.len() {
            code[y]
        } else {
            cell(
                ""@,
                width,
                m.ansi,
                m.palette.bg_default.hex@,
                m.palette.fg_default.hex@,
            )
        }
    } else if y == body {
        cell(
            dock_heading(m),
            width,
            m.ansi,
            m.palette.bg_selected.hex@,
            m.palette.fg_accent.hex@,
        )
    } else {
        let i = m.state.comment_scroll + y - body - 1;
        cell(
            " "@ + (if i < comments.len() {
                comments[i]
            } else {
                ""@
            }),
            width,
            m.ansi,
            m.palette.bg_panel.hex@,
            m.palette.fg_default.hex@,
        )
    }
}

/// A row between the status and the footer.
pub open spec fn body_line(m: FrameModel, y: int) -> Seq<char> {
    let l = m.layout;
    let start = tree_start(
        m.files.len(),
        m.state.file_cursor as nat,
        minus(l.height as nat, 2),
    ) as int;
    if m.state.help {
        panel_text(
            help_text(m.state.help_scroll + y),
            l.width as nat,
            false,
            m.ansi,
            m.palette,
        )
    } else if l.sidebar_overlay {
        file_line(m, y, start, l.sidebar_width as nat)
    } else if l.sidebar_width > 0 {
        file_line(m, y, start, l.sidebar_width as nat) + panel_text(
            "│"@,
            1,
            false,
            m.ansi,
            m.palette,
        ) + main_line(m, y)
    } else {
        main_line(m, y)
    }
}

// ---------------------------------------------------------------------------
// The footer
// ---------------------------------------------------------------------------

/// What the footer says of the focus.
pub open spec fn footer_main(m: FrameModel) -> Seq<char> {
    let l = m.layout;
    let cursor = cursor_text(rows_of(m.files, m.state), m.state);
    if m.state.help {
        "HELP  j/k scroll"@
    } else {
        match m.state.focus {
            Focus::Files => "FILES  j/k select  Enter open  ? help"@,
            Focus::Comments => "COMMENTS  j/k scroll  c comment  Enter code"@,
            Focus::Editor => if l.dock_height < 2 || l.main_width < 3 {
                "COMMENT  Enlarge terminal"@
            } else {
                "COMMENT  Enter save  Shift+Enter newline"@
            },
            Focus::Code => if l.width < 80 {
                cursor + "  Tab files  c comment"@
            } else {
                cursor + "  Tab files  Enter notes  c comment  V "@ + (
                if m.state.selection_start is Some {
                    "clear"@
                } else {
                    "select"@
                }) + "  y copy"@
            },
        }
    }
}

/// The hint at the right end of the footer.
pub open spec fn footer_hint(s: StateModel, width: usize) -> Seq<char> {
    if width < 16 {
        if s.focus == Focus::Code && !s.help {
            "?"@
        } else {
            "Esc"@
        }
    } else if s.help || s.focus == Focus::Files || s.focus == Focus::Comments {
        " Esc close"@
    } else if s.focus == Focus::Editor {
        " Esc cancel"@
    } else {
        " ? help"@
    }
}

/// The text of the footer: a notice, what can be done, and a hint.
pub open spec fn footer_text(m: FrameModel) -> Seq<char> {
    let hint = footer_hint(m.state, m.layout.width);
    let text = if m.state.notice.len() == 0 {
        footer_main(m)
    } else {
        m.state.notice + "  "@ + footer_main(m)
    };
    fitted(cleaned(text, false), minus(m.layout.width as nat, text_width(hint))) + hint
}

// ---------------------------------------------------------------------------
// The frame
// ---------------------------------------------------------------------------

/// The rows of a frame.
pub open spec fn frame_lines(m: FrameModel) -> Seq<Seq<char>> {
    let width = m.layout.width as nat;
    seq![panel_text(status_text(m), width, false, m.ansi, m.palette)] + Seq::new(
        minus(m.layout.height as nat, 2),
        |y: int| body_line(m, y),
    ) + seq![panel_text(footer_text(m), width, false, m.ansi, m.palette)]
}

/// A state whose cursor is followed where the code is to be seen.
pub open spec fn prepared_state(files: Seq<FileModel>, s: StateModel, l: Layout) -> StateModel {
    if code_shown(s, l) {
        visible(s, heights(files, s, l), l.body_height)
    } else {
        s
    }
}

/// A state whose comments are not scrolled beyond their end.
pub open spec fn comments_bounded(
    files: Seq<FileModel>,
    comments: Seq<CommentModel>,
    target: Seq<char>,
    t: StateModel,
    l: Layout,
) -> StateModel {
    let rows = dock_comments(comments, files, t, target, l).len();
    let last = minus(rows, minus(l.dock_height as nat, 1));
    StateModel {
        comment_scroll: if t.comment_scroll <= last {
            t.comment_scroll
        } else {
            last as usize
        },
        ..t
    }
}

/// The state with which a frame is shown: the cursor is followed where the
/// code is to be seen, and the comments are not scrolled beyond their end.
pub open spec fn framed_state(
    files: Seq<FileModel>,
    comments: Seq<CommentModel>,
    target: Seq<char>,
    s: StateModel,
    l: Layout,
) -> StateModel {
    comments_bounded(files, comments, target, prepared_state(files, s, l), l)
}

/// Follows the cursor where the code is to be seen.
fn prepare(
    snapshot: &DiffSnapshot,
    state: &mut State,
    layout: Layout,
)
    requires
        ready(*snapshot, old(state)@),
        layout_fits(layout),
        layout == panelled(layout, old(state)@),
    ensures
        ready(*snapshot, final(state)@),
        layout == panelled(layout, final(state)@),
        final(state)@ == prepared_state(file_models(snapshot.files@), old(state)@, layout),
{
    if !layout.sidebar_overlay && !state.help {
        let view = state.file_view(snapshot);
        proof {
            lemma_view_rows(view, file_models(snapshot.files@), state@, layout);
        }
        ensure_visible(&view, state, layout);
    }
}

/// What a canvas says of the active file.
pub open spec fn on_canvas(c: Canvas, snapshot: DiffSnapshot, m: FrameModel) -> bool {
    &&& c@ == scene(m)
    &&& c.file@ == active(m)
    &&& c.state@ == m.state
    &&& c.ansi == m.ansi
    &&& c.palette == m.palette
    &&& m.files == file_models(snapshot.files@)
    &&& m.marks == marks(snapshot, *c.store)
    &&& m.comments == c.store@.comments
    &&& m.target == snapshot.review_target.target_id@
    &&& m.title == snapshot.review_target.normalized_spec@
    &&& ready(snapshot, m.state)
    &&& layout_fits(m.layout)
}

fn status_of(c: &Canvas<'_, '_>, snapshot: &DiffSnapshot, layout: Layout, Ghost(m): Ghost<FrameModel>) -> (r:
    String)
    requires
        on_canvas(*c, *snapshot, m),
        layout == m.layout,
    ensures
        r@ == status_text(m),
{
    let mut text = String::new();
    push_text(&mut text, "  ");
    proof {
        reveal_strlit("");
        assert(m.title.len() == 0 <==> m.title =~= ""@);
    }
    if same_text(snapshot.review_target.normalized_spec.as_str(), "") {
        push_text(&mut text, "working tree");
    } else {
        push_text(&mut text, snapshot.review_target.normalized_spec.as_str());
    }
    push_text(&mut text, "  ");
    push_text(&mut text, c.state.mode.label());
    push_text(&mut text, "/");
    push_text(&mut text, c.state.fold_mode.label());
    push_text(&mut text, "  ");
    push_decimal(&mut text, count_reviewed(snapshot, c.store) as u64);
    push_text(&mut text, "/");
    push_decimal(&mut text, snapshot.files.len() as u64);
    push_text(&mut text, " reviewed ");
    assert(text@ =~= "  "@ + (if m.title.len() == 0 {
        "working tree"@
    } else {
        m.title
    }) + "  "@ + m.state.mode.label_text() + "/"@ + m.state.fold_mode.label_text() + "  "@
        + decimal(reviewed_before(m.marks, m.files.len() as int)) + "/"@ + decimal(m.files.len())
        + " reviewed "@);
    let right = plain_text(text.as_str());
    let full_path = display_path(c.file);
    let mut head = String::new();
    push_text(&mut head, " ");
    push_text(&mut head, full_path.as_str());
    assert(head@ =~= " "@ + path_text(active(m)));
    let path = plain_text(head.as_str());
    let right_width = display_width(right.as_str());
    let mut out = String::new();
    if layout.width >= 80 && right_width < layout.width / 2 {
        let fit = fit_cell(path.as_str(), layout.width - right_width);
        push_text(&mut out, fit.as_str());
    } else {
        push_text(&mut out, path.as_str());
        push_text(&mut out, "  ");
    }
    push_text(&mut out, right.as_str());
    assert(out@ =~= status_text(m));
    out
}

fn badge_of(count: usize) -> (r: String)
    ensures
        r@ == badge_text(count as nat),
{
    let mut out = String::new();
    if count > 0 {
        push_text(&mut out, " !");
        push_decimal(&mut out, count as u64);
    }
    assert(out@ =~= badge_text(count as nat));
    out
}

fn file_row(
    c: &Canvas<'_, '_>,
    snapshot: &DiffSnapshot,
    y: usize,
    start: usize,
    width: usize,
    Ghost(m): Ghost<FrameModel>,
) -> (r: String)
    requires
        on_canvas(*c, *snapshot, m),
        start <= snapshot.files@.len(),
    ensures
        r@ == file_line(m, y as int, start as int, width as nat),
{
    let count: usize = snapshot.files.len();
    assert(m.files.len() == count);
    if y == 0 {
        let mut text = String::new();
        push_text(&mut text, " FILES  ");
        push_decimal(&mut text, (c.state.file_cursor + 1) as u64);
        push_text(&mut text, "/");
        push_decimal(&mut text, count as u64);
        assert(text@ =~= " FILES  "@ + decimal((m.state.file_cursor + 1) as nat) + "/"@ + decimal(
            m.files.len(),
        ));
        return panel(text.as_str(), width, false, c.ansi, c.palette);
    }
    if y - 1 >= count - start {
        return panel("", width, false, c.ansi, c.palette);
    }
    let index: usize = start + (y - 1);
    let file = &snapshot.files[index];
    assert(m.files[index as int] == file@);
    let target = snapshot.review_target.target_id.as_str();
    let reviewed = c.store.is_reviewed(
        file.path.as_str(),
        file.patch_fingerprint.as_str(),
        target,
    );
    assert(reviewed == m.marks[index as int]);
    let badge = badge_of(c.store.comment_count(file.path.as_str(), target));
    let focused = c.state.focus == Focus::Files && index == c.state.file_cursor;
    let plain = plain_text(file.path.as_str());
    let badge_width = display_width(badge.as_str());
    let room: usize = if width >= 6 && badge_width <= width - 6 {
        width - 6 - badge_width
    } else {
        0
    };
    let path = fit_cell(plain.as_str(), room);
    let mut text = String::new();
    push_text(
        &mut text,
        if focused {
            ">"
        } else if index == c.state.active_file {
            "*"
        } else {
            " "
        },
    );
    push_text(&mut text, file.status.label());
    push_text(&mut text, " ");
    push_text(
        &mut text,
        if reviewed {
            "x"
        } else {
            "."
        },
    );
    push_text(&mut text, " ");
    push_text(&mut text, path.as_str());
    push_text(&mut text, badge.as_str());
    assert(text@ =~= (if focused {
        ">"@
    } else if index == m.state.active_file {
        "*"@
    } else {
        " "@
    }) + file@.status.label_text() + " "@ + (if m.marks[index as int] {
        "x"@
    } else {
        "."@
    }) + " "@ + fitted(cleaned(file@.path, false), minus(width as nat, 6 + text_width(badge@)))
        + badge@);
    panel(text.as_str(), width, focused, c.ansi, c.palette)
}

pub open spec fn highlight_models(v: Seq<RowHighlight>) -> Seq<HighlightModel> {
    v.map_values(|h: RowHighlight| h@)
}

/// What is full stays as it is.
proof fn lemma_full(a: Seq<Seq<char>>, b: Seq<Seq<char>>, n: int)
    requires
        0 <= n <= a.len(),
    ensures
        lines_before(a + b, n) == lines_before(a, n),
{
    assert((a + b).take(n) =~= a.take(n));
}

/// Once the body is full, further rows change nothing.
proof fn lemma_rest_unseen(sc: Scene, hs: Seq<HighlightModel>, width: nat, i: int, k: int, n: int)
    requires
        0 <= i <= k,
        0 <= n <= lines_up_to(sc, hs, width, i).len(),
    ensures
        lines_before(lines_up_to(sc, hs, width, k), n) == lines_before(
            lines_up_to(sc, hs, width, i),
            n,
        ),
        lines_up_to(sc, hs, width, k).len() >= n,
    decreases k - i,
{
    if i < k {
        lemma_rest_unseen(sc, hs, width, i, k - 1, n);
        let first = sc.state.scroll_row as int;
        if k > first {
            let lines = row_lines(sc, k - 1, width, highlight_at(hs, k - 1 - first));
            lemma_full(
                lines_up_to(sc, hs, width, k - 1),
                if k - 1 == first {
                    lines_after(lines, sc.state.scroll_line as int)
                } else {
                    lines
                },
                n,
            );
        } else {
            assert(lines_up_to(sc, hs, width, k) == lines_up_to(sc, hs, width, i));
        }
    }
}

/// Appends lines from one on, as far as there is room.
fn push_lines(out: &mut Vec<String>, lines: Vec<String>, skip: usize, room: usize)
    requires
        old(out)@.len() <= room,
    ensures
        texts(final(out)@) == lines_before(
            texts(old(out)@) + lines_after(texts(lines@), skip as int),
            room as int,
        ),
        final(out)@.len() <= room,
{
    let ghost before = texts(out@);
    let ghost more = lines_after(texts(lines@), skip as int);
    let mut i: usize = skip;
    assert(texts(lines@).len() == lines@.len());
    assert(before + more.take(0) =~= before);
    while i < lines.len() && out.len() < room
        invariant
            skip <= i,
            i <= lines@.len() || i == skip,
            texts(lines@).len() == lines@.len(),
            more == lines_after(texts(lines@), skip as int),
            out@.len() <= room,
            i > lines@.len() ==> more.len() == 0 && texts(out@) == before,
            i <= lines@.len() ==> more.len() == lines@.len() - skip && texts(out@) == before
                + more.take(i - skip),
        decreases lines@.len() - i,
    {
        let ghost now = texts(out@);
        let line = lines[i].clone();
        out.push(line);
        assert(texts(out@) =~= now.push(line@));
        assert(more[i - skip] == lines@[i as int]@);
        assert(more.take(i - skip + 1) =~= more.take(i - skip).push(line@));
        assert(texts(out@) =~= before + more.take(i - skip + 1));
        i += 1;
    }
    assert(texts(out@).len() == out@.len());
    proof {
        let all = before + more;
        if i >= lines@.len() {
            if more.len() > 0 {
                assert(more.take(i - skip) =~= more);
            } else {
                assert(before + more =~= before);
            }
            assert(texts(out@) =~= all);
            if room == all.len() {
                assert(all.take(room as int) =~= all);
            }
        } else {
            assert(all.take(room as int) =~= before + more.take(i - skip));
        }
    }
}

/// The lines of code in the body.
fn code_of(
    c: &Canvas<'_, '_>,
    layout: Layout,
    highlights: &Vec<RowHighlight>,
    Ghost(m): Ghost<FrameModel>,
    Ghost(snapshot): Ghost<DiffSnapshot>,
) -> (r: Vec<String>)
    requires
        on_canvas(*c, snapshot, m),
        layout == m.layout,
        m.highlights == highlight_models(highlights@),
    ensures
        texts(r@) == code_body(m),
{
    let ghost sc = scene(m);
    let ghost hs = m.highlights;
    let ghost width = layout.main_width as nat;
    let ghost body = layout.body_height as int;
    let mut out: Vec<String> = Vec::new();
    assert(texts(out@) =~= Seq::<Seq<char>>::empty());
    if layout.sidebar_overlay || c.state.help {
        return out;
    }
    let count: usize = c.view.rows.len();
    assert(count == sc.rows.len());
    let first: usize = c.state.scroll_row;
    let mut index: usize = first;
    let plain = RowHighlight { line: None, left: None, right: None };
    assert(plain@ == no_highlight());
    if first >= count {
        proof {
            lemma_nothing_up_to(sc, hs, width, count as int);
            assert(lines_before(Seq::<Seq<char>>::empty(), body) =~= Seq::<Seq<char>>::empty());
        }
        return out;
    }
    proof {
        lemma_nothing_up_to(sc, hs, width, first as int);
        assert(lines_before(Seq::<Seq<char>>::empty(), body) =~= Seq::<Seq<char>>::empty());
    }
    while index < count && out.len() < layout.body_height
        invariant
            on_canvas(*c, snapshot, m),
            sc == scene(m),
            hs == highlight_models(highlights@),
            width == layout.main_width as nat,
            body == layout.body_height,
            count == c.view.rows@.len(),
            count == sc.rows.len(),
            first == sc.state.scroll_row,
            first <= index <= count,
            plain@ == no_highlight(),
            out@.len() <= body,
            texts(out@) == lines_before(lines_up_to(sc, hs, width, index as int), body),
        decreases count - index,
    {
        let ghost before = lines_up_to(sc, hs, width, index as int);
        assert(texts(out@).len() == out@.len());
        assert(texts(out@) == before) by {
            assert(before.len() < body);
        }
        let k: usize = index - first;
        let lines = if k < highlights.len() {
            assert(hs[k as int] == highlights@[k as int]@);
            c.row(index, layout.main_width, &highlights[k])
        } else {
            c.row(index, layout.main_width, &plain)
        };
        let skip: usize = if index == first {
            c.state.scroll_line
        } else {
            0
        };
        proof {
            let all = row_lines(sc, index as int, width, highlight_at(hs, k as int));
            assert(texts(lines@) == all);
            assert(all.skip(0) =~= all);
        }
        push_lines(&mut out, lines, skip, layout.body_height);
        index += 1;
    }
    proof {
        assert(texts(out@).len() == out@.len());
        let seen = lines_up_to(sc, hs, width, index as int);
        if index < count {
            assert(seen.len() >= body);
            lemma_rest_unseen(sc, hs, width, index as int, count as int, body);
        }
    }
    out
}

/// No row before the first visible one has lines.
pub proof fn lemma_nothing_up_to(sc: Scene, hs: Seq<HighlightModel>, width: nat, k: int)
    requires
        k <= sc.state.scroll_row,
    ensures
        lines_up_to(sc, hs, width, k) == Seq::<Seq<char>>::empty(),
{
}

fn heading_of(c: &Canvas<'_, '_>, Ghost(m): Ghost<FrameModel>, Ghost(snapshot): Ghost<DiffSnapshot>) -> (r:
    String)
    requires
        on_canvas(*c, snapshot, m),
    ensures
        r@ == dock_heading(m),
{
    let mut text = String::new();
    push_text(&mut text, " ");
    if c.state.focus == Focus::Editor {
        let anchor = comment_target_label(c.file, c.view, c.state);
        push_text(&mut text, "COMMENT");
        push_text(&mut text, "  ");
        push_text(&mut text, anchor.as_str());
    } else {
        let anchor = cursor_position(c.view, c.state);
        push_text(&mut text, "COMMENTS");
        push_text(&mut text, "  ");
        push_text(&mut text, anchor.as_str());
    }
    push_text(&mut text, "  ");
    push_text(&mut text, c.file.path.as_str());
    proof {
        let rows = rows_of(m.files, m.state);
        assert(row_models(c.view.rows@) == rows);
        assert(text@ =~= " "@ + (if m.state.focus == Focus::Editor {
            "COMMENT"@
        } else {
            "COMMENTS"@
        }) + "  "@ + (if m.state.focus == Focus::Editor {
            target_text(active(m), rows, m.state)
        } else {
            position_text(rows, m.state)
        }) + "  "@ + active(m).path);
    }
    plain_text(text.as_str())
}

fn main_of(
    c: &Canvas<'_, '_>,
    layout: Layout,
    y: usize,
    code: &Vec<String>,
    comments: &Vec<String>,
    heading: &str,
    Ghost(m): Ghost<FrameModel>,
    Ghost(snapshot): Ghost<DiffSnapshot>,
) -> (r: String)
    requires
        on_canvas(*c, snapshot, m),
        layout == m.layout,
        texts(code@) == code_body(m),
        texts(comments@) == dock_comments(m.comments, m.files, m.state, m.target, m.layout),
        heading@ == dock_heading(m),
        y < layout.height,
    ensures
        r@ == main_line(m, y as int),
{
    assert(texts(code@).len() == code@.len());
    assert(texts(comments@).len() == comments@.len());
    if y < layout.body_height {
        if y < code.len() {
            assert(texts(code@)[y as int] == code@[y as int]@);
            code[y].clone()
        } else {
            style_cell(
                "",
                layout.main_width,
                c.ansi,
                c.palette.bg_default,
                c.palette.fg_default,
            )
        }
    } else if y == layout.body_height {
        style_cell(
            heading,
            layout.main_width,
            c.ansi,
            c.palette.bg_selected,
            c.palette.fg_accent,
        )
    } else {
        let row: usize = y - layout.body_height - 1;
        let scroll: usize = c.state.comment_scroll;
        let mut text = String::new();
        push_text(&mut text, " ");
        if scroll < comments.len() && row < comments.len() - scroll {
            assert(texts(comments@)[scroll + row] == comments@[scroll + row]@);
            push_text(&mut text, comments[scroll + row].as_str());
        } else {
            push_text(&mut text, "");
        }
        let ghost i = m.state.comment_scroll + y - m.layout.body_height - 1;
        let ghost all = texts(comments@);
        assert(text@ =~= " "@ + (if i < all.len() {
            all[i]
        } else {
            ""@
        }));
        style_cell(
            text.as_str(),
            layout.main_width,
            c.ansi,
            c.palette.bg_panel,
            c.palette.fg_default,
        )
    }
}

fn footer_of(
    c: &Canvas<'_, '_>,
    layout: Layout,
    Ghost(m): Ghost<FrameModel>,
    Ghost(snapshot): Ghost<DiffSnapshot>,
) -> (r: String)
    requires
        on_canvas(*c, snapshot, m),
        layout == m.layout,
    ensures
        r@ == footer_text(m),
{
    let state = c.state;
    let mut text = String::new();
    proof {
        reveal_strlit("");
        assert(m.state.notice.len() == 0 <==> m.state.notice =~= ""@);
        assert(row_models(c.view.rows@) == rows_of(m.files, m.state));
    }
    if !same_text(state.notice.as_str(), "") {
        push_text(&mut text, state.notice.as_str());
        push_text(&mut text, "  ");
    }
    if state.help {
        push_text(&mut text, "HELP  j/k scroll");
    } else {
        match state.focus {
            Focus::Files => push_text(&mut text, "FILES  j/k select  Enter open  ? help"),
            Focus::Comments => push_text(&mut text, "COMMENTS  j/k scroll  c comment  Enter code"),
            Focus::Editor => if layout.dock_height < 2 || layout.main_width < 3 {
                push_text(&mut text, "COMMENT  Enlarge terminal");
            } else {
                push_text(&mut text, "COMMENT  Enter save  Shift+Enter newline");
            },
            Focus::Code => {
                let label = cursor_label(c.view, state);
                push_text(&mut text, label.as_str());
                if layout.width < 80 {
                    push_text(&mut text, "  Tab files  c comment");
                } else {
                    push_text(&mut text, "  Tab files  Enter notes  c comment  V ");
                    if state.selection_start.is_some() {
                        push_text(&mut text, "clear");
                    } else {
                        push_text(&mut text, "select");
                    }
                    push_text(&mut text, "  y copy");
                }
            },
        }
    }
    assert(text@ =~= if m.state.notice.len() == 0 {
        footer_main(m)
    } else {
        m.state.notice + "  "@ + footer_main(m)
    });
    let hint = if layout.width < 16 {
        if state.focus == Focus::Code && !state.help {
            "?"
        } else {
            "Esc"
        }
    } else if state.help || state.focus == Focus::Files || state.focus == Focus::Comments {
        " Esc close"
    } else if state.focus == Focus::Editor {
        " Esc cancel"
    } else {
        " ? help"
    };
    let hint_width = display_width(hint);
    let plain = plain_text(text.as_str());
    let room: usize = if layout.width >= hint_width {
        layout.width - hint_width
    } else {
        0
    };
    let fit = fit_cell(plain.as_str(), room);
    let mut out = String::new();
    push_text(&mut out, fit.as_str());
    push_text(&mut out, hint);
    assert(out@ =~= footer_text(m));
    out
}

fn body_of(
    c: &Canvas<'_, '_>,
    snapshot: &DiffSnapshot,
    layout: Layout,
    y: usize,
    code: &Vec<String>,
    comments: &Vec<String>,
    heading: &str,
    Ghost(m): Ghost<FrameModel>,
) -> (r: String)
    requires
        on_canvas(*c, *snapshot, m),
        layout == m.layout,
        texts(code@) == code_body(m),
        texts(comments@) == dock_comments(m.comments, m.files, m.state, m.target, m.layout),
        heading@ == dock_heading(m),
        y < layout.height,
    ensures
        r@ == body_line(m, y as int),
{
    if c.state.help {
        return panel(help_line(c.state.help_scroll, y), layout.width, false, c.ansi, c.palette);
    }
    assert(m.files.len() == snapshot.files@.len());
    let start: usize = file_tree_start(
        snapshot.files.len(),
        c.state.file_cursor,
        layout.height - 2,
    );
    if layout.sidebar_overlay {
        return file_row(c, snapshot, y, start, layout.sidebar_width, Ghost(m));
    }
    let main = main_of(c, layout, y, code, comments, heading, Ghost(m), Ghost(*snapshot));
    if layout.sidebar_width > 0 {
        let mut line = file_row(c, snapshot, y, start, layout.sidebar_width, Ghost(m));
        let bar = panel("│", 1, false, c.ansi, c.palette);
        push_text(&mut line, bar.as_str());
        push_text(&mut line, main.as_str());
        line
    } else {
        main
    }
}

/// The model of a frame.
pub open spec fn frame_model(
    snapshot: DiffSnapshot,
    store: Store,
    state: StateModel,
    layout: Layout,
    ansi: Ansi,
    palette: ThemeTokens,
    highlights: Seq<HighlightModel>,
) -> FrameModel {
    FrameModel {
        files: file_models(snapshot.files@),
        marks: marks(snapshot, store),
        comments: store@.comments,
        target: snapshot.review_target.target_id@,
        title: snapshot.review_target.normalized_spec@,
        state,
        layout,
        ansi,
        palette,
        highlights,
    }
}

/// The rows of a frame whose cursor is followed already.
fn draw_rows(
    snapshot: &DiffSnapshot,
    store: &Store,
    state: &mut State,
    layout: Layout,
    ansi: Ansi,
    palette: ThemeTokens,
    highlights: &Vec<RowHighlight>,
) -> (r: Vec<String>)
    requires
        ready(*snapshot, old(state)@),
        layout_fits(layout),
        layout == panelled(layout, old(state)@),
    ensures
        ready(*snapshot, final(state)@),
        final(state)@ == comments_bounded(
            file_models(snapshot.files@),
            store@.comments,
            snapshot.review_target.target_id@,
            old(state)@,
            layout,
        ),
        texts(r@) == frame_lines(
            frame_model(
                *snapshot,
                *store,
                final(state)@,
                layout,
                ansi,
                palette,
                highlight_models(highlights@),
            ),
        ),
        r@.len() == layout.height,
{
    let ghost files = file_models(snapshot.files@);
    let view = state.file_view(snapshot);
    proof {
        lemma_view_rows(view, files, state@, layout);
    }
    let ghost shown = state@;
    let comments: Vec<String> = if layout.dock_height > 0 && state.focus != Focus::Editor {
        comment_rows(
            snapshot,
            store,
            &view,
            state,
            if layout.main_width >= 3 {
                layout.main_width - 2
            } else {
                1
            },
        )
    } else {
        Vec::new()
    };
    proof {
        assert(texts(comments@) =~= dock_comments(
            store@.comments,
            files,
            shown,
            snapshot.review_target.target_id@,
            layout,
        ));
        assert(texts(comments@).len() == comments@.len());
    }
    let dock: usize = if layout.dock_height >= 1 {
        layout.dock_height - 1
    } else {
        0
    };
    let last: usize = if comments.len() >= dock {
        comments.len() - dock
    } else {
        0
    };
    if state.comment_scroll > last {
        state.comment_scroll = last;
    }
    let ghost m = frame_model(
        *snapshot,
        *store,
        state@,
        layout,
        ansi,
        palette,
        highlight_models(highlights@),
    );
    let file = &snapshot.files[state.active_file];
    let c = Canvas {
        file,
        store,
        target: snapshot.review_target.target_id.as_str(),
        view: &view,
        state: &*state,
        ansi,
        palette,
    };
    proof {
        assert(crate::tui::setting_of(m.state) == crate::tui::setting_of(shown));
        assert(rows_of(files, m.state) == rows_of(files, shown));
        assert(files[state.active_file as int] == file@);
        assert(c@ == scene(m));
        assert(on_canvas(c, *snapshot, m));
        lemma_comments_stay(m.comments, files, shown, m.state, m.target, layout);
    }
    let code = code_of(&c, layout, highlights, Ghost(m), Ghost(*snapshot));
    let heading = heading_of(&c, Ghost(m), Ghost(*snapshot));
    let status = status_of(&c, snapshot, layout, Ghost(m));
    let mut out: Vec<String> = Vec::new();
    out.push(panel(status.as_str(), layout.width, false, ansi, palette));
    let ghost head = seq![panel_text(status_text(m), layout.width as nat, false, ansi, palette)];
    let ghost rows = Seq::new((layout.height - 2) as nat, |y: int| body_line(m, y));
    assert(texts(out@) =~= head + rows.take(0));
    let mut y: usize = 0;
    while y < layout.height - 2
        invariant
            on_canvas(c, *snapshot, m),
            layout == m.layout,
            texts(code@) == code_body(m),
            texts(comments@) == dock_comments(m.comments, m.files, m.state, m.target, m.layout),
            heading@ == dock_heading(m),
            layout.height >= 3,
            y <= layout.height - 2,
            rows.len() == layout.height - 2,
            forall|k: int| 0 <= k < rows.len() ==> #[trigger] rows[k] == body_line(m, k),
            texts(out@) == head + rows.take(y as int),
        decreases layout.height - 2 - y,
    {
        let line = body_of(
            &c,
            snapshot,
            layout,
            y,
            &code,
            &comments,
            heading.as_str(),
            Ghost(m),
        );
        let ghost before = texts(out@);
        out.push(line);
        assert(texts(out@) =~= before.push(line@));
        assert(rows.take(y + 1) =~= rows.take(y as int).push(line@));
        assert(texts(out@) =~= head + rows.take(y + 1));
        y += 1;
    }
    let footer = footer_of(&c, layout, Ghost(m), Ghost(*snapshot));
    let last_line = panel(footer.as_str(), layout.width, false, ansi, palette);
    let ghost before = texts(out@);
    out.push(last_line);
    proof {
        assert(texts(out@) =~= before.push(last_line@));
        assert(rows.take(y as int) =~= rows);
        assert(minus(layout.height as nat, 2) == (layout.height - 2) as nat);
        let spec = frame_lines(m);
        assert(spec =~= head + rows + seq![last_line@]);
        assert(texts(out@) =~= spec);
        assert(texts(out@).len() == out@.len());
    }
    out
}

/// The rows of a frame with given colours.  `highlights` starts with the first
/// visible row.
pub fn frame_rows(
    snapshot: &DiffSnapshot,
    store: &Store,
    state: &mut State,
    layout: Layout,
    ansi: Ansi,
    palette: ThemeTokens,
    highlights: &Vec<RowHighlight>,
) -> (r: Vec<String>)
    requires
        ready(*snapshot, old(state)@),
        layout_fits(layout),
        layout == panelled(layout, old(state)@),
    ensures
        ready(*snapshot, final(state)@),
        final(state)@ == framed_state(
            file_models(snapshot.files@),
            store@.comments,
            snapshot.review_target.target_id@,
            old(state)@,
            layout,
        ),
        texts(r@) == frame_lines(
            frame_model(
                *snapshot,
                *store,
                final(state)@,
                layout,
                ansi,
                palette,
                highlight_models(highlights@),
            ),
        ),
        r@.len() == layout.height,
{
    prepare(snapshot, state, layout);
    draw_rows(snapshot, store, state, layout, ansi, palette, highlights)
}

/// Scrolling the comments does not change them.
proof fn lemma_comments_stay(
    comments: Seq<CommentModel>,
    files: Seq<FileModel>,
    a: StateModel,
    b: StateModel,
    target: Seq<char>,
    l: Layout,
)
    requires
        b == (StateModel { comment_scroll: b.comment_scroll, ..a }),
    ensures
        dock_comments(comments, files, a, target, l) == dock_comments(comments, files, b, target, l),
{
    assert(crate::tui::setting_of(a) == crate::tui::setting_of(b));
}

// ---------------------------------------------------------------------------
// Colours
// ---------------------------------------------------------------------------

/// Whether a text is a line with its tokens coloured.
pub open spec fn is_coloured(
    l: Option<crate::diff::LineModel>,
    h: Option<Seq<char>>,
    ansi: Ansi,
    palette: ThemeTokens,
) -> bool {
    h matches Some(text) ==> l is Some && exists|spans: Seq<HighlightSpan>| #[trigger]
        highlighted_line((l->0).text, spans, ansi, palette) == text
}

pub open spec fn row_coloured(
    r: RowModel,
    h: HighlightModel,
    ansi: Ansi,
    palette: ThemeTokens,
) -> bool {
    &&& is_coloured(r.line, h.line, ansi, palette)
    &&& is_coloured(r.left, h.left, ansi, palette)
    &&& is_coloured(r.right, h.right, ansi, palette)
}

/// Whether colours are those of the rows from `first` on.
pub open spec fn rows_coloured(
    rows: Seq<RowModel>,
    first: int,
    hs: Seq<HighlightModel>,
    ansi: Ansi,
    palette: ThemeTokens,
) -> bool {
    forall|k: int|
        0 <= k < hs.len() && first + k < rows.len() ==> row_coloured(
            rows[first + k],
            #[trigger] hs[k],
            ansi,
            palette,
        )
}

/// A line with its tokens coloured, where it can be.
pub open spec fn colour_of(
    cache: Seq<EntryModel>,
    ansi: Ansi,
    palette: ThemeTokens,
    file: usize,
    l: Option<crate::diff::LineModel>,
) -> Option<Seq<char>> {
    match l {
        Some(x) => match coloured_line(cache, ansi, palette, file, x) {
            Ok(t) => Some(t),
            Err(_) => None,
        },
        None => None,
    }
}

/// The cache when a line has been coloured.
pub open spec fn cache_after(
    cache: Seq<EntryModel>,
    ansi: Ansi,
    palette: ThemeTokens,
    file: usize,
    l: Option<crate::diff::LineModel>,
) -> Seq<EntryModel> {
    match l {
        Some(x) => after_colouring(cache, ansi, palette, file, x),
        None => cache,
    }
}

/// The colours of a row, and the cache when they have been found.
pub open spec fn row_colours(
    cache: Seq<EntryModel>,
    ansi: Ansi,
    palette: ThemeTokens,
    file: usize,
    r: RowModel,
) -> (HighlightModel, Seq<EntryModel>) {
    let one = cache_after(cache, ansi, palette, file, r.line);
    let two = cache_after(one, ansi, palette, file, r.left);
    (
        HighlightModel {
            line: colour_of(cache, ansi, palette, file, r.line),
            left: colour_of(one, ansi, palette, file, r.left),
            right: colour_of(two, ansi, palette, file, r.right),
        },
        cache_after(two, ansi, palette, file, r.right),
    )
}

/// A line that can be drawn with its colours.
pub open spec fn colourable(l: Option<crate::diff::LineModel>) -> Option<crate::diff::LineModel> {
    match l {
        Some(x) => if safe_text(x.text) {
            l
        } else {
            None
        },
        None => None,
    }
}

/// A row with those of its lines that are drawn with colours: where there is
/// no room for two columns only one side of a split row is drawn.
pub open spec fn drawn(r: RowModel, main_width: nat) -> RowModel {
    let narrow = minus(main_width, CURSOR_GUTTER as nat) < 32;
    let split = r.kind == RowKind::SplitCode;
    RowModel {
        line: if r.kind == RowKind::StackedCode || r.kind == RowKind::FileMeta {
            colourable(r.line)
        } else {
            None
        },
        left: if split && !(narrow && r.right is Some) {
            colourable(r.left)
        } else {
            None
        },
        right: if split {
            colourable(r.right)
        } else {
            None
        },
        ..r
    }
}

/// One past the last row that is drawn, from the row `k` on, given the heights
/// of the rows, the lines that are skipped of this row, and the lines that
/// there is room for.
pub open spec fn drawn_until(hs: Seq<nat>, k: int, skip: nat, room: nat) -> int
    decreases hs.len() - k,
{
    if k < 0 || k >= hs.len() {
        k
    } else if minus(hs[k], skip) >= room {
        k + 1
    } else {
        drawn_until(hs, k + 1, 0, (room - minus(hs[k], skip)) as nat)
    }
}

/// One past the last row of code that a frame draws.
pub open spec fn drawn_end(files: Seq<FileModel>, s: StateModel, l: Layout) -> int {
    drawn_until(
        heights(files, s, l),
        s.scroll_row as int,
        s.scroll_line as nat,
        l.body_height as nat,
    )
}

/// The colours of the rows from `first` to before `end`, found in order, and
/// the cache when they have been found.
pub open spec fn rows_colours(
    cache: Seq<EntryModel>,
    ansi: Ansi,
    palette: ThemeTokens,
    file: usize,
    rows: Seq<RowModel>,
    main_width: nat,
    first: int,
    end: int,
) -> (Seq<HighlightModel>, Seq<EntryModel>)
    decreases end - first,
{
    if end <= first {
        (seq![], cache)
    } else {
        let (hs, c) = rows_colours(cache, ansi, palette, file, rows, main_width, first, end - 1);
        let (h, d) = row_colours(c, ansi, palette, file, drawn(rows[end - 1], main_width));
        (hs.push(h), d)
    }
}

/// The colours of a frame, and the cache when they have been found.
pub open spec fn frame_colours(
    cache: Seq<EntryModel>,
    ansi: Ansi,
    palette: ThemeTokens,
    files: Seq<FileModel>,
    s: StateModel,
    l: Layout,
) -> (Seq<HighlightModel>, Seq<EntryModel>) {
    let rows = rows_of(files, s);
    if code_shown(s, l) {
        rows_colours(
            cache,
            ansi,
            palette,
            s.active_file,
            rows,
            l.main_width as nat,
            s.scroll_row as int,
            drawn_end(files, s, l),
        )
    } else {
        (seq![], cache)
    }
}

/// The side of the file that a line is coloured from.
pub open spec fn colour_side(l: Option<crate::diff::LineModel>) -> Option<FileSide> {
    match l {
        Some(x) => match line_place(x) {
            Some((side, _)) => Some(side),
            None => None,
        },
        None => None,
    }
}

/// Sides that are to be loaded, with one more where a line needs it and it is
/// not there yet.
pub open spec fn with_side(
    v: Seq<FileSide>,
    cache: Seq<EntryModel>,
    file: usize,
    l: Option<crate::diff::LineModel>,
) -> Seq<FileSide> {
    match colour_side(l) {
        Some(side) => if entry_for(cache, file, side, 0) is None && !v.contains(side) {
            v.push(side)
        } else {
            v
        },
        None => v,
    }
}

/// The sides that the rows from `first` to before `end` need and that are not
/// there yet, in the order in which drawing needs them.
pub open spec fn sides_needed(
    cache: Seq<EntryModel>,
    file: usize,
    rows: Seq<RowModel>,
    main_width: nat,
    first: int,
    end: int,
) -> Seq<FileSide>
    decreases end - first,
{
    if end <= first {
        seq![]
    } else {
        let r = drawn(rows[end - 1], main_width);
        let v = sides_needed(cache, file, rows, main_width, first, end - 1);
        let v = with_side(v, cache, file, r.line);
        let v = with_side(v, cache, file, r.left);
        with_side(v, cache, file, r.right)
    }
}

pub proof fn lemma_drawn_until(hs: Seq<nat>, k: int, skip: nat, room: nat)
    requires
        0 <= k,
    ensures
        k <= drawn_until(hs, k, skip, room),
        k <= hs.len() ==> drawn_until(hs, k, skip, room) <= hs.len(),
        k > hs.len() ==> drawn_until(hs, k, skip, room) == k,
    decreases hs.len() - k,
{
    if k < hs.len() && minus(hs[k], skip) < room {
        lemma_drawn_until(hs, k + 1, 0, (room - minus(hs[k], skip)) as nat);
    }
}

fn drawable(line: Option<&DiffLine>) -> (r: Option<&DiffLine>)
    ensures
        opt_line(r) == colourable(opt_line(line)),
{
    match line {
        Some(l) => if is_safe(l.text.as_str()) {
            Some(l)
        } else {
            None
        },
        None => None,
    }
}

/// The lines of a row that are drawn with colours.
fn drawn_lines<'a>(row: &VisualRow<'a>, main_width: usize) -> (r: (
    Option<&'a DiffLine>,
    Option<&'a DiffLine>,
    Option<&'a DiffLine>,
))
    ensures
        opt_line(r.0) == drawn(row@, main_width as nat).line,
        opt_line(r.1) == drawn(row@, main_width as nat).left,
        opt_line(r.2) == drawn(row@, main_width as nat).right,
{
    let narrow = main_width < CURSOR_GUTTER || main_width - CURSOR_GUTTER < 32;
    match row.kind {
        RowKind::StackedCode | RowKind::FileMeta => (drawable(row.line), None, None),
        RowKind::SplitCode => {
            let left = if narrow && row.right.is_some() {
                None
            } else {
                drawable(row.left)
            };
            (None, left, drawable(row.right))
        },
        _ => (None, None, None),
    }
}

/// One past the last row that is drawn.
fn end_of_rows(view: &FileView<'_>, first: usize, skip: usize, layout: Layout) -> (r: usize)
    requires
        view.line_number_width <= usize::MAX - 5,
    ensures
        r == drawn_until(
            heights_of(
                row_models(view.rows@),
                view.line_number_width as nat,
                layout.main_width as nat,
            ),
            first as int,
            skip as nat,
            layout.body_height as nat,
        ),
{
    let ghost hs = heights_of(
        row_models(view.rows@),
        view.line_number_width as nat,
        layout.main_width as nat,
    );
    let mut i: usize = first;
    let mut left: usize = skip;
    let mut room: usize = layout.body_height;
    while i < view.rows.len()
        invariant
            view.line_number_width <= usize::MAX - 5,
            hs == heights_of(
                row_models(view.rows@),
                view.line_number_width as nat,
                layout.main_width as nat,
            ),
            hs.len() == view.rows@.len(),
            drawn_until(hs, i as int, left as nat, room as nat) == drawn_until(
                hs,
                first as int,
                skip as nat,
                layout.body_height as nat,
            ),
        decreases view.rows@.len() - i,
    {
        let height: usize = row_height(view, i, layout);
        assert(hs[i as int] == height);
        let used: usize = if height >= left {
            height - left
        } else {
            0
        };
        if used >= room {
            return i + 1;
        }
        room -= used;
        left = 0;
        i += 1;
    }
    i
}

fn has_side(v: &Vec<FileSide>, side: FileSide) -> (r: bool)
    ensures
        r == v@.contains(side),
{
    let mut i: usize = 0;
    while i < v.len()
        invariant
            i <= v@.len(),
            forall|k: int| 0 <= k < i ==> v@[k] != side,
        decreases v@.len() - i,
    {
        if v[i] == side {
            assert(v@[i as int] == side);
            return true;
        }
        i += 1;
    }
    false
}

/// Draws frames.
pub struct Renderer {
    pub cache: SyntaxCache,
    pub ansi: Ansi,
    pub palette: ThemeTokens,
    pub screen: Screen,
}

/// Rows below each other as text.
pub open spec fn rows_joined(v: Seq<Seq<char>>) -> Seq<char>
    decreases v.len(),
{
    if v.len() == 0 {
        seq![]
    } else if v.len() == 1 {
        v[0]
    } else {
        rows_joined(v.drop_last()).push('\n') + v.last()
    }
}

fn join_rows(rows: &Vec<String>) -> (r: String)
    ensures
        r@ == rows_joined(texts(rows@)),
{
    let ghost all = texts(rows@);
    let mut out = String::new();
    let mut k: usize = 0;
    while k < rows.len()
        invariant
            k <= rows@.len(),
            all == texts(rows@),
            out@ == rows_joined(all.take(k as int)),
        decreases rows@.len() - k,
    {
        let ghost now = all.take(k + 1);
        assert(now.drop_last() =~= all.take(k as int));
        assert(now.last() == rows@[k as int]@);
        if k > 0 {
            out.push('\n');
        }
        push_text(&mut out, rows[k].as_str());
        assert(out@ =~= rows_joined(now));
        k += 1;
    }
    assert(all.take(k as int) =~= all);
    out
}

/// What a frame writes: the changes of the screen, or all rows as text.
pub open spec fn frame_output(
    screen: ScreenModel,
    m: FrameModel,
    interactive: bool,
) -> Seq<char> {
    let lines = frame_lines(m);
    if interactive {
        commands_text(
            frame_commands(screen, lines, m.layout.width, 1, m.layout.body_height + 1),
        )
    } else {
        rows_joined(lines)
    }
}

impl Renderer {
    pub open spec fn wf(&self) -> bool {
        self.cache.wf()
    }

    fn coloured(&mut self, file_index: usize, line: Option<&DiffLine>) -> (r: Option<String>)
        requires
            old(self).wf(),
        ensures
            final(self).wf(),
            final(self).ansi == old(self).ansi,
            final(self).palette == old(self).palette,
            final(self).screen == old(self).screen,
            opt_string(r) == colour_of(
                old(self).cache@,
                old(self).ansi,
                old(self).palette,
                file_index,
                opt_line(line),
            ),
            final(self).cache@ == cache_after(
                old(self).cache@,
                old(self).ansi,
                old(self).palette,
                file_index,
                opt_line(line),
            ),
            is_coloured(opt_line(line), opt_string(r), old(self).ansi, old(self).palette),
    {
        match line {
            Some(l) => match self.cache.highlight_diff_line(
                self.ansi,
                self.palette,
                file_index,
                l,
            ) {
                Ok(text) => Some(text),
                Err(_) => None,
            },
            None => None,
        }
    }

    /// The colours of the rows from `first` to before `end`.
    fn colours(
        &mut self,
        view: &FileView<'_>,
        file_index: usize,
        main_width: usize,
        first: usize,
        end: usize,
    ) -> (r: Vec<RowHighlight>)
        requires
            old(self).wf(),
            first < end ==> end <= view.rows@.len(),
        ensures
            final(self).wf(),
            final(self).ansi == old(self).ansi,
            final(self).palette == old(self).palette,
            final(self).screen == old(self).screen,
            rows_coloured(
                row_models(view.rows@),
                first as int,
                highlight_models(r@),
                old(self).ansi,
                old(self).palette,
            ),
            (highlight_models(r@), final(self).cache@) == rows_colours(
                old(self).cache@,
                old(self).ansi,
                old(self).palette,
                file_index,
                row_models(view.rows@),
                main_width as nat,
                first as int,
                end as int,
            ),
    {
        let ghost rows = row_models(view.rows@);
        let ghost ansi = self.ansi;
        let ghost palette = self.palette;
        let ghost screen = self.screen;
        let ghost cache = self.cache@;
        let mut out: Vec<RowHighlight> = Vec::new();
        let mut i: usize = first;
        assert(highlight_models(out@) =~= seq![]);
        while i < end
            invariant
                self.wf(),
                self.ansi == ansi,
                self.palette == palette,
                self.screen == screen,
                rows == row_models(view.rows@),
                first < end ==> end <= view.rows@.len(),
                first <= i,
                i <= end || i == first,
                rows.len() == view.rows@.len(),
                out@.len() == i - first,
                (highlight_models(out@), self.cache@) == rows_colours(
                    cache,
                    ansi,
                    palette,
                    file_index,
                    rows,
                    main_width as nat,
                    first as int,
                    i as int,
                ),
                forall|k: int|
                    0 <= k < out@.len() ==> row_coloured(
                        rows[first + k],
                        (#[trigger] out@[k])@,
                        ansi,
                        palette,
                    ),
            decreases end - i,
        {
            let row = &view.rows[i];
            assert(rows[i as int] == row@);
            let (line, left, right) = drawn_lines(row, main_width);
            let line = self.coloured(file_index, line);
            let left = self.coloured(file_index, left);
            let right = self.coloured(file_index, right);
            let ghost before = out@;
            out.push(RowHighlight { line, left, right });
            assert(highlight_models(out@) =~= highlight_models(before).push(out@.last()@));
            i += 1;
        }
        assert forall|k: int|
            0 <= k < highlight_models(out@).len() && first + k < rows.len() implies row_coloured(
            rows[first + k],
            #[trigger] highlight_models(out@)[k],
            ansi,
            palette,
        ) by {
            assert(highlight_models(out@)[k] == out@[k]@);
        }
        out
    }

    fn add_side(&self, out: &mut Vec<FileSide>, file_index: usize, line: Option<&DiffLine>)
        ensures
            final(out)@ == with_side(old(out)@, self.cache@, file_index, opt_line(line)),
    {
        if let Some(l) = line {
            if let Some((side, _)) = line_ref(l) {
                if self.cache.is_missing(file_index, side) && !has_side(out, side) {
                    out.push(side);
                }
            }
        }
    }

    /// The sides of the active file that are not loaded and that the next frame
    /// needs for the colours of the lines that it draws, in the order in which
    /// it needs them.
    pub fn missing_sides(&self, snapshot: &DiffSnapshot, state: &mut State, layout: Layout) -> (r:
        Vec<FileSide>)
        requires
            ready(*snapshot, old(state)@),
            layout.width >= 1,
            layout.height >= 3,
        ensures
            ready(*snapshot, final(state)@),
            ({
                let files = file_models(snapshot.files@);
                let l = panelled(layout, old(state)@);
                let s = final(state)@;
                &&& s == prepared_state(files, old(state)@, l)
                &&& r@ == if code_shown(old(state)@, l) && self.ansi.enabled {
                    sides_needed(
                        self.cache@,
                        s.active_file,
                        rows_of(files, s),
                        l.main_width as nat,
                        s.scroll_row as int,
                        drawn_end(files, s, l),
                    )
                } else {
                    seq![]
                }
            }),
    {
        let layout = layout.with_panels(state);
        let shown = !layout.sidebar_overlay && !state.help;
        prepare(snapshot, state, layout);
        let mut out: Vec<FileSide> = Vec::new();
        assert(out@ =~= seq![]);
        if !shown || !self.ansi.enabled {
            return out;
        }
        let view = state.file_view(snapshot);
        let ghost files = file_models(snapshot.files@);
        let ghost rows = rows_of(files, state@);
        proof {
            lemma_view_rows(view, files, state@, layout);
            lemma_drawn_until(
                heights(files, state@, layout),
                state.scroll_row as int,
                state.scroll_line as nat,
                layout.body_height as nat,
            );
        }
        let index: usize = state.active_file;
        let first: usize = state.scroll_row;
        let end: usize = end_of_rows(&view, first, state.scroll_line, layout);
        let mut i: usize = first;
        while i < end
            invariant
                rows == row_models(view.rows@),
                rows.len() == view.rows@.len(),
                first < end ==> end <= view.rows@.len(),
                first <= i,
                i <= end || i == first,
                out@ == sides_needed(
                    self.cache@,
                    index,
                    rows,
                    layout.main_width as nat,
                    first as int,
                    i as int,
                ),
            decreases end - i,
        {
            let row = &view.rows[i];
            assert(rows[i as int] == row@);
            let (line, left, right) = drawn_lines(row, layout.main_width);
            self.add_side(&mut out, index, line);
            self.add_side(&mut out, index, left);
            self.add_side(&mut out, index, right);
            i += 1;
        }
        out
    }

    /// Draws a frame.  The rows are those with the colours that the cache has.
    pub fn frame(
        &mut self,
        snapshot: &DiffSnapshot,
        store: &Store,
        state: &mut State,
        layout: Layout,
        interactive: bool,
    ) -> (r: String)
        requires
            old(self).wf(),
            ready(*snapshot, old(state)@),
            layout.width >= 1,
            3 <= layout.height <= isize::MAX,
        ensures
            final(self).wf(),
            final(self).ansi == old(self).ansi,
            final(self).palette == old(self).palette,
            ready(*snapshot, final(state)@),
            final(state)@ == framed_state(
                file_models(snapshot.files@),
                store@.comments,
                snapshot.review_target.target_id@,
                old(state)@,
                panelled(layout, old(state)@),
            ),
            !interactive ==> final(self).screen == old(self).screen,
            ({
                let l = panelled(layout, old(state)@);
                let (hs, after) = frame_colours(
                    old(self).cache@,
                    old(self).ansi,
                    old(self).palette,
                    file_models(snapshot.files@),
                    final(state)@,
                    l,
                );
                let m = frame_model(
                    *snapshot,
                    *store,
                    final(state)@,
                    l,
                    old(self).ansi,
                    old(self).palette,
                    hs,
                );
                &&& rows_coloured(
                    rows_of(m.files, m.state),
                    m.state.scroll_row as int,
                    hs,
                    m.ansi,
                    m.palette,
                )
                &&& final(self).cache@ == after
                &&& r@ == frame_output(old(self).screen@, m, interactive)
                &&& interactive ==> final(self).screen@ == (ScreenModel {
                    width: m.layout.width,
                    lines: frame_lines(m),
                })
            }),
    {
        let ghost files = file_models(snapshot.files@);
        let ghost cache = self.cache@;
        let inner = layout.with_panels(state);
        prepare(snapshot, state, inner);
        let ghost prepared = state@;
        let view = state.file_view(snapshot);
        proof {
            lemma_view_rows(view, files, state@, inner);
        }
        let highlights: Vec<RowHighlight> = if !inner.sidebar_overlay && !state.help {
            let first: usize = state.scroll_row;
            let end: usize = end_of_rows(&view, first, state.scroll_line, inner);
            proof {
                lemma_drawn_until(
                    heights(files, state@, inner),
                    state.scroll_row as int,
                    state.scroll_line as nat,
                    inner.body_height as nat,
                );
            }
            self.colours(&view, state.active_file, inner.main_width, first, end)
        } else {
            Vec::new()
        };
        let ghost hs = highlight_models(highlights@);
        proof {
            assert(code_shown(prepared, inner) || hs =~= seq![]);
            assert(rows_of(files, prepared) == row_models(view.rows@));
            assert((hs, self.cache@) == frame_colours(
                cache,
                self.ansi,
                self.palette,
                files,
                prepared,
                inner,
            ));
        }
        let lines = draw_rows(
            snapshot,
            store,
            state,
            inner,
            self.ansi,
            self.palette,
            &highlights,
        );
        let ghost m = frame_model(
            *snapshot,
            *store,
            state@,
            inner,
            self.ansi,
            self.palette,
            hs,
        );
        proof {
            assert(crate::tui::setting_of(state@) == crate::tui::setting_of(prepared));
            assert(frame_colours(cache, self.ansi, self.palette, files, state@, inner)
                == frame_colours(cache, self.ansi, self.palette, files, prepared, inner));
            assert(rows_coloured(
                rows_of(m.files, m.state),
                m.state.scroll_row as int,
                hs,
                m.ansi,
                m.palette,
            ));
        }
        if interactive {
            self.screen.draw(lines, inner.width, 1..inner.body_height + 1)
        } else {
            join_rows(&lines)
        }
    }
}

} // verus!

//! The screen of a review: its layout, what the reader is looking at, and the
//! geometry of wrapped rows.
use std::collections::HashMap;
use vstd::prelude::*;
use crate::diff::{
    file_models, hunk_lines, DiffLine, DiffLineKind, DiffSnapshot, FileModel, LineModel,
};
use crate::tui_text::{cleaned, plain_text};
use crate::tui_view::{
    all_lines, build_file_view, change_spans, is_view_of, larger, max_lineno, numbered_rows,
    opt_line, plain_rows, ChangeSpan, FileView, FoldEntry, FoldId, FoldMode, FoldState, RowKind,
    RowModel, Setting, ViewMode,
};
use crate::tui_wrap::{wrap_ansi, wrapped};
use crate::util::{chars_of, decimal, texts};

verus! {

broadcast use vstd::std_specs::hash::group_hash_axioms;

/// The columns before a row in which the cursor is shown.
pub const CURSOR_GUTTER: usize = 2;

#[derive(Clone, Copy, Debug, PartialEq, Eq, Structural)]
pub enum Focus {
    Code,
    Files,
    Comments,
    Editor,
}

// ---------------------------------------------------------------------------
// Layout
// ---------------------------------------------------------------------------

/// Where things stand on the screen: a status row, the body with the code and
/// perhaps the files beside it, the comments below, and a footer row.
#[derive(Clone, Copy, Debug, PartialEq, Eq, Structural)]
pub struct Layout {
    pub width: usize,
    pub height: usize,
    pub body_height: usize,
    pub main_x: usize,
    pub main_width: usize,
    pub sidebar_width: usize,
    pub sidebar_overlay: bool,
    pub dock_y: usize,
    pub dock_height: usize,
}

/// The parts fill the screen and do not overlap.
pub open spec fn layout_fits(l: Layout) -> bool {
    &&& l.width >= 1
    &&& l.height >= 3
    &&& l.body_height >= 1
    &&& l.body_height + l.dock_height + 2 == l.height
    &&& l.dock_y + l.dock_height + 1 == l.height
    &&& l.main_x + l.main_width == l.width
    &&& l.main_width >= 1
    &&& if l.sidebar_overlay {
        l.sidebar_width == l.width && l.main_x == 0 && l.dock_height == 0
    } else if l.sidebar_width > 0 {
        l.main_x == l.sidebar_width + 1
    } else {
        l.main_x == 0
    }
}

/// The layout of a screen without panels.  A screen counts as at least one
/// column wide and three rows high.
pub open spec fn bare_layout(width: usize, height: usize) -> Layout {
    let w = if width >= 1 {
        width
    } else {
        1
    };
    let h = if height >= 3 {
        height
    } else {
        3
    };
    Layout {
        width: w,
        height: h,
        body_height: (h - 2) as usize,
        main_x: 0,
        main_width: w,
        sidebar_width: 0,
        sidebar_overlay: false,
        dock_y: (h - 1) as usize,
        dock_height: 0,
    }
}

/// A quarter of the width, within bounds.
pub open spec fn sidebar_columns(width: usize) -> usize {
    let q = width / 4;
    if q < 26 {
        26
    } else if q > 34 {
        34
    } else {
        q
    }
}

/// A third of the height, within bounds.
pub open spec fn dock_rows(height: usize) -> usize {
    let t = height / 3;
    if t < 3 {
        3
    } else if t > 8 {
        8
    } else {
        t
    }
}

/// The layout of a screen with the panels that are open.  On a wide screen the
/// files stand beside the code; on a narrow one they cover it while they have
/// the focus.
pub open spec fn panel_layout(
    width: usize,
    height: usize,
    sidebar_open: bool,
    focus: Focus,
    comment_open: bool,
) -> Layout {
    let b = bare_layout(width, height);
    let wide = sidebar_open && width >= 112;
    let overlay = sidebar_open && width < 112 && focus == Focus::Files;
    let dock = comment_open && height >= 7 && !overlay;
    let rows = if dock {
        dock_rows(height)
    } else {
        0
    };
    Layout {
        sidebar_width: if wide {
            sidebar_columns(width)
        } else if overlay {
            width
        } else {
            0
        },
        main_x: if wide {
            (sidebar_columns(width) + 1) as usize
        } else {
            0
        },
        main_width: if wide {
            (b.main_width - sidebar_columns(width) - 1) as usize
        } else {
            b.main_width
        },
        sidebar_overlay: overlay,
        dock_height: rows,
        dock_y: (b.dock_y - rows) as usize,
        body_height: (b.body_height - rows) as usize,
        ..b
    }
}

/// Whatever panels are open, the parts of the screen fill it.
pub proof fn law_layout_fits(
    width: usize,
    height: usize,
    sidebar_open: bool,
    focus: Focus,
    comment_open: bool,
)
    requires
        width >= 1,
        height >= 3,
    ensures
        layout_fits(panel_layout(width, height, sidebar_open, focus, comment_open)),
        panel_layout(width, height, sidebar_open, focus, comment_open).width == width,
        panel_layout(width, height, sidebar_open, focus, comment_open).height == height,
{
}

impl Layout {
    pub fn new(width: usize, height: usize) -> (r: Layout)
        ensures
            r == bare_layout(width, height),
            layout_fits(r),
    {
        let width: usize = if width >= 1 {
            width
        } else {
            1
        };
        let height: usize = if height >= 3 {
            height
        } else {
            3
        };
        Layout {
            width,
            height,
            body_height: height - 2,
            main_x: 0,
            main_width: width,
            sidebar_width: 0,
            sidebar_overlay: false,
            dock_y: height - 1,
            dock_height: 0,
        }
    }

    /// The layout with the panels that are open.
    pub fn with_panels(self, state: &State) -> (r: Layout)
        requires
            self.width >= 1,
            self.height >= 3,
        ensures
            r == panelled(self, state@),
            layout_fits(r),
            r.width == self.width,
            r.height == self.height,
    {
        let mut layout = Layout::new(self.width, self.height);
        if state.sidebar_open {
            if self.width >= 112 {
                let quarter: usize = self.width / 4;
                layout.sidebar_width = if quarter < 26 {
                    26
                } else if quarter > 34 {
                    34
                } else {
                    quarter
                };
                layout.main_x = layout.sidebar_width + 1;
                layout.main_width = layout.main_width - layout.main_x;
            } else if state.focus == Focus::Files {
                layout.sidebar_width = self.width;
                layout.sidebar_overlay = true;
            }
        }
        if state.comment_open && self.height >= 7 && !layout.sidebar_overlay {
            let third: usize = self.height / 3;
            layout.dock_height = if third < 3 {
                3
            } else if third > 8 {
                8
            } else {
                third
            };
            layout.dock_y = layout.dock_y - layout.dock_height;
            layout.body_height = layout.body_height - layout.dock_height;
        }
        layout
    }
}

/// A layout with the panels that a state has open.
pub open spec fn panelled(l: Layout, s: StateModel) -> Layout {
    panel_layout(l.width, l.height, s.sidebar_open, s.focus, s.comment_open)
}

// ---------------------------------------------------------------------------
// State
// ---------------------------------------------------------------------------

/// Where the reader was in a file, and how it was laid out.
#[derive(Clone, Copy, Debug, PartialEq, Eq)]
pub struct ReadingPosition {
    pub cursor: (usize, usize),
    pub scroll: (usize, usize),
    pub mode: ViewMode,
    pub fold_mode: FoldMode,
    pub width: usize,
}

/// What the reader is looking at.
#[derive(Debug)]
pub struct State {
    pub active_file: usize,
    pub cursor_row: usize,
    /// Paging and the wheel can stop within a wrapped row.
    pub cursor_line: usize,
    pub scroll_row: usize,
    pub scroll_line: usize,
    pub mode: ViewMode,
    pub fold_mode: FoldMode,
    pub selection_start: Option<usize>,
    pub notice: String,
    pub help: bool,
    pub help_scroll: usize,
    pub pending: Option<char>,
    pub folds: Vec<FoldEntry>,
    pub focus: Focus,
    pub sidebar_open: bool,
    pub file_cursor: usize,
    pub comment_open: bool,
    pub comment_scroll: usize,
    pub dock_origin: Option<ReadingPosition>,
    pub positions: HashMap<usize, ReadingPosition>,
}

/// What a state says.
pub ghost struct StateModel {
    pub active_file: usize,
    pub cursor_row: usize,
    pub cursor_line: usize,
    pub scroll_row: usize,
    pub scroll_line: usize,
    pub mode: ViewMode,
    pub fold_mode: FoldMode,
    pub selection_start: Option<usize>,
    pub notice: Seq<char>,
    pub help: bool,
    pub help_scroll: usize,
    pub pending: Option<char>,
    pub folds: Seq<FoldEntry>,
    pub focus: Focus,
    pub sidebar_open: bool,
    pub file_cursor: usize,
    pub comment_open: bool,
    pub comment_scroll: usize,
    pub dock_origin: Option<ReadingPosition>,
    pub positions: Map<usize, ReadingPosition>,
}

impl View for State {
    type V = StateModel;

    open spec fn view(&self) -> StateModel {
        StateModel {
            active_file: self.active_file,
            cursor_row: self.cursor_row,
            cursor_line: self.cursor_line,
            scroll_row: self.scroll_row,
            scroll_line: self.scroll_line,
            mode: self.mode,
            fold_mode: self.fold_mode,
            selection_start: self.selection_start,
            notice: self.notice@,
            help: self.help,
            help_scroll: self.help_scroll,
            pending: self.pending,
            folds: self.folds@,
            focus: self.focus,
            sidebar_open: self.sidebar_open,
            file_cursor: self.file_cursor,
            comment_open: self.comment_open,
            comment_scroll: self.comment_scroll,
            dock_origin: self.dock_origin,
            positions: self.positions@,
        }
    }
}

/// How a review starts.
pub open spec fn first_state() -> StateModel {
    StateModel {
        active_file: 0,
        cursor_row: 0,
        cursor_line: 0,
        scroll_row: 0,
        scroll_line: 0,
        mode: ViewMode::Stacked,
        fold_mode: FoldMode::Unfold,
        selection_start: None,
        notice: seq![],
        help: false,
        help_scroll: 0,
        pending: None,
        folds: seq![],
        focus: Focus::Code,
        sidebar_open: false,
        file_cursor: 0,
        comment_open: false,
        comment_scroll: 0,
        dock_origin: None,
        positions: Map::empty(),
    }
}

impl Default for State {
    fn default() -> (r: State)
        ensures
            r@ == first_state(),
    {
        let r = State {
            active_file: 0,
            cursor_row: 0,
            cursor_line: 0,
            scroll_row: 0,
            scroll_line: 0,
            mode: ViewMode::Stacked,
            fold_mode: FoldMode::Unfold,
            selection_start: None,
            notice: String::new(),
            help: false,
            help_scroll: 0,
            pending: None,
            folds: Vec::new(),
            focus: Focus::Code,
            sidebar_open: false,
            file_cursor: 0,
            comment_open: false,
            comment_scroll: 0,
            dock_origin: None,
            positions: HashMap::new(),
        };
        assert(r@.notice =~= first_state().notice);
        assert(r@.folds =~= first_state().folds);
        assert(r@.positions =~= first_state().positions);
        r
    }
}

/// Where the reader is.
pub open spec fn captured_position(s: StateModel, l: Layout) -> ReadingPosition {
    ReadingPosition {
        cursor: (s.cursor_row, s.cursor_line),
        scroll: (s.scroll_row, s.scroll_line),
        mode: s.mode,
        fold_mode: s.fold_mode,
        width: l.main_width,
    }
}

/// Back to where the reader was.  Wrapped lines count only while the width is
/// the same.
pub open spec fn restored_position(s: StateModel, p: ReadingPosition, l: Layout) -> StateModel {
    let same = p.width == l.main_width;
    StateModel {
        cursor_row: p.cursor.0,
        cursor_line: if same {
            p.cursor.1
        } else {
            0
        },
        scroll_row: p.scroll.0,
        scroll_line: if same {
            p.scroll.1
        } else {
            0
        },
        mode: p.mode,
        fold_mode: p.fold_mode,
        ..s
    }
}

impl ReadingPosition {
    pub fn capture(state: &State, layout: Layout) -> (r: ReadingPosition)
        ensures
            r == captured_position(state@, layout),
    {
        ReadingPosition {
            cursor: (state.cursor_row, state.cursor_line),
            scroll: (state.scroll_row, state.scroll_line),
            mode: state.mode,
            fold_mode: state.fold_mode,
            width: layout.main_width,
        }
    }

    pub fn restore(self, state: &mut State, layout: Layout)
        ensures
            final(state)@ == restored_position(old(state)@, self, layout),
    {
        state.cursor_row = self.cursor.0;
        state.cursor_line = self.cursor.1;
        state.scroll_row = self.scroll.0;
        state.scroll_line = self.scroll.1;
        state.mode = self.mode;
        state.fold_mode = self.fold_mode;
        if self.width != layout.main_width {
            state.cursor_line = 0;
            state.scroll_line = 0;
        }
    }
}

/// Whether a row is selected.
pub open spec fn row_selected(s: StateModel, row: usize) -> bool {
    match s.selection_start {
        Some(start) => (start <= row <= s.cursor_row) || (s.cursor_row <= row <= start),
        None => false,
    }
}

/// Without a selection, notice, help or pending prefix.
pub open spec fn cleared_selection(s: StateModel) -> StateModel {
    StateModel { selection_start: None, notice: seq![], help: false, pending: None, ..s }
}

/// With the comments open; the place from which they were opened is kept.
pub open spec fn opened_comments(s: StateModel, focus: Focus, l: Layout) -> StateModel {
    StateModel {
        dock_origin: if !s.comment_open {
            Some(captured_position(s, l))
        } else {
            s.dock_origin
        },
        comment_open: true,
        comment_scroll: 0,
        focus,
        ..s
    }
}

/// With the comments closed; where nothing else has moved, the view goes back
/// to what it was before they were opened.
pub open spec fn closed_comments(s: StateModel, l: Layout) -> StateModel {
    let back = match s.dock_origin {
        Some(o) => o.cursor == (s.cursor_row, s.cursor_line) && o.mode == s.mode && o.fold_mode
            == s.fold_mode && o.width == l.main_width,
        None => false,
    };
    StateModel {
        scroll_row: if back {
            (s.dock_origin->0).scroll.0
        } else {
            s.scroll_row
        },
        scroll_line: if back {
            (s.dock_origin->0).scroll.1
        } else {
            s.scroll_line
        },
        dock_origin: None,
        comment_open: false,
        comment_scroll: 0,
        focus: Focus::Code,
        ..s
    }
}

/// Opening the comments and closing them again, with nothing in between, shows
/// the same code at the same place.
pub proof fn law_comments_open_close(s: StateModel, focus: Focus, l: Layout)
    requires
        !s.comment_open,
    ensures
        closed_comments(opened_comments(s, focus, l), l).scroll_row == s.scroll_row,
        closed_comments(opened_comments(s, focus, l), l).scroll_line == s.scroll_line,
        closed_comments(opened_comments(s, focus, l), l).cursor_row == s.cursor_row,
        closed_comments(opened_comments(s, focus, l), l).cursor_line == s.cursor_line,
{
}

/// Folds with the state of one of them set.
pub open spec fn with_fold(folds: Seq<FoldEntry>, id: FoldId, state: FoldState) -> Seq<FoldEntry>
    decreases folds.len(),
{
    if folds.len() == 0 {
        seq![FoldEntry { id, state }]
    } else if folds[0].id == id {
        seq![FoldEntry { id, state }] + folds.skip(1)
    } else {
        seq![folds[0]] + with_fold(folds.skip(1), id, state)
    }
}

/// A fold that has been set has that state, and no other fold has changed.
pub proof fn law_fold_set(folds: Seq<FoldEntry>, id: FoldId, state: FoldState, other: FoldId)
    ensures
        crate::tui_view::state_of(with_fold(folds, id, state), other) == if other == id {
            state
        } else {
            crate::tui_view::state_of(folds, other)
        },
    decreases folds.len(),
{
    let g = with_fold(folds, id, state);
    reveal_with_fuel(crate::tui_view::state_of, 2);
    if folds.len() == 0 {
        assert(g.skip(1) =~= Seq::<FoldEntry>::empty());
    } else if folds[0].id == id {
        assert(g.skip(1) =~= folds.skip(1));
    } else {
        law_fold_set(folds.skip(1), id, state, other);
        assert(g.skip(1) =~= with_fold(folds.skip(1), id, state));
    }
}

/// The files of a snapshot can be shown, and a state speaks of files that are
/// there.  Every key and every mouse event keeps this.
pub open spec fn ready(snapshot: DiffSnapshot, s: StateModel) -> bool {
    &&& viewable(snapshot, s)
    &&& s.file_cursor < snapshot.files@.len()
    &&& s.cursor_row < usize::MAX
    &&& s.selection_start != Some(usize::MAX)
}

/// There is an active file, and the files of a snapshot can be shown.
pub open spec fn viewable(snapshot: DiffSnapshot, s: StateModel) -> bool {
    s.active_file < snapshot.files@.len() && countable(snapshot)
}

/// The rows of every file can be counted.
pub open spec fn countable(snapshot: DiffSnapshot) -> bool {
    forall|k: int|
        0 <= k < snapshot.files@.len() ==> hunk_lines((#[trigger] snapshot.files@[k])@.hunks)
            <= usize::MAX
}

impl State {
    /// The rows of the active file.
    pub fn file_view<'a>(&self, snapshot: &'a DiffSnapshot) -> (v: FileView<'a>)
        requires
            viewable(*snapshot, self@),
        ensures
            shows(v, file_models(snapshot.files@), self@),
    {
        build_file_view(
            &snapshot.files[self.active_file],
            self.active_file,
            self.mode,
            self.fold_mode,
            self.folds.as_slice(),
        )
    }

    pub fn selected(&self, row: usize) -> (r: bool)
        ensures
            r == row_selected(self@, row),
    {
        match self.selection_start {
            Some(start) => (start <= row && row <= self.cursor_row) || (self.cursor_row <= row
                && row <= start),
            None => false,
        }
    }

    pub fn clear_selection(&mut self)
        ensures
            final(self)@ == cleared_selection(old(self)@),
    {
        self.selection_start = None;
        self.notice = String::new();
        self.help = false;
        self.pending = None;
        assert(self@.notice =~= Seq::<char>::empty());
    }

    pub fn open_comments(&mut self, focus: Focus, layout: Layout)
        ensures
            final(self)@ == opened_comments(old(self)@, focus, layout),
    {
        if !self.comment_open {
            self.dock_origin = Some(ReadingPosition::capture(self, layout));
        }
        self.comment_open = true;
        self.comment_scroll = 0;
        self.focus = focus;
    }

    pub fn close_comments(&mut self, layout: Layout)
        ensures
            final(self)@ == closed_comments(old(self)@, layout),
    {
        if let Some(origin) = self.dock_origin {
            if origin.cursor.0 == self.cursor_row && origin.cursor.1 == self.cursor_line
                && origin.mode == self.mode && origin.fold_mode == self.fold_mode && origin.width
                == layout.main_width {
                self.scroll_row = origin.scroll.0;
                self.scroll_line = origin.scroll.1;
            }
        }
        self.dock_origin = None;
        self.comment_open = false;
        self.comment_scroll = 0;
        self.focus = Focus::Code;
    }

    pub fn set_fold(&mut self, id: FoldId, state: FoldState)
        ensures
            final(self)@ == (StateModel {
                folds: with_fold(old(self)@.folds, id, state),
                ..old(self)@
            }),
    {
        let ghost before = self.folds@;
        let mut i: usize = 0;
        assert(before.skip(0) =~= before);
        assert(before.take(0) + with_fold(before.skip(0), id, state) =~= with_fold(
            before,
            id,
            state,
        ));
        while i < self.folds.len()
            invariant
                *self == *old(self),
                before == self.folds@,
                i <= before.len(),
                before.take(i as int) + with_fold(before.skip(i as int), id, state) == with_fold(
                    before,
                    id,
                    state,
                ),
            decreases before.len() - i,
        {
            let ghost t = before.skip(i as int);
            assert(t.skip(1) =~= before.skip(i + 1));
            if self.folds[i].id == id {
                self.folds[i] = FoldEntry { id, state };
                assert(self.folds@ =~= before.take(i as int) + (seq![FoldEntry { id, state }]
                    + t.skip(1)));
                return;
            }
            assert(before.take(i + 1) + with_fold(t.skip(1), id, state) =~= before.take(i as int)
                + (seq![t[0]] + with_fold(t.skip(1), id, state)));
            i += 1;
        }
        self.folds.push(FoldEntry { id, state });
        assert(self.folds@ =~= before.take(i as int) + seq![FoldEntry { id, state }]);
    }
}

// ---------------------------------------------------------------------------
// What is shown
// ---------------------------------------------------------------------------

/// How the active file is laid out.
pub open spec fn setting_of(s: StateModel) -> Setting {
    Setting {
        file_index: s.active_file,
        hunk_index: 0,
        mode: s.mode,
        fold_mode: s.fold_mode,
        folds: s.folds,
    }
}

/// The rows of the active file.
pub open spec fn rows_of(files: Seq<FileModel>, s: StateModel) -> Seq<RowModel> {
    numbered_rows(plain_rows(files[s.active_file as int], setting_of(s)))
}

/// The changes of the active file.
pub open spec fn changes_of(files: Seq<FileModel>, s: StateModel) -> Seq<ChangeSpan> {
    change_spans(plain_rows(files[s.active_file as int], setting_of(s)))
}

/// The columns that line numbers take.
pub open spec fn digits_of(f: FileModel) -> nat {
    larger(decimal(max_lineno(all_lines(f))).len(), 4)
}

/// Whether a view is that of the active file.
pub open spec fn shows(v: FileView, files: Seq<FileModel>, s: StateModel) -> bool {
    is_view_of(v, files[s.active_file as int], s.active_file, s.mode, s.fold_mode, s.folds)
}

// ---------------------------------------------------------------------------
// Heights
// ---------------------------------------------------------------------------

/// The number by which a line is known to the reader.
pub open spec fn number_of(l: LineModel) -> Option<u32> {
    match l.kind {
        DiffLineKind::Delete => l.old_lineno,
        DiffLineKind::Add => l.new_lineno,
        DiffLineKind::Context => if l.new_lineno is Some {
            l.new_lineno
        } else {
            l.old_lineno
        },
        DiffLineKind::Meta => None,
    }
}

pub fn line_number(line: &DiffLine) -> (r: Option<u32>)
    ensures
        r == number_of(line@),
{
    match line.kind {
        DiffLineKind::Delete => line.old_lineno,
        DiffLineKind::Add => line.new_lineno,
        DiffLineKind::Context => match line.new_lineno {
            Some(n) => Some(n),
            None => line.old_lineno,
        },
        DiffLineKind::Meta => None,
    }
}

/// The columns of white space at the start of a text, tabs counted as four.
pub open spec fn indent_of(s: Seq<char>) -> nat
    decreases s.len(),
{
    if s.len() > 0 && s[0] == ' ' {
        1 + indent_of(s.skip(1))
    } else if s.len() > 0 && s[0] == '\t' {
        4 + indent_of(s.skip(1))
    } else {
        0
    }
}

/// At least zero.
pub open spec fn minus(a: nat, b: nat) -> nat {
    if a >= b {
        (a - b) as nat
    } else {
        0
    }
}

/// The columns before the text of a continuation row: one more than the
/// indentation, as far as there is room.
pub open spec fn continuation_indent(width: nat, prefix: nat, text: Seq<char>) -> nat {
    if width <= prefix + 1 {
        prefix
    } else if prefix + indent_of(text) + 1 <= width - 1 {
        prefix + indent_of(text) + 1
    } else {
        (width - 1) as nat
    }
}

/// The columns for the text of the first row, and of the others.
pub open spec fn text_columns(width: nat, prefix: nat, text: Seq<char>) -> (nat, nat) {
    (
        larger(minus(width, prefix), 1),
        larger(minus(width, continuation_indent(width, prefix, text)), 1),
    )
}

/// The rows that a line takes.
pub open spec fn line_rows(l: LineModel, width: nat, prefix: nat) -> nat {
    let (first, continuation) = text_columns(width, prefix, l.text);
    wrapped(cleaned(l.text, false), first, continuation).len()
}

/// The rows that an optional line takes; without one there is still a row.
pub open spec fn optional_rows(l: Option<LineModel>, width: nat, prefix: nat) -> nat {
    match l {
        Some(x) => line_rows(x, width, prefix),
        None => 1,
    }
}

/// The rows that a row of a view takes on the screen.
pub open spec fn row_rows(r: RowModel, digits: nat, main_width: nat) -> nat {
    let width = minus(main_width, CURSOR_GUTTER as nat);
    match r.kind {
        RowKind::StackedCode | RowKind::FileMeta => optional_rows(r.line, width, digits + 5),
        RowKind::SplitCode => if width < 32 {
            optional_rows(
                if r.right is Some {
                    r.right
                } else {
                    r.left
                },
                width,
                digits + 5,
            )
        } else {
            let left = (width - 3) as nat / 2;
            larger(
                optional_rows(r.left, left, digits + 4),
                optional_rows(r.right, (width - 3 - left) as nat, digits + 4),
            )
        },
        _ => 1,
    }
}

/// The heights of rows.
pub open spec fn heights_of(rows: Seq<RowModel>, digits: nat, main_width: nat) -> Seq<nat> {
    Seq::new(rows.len(), |k: int| row_rows(rows[k], digits, main_width))
}

/// The heights of the rows of the active file.
pub open spec fn heights(files: Seq<FileModel>, s: StateModel, l: Layout) -> Seq<nat> {
    heights_of(
        rows_of(files, s),
        digits_of(files[s.active_file as int]),
        l.main_width as nat,
    )
}

/// How the text of a line is wrapped: the columns of the first row and of the
/// others, and the columns before the latter.
pub fn wrap_widths(width: usize, prefix: usize, text: &str) -> (r: (usize, usize, usize))
    ensures
        (r.0 as nat, r.1 as nat) == text_columns(width as nat, prefix as nat, text@),
        r.2 == continuation_indent(width as nat, prefix as nat, text@),
{
    let first: usize = if width > prefix {
        width - prefix
    } else {
        1
    };
    if width <= prefix || width - prefix <= 1 {
        return (first, 1, prefix);
    }
    let chars = chars_of(text);
    // Indentation beyond the width makes no difference.
    let room: usize = width - 1 - prefix;
    let mut indent: usize = 0;
    let mut i: usize = 0;
    assert(chars@.skip(0) =~= chars@);
    while i < chars.len() && indent < room && (chars[i] == ' ' || chars[i] == '\t')
        invariant
            chars@ == text@,
            i <= chars@.len(),
            indent <= room,
            indent_of(text@) >= indent,
            indent < room ==> indent_of(text@) == indent + indent_of(chars@.skip(i as int)),
        decreases chars@.len() - i,
    {
        assert(chars@.skip(i as int).skip(1) =~= chars@.skip(i + 1));
        if chars[i] == ' ' {
            indent += 1;
        } else if room - indent < 4 {
            indent = room;
        } else {
            indent += 4;
        }
        i += 1;
    }
    let continuation: usize = if indent < room {
        prefix + indent + 1
    } else {
        width - 1
    };
    (first, width - continuation, continuation)
}

/// The rows that a line takes.
pub fn line_height(line: &DiffLine, width: usize, prefix: usize) -> (n: usize)
    ensures
        n == line_rows(line@, width as nat, prefix as nat),
        n >= 1,
{
    let (first, continuation, _) = wrap_widths(width, prefix, line.text.as_str());
    let plain = plain_text(line.text.as_str());
    let rows = wrap_ansi(plain.as_str(), first, continuation);
    assert(texts(rows@).len() == rows@.len());
    rows.len()
}

fn optional_height(line: Option<&DiffLine>, width: usize, prefix: usize) -> (n: usize)
    ensures
        n == optional_rows(opt_line(line), width as nat, prefix as nat),
        n >= 1,
{
    match line {
        Some(l) => line_height(l, width, prefix),
        None => 1,
    }
}

/// The rows that a row of a view takes on the screen.
pub fn row_height(view: &FileView<'_>, index: usize, layout: Layout) -> (n: usize)
    requires
        index < view.rows@.len(),
        view.line_number_width <= usize::MAX - 5,
    ensures
        n == row_rows(
            view.rows@[index as int]@,
            view.line_number_width as nat,
            layout.main_width as nat,
        ),
        n >= 1,
{
    let row = &view.rows[index];
    let digits: usize = view.line_number_width;
    let width: usize = if layout.main_width >= CURSOR_GUTTER {
        layout.main_width - CURSOR_GUTTER
    } else {
        0
    };
    match row.kind {
        RowKind::StackedCode | RowKind::FileMeta => optional_height(row.line, width, digits + 5),
        RowKind::SplitCode => {
            if width < 32 {
                let line = match row.right {
                    Some(l) => Some(l),
                    None => row.left,
                };
                optional_height(line, width, digits + 5)
            } else {
                let left: usize = (width - 3) / 2;
                let a: usize = optional_height(row.left, left, digits + 4);
                let b: usize = optional_height(row.right, width - 3 - left, digits + 4);
                if a >= b {
                    a
                } else {
                    b
                }
            }
        },
        _ => 1,
    }
}

} // verus!

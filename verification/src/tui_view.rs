//! Rows of a file's diff as they are shown: stacked or side by side, with
//! distant context folded away.
use vstd::prelude::*;
use vstd::slice::slice_subrange;
use crate::diff::{
    hunk_lines, line_models, DiffFile, DiffHunk, DiffLine, DiffLineKind, FileModel, HunkModel,
    LineModel,
};
use crate::inline_diff::{lemma_next_flag, next_flag};
use crate::util::{chars_of, decimal, decimal_text};

verus! {

#[derive(Clone, Copy, Debug, PartialEq, Eq, Structural)]
pub enum ViewMode {
    Stacked,
    Split,
}

impl ViewMode {
    pub open spec fn label_text(self) -> Seq<char> {
        match self {
            ViewMode::Stacked => "stacked"@,
            ViewMode::Split => "split"@,
        }
    }

    pub fn label(self) -> (r: &'static str)
        ensures
            r@ == self.label_text(),
    {
        match self {
            ViewMode::Stacked => "stacked",
            ViewMode::Split => "split",
        }
    }
}

#[derive(Clone, Copy, Debug, PartialEq, Eq, Structural)]
pub enum FoldMode {
    Unfold,
    Fold,
}

impl FoldMode {
    pub open spec fn label_text(self) -> Seq<char> {
        match self {
            FoldMode::Unfold => "unfold"@,
            FoldMode::Fold => "fold"@,
        }
    }

    pub fn label(self) -> (r: &'static str)
        ensures
            r@ == self.label_text(),
    {
        match self {
            FoldMode::Unfold => "unfold",
            FoldMode::Fold => "fold",
        }
    }
}

/// A fold, by its place: the file, the hunk, and its number in that hunk.
#[derive(Clone, Copy, Debug, PartialEq, Eq, Hash, Structural)]
pub struct FoldId {
    pub file_index: usize,
    pub hunk_index: usize,
    pub ordinal: usize,
}

#[derive(Clone, Copy, Debug, PartialEq, Eq, Structural)]
pub enum FoldState {
    Collapsed,
    Expanded,
}

#[derive(Clone, Copy, Debug, PartialEq, Eq, Structural)]
pub struct FoldEntry {
    pub id: FoldId,
    pub state: FoldState,
}

#[derive(Clone, Copy, Debug, PartialEq, Eq, Structural)]
pub enum RowKind {
    FileHeader,
    HunkHeader,
    Fold,
    StackedCode,
    SplitCode,
    FileMeta,
}

#[derive(Clone, Debug)]
pub struct VisualRow<'a> {
    pub kind: RowKind,
    pub hunk_index: Option<usize>,
    pub fold_id: Option<FoldId>,
    pub fold_line_count: usize,
    pub fold_expanded: bool,
    pub fold_lines: &'a [DiffLine],
    pub change_id: Option<usize>,
    pub line: Option<&'a DiffLine>,
    pub left: Option<&'a DiffLine>,
    pub right: Option<&'a DiffLine>,
    pub hunk_header: Option<&'a str>,
}

/// What a row shows.
pub ghost struct RowModel {
    pub kind: RowKind,
    pub hunk_index: Option<usize>,
    pub fold_id: Option<FoldId>,
    pub fold_line_count: usize,
    pub fold_expanded: bool,
    pub fold_lines: Seq<LineModel>,
    pub change_id: Option<usize>,
    pub line: Option<LineModel>,
    pub left: Option<LineModel>,
    pub right: Option<LineModel>,
    pub hunk_header: Option<Seq<char>>,
}

/// What an optional line says.
pub open spec fn opt_line(l: Option<&DiffLine>) -> Option<LineModel> {
    match l {
        Some(x) => Some(x@),
        None => None,
    }
}

/// The text of an optional string slice.
pub open spec fn opt_str(s: Option<&str>) -> Option<Seq<char>> {
    match s {
        Some(x) => Some(x@),
        None => None,
    }
}

impl<'a> View for VisualRow<'a> {
    type V = RowModel;

    open spec fn view(&self) -> RowModel {
        RowModel {
            kind: self.kind,
            hunk_index: self.hunk_index,
            fold_id: self.fold_id,
            fold_line_count: self.fold_line_count,
            fold_expanded: self.fold_expanded,
            fold_lines: line_models(self.fold_lines@),
            change_id: self.change_id,
            line: opt_line(self.line),
            left: opt_line(self.left),
            right: opt_line(self.right),
            hunk_header: opt_str(self.hunk_header),
        }
    }
}

/// A row of the given kind with nothing on it.
pub open spec fn blank_row(kind: RowKind) -> RowModel {
    RowModel {
        kind,
        hunk_index: None,
        fold_id: None,
        fold_line_count: 0,
        fold_expanded: false,
        fold_lines: seq![],
        change_id: None,
        line: None,
        left: None,
        right: None,
        hunk_header: None,
    }
}

pub open spec fn is_change_line(l: LineModel) -> bool {
    l.kind == DiffLineKind::Add || l.kind == DiffLineKind::Delete
}

/// Whether a row shows an added or deleted line.
pub open spec fn is_change_row(r: RowModel) -> bool {
    match r.line {
        Some(l) => is_change_line(l),
        None => (r.left matches Some(l) && l.kind == DiffLineKind::Delete) || (
        r.right matches Some(l) && l.kind == DiffLineKind::Add),
    }
}

/// The line that a comment on the row would be about.
pub open spec fn comment_line_of(r: RowModel) -> Option<LineModel> {
    if r.line is Some {
        r.line
    } else if r.right is Some {
        r.right
    } else {
        r.left
    }
}

impl<'a> VisualRow<'a> {
    fn new(kind: RowKind) -> (r: Self)
        ensures
            r@ == blank_row(kind),
    {
        let row = VisualRow {
            kind,
            hunk_index: None,
            fold_id: None,
            fold_line_count: 0,
            fold_expanded: false,
            fold_lines: &[],
            change_id: None,
            line: None,
            left: None,
            right: None,
            hunk_header: None,
        };
        assert(row@.fold_lines =~= blank_row(kind).fold_lines);
        row
    }

    /// The line that a comment on the row would be about.
    pub fn comment_line(&self) -> (r: Option<&'a DiffLine>)
        ensures
            opt_line(r) == comment_line_of(self@),
    {
        match self.line {
            Some(l) => Some(l),
            None => match self.right {
                Some(l) => Some(l),
                None => self.left,
            },
        }
    }

    fn is_change(&self) -> (r: bool)
        ensures
            r == is_change_row(self@),
    {
        match self.line {
            Some(l) => is_change(l),
            None => {
                let deleted: bool = match self.left {
                    Some(l) => l.kind == DiffLineKind::Delete,
                    None => false,
                };
                let added: bool = match self.right {
                    Some(l) => l.kind == DiffLineKind::Add,
                    None => false,
                };
                deleted || added
            },
        }
    }
}

fn is_change(line: &DiffLine) -> (r: bool)
    ensures
        r == is_change_line(line@),
{
    line.kind == DiffLineKind::Add || line.kind == DiffLineKind::Delete
}

// ---------------------------------------------------------------------------
// Context and folds
// ---------------------------------------------------------------------------

/// Context this close to a change is always shown.
pub const CONTEXT_RADIUS: usize = 3;

/// Shorter stretches of distant context are shown as they are.
pub const MIN_FOLD_LINES: usize = 4;

pub open spec fn any_change(lines: Seq<LineModel>) -> bool {
    exists|j: int| 0 <= j < lines.len() && is_change_line(#[trigger] lines[j])
}

/// Whether a changed line stands within the context radius.
pub open spec fn near_change(lines: Seq<LineModel>, i: int) -> bool {
    exists|j: int|
        0 <= j < lines.len() && is_change_line(#[trigger] lines[j]) && j - CONTEXT_RADIUS <= i <= j
            + CONTEXT_RADIUS
}

/// Whether a line is context that folding may hide.
pub open spec fn hidden(lines: Seq<LineModel>, mode: FoldMode, i: int) -> bool {
    &&& 0 <= i < lines.len()
    &&& lines[i].kind == DiffLineKind::Context
    &&& mode == FoldMode::Fold
    &&& any_change(lines)
    &&& !near_change(lines, i)
}

/// Where the hidden lines that start at `i` end.
pub open spec fn hidden_end(lines: Seq<LineModel>, mode: FoldMode, i: int) -> int
    decreases lines.len() - i,
{
    if hidden(lines, mode, i) {
        hidden_end(lines, mode, i + 1)
    } else {
        i
    }
}

/// Where the lines of one kind that start at `i` end.
pub open spec fn kind_end(lines: Seq<LineModel>, kind: DiffLineKind, i: int) -> int
    decreases lines.len() - i,
{
    if 0 <= i < lines.len() && lines[i].kind == kind {
        kind_end(lines, kind, i + 1)
    } else {
        i
    }
}

/// The state of a fold: the first entry for it decides, and without one it is
/// collapsed.
pub open spec fn state_of(folds: Seq<FoldEntry>, id: FoldId) -> FoldState
    decreases folds.len(),
{
    if folds.len() == 0 {
        FoldState::Collapsed
    } else if folds[0].id == id {
        folds[0].state
    } else {
        state_of(folds.skip(1), id)
    }
}

pub fn fold_state(folds: &[FoldEntry], id: FoldId) -> (r: FoldState)
    ensures
        r == state_of(folds@, id),
{
    let mut i: usize = 0;
    assert(folds@.skip(0) =~= folds@);
    while i < folds.len()
        invariant
            i <= folds@.len(),
            state_of(folds@, id) == state_of(folds@.skip(i as int), id),
        decreases folds@.len() - i,
    {
        if folds[i].id == id {
            return folds[i].state;
        }
        assert(folds@.skip(i as int).skip(1) =~= folds@.skip(i + 1));
        i += 1;
    }
    FoldState::Collapsed
}

// ---------------------------------------------------------------------------
// Rows
// ---------------------------------------------------------------------------

/// What the rows of a hunk are built from, apart from its lines.
pub ghost struct Setting {
    pub file_index: usize,
    pub hunk_index: usize,
    pub mode: ViewMode,
    pub fold_mode: FoldMode,
    pub folds: Seq<FoldEntry>,
}

/// The row of a context line.
pub open spec fn context_row_of(
    l: LineModel,
    hunk_index: usize,
    fold_id: Option<FoldId>,
    mode: ViewMode,
) -> RowModel {
    match mode {
        ViewMode::Stacked => RowModel {
            hunk_index: Some(hunk_index),
            fold_id,
            line: Some(l),
            ..blank_row(RowKind::StackedCode)
        },
        ViewMode::Split => RowModel {
            hunk_index: Some(hunk_index),
            fold_id,
            left: Some(l),
            right: Some(l),
            ..blank_row(RowKind::SplitCode)
        },
    }
}

/// The rows of context lines.
pub open spec fn context_rows(
    lines: Seq<LineModel>,
    hunk_index: usize,
    fold_id: Option<FoldId>,
    mode: ViewMode,
) -> Seq<RowModel> {
    lines.map_values(|l: LineModel| context_row_of(l, hunk_index, fold_id, mode))
}

/// The row that stands for hidden lines.
pub open spec fn fold_row(
    lines: Seq<LineModel>,
    hunk_index: usize,
    id: FoldId,
    expanded: bool,
) -> RowModel {
    RowModel {
        hunk_index: Some(hunk_index),
        fold_id: Some(id),
        fold_line_count: lines.len() as usize,
        fold_expanded: expanded,
        fold_lines: lines,
        ..blank_row(RowKind::Fold)
    }
}

/// The row of one line in the stacked layout, and of a meta line in either.
pub open spec fn single_row(l: LineModel, hunk_index: usize) -> RowModel {
    RowModel {
        hunk_index: Some(hunk_index),
        line: Some(l),
        ..blank_row(
            if l.kind == DiffLineKind::Meta {
                RowKind::FileMeta
            } else {
                RowKind::StackedCode
            },
        )
    }
}

/// The element with the given index, where there is one.
pub open spec fn pick(lines: Seq<LineModel>, k: int) -> Option<LineModel> {
    if 0 <= k < lines.len() {
        Some(lines[k])
    } else {
        None
    }
}

/// Deletions and additions side by side, in order; the shorter side is left
/// empty.
pub open spec fn pair_rows(
    deletes: Seq<LineModel>,
    adds: Seq<LineModel>,
    hunk_index: usize,
) -> Seq<RowModel> {
    Seq::new(
        if deletes.len() >= adds.len() {
            deletes.len()
        } else {
            adds.len()
        },
        |k: int|
            RowModel {
                hunk_index: Some(hunk_index),
                left: pick(deletes, k),
                right: pick(adds, k),
                ..blank_row(RowKind::SplitCode)
            },
    )
}

/// The rows that begin with the line `i`, the line after them, and the number
/// of the next fold.
pub open spec fn chunk(lines: Seq<LineModel>, c: Setting, i: int, ordinal: int) -> (
    Seq<RowModel>,
    int,
    int,
) {
    let h = c.hunk_index;
    if hidden(lines, c.fold_mode, i) {
        let end = hidden_end(lines, c.fold_mode, i);
        let part = lines.subrange(i, end);
        let id = FoldId { file_index: c.file_index, hunk_index: h, ordinal: ordinal as usize };
        let expanded = state_of(c.folds, id) == FoldState::Expanded;
        let rows = if part.len() < MIN_FOLD_LINES {
            context_rows(part, h, None, c.mode)
        } else if expanded {
            seq![fold_row(part, h, id, true)] + context_rows(part, h, Some(id), c.mode)
        } else {
            seq![fold_row(part, h, id, false)]
        };
        (rows, end, ordinal + 1)
    } else if c.mode == ViewMode::Stacked || lines[i].kind == DiffLineKind::Meta {
        (seq![single_row(lines[i], h)], i + 1, ordinal)
    } else if lines[i].kind == DiffLineKind::Context {
        (seq![context_row_of(lines[i], h, None, c.mode)], i + 1, ordinal)
    } else {
        let add_start = kind_end(lines, DiffLineKind::Delete, i);
        let end = kind_end(lines, DiffLineKind::Add, add_start);
        (
            pair_rows(lines.subrange(i, add_start), lines.subrange(add_start, end), h),
            end,
            ordinal,
        )
    }
}

/// The rows of a hunk from the line `i` on.
pub open spec fn hunk_rows(lines: Seq<LineModel>, c: Setting, i: int, ordinal: int) -> Seq<
    RowModel,
>
    decreases lines.len() - i,
{
    let (rows, next, next_ordinal) = chunk(lines, c, i, ordinal);
    if i < 0 || i >= lines.len() || next <= i || next > lines.len() {
        seq![]
    } else {
        rows + hunk_rows(lines, c, next, next_ordinal)
    }
}

/// The rows of one hunk.  Its header is shown only where it has no lines.
pub open spec fn rows_of_hunk(hunk: HunkModel, c: Setting) -> Seq<RowModel> {
    if hunk.lines.len() == 0 {
        seq![
            RowModel {
                hunk_index: Some(c.hunk_index),
                hunk_header: Some(hunk.header),
                ..blank_row(RowKind::HunkHeader)
            },
        ]
    } else {
        hunk_rows(hunk.lines, c, 0, 0)
    }
}

/// The rows of the hunks before the one with index `n`.
pub open spec fn rows_of_hunks(hunks: Seq<HunkModel>, c: Setting, n: int) -> Seq<RowModel>
    decreases n,
{
    if n <= 0 {
        seq![]
    } else {
        rows_of_hunks(hunks, c, n - 1) + rows_of_hunk(
            hunks[n - 1],
            Setting { hunk_index: (n - 1) as usize, ..c },
        )
    }
}

/// The rows that stand before those of the hunks.
pub open spec fn head_rows(f: FileModel) -> Seq<RowModel> {
    if f.is_binary || f.hunks.len() == 0 {
        seq![blank_row(RowKind::FileHeader), blank_row(RowKind::FileMeta)]
    } else {
        seq![blank_row(RowKind::FileHeader)]
    }
}

/// The rows of a file, before changes are numbered.
pub open spec fn plain_rows(f: FileModel, c: Setting) -> Seq<RowModel> {
    head_rows(f) + rows_of_hunks(f.hunks, c, f.hunks.len() as int)
}

// ---------------------------------------------------------------------------
// Changes
// ---------------------------------------------------------------------------

/// Consecutive rows that show changes.
#[derive(Clone, Copy, Debug, PartialEq, Eq, Structural)]
pub struct ChangeSpan {
    pub id: usize,
    pub start_row: usize,
    pub end_row: usize,
}

pub open spec fn change_flags(rows: Seq<RowModel>) -> Seq<bool> {
    rows.map_values(|r: RowModel| is_change_row(r))
}

/// The runs of changed rows from the row `i` on, numbered from `n` on.
pub open spec fn spans_from(flags: Seq<bool>, i: int, n: int) -> Seq<ChangeSpan>
    decreases flags.len() - i,
{
    let start = next_flag(flags, i, true);
    let end = next_flag(flags, start, false);
    if i < 0 || start < i || start >= flags.len() || end <= start || end > flags.len() {
        seq![]
    } else {
        seq![
            ChangeSpan {
                id: n as usize,
                start_row: start as usize,
                end_row: (end - 1) as usize,
            },
        ] + spans_from(flags, end, n + 1)
    }
}

/// The runs of changed rows.
pub open spec fn change_spans(rows: Seq<RowModel>) -> Seq<ChangeSpan> {
    spans_from(change_flags(rows), 0, 0)
}

/// The number of the span that holds the row `k`.
pub open spec fn span_of(spans: Seq<ChangeSpan>, k: int) -> Option<usize>
    decreases spans.len(),
{
    if spans.len() == 0 {
        None
    } else if spans[0].start_row <= k <= spans[0].end_row {
        Some(spans[0].id)
    } else {
        span_of(spans.skip(1), k)
    }
}

/// The rows of a file, each changed row with the number of its change.
pub open spec fn numbered_rows(rows: Seq<RowModel>) -> Seq<RowModel> {
    Seq::new(
        rows.len(),
        |k: int| RowModel { change_id: span_of(change_spans(rows), k), ..rows[k] },
    )
}

/// The lines of a kind in the hunks before the one with index `n`.
pub open spec fn count_kind(lines: Seq<LineModel>, kind: DiffLineKind) -> nat
    decreases lines.len(),
{
    if lines.len() == 0 {
        0
    } else {
        count_kind(lines.drop_last(), kind) + if lines.last().kind == kind {
            1nat
        } else {
            0
        }
    }
}

/// All lines of the hunks before the one with index `n`.
pub open spec fn lines_before(hunks: Seq<HunkModel>, n: int) -> Seq<LineModel>
    decreases n,
{
    if n <= 0 {
        seq![]
    } else {
        lines_before(hunks, n - 1) + hunks[n - 1].lines
    }
}

/// All lines of a file.
pub open spec fn all_lines(f: FileModel) -> Seq<LineModel> {
    lines_before(f.hunks, f.hunks.len() as int)
}

pub open spec fn number_or_zero(n: Option<u32>) -> nat {
    match n {
        Some(v) => v as nat,
        None => 0,
    }
}

pub open spec fn larger(a: nat, b: nat) -> nat {
    if a >= b {
        a
    } else {
        b
    }
}

/// The largest line number on either side.
pub open spec fn max_lineno(lines: Seq<LineModel>) -> nat
    decreases lines.len(),
{
    if lines.len() == 0 {
        0
    } else {
        larger(
            max_lineno(lines.drop_last()),
            larger(number_or_zero(lines.last().old_lineno), number_or_zero(lines.last().new_lineno)),
        )
    }
}

#[derive(Clone, Debug)]
pub struct FileView<'a> {
    pub rows: Vec<VisualRow<'a>>,
    pub changes: Vec<ChangeSpan>,
    pub additions: usize,
    pub deletions: usize,
    pub line_number_width: usize,
}

/// The rows of a view, as they show.
pub open spec fn row_models(rows: Seq<VisualRow>) -> Seq<RowModel> {
    rows.map_values(|r: VisualRow| r@)
}

/// What a view is of a file.
pub open spec fn is_view_of(
    v: FileView,
    f: FileModel,
    file_index: usize,
    mode: ViewMode,
    fold_mode: FoldMode,
    folds: Seq<FoldEntry>,
) -> bool {
    let rows = plain_rows(f, Setting { file_index, hunk_index: 0, mode, fold_mode, folds });
    &&& row_models(v.rows@) == numbered_rows(rows)
    &&& v.changes@ == change_spans(rows)
    &&& v.additions == count_kind(all_lines(f), DiffLineKind::Add)
    &&& v.deletions == count_kind(all_lines(f), DiffLineKind::Delete)
    &&& v.line_number_width == larger(decimal(max_lineno(all_lines(f))).len(), 4)
}

// ---------------------------------------------------------------------------
// Building the rows
// ---------------------------------------------------------------------------

pub proof fn lemma_hidden_end(lines: Seq<LineModel>, mode: FoldMode, i: int)
    requires
        0 <= i <= lines.len(),
    ensures
        i <= hidden_end(lines, mode, i) <= lines.len(),
        forall|k: int| i <= k < hidden_end(lines, mode, i) ==> hidden(lines, mode, k),
    decreases lines.len() - i,
{
    if hidden(lines, mode, i) {
        lemma_hidden_end(lines, mode, i + 1);
    }
}

pub proof fn lemma_kind_end(lines: Seq<LineModel>, kind: DiffLineKind, i: int)
    requires
        0 <= i <= lines.len(),
    ensures
        i <= kind_end(lines, kind, i) <= lines.len(),
        forall|k: int| i <= k < kind_end(lines, kind, i) ==> lines[k].kind == kind,
    decreases lines.len() - i,
{
    if i < lines.len() && lines[i].kind == kind {
        lemma_kind_end(lines, kind, i + 1);
    }
}

/// Which lines of a hunk are shown; `None` where all are.
fn context_visibility(hunk: &DiffHunk, mode: FoldMode) -> (r: Option<Vec<bool>>)
    ensures
        match r {
            None => forall|i: int| !#[trigger] hidden(hunk@.lines, mode, i),
            Some(v) => v@.len() == hunk@.lines.len() && forall|i: int|
                0 <= i < v@.len() && hunk@.lines[i].kind == DiffLineKind::Context ==> (
                #[trigger] v@[i]) == !hidden(hunk@.lines, mode, i),
        },
{
    let ghost lines = hunk@.lines;
    if mode == FoldMode::Unfold {
        return None;
    }
    let len: usize = hunk.lines.len();
    let mut changed: bool = false;
    let mut context: bool = false;
    let mut i: usize = 0;
    while i < len
        invariant
            lines == hunk@.lines,
            len == hunk.lines@.len(),
            i <= len,
            changed == exists|j: int| 0 <= j < i && is_change_line(#[trigger] lines[j]),
            context == exists|j: int|
                0 <= j < i && (#[trigger] lines[j]).kind == DiffLineKind::Context,
        decreases len - i,
    {
        assert(lines[i as int] == hunk.lines@[i as int]@);
        if is_change(&hunk.lines[i]) {
            changed = true;
        }
        if hunk.lines[i].kind == DiffLineKind::Context {
            context = true;
        }
        i += 1;
    }
    if !changed || !context {
        return None;
    }
    let mut visible: Vec<bool> = vec![false; len];
    let mut i: usize = 0;
    while i < len
        invariant
            lines == hunk@.lines,
            len == hunk.lines@.len(),
            i <= len,
            visible@.len() == len,
            forall|k: int|
                0 <= k < len ==> (#[trigger] visible@[k]) == (lines[k].kind
                    == DiffLineKind::Context && exists|j: int|
                    0 <= j < i && is_change_line(#[trigger] lines[j]) && j - CONTEXT_RADIUS <= k
                        <= j + CONTEXT_RADIUS),
        decreases len - i,
    {
        assert(lines[i as int] == hunk.lines@[i as int]@);
        if is_change(&hunk.lines[i]) {
            let start: usize = if i >= CONTEXT_RADIUS {
                i - CONTEXT_RADIUS
            } else {
                0
            };
            let end: usize = if len - i > CONTEXT_RADIUS {
                i + CONTEXT_RADIUS + 1
            } else {
                len
            };
            let ghost before = visible@;
            let mut k: usize = start;
            while k < end
                invariant
                    lines == hunk@.lines,
                    len == hunk.lines@.len(),
                    start <= k <= end <= len,
                    visible@.len() == len == before.len(),
                    forall|m: int|
                        0 <= m < len ==> (#[trigger] visible@[m]) == (before[m] || (start <= m < k
                            && lines[m].kind == DiffLineKind::Context)),
                decreases end - k,
            {
                assert(lines[k as int] == hunk.lines@[k as int]@);
                if hunk.lines[k].kind == DiffLineKind::Context {
                    visible[k] = true;
                }
                k += 1;
            }
            assert forall|k: int| 0 <= k < len implies (#[trigger] visible@[k]) == (lines[k].kind
                == DiffLineKind::Context && exists|j: int|
                0 <= j < i + 1 && is_change_line(#[trigger] lines[j]) && j - CONTEXT_RADIUS <= k
                    <= j + CONTEXT_RADIUS) by {
                if lines[k].kind == DiffLineKind::Context && start <= k < end {
                    assert(is_change_line(lines[i as int]));
                }
            }
        }
        i += 1;
    }
    Some(visible)
}

/// Whether the line `i` is hidden.
fn is_hidden(
    Ghost(mode): Ghost<FoldMode>,
    hunk: &DiffHunk,
    visibility: &Option<Vec<bool>>,
    i: usize,
) -> (r: bool)
    requires
        i < hunk@.lines.len(),
        match *visibility {
            None => forall|i: int| !#[trigger] hidden(hunk@.lines, mode, i),
            Some(v) => v@.len() == hunk@.lines.len() && forall|i: int|
                0 <= i < v@.len() && hunk@.lines[i].kind == DiffLineKind::Context ==> (
                #[trigger] v@[i]) == !hidden(hunk@.lines, mode, i),
        },
    ensures
        r == hidden(hunk@.lines, mode, i as int),
{
    assert(hunk@.lines[i as int] == hunk.lines@[i as int]@);
    match visibility {
        None => {
            assert(!hidden(hunk@.lines, mode, i as int));
            false
        },
        Some(v) => {
            assert(hunk@.lines[i as int].kind == DiffLineKind::Context ==> v@[i as int] == !hidden(
                hunk@.lines,
                mode,
                i as int,
            ));
            hunk.lines[i].kind == DiffLineKind::Context && !v[i]
        },
    }
}

fn context_row<'a>(
    line: &'a DiffLine,
    hunk_index: usize,
    fold_id: Option<FoldId>,
    mode: ViewMode,
) -> (r: VisualRow<'a>)
    ensures
        r@ == context_row_of(line@, hunk_index, fold_id, mode),
{
    match mode {
        ViewMode::Stacked => {
            let mut row = VisualRow::new(RowKind::StackedCode);
            row.hunk_index = Some(hunk_index);
            row.fold_id = fold_id;
            row.line = Some(line);
            row
        },
        ViewMode::Split => {
            let mut row = VisualRow::new(RowKind::SplitCode);
            row.hunk_index = Some(hunk_index);
            row.fold_id = fold_id;
            row.left = Some(line);
            row.right = Some(line);
            row
        },
    }
}

fn push_row<'a>(rows: &mut Vec<VisualRow<'a>>, row: VisualRow<'a>)
    ensures
        row_models(final(rows)@) == row_models(old(rows)@).push(row@),
{
    rows.push(row);
    assert(row_models(rows@) =~= row_models(old(rows)@).push(row@));
}

fn push_context_rows<'a>(
    rows: &mut Vec<VisualRow<'a>>,
    lines: &'a [DiffLine],
    hunk_index: usize,
    fold_id: Option<FoldId>,
    mode: ViewMode,
)
    ensures
        row_models(final(rows)@) == row_models(old(rows)@) + context_rows(
            line_models(lines@),
            hunk_index,
            fold_id,
            mode,
        ),
{
    let ghost before = row_models(rows@);
    let ghost all = context_rows(line_models(lines@), hunk_index, fold_id, mode);
    let mut i: usize = 0;
    while i < lines.len()
        invariant
            i <= lines@.len(),
            all == context_rows(line_models(lines@), hunk_index, fold_id, mode),
            row_models(rows@) == before + all.take(i as int),
        decreases lines@.len() - i,
    {
        push_row(rows, context_row(&lines[i], hunk_index, fold_id, mode));
        i += 1;
        assert(row_models(rows@) =~= before + all.take(i as int));
    }
    assert(all.take(i as int) =~= all);
}

fn end_of_kind(lines: &Vec<DiffLine>, kind: DiffLineKind, from: usize) -> (end: usize)
    requires
        from <= lines@.len(),
    ensures
        end == kind_end(line_models(lines@), kind, from as int),
        from <= end <= lines@.len(),
{
    let ghost m = line_models(lines@);
    let mut i: usize = from;
    while i < lines.len() && lines[i].kind == kind
        invariant
            m == line_models(lines@),
            from <= i <= lines@.len(),
            kind_end(m, kind, i as int) == kind_end(m, kind, from as int),
        decreases lines@.len() - i,
    {
        assert(m[i as int] == lines@[i as int]@);
        i += 1;
    }
    if i < lines.len() {
        assert(m[i as int] == lines@[i as int]@);
    }
    i
}

fn push_pairs<'a>(
    rows: &mut Vec<VisualRow<'a>>,
    deletes: &'a [DiffLine],
    adds: &'a [DiffLine],
    hunk_index: usize,
)
    ensures
        row_models(final(rows)@) == row_models(old(rows)@) + pair_rows(
            line_models(deletes@),
            line_models(adds@),
            hunk_index,
        ),
{
    let ghost before = row_models(rows@);
    let ghost all = pair_rows(line_models(deletes@), line_models(adds@), hunk_index);
    let count: usize = if deletes.len() >= adds.len() {
        deletes.len()
    } else {
        adds.len()
    };
    let mut k: usize = 0;
    while k < count
        invariant
            k <= count,
            count == all.len(),
            all == pair_rows(line_models(deletes@), line_models(adds@), hunk_index),
            row_models(rows@) == before + all.take(k as int),
        decreases count - k,
    {
        let mut row = VisualRow::new(RowKind::SplitCode);
        row.hunk_index = Some(hunk_index);
        if k < deletes.len() {
            row.left = Some(&deletes[k]);
        }
        if k < adds.len() {
            row.right = Some(&adds[k]);
        }
        assert(row@ == all[k as int]);
        push_row(rows, row);
        k += 1;
        assert(row_models(rows@) =~= before + all.take(k as int));
    }
    assert(all.take(k as int) =~= all);
}

/// Add the rows that begin with the line `i`.
fn push_chunk<'a>(
    rows: &mut Vec<VisualRow<'a>>,
    hunk: &'a DiffHunk,
    visibility: &Option<Vec<bool>>,
    file_index: usize,
    hunk_index: usize,
    mode: ViewMode,
    Ghost(fold_mode): Ghost<FoldMode>,
    folds: &[FoldEntry],
    i: usize,
    ordinal: usize,
) -> (r: (usize, usize))
    requires
        i < hunk@.lines.len(),
        ordinal <= i,
        match *visibility {
            None => forall|i: int| !#[trigger] hidden(hunk@.lines, fold_mode, i),
            Some(v) => v@.len() == hunk@.lines.len() && forall|i: int|
                0 <= i < v@.len() && hunk@.lines[i].kind == DiffLineKind::Context ==> (
                #[trigger] v@[i]) == !hidden(hunk@.lines, fold_mode, i),
        },
    ensures
        ({
            let c = Setting { file_index, hunk_index, mode, fold_mode, folds: folds@ };
            let (part, next, next_ordinal) = chunk(hunk@.lines, c, i as int, ordinal as int);
            &&& row_models(final(rows)@) == row_models(old(rows)@) + part
            &&& r.0 == next
            &&& r.1 == next_ordinal
            &&& i < r.0 <= hunk@.lines.len()
            &&& r.1 <= r.0
        }),
{
    let ghost c = Setting { file_index, hunk_index, mode, fold_mode, folds: folds@ };
    let ghost lines = hunk@.lines;
    let ghost before = row_models(rows@);
    let len: usize = hunk.lines.len();
    assert(lines[i as int] == hunk.lines@[i as int]@);
    proof {
        lemma_hidden_end(lines, fold_mode, i as int);
    }
    if is_hidden(Ghost(fold_mode), hunk, visibility, i) {
        let mut end: usize = i;
        while end < hunk.lines.len() && is_hidden(Ghost(fold_mode), hunk, visibility, end)
            invariant
                lines == hunk@.lines,
                match *visibility {
                    None => forall|i: int| !#[trigger] hidden(hunk@.lines, fold_mode, i),
                    Some(v) => v@.len() == hunk@.lines.len() && forall|i: int|
                        0 <= i < v@.len() && hunk@.lines[i].kind == DiffLineKind::Context ==> (
                        #[trigger] v@[i]) == !hidden(hunk@.lines, fold_mode, i),
                },
                i <= end <= hunk.lines@.len(),
                hidden_end(lines, fold_mode, end as int) == hidden_end(
                    lines,
                    fold_mode,
                    i as int,
                ),
            decreases hunk.lines@.len() - end,
        {
            end += 1;
        }
        assert(!hidden(lines, fold_mode, end as int));
        assert(hidden_end(lines, fold_mode, end as int) == end);
        let id = FoldId { file_index, hunk_index, ordinal };
        let part = slice_subrange(hunk.lines.as_slice(), i, end);
        assert(line_models(part@) =~= lines.subrange(i as int, end as int));
        if end - i < MIN_FOLD_LINES {
            push_context_rows(rows, part, hunk_index, None, mode);
        } else {
            let expanded: bool = fold_state(folds, id) == FoldState::Expanded;
            let mut row = VisualRow::new(RowKind::Fold);
            row.hunk_index = Some(hunk_index);
            row.fold_id = Some(id);
            row.fold_line_count = end - i;
            row.fold_expanded = expanded;
            row.fold_lines = part;
            assert(row@ == fold_row(lines.subrange(i as int, end as int), hunk_index, id, expanded));
            let ghost head = row@;
            push_row(rows, row);
            if expanded {
                push_context_rows(rows, part, hunk_index, Some(id), mode);
                let ghost tail = context_rows(
                    lines.subrange(i as int, end as int),
                    hunk_index,
                    Some(id),
                    mode,
                );
                assert(before.push(head) + tail =~= before + (seq![head] + tail));
            } else {
                assert(before.push(head) =~= before + seq![head]);
            }
        }
        (end, ordinal + 1)
    } else if mode == ViewMode::Stacked || hunk.lines[i].kind == DiffLineKind::Meta {
        let mut row = VisualRow::new(
            if hunk.lines[i].kind == DiffLineKind::Meta {
                RowKind::FileMeta
            } else {
                RowKind::StackedCode
            },
        );
        row.hunk_index = Some(hunk_index);
        row.line = Some(&hunk.lines[i]);
        let ghost head = row@;
        push_row(rows, row);
        assert(before.push(head) =~= before + seq![head]);
        (i + 1, ordinal)
    } else if hunk.lines[i].kind == DiffLineKind::Context {
        let row = context_row(&hunk.lines[i], hunk_index, None, mode);
        let ghost head = row@;
        push_row(rows, row);
        assert(before.push(head) =~= before + seq![head]);
        (i + 1, ordinal)
    } else {
        let add_start: usize = end_of_kind(&hunk.lines, DiffLineKind::Delete, i);
        let end: usize = end_of_kind(&hunk.lines, DiffLineKind::Add, add_start);
        let deletes = slice_subrange(hunk.lines.as_slice(), i, add_start);
        let adds = slice_subrange(hunk.lines.as_slice(), add_start, end);
        assert(line_models(deletes@) =~= lines.subrange(i as int, add_start as int));
        assert(line_models(adds@) =~= lines.subrange(add_start as int, end as int));
        push_pairs(rows, deletes, adds, hunk_index);
        proof {
            if lines[i as int].kind == DiffLineKind::Delete {
                lemma_kind_end(lines, DiffLineKind::Delete, i + 1);
            } else {
                lemma_kind_end(lines, DiffLineKind::Add, i + 1);
            }
        }
        (end, ordinal)
    }
}

/// Add the rows of one hunk.
fn push_hunk<'a>(
    rows: &mut Vec<VisualRow<'a>>,
    hunk: &'a DiffHunk,
    file_index: usize,
    hunk_index: usize,
    mode: ViewMode,
    fold_mode: FoldMode,
    folds: &[FoldEntry],
)
    ensures
        row_models(final(rows)@) == row_models(old(rows)@) + rows_of_hunk(
            hunk@,
            Setting { file_index, hunk_index, mode, fold_mode, folds: folds@ },
        ),
{
    let ghost c = Setting { file_index, hunk_index, mode, fold_mode, folds: folds@ };
    let ghost lines = hunk@.lines;
    let ghost before = row_models(rows@);
    if hunk.lines.len() == 0 {
        let mut row = VisualRow::new(RowKind::HunkHeader);
        row.hunk_index = Some(hunk_index);
        row.hunk_header = Some(hunk.header.as_str());
        let ghost head = row@;
        push_row(rows, row);
        assert(before.push(head) =~= before + rows_of_hunk(hunk@, c));
        return;
    }
    let visibility = context_visibility(hunk, fold_mode);
    let mut i: usize = 0;
    let mut ordinal: usize = 0;
    let ghost mut done: Seq<RowModel> = seq![];
    assert(done + hunk_rows(lines, c, 0, 0) =~= hunk_rows(lines, c, 0, 0));
    assert(before + done =~= before);
    while i < hunk.lines.len()
        invariant
            c == (Setting { file_index, hunk_index, mode, fold_mode, folds: folds@ }),
            lines == hunk@.lines,
            match visibility {
                None => forall|i: int| !#[trigger] hidden(hunk@.lines, fold_mode, i),
                Some(v) => v@.len() == hunk@.lines.len() && forall|i: int|
                    0 <= i < v@.len() && hunk@.lines[i].kind == DiffLineKind::Context ==> (
                    #[trigger] v@[i]) == !hidden(hunk@.lines, fold_mode, i),
            },
            i <= hunk.lines@.len(),
            ordinal <= i,
            row_models(rows@) == before + done,
            done + hunk_rows(lines, c, i as int, ordinal as int) == hunk_rows(lines, c, 0, 0),
        decreases hunk.lines@.len() - i,
    {
        let (next, next_ordinal) = push_chunk(
            rows,
            hunk,
            &visibility,
            file_index,
            hunk_index,
            mode,
            Ghost(fold_mode),
            folds,
            i,
            ordinal,
        );
        proof {
            let part = chunk(lines, c, i as int, ordinal as int).0;
            let rest = hunk_rows(lines, c, next as int, next_ordinal as int);
            assert(hunk_rows(lines, c, i as int, ordinal as int) == part + rest);
            assert((done + part) + rest =~= done + (part + rest));
            assert(before + done + part =~= before + (done + part));
            done = done + part;
        }
        i = next;
        ordinal = next_ordinal;
    }
    assert(done + hunk_rows(lines, c, i as int, ordinal as int) =~= done);
}

// ---------------------------------------------------------------------------
// Numbering the changes
// ---------------------------------------------------------------------------

/// What holds of the runs of true flags from `i` on, numbered from `n` on:
/// each lies in order after the one before it, all its flags are true, and
/// the flags next to it are not.
pub open spec fn spans_fit(flags: Seq<bool>, i: int, n: int, spans: Seq<ChangeSpan>) -> bool {
    &&& forall|m: int|
        0 <= m < spans.len() ==> {
            let span = #[trigger] spans[m];
            &&& i <= span.start_row <= span.end_row < flags.len()
            &&& span.id == n + m
            &&& forall|k: int| span.start_row <= k <= span.end_row ==> flags[k]
            &&& span.end_row + 1 < flags.len() ==> !flags[span.end_row + 1]
            &&& i < span.start_row ==> !flags[span.start_row - 1]
        }
    &&& forall|l: int, m: int|
        0 <= l < m < spans.len() ==> (#[trigger] spans[l]).end_row < (#[trigger] spans[m]).start_row
}

proof fn lemma_spans_fit(flags: Seq<bool>, i: int, n: int)
    requires
        0 <= i <= flags.len() <= usize::MAX,
        0 <= n <= i,
    ensures
        spans_fit(flags, i, n, spans_from(flags, i, n)),
    decreases flags.len() - i,
{
    lemma_next_flag(flags, i, true);
    let start = next_flag(flags, i, true);
    lemma_next_flag(flags, start, false);
    let end = next_flag(flags, start, false);
    if start < flags.len() && end > start {
        lemma_spans_fit(flags, end, n + 1);
        let rest = spans_from(flags, end, n + 1);
        let all = spans_from(flags, i, n);
        let first = all[0];
        assert(all.skip(1) =~= rest);
        assert forall|m: int| 0 <= m < all.len() implies {
            let span = #[trigger] all[m];
            &&& i <= span.start_row <= span.end_row < flags.len()
            &&& span.id == n + m
            &&& forall|k: int| span.start_row <= k <= span.end_row ==> flags[k]
            &&& span.end_row + 1 < flags.len() ==> !flags[span.end_row + 1]
            &&& i < span.start_row ==> !flags[span.start_row - 1]
        } by {
            if m > 0 {
                assert(all[m] == rest[m - 1]);
                let span = rest[m - 1];
                if span.start_row == end {
                    assert(flags[end]);
                }
            }
        }
        assert forall|l: int, m: int| 0 <= l < m < all.len() implies (#[trigger] all[l]).end_row < (
        #[trigger] all[m]).start_row by {
            assert(all[m] == rest[m - 1]);
            if l > 0 {
                assert(all[l] == rest[l - 1]);
            }
        }
    }
}

proof fn lemma_spans_complete(flags: Seq<bool>, i: int, n: int, k: int)
    requires
        0 <= i <= k < flags.len() <= usize::MAX,
        0 <= n <= i,
    ensures
        flags[k] <==> span_of(spans_from(flags, i, n), k) is Some,
    decreases flags.len() - i,
{
    lemma_next_flag(flags, i, true);
    let start = next_flag(flags, i, true);
    lemma_next_flag(flags, start, false);
    let end = next_flag(flags, start, false);
    if start < flags.len() && end > start {
        let all = spans_from(flags, i, n);
        assert(all.skip(1) =~= spans_from(flags, end, n + 1));
        if k >= end {
            lemma_spans_complete(flags, end, n + 1, k);
        } else if k < start {
            lemma_span_before(spans_from(flags, end, n + 1), k);
            lemma_spans_fit(flags, end, n + 1);
        }
    }
}

/// A row before all spans is in none.
proof fn lemma_span_before(spans: Seq<ChangeSpan>, k: int)
    ensures
        (forall|m: int| 0 <= m < spans.len() ==> k < (#[trigger] spans[m]).start_row) ==> span_of(
            spans,
            k,
        ) is None,
    decreases spans.len(),
{
    if spans.len() > 0 {
        lemma_span_before(spans.skip(1), k);
        if forall|m: int| 0 <= m < spans.len() ==> k < (#[trigger] spans[m]).start_row {
            let rest = spans.skip(1);
            assert forall|m: int| 0 <= m < rest.len() implies k < (#[trigger] rest[m]).start_row by {
                assert(rest[m] == spans[m + 1]);
            }
            assert(k < spans[0].start_row);
        }
    }
}

/// Spans that end before the row do not matter for it.
proof fn lemma_span_after(a: Seq<ChangeSpan>, b: Seq<ChangeSpan>, k: int)
    requires
        forall|m: int| 0 <= m < a.len() ==> (#[trigger] a[m]).end_row < k,
    ensures
        span_of(a + b, k) == span_of(b, k),
    decreases a.len(),
{
    if a.len() > 0 {
        let rest = a.skip(1);
        assert forall|m: int| 0 <= m < rest.len() implies (#[trigger] rest[m]).end_row < k by {
            assert(rest[m] == a[m + 1]);
        }
        assert(a[0].end_row < k);
        assert((a + b).skip(1) =~= rest + b);
        lemma_span_after(rest, b, k);
    } else {
        assert(a + b =~= b);
    }
}

/// The changes of a view are the maximal runs of rows that show added or
/// deleted lines, in order and numbered from zero, and a row has the number
/// of its run.
pub proof fn law_changes_are_runs(rows: Seq<RowModel>)
    requires
        rows.len() <= usize::MAX,
    ensures
        spans_fit(change_flags(rows), 0, 0, change_spans(rows)),
        forall|k: int|
            0 <= k < rows.len() ==> (is_change_row(rows[k]) <==> (
            #[trigger] numbered_rows(rows)[k]).change_id is Some),
{
    let flags = change_flags(rows);
    lemma_spans_fit(flags, 0, 0);
    assert forall|k: int| 0 <= k < rows.len() implies (is_change_row(rows[k]) <==> (
    #[trigger] numbered_rows(rows)[k]).change_id is Some) by {
        lemma_spans_complete(flags, 0, 0, k);
        assert(flags[k] == is_change_row(rows[k]));
    }
}

fn assign_changes(view: &mut FileView<'_>)
    requires
        old(view).changes@.len() == 0,
        forall|k: int| 0 <= k < old(view).rows@.len() ==> (
        #[trigger] old(view).rows@[k]).change_id is None,
    ensures
        row_models(final(view).rows@) == numbered_rows(row_models(old(view).rows@)),
        final(view).changes@ == change_spans(row_models(old(view).rows@)),
        final(view).additions == old(view).additions,
        final(view).deletions == old(view).deletions,
        final(view).line_number_width == old(view).line_number_width,
{
    let ghost rows0 = row_models(view.rows@);
    let ghost flags = change_flags(rows0);
    let ghost all = change_spans(rows0);
    let len: usize = view.rows.len();
    let mut start: Option<usize> = None;
    let mut i: usize = 0;
    proof {
        lemma_spans_fit(flags, 0, 0);
        assert(view.changes@ + spans_from(flags, 0, 0) =~= all);
    }
    while i < len
        invariant
            rows0 == row_models(old(view).rows@),
            flags == change_flags(rows0),
            all == change_spans(rows0),
            spans_fit(flags, 0, 0, all),
            len == rows0.len() == view.rows@.len() <= usize::MAX,
            view.additions == old(view).additions,
            view.deletions == old(view).deletions,
            view.line_number_width == old(view).line_number_width,
            i <= len,
            view.changes@.len() <= i,
            match start {
                None => all == view.changes@ + spans_from(
                    flags,
                    i as int,
                    view.changes@.len() as int,
                ),
                Some(s) => s < i && view.changes@.len() <= s && all == view.changes@ + spans_from(
                    flags,
                    s as int,
                    view.changes@.len() as int,
                ) && forall|k: int| s <= k < i ==> flags[k],
            },
            forall|m: int| 0 <= m < view.changes@.len() ==> (#[trigger] view.changes@[m]).end_row < i
                && (start matches Some(s) ==> view.changes@[m].end_row < s),
            forall|k: int|
                0 <= k < i ==> (#[trigger] view.rows@[k])@ == numbered_rows(rows0)[k],
            forall|k: int| i <= k < len ==> (#[trigger] view.rows@[k])@ == rows0[k],
            forall|k: int| 0 <= k < len ==> (#[trigger] rows0[k]).change_id is None,
        decreases len - i,
    {
        let ghost done = view.changes@;
        let ghost n = done.len() as int;
        assert(view.rows@[i as int]@ == rows0[i as int]);
        assert(flags[i as int] == is_change_row(rows0[i as int]));
        if view.rows[i].is_change() {
            let s: usize = match start {
                Some(s) => s,
                None => i,
            };
            let id: usize = view.changes.len();
            proof {
                lemma_next_flag(flags, s as int, true);
                assert(next_flag(flags, s as int, true) == s);
                lemma_next_flag(flags, s as int, false);
                let end = next_flag(flags, s as int, false);
                assert(end > i) by {
                    if end <= i {
                        assert(!flags[end]);
                    }
                }
                let rest = spans_from(flags, s as int, n);
                assert(rest[0].id == n);
                assert(span_of(rest, i as int) == Some(rest[0].id));
                lemma_span_after(done, rest, i as int);
                assert(numbered_rows(rows0)[i as int] == (RowModel {
                    change_id: Some(id),
                    ..rows0[i as int]
                }));
            }
            let mut row = view.rows[i].clone_row();
            row.change_id = Some(id);
            view.rows[i] = row;
            start = Some(s);
        } else {
            proof {
                lemma_spans_complete(flags, 0, 0, i as int);
                assert(numbered_rows(rows0)[i as int] == rows0[i as int]);
            }
            match start {
                Some(s) => {
                    let id: usize = view.changes.len();
                    let span = ChangeSpan { id, start_row: s, end_row: i - 1 };
                    proof {
                        lemma_next_flag(flags, s as int, true);
                        assert(next_flag(flags, s as int, true) == s);
                        lemma_next_flag(flags, s as int, false);
                        let end = next_flag(flags, s as int, false);
                        assert(end == i) by {
                            if end < i {
                                assert(!flags[end]);
                            }
                        }
                        let rest = spans_from(flags, s as int, n);
                        assert(rest == seq![span] + spans_from(flags, i as int, n + 1));
                        assert(done.push(span) + spans_from(flags, i as int, n + 1) =~= done + rest);
                        lemma_skip_false(flags, i as int, n + 1);
                    }
                    view.changes.push(span);
                    start = None;
                },
                None => {
                    proof {
                        lemma_skip_false(flags, i as int, n);
                    }
                },
            }
        }
        i += 1;
    }
    match start {
        Some(s) => {
            let id: usize = view.changes.len();
            let span = ChangeSpan { id, start_row: s, end_row: len - 1 };
            proof {
                let n = id as int;
                lemma_next_flag(flags, s as int, true);
                assert(next_flag(flags, s as int, true) == s);
                lemma_next_flag(flags, s as int, false);
                let end = next_flag(flags, s as int, false);
                assert(end == len) by {
                    if end < len {
                        assert(!flags[end]);
                    }
                }
                let rest = spans_from(flags, s as int, n);
                assert(rest == seq![span] + spans_from(flags, len as int, n + 1));
                assert(spans_from(flags, len as int, n + 1) =~= Seq::<ChangeSpan>::empty());
                assert(view.changes@.push(span) =~= view.changes@ + rest);
            }
            view.changes.push(span);
        },
        None => {
            assert(view.changes@ + spans_from(flags, len as int, view.changes@.len() as int)
                =~= view.changes@);
        },
    }
    assert(row_models(view.rows@) =~= numbered_rows(rows0));
}

/// A false flag does not start a run.
proof fn lemma_skip_false(flags: Seq<bool>, i: int, n: int)
    requires
        0 <= i < flags.len(),
        !flags[i],
    ensures
        spans_from(flags, i, n) == spans_from(flags, i + 1, n),
{
    lemma_next_flag(flags, i + 1, true);
    assert(next_flag(flags, i, true) == next_flag(flags, i + 1, true));
}

impl<'a> VisualRow<'a> {
    pub fn clone_row(&self) -> (r: VisualRow<'a>)
        ensures
            r@ == self@,
    {
        VisualRow {
            kind: self.kind,
            hunk_index: self.hunk_index,
            fold_id: self.fold_id,
            fold_line_count: self.fold_line_count,
            fold_expanded: self.fold_expanded,
            fold_lines: self.fold_lines,
            change_id: self.change_id,
            line: self.line,
            left: self.left,
            right: self.right,
            hunk_header: self.hunk_header,
        }
    }
}

// ---------------------------------------------------------------------------
// The view of a file
// ---------------------------------------------------------------------------

proof fn lemma_count_bound(lines: Seq<LineModel>, kind: DiffLineKind)
    ensures
        count_kind(lines, kind) <= lines.len(),
    decreases lines.len(),
{
    if lines.len() > 0 {
        lemma_count_bound(lines.drop_last(), kind);
    }
}

proof fn lemma_lines_before_bound(hunks: Seq<HunkModel>, n: int)
    requires
        0 <= n <= hunks.len(),
    ensures
        lines_before(hunks, n).len() <= hunk_lines(hunks.take(n)),
    decreases n,
{
    if n > 0 {
        lemma_lines_before_bound(hunks, n - 1);
        assert(hunks.take(n).drop_last() =~= hunks.take(n - 1));
    }
}

proof fn lemma_lines_before_grow(hunks: Seq<HunkModel>, n: int, m: int)
    requires
        0 <= n <= m <= hunks.len(),
    ensures
        lines_before(hunks, n).len() <= lines_before(hunks, m).len(),
    decreases m,
{
    if n < m {
        lemma_lines_before_grow(hunks, n, m - 1);
    }
}

fn larger_number(a: u32, b: Option<u32>) -> (r: u32)
    ensures
        r == larger(a as nat, number_or_zero(b)),
{
    match b {
        Some(n) => if a >= n {
            a
        } else {
            n
        },
        None => a,
    }
}

/// The numbers of added and of deleted lines, and the largest line number.
fn line_stats(file: &DiffFile) -> (r: (usize, usize, u32))
    requires
        hunk_lines(file@.hunks) <= usize::MAX,
    ensures
        r.0 == count_kind(all_lines(file@), DiffLineKind::Add),
        r.1 == count_kind(all_lines(file@), DiffLineKind::Delete),
        r.2 == max_lineno(all_lines(file@)),
{
    let ghost hunks = file@.hunks;
    let mut additions: usize = 0;
    let mut deletions: usize = 0;
    let mut max_line: u32 = 0;
    let mut h: usize = 0;
    proof {
        lemma_lines_before_bound(hunks, hunks.len() as int);
        assert(hunks.take(hunks.len() as int) =~= hunks);
    }
    while h < file.hunks.len()
        invariant
            hunks == file@.hunks,
            h <= file.hunks@.len(),
            lines_before(hunks, hunks.len() as int).len() <= usize::MAX,
            additions == count_kind(lines_before(hunks, h as int), DiffLineKind::Add),
            deletions == count_kind(lines_before(hunks, h as int), DiffLineKind::Delete),
            max_line == max_lineno(lines_before(hunks, h as int)),
        decreases file.hunks@.len() - h,
    {
        let ghost earlier = lines_before(hunks, h as int);
        let ghost lines = hunks[h as int].lines;
        let mut i: usize = 0;
        assert(earlier + lines.take(0) =~= earlier);
        proof {
            lemma_lines_before_grow(hunks, h + 1, hunks.len() as int);
            assert(lines_before(hunks, h + 1) == earlier + lines);
        }
        while i < file.hunks[h].lines.len()
            invariant
                hunks == file@.hunks,
                h < file.hunks@.len(),
                lines == hunks[h as int].lines,
                lines == line_models(file.hunks@[h as int].lines@),
                earlier.len() + lines.len() <= usize::MAX,
                i <= lines.len(),
                additions == count_kind(earlier + lines.take(i as int), DiffLineKind::Add),
                deletions == count_kind(earlier + lines.take(i as int), DiffLineKind::Delete),
                max_line == max_lineno(earlier + lines.take(i as int)),
            decreases lines.len() - i,
        {
            let line = &file.hunks[h].lines[i];
            let ghost now = earlier + lines.take(i + 1);
            proof {
                assert(now.drop_last() =~= earlier + lines.take(i as int));
                assert(now.last() == line@);
                lemma_count_bound(now, DiffLineKind::Add);
                lemma_count_bound(now, DiffLineKind::Delete);
            }
            let m: u32 = larger_number(max_line, line.old_lineno);
            max_line = larger_number(m, line.new_lineno);
            match line.kind {
                DiffLineKind::Add => {
                    additions += 1;
                },
                DiffLineKind::Delete => {
                    deletions += 1;
                },
                _ => {},
            }
            i += 1;
        }
        assert(lines.take(i as int) =~= lines);
        h += 1;
    }
    (additions, deletions, max_line)
}

/// The rows of a file as they are shown.
pub fn build_file_view<'a>(
    file: &'a DiffFile,
    file_index: usize,
    mode: ViewMode,
    fold_mode: FoldMode,
    folds: &[FoldEntry],
) -> (view: FileView<'a>)
    requires
        hunk_lines(file@.hunks) <= usize::MAX,
    ensures
        is_view_of(view, file@, file_index, mode, fold_mode, folds@),
{
    let (additions, deletions, max_line) = line_stats(file);
    let digits = chars_of(decimal_text(max_line as u64).as_str());
    let line_number_width: usize = if digits.len() >= 4 {
        digits.len()
    } else {
        4
    };
    let mut rows: Vec<VisualRow<'a>> = Vec::new();
    push_row(&mut rows, VisualRow::new(RowKind::FileHeader));
    if file.is_binary || file.hunks.len() == 0 {
        push_row(&mut rows, VisualRow::new(RowKind::FileMeta));
    }
    let ghost c = Setting { file_index, hunk_index: 0, mode, fold_mode, folds: folds@ };
    let ghost head = head_rows(file@);
    assert(row_models(rows@) =~= head);
    let mut h: usize = 0;
    assert(head + rows_of_hunks(file@.hunks, c, 0) =~= head);
    while h < file.hunks.len()
        invariant
            c == (Setting { file_index, hunk_index: 0, mode, fold_mode, folds: folds@ }),
            h <= file.hunks@.len(),
            row_models(rows@) == head + rows_of_hunks(file@.hunks, c, h as int),
        decreases file.hunks@.len() - h,
    {
        push_hunk(&mut rows, &file.hunks[h], file_index, h, mode, fold_mode, folds);
        proof {
            let hunk = file@.hunks[h as int];
            let here = Setting { hunk_index: h, ..c };
            assert(here == (Setting {
                file_index,
                hunk_index: h,
                mode,
                fold_mode,
                folds: folds@,
            }));
            assert(row_models(rows@) =~= head + (rows_of_hunks(file@.hunks, c, h as int)
                + rows_of_hunk(hunk, here)));
        }
        h += 1;
    }
    let mut view = FileView { rows, changes: Vec::new(), additions, deletions, line_number_width };
    proof {
        lemma_rows_unnumbered(file@, c);
        assert(row_models(view.rows@) == plain_rows(file@, c));
        assert forall|k: int| 0 <= k < view.rows@.len() implies (
        #[trigger] view.rows@[k]).change_id is None by {
            assert(row_models(view.rows@)[k].change_id is None);
        }
    }
    assign_changes(&mut view);
    view
}

pub open spec fn unnumbered(rows: Seq<RowModel>) -> bool {
    forall|k: int| 0 <= k < rows.len() ==> (#[trigger] rows[k]).change_id is None
}

proof fn lemma_hunk_rows_unnumbered(lines: Seq<LineModel>, c: Setting, i: int, ordinal: int)
    ensures
        unnumbered(hunk_rows(lines, c, i, ordinal)),
    decreases lines.len() - i,
{
    let (rows, next, next_ordinal) = chunk(lines, c, i, ordinal);
    if !(i < 0 || i >= lines.len() || next <= i || next > lines.len()) {
        lemma_hunk_rows_unnumbered(lines, c, next, next_ordinal);
    }
}

proof fn lemma_rows_of_hunks_unnumbered(hunks: Seq<HunkModel>, c: Setting, n: int)
    requires
        n <= hunks.len(),
    ensures
        unnumbered(rows_of_hunks(hunks, c, n)),
    decreases n,
{
    if n > 0 {
        lemma_rows_of_hunks_unnumbered(hunks, c, n - 1);
        lemma_hunk_rows_unnumbered(
            hunks[n - 1].lines,
            Setting { hunk_index: (n - 1) as usize, ..c },
            0,
            0,
        );
    }
}

proof fn lemma_rows_unnumbered(f: FileModel, c: Setting)
    ensures
        unnumbered(plain_rows(f, c)),
{
    lemma_rows_of_hunks_unnumbered(f.hunks, c, f.hunks.len() as int);
}

/// The start of the first change that starts behind a row.
pub open spec fn change_after(spans: Seq<ChangeSpan>, row: usize) -> Option<usize>
    decreases spans.len(),
{
    if spans.len() == 0 {
        None
    } else if spans[0].start_row > row {
        Some(spans[0].start_row)
    } else {
        change_after(spans.skip(1), row)
    }
}

/// The start of the last change that starts before a row.
pub open spec fn change_before(spans: Seq<ChangeSpan>, row: usize) -> Option<usize>
    decreases spans.len(),
{
    if spans.len() == 0 {
        None
    } else if spans.last().start_row < row {
        Some(spans.last().start_row)
    } else {
        change_before(spans.drop_last(), row)
    }
}

/// The first row of the next change after the cursor.
pub fn next_change(view: &FileView<'_>, cursor_row: usize) -> (r: Option<usize>)
    ensures
        r == change_after(view.changes@, cursor_row),
{
    let mut i: usize = 0;
    assert(view.changes@.skip(0) =~= view.changes@);
    while i < view.changes.len()
        invariant
            i <= view.changes@.len(),
            change_after(view.changes@, cursor_row) == change_after(
                view.changes@.skip(i as int),
                cursor_row,
            ),
        decreases view.changes@.len() - i,
    {
        assert(view.changes@.skip(i as int).skip(1) =~= view.changes@.skip(i + 1));
        if view.changes[i].start_row > cursor_row {
            return Some(view.changes[i].start_row);
        }
        i += 1;
    }
    None
}

/// The first row of the last change that starts before the cursor.
pub fn previous_change(view: &FileView<'_>, cursor_row: usize) -> (r: Option<usize>)
    ensures
        r == change_before(view.changes@, cursor_row),
{
    let mut i: usize = view.changes.len();
    assert(view.changes@.take(i as int) =~= view.changes@);
    while i > 0
        invariant
            i <= view.changes@.len(),
            change_before(view.changes@, cursor_row) == change_before(
                view.changes@.take(i as int),
                cursor_row,
            ),
        decreases i,
    {
        i -= 1;
        assert(view.changes@.take(i + 1).drop_last() =~= view.changes@.take(i as int));
        if view.changes[i].start_row < cursor_row {
            return Some(view.changes[i].start_row);
        }
    }
    None
}

// ---------------------------------------------------------------------------
// Nothing is lost
// ---------------------------------------------------------------------------

/// The lines that a row stands for.  A collapsed fold stands for the lines
/// that it hides; the lines of an expanded one follow on rows of their own.
pub open spec fn shown(r: RowModel) -> Seq<LineModel> {
    if r.kind == RowKind::Fold {
        if r.fold_expanded {
            seq![]
        } else {
            r.fold_lines
        }
    } else {
        match (r.line, r.left, r.right) {
            (Some(l), _, _) => seq![l],
            (None, Some(a), Some(b)) => if a.kind == DiffLineKind::Context {
                seq![a]
            } else {
                seq![a, b]
            },
            (None, Some(a), None) => seq![a],
            (None, None, Some(b)) => seq![b],
            (None, None, None) => seq![],
        }
    }
}

/// The lines that some rows stand for.
pub open spec fn all_shown(rows: Seq<RowModel>) -> Seq<LineModel>
    decreases rows.len(),
{
    if rows.len() == 0 {
        seq![]
    } else {
        all_shown(rows.drop_last()) + shown(rows.last())
    }
}

/// Lines without those of one kind: without additions they are the old side
/// of a diff, without deletions the new side.
pub open spec fn without(lines: Seq<LineModel>, kind: DiffLineKind) -> Seq<LineModel>
    decreases lines.len(),
{
    if lines.len() == 0 {
        seq![]
    } else if lines.last().kind == kind {
        without(lines.drop_last(), kind)
    } else {
        without(lines.drop_last(), kind).push(lines.last())
    }
}

proof fn lemma_without_add(a: Seq<LineModel>, b: Seq<LineModel>, kind: DiffLineKind)
    ensures
        without(a + b, kind) == without(a, kind) + without(b, kind),
    decreases b.len(),
{
    if b.len() == 0 {
        assert(a + b =~= a);
        assert(without(a, kind) + without(b, kind) =~= without(a, kind));
    } else {
        assert((a + b).drop_last() =~= a + b.drop_last());
        lemma_without_add(a, b.drop_last(), kind);
        assert(without(a + b, kind) =~= without(a, kind) + without(b, kind));
    }
}

proof fn lemma_without_kind(lines: Seq<LineModel>, present: DiffLineKind, kind: DiffLineKind)
    requires
        forall|k: int| 0 <= k < lines.len() ==> (#[trigger] lines[k]).kind == present,
    ensures
        without(lines, kind) == if present == kind {
            Seq::empty()
        } else {
            lines
        },
    decreases lines.len(),
{
    if lines.len() > 0 {
        let rest = lines.drop_last();
        assert forall|k: int| 0 <= k < rest.len() implies (#[trigger] rest[k]).kind == present by {
            assert(rest[k] == lines[k]);
        }
        lemma_without_kind(rest, present, kind);
        assert(lines.last().kind == present);
        if present != kind {
            assert(without(lines, kind) =~= lines);
        }
    }
}

proof fn lemma_shown_add(a: Seq<RowModel>, b: Seq<RowModel>)
    ensures
        all_shown(a + b) == all_shown(a) + all_shown(b),
    decreases b.len(),
{
    if b.len() == 0 {
        assert(a + b =~= a);
        assert(all_shown(a) + all_shown(b) =~= all_shown(a));
    } else {
        assert((a + b).drop_last() =~= a + b.drop_last());
        lemma_shown_add(a, b.drop_last());
        assert(all_shown(a + b) =~= all_shown(a) + all_shown(b));
    }
}

proof fn lemma_shown_one(r: RowModel)
    ensures
        all_shown(seq![r]) == shown(r),
{
    assert(seq![r].drop_last() =~= Seq::<RowModel>::empty());
    assert(all_shown(seq![r].drop_last()) =~= Seq::<LineModel>::empty());
    assert(all_shown(seq![r]) =~= shown(r));
}

proof fn lemma_shown_context(
    lines: Seq<LineModel>,
    hunk_index: usize,
    fold_id: Option<FoldId>,
    mode: ViewMode,
)
    requires
        forall|k: int|
            0 <= k < lines.len() ==> (#[trigger] lines[k]).kind == DiffLineKind::Context,
    ensures
        all_shown(context_rows(lines, hunk_index, fold_id, mode)) == lines,
    decreases lines.len(),
{
    let rows = context_rows(lines, hunk_index, fold_id, mode);
    if lines.len() > 0 {
        let rest = lines.drop_last();
        assert forall|k: int| 0 <= k < rest.len() implies (#[trigger] rest[k]).kind
            == DiffLineKind::Context by {
            assert(rest[k] == lines[k]);
        }
        lemma_shown_context(rest, hunk_index, fold_id, mode);
        assert(rows.drop_last() =~= context_rows(rest, hunk_index, fold_id, mode));
        assert(lines.last().kind == DiffLineKind::Context);
        assert(all_shown(rows) =~= lines);
    } else {
        assert(all_shown(rows) =~= lines);
    }
}

proof fn lemma_shown_pairs(
    deletes: Seq<LineModel>,
    adds: Seq<LineModel>,
    hunk_index: usize,
    kind: DiffLineKind,
)
    requires
        forall|k: int|
            0 <= k < deletes.len() ==> (#[trigger] deletes[k]).kind == DiffLineKind::Delete,
        forall|k: int| 0 <= k < adds.len() ==> (#[trigger] adds[k]).kind == DiffLineKind::Add,
        kind == DiffLineKind::Add || kind == DiffLineKind::Delete,
    ensures
        without(all_shown(pair_rows(deletes, adds, hunk_index)), kind) == if kind
            == DiffLineKind::Add {
            deletes
        } else {
            adds
        },
    decreases deletes.len() + adds.len(),
{
    let rows = pair_rows(deletes, adds, hunk_index);
    let n = rows.len() as int;
    if n == 0 {
        assert(without(all_shown(rows), kind) =~= Seq::<LineModel>::empty());
        assert(deletes =~= Seq::<LineModel>::empty());
        assert(adds =~= Seq::<LineModel>::empty());
    } else {
        let d = if deletes.len() == n {
            deletes.drop_last()
        } else {
            deletes
        };
        let a = if adds.len() == n {
            adds.drop_last()
        } else {
            adds
        };
        assert forall|k: int| 0 <= k < d.len() implies (#[trigger] d[k]).kind
            == DiffLineKind::Delete by {
            assert(d[k] == deletes[k]);
        }
        assert forall|k: int| 0 <= k < a.len() implies (#[trigger] a[k]).kind
            == DiffLineKind::Add by {
            assert(a[k] == adds[k]);
        }
        lemma_shown_pairs(d, a, hunk_index, kind);
        assert(rows.drop_last() =~= pair_rows(d, a, hunk_index));
        let last = shown(rows.last());
        lemma_without_add(all_shown(rows.drop_last()), last, kind);
        if deletes.len() == n {
            assert(deletes[n - 1].kind == DiffLineKind::Delete);
        }
        if adds.len() == n {
            assert(adds[n - 1].kind == DiffLineKind::Add);
        }
        reveal_with_fuel(without, 3);
        let expected = if kind == DiffLineKind::Add {
            if deletes.len() == n {
                seq![deletes[n - 1]]
            } else {
                Seq::empty()
            }
        } else {
            if adds.len() == n {
                seq![adds[n - 1]]
            } else {
                Seq::empty()
            }
        };
        if deletes.len() == n && adds.len() == n {
            assert(last =~= seq![deletes[n - 1], adds[n - 1]]);
            assert(last.drop_last() =~= seq![deletes[n - 1]]);
            assert(last.drop_last().drop_last() =~= Seq::<LineModel>::empty());
        } else if deletes.len() == n {
            assert(last =~= seq![deletes[n - 1]]);
            assert(last.drop_last() =~= Seq::<LineModel>::empty());
        } else {
            assert(last =~= seq![adds[n - 1]]);
            assert(last.drop_last() =~= Seq::<LineModel>::empty());
        }
        assert(without(last, kind) =~= expected);
        if kind == DiffLineKind::Add {
            assert(d + expected =~= deletes);
        } else {
            assert(a + expected =~= adds);
        }
    }
}

proof fn lemma_chunk_keeps(
    lines: Seq<LineModel>,
    c: Setting,
    i: int,
    ordinal: int,
    kind: DiffLineKind,
)
    requires
        0 <= i < lines.len(),
        kind == DiffLineKind::Add || kind == DiffLineKind::Delete,
    ensures
        ({
            let (rows, next, next_ordinal) = chunk(lines, c, i, ordinal);
            &&& i < next <= lines.len()
            &&& without(all_shown(rows), kind) == without(lines.subrange(i, next), kind)
        }),
{
    let (rows, next, next_ordinal) = chunk(lines, c, i, ordinal);
    lemma_hidden_end(lines, c.fold_mode, i);
    let h = c.hunk_index;
    if hidden(lines, c.fold_mode, i) {
        lemma_hidden_end(lines, c.fold_mode, i + 1);
        let part = lines.subrange(i, next);
        assert forall|k: int| 0 <= k < part.len() implies (#[trigger] part[k]).kind
            == DiffLineKind::Context by {
            assert(hidden(lines, c.fold_mode, i + k));
        }
        let id = FoldId { file_index: c.file_index, hunk_index: h, ordinal: ordinal as usize };
        lemma_shown_context(part, h, None, c.mode);
        lemma_shown_context(part, h, Some(id), c.mode);
        if part.len() >= MIN_FOLD_LINES {
            let expanded = state_of(c.folds, id) == FoldState::Expanded;
            let head = fold_row(part, h, id, expanded);
            lemma_shown_one(head);
            lemma_shown_add(seq![head], context_rows(part, h, Some(id), c.mode));
            if expanded {
                assert(Seq::<LineModel>::empty() + part =~= part);
            }
        }
        assert(all_shown(rows) == part);
    } else if c.mode == ViewMode::Stacked || lines[i].kind == DiffLineKind::Meta {
        lemma_shown_one(single_row(lines[i], h));
        assert(lines.subrange(i, next) =~= seq![lines[i]]);
    } else if lines[i].kind == DiffLineKind::Context {
        lemma_shown_one(context_row_of(lines[i], h, None, c.mode));
        assert(lines.subrange(i, next) =~= seq![lines[i]]);
    } else {
        let add_start = kind_end(lines, DiffLineKind::Delete, i);
        lemma_kind_end(lines, DiffLineKind::Delete, i);
        lemma_kind_end(lines, DiffLineKind::Add, add_start);
        if lines[i].kind == DiffLineKind::Delete {
            lemma_kind_end(lines, DiffLineKind::Delete, i + 1);
        } else {
            lemma_kind_end(lines, DiffLineKind::Add, i + 1);
        }
        let deletes = lines.subrange(i, add_start);
        let adds = lines.subrange(add_start, next);
        assert forall|k: int| 0 <= k < deletes.len() implies (#[trigger] deletes[k]).kind
            == DiffLineKind::Delete by {
            assert(deletes[k] == lines[i + k]);
        }
        assert forall|k: int| 0 <= k < adds.len() implies (#[trigger] adds[k]).kind
            == DiffLineKind::Add by {
            assert(adds[k] == lines[add_start + k]);
        }
        lemma_shown_pairs(deletes, adds, h, kind);
        assert(lines.subrange(i, next) =~= deletes + adds);
        lemma_without_add(deletes, adds, kind);
        lemma_without_kind(deletes, DiffLineKind::Delete, kind);
        lemma_without_kind(adds, DiffLineKind::Add, kind);
        assert(deletes + Seq::<LineModel>::empty() =~= deletes);
        assert(Seq::<LineModel>::empty() + adds =~= adds);
    }
}

proof fn lemma_hunk_rows_keep(
    lines: Seq<LineModel>,
    c: Setting,
    i: int,
    ordinal: int,
    kind: DiffLineKind,
)
    requires
        0 <= i <= lines.len(),
        kind == DiffLineKind::Add || kind == DiffLineKind::Delete,
    ensures
        without(all_shown(hunk_rows(lines, c, i, ordinal)), kind) == without(lines.skip(i), kind),
    decreases lines.len() - i,
{
    if i < lines.len() {
        let (rows, next, next_ordinal) = chunk(lines, c, i, ordinal);
        lemma_chunk_keeps(lines, c, i, ordinal, kind);
        lemma_hunk_rows_keep(lines, c, next, next_ordinal, kind);
        let rest = hunk_rows(lines, c, next, next_ordinal);
        lemma_shown_add(rows, rest);
        lemma_without_add(all_shown(rows), all_shown(rest), kind);
        assert(lines.skip(i) =~= lines.subrange(i, next) + lines.skip(next));
        lemma_without_add(lines.subrange(i, next), lines.skip(next), kind);
    } else {
        assert(lines.skip(i) =~= Seq::<LineModel>::empty());
    }
}

proof fn lemma_rows_of_hunks_keep(hunks: Seq<HunkModel>, c: Setting, n: int, kind: DiffLineKind)
    requires
        0 <= n <= hunks.len(),
        kind == DiffLineKind::Add || kind == DiffLineKind::Delete,
    ensures
        without(all_shown(rows_of_hunks(hunks, c, n)), kind) == without(
            lines_before(hunks, n),
            kind,
        ),
    decreases n,
{
    if n > 0 {
        lemma_rows_of_hunks_keep(hunks, c, n - 1, kind);
        let hunk = hunks[n - 1];
        let here = Setting { hunk_index: (n - 1) as usize, ..c };
        let rows = rows_of_hunk(hunk, here);
        assert(without(all_shown(rows), kind) == without(hunk.lines, kind)) by {
            if hunk.lines.len() == 0 {
                lemma_shown_one(rows[0]);
                assert(rows =~= seq![rows[0]]);
            } else {
                lemma_hunk_rows_keep(hunk.lines, here, 0, 0, kind);
                assert(hunk.lines.skip(0) =~= hunk.lines);
            }
        }
        lemma_shown_add(rows_of_hunks(hunks, c, n - 1), rows);
        lemma_without_add(all_shown(rows_of_hunks(hunks, c, n - 1)), all_shown(rows), kind);
        lemma_without_add(lines_before(hunks, n - 1), hunk.lines, kind);
    }
}

proof fn lemma_same_shown(a: Seq<RowModel>, b: Seq<RowModel>)
    requires
        a.len() == b.len(),
        forall|k: int| 0 <= k < a.len() ==> shown(#[trigger] a[k]) == shown(b[k]),
    ensures
        all_shown(a) == all_shown(b),
    decreases a.len(),
{
    if a.len() > 0 {
        let x = a.drop_last();
        let y = b.drop_last();
        assert forall|k: int| 0 <= k < x.len() implies shown(#[trigger] x[k]) == shown(y[k]) by {
            assert(x[k] == a[k]);
        }
        lemma_same_shown(x, y);
        assert(shown(a[a.len() - 1]) == shown(b[a.len() - 1]));
    }
}

/// A view shows every line of its file, in order and once, on either side:
/// whatever the layout and the folds, its rows without additions read as the
/// old side of the diff, and without deletions as the new side.
pub proof fn law_view_keeps_lines(f: FileModel, c: Setting, kind: DiffLineKind)
    requires
        kind == DiffLineKind::Add || kind == DiffLineKind::Delete,
    ensures
        without(all_shown(numbered_rows(plain_rows(f, c))), kind) == without(all_lines(f), kind),
{
    let n = f.hunks.len() as int;
    let head = head_rows(f);
    let rows = rows_of_hunks(f.hunks, c, n);
    lemma_rows_of_hunks_keep(f.hunks, c, n, kind);
    lemma_shown_add(head, rows);
    assert(all_shown(head) =~= Seq::<LineModel>::empty()) by {
        reveal_with_fuel(all_shown, 3);
        if f.is_binary || n == 0 {
            assert(head.drop_last() =~= seq![blank_row(RowKind::FileHeader)]);
            assert(head.drop_last().drop_last() =~= Seq::<RowModel>::empty());
        } else {
            assert(head.drop_last() =~= Seq::<RowModel>::empty());
        }
    }
    assert(Seq::<LineModel>::empty() + all_shown(rows) =~= all_shown(rows));
    lemma_same_shown(numbered_rows(plain_rows(f, c)), plain_rows(f, c));
}

/// A row with a line on either side shows one line twice, or a deletion; and a
/// fold has no line of its own.
pub open spec fn honest_row(r: RowModel) -> bool {
    &&& r.left is Some && r.right is Some && (r.left->0).kind == DiffLineKind::Context ==> r.left
        == r.right
    &&& r.kind == RowKind::Fold ==> r.line is None && r.left is None && r.right is None
    &&& r.line is Some ==> r.left is None && r.right is None
}

spec fn honest(rows: Seq<RowModel>) -> bool {
    forall|k: int| 0 <= k < rows.len() ==> honest_row(#[trigger] rows[k])
}

proof fn lemma_hunk_rows_honest(lines: Seq<LineModel>, c: Setting, i: int, ordinal: int)
    ensures
        honest(hunk_rows(lines, c, i, ordinal)),
    decreases lines.len() - i,
{
    let (rows, next, next_ordinal) = chunk(lines, c, i, ordinal);
    if !(i < 0 || i >= lines.len() || next <= i || next > lines.len()) {
        lemma_hunk_rows_honest(lines, c, next, next_ordinal);
        lemma_kind_end(lines, DiffLineKind::Delete, i);
        assert forall|k: int| 0 <= k < rows.len() implies honest_row(#[trigger] rows[k]) by {
            if !hidden(lines, c.fold_mode, i) && c.mode != ViewMode::Stacked && lines[i].kind
                != DiffLineKind::Meta && lines[i].kind != DiffLineKind::Context {
                let add_start = kind_end(lines, DiffLineKind::Delete, i);
                if k < add_start - i {
                    assert(lines.subrange(i, add_start)[k] == lines[i + k]);
                    assert(lines[i + k].kind == DiffLineKind::Delete);
                }
            }
        }
    }
}

proof fn lemma_rows_of_hunks_honest(hunks: Seq<HunkModel>, c: Setting, n: int)
    requires
        n <= hunks.len(),
    ensures
        honest(rows_of_hunks(hunks, c, n)),
    decreases n,
{
    if n > 0 {
        lemma_rows_of_hunks_honest(hunks, c, n - 1);
        lemma_hunk_rows_honest(
            hunks[n - 1].lines,
            Setting { hunk_index: (n - 1) as usize, ..c },
            0,
            0,
        );
    }
}

proof fn lemma_without_contains(lines: Seq<LineModel>, kind: DiffLineKind, x: LineModel)
    requires
        x.kind != kind,
    ensures
        without(lines, kind).contains(x) <==> lines.contains(x),
    decreases lines.len(),
{
    if lines.len() > 0 {
        let t = lines.drop_last();
        lemma_without_contains(t, kind, x);
        let w = without(t, kind);
        if lines.contains(x) {
            let k = choose|k: int| 0 <= k < lines.len() && lines[k] == x;
            if k < t.len() {
                assert(t[k] == x);
                assert(w.contains(x));
                let j = choose|j: int| 0 <= j < w.len() && w[j] == x;
                assert(w.push(lines.last())[j] == x);
            } else {
                assert(w.push(x)[w.len() as int] == x);
            }
        }
        if without(lines, kind).contains(x) {
            let j = choose|j: int|
                0 <= j < without(lines, kind).len() && without(lines, kind)[j] == x;
            if j < w.len() {
                assert(w[j] == x);
                let k = choose|k: int| 0 <= k < t.len() && t[k] == x;
                assert(lines[k] == x);
            } else {
                assert(lines[lines.len() - 1] == x);
            }
        }
    }
}

/// A line is among those that rows stand for exactly where a row stands for it.
proof fn lemma_all_shown_contains(rows: Seq<RowModel>, x: LineModel)
    ensures
        all_shown(rows).contains(x) <==> exists|k: int|
            0 <= k < rows.len() && shown(#[trigger] rows[k]).contains(x),
    decreases rows.len(),
{
    if rows.len() > 0 {
        let t = rows.drop_last();
        let last = shown(rows.last());
        lemma_all_shown_contains(t, x);
        let all = all_shown(t) + last;
        if all.contains(x) {
            let j = choose|j: int| 0 <= j < all.len() && all[j] == x;
            if j < all_shown(t).len() {
                assert(all_shown(t)[j] == x);
                let k = choose|k: int| 0 <= k < t.len() && shown(#[trigger] t[k]).contains(x);
                assert(shown(rows[k]).contains(x));
            } else {
                assert(last[j - all_shown(t).len()] == x);
                assert(shown(rows[rows.len() - 1]).contains(x));
            }
        }
        if exists|k: int| 0 <= k < rows.len() && shown(#[trigger] rows[k]).contains(x) {
            let k = choose|k: int| 0 <= k < rows.len() && shown(#[trigger] rows[k]).contains(x);
            if k < t.len() {
                assert(shown(t[k]).contains(x));
                let j = choose|j: int| 0 <= j < all_shown(t).len() && all_shown(t)[j] == x;
                assert(all[j] == x);
            } else {
                let j = choose|j: int| 0 <= j < last.len() && last[j] == x;
                assert(all[all_shown(t).len() + j] == x);
            }
        }
    }
}

/// Every line that a row of a view shows is a line of the file.
pub proof fn lemma_row_shows_file_lines(f: FileModel, c: Setting, row: int, x: LineModel)
    requires
        0 <= row < plain_rows(f, c).len(),
        ({
            let r = numbered_rows(plain_rows(f, c))[row];
            r.line == Some(x) || r.left == Some(x) || r.right == Some(x)
        }),
    ensures
        all_lines(f).contains(x),
{
    let kind = if x.kind == DiffLineKind::Add {
        DiffLineKind::Delete
    } else {
        DiffLineKind::Add
    };
    let a = numbered_rows(plain_rows(f, c));
    lemma_rows_of_hunks_honest(f.hunks, c, f.hunks.len() as int);
    assert(honest_row(plain_rows(f, c)[row]));
    let r = a[row];
    assert(honest_row(r));
    assert(shown(r).contains(x)) by {
        match (r.line, r.left, r.right) {
            (Some(l), _, _) => assert(shown(r)[0] == x),
            (None, Some(p), Some(q)) => if p.kind == DiffLineKind::Context || p == x {
                assert(shown(r)[0] == x);
            } else {
                assert(shown(r)[1] == x);
            },
            _ => assert(shown(r)[0] == x),
        }
    }
    lemma_all_shown_contains(a, x);
    law_view_keeps_lines(f, c, kind);
    lemma_without_contains(all_shown(a), kind, x);
    lemma_without_contains(all_lines(f), kind, x);
}

/// A line that one view of a file shows is in every other view of the file:
/// some row stands for it.
pub proof fn law_views_show_the_same(f: FileModel, c: Setting, d: Setting, row: int, x: LineModel)
    requires
        0 <= row < plain_rows(f, c).len(),
        comment_line_of(numbered_rows(plain_rows(f, c))[row]) == Some(x),
    ensures
        exists|k: int|
            0 <= k < plain_rows(f, d).len() && shown(
                #[trigger] numbered_rows(plain_rows(f, d))[k],
            ).contains(x),
{
    let kind = if x.kind == DiffLineKind::Add {
        DiffLineKind::Delete
    } else {
        DiffLineKind::Add
    };
    let a = numbered_rows(plain_rows(f, c));
    let b = numbered_rows(plain_rows(f, d));
    lemma_rows_of_hunks_honest(f.hunks, c, f.hunks.len() as int);
    assert(honest_row(plain_rows(f, c)[row]));
    let r = a[row];
    assert(honest_row(r));
    assert(shown(r).contains(x)) by {
        match (r.line, r.left, r.right) {
            (Some(l), _, _) => assert(shown(r)[0] == x),
            (None, Some(p), Some(q)) => if p.kind == DiffLineKind::Context {
                assert(shown(r)[0] == x);
            } else {
                assert(shown(r)[1] == x);
            },
            _ => assert(shown(r)[0] == x),
        }
    }
    lemma_all_shown_contains(a, x);
    law_view_keeps_lines(f, c, kind);
    law_view_keeps_lines(f, d, kind);
    lemma_without_contains(all_shown(a), kind, x);
    lemma_without_contains(all_shown(b), kind, x);
    lemma_all_shown_contains(b, x);
}

/// Whether rows hold the marker of a fold.
pub open spec fn has_fold(rows: Seq<RowModel>, id: FoldId) -> bool {
    exists|k: int|
        0 <= k < rows.len() && (#[trigger] rows[k]).kind == RowKind::Fold && rows[k].fold_id
            == Some(id)
}

proof fn lemma_has_fold_add(a: Seq<RowModel>, b: Seq<RowModel>, id: FoldId)
    ensures
        has_fold(a + b, id) <==> has_fold(a, id) || has_fold(b, id),
{
    if has_fold(a, id) {
        let k = choose|k: int|
            0 <= k < a.len() && (#[trigger] a[k]).kind == RowKind::Fold && a[k].fold_id == Some(id);
        assert((a + b)[k] == a[k]);
    }
    if has_fold(b, id) {
        let k = choose|k: int|
            0 <= k < b.len() && (#[trigger] b[k]).kind == RowKind::Fold && b[k].fold_id == Some(id);
        assert((a + b)[a.len() + k] == b[k]);
    }
    if has_fold(a + b, id) {
        let k = choose|k: int|
            0 <= k < (a + b).len() && (#[trigger] (a + b)[k]).kind == RowKind::Fold && (a
                + b)[k].fold_id == Some(id);
        if k < a.len() {
            assert(a[k] == (a + b)[k]);
        } else {
            assert(b[k - a.len()] == (a + b)[k]);
        }
    }
}

proof fn lemma_hunk_has_fold(
    lines: Seq<LineModel>,
    c: Setting,
    d: Setting,
    i: int,
    ordinal: int,
    id: FoldId,
)
    requires
        d == (Setting { folds: d.folds, ..c }),
        has_fold(hunk_rows(lines, c, i, ordinal), id),
    ensures
        has_fold(hunk_rows(lines, d, i, ordinal), id),
    decreases lines.len() - i,
{
    let (rows, next, next_ordinal) = chunk(lines, c, i, ordinal);
    let (other, other_next, other_ordinal) = chunk(lines, d, i, ordinal);
    if !(i < 0 || i >= lines.len() || next <= i || next > lines.len()) {
        lemma_has_fold_add(rows, hunk_rows(lines, c, next, next_ordinal), id);
        lemma_has_fold_add(other, hunk_rows(lines, d, next, next_ordinal), id);
        if has_fold(rows, id) {
            let k = choose|k: int|
                0 <= k < rows.len() && (#[trigger] rows[k]).kind == RowKind::Fold && rows[k].fold_id
                    == Some(id);
            assert(other[0].kind == RowKind::Fold && other[0].fold_id == Some(id));
        } else {
            lemma_hunk_has_fold(lines, c, d, next, next_ordinal, id);
        }
    }
}

proof fn lemma_hunks_have_fold(
    hunks: Seq<HunkModel>,
    c: Setting,
    d: Setting,
    n: int,
    id: FoldId,
)
    requires
        d == (Setting { folds: d.folds, ..c }),
        has_fold(rows_of_hunks(hunks, c, n), id),
    ensures
        has_fold(rows_of_hunks(hunks, d, n), id),
    decreases n,
{
    if n > 0 {
        let e = Setting { hunk_index: (n - 1) as usize, ..c };
        let g = Setting { hunk_index: (n - 1) as usize, ..d };
        let hunk = hunks[n - 1];
        lemma_has_fold_add(rows_of_hunks(hunks, c, n - 1), rows_of_hunk(hunk, e), id);
        lemma_has_fold_add(rows_of_hunks(hunks, d, n - 1), rows_of_hunk(hunk, g), id);
        if has_fold(rows_of_hunks(hunks, c, n - 1), id) {
            lemma_hunks_have_fold(hunks, c, d, n - 1, id);
        } else if hunk.lines.len() > 0 {
            lemma_hunk_has_fold(hunk.lines, e, g, 0, 0, id);
        }
    }
}

/// Opening and collapsing folds never removes the marker of one.
pub proof fn law_fold_markers_stay(f: FileModel, c: Setting, d: Setting, id: FoldId)
    requires
        d == (Setting { folds: d.folds, ..c }),
        has_fold(numbered_rows(plain_rows(f, c)), id),
    ensures
        has_fold(numbered_rows(plain_rows(f, d)), id),
{
    let a = plain_rows(f, c);
    let b = plain_rows(f, d);
    let k = choose|k: int|
        0 <= k < numbered_rows(a).len() && (#[trigger] numbered_rows(a)[k]).kind == RowKind::Fold
            && numbered_rows(a)[k].fold_id == Some(id);
    assert(a[k].kind == RowKind::Fold && a[k].fold_id == Some(id));
    let n = f.hunks.len() as int;
    lemma_has_fold_add(head_rows(f), rows_of_hunks(f.hunks, c, n), id);
    lemma_has_fold_add(head_rows(f), rows_of_hunks(f.hunks, d, n), id);
    lemma_hunks_have_fold(f.hunks, c, d, n, id);
    let j = choose|j: int|
        0 <= j < b.len() && (#[trigger] b[j]).kind == RowKind::Fold && b[j].fold_id == Some(id);
    assert(numbered_rows(b)[j].kind == RowKind::Fold && numbered_rows(b)[j].fold_id == Some(id));
}

/// What the marker of a fold says: which fold it is, the lines that it stands
/// for and their number, and whether it is expanded.
pub ghost struct FoldMark {
    pub id: Option<FoldId>,
    pub hunk_index: Option<usize>,
    pub lines: Seq<LineModel>,
    pub line_count: usize,
    pub expanded: bool,
}

/// The markers of a row: one where it stands for a fold.
pub open spec fn row_marks(r: RowModel) -> Seq<FoldMark> {
    if r.kind == RowKind::Fold {
        seq![
            FoldMark {
                id: r.fold_id,
                hunk_index: r.hunk_index,
                lines: r.fold_lines,
                line_count: r.fold_line_count,
                expanded: r.fold_expanded,
            },
        ]
    } else {
        seq![]
    }
}

/// The markers of the folds among some rows, in order.
pub open spec fn fold_marks(rows: Seq<RowModel>) -> Seq<FoldMark>
    decreases rows.len(),
{
    if rows.len() == 0 {
        seq![]
    } else {
        fold_marks(rows.drop_last()) + row_marks(rows.last())
    }
}

proof fn lemma_marks_add(a: Seq<RowModel>, b: Seq<RowModel>)
    ensures
        fold_marks(a + b) == fold_marks(a) + fold_marks(b),
    decreases b.len(),
{
    if b.len() == 0 {
        assert(a + b =~= a);
        assert(fold_marks(a) + fold_marks(b) =~= fold_marks(a));
    } else {
        assert((a + b).drop_last() =~= a + b.drop_last());
        lemma_marks_add(a, b.drop_last());
        assert(fold_marks(a + b) =~= fold_marks(a) + fold_marks(b));
    }
}

proof fn lemma_no_marks(rows: Seq<RowModel>)
    requires
        forall|k: int| 0 <= k < rows.len() ==> (#[trigger] rows[k]).kind != RowKind::Fold,
    ensures
        fold_marks(rows) == Seq::<FoldMark>::empty(),
    decreases rows.len(),
{
    if rows.len() > 0 {
        let t = rows.drop_last();
        assert forall|k: int| 0 <= k < t.len() implies (#[trigger] t[k]).kind != RowKind::Fold by {
            assert(t[k] == rows[k]);
        }
        lemma_no_marks(t);
        assert(rows[rows.len() - 1].kind != RowKind::Fold);
        assert(fold_marks(rows) =~= Seq::<FoldMark>::empty());
    }
}

proof fn lemma_marks_of_same(a: Seq<RowModel>, b: Seq<RowModel>)
    requires
        a.len() == b.len(),
        forall|k: int| 0 <= k < a.len() ==> row_marks(#[trigger] a[k]) == row_marks(b[k]),
    ensures
        fold_marks(a) == fold_marks(b),
    decreases a.len(),
{
    if a.len() > 0 {
        let s = a.drop_last();
        let t = b.drop_last();
        assert forall|k: int| 0 <= k < s.len() implies row_marks(#[trigger] s[k]) == row_marks(
            t[k],
        ) by {
            assert(s[k] == a[k]);
        }
        lemma_marks_of_same(s, t);
        assert(row_marks(a[a.len() - 1]) == row_marks(b[b.len() - 1]));
    }
}

/// Numbering the changes leaves the markers as they are.
proof fn lemma_marks_numbered(rows: Seq<RowModel>)
    ensures
        fold_marks(numbered_rows(rows)) == fold_marks(rows),
{
    lemma_marks_of_same(numbered_rows(rows), rows);
}

/// The rows of changed lines hold no marker, in the stacked layout.
proof fn lemma_marks_of_changes(lines: Seq<LineModel>, c: Setting, i: int, end: int, ordinal: int)
    requires
        c.mode == ViewMode::Stacked,
        0 <= i <= end <= lines.len(),
        forall|k: int| i <= k < end ==> (#[trigger] lines[k]).kind != DiffLineKind::Context,
    ensures
        fold_marks(hunk_rows(lines, c, i, ordinal)) == fold_marks(
            hunk_rows(lines, c, end, ordinal),
        ),
    decreases end - i,
{
    if i < end {
        assert(lines[i].kind != DiffLineKind::Context);
        let rows = seq![single_row(lines[i], c.hunk_index)];
        let rest = hunk_rows(lines, c, i + 1, ordinal);
        assert(hunk_rows(lines, c, i, ordinal) == rows + rest);
        lemma_marks_add(rows, rest);
        lemma_no_marks(rows);
        lemma_marks_of_changes(lines, c, i + 1, end, ordinal);
        assert(Seq::<FoldMark>::empty() + fold_marks(rest) =~= fold_marks(rest));
    }
}

proof fn lemma_marks_of_hunk(
    lines: Seq<LineModel>,
    c: Setting,
    d: Setting,
    i: int,
    ordinal: int,
)
    requires
        0 <= i <= lines.len(),
        c.mode == ViewMode::Stacked,
        d == (Setting { mode: ViewMode::Split, ..c }),
    ensures
        fold_marks(hunk_rows(lines, c, i, ordinal)) == fold_marks(hunk_rows(lines, d, i, ordinal)),
    decreases lines.len() - i,
{
    if i < lines.len() {
        let (rows, next, next_ordinal) = chunk(lines, c, i, ordinal);
        let (other, end, _) = chunk(lines, d, i, ordinal);
        if hidden(lines, c.fold_mode, i) {
            lemma_hidden_end(lines, c.fold_mode, i + 1);
            lemma_marks_of_hunk(lines, c, d, next, next_ordinal);
            let part = lines.subrange(i, next);
            let id = FoldId {
                file_index: c.file_index,
                hunk_index: c.hunk_index,
                ordinal: ordinal as usize,
            };
            lemma_no_marks(context_rows(part, c.hunk_index, None, c.mode));
            lemma_no_marks(context_rows(part, c.hunk_index, None, d.mode));
            lemma_no_marks(context_rows(part, c.hunk_index, Some(id), c.mode));
            lemma_no_marks(context_rows(part, c.hunk_index, Some(id), d.mode));
            let mark = seq![fold_row(part, c.hunk_index, id, true)];
            lemma_marks_add(mark, context_rows(part, c.hunk_index, Some(id), c.mode));
            lemma_marks_add(mark, context_rows(part, c.hunk_index, Some(id), d.mode));
            assert(fold_marks(rows) == fold_marks(other));
            lemma_marks_add(rows, hunk_rows(lines, c, next, next_ordinal));
            lemma_marks_add(other, hunk_rows(lines, d, next, next_ordinal));
        } else if lines[i].kind == DiffLineKind::Meta || lines[i].kind == DiffLineKind::Context {
            lemma_marks_of_hunk(lines, c, d, i + 1, ordinal);
            lemma_no_marks(rows);
            lemma_no_marks(other);
            lemma_marks_add(rows, hunk_rows(lines, c, i + 1, ordinal));
            lemma_marks_add(other, hunk_rows(lines, d, i + 1, ordinal));
        } else {
            let add_start = kind_end(lines, DiffLineKind::Delete, i);
            lemma_kind_end(lines, DiffLineKind::Delete, i);
            lemma_kind_end(lines, DiffLineKind::Add, add_start);
            lemma_kind_end(lines, lines[i].kind, i + 1);
            assert(end > i);
            assert forall|k: int| i <= k < end implies (#[trigger] lines[k]).kind
                != DiffLineKind::Context by {
                if k < add_start {
                    assert(lines[k].kind == DiffLineKind::Delete);
                } else {
                    assert(lines[k].kind == DiffLineKind::Add);
                }
            }
            lemma_marks_of_changes(lines, c, i, end, ordinal);
            lemma_marks_of_hunk(lines, c, d, end, ordinal);
            lemma_no_marks(other);
            let rest = hunk_rows(lines, d, end, ordinal);
            lemma_marks_add(other, rest);
            assert(Seq::<FoldMark>::empty() + fold_marks(rest) =~= fold_marks(rest));
        }
    }
}

proof fn lemma_marks_of_hunks(hunks: Seq<HunkModel>, c: Setting, d: Setting, n: int)
    requires
        n <= hunks.len(),
        c.mode == ViewMode::Stacked,
        d == (Setting { mode: ViewMode::Split, ..c }),
    ensures
        fold_marks(rows_of_hunks(hunks, c, n)) == fold_marks(rows_of_hunks(hunks, d, n)),
    decreases n,
{
    if n > 0 {
        let e = Setting { hunk_index: (n - 1) as usize, ..c };
        let g = Setting { hunk_index: (n - 1) as usize, ..d };
        let hunk = hunks[n - 1];
        lemma_marks_of_hunks(hunks, c, d, n - 1);
        lemma_marks_of_hunk(hunk.lines, e, g, 0, 0);
        lemma_marks_add(rows_of_hunks(hunks, c, n - 1), rows_of_hunk(hunk, e));
        lemma_marks_add(rows_of_hunks(hunks, d, n - 1), rows_of_hunk(hunk, g));
    }
}

/// The stacked and the split view of a file have the same fold markers, in
/// order: each with the same lines, their number, and the same state.
pub proof fn law_modes_share_folds(f: FileModel, c: Setting, d: Setting)
    requires
        d == (Setting { mode: d.mode, ..c }),
    ensures
        fold_marks(numbered_rows(plain_rows(f, c))) == fold_marks(numbered_rows(plain_rows(f, d))),
{
    let n = f.hunks.len() as int;
    lemma_marks_numbered(plain_rows(f, c));
    lemma_marks_numbered(plain_rows(f, d));
    lemma_marks_add(head_rows(f), rows_of_hunks(f.hunks, c, n));
    lemma_marks_add(head_rows(f), rows_of_hunks(f.hunks, d, n));
    if c.mode == ViewMode::Stacked && d.mode == ViewMode::Split {
        lemma_marks_of_hunks(f.hunks, c, d, n);
    } else if c.mode == ViewMode::Split && d.mode == ViewMode::Stacked {
        lemma_marks_of_hunks(f.hunks, d, c, n);
    }
}

/// Every row of a view is honest.
pub proof fn lemma_rows_honest(f: FileModel, c: Setting, row: int)
    requires
        0 <= row < plain_rows(f, c).len(),
    ensures
        honest_row(numbered_rows(plain_rows(f, c))[row]),
{
    lemma_rows_of_hunks_honest(f.hunks, c, f.hunks.len() as int);
    assert(honest_row(plain_rows(f, c)[row]));
}

/// The row of a fold shows no line of code itself.
pub proof fn lemma_no_line_on_fold(f: FileModel, c: Setting, row: int)
    requires
        0 <= row < plain_rows(f, c).len(),
        numbered_rows(plain_rows(f, c))[row].kind == RowKind::Fold,
    ensures
        comment_line_of(numbered_rows(plain_rows(f, c))[row]) is None,
{
    lemma_rows_of_hunks_honest(f.hunks, c, f.hunks.len() as int);
    assert(honest_row(plain_rows(f, c)[row]));
}

/// Folding never hides a changed line or context near one, and a fold hides
/// at least the minimum number of lines.
pub proof fn law_folds_hide_distant_context(
    lines: Seq<LineModel>,
    c: Setting,
    i: int,
    ordinal: int,
    k: int,
)
    requires
        0 <= i < lines.len(),
        0 <= k < chunk(lines, c, i, ordinal).0.len(),
        chunk(lines, c, i, ordinal).0[k].kind == RowKind::Fold,
    ensures
        ({
            let row = chunk(lines, c, i, ordinal).0[k];
            let end = chunk(lines, c, i, ordinal).1;
            &&& row.fold_lines == lines.subrange(i, end)
            &&& row.fold_lines.len() >= MIN_FOLD_LINES
            &&& forall|m: int|
                i <= m < end ==> (#[trigger] lines[m]).kind == DiffLineKind::Context
                    && !near_change(lines, m)
        }),
{
    lemma_hidden_end(lines, c.fold_mode, i);
    let end = chunk(lines, c, i, ordinal).1;
    assert(hidden(lines, c.fold_mode, i));
    assert forall|m: int| i <= m < end implies (#[trigger] lines[m]).kind == DiffLineKind::Context
        && !near_change(lines, m) by {
        assert(hidden(lines, c.fold_mode, m));
    }
}

} // verus!

//! What folding hides and what it shows, and where the changes are.
use vstd::prelude::*;
use crate::diff::{DiffLineKind, LineModel};
use crate::tui_view::{
    change_after, change_before, chunk, hidden, hidden_end, hunk_rows, is_change_line, kind_end,
    lemma_hidden_end, lemma_kind_end, near_change, state_of, ChangeSpan, FoldMode, FoldState,
    RowKind, RowModel, Setting, ViewMode,
};

verus! {

// ---------------------------------------------------------------------------
// Folds
// ---------------------------------------------------------------------------

/// An added or a deleted line.
pub open spec fn changed(l: LineModel) -> bool {
    l.kind == DiffLineKind::Add || l.kind == DiffLineKind::Delete
}

/// Whether a line is more than three lines away from every change.
pub open spec fn distant(lines: Seq<LineModel>, i: int) -> bool {
    forall|j: int|
        0 <= j < lines.len() && changed(#[trigger] lines[j]) ==> j - i > 3 || i - j > 3
}

/// What folding may hide: context that is more than three lines away from
/// every change, in a hunk that has a change.
pub proof fn law_distant_context_may_hide(lines: Seq<LineModel>, mode: FoldMode, i: int)
    requires
        0 <= i < lines.len(),
    ensures
        hidden(lines, mode, i) <==> {
            &&& mode == FoldMode::Fold
            &&& lines[i].kind == DiffLineKind::Context
            &&& distant(lines, i)
            &&& exists|j: int| 0 <= j < lines.len() && changed(#[trigger] lines[j])
        },
{
    if near_change(lines, i) {
        let j = choose|j: int|
            0 <= j < lines.len() && is_change_line(#[trigger] lines[j]) && j - 3 <= i <= j + 3;
        assert(changed(lines[j]));
        assert(!distant(lines, i));
    } else {
        assert forall|j: int| 0 <= j < lines.len() && changed(#[trigger] lines[j]) implies j - i > 3
            || i - j > 3 by {
            assert(is_change_line(lines[j]));
        }
    }
    if exists|j: int| 0 <= j < lines.len() && changed(#[trigger] lines[j]) {
        let j = choose|j: int| 0 <= j < lines.len() && changed(#[trigger] lines[j]);
        assert(is_change_line(lines[j]));
    }
    if crate::tui_view::any_change(lines) {
        let j = choose|j: int| 0 <= j < lines.len() && is_change_line(#[trigger] lines[j]);
        assert(changed(lines[j]));
    }
}

/// Whether a row shows a line itself.
pub open spec fn shows_line(r: RowModel, l: LineModel) -> bool {
    r.kind != RowKind::Fold && (r.line == Some(l) || r.left == Some(l) || r.right == Some(l))
}

pub open spec fn some_row_shows(rows: Seq<RowModel>, l: LineModel) -> bool {
    exists|k: int| 0 <= k < rows.len() && shows_line(#[trigger] rows[k], l)
}

proof fn lemma_shows_add(a: Seq<RowModel>, b: Seq<RowModel>, l: LineModel)
    requires
        some_row_shows(a, l) || some_row_shows(b, l),
    ensures
        some_row_shows(a + b, l),
{
    if some_row_shows(a, l) {
        let k = choose|k: int| 0 <= k < a.len() && shows_line(#[trigger] a[k], l);
        assert((a + b)[k] == a[k]);
    } else {
        let k = choose|k: int| 0 <= k < b.len() && shows_line(#[trigger] b[k], l);
        assert((a + b)[a.len() + k] == b[k]);
    }
}

/// The rows that begin with a line go on behind it, and as far as the lines go.
proof fn lemma_chunk_next(lines: Seq<LineModel>, c: Setting, i: int, ordinal: int)
    requires
        0 <= i < lines.len(),
    ensures
        i < chunk(lines, c, i, ordinal).1 <= lines.len(),
{
    if hidden(lines, c.fold_mode, i) {
        lemma_hidden_end(lines, c.fold_mode, i + 1);
    } else if lines[i].kind == DiffLineKind::Delete {
        lemma_kind_end(lines, DiffLineKind::Delete, i + 1);
        let add_start = kind_end(lines, DiffLineKind::Delete, i);
        lemma_kind_end(lines, DiffLineKind::Add, add_start);
    } else if lines[i].kind == DiffLineKind::Add {
        lemma_kind_end(lines, DiffLineKind::Delete, i);
        lemma_kind_end(lines, DiffLineKind::Add, i + 1);
    }
}

proof fn lemma_chunk_shows(lines: Seq<LineModel>, c: Setting, i: int, ordinal: int, t: int)
    requires
        0 <= i <= t < lines.len(),
        t < chunk(lines, c, i, ordinal).1,
        !hidden(lines, c.fold_mode, t),
    ensures
        some_row_shows(chunk(lines, c, i, ordinal).0, lines[t]),
{
    let (rows, next, _) = chunk(lines, c, i, ordinal);
    if hidden(lines, c.fold_mode, i) {
        lemma_hidden_end(lines, c.fold_mode, i);
    } else if c.mode == ViewMode::Stacked || lines[i].kind == DiffLineKind::Meta {
        assert(rows[0].line == Some(lines[t]));
    } else if lines[i].kind == DiffLineKind::Context {
        assert(rows[0].left == Some(lines[t]));
    } else {
        let add_start = kind_end(lines, DiffLineKind::Delete, i);
        lemma_kind_end(lines, DiffLineKind::Delete, i);
        lemma_kind_end(lines, DiffLineKind::Add, add_start);
        let deletes = lines.subrange(i, add_start);
        let adds = lines.subrange(add_start, next);
        if t < add_start {
            assert(deletes[t - i] == lines[t]);
            assert(rows[t - i].left == Some(lines[t]));
        } else {
            assert(adds[t - add_start] == lines[t]);
            assert(rows[t - add_start].right == Some(lines[t]));
        }
    }
}

proof fn lemma_hunk_shows(lines: Seq<LineModel>, c: Setting, i: int, ordinal: int, t: int)
    requires
        0 <= i <= t < lines.len(),
        !hidden(lines, c.fold_mode, t),
    ensures
        some_row_shows(hunk_rows(lines, c, i, ordinal), lines[t]),
    decreases t - i,
{
    let (rows, next, next_ordinal) = chunk(lines, c, i, ordinal);
    lemma_chunk_next(lines, c, i, ordinal);
    let rest = hunk_rows(lines, c, next, next_ordinal);
    if t < next {
        lemma_chunk_shows(lines, c, i, ordinal, t);
    } else {
        lemma_hunk_shows(lines, c, next, next_ordinal, t);
    }
    lemma_shows_add(rows, rest, lines[t]);
}

/// Every changed line, and every line at most three lines away from a change,
/// has a row of its own, whatever is folded.
pub proof fn law_changes_and_their_context_are_shown(
    lines: Seq<LineModel>,
    c: Setting,
    t: int,
    j: int,
)
    requires
        0 <= t < lines.len(),
        0 <= j < lines.len(),
        changed(lines[j]),
        j - 3 <= t <= j + 3,
    ensures
        some_row_shows(hunk_rows(lines, c, 0, 0), lines[t]),
{
    assert(!distant(lines, t));
    law_distant_context_may_hide(lines, c.fold_mode, t);
    lemma_hunk_shows(lines, c, 0, 0, t);
}

/// Whether lines are a whole stretch of distant context: all of them distant
/// context, and neither the line before them nor the one behind them.
pub open spec fn is_stretch(lines: Seq<LineModel>, a: int, b: int) -> bool {
    &&& 0 <= a < b <= lines.len()
    &&& forall|k: int|
        a <= k < b ==> (#[trigger] lines[k]).kind == DiffLineKind::Context && distant(lines, k)
    &&& a > 0 ==> !(lines[a - 1].kind == DiffLineKind::Context && distant(lines, a - 1))
    &&& b < lines.len() ==> !(lines[b].kind == DiffLineKind::Context && distant(lines, b))
}

/// Whether rows hold the marker for some lines.
pub open spec fn has_marker(rows: Seq<RowModel>, hidden_lines: Seq<LineModel>) -> bool {
    exists|k: int|
        0 <= k < rows.len() && (#[trigger] rows[k]).kind == RowKind::Fold && rows[k].fold_lines
            == hidden_lines && rows[k].fold_line_count == hidden_lines.len()
}

proof fn lemma_marker_add(a: Seq<RowModel>, b: Seq<RowModel>, v: Seq<LineModel>)
    requires
        has_marker(a, v) || has_marker(b, v),
    ensures
        has_marker(a + b, v),
{
    if has_marker(a, v) {
        let k = choose|k: int|
            0 <= k < a.len() && (#[trigger] a[k]).kind == RowKind::Fold && a[k].fold_lines == v
                && a[k].fold_line_count == v.len();
        assert((a + b)[k] == a[k]);
    } else {
        let k = choose|k: int|
            0 <= k < b.len() && (#[trigger] b[k]).kind == RowKind::Fold && b[k].fold_lines == v
                && b[k].fold_line_count == v.len();
        assert((a + b)[a.len() + k] == b[k]);
    }
}

proof fn lemma_stretch_hidden(lines: Seq<LineModel>, a: int, b: int, j: int)
    requires
        is_stretch(lines, a, b),
        0 <= j < lines.len(),
        changed(lines[j]),
    ensures
        forall|k: int| a <= k < b ==> #[trigger] hidden(lines, FoldMode::Fold, k),
        a > 0 ==> !hidden(lines, FoldMode::Fold, a - 1),
        !hidden(lines, FoldMode::Fold, b),
        hidden_end(lines, FoldMode::Fold, a) == b,
{
    assert forall|k: int| a <= k < b implies #[trigger] hidden(lines, FoldMode::Fold, k) by {
        assert(lines[k].kind == DiffLineKind::Context);
        law_distant_context_may_hide(lines, FoldMode::Fold, k);
    }
    if a > 0 {
        law_distant_context_may_hide(lines, FoldMode::Fold, a - 1);
    }
    if b < lines.len() {
        law_distant_context_may_hide(lines, FoldMode::Fold, b);
    }
    lemma_end_of_hidden(lines, a, b);
}

proof fn lemma_end_of_hidden(lines: Seq<LineModel>, a: int, b: int)
    requires
        0 <= a <= b <= lines.len(),
        forall|k: int| a <= k < b ==> #[trigger] hidden(lines, FoldMode::Fold, k),
        !hidden(lines, FoldMode::Fold, b),
    ensures
        hidden_end(lines, FoldMode::Fold, a) == b,
    decreases b - a,
{
    if a < b {
        assert(hidden(lines, FoldMode::Fold, a));
        lemma_end_of_hidden(lines, a + 1, b);
    }
}

proof fn lemma_stretch_marker(
    lines: Seq<LineModel>,
    c: Setting,
    i: int,
    ordinal: int,
    a: int,
    b: int,
)
    requires
        0 <= i <= a < b <= lines.len(),
        c.fold_mode == FoldMode::Fold,
        b - a >= 4,
        lines.len() <= usize::MAX,
        hidden_end(lines, FoldMode::Fold, a) == b,
        forall|k: int| a <= k < b ==> #[trigger] hidden(lines, FoldMode::Fold, k),
        a > 0 ==> !hidden(lines, FoldMode::Fold, a - 1),
    ensures
        has_marker(hunk_rows(lines, c, i, ordinal), lines.subrange(a, b)),
    decreases a - i,
{
    let (rows, next, next_ordinal) = chunk(lines, c, i, ordinal);
    lemma_chunk_next(lines, c, i, ordinal);
    let rest = hunk_rows(lines, c, next, next_ordinal);
    let v = lines.subrange(a, b);
    if i == a {
        assert(hidden(lines, FoldMode::Fold, a));
        assert(rows[0].kind == RowKind::Fold && rows[0].fold_lines == v);
    } else {
        assert(next <= a) by {
            assert(hidden(lines, FoldMode::Fold, a));
            if hidden(lines, c.fold_mode, i) {
                lemma_hidden_end(lines, c.fold_mode, i);
                if next > a {
                    assert(hidden(lines, c.fold_mode, a - 1));
                }
            } else if lines[i].kind == DiffLineKind::Delete || lines[i].kind == DiffLineKind::Add {
                let add_start = kind_end(lines, DiffLineKind::Delete, i);
                lemma_kind_end(lines, DiffLineKind::Delete, i);
                lemma_kind_end(lines, DiffLineKind::Add, add_start);
                if next > a && c.mode == ViewMode::Split {
                    if a < add_start {
                        assert(lines[a].kind == DiffLineKind::Delete);
                    } else {
                        assert(lines[a].kind == DiffLineKind::Add);
                    }
                }
            }
        }
        lemma_stretch_marker(lines, c, next, next_ordinal, a, b);
    }
    lemma_marker_add(rows, rest, v);
}

/// In fold mode every stretch of at least four distant context lines stands
/// behind one marker, which knows the lines and counts them.
pub proof fn law_distant_stretches_fold(lines: Seq<LineModel>, c: Setting, a: int, b: int, j: int)
    requires
        c.fold_mode == FoldMode::Fold,
        is_stretch(lines, a, b),
        b - a >= 4,
        0 <= j < lines.len(),
        changed(lines[j]),
        lines.len() <= usize::MAX,
    ensures
        has_marker(hunk_rows(lines, c, 0, 0), lines.subrange(a, b)),
{
    lemma_stretch_hidden(lines, a, b, j);
    lemma_stretch_marker(lines, c, 0, 0, a, b);
}

proof fn lemma_hunk_markers(lines: Seq<LineModel>, c: Setting, i: int, ordinal: int, k: int)
    requires
        0 <= i <= lines.len(),
        0 <= k < hunk_rows(lines, c, i, ordinal).len(),
        hunk_rows(lines, c, i, ordinal)[k].kind == RowKind::Fold,
        lines.len() <= usize::MAX,
    ensures
        ({
            let r = hunk_rows(lines, c, i, ordinal)[k];
            &&& r.fold_id matches Some(id) && (r.fold_expanded == (state_of(c.folds, id)
                == FoldState::Expanded))
            &&& r.fold_line_count == r.fold_lines.len()
            &&& r.fold_lines.len() >= 4
            &&& exists|a: int, b: int|
                #![trigger lines.subrange(a, b)]
                i <= a < b <= lines.len() && r.fold_lines == lines.subrange(a, b) && forall|m: int|
                    a <= m < b ==> hidden(lines, c.fold_mode, m)
        }),
    decreases lines.len() - i,
{
    let (rows, next, next_ordinal) = chunk(lines, c, i, ordinal);
    if i < lines.len() {
        lemma_chunk_next(lines, c, i, ordinal);
        let rest = hunk_rows(lines, c, next, next_ordinal);
        let r = hunk_rows(lines, c, i, ordinal)[k];
        if k < rows.len() {
            assert(rows[k] == r);
            if hidden(lines, c.fold_mode, i) {
                lemma_hidden_end(lines, c.fold_mode, i);
                assert(r.fold_lines == lines.subrange(i, next));
            }
        } else {
            assert(rest[k - rows.len()] == r);
            lemma_hunk_markers(lines, c, next, next_ordinal, k - rows.len());
            let (a, b) = choose|a: int, b: int|
                #![trigger lines.subrange(a, b)]
                next <= a < b <= lines.len() && r.fold_lines == lines.subrange(a, b) && forall|
                    m: int,
                |
                    a <= m < b ==> hidden(lines, c.fold_mode, m);
            assert(r.fold_lines == lines.subrange(a, b));
        }
    }
}

/// A marker stands for at least four lines of the hunk, all of them distant
/// context, and counts them; and it is expanded just where the reader has
/// expanded its fold.
pub proof fn law_markers_stand_for_distant_context(lines: Seq<LineModel>, c: Setting, k: int)
    requires
        0 <= k < hunk_rows(lines, c, 0, 0).len(),
        hunk_rows(lines, c, 0, 0)[k].kind == RowKind::Fold,
        lines.len() <= usize::MAX,
    ensures
        ({
            let r = hunk_rows(lines, c, 0, 0)[k];
            &&& r.fold_id matches Some(id) && (r.fold_expanded == (state_of(c.folds, id)
                == FoldState::Expanded))
            &&& r.fold_line_count == r.fold_lines.len()
            &&& r.fold_lines.len() >= 4
            &&& exists|a: int, b: int|
                #![trigger lines.subrange(a, b)]
                0 <= a < b <= lines.len() && r.fold_lines == lines.subrange(a, b) && forall|m: int|
                    a <= m < b ==> (#[trigger] lines[m]).kind == DiffLineKind::Context && distant(
                        lines,
                        m,
                    )
        }),
{
    lemma_hunk_markers(lines, c, 0, 0, k);
    let r = hunk_rows(lines, c, 0, 0)[k];
    let (a, b) = choose|a: int, b: int|
        #![trigger lines.subrange(a, b)]
        0 <= a < b <= lines.len() && r.fold_lines == lines.subrange(a, b) && forall|m: int|
            a <= m < b ==> hidden(lines, c.fold_mode, m);
    assert forall|m: int| a <= m < b implies (#[trigger] lines[m]).kind == DiffLineKind::Context
        && distant(lines, m) by {
        assert(hidden(lines, c.fold_mode, m));
        law_distant_context_may_hide(lines, c.fold_mode, m);
    }
    assert(r.fold_lines == lines.subrange(a, b));
}

// ---------------------------------------------------------------------------
// Changes
// ---------------------------------------------------------------------------

pub open spec fn in_order(spans: Seq<ChangeSpan>) -> bool {
    forall|i: int, j: int|
        0 <= i < j < spans.len() ==> (#[trigger] spans[i]).start_row < (
        #[trigger] spans[j]).start_row
}

/// The next change is the nearest one that starts behind a row, and there is
/// none only where none starts behind it.
pub proof fn law_next_change_is_nearest(spans: Seq<ChangeSpan>, row: usize, k: int)
    requires
        in_order(spans),
        0 <= k < spans.len(),
    ensures
        match change_after(spans, row) {
            Some(r) => {
                &&& r > row
                &&& exists|j: int| 0 <= j < spans.len() && (#[trigger] spans[j]).start_row == r
                &&& spans[k].start_row > row ==> r <= spans[k].start_row
            },
            None => spans[k].start_row <= row,
        },
    decreases spans.len(),
{
    if spans[0].start_row <= row {
        let t = spans.skip(1);
        assert forall|i: int, j: int| 0 <= i < j < t.len() implies (#[trigger] t[i]).start_row < (
        #[trigger] t[j]).start_row by {
            assert(t[i] == spans[i + 1] && t[j] == spans[j + 1]);
        }
        if k > 0 {
            law_next_change_is_nearest(t, row, k - 1);
            assert(t[k - 1] == spans[k]);
            if let Some(r) = change_after(t, row) {
                let j = choose|j: int| 0 <= j < t.len() && (#[trigger] t[j]).start_row == r;
                assert(spans[j + 1].start_row == r);
            }
        } else if t.len() > 0 {
            law_next_change_is_nearest(t, row, 0);
            if let Some(r) = change_after(t, row) {
                let j = choose|j: int| 0 <= j < t.len() && (#[trigger] t[j]).start_row == r;
                assert(spans[j + 1].start_row == r);
            }
        }
    } else {
        assert(spans[0].start_row == change_after(spans, row)->0);
        if k > 0 {
            assert(spans[0].start_row < spans[k].start_row);
        }
    }
}

/// The previous change is the nearest one that starts before a row, and there
/// is none only where none starts before it.
pub proof fn law_previous_change_is_nearest(spans: Seq<ChangeSpan>, row: usize, k: int)
    requires
        in_order(spans),
        0 <= k < spans.len(),
    ensures
        match change_before(spans, row) {
            Some(r) => {
                &&& r < row
                &&& exists|j: int| 0 <= j < spans.len() && (#[trigger] spans[j]).start_row == r
                &&& spans[k].start_row < row ==> spans[k].start_row <= r
            },
            None => spans[k].start_row >= row,
        },
    decreases spans.len(),
{
    let n = spans.len() - 1;
    if spans[n].start_row >= row {
        let t = spans.drop_last();
        assert forall|i: int, j: int| 0 <= i < j < t.len() implies (#[trigger] t[i]).start_row < (
        #[trigger] t[j]).start_row by {
            assert(t[i] == spans[i] && t[j] == spans[j]);
        }
        if k < n {
            law_previous_change_is_nearest(t, row, k);
            assert(t[k] == spans[k]);
        } else if t.len() > 0 {
            law_previous_change_is_nearest(t, row, 0);
        }
        if t.len() > 0 {
            if let Some(r) = change_before(t, row) {
                let j = choose|j: int| 0 <= j < t.len() && (#[trigger] t[j]).start_row == r;
                assert(spans[j].start_row == r);
            }
        }
    } else {
        assert(spans[n].start_row == change_before(spans, row)->0);
        if k < n {
            assert(spans[k].start_row < spans[n].start_row);
        }
    }
}

} // verus!

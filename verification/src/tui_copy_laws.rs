//! What is copied.
use vstd::prelude::*;
use crate::diff::{DiffLineKind, FileModel, HunkModel, LineModel};
use crate::tui::{rows_of, setting_of, StateModel};
use crate::tui_copy::{plain_lines, row_texts, rows_texts, selected_texts, stats_text};
use crate::tui_keys::selected_rows;
use crate::tui_text::{cleaned, is_control, law_plain_has_no_control};
use crate::tui_view::{
    all_lines, all_shown, chunk, count_kind, head_rows, honest_row, hunk_rows,
    law_view_keeps_lines, lemma_rows_honest, numbered_rows, plain_rows, rows_of_hunk,
    rows_of_hunks, shown, without, FoldMode, RowKind, RowModel, Setting,
};

verus! {

/// A line as a patch has it: its marker and its text.
pub open spec fn marked(l: LineModel) -> Seq<char> {
    match l.kind {
        DiffLineKind::Add => seq!['+'] + l.text,
        DiffLineKind::Delete => seq!['-'] + l.text,
        DiffLineKind::Context => seq![' '] + l.text,
        DiffLineKind::Meta => l.text,
    }
}

pub open spec fn marked_lines(v: Seq<LineModel>) -> Seq<Seq<char>> {
    v.map_values(|l: LineModel| marked(l))
}

/// A row of code: one line, or one on either side.
pub open spec fn code_row(r: RowModel) -> bool {
    match r.kind {
        RowKind::StackedCode | RowKind::FileMeta => r.left is None && r.right is None,
        RowKind::SplitCode => r.line is None,
        _ => false,
    }
}

proof fn lemma_markers()
    ensures
        "+"@ =~= seq!['+'],
        "-"@ =~= seq!['-'],
        " "@ =~= seq![' '],
{
    reveal_strlit("+");
    reveal_strlit("-");
    reveal_strlit(" ");
}

proof fn lemma_row_copied(f: FileModel, stats: Seq<char>, r: RowModel)
    requires
        code_row(r),
        honest_row(r),
    ensures
        row_texts(f, stats, r) == marked_lines(shown(r)),
{
    lemma_markers();
    assert(row_texts(f, stats, r) =~= marked_lines(shown(r)));
}

/// Every line that a row of code shows is copied with its marker: its line, or
/// the lines on its two sides, a context line once; and nothing else is.
pub proof fn law_row_copies_its_lines(f: FileModel, stats: Seq<char>, c: Setting, row: int)
    requires
        0 <= row < plain_rows(f, c).len(),
        code_row(numbered_rows(plain_rows(f, c))[row]),
    ensures
        ({
            let r = numbered_rows(plain_rows(f, c))[row];
            let copied = row_texts(f, stats, r);
            match (r.line, r.left, r.right) {
                (Some(l), _, _) => copied == seq![marked(l)],
                (None, Some(a), Some(b)) => if a.kind == DiffLineKind::Context {
                    a == b && copied == seq![marked(a)]
                } else {
                    copied == seq![marked(a), marked(b)]
                },
                (None, Some(a), None) => copied == seq![marked(a)],
                (None, None, Some(b)) => copied == seq![marked(b)],
                (None, None, None) => copied.len() == 0,
            }
        }),
{
    lemma_rows_honest(f, c, row);
    let r = numbered_rows(plain_rows(f, c))[row];
    lemma_row_copied(f, stats, r);
    let copied = row_texts(f, stats, r);
    match (r.line, r.left, r.right) {
        (Some(l), _, _) => assert(copied =~= seq![marked(l)]),
        (None, Some(a), Some(b)) => if a.kind == DiffLineKind::Context {
            assert(copied =~= seq![marked(a)]);
        } else {
            assert(copied =~= seq![marked(a), marked(b)]);
        },
        (None, Some(a), None) => assert(copied =~= seq![marked(a)]),
        (None, None, Some(b)) => assert(copied =~= seq![marked(b)]),
        (None, None, None) => {},
    }
}

// ---------------------------------------------------------------------------
// Whole files
// ---------------------------------------------------------------------------

spec fn code_rows_only(rows: Seq<RowModel>) -> bool {
    forall|k: int| 0 <= k < rows.len() ==> code_row(#[trigger] rows[k])
}

proof fn lemma_code_add(a: Seq<RowModel>, b: Seq<RowModel>)
    requires
        code_rows_only(a),
        code_rows_only(b),
    ensures
        code_rows_only(a + b),
{
    let c = a + b;
    assert forall|k: int| 0 <= k < c.len() implies code_row(#[trigger] c[k]) by {
        if k < a.len() {
            assert(c[k] == a[k]);
        } else {
            assert(c[k] == b[k - a.len()]);
        }
    }
}

proof fn lemma_hunk_is_code(lines: Seq<LineModel>, c: Setting, i: int, ordinal: int)
    requires
        c.fold_mode == FoldMode::Unfold,
    ensures
        code_rows_only(hunk_rows(lines, c, i, ordinal)),
    decreases lines.len() - i,
{
    let (rows, next, next_ordinal) = chunk(lines, c, i, ordinal);
    if !(i < 0 || i >= lines.len() || next <= i || next > lines.len()) {
        lemma_hunk_is_code(lines, c, next, next_ordinal);
        lemma_code_add(rows, hunk_rows(lines, c, next, next_ordinal));
    }
}

proof fn lemma_hunks_are_code(hunks: Seq<HunkModel>, c: Setting, n: int)
    requires
        c.fold_mode == FoldMode::Unfold,
        n <= hunks.len(),
        forall|h: int| 0 <= h < hunks.len() ==> (#[trigger] hunks[h]).lines.len() > 0,
    ensures
        code_rows_only(rows_of_hunks(hunks, c, n)),
    decreases n,
{
    if n > 0 {
        let e = Setting { hunk_index: (n - 1) as usize, ..c };
        assert(hunks[n - 1].lines.len() > 0);
        lemma_hunks_are_code(hunks, c, n - 1);
        lemma_hunk_is_code(hunks[n - 1].lines, e, 0, 0);
        lemma_code_add(rows_of_hunks(hunks, c, n - 1), rows_of_hunk(hunks[n - 1], e));
    }
}

proof fn lemma_rows_copied(
    f: FileModel,
    stats: Seq<char>,
    rows: Seq<RowModel>,
    low: int,
    end: int,
)
    requires
        0 <= low <= end <= rows.len(),
        forall|k: int|
            low <= k < end ==> code_row(#[trigger] rows[k]) && honest_row(rows[k]),
    ensures
        rows_texts(f, stats, rows, low, end) == marked_lines(all_shown(rows.subrange(low, end))),
    decreases end - low,
{
    let part = rows.subrange(low, end);
    if low < end {
        lemma_rows_copied(f, stats, rows, low, end - 1);
        assert(code_row(rows[end - 1]));
        lemma_row_copied(f, stats, rows[end - 1]);
        assert(part.drop_last() =~= rows.subrange(low, end - 1));
        assert(part.last() == rows[end - 1]);
        assert(rows_texts(f, stats, rows, low, end) =~= marked_lines(all_shown(part)));
    } else {
        assert(part =~= Seq::<RowModel>::empty());
        assert(marked_lines(all_shown(part)) =~= Seq::<Seq<char>>::empty());
    }
}

proof fn lemma_shown_after_head(rows: Seq<RowModel>)
    requires
        rows.len() > 0,
        shown(rows[0]).len() == 0,
    ensures
        all_shown(rows.skip(1)) == all_shown(rows),
    decreases rows.len(),
{
    if rows.len() == 1 {
        assert(rows.skip(1) =~= Seq::<RowModel>::empty());
        assert(rows.drop_last() =~= Seq::<RowModel>::empty());
        assert(rows.last() == rows[0]);
        assert(all_shown(rows.drop_last()) =~= Seq::<LineModel>::empty());
        assert(all_shown(rows) =~= Seq::<LineModel>::empty());
    } else {
        let t = rows.drop_last();
        assert(t[0] == rows[0]);
        lemma_shown_after_head(t);
        assert(rows.skip(1).drop_last() =~= t.skip(1));
        assert(rows.skip(1).last() == rows.last());
    }
}

/// Selecting all rows of an unfolded file copies its heading and then every
/// line of its hunks once, each with its marker, in either layout: without the
/// added lines they are the old side in order, and without the deleted ones
/// the new side.
pub proof fn law_whole_file_is_copied(files: Seq<FileModel>, s: StateModel)
    requires
        s.active_file < files.len(),
        s.fold_mode == FoldMode::Unfold,
        forall|h: int|
            0 <= h < files[s.active_file as int].hunks.len() ==> (
            #[trigger] files[s.active_file as int].hunks[h]).lines.len() > 0,
        s.selection_start == Some(0usize),
        s.cursor_row + 1 >= rows_of(files, s).len(),
    ensures
        ({
            let f = files[s.active_file as int];
            let copied = selected_texts(files, s);
            copied.len() > 0 && exists|v: Seq<LineModel>|
                #![trigger marked_lines(v)]
                copied.skip(1) == marked_lines(v) && without(v, DiffLineKind::Add) == without(
                    all_lines(f),
                    DiffLineKind::Add,
                ) && without(v, DiffLineKind::Delete) == without(
                    all_lines(f),
                    DiffLineKind::Delete,
                )
        }),
{
    let f = files[s.active_file as int];
    let c = setting_of(s);
    let plain = plain_rows(f, c);
    let rows = rows_of(files, s);
    let n = f.hunks.len() as int;
    assert(rows == numbered_rows(plain));
    lemma_hunks_are_code(f.hunks, c, n);
    let body = rows_of_hunks(f.hunks, c, n);
    assert(rows.len() == head_rows(f).len() + body.len());
    assert forall|k: int| 1 <= k < rows.len() implies code_row(#[trigger] rows[k]) && honest_row(
        rows[k],
    ) by {
        if k >= head_rows(f).len() {
            assert(plain[k] == body[k - head_rows(f).len()]);
            assert(code_row(body[k - head_rows(f).len()]));
        } else {
            assert(plain[k] == head_rows(f)[k]);
        }
        lemma_rows_honest(f, c, k);
    }
    assert(plain[0] == head_rows(f)[0]);
    let stats = stats_text(
        count_kind(all_lines(f), DiffLineKind::Delete),
        count_kind(all_lines(f), DiffLineKind::Add),
    );
    let end = rows.len() as int;
    assert(selected_rows(s, end) == (0int, end - 1));
    lemma_rows_copied(f, stats, rows, 1, end);
    assert(rows.subrange(1, end) =~= rows.skip(1));
    lemma_shown_after_head(rows);
    law_copy_adds_up(f, stats, rows, 0, 1, end);
    let v = all_shown(rows);
    law_view_keeps_lines(f, c, DiffLineKind::Add);
    law_view_keeps_lines(f, c, DiffLineKind::Delete);
    assert(rows_texts(f, stats, rows, 0, 1) =~= row_texts(f, stats, rows[0])) by {
        assert(rows_texts(f, stats, rows, 0, 0) =~= Seq::<Seq<char>>::empty());
    }
    assert(selected_texts(files, s).skip(1) =~= marked_lines(v));
}

/// The text of a part and of the part behind it are together the text of both.
pub proof fn law_copy_adds_up(
    f: FileModel,
    stats: Seq<char>,
    rows: Seq<RowModel>,
    low: int,
    middle: int,
    end: int,
)
    requires
        low <= middle <= end,
    ensures
        rows_texts(f, stats, rows, low, end) == rows_texts(f, stats, rows, low, middle)
            + rows_texts(f, stats, rows, middle, end),
    decreases end - middle,
{
    if middle < end {
        law_copy_adds_up(f, stats, rows, low, middle, end - 1);
        assert(rows_texts(f, stats, rows, low, end) =~= rows_texts(f, stats, rows, low, middle)
            + rows_texts(f, stats, rows, middle, end));
    } else {
        assert(rows_texts(f, stats, rows, low, end) =~= rows_texts(f, stats, rows, low, middle)
            + rows_texts(f, stats, rows, middle, end));
    }
}

/// The selected rows are those between the row where the selection began and
/// the cursor, both of them among the selected; without a selection it is the
/// row of the cursor alone.
pub proof fn law_selection_is_between(s: StateModel, count: int, k: int)
    requires
        s.cursor_row < count,
        s.selection_start matches Some(x) ==> x < count,
    ensures
        ({
            let (low, high) = selected_rows(s, count);
            let start = match s.selection_start {
                Some(x) => x,
                None => s.cursor_row,
            };
            &&& 0 <= low <= high < count
            &&& low <= k <= high <==> (start <= k <= s.cursor_row || s.cursor_row <= k <= start)
        }),
{
}

// ---------------------------------------------------------------------------
// The text
// ---------------------------------------------------------------------------

/// A text cut at its line ends.
pub open spec fn cut_lines(s: Seq<char>) -> Seq<Seq<char>>
    decreases s.len(),
{
    if s.len() == 0 {
        seq![seq![]]
    } else {
        let rest = cut_lines(s.drop_last());
        if s.last() == '\n' {
            rest.push(seq![])
        } else {
            rest.drop_last().push(rest.last().push(s.last()))
        }
    }
}

proof fn lemma_cut_add(a: Seq<char>, b: Seq<char>)
    requires
        forall|k: int| 0 <= k < b.len() ==> (#[trigger] b[k]) != '\n',
    ensures
        cut_lines(a).len() > 0,
        cut_lines(a + b) == cut_lines(a).drop_last().push(cut_lines(a).last() + b),
    decreases b.len(), a.len(),
{
    lemma_cut_nonempty(a);
    if b.len() == 0 {
        assert(a + b =~= a);
        assert(cut_lines(a).last() + b =~= cut_lines(a).last());
        assert(cut_lines(a) =~= cut_lines(a).drop_last().push(cut_lines(a).last()));
    } else {
        let t = b.drop_last();
        assert forall|k: int| 0 <= k < t.len() implies (#[trigger] t[k]) != '\n' by {
            assert(t[k] == b[k]);
        }
        lemma_cut_add(a, t);
        assert((a + b).drop_last() =~= a + t);
        assert(b[b.len() - 1] != '\n');
        let rest = cut_lines(a + t);
        assert(rest.drop_last() =~= cut_lines(a).drop_last());
        assert((cut_lines(a).last() + t).push(b.last()) =~= cut_lines(a).last() + b);
    }
}

proof fn lemma_cut_nonempty(a: Seq<char>)
    ensures
        cut_lines(a).len() > 0,
    decreases a.len(),
{
    if a.len() > 0 {
        lemma_cut_nonempty(a.drop_last());
    }
}

/// What is copied, cut at its line ends, is the texts of the rows, in order,
/// each without controls.
pub proof fn law_copied_lines(v: Seq<Seq<char>>)
    requires
        v.len() > 0,
    ensures
        cut_lines(plain_lines(v)) == v.map_values(|t: Seq<char>| cleaned(t, false)),
    decreases v.len(),
{
    let text = cleaned(v.last(), false);
    law_plain_has_no_control(v.last());
    assert forall|k: int| 0 <= k < text.len() implies (#[trigger] text[k]) != '\n' by {
        assert(!is_control(text[k]));
    }
    let all = v.map_values(|t: Seq<char>| cleaned(t, false));
    if v.len() == 1 {
        let none = Seq::<char>::empty();
        lemma_cut_add(none, text);
        assert(none + text =~= text);
        assert(cut_lines(none) =~= seq![none]);
        assert(cut_lines(text) =~= all);
    } else {
        let t = v.drop_last();
        law_copied_lines(t);
        let before = plain_lines(t);
        let ended = before.push('\n');
        assert(ended.drop_last() =~= before);
        assert(cut_lines(ended) =~= cut_lines(before).push(Seq::<char>::empty()));
        lemma_cut_add(ended, text);
        assert(cut_lines(ended).drop_last() =~= cut_lines(before));
        assert(Seq::<char>::empty() + text =~= text);
        assert(cut_lines(plain_lines(v)) =~= all);
    }
}

} // verus!

//! Moving through a review: following the cursor, changing files, folding.
use vstd::prelude::*;
use crate::diff::{file_models, DiffLine, DiffSnapshot, FileModel, LineModel};
use crate::tui::{
    captured_position, changes_of, closed_comments, digits_of, heights, heights_of, minus, panelled,
    ready, restored_position, row_rows, rows_of, shows, with_fold, Layout, ReadingPosition, State,
    StateModel,
};
use crate::tui_geometry::{
    above, filled, flat, lemma_above_order, lemma_above_step, lemma_flat_order, lemma_flat_place,
    lemma_moved_on_rows, lemma_place_flat, lemma_settled, moved, on_rows, place, settled,
    visual_position, within, Geometry, ViewRows,
};
use crate::tui_view::{
    all_lines, comment_line_of, fold_state, max_lineno, opt_line, row_models, state_of, FileView,
    FoldEntry, FoldMode, FoldState, RowKind, RowModel, VisualRow,
};
use crate::util::{decimal, same_text};

verus! {

broadcast use vstd::std_specs::hash::group_hash_axioms;

// ---------------------------------------------------------------------------
// A view and its geometry
// ---------------------------------------------------------------------------

spec fn ten(k: nat) -> nat
    decreases k,
{
    if k == 0 {
        1
    } else {
        10 * ten((k - 1) as nat)
    }
}

proof fn lemma_decimal_short(n: nat, k: nat)
    requires
        k >= 1,
        n < ten(k),
    ensures
        decimal(n).len() <= k,
    decreases k,
{
    reveal_with_fuel(ten, 2);
    if n >= 10 {
        assert(k >= 2);
        assert(n / 10 < ten((k - 1) as nat));
        lemma_decimal_short(n / 10, (k - 1) as nat);
    }
}

proof fn lemma_max_lineno(lines: Seq<LineModel>)
    ensures
        max_lineno(lines) <= u32::MAX,
    decreases lines.len(),
{
    if lines.len() > 0 {
        lemma_max_lineno(lines.drop_last());
    }
}

/// Line numbers take few columns.
pub proof fn lemma_digits(f: FileModel)
    ensures
        4 <= digits_of(f) <= 10,
{
    lemma_max_lineno(all_lines(f));
    reveal_with_fuel(ten, 11);
    lemma_decimal_short(max_lineno(all_lines(f)), 10);
}

proof fn lemma_row_filled(r: RowModel, digits: nat, main_width: nat)
    ensures
        row_rows(r, digits, main_width) >= 1,
{
    reveal_with_fuel(crate::tui_wrap::wrapped_pieces, 1);
}

/// Every row takes at least one line.
pub proof fn lemma_heights_filled(rows: Seq<RowModel>, digits: nat, main_width: nat)
    ensures
        filled(heights_of(rows, digits, main_width)),
{
    assert forall|k: int| 0 <= k < rows.len() implies #[trigger] heights_of(
        rows,
        digits,
        main_width,
    )[k] >= 1 by {
        lemma_row_filled(rows[k], digits, main_width);
    }
}

/// The heights of a view of the active file.
pub proof fn lemma_view_rows(v: FileView, files: Seq<FileModel>, s: StateModel, l: Layout)
    requires
        shows(v, files, s),
    ensures
        v.line_number_width <= usize::MAX - 5,
        v.line_number_width == digits_of(files[s.active_file as int]),
        heights_of(row_models(v.rows@), v.line_number_width as nat, l.main_width as nat) == heights(
            files,
            s,
            l,
        ),
        filled(heights(files, s, l)),
        heights(files, s, l).len() == v.rows@.len(),
        row_models(v.rows@) == rows_of(files, s),
        v.rows@.len() == rows_of(files, s).len(),
        v.changes@ == changes_of(files, s),
{
    lemma_digits(files[s.active_file as int]);
    lemma_heights_filled(
        rows_of(files, s),
        digits_of(files[s.active_file as int]),
        l.main_width as nat,
    );
    assert(row_models(v.rows@).len() == v.rows@.len());
}

// ---------------------------------------------------------------------------
// Following the cursor
// ---------------------------------------------------------------------------

pub open spec fn cursor_of(s: StateModel) -> (int, int) {
    (s.cursor_row as int, s.cursor_line as int)
}

pub open spec fn scroll_of(s: StateModel) -> (int, int) {
    (s.scroll_row as int, s.scroll_line as int)
}

pub open spec fn with_cursor(s: StateModel, p: (int, int)) -> StateModel {
    StateModel { cursor_row: p.0 as usize, cursor_line: p.1 as usize, ..s }
}

pub open spec fn with_scroll(s: StateModel, p: (int, int)) -> StateModel {
    StateModel { scroll_row: p.0 as usize, scroll_line: p.1 as usize, ..s }
}

/// The first visible line after scrolling as little as is needed to show the
/// lines from `top` to `bottom`.
pub open spec fn following(first: int, top: int, bottom: int, body: int) -> int {
    if top < first {
        top
    } else if bottom >= first + body {
        bottom - body + 1
    } else {
        first
    }
}

/// The lines to keep in sight: the row of the cursor where it fits, and the
/// line of the cursor where it does not.
pub open spec fn wanted(h: Seq<nat>, cursor: (int, int), body: int) -> (int, int) {
    let base = above(h, cursor.0) as int;
    if h[cursor.0] <= body {
        (base, base + h[cursor.0] - 1)
    } else {
        (base + cursor.1, base + cursor.1)
    }
}

/// The cursor on the rows, and the rows scrolled so that it is visible.
pub open spec fn visible(s: StateModel, h: Seq<nat>, body: usize) -> StateModel {
    if h.len() == 0 {
        with_scroll(with_cursor(s, (0, 0)), (0, 0))
    } else {
        let cursor = settled(h, cursor_of(s));
        let (top, bottom) = wanted(h, cursor, body as int);
        let first = flat(h, settled(h, scroll_of(s)));
        with_scroll(with_cursor(s, cursor), place(h, following(first, top, bottom, body as int)))
    }
}

/// As `visible`, with the cursor in the middle of the body where there is
/// something above it.
pub open spec fn centered(s: StateModel, h: Seq<nat>, body: usize) -> StateModel {
    visible(with_scroll(s, moved(h, cursor_of(s), -(body / 2))), h, body)
}

/// Positions fit in the fields of a state.
pub open spec fn representable(h: Seq<nat>) -> bool {
    h.len() <= usize::MAX && forall|k: int| 0 <= k < h.len() ==> #[trigger] h[k] <= usize::MAX
}

/// When the cursor has been followed, its line is visible, and its whole row
/// is where it fits in the body.
pub proof fn law_cursor_is_visible(s: StateModel, h: Seq<nat>, body: usize)
    requires
        h.len() > 0,
        filled(h),
        representable(h),
        body >= 1,
    ensures
        ({
            let t = visible(s, h, body);
            let first = flat(h, scroll_of(t));
            &&& on_rows(h, cursor_of(t))
            &&& on_rows(h, scroll_of(t))
            &&& first <= flat(h, cursor_of(t)) < first + body
            &&& h[t.cursor_row as int] <= body ==> first <= above(h, t.cursor_row as int) && above(
                h,
                t.cursor_row + 1,
            ) <= first + body
        }),
{
    let cursor = settled(h, cursor_of(s));
    let (top, bottom) = wanted(h, cursor, body as int);
    let first = flat(h, settled(h, scroll_of(s)));
    lemma_settled(h, cursor_of(s));
    lemma_settled(h, scroll_of(s));
    lemma_place_flat(h, cursor);
    lemma_place_flat(h, settled(h, scroll_of(s)));
    lemma_above_step(h, cursor.0);
    lemma_above_order(h, cursor.0 + 1, h.len() as int);
    lemma_flat_place(h, following(first, top, bottom, body as int));
}

/// Following the cursor again changes nothing.
pub proof fn law_following_settles(s: StateModel, h: Seq<nat>, body: usize)
    requires
        filled(h),
        representable(h),
        body >= 1,
    ensures
        visible(visible(s, h, body), h, body) == visible(s, h, body),
{
    if h.len() > 0 {
        let t = visible(s, h, body);
        law_cursor_is_visible(s, h, body);
        lemma_above_step(h, t.cursor_row as int);
        lemma_place_flat(h, scroll_of(t));
    }
}

/// The first visible position after following a cursor that is on the rows.
fn follow<G: Geometry>(
    geometry: &G,
    cursor: (usize, usize),
    cursor_height: usize,
    scroll: (usize, usize),
    body_height: usize,
) -> (r: (usize, usize))
    requires
        geometry.wf(),
        filled(geometry.rows()),
        on_rows(geometry.rows(), (cursor.0 as int, cursor.1 as int)),
        cursor_height == geometry.rows()[cursor.0 as int],
        body_height >= 1,
    ensures
        ({
            let h = geometry.rows();
            let (top, bottom) = wanted(h, (cursor.0 as int, cursor.1 as int), body_height as int);
            let first = flat(h, settled(h, (scroll.0 as int, scroll.1 as int)));
            (r.0 as int, r.1 as int) == place(h, following(first, top, bottom, body_height as int))
        }),
{
    let ghost h = geometry.rows();
    let ghost start = (scroll.0 as int, scroll.1 as int);
    let from = visual_position(geometry, scroll, 0, true);
    // Ordinary rows are kept whole; oversized rows follow the line of the cursor.
    let (first, last) = if cursor_height <= body_height {
        (0usize, cursor_height - 1)
    } else {
        (cursor.1, cursor.1)
    };
    let row: usize = cursor.0;
    let end = visual_position(geometry, from, body_height - 1, true);
    proof {
        let p = (row as int, first as int);
        let q = (row as int, last as int);
        let f = (from.0 as int, from.1 as int);
        let e = (end.0 as int, end.1 as int);
        lemma_settled(h, start);
        lemma_place_flat(h, settled(h, start));
        assert(f == settled(h, start));
        lemma_settled(h, f);
        lemma_settled(h, q);
        lemma_place_flat(h, p);
        lemma_place_flat(h, q);
        lemma_flat_order(h, p, f);
        lemma_moved_on_rows(h, f, (body_height - 1) as int);
        lemma_flat_order(h, e, q);
    }
    if row < from.0 || (row == from.0 && first < from.1) {
        (row, first)
    } else if end.0 < row || (end.0 == row && end.1 < last) {
        visual_position(geometry, (row, last), body_height - 1, false)
    } else {
        from
    }
}

/// Scrolls so that the cursor is visible.
pub fn ensure_visible(view: &FileView<'_>, state: &mut State, layout: Layout)
    requires
        view.line_number_width <= usize::MAX - 5,
        layout.body_height >= 1,
    ensures
        final(state)@ == visible(
            old(state)@,
            heights_of(
                row_models(view.rows@),
                view.line_number_width as nat,
                layout.main_width as nat,
            ),
            layout.body_height,
        ),
        final(state).cursor_row < usize::MAX,
{
    let geometry = ViewRows { view, layout };
    let ghost h = geometry.rows();
    proof {
        lemma_heights_filled(
            row_models(view.rows@),
            view.line_number_width as nat,
            layout.main_width as nat,
        );
    }
    let count: usize = geometry.count();
    if count == 0 {
        state.cursor_row = 0;
        state.cursor_line = 0;
        state.scroll_row = 0;
        state.scroll_line = 0;
        return;
    }
    if state.cursor_row >= count {
        state.cursor_row = count - 1;
    }
    let cursor_height: usize = geometry.height(state.cursor_row);
    if state.cursor_line >= cursor_height {
        state.cursor_line = cursor_height - 1;
    }
    let scroll = follow(
        &geometry,
        (state.cursor_row, state.cursor_line),
        cursor_height,
        (state.scroll_row, state.scroll_line),
        layout.body_height,
    );
    state.scroll_row = scroll.0;
    state.scroll_line = scroll.1;
}

/// Scrolls so that the cursor is in the middle of the body.
pub fn center(view: &FileView<'_>, state: &mut State, layout: Layout)
    requires
        view.line_number_width <= usize::MAX - 5,
        layout.body_height >= 1,
    ensures
        final(state)@ == centered(
            old(state)@,
            heights_of(
                row_models(view.rows@),
                view.line_number_width as nat,
                layout.main_width as nat,
            ),
            layout.body_height,
        ),
        final(state).cursor_row < usize::MAX,
{
    proof {
        lemma_heights_filled(
            row_models(view.rows@),
            view.line_number_width as nat,
            layout.main_width as nat,
        );
    }
    let geometry = ViewRows { view, layout };
    let scroll = visual_position(
        &geometry,
        (state.cursor_row, state.cursor_line),
        layout.body_height / 2,
        false,
    );
    state.scroll_row = scroll.0;
    state.scroll_line = scroll.1;
    ensure_visible(view, state, layout);
}

/// The position that many lines below the top of the body.
pub fn row_at_offset(
    view: &FileView<'_>,
    state: &State,
    offset: usize,
    layout: Layout,
) -> (r: (usize, usize))
    requires
        view.line_number_width <= usize::MAX - 5,
    ensures
        (r.0 as int, r.1 as int) == moved(
            heights_of(
                row_models(view.rows@),
                view.line_number_width as nat,
                layout.main_width as nat,
            ),
            scroll_of(state@),
            offset as int,
        ),
{
    proof {
        lemma_heights_filled(
            row_models(view.rows@),
            view.line_number_width as nat,
            layout.main_width as nat,
        );
    }
    let geometry = ViewRows { view, layout };
    visual_position(&geometry, (state.scroll_row, state.scroll_line), offset, true)
}

// ---------------------------------------------------------------------------
// Moves
// ---------------------------------------------------------------------------

/// A distance down, or up.
pub open spec fn signed(count: usize, down: bool) -> int {
    if down {
        count as int
    } else {
        -count
    }
}

/// An index moved within a list.
pub open spec fn moved_index(current: usize, len: int, delta: int) -> usize {
    if len == 0 {
        0
    } else {
        within(current + delta, 0, len - 1) as usize
    }
}

pub fn move_index(current: usize, len: usize, count: usize, down: bool) -> (r: usize)
    ensures
        r == moved_index(current, len as int, signed(count, down)),
{
    if len == 0 {
        0
    } else if down {
        if current <= len - 1 && count <= len - 1 - current {
            current + count
        } else {
            len - 1
        }
    } else if current < count {
        0
    } else if current - count <= len - 1 {
        current - count
    } else {
        len - 1
    }
}

/// The cursor some rows further.
pub open spec fn line_moved(files: Seq<FileModel>, s: StateModel, delta: int) -> StateModel {
    let next = moved_index(s.cursor_row, rows_of(files, s).len() as int, delta);
    if next == s.cursor_row {
        s
    } else {
        StateModel { cursor_row: next, cursor_line: 0, ..s }
    }
}

pub fn move_line(snapshot: &DiffSnapshot, state: &mut State, count: usize, down: bool)
    requires
        ready(*snapshot, old(state)@),
    ensures
        final(state)@ == line_moved(
            file_models(snapshot.files@),
            old(state)@,
            signed(count, down),
        ),
        ready(*snapshot, final(state)@),
{
    let view = state.file_view(snapshot);
    proof {
        lemma_view_rows(
            view,
            file_models(snapshot.files@),
            state@,
            crate::tui::bare_layout(1, 3),
        );
    }
    let next = move_index(state.cursor_row, view.rows.len(), count, down);
    if next != state.cursor_row {
        state.cursor_row = next;
        state.cursor_line = 0;
    }
}

/// The cursor some lines of the screen further.
pub open spec fn screen_moved(
    files: Seq<FileModel>,
    s: StateModel,
    delta: int,
    l: Layout,
) -> StateModel {
    let h = heights(files, s, l);
    visible(with_cursor(s, moved(h, cursor_of(s), delta)), h, l.body_height)
}

pub fn move_visual(
    snapshot: &DiffSnapshot,
    state: &mut State,
    count: usize,
    down: bool,
    layout: Layout,
)
    requires
        ready(*snapshot, old(state)@),
        layout.body_height >= 1,
    ensures
        final(state)@ == screen_moved(
            file_models(snapshot.files@),
            old(state)@,
            signed(count, down),
            layout,
        ),
        ready(*snapshot, final(state)@),
{
    let view = state.file_view(snapshot);
    proof {
        lemma_view_rows(view, file_models(snapshot.files@), state@, layout);
    }
    let geometry = ViewRows { view: &view, layout };
    let cursor = visual_position(&geometry, (state.cursor_row, state.cursor_line), count, down);
    state.cursor_row = cursor.0;
    state.cursor_line = cursor.1;
    ensure_visible(&view, state, layout);
}

/// The active file at its first change, and whether it has one.
pub open spec fn at_first_change(files: Seq<FileModel>, s: StateModel, l: Layout) -> (
    StateModel,
    bool,
) {
    let top = with_scroll(with_cursor(s, (0, 0)), (0, 0));
    let changes = changes_of(files, top);
    if changes.len() > 0 {
        (
            centered(
                with_cursor(top, (changes[0].start_row as int, 0)),
                heights(files, top, l),
                l.body_height,
            ),
            true,
        )
    } else {
        (top, false)
    }
}

pub fn first_change(snapshot: &DiffSnapshot, state: &mut State, layout: Layout) -> (r: bool)
    requires
        ready(*snapshot, old(state)@),
        layout.body_height >= 1,
    ensures
        (final(state)@, r) == at_first_change(file_models(snapshot.files@), old(state)@, layout),
        ready(*snapshot, final(state)@),
{
    state.cursor_row = 0;
    state.cursor_line = 0;
    state.scroll_row = 0;
    state.scroll_line = 0;
    let view = state.file_view(snapshot);
    proof {
        lemma_view_rows(view, file_models(snapshot.files@), state@, layout);
    }
    if view.changes.len() > 0 {
        state.cursor_row = view.changes[0].start_row;
        center(&view, state, layout);
        true
    } else {
        false
    }
}

/// Another file opened.  Where the reader was in the file that is left is
/// kept, and a file that has been read before opens where the reader was.
#[verifier::opaque]
pub open spec fn file_opened(
    files: Seq<FileModel>,
    s: StateModel,
    index: usize,
    l: Layout,
) -> StateModel {
    let closed = StateModel {
        sidebar_open: s.sidebar_open && !l.sidebar_overlay,
        ..closed_comments(s, l)
    };
    let inner = panelled(l, closed);
    let chosen = StateModel { selection_start: None, file_cursor: index, ..closed };
    if index == s.active_file {
        chosen
    } else {
        let kept = StateModel {
            positions: chosen.positions.insert(
                chosen.active_file,
                captured_position(chosen, inner),
            ),
            active_file: index,
            ..chosen
        };
        if kept.positions.dom().contains(index) {
            let back = restored_position(kept, kept.positions[index], inner);
            visible(back, heights(files, back, inner), inner.body_height)
        } else {
            at_first_change(files, kept, inner).0
        }
    }
}

pub fn open_file(snapshot: &DiffSnapshot, state: &mut State, index: usize, layout: Layout)
    requires
        ready(*snapshot, old(state)@),
        index < snapshot.files@.len(),
        layout.width >= 1,
        layout.height >= 3,
    ensures
        final(state)@ == file_opened(file_models(snapshot.files@), old(state)@, index, layout),
        final(state).active_file == index,
        ready(*snapshot, final(state)@),
{
    reveal(file_opened);
    state.close_comments(layout);
    if layout.sidebar_overlay {
        state.sidebar_open = false;
    }
    let layout = layout.with_panels(state);
    state.selection_start = None;
    state.file_cursor = index;
    if index == state.active_file {
        return;
    }
    let position = ReadingPosition::capture(state, layout);
    state.positions.insert(state.active_file, position);
    state.active_file = index;
    let known: Option<ReadingPosition> = match state.positions.get(&index) {
        Some(p) => Some(*p),
        None => None,
    };
    match known {
        Some(p) => {
            p.restore(state, layout);
            let view = state.file_view(snapshot);
            proof {
                lemma_view_rows(view, file_models(snapshot.files@), state@, layout);
            }
            ensure_visible(&view, state, layout);
        },
        None => {
            first_change(snapshot, state, layout);
        },
    }
}

/// The file some places further opened.
pub open spec fn file_moved(
    files: Seq<FileModel>,
    s: StateModel,
    delta: int,
    l: Layout,
) -> StateModel {
    let next = moved_index(s.active_file, files.len() as int, delta);
    if next == s.active_file {
        s
    } else {
        file_opened(files, s, next, l)
    }
}

pub fn move_file(
    snapshot: &DiffSnapshot,
    state: &mut State,
    count: usize,
    down: bool,
    layout: Layout,
)
    requires
        ready(*snapshot, old(state)@),
        layout.width >= 1,
        layout.height >= 3,
    ensures
        final(state)@ == file_moved(
            file_models(snapshot.files@),
            old(state)@,
            signed(count, down),
            layout,
        ),
        ready(*snapshot, final(state)@),
{
    assert(file_models(snapshot.files@).len() == snapshot.files@.len());
    let next = move_index(state.active_file, snapshot.files.len(), count, down);
    if next == state.active_file {
        return;
    }
    open_file(snapshot, state, next, layout);
}

/// The first file in the list, so that the one chosen is visible below the
/// heading of a list of that height.
pub open spec fn tree_start(file_count: nat, active: nat, height: nat) -> nat {
    if height <= 2 || active < height - 1 {
        0
    } else if active - (height - 2) <= file_count {
        (active - (height - 2)) as nat
    } else {
        file_count
    }
}

pub fn file_tree_start(file_count: usize, active: usize, height: usize) -> (r: usize)
    ensures
        r == tree_start(file_count as nat, active as nat, height as nat),
{
    if height <= 2 || active < height - 1 {
        0
    } else {
        let start: usize = active - (height - 2);
        if start <= file_count {
            start
        } else {
            file_count
        }
    }
}

/// The chosen file is among those listed below the heading.
pub proof fn law_chosen_file_is_listed(file_count: nat, active: nat, height: nat)
    requires
        active < file_count,
        height >= 2,
    ensures
        height >= 3 ==> tree_start(file_count, active, height) <= active < tree_start(
            file_count,
            active,
            height,
        ) + height - 1,
{
}

// ---------------------------------------------------------------------------
// Keeping the place
// ---------------------------------------------------------------------------

/// The lines of the rows from one to before another.
pub open spec fn between(h: Seq<nat>, start: int, end: int) -> int {
    let stop = if end < h.len() {
        end
    } else {
        h.len() as int
    };
    if start < stop {
        above(h, stop) - above(h, start)
    } else {
        0
    }
}

/// As much of a number as fits.
pub open spec fn capped(n: int) -> nat {
    if n > usize::MAX {
        usize::MAX as nat
    } else {
        n as nat
    }
}

/// The lines of the rows from one to before another, as far as they can be
/// counted.
pub fn height_between<G: Geometry>(geometry: &G, start: usize, end: usize) -> (r: usize)
    requires
        geometry.wf(),
    ensures
        r == capped(between(geometry.rows(), start as int, end as int)),
{
    let count: usize = geometry.count();
    let ghost h = geometry.rows();
    let stop: usize = if end < count {
        end
    } else {
        count
    };
    let mut sum: usize = 0;
    let mut row: usize = start;
    while row < stop
        invariant
            geometry.wf(),
            h == geometry.rows(),
            count == h.len(),
            stop <= count,
            start <= row,
            start < stop ==> row <= stop,
            start < stop ==> sum == capped(above(h, row as int) - above(h, start as int)),
            start < stop ==> above(h, start as int) <= above(h, row as int),
            start >= stop ==> sum == 0,
        decreases stop - row,
    {
        proof {
            lemma_above_step(h, row as int);
        }
        let height: usize = geometry.height(row);
        sum = if height <= usize::MAX - sum {
            sum + height
        } else {
            usize::MAX
        };
        row += 1;
    }
    sum
}

/// The row of the cursor, and how many lines it is below the top of the body.
pub open spec fn anchor_of(rows: Seq<RowModel>, h: Seq<nat>, s: StateModel) -> Option<
    (RowModel, nat),
> {
    if s.cursor_row < rows.len() {
        Some(
            (
                rows[s.cursor_row as int],
                minus(
                    capped(between(h, s.scroll_row as int, s.cursor_row as int)),
                    s.scroll_line as nat,
                ),
            ),
        )
    } else {
        None
    }
}

pub open spec fn opt_anchor(a: Option<(VisualRow, usize)>) -> Option<(RowModel, nat)> {
    match a {
        Some((row, offset)) => Some((row@, offset as nat)),
        None => None,
    }
}

pub fn capture_anchor<'a>(view: &FileView<'a>, state: &State, layout: Layout) -> (r: Option<
    (VisualRow<'a>, usize),
>)
    requires
        view.line_number_width <= usize::MAX - 5,
    ensures
        opt_anchor(r) == anchor_of(
            row_models(view.rows@),
            heights_of(
                row_models(view.rows@),
                view.line_number_width as nat,
                layout.main_width as nat,
            ),
            state@,
        ),
{
    if state.cursor_row >= view.rows.len() {
        return None;
    }
    let row = view.rows[state.cursor_row].clone_row();
    let geometry = ViewRows { view, layout };
    let lines: usize = height_between(&geometry, state.scroll_row, state.cursor_row);
    let offset: usize = if lines >= state.scroll_line {
        lines - state.scroll_line
    } else {
        0
    };
    Some((row, offset))
}

/// The line by which a row is found again.
pub open spec fn anchor_line(r: RowModel) -> Option<LineModel> {
    if comment_line_of(r) is Some {
        comment_line_of(r)
    } else if r.fold_lines.len() > 0 {
        Some(r.fold_lines[0])
    } else {
        None
    }
}

/// Whether two lines are the same one.
pub open spec fn same_line(line: Option<LineModel>, candidate: Option<LineModel>) -> bool {
    match (line, candidate) {
        (Some(a), Some(b)) => a.stable_line_id == b.stable_line_id,
        _ => false,
    }
}

/// Whether a row shows a line.
pub open spec fn row_shows(row: RowModel, line: Option<LineModel>) -> bool {
    same_line(line, row.line) || same_line(line, row.left) || same_line(line, row.right)
}

/// Whether a row stands for what another row showed.
pub open spec fn stands_for(row: RowModel, a: RowModel) -> bool {
    if a.kind == RowKind::Fold && row.kind == RowKind::Fold {
        row.fold_id == a.fold_id
    } else if a.kind == RowKind::Fold || comment_line_of(a) is Some {
        row_shows(row, anchor_line(a))
    } else {
        row.kind == a.kind && row.hunk_index == a.hunk_index
    }
}

/// Whether a row is a fold around the line of another row.
pub open spec fn folds_away(row: RowModel, a: RowModel) -> bool {
    row.kind == RowKind::Fold && exists|k: int|
        0 <= k < row.fold_lines.len() && same_line(
            anchor_line(a),
            Some(#[trigger] row.fold_lines[k]),
        )
}

/// The first row from `i` that stands for another one, or folds it away.
pub open spec fn place_of(rows: Seq<RowModel>, a: RowModel, folded: bool, i: int) -> Option<int>
    decreases rows.len() - i,
{
    if i < 0 || i >= rows.len() {
        None
    } else if if folded {
        folds_away(rows[i], a)
    } else {
        stands_for(rows[i], a)
    } {
        Some(i)
    } else {
        place_of(rows, a, folded, i + 1)
    }
}

/// Where a row is after a change of the view: where it is shown again, or else
/// the fold that hides it.
pub open spec fn new_place(rows: Seq<RowModel>, a: RowModel) -> Option<int> {
    if place_of(rows, a, false, 0) is Some {
        place_of(rows, a, false, 0)
    } else {
        place_of(rows, a, true, 0)
    }
}

/// The cursor on the same row as before a change of the view, as far below the
/// top of the body as before.
pub open spec fn anchored(
    rows: Seq<RowModel>,
    h: Seq<nat>,
    s: StateModel,
    anchor: Option<(RowModel, nat)>,
    body: usize,
) -> StateModel {
    let start = StateModel { cursor_line: 0, ..s };
    let found = match anchor {
        Some((row, _)) => new_place(rows, row),
        None => None,
    };
    visible(
        match found {
            Some(i) => with_scroll(
                StateModel { cursor_row: i as usize, ..start },
                moved(h, (i, 0), -((anchor->0).1)),
            ),
            None => start,
        },
        h,
        body,
    )
}

fn is_same_line(line: Option<&DiffLine>, candidate: Option<&DiffLine>) -> (r: bool)
    ensures
        r == same_line(opt_line(line), opt_line(candidate)),
{
    match line {
        Some(a) => match candidate {
            Some(b) => same_text(a.stable_line_id.as_str(), b.stable_line_id.as_str()),
            None => false,
        },
        None => false,
    }
}

/// The line by which a row is found again.
fn line_of_anchor<'a>(row: &VisualRow<'a>) -> (r: Option<&'a DiffLine>)
    ensures
        opt_line(r) == anchor_line(row@),
{
    match row.comment_line() {
        Some(l) => Some(l),
        None => if row.fold_lines.len() > 0 {
            Some(&row.fold_lines[0])
        } else {
            None
        },
    }
}

fn same_fold(a: Option<crate::tui_view::FoldId>, b: Option<crate::tui_view::FoldId>) -> (r: bool)
    ensures
        r == (a == b),
{
    match a {
        Some(x) => match b {
            Some(y) => x == y,
            None => false,
        },
        None => b.is_none(),
    }
}

fn same_hunk(a: Option<usize>, b: Option<usize>) -> (r: bool)
    ensures
        r == (a == b),
{
    match a {
        Some(x) => match b {
            Some(y) => x == y,
            None => false,
        },
        None => b.is_none(),
    }
}

fn is_stand_in(row: &VisualRow<'_>, anchor: &VisualRow<'_>) -> (r: bool)
    ensures
        r == stands_for(row@, anchor@),
{
    if anchor.kind == RowKind::Fold && row.kind == RowKind::Fold {
        same_fold(row.fold_id, anchor.fold_id)
    } else if anchor.kind == RowKind::Fold || anchor.comment_line().is_some() {
        let line = line_of_anchor(anchor);
        is_same_line(line, row.line) || is_same_line(line, row.left) || is_same_line(
            line,
            row.right,
        )
    } else {
        row.kind == anchor.kind && same_hunk(row.hunk_index, anchor.hunk_index)
    }
}

fn is_folding(row: &VisualRow<'_>, anchor: &VisualRow<'_>) -> (r: bool)
    ensures
        r == folds_away(row@, anchor@),
{
    if row.kind != RowKind::Fold {
        return false;
    }
    let line = line_of_anchor(anchor);
    let mut i: usize = 0;
    while i < row.fold_lines.len()
        invariant
            i <= row.fold_lines@.len(),
            row.kind == RowKind::Fold,
            opt_line(line) == anchor_line(anchor@),
            forall|k: int|
                0 <= k < i ==> !same_line(anchor_line(anchor@), Some(#[trigger] row@.fold_lines[k])),
        decreases row.fold_lines@.len() - i,
    {
        let candidate = &row.fold_lines[i];
        assert(row@.fold_lines[i as int] == candidate@);
        if is_same_line(line, Some(candidate)) {
            return true;
        }
        i += 1;
    }
    false
}

fn find_place(view: &FileView<'_>, anchor: &VisualRow<'_>, folded: bool) -> (r: Option<usize>)
    ensures
        match r {
            Some(i) => place_of(row_models(view.rows@), anchor@, folded, 0) == Some(i as int) && i
                < view.rows@.len(),
            None => place_of(row_models(view.rows@), anchor@, folded, 0) is None,
        },
{
    let ghost rows = row_models(view.rows@);
    let mut i: usize = 0;
    while i < view.rows.len()
        invariant
            rows == row_models(view.rows@),
            i <= view.rows@.len(),
            place_of(rows, anchor@, folded, 0) == place_of(rows, anchor@, folded, i as int),
        decreases view.rows@.len() - i,
    {
        let row = &view.rows[i];
        assert(rows[i as int] == row@);
        let hit = if folded {
            is_folding(row, anchor)
        } else {
            is_stand_in(row, anchor)
        };
        if hit {
            return Some(i);
        }
        i += 1;
    }
    None
}

pub fn restore_anchor(
    view: &FileView<'_>,
    state: &mut State,
    anchor: Option<(VisualRow<'_>, usize)>,
    layout: Layout,
)
    requires
        view.line_number_width <= usize::MAX - 5,
        layout.body_height >= 1,
    ensures
        final(state)@ == anchored(
            row_models(view.rows@),
            heights_of(
                row_models(view.rows@),
                view.line_number_width as nat,
                layout.main_width as nat,
            ),
            old(state)@,
            opt_anchor(anchor),
            layout.body_height,
        ),
        final(state).active_file == old(state).active_file,
        final(state).file_cursor == old(state).file_cursor,
        final(state).cursor_row < usize::MAX,
        final(state).selection_start == old(state).selection_start,
{
    proof {
        lemma_heights_filled(
            row_models(view.rows@),
            view.line_number_width as nat,
            layout.main_width as nat,
        );
    }
    state.cursor_line = 0;
    if let Some((row, offset)) = anchor {
        let shown = find_place(view, &row, false);
        let found = match shown {
            Some(i) => Some(i),
            None => find_place(view, &row, true),
        };
        if let Some(index) = found {
            state.cursor_row = index;
            let geometry = ViewRows { view, layout };
            let scroll = visual_position(&geometry, (index, 0), offset, false);
            state.scroll_row = scroll.0;
            state.scroll_line = scroll.1;
        }
    }
    ensure_visible(view, state, layout);
}

// ---------------------------------------------------------------------------
// Folds
// ---------------------------------------------------------------------------

pub open spec fn other_fold_state(s: FoldState) -> FoldState {
    if s == FoldState::Collapsed {
        FoldState::Expanded
    } else {
        FoldState::Collapsed
    }
}

pub open spec fn other_fold_mode(m: FoldMode) -> FoldMode {
    if m == FoldMode::Unfold {
        FoldMode::Fold
    } else {
        FoldMode::Unfold
    }
}

/// Folds after those on the first `n` rows have been set.
pub open spec fn all_folds_set(
    folds: Seq<FoldEntry>,
    rows: Seq<RowModel>,
    state: FoldState,
    n: int,
) -> Seq<FoldEntry>
    decreases n,
{
    if n <= 0 {
        folds
    } else {
        let f = all_folds_set(folds, rows, state, n - 1);
        if rows[n - 1].kind == RowKind::Fold && rows[n - 1].fold_id is Some {
            with_fold(f, rows[n - 1].fold_id->0, state)
        } else {
            f
        }
    }
}

/// Whether a row is a fold that hides its lines.
pub open spec fn is_closed_fold(r: RowModel) -> bool {
    r.kind == RowKind::Fold && !r.fold_expanded
}

pub open spec fn any_closed_fold(rows: Seq<RowModel>) -> bool {
    exists|k: int| 0 <= k < rows.len() && is_closed_fold(#[trigger] rows[k])
}

/// The fold on the row of the cursor.
pub open spec fn fold_at_cursor(rows: Seq<RowModel>, s: StateModel) -> Option<
    crate::tui_view::FoldId,
> {
    if s.cursor_row < rows.len() {
        rows[s.cursor_row as int].fold_id
    } else {
        None
    }
}

/// `C` turns folding on, with every fold collapsed, or off; `z` turns the fold
/// at the cursor; `Z` opens all folds where one is collapsed, and otherwise
/// collapses them.  The place is kept.
#[verifier::opaque]
pub open spec fn folds_toggled(
    files: Seq<FileModel>,
    s: StateModel,
    key: char,
    l: Layout,
) -> StateModel {
    let rows = rows_of(files, s);
    let target = fold_at_cursor(rows, s);
    if key != 'C' && s.fold_mode == FoldMode::Unfold {
        s
    } else if key == 'z' && target is None {
        s
    } else {
        let start = StateModel { selection_start: None, scroll_line: 0, ..s };
        let next = if key == 'C' {
            StateModel {
                fold_mode: other_fold_mode(s.fold_mode),
                folds: if s.fold_mode == FoldMode::Unfold {
                    seq![]
                } else {
                    s.folds
                },
                ..start
            }
        } else if key == 'z' {
            StateModel {
                folds: with_fold(s.folds, target->0, other_fold_state(state_of(s.folds, target->0))),
                ..start
            }
        } else {
            StateModel {
                folds: all_folds_set(
                    s.folds,
                    rows,
                    if any_closed_fold(rows) {
                        FoldState::Expanded
                    } else {
                        FoldState::Collapsed
                    },
                    rows.len() as int,
                ),
                ..start
            }
        };
        anchored(
            rows_of(files, next),
            heights(files, next, l),
            next,
            anchor_of(rows, heights(files, s, l), s),
            l.body_height,
        )
    }
}

fn has_closed_fold(view: &FileView<'_>) -> (r: bool)
    ensures
        r == any_closed_fold(row_models(view.rows@)),
{
    let ghost rows = row_models(view.rows@);
    let mut i: usize = 0;
    while i < view.rows.len()
        invariant
            rows == row_models(view.rows@),
            i <= view.rows@.len(),
            forall|k: int| 0 <= k < i ==> !is_closed_fold(#[trigger] rows[k]),
        decreases view.rows@.len() - i,
    {
        assert(rows[i as int] == view.rows@[i as int]@);
        if view.rows[i].kind == RowKind::Fold && !view.rows[i].fold_expanded {
            return true;
        }
        i += 1;
    }
    false
}

fn set_all_folds(view: &FileView<'_>, state: &mut State, to: FoldState)
    ensures
        final(state)@ == (StateModel {
            folds: all_folds_set(
                old(state)@.folds,
                row_models(view.rows@),
                to,
                view.rows@.len() as int,
            ),
            ..old(state)@
        }),
{
    let ghost rows = row_models(view.rows@);
    let ghost before = state@;
    let mut i: usize = 0;
    while i < view.rows.len()
        invariant
            rows == row_models(view.rows@),
            i <= view.rows@.len(),
            state@ == (StateModel {
                folds: all_folds_set(before.folds, rows, to, i as int),
                ..before
            }),
        decreases view.rows@.len() - i,
    {
        assert(rows[i as int] == view.rows@[i as int]@);
        if view.rows[i].kind == RowKind::Fold {
            if let Some(id) = view.rows[i].fold_id {
                state.set_fold(id, to);
            }
        }
        i += 1;
    }
}

pub fn toggle_folds(snapshot: &DiffSnapshot, state: &mut State, key: char, layout: Layout)
    requires
        ready(*snapshot, old(state)@),
        layout.body_height >= 1,
        key == 'C' || key == 'z' || key == 'Z',
    ensures
        final(state)@ == folds_toggled(
            file_models(snapshot.files@),
            old(state)@,
            key,
            layout,
        ),
        ready(*snapshot, final(state)@),
{
    reveal(folds_toggled);
    let ghost files = file_models(snapshot.files@);
    let ghost before = state@;
    if key != 'C' && state.fold_mode == FoldMode::Unfold {
        return;
    }
    let view = state.file_view(snapshot);
    proof {
        lemma_view_rows(view, files, state@, layout);
    }
    let target = if state.cursor_row < view.rows.len() {
        assert(row_models(view.rows@)[state.cursor_row as int]
            == view.rows@[state.cursor_row as int]@);
        view.rows[state.cursor_row].fold_id
    } else {
        None
    };
    if key == 'z' && target.is_none() {
        return;
    }
    let anchor = capture_anchor(&view, state, layout);
    state.selection_start = None;
    state.scroll_line = 0;
    if key == 'C' {
        if state.fold_mode == FoldMode::Unfold {
            state.fold_mode = FoldMode::Fold;
            state.folds = Vec::new();
            assert(state@.folds =~= Seq::<FoldEntry>::empty());
        } else {
            state.fold_mode = FoldMode::Unfold;
        }
    } else if key == 'z' {
        if let Some(id) = target {
            let next = if fold_state(state.folds.as_slice(), id) == FoldState::Collapsed {
                FoldState::Expanded
            } else {
                FoldState::Collapsed
            };
            state.set_fold(id, next);
        }
    } else {
        let expand = has_closed_fold(&view);
        set_all_folds(
            &view,
            state,
            if expand {
                FoldState::Expanded
            } else {
                FoldState::Collapsed
            },
        );
    }
    let updated = state.file_view(snapshot);
    proof {
        lemma_view_rows(updated, files, state@, layout);
    }
    restore_anchor(&updated, state, anchor, layout);
}

} // verus!

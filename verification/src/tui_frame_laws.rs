//! What holds of every frame.
use vstd::prelude::*;
use crate::diff::LineModel;
use crate::git::FileSide;
use crate::inline_diff::Range;
use crate::store::CommentModel;
use crate::syntax::{highlighted_line, law_highlight_keeps_text, lemma_plain_pieces, no_introducer};
use crate::syntax_cache::{entry_for, EntryModel};
use crate::theme::{Ansi, ThemeTokens};
use crate::tui::{
    digits_of, heights, layout_fits, minus, number_of, row_rows, rows_of, setting_of, CURSOR_GUTTER,
};
use crate::tui_frame::{
    active, body_line, code_body, colour_side, drawn, drawn_end, drawn_until, file_line, footer_text,
    frame_lines, highlight_at, is_coloured, lemma_drawn_until, lemma_nothing_up_to, lines_up_to,
    main_line, row_coloured, rows_coloured, scene, sides_needed, status_text, with_side, FrameModel,
};
use crate::tui_render::{
    code_lines, gutter, gutter_columns, inner_lines, line_or, line_prefix, line_text, number_text,
    pair_ranges, panel_text, row_lines, safe_text, side_by_side, HighlightModel, Scene,
};
use crate::tui_style::{cell, law_cell_width, law_inline_keeps_text, law_same_text_same_rows};
use crate::tui_text::{
    clean_text_seq, cleaned, escape_len, introducer, is_control, kept_pieces,
    law_plain_has_no_control, lemma_clean_concat, lemma_kept_clean, lemma_pieces_step,
    lemma_plain_kept, lemma_reparse, pieces, spaces, text_width,
};
use crate::tui_view::{all_lines, lemma_row_shows_file_lines, max_lineno, RowKind, RowModel};
use crate::tui_wrap::wrapped;
use crate::util::decimal;

verus! {

// ---------------------------------------------------------------------------
// Plain texts
// ---------------------------------------------------------------------------

/// Printable ASCII.
pub open spec fn printable(s: Seq<char>) -> bool {
    forall|k: int| 0 <= k < s.len() ==> 0x20 <= (#[trigger] s[k]) as u32 <= 0x7e
}

/// Printable ASCII takes a column for each character.
pub proof fn lemma_printable_width(s: Seq<char>)
    requires
        printable(s),
    ensures
        text_width(s) == s.len(),
        clean_text_seq(s),
    decreases s.len(),
{
    if s.len() > 0 {
        lemma_pieces_step(s);
        assert(0x20 <= s[0] as u32 <= 0x7e);
        assert(escape_len(s) == 0) by {
            reveal(escape_len);
        }
        let t = s.skip(1);
        assert forall|k: int| 0 <= k < t.len() implies 0x20 <= (#[trigger] t[k]) as u32 <= 0x7e by {
            assert(t[k] == s[k + 1]);
        }
        lemma_printable_width(t);
        let ps = pieces(s);
        assert(ps.skip(1) == pieces(t));
        assert forall|k: int| 0 <= k < ps.len() implies crate::tui_text::clean_piece(
            #[trigger] ps[k],
        ) by {
            if k > 0 {
                assert(ps[k] == ps.skip(1)[k - 1]);
            }
        }
    }
}

proof fn lemma_decimal_printable(n: nat)
    ensures
        printable(decimal(n)),
    decreases n,
{
    if n >= 10 {
        lemma_decimal_printable(n / 10);
    }
}

proof fn lemma_decimal_grows(a: nat, b: nat)
    requires
        a <= b,
    ensures
        decimal(a).len() <= decimal(b).len(),
    decreases b,
{
    if a >= 10 {
        lemma_decimal_grows(a / 10, b / 10);
    }
}

proof fn lemma_number_at_most(lines: Seq<LineModel>, x: LineModel)
    requires
        lines.contains(x),
    ensures
        number_of(x) matches Some(n) ==> n <= max_lineno(lines),
    decreases lines.len(),
{
    let k = choose|k: int| 0 <= k < lines.len() && lines[k] == x;
    if k < lines.len() - 1 {
        assert(lines.drop_last()[k] == x);
        lemma_number_at_most(lines.drop_last(), x);
    }
}

/// A line of the file has room for its number.
spec fn number_fits(l: Option<LineModel>, digits: nat) -> bool {
    l matches Some(x) ==> (number_of(x) matches Some(n) ==> decimal(n as nat).len() <= digits)
}

pub proof fn lemma_prefix_printable(
    comments: Seq<CommentModel>,
    path: Seq<char>,
    l: LineModel,
    target: Seq<char>,
    digits: nat,
    stacked: bool,
)
    ensures
        printable(line_prefix(comments, path, l, target, digits, stacked)),
{
    reveal_strlit("");
    reveal_strlit("|");
    reveal_strlit(" ");
    reveal_strlit("!");
    reveal_strlit("  ");
    let number = number_text(number_of(l), digits);
    assert(printable(number)) by {
        if let Some(n) = number_of(l) {
            lemma_decimal_printable(n as nat);
        }
    }
}

proof fn lemma_prefix_width(
    comments: Seq<CommentModel>,
    path: Seq<char>,
    l: LineModel,
    target: Seq<char>,
    digits: nat,
    stacked: bool,
)
    requires
        number_fits(Some(l), digits),
    ensures
        text_width(line_prefix(comments, path, l, target, digits, stacked)) == if stacked {
            digits + 5
        } else {
            digits + 4
        },
{
    reveal_strlit("");
    reveal_strlit("|");
    reveal_strlit(" ");
    reveal_strlit("!");
    reveal_strlit("  ");
    let prefix = line_prefix(comments, path, l, target, digits, stacked);
    let number = number_text(number_of(l), digits);
    assert(number.len() == digits);
    lemma_prefix_printable(comments, path, l, target, digits, stacked);
    lemma_printable_width(prefix);
}

// ---------------------------------------------------------------------------
// Rows and their geometry
// ---------------------------------------------------------------------------

/// Colours and changed parts do not change how a line is wrapped.
proof fn lemma_text_wraps_the_same(
    l: LineModel,
    selected: bool,
    ranges: Seq<Range>,
    highlight: Option<Seq<char>>,
    ansi: Ansi,
    palette: ThemeTokens,
    first: nat,
    continuation: nat,
)
    requires
        is_coloured(Some(l), highlight, ansi, palette),
    ensures
        wrapped(line_text(l, selected, ranges, highlight, ansi, palette), first, continuation).len()
            == wrapped(cleaned(l.text, false), first, continuation).len(),
{
    let plain = cleaned(l.text, false);
    if safe_text(l.text) {
        let kp = kept_pieces(pieces(l.text), false);
        lemma_kept_clean(pieces(l.text), false);
        lemma_reparse(kp);
        lemma_plain_kept(kp);
        assert(kept_pieces(pieces(plain), false) == kp);
        law_plain_has_no_control(l.text);
        assert(no_introducer(plain)) by {
            assert forall|k: int| 0 <= k < plain.len() implies !introducer(#[trigger] plain[k]) by {
                assert(!is_control(plain[k]));
            }
        }
        lemma_plain_pieces(plain);
        assert(no_introducer(l.text)) by {
            assert forall|k: int| 0 <= k < l.text.len() implies !introducer(
                #[trigger] l.text[k],
            ) by {
                assert(!is_control(l.text[k]) || l.text[k] == '\t');
            }
        }
        let source = if ansi.enabled && highlight is Some {
            highlight->0
        } else {
            plain
        };
        if ansi.enabled && highlight is Some {
            let spans = choose|spans: Seq<crate::syntax::HighlightSpan>| #[trigger]
                highlighted_line(l.text, spans, ansi, palette) == highlight->0;
            law_highlight_keeps_text(l.text, spans, ansi, palette);
        }
        let bg = crate::tui_style::row_background(selected, l.kind, palette);
        let inline = crate::tui_style::inline_background(selected, l.kind);
        law_inline_keeps_text(source, ranges, ansi, bg, inline);
        law_same_text_same_rows(
            line_text(l, selected, ranges, highlight, ansi, palette),
            plain,
            first,
            continuation,
        );
    }
}

/// A line of code takes the rows that the geometry says.
proof fn lemma_code_height(
    sc: Scene,
    line: Option<LineModel>,
    width: nat,
    selected: bool,
    stacked: bool,
    ranges: Seq<Range>,
    highlight: Option<Seq<char>>,
)
    requires
        is_coloured(line, highlight, sc.ansi, sc.palette),
        number_fits(line, sc.digits),
    ensures
        code_lines(sc, line, width, selected, stacked, ranges, highlight).len()
            == crate::tui::optional_rows(
            line,
            width,
            if stacked {
                sc.digits + 5
            } else {
                sc.digits + 4
            },
        ),
{
    if let Some(l) = line {
        lemma_prefix_width(sc.comments, sc.file.path, l, sc.target, sc.digits, stacked);
        let prefix = line_prefix(sc.comments, sc.file.path, l, sc.target, sc.digits, stacked);
        let (first, continuation) = crate::tui::text_columns(width, text_width(prefix), l.text);
        lemma_text_wraps_the_same(
            l,
            selected,
            ranges,
            highlight,
            sc.ansi,
            sc.palette,
            first,
            continuation,
        );
    }
}

/// A row takes as many lines of the screen as the geometry says, whatever its
/// colours.
pub proof fn law_row_matches_geometry(m: FrameModel, k: int, width: nat, hl: HighlightModel)
    requires
        m.state.active_file < m.files.len(),
        0 <= k < rows_of(m.files, m.state).len(),
        row_coloured(rows_of(m.files, m.state)[k], hl, m.ansi, m.palette),
    ensures
        row_lines(scene(m), k, width, hl).len() == row_rows(
            rows_of(m.files, m.state)[k],
            digits_of(active(m)),
            width,
        ),
{
    let sc = scene(m);
    let f = active(m);
    let row = sc.rows[k];
    let inner = minus(width, CURSOR_GUTTER as nat);
    let selected = k == sc.state.cursor_row || crate::tui::row_selected(sc.state, k as usize);
    assert forall|x: LineModel|
        row.line == Some(x) || row.left == Some(x) || row.right == Some(x) implies number_fits(
        Some(x),
        sc.digits,
    ) by {
        lemma_row_shows_file_lines(f, setting_of(m.state), k, x);
        lemma_number_at_most(all_lines(f), x);
        if let Some(n) = number_of(x) {
            lemma_decimal_grows(n as nat, max_lineno(all_lines(f)));
        }
    }
    match row.kind {
        RowKind::StackedCode | RowKind::FileMeta => {
            lemma_code_height(sc, row.line, inner, selected, true, seq![], hl.line);
        },
        RowKind::SplitCode => {
            if inner < 32 {
                if row.right is Some {
                    lemma_code_height(sc, row.right, inner, selected, true, seq![], hl.right);
                } else {
                    lemma_code_height(sc, row.left, inner, selected, true, seq![], hl.left);
                }
            } else {
                let left = (inner - 3) as nat / 2;
                let right = (inner - 3 - left) as nat;
                let ranges = pair_ranges(row);
                lemma_code_height(sc, row.left, left, selected, false, ranges.0, hl.left);
                lemma_code_height(sc, row.right, right, selected, false, ranges.1, hl.right);
            }
        },
        _ => {},
    }
}

// ---------------------------------------------------------------------------
// The rows that are drawn
// ---------------------------------------------------------------------------

/// The lines that the rows from the first visible one to before `k` take, once
/// the row `k` has been added.
pub proof fn lemma_lines_grow(m: FrameModel, k: int)
    requires
        m.state.active_file < m.files.len(),
        m.state.scroll_row <= k < rows_of(m.files, m.state).len(),
        rows_coloured(
            rows_of(m.files, m.state),
            m.state.scroll_row as int,
            m.highlights,
            m.ansi,
            m.palette,
        ),
    ensures
        ({
            let width = m.layout.main_width as nat;
            let skip = if k == m.state.scroll_row {
                m.state.scroll_line as nat
            } else {
                0
            };
            lines_up_to(scene(m), m.highlights, width, k + 1).len() == lines_up_to(
                scene(m),
                m.highlights,
                width,
                k,
            ).len() + minus(heights(m.files, m.state, m.layout)[k], skip)
        }),
{
    let rows = rows_of(m.files, m.state);
    let first = m.state.scroll_row as int;
    let hl = highlight_at(m.highlights, k - first);
    if k - first < m.highlights.len() {
        assert(row_coloured(rows[first + (k - first)], m.highlights[k - first], m.ansi, m.palette));
    }
    law_row_matches_geometry(m, k, m.layout.main_width as nat, hl);
}

/// The rows that count as drawn are those that fill the body: a row is drawn
/// while there is room, and behind the last one the body is full or there are
/// no more rows.
pub proof fn law_drawn_rows_fill(m: FrameModel, k: int)
    requires
        m.state.active_file < m.files.len(),
        rows_coloured(
            rows_of(m.files, m.state),
            m.state.scroll_row as int,
            m.highlights,
            m.ansi,
            m.palette,
        ),
        m.layout.body_height >= 1,
        m.state.scroll_row <= k < rows_of(m.files, m.state).len(),
    ensures
        k < drawn_end(m.files, m.state, m.layout) <==> lines_up_to(
            scene(m),
            m.highlights,
            m.layout.main_width as nat,
            k,
        ).len() < m.layout.body_height,
{
    let first = m.state.scroll_row as int;
    let width = m.layout.main_width as nat;
    lemma_nothing_up_to(scene(m), m.highlights, width, first);
    lemma_drawn_from(m, first, m.state.scroll_line as nat, m.layout.body_height as nat, k);
}

proof fn lemma_drawn_from(m: FrameModel, i: int, skip: nat, room: nat, k: int)
    requires
        m.state.active_file < m.files.len(),
        rows_coloured(
            rows_of(m.files, m.state),
            m.state.scroll_row as int,
            m.highlights,
            m.ansi,
            m.palette,
        ),
        m.state.scroll_row <= i <= k < rows_of(m.files, m.state).len(),
        skip == (if i == m.state.scroll_row {
            m.state.scroll_line as nat
        } else {
            0
        }),
        room >= 1,
        lines_up_to(scene(m), m.highlights, m.layout.main_width as nat, i).len() + room
            == m.layout.body_height,
    ensures
        k < drawn_until(heights(m.files, m.state, m.layout), i, skip, room) <==> lines_up_to(
            scene(m),
            m.highlights,
            m.layout.main_width as nat,
            k,
        ).len() < m.layout.body_height,
    decreases k - i,
{
    let hs = heights(m.files, m.state, m.layout);
    lemma_lines_grow(m, i);
    if i < k {
        if minus(hs[i], skip) >= room {
            lemma_lines_monotone(m, i + 1, k);
        } else {
            lemma_drawn_from(m, i + 1, 0, (room - minus(hs[i], skip)) as nat, k);
        }
    } else {
        lemma_drawn_until(
            hs,
            i + 1,
            0,
            minus(room, minus(hs[i], skip)),
        );
    }
}

proof fn lemma_lines_monotone(m: FrameModel, i: int, k: int)
    requires
        m.state.active_file < m.files.len(),
        rows_coloured(
            rows_of(m.files, m.state),
            m.state.scroll_row as int,
            m.highlights,
            m.ansi,
            m.palette,
        ),
        m.state.scroll_row <= i <= k <= rows_of(m.files, m.state).len(),
    ensures
        lines_up_to(scene(m), m.highlights, m.layout.main_width as nat, i).len() <= lines_up_to(
            scene(m),
            m.highlights,
            m.layout.main_width as nat,
            k,
        ).len(),
    decreases k - i,
{
    if i < k {
        lemma_lines_monotone(m, i, k - 1);
        lemma_lines_grow(m, k - 1);
    }
}

/// Once the sides that are needed have been loaded, and none has gone, no side
/// is needed any more.
pub proof fn law_loaded_sides_suffice(
    before: Seq<EntryModel>,
    after: Seq<EntryModel>,
    file: usize,
    rows: Seq<RowModel>,
    main_width: nat,
    first: int,
    end: int,
)
    requires
        forall|side: FileSide| #[trigger]
            entry_for(before, file, side, 0) is Some ==> entry_for(after, file, side, 0) is Some,
        forall|side: FileSide| #[trigger]
            sides_needed(before, file, rows, main_width, first, end).contains(side) ==> entry_for(
                after,
                file,
                side,
                0,
            ) is Some,
    ensures
        sides_needed(after, file, rows, main_width, first, end) == Seq::<FileSide>::empty(),
    decreases end - first,
{
    if first < end {
        let v = sides_needed(before, file, rows, main_width, first, end - 1);
        let r = drawn(rows[end - 1], main_width);
        let a = with_side(v, before, file, r.line);
        let b = with_side(a, before, file, r.left);
        let c = with_side(b, before, file, r.right);
        assert(c == sides_needed(before, file, rows, main_width, first, end));
        lemma_with_side(v, before, file, r.line);
        lemma_with_side(a, before, file, r.left);
        lemma_with_side(b, before, file, r.right);
        law_loaded_sides_suffice(before, after, file, rows, main_width, first, end - 1);
    }
}

proof fn lemma_with_side(
    v: Seq<FileSide>,
    cache: Seq<EntryModel>,
    file: usize,
    l: Option<LineModel>,
)
    ensures
        forall|side: FileSide| #[trigger]
            v.contains(side) ==> with_side(v, cache, file, l).contains(side),
        colour_side(l) matches Some(side) ==> entry_for(cache, file, side, 0) is Some
            || with_side(v, cache, file, l).contains(side),
{
    let w = with_side(v, cache, file, l);
    assert forall|side: FileSide| #[trigger] v.contains(side) implies w.contains(side) by {
        let k = choose|k: int| 0 <= k < v.len() && v[k] == side;
        assert(w[k] == side);
    }
    if let Some(side) = colour_side(l) {
        if entry_for(cache, file, side, 0) is None && !v.contains(side) {
            assert(w[w.len() - 1] == side);
        }
    }
}

// ---------------------------------------------------------------------------
// Widths
// ---------------------------------------------------------------------------

/// A text that can be sent to the terminal as it is: it is exactly so wide,
/// holds no command but styling, and without colours no control at all.
pub open spec fn presentable(s: Seq<char>, width: nat, ansi: Ansi) -> bool {
    &&& clean_text_seq(s)
    &&& text_width(s) == width
    &&& !ansi.enabled ==> forall|k: int| 0 <= k < s.len() ==> !is_control(#[trigger] s[k])
}

proof fn lemma_cell_presentable(
    text: Seq<char>,
    width: nat,
    ansi: Ansi,
    bg: Seq<char>,
    fg: Seq<char>,
)
    ensures
        presentable(cell(text, width, ansi, bg, fg), width, ansi),
{
    law_cell_width(text, width, ansi, bg, fg);
    if !ansi.enabled {
        law_plain_has_no_control(crate::tui_text::fitted(text, width));
    }
}

proof fn lemma_presentable_concat(a: Seq<char>, b: Seq<char>, m: nat, n: nat, ansi: Ansi)
    requires
        presentable(a, m, ansi),
        presentable(b, n, ansi),
    ensures
        presentable(a + b, m + n, ansi),
{
    lemma_clean_concat(a, b);
}

spec fn all_presentable(rows: Seq<Seq<char>>, width: nat, ansi: Ansi) -> bool {
    forall|k: int| 0 <= k < rows.len() ==> presentable(#[trigger] rows[k], width, ansi)
}

proof fn lemma_code_presentable(
    sc: Scene,
    line: Option<LineModel>,
    width: nat,
    selected: bool,
    stacked: bool,
    ranges: Seq<Range>,
    highlight: Option<Seq<char>>,
)
    ensures
        all_presentable(
            code_lines(sc, line, width, selected, stacked, ranges, highlight),
            width,
            sc.ansi,
        ),
{
    let rows = code_lines(sc, line, width, selected, stacked, ranges, highlight);
    assert forall|k: int| 0 <= k < rows.len() implies presentable(
        #[trigger] rows[k],
        width,
        sc.ansi,
    ) by {
        match line {
            Some(l) => {
                let prefix = line_prefix(
                    sc.comments,
                    sc.file.path,
                    l,
                    sc.target,
                    sc.digits,
                    stacked,
                );
                let text = line_text(l, selected, ranges, highlight, sc.ansi, sc.palette);
                let (first, continuation) = crate::tui::text_columns(
                    width,
                    text_width(prefix),
                    l.text,
                );
                let indent = crate::tui::continuation_indent(width, text_width(prefix), l.text);
                lemma_cell_presentable(
                    (if k == 0 {
                        prefix
                    } else {
                        spaces(indent)
                    }) + wrapped(text, first, continuation)[k],
                    width,
                    sc.ansi,
                    crate::tui_style::row_background(selected, l.kind, sc.palette),
                    crate::tui_style::row_foreground(l.kind, sc.palette),
                );
            },
            None => {
                lemma_cell_presentable(
                    ""@,
                    width,
                    sc.ansi,
                    crate::tui_style::row_background(
                        selected,
                        crate::diff::DiffLineKind::Context,
                        sc.palette,
                    ),
                    sc.palette.fg_muted.hex@,
                );
            },
        }
    }
}

proof fn lemma_pair_presentable(
    left: Seq<Seq<char>>,
    right: Seq<Seq<char>>,
    a: nat,
    b: nat,
    selected: bool,
    ansi: Ansi,
    palette: ThemeTokens,
)
    requires
        all_presentable(left, a, ansi),
        all_presentable(right, b, ansi),
    ensures
        all_presentable(side_by_side(left, right, a, b, selected, ansi, palette), a + 3 + b, ansi),
{
    let rows = side_by_side(left, right, a, b, selected, ansi, palette);
    let bg = crate::tui_style::row_background(
        selected,
        crate::diff::DiffLineKind::Context,
        palette,
    );
    let fg = palette.fg_default.hex@;
    let separator = cell(" │ "@, 3, ansi, palette.bg_default.hex@, palette.border.hex@);
    lemma_cell_presentable(" │ "@, 3, ansi, palette.bg_default.hex@, palette.border.hex@);
    lemma_cell_presentable(""@, a, ansi, bg, fg);
    lemma_cell_presentable(""@, b, ansi, bg, fg);
    assert forall|k: int| 0 <= k < rows.len() implies presentable(
        #[trigger] rows[k],
        a + 3 + b,
        ansi,
    ) by {
        let x = line_or(left, k, cell(""@, a, ansi, bg, fg));
        let y = line_or(right, k, cell(""@, b, ansi, bg, fg));
        assert(presentable(x, a, ansi));
        assert(presentable(y, b, ansi));
        lemma_presentable_concat(x, separator, a, 3, ansi);
        lemma_presentable_concat(x + separator, y, a + 3, b, ansi);
        assert(rows[k] == x + separator + y);
    }
}

proof fn lemma_inner_presentable(sc: Scene, k: int, width: nat, hl: HighlightModel)
    ensures
        all_presentable(inner_lines(sc, k, width, hl), width, sc.ansi),
{
    let row = sc.rows[k];
    let selected = k == sc.state.cursor_row || crate::tui::row_selected(sc.state, k as usize);
    match row.kind {
        RowKind::FileHeader => {
            lemma_cell_presentable(
                crate::tui_render::file_heading(sc),
                width,
                sc.ansi,
                if selected {
                    sc.palette.bg_selected.hex@
                } else {
                    sc.palette.bg_panel.hex@
                },
                sc.palette.fg_default.hex@,
            );
        },
        RowKind::HunkHeader => {
            lemma_panel_presentable(
                match row.hunk_header {
                    Some(h) => h,
                    None => ""@,
                },
                width,
                selected,
                sc.ansi,
                sc.palette,
            );
        },
        RowKind::Fold => {
            lemma_panel_presentable(
                crate::tui_render::fold_heading(row),
                width,
                selected,
                sc.ansi,
                sc.palette,
            );
        },
        RowKind::StackedCode | RowKind::FileMeta => {
            lemma_code_presentable(sc, row.line, width, selected, true, seq![], hl.line);
        },
        RowKind::SplitCode => {
            if width < 32 {
                lemma_code_presentable(sc, row.right, width, selected, true, seq![], hl.right);
                lemma_code_presentable(sc, row.left, width, selected, true, seq![], hl.left);
            } else {
                let left = (width - 3) as nat / 2;
                let right = (width - 3 - left) as nat;
                let ranges = pair_ranges(row);
                lemma_code_presentable(sc, row.left, left, selected, false, ranges.0, hl.left);
                lemma_code_presentable(sc, row.right, right, selected, false, ranges.1, hl.right);
                lemma_pair_presentable(
                    code_lines(sc, row.left, left, selected, false, ranges.0, hl.left),
                    code_lines(sc, row.right, right, selected, false, ranges.1, hl.right),
                    left,
                    right,
                    selected,
                    sc.ansi,
                    sc.palette,
                );
            }
        },
    }
}

proof fn lemma_panel_presentable(
    text: Seq<char>,
    width: nat,
    selected: bool,
    ansi: Ansi,
    palette: ThemeTokens,
)
    ensures
        presentable(panel_text(text, width, selected, ansi, palette), width, ansi),
{
    lemma_cell_presentable(
        cleaned(text, false),
        width,
        ansi,
        if selected {
            palette.bg_selected.hex@
        } else {
            palette.bg_panel.hex@
        },
        palette.fg_muted.hex@,
    );
}

/// Every line of a row is exactly as wide as it was asked to be.
pub proof fn law_row_width(sc: Scene, k: int, width: nat, hl: HighlightModel)
    ensures
        forall|i: int|
            0 <= i < row_lines(sc, k, width, hl).len() ==> presentable(
                #[trigger] row_lines(sc, k, width, hl)[i],
                width,
                sc.ansi,
            ),
{
    let rest = minus(width, CURSOR_GUTTER as nat);
    let columns = gutter_columns(width);
    let inner = inner_lines(sc, k, rest, hl);
    lemma_inner_presentable(sc, k, rest, hl);
    assert forall|i: int| 0 <= i < row_lines(sc, k, width, hl).len() implies presentable(
        #[trigger] row_lines(sc, k, width, hl)[i],
        width,
        sc.ansi,
    ) by {
        let cursor = k == sc.state.cursor_row && sc.state.focus == crate::tui::Focus::Code && i
            == sc.state.cursor_line;
        lemma_cell_presentable(
            if cursor {
                "> "@
            } else if crate::tui::row_selected(sc.state, k as usize) {
                "| "@
            } else {
                "  "@
            },
            columns,
            sc.ansi,
            sc.palette.bg_panel.hex@,
            if cursor {
                sc.palette.fg_accent.hex@
            } else {
                sc.palette.fg_muted.hex@
            },
        );
        assert(presentable(inner[i], rest, sc.ansi));
        lemma_presentable_concat(gutter(sc, k, i, columns), inner[i], columns, rest, sc.ansi);
    }
}

proof fn lemma_lines_presentable(sc: Scene, hs: Seq<HighlightModel>, width: nat, k: int)
    ensures
        all_presentable(lines_up_to(sc, hs, width, k), width, sc.ansi),
    decreases k,
{
    let first = sc.state.scroll_row as int;
    if k > first && k > 0 {
        lemma_lines_presentable(sc, hs, width, k - 1);
        law_row_width(sc, k - 1, width, highlight_at(hs, k - 1 - first));
    }
}

proof fn lemma_main_presentable(m: FrameModel, y: int)
    requires
        y >= 0,
    ensures
        presentable(main_line(m, y), m.layout.main_width as nat, m.ansi),
{
    let width = m.layout.main_width as nat;
    let code = code_body(m);
    let comments = crate::tui_frame::dock_comments(
        m.comments,
        m.files,
        m.state,
        m.target,
        m.layout,
    );
    let body = m.layout.body_height as int;
    lemma_lines_presentable(
        scene(m),
        m.highlights,
        width,
        rows_of(m.files, m.state).len() as int,
    );
    lemma_cell_presentable(
        ""@,
        width,
        m.ansi,
        m.palette.bg_default.hex@,
        m.palette.fg_default.hex@,
    );
    lemma_cell_presentable(
        crate::tui_frame::dock_heading(m),
        width,
        m.ansi,
        m.palette.bg_selected.hex@,
        m.palette.fg_accent.hex@,
    );
    let i = m.state.comment_scroll + y - body - 1;
    lemma_cell_presentable(
        " "@ + (if i < comments.len() {
            comments[i]
        } else {
            ""@
        }),
        width,
        m.ansi,
        m.palette.bg_panel.hex@,
        m.palette.fg_default.hex@,
    );
    if y < body && y < code.len() {
        let all = lines_up_to(
            scene(m),
            m.highlights,
            width,
            rows_of(m.files, m.state).len() as int,
        );
        assert(code[y] == all[y]);
    }
}

proof fn lemma_file_line_presentable(m: FrameModel, y: int, start: int, width: nat)
    ensures
        presentable(file_line(m, y, start, width), width, m.ansi),
{
    let index = start + y - 1;
    let f = m.files[index];
    let badge = crate::tui_frame::badge_text(
        crate::tui_render::file_comments(m.comments, f.path, m.target),
    );
    let focused = m.state.focus == crate::tui::Focus::Files && index == m.state.file_cursor;
    lemma_panel_presentable(
        " FILES  "@ + decimal((m.state.file_cursor + 1) as nat) + "/"@ + decimal(m.files.len()),
        width,
        false,
        m.ansi,
        m.palette,
    );
    lemma_panel_presentable(""@, width, false, m.ansi, m.palette);
    lemma_panel_presentable(
        (if focused {
            ">"@
        } else if index == m.state.active_file {
            "*"@
        } else {
            " "@
        }) + f.status.label_text() + " "@ + (if m.marks[index] {
            "x"@
        } else {
            "."@
        }) + " "@ + crate::tui_text::fitted(
            cleaned(f.path, false),
            minus(width, 6 + text_width(badge)),
        ) + badge,
        width,
        focused,
        m.ansi,
        m.palette,
    );
}

proof fn lemma_body_presentable(m: FrameModel, y: int)
    requires
        layout_fits(m.layout),
        y >= 0,
    ensures
        presentable(body_line(m, y), m.layout.width as nat, m.ansi),
{
    let l = m.layout;
    let start = crate::tui_nav::tree_start(
        m.files.len(),
        m.state.file_cursor as nat,
        minus(l.height as nat, 2),
    ) as int;
    let side = l.sidebar_width as nat;
    lemma_panel_presentable(
        crate::tui_frame::help_text(m.state.help_scroll + y),
        l.width as nat,
        false,
        m.ansi,
        m.palette,
    );
    lemma_file_line_presentable(m, y, start, side);
    lemma_main_presentable(m, y);
    if !m.state.help && !l.sidebar_overlay && side > 0 {
        let bar = panel_text("│"@, 1, false, m.ansi, m.palette);
        lemma_panel_presentable("│"@, 1, false, m.ansi, m.palette);
        let file = file_line(m, y, start, side);
        lemma_presentable_concat(file, bar, side, 1, m.ansi);
        lemma_presentable_concat(
            file + bar,
            main_line(m, y),
            side + 1,
            l.main_width as nat,
            m.ansi,
        );
    }
}

/// Every frame fills the screen exactly: it has as many rows as the screen, and
/// each row is as wide as the screen, holds no command but styling, and without
/// colours no control character at all.
pub proof fn law_frame_fills_screen(m: FrameModel)
    requires
        layout_fits(m.layout),
    ensures
        frame_lines(m).len() == m.layout.height,
        forall|k: int|
            0 <= k < frame_lines(m).len() ==> presentable(
                #[trigger] frame_lines(m)[k],
                m.layout.width as nat,
                m.ansi,
            ),
{
    let width = m.layout.width as nat;
    let lines = frame_lines(m);
    assert forall|k: int| 0 <= k < lines.len() implies presentable(
        #[trigger] lines[k],
        width,
        m.ansi,
    ) by {
        if k == 0 {
            lemma_panel_presentable(status_text(m), width, false, m.ansi, m.palette);
        } else if k < lines.len() - 1 {
            lemma_body_presentable(m, k - 1);
            assert(lines[k] == body_line(m, k - 1));
        } else {
            lemma_panel_presentable(footer_text(m), width, false, m.ansi, m.palette);
        }
    }
}

} // verus!

//! The colours on which a drawn line of code stands.
use vstd::prelude::*;
use crate::diff::{DiffLineKind, LineModel};
use crate::inline_diff::Range;
use crate::syntax::{highlighted_line, law_highlight_keeps_text, lemma_plain_pieces, no_introducer};
use crate::theme::{Ansi, ThemeTokens};
use crate::tui::{continuation_indent, minus, row_selected, text_columns, CURSOR_GUTTER};
use crate::tui_colour_laws::{
    law_colour_sequences, lemma_colour_pieces, lemma_highlight_paint, lemma_inlined_paint,
    lemma_no_paint, lemma_paint_add, lemma_reset_pieces, lemma_wrapped_paint, is_paint, only_paint,
    Paint,
};
use crate::tui_frame::is_coloured;
use crate::tui_frame_laws::{lemma_prefix_printable, lemma_printable_width, printable};
use crate::tui_render::{
    code_lines, gutter, gutter_columns, inner_lines, line_prefix, line_text, row_lines, safe_text,
    HighlightModel, Scene,
};
use crate::tui_style::{
    cell, lemma_escapes_invisible, lemma_fitted_all_clean, lemma_one_piece, lemma_styling_concat,
    restored, styling_only,
};
use crate::tui_text::{
    all_clean, all_tame, clean_piece, clean_text_seq, cleaned, fitted, fitted_pieces, introducer,
    is_control, kept_pieces, law_plain_has_no_control, lemma_clean_concat, lemma_fitted_clean,
    lemma_kept_clean, lemma_plain_kept, lemma_reparse, piece_text, pieces, spaces, text_width, Piece,
};
use crate::tui_view::RowKind;
use crate::tui_wrap::{lemma_kept_add, plain_style, styled, styled_by, wrapped, SgrModel};

verus! {

// ---------------------------------------------------------------------------
// Cells
// ---------------------------------------------------------------------------

/// The styling that is in force where a piece of a text stands.
pub open spec fn in_force(s: Seq<char>, k: int) -> SgrModel {
    styled_by(plain_style(), pieces(s).take(k))
}

spec fn restored_pieces(ps: Seq<Piece>, reset: Seq<char>, code: Seq<Piece>) -> Seq<Piece>
    decreases ps.len(),
{
    if ps.len() == 0 {
        seq![]
    } else {
        restored_pieces(ps.drop_last(), reset, code).push(ps.last()) + if ps.last()
            == Piece::Escape(reset) {
            code
        } else {
            seq![]
        }
    }
}

proof fn lemma_restored_pieces(ps: Seq<Piece>, reset: Seq<char>, code: Seq<char>)
    requires
        all_clean(ps),
        styling_only(code),
    ensures
        pieces(restored(ps, reset, code)) == restored_pieces(ps, reset, pieces(code)),
        clean_text_seq(restored(ps, reset, code)),
    decreases ps.len(),
{
    if ps.len() > 0 {
        let t = ps.drop_last();
        let p = ps.last();
        assert forall|k: int| 0 <= k < t.len() implies clean_piece(#[trigger] t[k]) by {
            assert(t[k] == ps[k]);
            assert(clean_piece(ps[k]));
        }
        assert(clean_piece(ps[ps.len() - 1]));
        lemma_restored_pieces(t, reset, code);
        lemma_one_piece(p);
        let before = restored(t, reset, code);
        lemma_clean_concat(before, piece_text(p));
        let extra = if p == Piece::Escape(reset) {
            code
        } else {
            Seq::empty()
        };
        lemma_clean_concat(before + piece_text(p), extra);
        assert(pieces(before) + seq![p] =~= pieces(before).push(p));
        assert(pieces(restored(ps, reset, code)) =~= restored_pieces(ps, reset, pieces(code)));
    }
}

pub proof fn lemma_styled_by_add(m: SgrModel, a: Seq<Piece>, b: Seq<Piece>)
    ensures
        styled_by(m, a + b) == styled_by(styled_by(m, a), b),
    decreases b.len(),
{
    if b.len() == 0 {
        assert(a + b =~= a);
    } else {
        assert((a + b).drop_last() =~= a + b.drop_last());
        lemma_styled_by_add(m, a, b.drop_last());
    }
}

/// A styling that shows the colours of a line: its background, or that of its
/// marked parts where it has any; and its foreground, where its tokens have
/// none of their own.
#[verifier::opaque]
pub open spec fn stands(p: Paint, m: SgrModel, fg: Seq<char>) -> bool {
    &&& m.bg == p.ansi.bg_text(p.base) || (p.parts && m.bg == p.ansi.bg_text(p.inline))
    &&& !p.tokens ==> m.fg == p.ansi.fg_text(fg)
}

spec fn cell_code(p: Paint, fg: Seq<char>) -> Seq<Piece> {
    seq![Piece::Escape(p.ansi.bg_text(p.base)), Piece::Escape(p.ansi.fg_text(fg))]
}

proof fn lemma_code_stands(p: Paint, fg: Seq<char>, m: SgrModel)
    requires
        p.ansi.bg_text(p.base).len() > 0,
        p.ansi.fg_text(fg).len() > 0,
    ensures
        styled_by(m, cell_code(p, fg)).bg == p.ansi.bg_text(p.base),
        styled_by(m, cell_code(p, fg)).fg == p.ansi.fg_text(fg),
{
    let code = cell_code(p, fg);
    let one = code.drop_last();
    assert(one =~= seq![Piece::Escape(p.ansi.bg_text(p.base))]);
    assert(one.drop_last() =~= Seq::<Piece>::empty());
    assert(styled_by(m, one.drop_last()) == m);
    law_colour_sequences(m, p.ansi, p.base);
    assert(styled_by(m, one) == styled(m, p.ansi.bg_text(p.base)));
    law_colour_sequences(styled_by(m, one), p.ansi, fg);
}

/// Paint other than the reset leaves a styling that shows the colours.
proof fn lemma_paint_stands(p: Paint, m: SgrModel, e: Seq<char>, fg: Seq<char>)
    requires
        is_paint(p, e),
        e != p.ansi.reset_text(),
        stands(p, m, fg),
    ensures
        stands(p, styled(m, e), fg),
{
    reveal(stands);
    if p.tokens && crate::tui_colour_laws::is_foreground(p.ansi, e) {
        let hex = choose|hex: Seq<char>| e == #[trigger] p.ansi.fg_text(hex);
        law_colour_sequences(m, p.ansi, hex);
    } else if e == p.ansi.bg_text(p.base) {
        law_colour_sequences(m, p.ansi, p.base);
    } else {
        law_colour_sequences(m, p.ansi, p.inline);
    }
}

/// One more piece that is no reset.
proof fn lemma_push_stands(p: Paint, m: SgrModel, before: Seq<Piece>, last: Piece, fg: Seq<char>)
    requires
        stands(p, styled_by(m, before), fg),
        last is Escape ==> is_paint(p, last->Escape_0) && last->Escape_0 != p.ansi.reset_text(),
    ensures
        stands(p, styled_by(m, before.push(last)), fg),
{
    let own = before.push(last);
    assert(own.drop_last() =~= before);
    if let Piece::Escape(e) = last {
        lemma_paint_stands(p, styled_by(m, before), e, fg);
        assert(styled_by(m, own) == styled(styled_by(m, before), e));
    } else {
        assert(styled_by(m, own) == styled_by(m, before));
    }
}

/// The code of a cell, whatever was in force.
proof fn lemma_code_after(p: Paint, m: SgrModel, before: Seq<Piece>, fg: Seq<char>)
    requires
        p.ansi.bg_text(p.base).len() > 0,
        p.ansi.fg_text(fg).len() > 0,
    ensures
        stands(p, styled_by(m, before + cell_code(p, fg)), fg),
{
    reveal(stands);
    lemma_styled_by_add(m, before, cell_code(p, fg));
    lemma_code_stands(p, fg, styled_by(m, before));
}

proof fn lemma_walk(p: Paint, ps: Seq<Piece>, fg: Seq<char>, m: SgrModel)
    requires
        only_paint(p, ps),
        stands(p, m, fg),
        p.ansi.bg_text(p.base).len() > 0,
        p.ansi.fg_text(fg).len() > 0,
    ensures
        ({
            let q = restored_pieces(ps, p.ansi.reset_text(), cell_code(p, fg));
            &&& stands(p, styled_by(m, q), fg)
            &&& forall|k: int|
                0 <= k < q.len() && (#[trigger] q[k]) is Character ==> stands(
                    p,
                    styled_by(m, q.take(k)),
                    fg,
                )
        }),
    decreases ps.len(),
{
    let reset = p.ansi.reset_text();
    let code = cell_code(p, fg);
    let q = restored_pieces(ps, reset, code);
    if ps.len() > 0 {
        let t = ps.drop_last();
        assert forall|k: int| 0 <= k < t.len() && (#[trigger] t[k]) is Escape implies is_paint(
            p,
            t[k]->Escape_0,
        ) by {
            assert(t[k] == ps[k]);
        }
        lemma_walk(p, t, fg, m);
        let before = restored_pieces(t, reset, code);
        let last = ps.last();
        assert(ps[ps.len() - 1] == last);
        let own = before.push(last);
        if last == Piece::Escape(reset) {
            assert(q == own + code);
            lemma_code_after(p, m, own, fg);
        } else {
            assert(q =~= own);
            lemma_push_stands(p, m, before, last, fg);
        }
        assert forall|k: int| 0 <= k < q.len() && (#[trigger] q[k]) is Character implies stands(
            p,
            styled_by(m, q.take(k)),
            fg,
        ) by {
            if k < before.len() {
                assert(q.take(k) =~= before.take(k));
                assert(q[k] == before[k]);
            } else if k == before.len() {
                assert(q.take(k) =~= before);
            } else {
                assert(q[k] == code[k - own.len()]);
            }
        }
    } else {
        assert(q =~= Seq::<Piece>::empty());
        assert(styled_by(m, q) == m);
    }
}

/// Every character of a cell stands on the colours of the cell, whatever was
/// in force before it.
pub proof fn lemma_cell_stands(p: Paint, text: Seq<char>, width: nat, fg: Seq<char>, m: SgrModel)
    requires
        p.ansi.enabled,
        p.ansi.bg_text(p.base).len() > 0,
        p.ansi.fg_text(fg).len() > 0,
        only_paint(p, pieces(fitted(text, width))),
    ensures
        ({
            let q = pieces(cell(text, width, p.ansi, p.base, fg));
            &&& clean_text_seq(cell(text, width, p.ansi, p.base, fg))
            &&& forall|k: int|
                0 <= k < q.len() && (#[trigger] q[k]) is Character ==> stands(
                    p,
                    styled_by(m, q.take(k)),
                    fg,
                )
        }),
{
    let ansi = p.ansi;
    let reset = ansi.reset_text();
    let bgt = ansi.bg_text(p.base);
    let fgt = ansi.fg_text(fg);
    let code = bgt + fgt;
    lemma_colour_pieces(ansi, 48, p.base);
    lemma_colour_pieces(ansi, 38, fg);
    lemma_clean_concat(bgt, fgt);
    lemma_styling_concat(bgt, fgt);
    lemma_reset_pieces(ansi);
    let head = cell_code(p, fg);
    assert(pieces(code) =~= head);
    let ps = pieces(fitted(text, width));
    lemma_fitted_all_clean(text, width);
    lemma_restored_pieces(ps, reset, code);
    let body = restored_pieces(ps, reset, head);
    let inner = restored(ps, reset, code);
    lemma_clean_concat(code, inner);
    lemma_clean_concat(code + inner, reset);
    let q = pieces(cell(text, width, ansi, p.base, fg));
    assert(q =~= head + body + seq![Piece::Escape(reset)]);
    lemma_code_stands(p, fg, m);
    let after = styled_by(m, head);
    assert(stands(p, after, fg)) by {
        reveal(stands);
    }
    lemma_walk(p, ps, fg, after);
    assert forall|k: int| 0 <= k < q.len() && (#[trigger] q[k]) is Character implies stands(
        p,
        styled_by(m, q.take(k)),
        fg,
    ) by {
        if k < 2 {
            assert(q[k] == head[k]);
        } else if k - 2 < body.len() {
            assert(q[k] == body[k - 2]);
            assert(q.take(k) =~= head + body.take(k - 2));
            lemma_styled_by_add(m, head, body.take(k - 2));
        }
    }
}

proof fn lemma_kept_restored(ps: Seq<Piece>, reset: Seq<char>, code: Seq<Piece>)
    requires
        forall|k: int| 0 <= k < code.len() ==> (#[trigger] code[k]) is Escape,
    ensures
        kept_pieces(restored_pieces(ps, reset, code), false) == kept_pieces(ps, false),
    decreases ps.len(),
{
    if ps.len() > 0 {
        let t = ps.drop_last();
        let last = seq![ps.last()];
        lemma_kept_restored(t, reset, code);
        lemma_escapes_invisible(code);
        let before = restored_pieces(t, reset, code);
        lemma_kept_add(before, last, false);
        lemma_kept_add(before + last, code, false);
        lemma_kept_add(t, last, false);
        assert(before.push(ps.last()) =~= before + last);
        assert(ps =~= t + last);
        let kept = kept_pieces(before + last, false);
        assert(kept + Seq::<Piece>::empty() =~= kept);
        assert(before.push(ps.last()) + Seq::<Piece>::empty() =~= before.push(ps.last()));
    }
}

/// Without its styling a cell reads as the text that is fitted into it.
pub proof fn law_cell_text(text: Seq<char>, width: nat, ansi: Ansi, bg: Seq<char>, fg: Seq<char>)
    ensures
        cleaned(cell(text, width, ansi, bg, fg), false) == cleaned(fitted(text, width), false),
{
    let f = fitted(text, width);
    let ps = pieces(f);
    lemma_fitted_all_clean(text, width);
    if !ansi.enabled {
        lemma_kept_clean(ps, false);
        let plain = kept_pieces(ps, false);
        lemma_reparse(plain);
        lemma_plain_kept(plain);
    } else {
        let bgt = ansi.bg_text(bg);
        let fgt = ansi.fg_text(fg);
        let reset = ansi.reset_text();
        let code = bgt + fgt;
        lemma_colour_pieces(ansi, 48, bg);
        lemma_colour_pieces(ansi, 38, fg);
        lemma_clean_concat(bgt, fgt);
        lemma_styling_concat(bgt, fgt);
        lemma_reset_pieces(ansi);
        lemma_restored_pieces(ps, reset, code);
        let inner = restored(ps, reset, code);
        lemma_clean_concat(code, inner);
        lemma_clean_concat(code + inner, reset);
        lemma_kept_restored(ps, reset, pieces(code));
        lemma_escapes_invisible(pieces(code));
        lemma_escapes_invisible(pieces(reset));
        lemma_kept_add(pieces(code), pieces(inner), false);
        lemma_kept_add(pieces(code + inner), pieces(reset), false);
        let kept = kept_pieces(ps, false);
        assert(Seq::<Piece>::empty() + kept + Seq::<Piece>::empty() =~= kept);
    }
}

proof fn lemma_fitted_paint(p: Paint, ps: Seq<Piece>, room: nat)
    requires
        only_paint(p, ps),
    ensures
        only_paint(p, fitted_pieces(ps, room)),
    decreases ps.len(),
{
    if ps.len() > 0 {
        let t = ps.skip(1);
        assert forall|k: int| 0 <= k < t.len() && (#[trigger] t[k]) is Escape implies is_paint(
            p,
            t[k]->Escape_0,
        ) by {
            assert(t[k] == ps[k + 1]);
        }
        match ps[0] {
            Piece::Escape(e) => {
                lemma_fitted_paint(p, t, room);
                let own = if crate::tui_text::sgr(e) {
                    seq![ps[0]]
                } else {
                    seq![]
                };
                assert(only_paint(p, own));
                lemma_paint_add(p, own, fitted_pieces(t, room));
            },
            Piece::Character(c) => {
                let shown = if is_control(c) {
                    ' '
                } else {
                    c
                };
                let w = crate::tui_text::cell_width(shown);
                if w <= room {
                    lemma_fitted_paint(p, t, (room - w) as nat);
                    lemma_paint_add(
                        p,
                        seq![Piece::Character(shown)],
                        fitted_pieces(t, (room - w) as nat),
                    );
                }
            },
        }
    }
}

proof fn lemma_fitted_text_paint(p: Paint, text: Seq<char>, width: nat)
    requires
        only_paint(p, pieces(text)),
    ensures
        only_paint(p, pieces(fitted(text, width))),
{
    if width > 0 {
        lemma_fitted_clean(pieces(text), width);
        lemma_reparse(fitted_pieces(pieces(text), width));
        lemma_fitted_paint(p, pieces(text), width);
    }
}

// ---------------------------------------------------------------------------
// Lines of code
// ---------------------------------------------------------------------------

/// The background of a line of code: green for an addition and red for a
/// deletion, darker where it is not selected.
pub open spec fn ground(selected: bool, kind: DiffLineKind, t: ThemeTokens) -> Seq<char> {
    if kind == DiffLineKind::Add {
        if selected {
            "#285343"@
        } else {
            t.diff_add_bg.hex@
        }
    } else if kind == DiffLineKind::Delete {
        if selected {
            "#562932"@
        } else {
            t.diff_del_bg.hex@
        }
    } else if selected {
        t.bg_selected.hex@
    } else {
        t.bg_default.hex@
    }
}

/// The background of the changed parts of a line.
pub open spec fn part_ground(selected: bool, kind: DiffLineKind) -> Seq<char> {
    if kind == DiffLineKind::Add {
        if selected {
            "#3c7a5a"@
        } else {
            "#2f6f4f"@
        }
    } else if kind == DiffLineKind::Delete {
        if selected {
            "#874151"@
        } else {
            "#74303d"@
        }
    } else {
        "#45475a"@
    }
}

/// The foreground of a line.
pub open spec fn ink(kind: DiffLineKind, t: ThemeTokens) -> Seq<char> {
    match kind {
        DiffLineKind::Add => t.diff_add_fg.hex@,
        DiffLineKind::Delete => t.diff_del_fg.hex@,
        DiffLineKind::Context => t.diff_context_fg.hex@,
        DiffLineKind::Meta => t.fg_muted.hex@,
    }
}

pub open spec fn line_paint(
    l: LineModel,
    selected: bool,
    ranges: Seq<Range>,
    highlight: Option<Seq<char>>,
    ansi: Ansi,
    t: ThemeTokens,
) -> Paint {
    Paint {
        ansi,
        base: ground(selected, l.kind, t),
        inline: part_ground(selected, l.kind),
        tokens: highlight is Some,
        parts: ranges.len() > 0,
    }
}

proof fn lemma_uncontrolled(s: Seq<char>)
    requires
        forall|k: int| 0 <= k < s.len() ==> !is_control(#[trigger] s[k]) || s[k] == '\t',
    ensures
        no_introducer(s),
{
    assert forall|k: int| 0 <= k < s.len() implies !introducer(#[trigger] s[k]) by {
        assert(!is_control(s[k]) || s[k] == '\t');
    }
}

proof fn lemma_line_paint(
    l: LineModel,
    selected: bool,
    ranges: Seq<Range>,
    highlight: Option<Seq<char>>,
    ansi: Ansi,
    t: ThemeTokens,
)
    requires
        ansi.enabled,
        is_coloured(Some(l), highlight, ansi, t),
    ensures
        only_paint(
            line_paint(l, selected, ranges, highlight, ansi, t),
            pieces(line_text(l, selected, ranges, highlight, ansi, t)),
        ),
{
    let p = line_paint(l, selected, ranges, highlight, ansi, t);
    let plain = cleaned(l.text, false);
    law_plain_has_no_control(l.text);
    lemma_uncontrolled(plain);
    lemma_no_paint(p, plain);
    lemma_plain_pieces(plain);
    if safe_text(l.text) {
        lemma_uncontrolled(l.text);
        let source = if highlight is Some {
            highlight->0
        } else {
            plain
        };
        if highlight is Some {
            let spans = choose|spans: Seq<crate::syntax::HighlightSpan>| #[trigger]
                highlighted_line(l.text, spans, ansi, t) == highlight->0;
            law_highlight_keeps_text(l.text, spans, ansi, t);
            lemma_no_paint(p, l.text);
            lemma_highlight_paint(p, l.text, spans, t, 0, 0);
        }
        assert(only_paint(p, pieces(source)));
        assert(all_tame(pieces(source)));
        if ranges.len() > 0 {
            lemma_inlined_paint(p, source, ranges, 0, 0, false);
        }
    }
}

/// Every character of a drawn line of code stands on the background of its
/// kind: an added line on that of additions and never on that of deletions,
/// and the other way round; only changed parts stand on a background of their
/// own, that of the same kind.  Where the tokens of the line have no colours,
/// it is written in the foreground of its kind.
pub proof fn law_line_stands_on_its_colours(
    sc: Scene,
    l: LineModel,
    width: nat,
    selected: bool,
    stacked: bool,
    ranges: Seq<Range>,
    highlight: Option<Seq<char>>,
    i: int,
    k: int,
    m: SgrModel,
)
    requires
        sc.ansi.enabled,
        sc.ansi.bg_text(ground(selected, l.kind, sc.palette)).len() > 0,
        sc.ansi.fg_text(ink(l.kind, sc.palette)).len() > 0,
        is_coloured(Some(l), highlight, sc.ansi, sc.palette),
        0 <= i < code_lines(sc, Some(l), width, selected, stacked, ranges, highlight).len(),
        ({
            let q = pieces(
                code_lines(sc, Some(l), width, selected, stacked, ranges, highlight)[i],
            );
            0 <= k < q.len() && q[k] is Character
        }),
    ensures
        ({
            let q = pieces(
                code_lines(sc, Some(l), width, selected, stacked, ranges, highlight)[i],
            );
            let here = styled_by(m, q.take(k));
            &&& here.bg == sc.ansi.bg_text(ground(selected, l.kind, sc.palette)) || (ranges.len()
                > 0 && here.bg == sc.ansi.bg_text(part_ground(selected, l.kind)))
            &&& highlight is None ==> here.fg == sc.ansi.fg_text(ink(l.kind, sc.palette))
        }),
{
    let ansi = sc.ansi;
    let t = sc.palette;
    let p = line_paint(l, selected, ranges, highlight, ansi, t);
    lemma_line_paint(l, selected, ranges, highlight, ansi, t);
    let prefix = line_prefix(sc.comments, sc.file.path, l, sc.target, sc.digits, stacked);
    let text = line_text(l, selected, ranges, highlight, ansi, t);
    let (first, continuation) = text_columns(width, text_width(prefix), l.text);
    let indent = continuation_indent(width, text_width(prefix), l.text);
    lemma_wrapped_paint(p, text, first, continuation);
    let row = wrapped(text, first, continuation)[i];
    let start = if i == 0 {
        prefix
    } else {
        spaces(indent)
    };
    lemma_prefix_printable(sc.comments, sc.file.path, l, sc.target, sc.digits, stacked);
    assert(printable(start));
    lemma_printable_width(start);
    assert(no_introducer(start)) by {
        assert forall|j: int| 0 <= j < start.len() implies !introducer(#[trigger] start[j]) by {
            assert(0x20 <= start[j] as u32 <= 0x7e);
        }
    }
    lemma_no_paint(p, start);
    lemma_clean_concat(start, row);
    lemma_paint_add(p, pieces(start), pieces(row));
    lemma_fitted_text_paint(p, start + row, width);
    lemma_cell_stands(p, start + row, width, ink(l.kind, t), m);
    reveal(stands);
}

/// In a drawn row of the stacked layout, every character of an unselected added
/// line stands on the background of additions, and of a deleted line on that of
/// deletions.
pub proof fn law_row_stands_on_its_colours(
    sc: Scene,
    row: int,
    width: nat,
    hl: HighlightModel,
    i: int,
    k: int,
)
    requires
        0 <= row < sc.rows.len(),
        sc.rows[row].kind == RowKind::StackedCode,
        sc.rows[row].line is Some,
        sc.ansi.enabled,
        row != sc.state.cursor_row,
        !row_selected(sc.state, row as usize),
        is_coloured(sc.rows[row].line, hl.line, sc.ansi, sc.palette),
        ({
            let l = sc.rows[row].line->0;
            &&& sc.ansi.bg_text(ground(false, l.kind, sc.palette)).len() > 0
            &&& sc.ansi.fg_text(ink(l.kind, sc.palette)).len() > 0
        }),
        0 <= i < row_lines(sc, row, width, hl).len(),
        ({
            let q = pieces(row_lines(sc, row, width, hl)[i]);
            pieces(gutter(sc, row, i, gutter_columns(width))).len() <= k < q.len()
                && q[k] is Character
        }),
    ensures
        ({
            let l = sc.rows[row].line->0;
            let here = in_force(row_lines(sc, row, width, hl)[i], k);
            &&& l.kind == DiffLineKind::Add ==> here.bg == sc.ansi.bg_text(
                sc.palette.diff_add_bg.hex@,
            )
            &&& l.kind == DiffLineKind::Delete ==> here.bg == sc.ansi.bg_text(
                sc.palette.diff_del_bg.hex@,
            )
            &&& l.kind == DiffLineKind::Context ==> here.bg == sc.ansi.bg_text(
                sc.palette.bg_default.hex@,
            )
        }),
{
    let l = sc.rows[row].line->0;
    let inner_width = minus(width, CURSOR_GUTTER as nat);
    let g = gutter(sc, row, i, gutter_columns(width));
    let code = code_lines(sc, Some(l), inner_width, false, true, seq![], hl.line)[i];
    assert(inner_lines(sc, row, inner_width, hl) == code_lines(
        sc,
        Some(l),
        inner_width,
        false,
        true,
        seq![],
        hl.line,
    ));
    assert(row_lines(sc, row, width, hl)[i] == g + code);
    crate::tui_style::law_cell_width(
        if row == sc.state.cursor_row && sc.state.focus == crate::tui::Focus::Code && i
            == sc.state.cursor_line {
            "> "@
        } else if row_selected(sc.state, row as usize) {
            "| "@
        } else {
            "  "@
        },
        gutter_columns(width),
        sc.ansi,
        sc.palette.bg_panel.hex@,
        if row == sc.state.cursor_row && sc.state.focus == crate::tui::Focus::Code && i
            == sc.state.cursor_line {
            sc.palette.fg_accent.hex@
        } else {
            sc.palette.fg_muted.hex@
        },
    );
    lemma_code_clean(sc, l, inner_width, false, true, seq![], hl.line, i);
    lemma_clean_concat(g, code);
    let pg = pieces(g);
    let pc = pieces(code);
    let q = pg + pc;
    let j = k - pg.len();
    assert(q[k] == pc[j]);
    assert(q.take(k) =~= pg + pc.take(j));
    lemma_styled_by_add(plain_style(), pg, pc.take(j));
    law_line_stands_on_its_colours(
        sc,
        l,
        inner_width,
        false,
        true,
        seq![],
        hl.line,
        i,
        j,
        styled_by(plain_style(), pg),
    );
}

/// The rows of a line of code may be sent to the terminal.
proof fn lemma_code_clean(
    sc: Scene,
    l: LineModel,
    width: nat,
    selected: bool,
    stacked: bool,
    ranges: Seq<Range>,
    highlight: Option<Seq<char>>,
    i: int,
)
    requires
        0 <= i < code_lines(sc, Some(l), width, selected, stacked, ranges, highlight).len(),
    ensures
        clean_text_seq(
            code_lines(sc, Some(l), width, selected, stacked, ranges, highlight)[i],
        ),
{
    let prefix = line_prefix(sc.comments, sc.file.path, l, sc.target, sc.digits, stacked);
    let text = line_text(l, selected, ranges, highlight, sc.ansi, sc.palette);
    let (first, continuation) = text_columns(width, text_width(prefix), l.text);
    let indent = continuation_indent(width, text_width(prefix), l.text);
    crate::tui_style::law_cell_width(
        (if i == 0 {
            prefix
        } else {
            spaces(indent)
        }) + wrapped(text, first, continuation)[i],
        width,
        sc.ansi,
        crate::tui_style::row_background(selected, l.kind, sc.palette),
        crate::tui_style::row_foreground(l.kind, sc.palette),
    );
}

} // verus!

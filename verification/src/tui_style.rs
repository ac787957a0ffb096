//! Styled cells: colours of rows, fitted and coloured cells, and highlighted
//! ranges inside a line.
use vstd::prelude::*;
use vstd::utf8::encode_utf8;
use crate::diff::DiffLineKind;
use crate::inline_diff::{char_len, Range};
use crate::theme::{is_color, Ansi, Color, ThemeTokens};
use crate::tui_text::{
    all_clean, all_tame, clean_piece, clean_text_seq, cleaned, escape_end, escape_len, fit_cell,
    fitted, fitted_pieces, kept, kept_pieces, law_fitted_is_clean, law_fitted_width,
    law_pieces_lossless, lemma_clean_concat, lemma_clean_is_tame, lemma_escape_bound,
    lemma_fitted_clean, lemma_flatten_add, lemma_flatten_one, lemma_kept_clean, lemma_pieces_step,
    lemma_reparse, lemma_reparse_tame, lemma_width_add, pieces, pieces_width, piece_text,
    plain_text, push_range, sgr, sgr_param, tame_piece, text_width, Piece,
};
use crate::tui_wrap::{
    law_styling_keeps_rows, lemma_characters_kept, lemma_kept_add, lemma_kept_one, push_unit,
    unit_models, units, wrapped, wrapped_pieces, Unit,
};
use crate::util::{
    byte_len, byte_pos, chars_of, checked_byte_len, decimal, lemma_byte_pos_monotone, utf8_width,
};

verus! {

// ---------------------------------------------------------------------------
// Colours
// ---------------------------------------------------------------------------

/// The background of a row.
pub open spec fn row_background(selected: bool, kind: DiffLineKind, p: ThemeTokens) -> Seq<char> {
    match (selected, kind) {
        (true, DiffLineKind::Add) => "#285343"@,
        (true, DiffLineKind::Delete) => "#562932"@,
        (true, _) => p.bg_selected.hex@,
        (false, DiffLineKind::Add) => p.diff_add_bg.hex@,
        (false, DiffLineKind::Delete) => p.diff_del_bg.hex@,
        (false, _) => p.bg_default.hex@,
    }
}

pub fn row_bg(selected: bool, kind: DiffLineKind, p: ThemeTokens) -> (r: Color)
    ensures
        r.hex@ == row_background(selected, kind, p),
{
    match (selected, kind) {
        (true, DiffLineKind::Add) => Color { hex: "#285343" },
        (true, DiffLineKind::Delete) => Color { hex: "#562932" },
        (true, _) => p.bg_selected,
        (false, DiffLineKind::Add) => p.diff_add_bg,
        (false, DiffLineKind::Delete) => p.diff_del_bg,
        (false, _) => p.bg_default,
    }
}

/// The background of a changed range inside a row.
pub open spec fn inline_background(selected: bool, kind: DiffLineKind) -> Seq<char> {
    match (selected, kind) {
        (true, DiffLineKind::Add) => "#3c7a5a"@,
        (true, DiffLineKind::Delete) => "#874151"@,
        (false, DiffLineKind::Add) => "#2f6f4f"@,
        (false, DiffLineKind::Delete) => "#74303d"@,
        _ => "#45475a"@,
    }
}

pub fn inline_bg(selected: bool, kind: DiffLineKind) -> (r: Color)
    ensures
        r.hex@ == inline_background(selected, kind),
{
    let hex = match (selected, kind) {
        (true, DiffLineKind::Add) => "#3c7a5a",
        (true, DiffLineKind::Delete) => "#874151",
        (false, DiffLineKind::Add) => "#2f6f4f",
        (false, DiffLineKind::Delete) => "#74303d",
        _ => "#45475a",
    };
    Color { hex }
}

/// The foreground of a row.
pub open spec fn row_foreground(kind: DiffLineKind, p: ThemeTokens) -> Seq<char> {
    match kind {
        DiffLineKind::Add => p.diff_add_fg.hex@,
        DiffLineKind::Delete => p.diff_del_fg.hex@,
        DiffLineKind::Context => p.diff_context_fg.hex@,
        DiffLineKind::Meta => p.fg_muted.hex@,
    }
}

pub fn row_fg(kind: DiffLineKind, p: ThemeTokens) -> (r: Color)
    ensures
        r.hex@ == row_foreground(kind, p),
{
    match kind {
        DiffLineKind::Add => p.diff_add_fg,
        DiffLineKind::Delete => p.diff_del_fg,
        DiffLineKind::Context => p.diff_context_fg,
        DiffLineKind::Meta => p.fg_muted,
    }
}

// ---------------------------------------------------------------------------
// Styling alone
// ---------------------------------------------------------------------------

/// A text that is nothing but styling.
pub open spec fn styling_only(s: Seq<char>) -> bool {
    &&& all_clean(pieces(s))
    &&& forall|k: int| 0 <= k < pieces(s).len() ==> (#[trigger] pieces(s)[k]) is Escape
}

pub proof fn lemma_decimal_digits(n: nat)
    ensures
        decimal(n).len() > 0,
        forall|k: int| 0 <= k < decimal(n).len() ==> '0' <= #[trigger] decimal(n)[k] <= '9',
    decreases n,
{
    if n >= 10 {
        lemma_decimal_digits(n / 10);
    }
}

pub proof fn lemma_params_sgr(middle: Seq<char>)
    requires
        forall|k: int| 0 <= k < middle.len() ==> sgr_param(#[trigger] middle[k]),
    ensures
        sgr("\u{1b}["@ + middle + "m"@),
        styling_only("\u{1b}["@ + middle + "m"@),
{
    reveal_strlit("\u{1b}[");
    reveal_strlit("m");
    let e = "\u{1b}["@ + middle + "m"@;
    assert forall|k: int| 2 <= k < e.len() - 1 implies sgr_param(#[trigger] e[k]) by {
        assert(e[k] == middle[k - 2]);
    }
    assert(sgr(e));
    lemma_one_escape(e);
}

/// An SGR sequence is one piece.
pub proof fn lemma_one_escape(e: Seq<char>)
    requires
        sgr(e),
    ensures
        pieces(e) == seq![Piece::Escape(e)],
        styling_only(e),
{
    let ps = seq![Piece::Escape(e)];
    assert(all_clean(ps));
    lemma_flatten_one(Piece::Escape(e));
    lemma_reparse(ps);
}

/// No text is styling alone.
pub proof fn lemma_no_styling()
    ensures
        styling_only(Seq::<char>::empty()),
{
}

/// Styling after styling is styling.
pub proof fn lemma_styling_concat(a: Seq<char>, b: Seq<char>)
    requires
        styling_only(a),
        styling_only(b),
    ensures
        styling_only(a + b),
{
    lemma_clean_concat(a, b);
}

/// Styling takes no cells, and nothing of it is left when styling is dropped.
pub proof fn lemma_styling_invisible(s: Seq<char>)
    requires
        styling_only(s),
    ensures
        text_width(s) == 0,
        kept_pieces(pieces(s), false) == Seq::<Piece>::empty(),
{
    lemma_escapes_invisible(pieces(s));
}

pub proof fn lemma_escapes_invisible(ps: Seq<Piece>)
    requires
        forall|k: int| 0 <= k < ps.len() ==> (#[trigger] ps[k]) is Escape,
    ensures
        pieces_width(ps) == 0,
        kept_pieces(ps, false) == Seq::<Piece>::empty(),
    decreases ps.len(),
{
    if ps.len() > 0 {
        let t = ps.skip(1);
        assert forall|k: int| 0 <= k < t.len() implies (#[trigger] t[k]) is Escape by {
            assert(t[k] == ps[k + 1]);
        }
        lemma_escapes_invisible(t);
        assert(ps[0] is Escape);
        assert(kept_pieces(ps, false) =~= Seq::<Piece>::empty());
    }
}

/// A colour sequence is styling alone.
pub proof fn lemma_color_styling(ansi: Ansi, plane: nat, hex: Seq<char>)
    ensures
        styling_only(ansi.sgr_text(plane, hex)),
        ansi.sgr_text(plane, hex).len() > 0 ==> sgr(ansi.sgr_text(plane, hex)),
{
    let b = encode_utf8(hex);
    if ansi.enabled && ansi.true_color && is_color(b) {
        let r = decimal(crate::theme::channel(b, 0) as nat);
        let g = decimal(crate::theme::channel(b, 1) as nat);
        let u = decimal(crate::theme::channel(b, 2) as nat);
        let p = decimal(plane);
        lemma_decimal_digits(plane);
        lemma_decimal_digits(crate::theme::channel(b, 0) as nat);
        lemma_decimal_digits(crate::theme::channel(b, 1) as nat);
        lemma_decimal_digits(crate::theme::channel(b, 2) as nat);
        reveal_strlit(";2;");
        reveal_strlit(";");
        let middle = p + ";2;"@ + r + ";"@ + g + ";"@ + u;
        assert forall|k: int| 0 <= k < middle.len() implies sgr_param(#[trigger] middle[k]) by {
            let a1 = p.len() as int;
            let a2 = a1 + 3;
            let a3 = a2 + r.len();
            let a4 = a3 + 1;
            let a5 = a4 + g.len();
            let a6 = a5 + 1;
            if k < a1 {
                assert(middle[k] == p[k]);
            } else if k < a2 {
                assert(middle[k] == ";2;"@[k - a1]);
            } else if k < a3 {
                assert(middle[k] == r[k - a2]);
            } else if k < a4 {
                assert(middle[k] == ";"@[k - a3]);
            } else if k < a5 {
                assert(middle[k] == g[k - a4]);
            } else if k < a6 {
                assert(middle[k] == ";"@[k - a5]);
            } else {
                assert(middle[k] == u[k - a6]);
            }
        }
        lemma_params_sgr(middle);
        assert(ansi.sgr_text(plane, hex) =~= "\u{1b}["@ + middle + "m"@);
    }
}

/// What ends all colours is styling alone.
pub proof fn lemma_reset_styling(ansi: Ansi)
    ensures
        styling_only(ansi.reset_text()),
        ansi.enabled ==> sgr(ansi.reset_text()),
{
    if ansi.enabled {
        reveal_strlit("0");
        reveal_strlit("\u{1b}[0m");
        reveal_strlit("\u{1b}[");
        reveal_strlit("m");
        let middle = "0"@;
        assert(middle.len() == 1 && middle[0] == '0');
        lemma_params_sgr(middle);
        assert("\u{1b}[0m"@ =~= "\u{1b}["@ + middle + "m"@);
    } else {
        reveal_strlit("");
        assert(""@ =~= Seq::<char>::empty());
    }
}

// ---------------------------------------------------------------------------
// Cells
// ---------------------------------------------------------------------------

/// Pieces with a code after every reset among them.
pub open spec fn restored(ps: Seq<Piece>, reset: Seq<char>, code: Seq<char>) -> Seq<char>
    decreases ps.len(),
{
    if ps.len() == 0 {
        seq![]
    } else {
        restored(ps.drop_last(), reset, code) + piece_text(ps.last()) + if ps.last()
            == Piece::Escape(reset) {
            code
        } else {
            seq![]
        }
    }
}

/// A text fitted into a cell and coloured; a reset inside it brings the
/// colours of the cell back.
pub open spec fn cell(text: Seq<char>, width: nat, ansi: Ansi, bg: Seq<char>, fg: Seq<char>) -> Seq<
    char,
> {
    if !ansi.enabled {
        cleaned(fitted(text, width), false)
    } else {
        let code = ansi.bg_text(bg) + ansi.fg_text(fg);
        code + restored(pieces(fitted(text, width)), ansi.reset_text(), code) + ansi.reset_text()
    }
}

pub proof fn lemma_one_piece(p: Piece)
    requires
        clean_piece(p),
    ensures
        pieces(piece_text(p)) == seq![p],
        clean_text_seq(piece_text(p)),
{
    let ps = seq![p];
    assert(all_clean(ps));
    lemma_flatten_one(p);
    lemma_reparse(ps);
}

pub proof fn lemma_restored(ps: Seq<Piece>, reset: Seq<char>, code: Seq<char>)
    requires
        all_clean(ps),
        styling_only(code),
    ensures
        clean_text_seq(restored(ps, reset, code)),
        text_width(restored(ps, reset, code)) == pieces_width(ps),
    decreases ps.len(),
{
    if ps.len() > 0 {
        let t = ps.drop_last();
        let p = ps.last();
        assert forall|k: int| 0 <= k < t.len() implies clean_piece(#[trigger] t[k]) by {
            assert(t[k] == ps[k]);
            assert(clean_piece(ps[k]));
        }
        assert(clean_piece(ps[ps.len() - 1]));
        lemma_restored(t, reset, code);
        lemma_one_piece(p);
        lemma_clean_concat(restored(t, reset, code), piece_text(p));
        lemma_styling_invisible(code);
        let extra = if p == Piece::Escape(reset) {
            code
        } else {
            Seq::empty()
        };
        lemma_clean_concat(restored(t, reset, code) + piece_text(p), extra);
        assert(ps =~= t + seq![p]);
        lemma_width_add(t, seq![p]);
    }
}

/// A cell may be sent to the terminal, and is exactly as wide as it was asked
/// to be.
pub proof fn law_cell_width(text: Seq<char>, width: nat, ansi: Ansi, bg: Seq<char>, fg: Seq<char>)
    ensures
        clean_text_seq(cell(text, width, ansi, bg, fg)),
        text_width(cell(text, width, ansi, bg, fg)) == width,
{
    let f = fitted(text, width);
    law_fitted_width(text, width);
    law_fitted_is_clean(text, width);
    if !ansi.enabled {
        lemma_kept_clean(pieces(f), false);
        lemma_reparse(kept_pieces(pieces(f), false));
    } else {
        lemma_color_styling(ansi, 48, bg);
        lemma_color_styling(ansi, 38, fg);
        lemma_reset_styling(ansi);
        let code = ansi.bg_text(bg) + ansi.fg_text(fg);
        lemma_styling_concat(ansi.bg_text(bg), ansi.fg_text(fg));
        lemma_fitted_all_clean(text, width);
        let body = restored(pieces(f), ansi.reset_text(), code);
        lemma_restored(pieces(f), ansi.reset_text(), code);
        lemma_styling_invisible(code);
        lemma_styling_invisible(ansi.reset_text());
        lemma_clean_concat(code, body);
        lemma_clean_concat(code + body, ansi.reset_text());
    }
}

/// The pieces of a fitted text are clean.
pub proof fn lemma_fitted_all_clean(text: Seq<char>, width: nat)
    ensures
        all_clean(pieces(fitted(text, width))),
{
    if width > 0 {
        lemma_fitted_clean(pieces(text), width);
        lemma_reparse(fitted_pieces(pieces(text), width));
    }
}

fn same_chars(a: &Vec<char>, b: &Vec<char>) -> (r: bool)
    ensures
        r == (a@ == b@),
{
    if a.len() != b.len() {
        return false;
    }
    let mut i: usize = 0;
    while i < a.len()
        invariant
            a@.len() == b@.len(),
            i <= a@.len(),
            forall|k: int| 0 <= k < i ==> a@[k] == b@[k],
        decreases a@.len() - i,
    {
        if a[i] != b[i] {
            assert(a@[i as int] != b@[i as int]);
            return false;
        }
        i += 1;
    }
    assert(a@ =~= b@);
    true
}

/// A text fitted into a cell and coloured.
pub fn style_cell(text: &str, width: usize, ansi: Ansi, bg: Color, fg: Color) -> (r: String)
    ensures
        r@ == cell(text@, width as nat, ansi, bg.hex@, fg.hex@),
        clean_text_seq(r@),
        text_width(r@) == width,
{
    proof {
        law_cell_width(text@, width as nat, ansi, bg.hex@, fg.hex@);
    }
    let fit = fit_cell(text, width);
    if !ansi.enabled {
        return plain_text(fit.as_str());
    }
    let bg_code = ansi.bg(bg);
    let fg_code = ansi.fg(fg);
    let reset = ansi.reset();
    let reset_chars = chars_of(reset);
    let ghost code = ansi.bg_text(bg.hex@) + ansi.fg_text(fg.hex@);
    let mut out = String::new();
    out.append(bg_code.as_str());
    out.append(fg_code.as_str());
    assert(out@ =~= code);
    let v = units(fit.as_str());
    let ghost ps = unit_models(v@);
    let mut i: usize = 0;
    assert(ps.take(0) =~= Seq::<Piece>::empty());
    assert(out@ =~= code + restored(ps.take(0), ansi.reset_text(), code));
    while i < v.len()
        invariant
            ps == unit_models(v@),
            i <= v@.len(),
            reset_chars@ == ansi.reset_text(),
            code == ansi.bg_text(bg.hex@) + ansi.fg_text(fg.hex@),
            bg_code@ == ansi.bg_text(bg.hex@),
            fg_code@ == ansi.fg_text(fg.hex@),
            out@ == code + restored(ps.take(i as int), ansi.reset_text(), code),
        decreases v@.len() - i,
    {
        let ghost before = out@;
        let ghost now = ps.take(i + 1);
        assert(now.drop_last() =~= ps.take(i as int));
        assert(now.last() == v@[i as int]@);
        push_unit(&mut out, &v[i]);
        let is_reset: bool = match &v[i] {
            Unit::Escape(e) => same_chars(e, &reset_chars),
            Unit::Character(_) => false,
        };
        if is_reset {
            out.append(bg_code.as_str());
            out.append(fg_code.as_str());
        }
        proof {
            let extra = if is_reset {
                code
            } else {
                Seq::empty()
            };
            assert(out@ =~= before + piece_text(now.last()) + extra);
            assert(out@ =~= code + restored(now, ansi.reset_text(), code));
        }
        i += 1;
    }
    assert(ps.take(i as int) =~= ps);
    out.append(reset);
    out
}

// ---------------------------------------------------------------------------
// Highlighted ranges
// ---------------------------------------------------------------------------

/// The first range from `i` on that does not end at or before the offset.
pub open spec fn next_range(ranges: Seq<Range>, i: int, offset: int) -> int
    decreases ranges.len() - i,
{
    if 0 <= i < ranges.len() && offset >= ranges[i].end {
        next_range(ranges, i + 1, offset)
    } else {
        i
    }
}

/// Whether the range `i` holds the offset.
pub open spec fn range_holds(ranges: Seq<Range>, i: int, offset: int) -> bool {
    0 <= i < ranges.len() && ranges[i].start <= offset < ranges[i].end
}

/// Whether a sequence ends all colours.
pub open spec fn is_reset(e: Seq<char>, ansi: Ansi) -> bool {
    e == ansi.reset_text() || e == "\u{1b}[m"@
}

/// A line with its ranges highlighted, from a byte offset on.
pub open spec fn inlined(
    s: Seq<char>,
    ranges: Seq<Range>,
    ansi: Ansi,
    base: Seq<char>,
    inline: Seq<char>,
    offset: int,
    index: int,
    active: bool,
) -> Seq<char>
    decreases s.len(),
{
    if s.len() == 0 {
        if active {
            base
        } else {
            seq![]
        }
    } else {
        let n = escape_len(s) as int;
        let escape = s[0] == '\u{1b}' && 0 < n <= s.len();
        let i = next_range(ranges, index, offset);
        let next = range_holds(ranges, i, offset);
        let head = if escape {
            s.take(n) + if active && is_reset(s.take(n), ansi) {
                inline
            } else {
                seq![]
            }
        } else {
            (if active == next {
                seq![]
            } else if next {
                inline
            } else {
                base
            }) + seq![s[0]]
        };
        head + inlined(
            s.skip(
                if escape {
                    n
                } else {
                    1
                },
            ),
            ranges,
            ansi,
            base,
            inline,
            if escape {
                offset
            } else {
                offset + utf8_width(s[0])
            },
            if escape {
                index
            } else {
                i
            },
            if escape {
                active
            } else {
                next
            },
        )
    }
}

/// A line with its ranges highlighted, where colours are on.
pub open spec fn inline_line(
    s: Seq<char>,
    ranges: Seq<Range>,
    ansi: Ansi,
    base: Seq<char>,
    inline: Seq<char>,
) -> Seq<char> {
    if ranges.len() == 0 || !ansi.enabled || !ansi.true_color {
        s
    } else {
        inlined(s, ranges, ansi, ansi.bg_text(base), ansi.bg_text(inline), 0, 0, false)
    }
}

/// Tame texts one after the other are read as the one and the other.
pub proof fn lemma_tame_concat(a: Seq<char>, b: Seq<char>)
    requires
        all_tame(pieces(a)),
        all_tame(pieces(b)),
    ensures
        pieces(a + b) == pieces(a) + pieces(b),
        all_tame(pieces(a + b)),
        kept_pieces(pieces(a + b), false) == kept_pieces(pieces(a), false) + kept_pieces(
            pieces(b),
            false,
        ),
{
    law_pieces_lossless(a);
    law_pieces_lossless(b);
    lemma_flatten_add(pieces(a), pieces(b));
    assert(all_tame(pieces(a) + pieces(b)));
    lemma_reparse_tame(pieces(a) + pieces(b));
    lemma_kept_add(pieces(a), pieces(b), false);
}

/// A tame piece on its own.
pub proof fn lemma_tame_one(p: Piece)
    requires
        tame_piece(p),
    ensures
        pieces(piece_text(p)) == seq![p],
        all_tame(pieces(piece_text(p))),
{
    let ps = seq![p];
    assert(all_tame(ps));
    lemma_flatten_one(p);
    lemma_reparse_tame(ps);
}

/// Styling before or after a tame text changes nothing but its styling.
pub proof fn lemma_styling_tame(code: Seq<char>)
    requires
        styling_only(code),
    ensures
        all_tame(pieces(code)),
        kept_pieces(pieces(code), false) == Seq::<Piece>::empty(),
{
    lemma_clean_is_tame(pieces(code));
    lemma_styling_invisible(code);
}

pub proof fn lemma_inlined_plain(
    s: Seq<char>,
    ranges: Seq<Range>,
    ansi: Ansi,
    base: Seq<char>,
    inline: Seq<char>,
    offset: int,
    index: int,
    active: bool,
)
    requires
        all_tame(pieces(s)),
        styling_only(base),
        styling_only(inline),
    ensures
        all_tame(pieces(inlined(s, ranges, ansi, base, inline, offset, index, active))),
        kept_pieces(
            pieces(inlined(s, ranges, ansi, base, inline, offset, index, active)),
            false,
        ) == kept_pieces(pieces(s), false),
    decreases s.len(),
{
    lemma_styling_tame(base);
    lemma_styling_tame(inline);
    lemma_no_styling();
    lemma_styling_tame(Seq::<char>::empty());
    if s.len() > 0 {
        lemma_pieces_step(s);
        let n = escape_len(s) as int;
        let p = pieces(s)[0];
        assert(tame_piece(p));
        let escape = s[0] == '\u{1b}' && 0 < n <= s.len();
        assert(escape == (n > 0)) by {
            if n > 0 {
                assert(p == Piece::Escape(s.take(n)));
                assert(s.take(n)[0] == s[0]);
            } else {
                assert(p == Piece::Character(s[0]));
            }
        }
        let k: int = if escape {
            n
        } else {
            1
        };
        let rest = s.skip(k);
        assert(pieces(s).skip(1) == pieces(rest));
        assert forall|j: int| 0 <= j < pieces(rest).len() implies tame_piece(
            #[trigger] pieces(rest)[j],
        ) by {
            assert(pieces(rest)[j] == pieces(s)[j + 1]);
            assert(tame_piece(pieces(s)[j + 1]));
        }
        let i = next_range(ranges, index, offset);
        let next = range_holds(ranges, i, offset);
        let (o2, i2, a2) = if escape {
            (offset, index, active)
        } else {
            (offset + utf8_width(s[0]), i, next)
        };
        lemma_inlined_plain(rest, ranges, ansi, base, inline, o2, i2, a2);
        let tail = inlined(rest, ranges, ansi, base, inline, o2, i2, a2);
        lemma_tame_one(p);
        let own = piece_text(p);
        let head = if escape {
            own + if active && is_reset(own, ansi) {
                inline
            } else {
                Seq::empty()
            }
        } else {
            (if active == next {
                Seq::empty()
            } else if next {
                inline
            } else {
                base
            }) + own
        };
        if escape {
            lemma_tame_concat(
                own,
                if active && is_reset(own, ansi) {
                    inline
                } else {
                    Seq::empty()
                },
            );
        } else {
            lemma_tame_concat(
                if active == next {
                    Seq::empty()
                } else if next {
                    inline
                } else {
                    base
                },
                own,
            );
        }
        assert(kept_pieces(pieces(head), false) =~= kept_pieces(seq![p], false));
        lemma_tame_concat(head, tail);
        assert(inlined(s, ranges, ansi, base, inline, offset, index, active) == head + tail);
        assert(pieces(s) =~= seq![p] + pieces(rest));
        lemma_kept_add(seq![p], pieces(rest), false);
    }
}

/// Highlighting ranges changes nothing but the styling of a line.
pub proof fn law_inline_keeps_text(
    s: Seq<char>,
    ranges: Seq<Range>,
    ansi: Ansi,
    base: Seq<char>,
    inline: Seq<char>,
)
    requires
        all_tame(pieces(s)),
    ensures
        all_tame(pieces(inline_line(s, ranges, ansi, base, inline))),
        kept_pieces(pieces(inline_line(s, ranges, ansi, base, inline)), false) == kept_pieces(
            pieces(s),
            false,
        ),
{
    lemma_color_styling(ansi, 48, base);
    lemma_color_styling(ansi, 48, inline);
    lemma_inlined_plain(s, ranges, ansi, ansi.bg_text(base), ansi.bg_text(inline), 0, 0, false);
}

/// Texts that differ in nothing but their styling take the same number of
/// rows.
pub proof fn law_same_text_same_rows(a: Seq<char>, b: Seq<char>, first: nat, continuation: nat)
    requires
        kept_pieces(pieces(a), false) == kept_pieces(pieces(b), false),
    ensures
        wrapped(a, first, continuation).len() == wrapped(b, first, continuation).len(),
{
    lemma_rows_of_kept(a, first, continuation);
    lemma_rows_of_kept(b, first, continuation);
}

/// The number of rows of a text is that of its characters.
pub proof fn lemma_rows_of_kept(s: Seq<char>, first: nat, continuation: nat)
    ensures
        wrapped(s, first, continuation).len() == wrapped_pieces(
            kept_pieces(pieces(s), false),
            first,
            continuation,
        ).len(),
{
    let ps = pieces(s);
    let k = kept_pieces(ps, true);
    lemma_kept_clean(ps, true);
    law_styling_keeps_rows(k, first, continuation);
    lemma_characters_kept(k);
    lemma_kept_twice(ps);
}

/// Dropping styling at once or in two steps.
pub proof fn lemma_kept_twice(ps: Seq<Piece>)
    ensures
        kept_pieces(kept_pieces(ps, true), false) == kept_pieces(ps, false),
    decreases ps.len(),
{
    if ps.len() > 0 {
        lemma_kept_twice(ps.skip(1));
        let first = kept(ps[0], true);
        lemma_kept_add(first, kept_pieces(ps.skip(1), true), false);
        assert(kept_pieces(first, false) =~= kept(ps[0], false)) by {
            if first.len() > 0 {
                lemma_kept_one(first[0], false);
                assert(first =~= seq![first[0]]);
            }
        }
    }
}

fn sequence_is_reset(s: &Vec<char>, from: usize, to: usize, reset: &Vec<char>, Ghost(ansi): Ghost<
    Ansi,
>) -> (r: bool)
    requires
        from <= to <= s@.len(),
        reset@ == ansi.reset_text(),
    ensures
        r == is_reset(s@.subrange(from as int, to as int), ansi),
{
    let part = vstd::slice::slice_to_vec(vstd::slice::slice_subrange(s.as_slice(), from, to));
    let short = chars_of("\u{1b}[m");
    same_chars(&part, reset) || same_chars(&part, &short)
}

/// Highlight ranges of a line.
pub fn apply_inline(
    highlighted: &str,
    ranges: &[Range],
    ansi: Ansi,
    base: Color,
    inline: Color,
) -> (r: String)
    ensures
        r@ == inline_line(highlighted@, ranges@, ansi, base.hex@, inline.hex@),
{
    if ranges.len() == 0 || !ansi.enabled || !ansi.true_color {
        return highlighted.to_owned();
    }
    let s = chars_of(highlighted);
    let limit: usize = checked_byte_len(highlighted);
    let base_code = ansi.bg(base);
    let inline_code = ansi.bg(inline);
    let reset = chars_of(ansi.reset());
    let mut out = String::new();
    let mut i: usize = 0;
    let mut offset: usize = 0;
    let mut active: bool = false;
    let mut index: usize = 0;
    let ghost whole = inline_line(highlighted@, ranges@, ansi, base.hex@, inline.hex@);
    assert(s@.skip(0) =~= s@);
    assert(out@ + inlined(s@.skip(0), ranges@, ansi, base_code@, inline_code@, 0, 0, false)
        =~= whole);
    while i < s.len()
        invariant
            s@ == highlighted@,
            limit == byte_len(s@),
            i <= s@.len(),
            offset <= byte_pos(s@, i as int),
            index <= ranges@.len(),
            reset@ == ansi.reset_text(),
            out@ + inlined(
                s@.skip(i as int),
                ranges@,
                ansi,
                base_code@,
                inline_code@,
                offset as int,
                index as int,
                active,
            ) == whole,
        decreases s@.len() - i,
    {
        let ghost t = s@.skip(i as int);
        let ghost before = out@;
        let ghost (o0, i0, a0) = (offset as int, index as int, active);
        let ghost n = escape_len(t) as int;
        let c: char = s[i];
        proof {
            lemma_escape_bound(t);
            lemma_byte_pos_monotone(s@, i as int, s@.len() as int);
        }
        let end: usize = escape_end(s.as_slice(), i);
        if c == '\u{1b}' && end > i {
            assert(s@.subrange(i as int, end as int) =~= t.take(n));
            push_range(&mut out, s.as_slice(), i, end);
            if active && sequence_is_reset(&s, i, end, &reset, Ghost(ansi)) {
                out.append(inline_code.as_str());
            }
            proof {
                assert(t.skip(n) =~= s@.skip(end as int));
                let head = t.take(n) + if a0 && is_reset(t.take(n), ansi) {
                    inline_code@
                } else {
                    Seq::empty()
                };
                let tail = inlined(
                    s@.skip(end as int),
                    ranges@,
                    ansi,
                    base_code@,
                    inline_code@,
                    o0,
                    i0,
                    a0,
                );
                assert(out@ =~= before + head);
                assert((before + head) + tail =~= before + (head + tail));
                lemma_byte_pos_monotone(s@, i as int, end as int);
            }
            i = end;
            continue;
        }
        while index < ranges.len() && offset >= ranges[index].end
            invariant
                index <= ranges@.len(),
                next_range(ranges@, index as int, offset as int) == next_range(
                    ranges@,
                    i0,
                    offset as int,
                ),
            decreases ranges@.len() - index,
        {
            index += 1;
        }
        let next_active: bool = index < ranges.len() && offset >= ranges[index].start && offset
            < ranges[index].end;
        if active != next_active {
            if next_active {
                out.append(inline_code.as_str());
            } else {
                out.append(base_code.as_str());
            }
            active = next_active;
        }
        out.push(c);
        proof {
            assert(byte_pos(s@, i + 1) == byte_pos(s@, i as int) + utf8_width(c));
            lemma_byte_pos_monotone(s@, i + 1, s@.len() as int);
        }
        offset = offset + char_len(c);
        proof {
            assert(t.skip(1) =~= s@.skip(i + 1));
            let head = (if a0 == next_active {
                Seq::empty()
            } else if next_active {
                inline_code@
            } else {
                base_code@
            }) + seq![c];
            let tail = inlined(
                s@.skip(i + 1),
                ranges@,
                ansi,
                base_code@,
                inline_code@,
                offset as int,
                index as int,
                next_active,
            );
            assert(out@ =~= before + head);
            assert((before + head) + tail =~= before + (head + tail));
        }
        i += 1;
    }
    if active {
        out.append(base_code.as_str());
    }
    assert(out@ =~= whole);
    out
}

} // verus!

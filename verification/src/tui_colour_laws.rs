//! Which colours the cells of a drawn row stand on.
use vstd::prelude::*;
use vstd::utf8::encode_utf8;
use crate::inline_diff::Range;
use crate::syntax::{
    highlighted_from, lemma_highlight_plain, lemma_plain_range, lemma_span_place, no_introducer,
    span_place, token_color, HighlightSpan,
};
use crate::theme::{channel, is_color, unhashed, Ansi, ThemeTokens};
use crate::tui_style::{
    inlined, is_reset, lemma_color_styling, lemma_decimal_digits, lemma_inlined_plain,
    lemma_no_styling, lemma_one_escape, lemma_reset_styling, lemma_styling_concat,
    lemma_styling_tame, lemma_tame_concat, lemma_tame_one, next_range, range_holds, styling_only,
};
use crate::tui_text::{
    all_clean, all_tame, clean_text_seq, escape_len, flatten, introducer, kept, kept_pieces,
    lemma_clean_concat, lemma_kept_clean, lemma_pieces_step, lemma_reparse, piece_text, pieces,
    tame_piece, Piece,
};
use crate::tui_wrap::{
    at_least_one, attr_codes, break_at, chars_value, color_params, joined_numbers, lemma_break_at,
    plain_style, rows_from, semicolon, sets_style, sgr_number, sgr_numbers, sgr_sequence,
    style_code, style_step, style_steps, styled, styled_by, without_plus, wrapped, SgrModel,
};
use crate::tui_wrap_laws::lemma_clean_part;
use crate::util::{decimal, digit, utf8_width};

verus! {

// ---------------------------------------------------------------------------
// What a colour sequence does
// ---------------------------------------------------------------------------

pub proof fn lemma_decimal_value(n: nat)
    ensures
        chars_value(decimal(n)) == n,
    decreases n,
{
    if n >= 10 {
        lemma_decimal_value(n / 10);
        assert(decimal(n).drop_last() =~= decimal(n / 10));
        assert(decimal(n).last() == digit(n % 10));
    } else {
        assert(decimal(n).drop_last() =~= Seq::<char>::empty());
        assert(chars_value(decimal(n).drop_last()) == 0);
    }
}

proof fn lemma_decimal_number(n: nat)
    requires
        n <= 65535,
    ensures
        sgr_number(decimal(n)) == n,
{
    lemma_decimal_digits(n);
    lemma_decimal_value(n);
    assert('0' <= decimal(n)[0] <= '9');
    assert(without_plus(decimal(n)) == decimal(n));
}

proof fn lemma_semicolon(a: Seq<char>, rest: Seq<char>)
    requires
        forall|k: int| 0 <= k < a.len() ==> (#[trigger] a[k]) != ';',
    ensures
        semicolon(a + seq![';'] + rest) == a.len(),
        semicolon(a) == a.len(),
    decreases a.len(),
{
    let s = a + seq![';'] + rest;
    if a.len() > 0 {
        let t = a.skip(1);
        assert forall|k: int| 0 <= k < t.len() implies (#[trigger] t[k]) != ';' by {
            assert(t[k] == a[k + 1]);
        }
        lemma_semicolon(t, rest);
        assert(s.skip(1) =~= t + seq![';'] + rest);
        assert(s[0] == a[0]);
    } else {
        assert(s[0] == ';');
    }
}

/// A number and a semicolon before other numbers.
proof fn lemma_numbers_step(n: nat, rest: Seq<char>)
    requires
        n <= 65535,
    ensures
        sgr_numbers(decimal(n) + seq![';'] + rest) == seq![n] + sgr_numbers(rest),
        sgr_numbers(decimal(n)) == seq![n],
{
    let d = decimal(n);
    lemma_decimal_digits(n);
    lemma_decimal_number(n);
    lemma_semicolon(d, rest);
    let s = d + seq![';'] + rest;
    assert(s.take(d.len() as int) =~= d);
    assert(s.skip(d.len() as int + 1) =~= rest);
}

/// The parameters of a colour sequence.
pub open spec fn colour_numbers(plane: nat, b: Seq<u8>) -> Seq<nat> {
    seq![plane, 2, channel(b, 0) as nat, channel(b, 1) as nat, channel(b, 2) as nat]
}

proof fn lemma_channels(b: Seq<u8>)
    requires
        is_color(b),
    ensures
        0 <= channel(b, 0) < 256,
        0 <= channel(b, 1) < 256,
        0 <= channel(b, 2) < 256,
{
    let raw = unhashed(b);
    assert(crate::theme::is_hex(raw[0]) && crate::theme::is_hex(raw[1]));
    assert(crate::theme::is_hex(raw[2]) && crate::theme::is_hex(raw[3]));
    assert(crate::theme::is_hex(raw[4]) && crate::theme::is_hex(raw[5]));
}

/// Five numbers with semicolons between them.
spec fn five(plane: nat, x: nat, y: nat, z: nat) -> Seq<char> {
    decimal(plane) + seq![';'] + (decimal(2) + seq![';'] + (decimal(x) + seq![';'] + (decimal(y)
        + seq![';'] + decimal(z))))
}

proof fn lemma_five_numbers(plane: nat, x: nat, y: nat, z: nat)
    requires
        plane <= 65535,
        x <= 255,
        y <= 255,
        z <= 255,
    ensures
        sgr_numbers(five(plane, x, y, z)) == seq![plane, 2, x, y, z],
{
    let semi = seq![';'];
    let tail4 = decimal(y) + semi + decimal(z);
    let tail3 = decimal(x) + semi + tail4;
    let tail2 = decimal(2) + semi + tail3;
    lemma_numbers_step(z, Seq::empty());
    lemma_numbers_step(y, decimal(z));
    lemma_numbers_step(x, tail4);
    lemma_numbers_step(2, tail3);
    lemma_numbers_step(plane, tail2);
    assert(sgr_numbers(five(plane, x, y, z)) =~= seq![plane, 2, x, y, z]);
}

proof fn lemma_joined_step(v: Seq<nat>, n: nat)
    requires
        v.len() > 0,
    ensures
        joined_numbers(v.push(n)) == joined_numbers(v) + seq![';'] + decimal(n),
{
    reveal_strlit(";");
    assert(";"@ =~= seq![';']);
    assert(v.push(n).drop_last() =~= v);
}

proof fn lemma_five_joined(plane: nat, x: nat, y: nat, z: nat)
    ensures
        joined_numbers(seq![plane, 2, x, y, z]) == five(plane, x, y, z),
{
    let v1 = seq![plane];
    let v2 = v1.push(2);
    let v3 = v2.push(x);
    let v4 = v3.push(y);
    lemma_joined_step(v1, 2);
    lemma_joined_step(v2, x);
    lemma_joined_step(v3, y);
    lemma_joined_step(v4, z);
    assert(v4.push(z) =~= seq![plane, 2, x, y, z]);
    assert(joined_numbers(v1) == decimal(plane));
    assert(joined_numbers(v4.push(z)) =~= five(plane, x, y, z));
}

proof fn lemma_colour_text(ansi: Ansi, plane: nat, hex: Seq<char>)
    requires
        plane <= 65535,
        ansi.sgr_text(plane, hex).len() > 0,
    ensures
        ({
            let b = encode_utf8(hex);
            let e = ansi.sgr_text(plane, hex);
            &&& is_color(b)
            &&& sets_style(e)
            &&& sgr_numbers(e.subrange(2, e.len() - 1)) == colour_numbers(plane, b)
            &&& sgr_sequence(colour_numbers(plane, b)) == e
        }),
{
    let b = encode_utf8(hex);
    let e = ansi.sgr_text(plane, hex);
    lemma_channels(b);
    let x = channel(b, 0) as nat;
    let y = channel(b, 1) as nat;
    let z = channel(b, 2) as nat;
    lemma_five_numbers(plane, x, y, z);
    lemma_five_joined(plane, x, y, z);
    let middle = five(plane, x, y, z);
    assert(e == "\u{1b}["@ + middle + "m"@) by {
        reveal_strlit(";2;");
        reveal_strlit(";");
        assert(decimal(2) =~= seq!['2']);
        assert(";"@ =~= seq![';']);
        assert(";2;"@ =~= seq![';'] + decimal(2) + seq![';']);
        assert(e =~= "\u{1b}["@ + middle + "m"@);
    }
    reveal_strlit("\u{1b}[");
    reveal_strlit("m");
    assert(e.subrange(2, e.len() - 1) =~= middle);
}

/// A background sequence sets the background, and nothing else; a foreground
/// sequence sets the foreground; and the reset clears all styling.
pub proof fn law_colour_sequences(m: SgrModel, ansi: Ansi, hex: Seq<char>)
    ensures
        ansi.bg_text(hex).len() > 0 ==> styled(m, ansi.bg_text(hex)) == (SgrModel {
            bg: ansi.bg_text(hex),
            ..m
        }),
        ansi.fg_text(hex).len() > 0 ==> styled(m, ansi.fg_text(hex)) == (SgrModel {
            fg: ansi.fg_text(hex),
            ..m
        }),
        ansi.enabled ==> styled(m, ansi.reset_text()) == plain_style(),
{
    let b = encode_utf8(hex);
    if ansi.bg_text(hex).len() > 0 {
        lemma_colour_text(ansi, 48, hex);
        let v = colour_numbers(48, b);
        assert(v.subrange(0, 5) =~= v);
        assert(color_params(v, 0) == 5);
        let n = style_step(m, v, 0);
        assert(n == (SgrModel { bg: ansi.bg_text(hex), ..m }, 5int));
        assert(style_steps(n.0, v, 5) == n.0);
    }
    if ansi.fg_text(hex).len() > 0 {
        lemma_colour_text(ansi, 38, hex);
        let v = colour_numbers(38, b);
        assert(v.subrange(0, 5) =~= v);
        assert(color_params(v, 0) == 5);
        let n = style_step(m, v, 0);
        assert(n == (SgrModel { fg: ansi.fg_text(hex), ..m }, 5int));
        assert(style_steps(n.0, v, 5) == n.0);
    }
    if ansi.enabled {
        reveal_strlit("\u{1b}[0m");
        let e = "\u{1b}[0m"@;
        assert(e.subrange(2, 3) =~= seq!['0']);
        assert(decimal(0) =~= seq!['0']);
        lemma_numbers_step(0, Seq::empty());
        let v = seq![0nat];
        assert(style_steps(plain_style(), v, 1) == plain_style());
    }
}

// ---------------------------------------------------------------------------
// Texts that hold no other styling
// ---------------------------------------------------------------------------

/// The styling that a line of code may hold: foregrounds and resets where its
/// tokens are coloured, and two backgrounds where parts of it are marked.
pub ghost struct Paint {
    pub ansi: Ansi,
    pub base: Seq<char>,
    pub inline: Seq<char>,
    pub tokens: bool,
    pub parts: bool,
}

pub open spec fn is_foreground(ansi: Ansi, e: Seq<char>) -> bool {
    e.len() > 0 && exists|hex: Seq<char>| e == #[trigger] ansi.fg_text(hex)
}

pub open spec fn is_paint(p: Paint, e: Seq<char>) -> bool {
    ||| p.tokens && p.ansi.enabled && e == p.ansi.reset_text()
    ||| p.tokens && is_foreground(p.ansi, e)
    ||| p.parts && e.len() > 0 && (e == p.ansi.bg_text(p.base) || e == p.ansi.bg_text(p.inline))
}

pub open spec fn only_paint(p: Paint, ps: Seq<Piece>) -> bool {
    forall|k: int|
        0 <= k < ps.len() ==> ((#[trigger] ps[k]) is Escape ==> is_paint(p, ps[k]->Escape_0))
}

pub proof fn lemma_paint_add(p: Paint, a: Seq<Piece>, b: Seq<Piece>)
    requires
        only_paint(p, a),
        only_paint(p, b),
    ensures
        only_paint(p, a + b),
{
    let c = a + b;
    assert forall|k: int| 0 <= k < c.len() && (#[trigger] c[k]) is Escape implies is_paint(
        p,
        c[k]->Escape_0,
    ) by {
        if k < a.len() {
            assert(c[k] == a[k]);
        } else {
            assert(c[k] == b[k - a.len()]);
        }
    }
}

pub proof fn lemma_no_paint(p: Paint, s: Seq<char>)
    requires
        no_introducer(s),
    ensures
        only_paint(p, pieces(s)),
        forall|k: int| 0 <= k < pieces(s).len() ==> (#[trigger] pieces(s)[k]) is Character,
    decreases s.len(),
{
    if s.len() > 0 {
        lemma_pieces_step(s);
        assert(!introducer(s[0]));
        assert(escape_len(s) == 0) by {
            reveal(escape_len);
        }
        let t = s.skip(1);
        assert forall|k: int| 0 <= k < t.len() implies !introducer(#[trigger] t[k]) by {
            assert(t[k] == s[k + 1]);
        }
        lemma_no_paint(p, t);
        assert forall|k: int| 0 <= k < pieces(s).len() implies (
        #[trigger] pieces(s)[k]) is Character by {
            if k > 0 {
                assert(pieces(s)[k] == pieces(s).skip(1)[k - 1]);
            }
        }
    }
}

/// A colour sequence is one piece, or none at all.
pub proof fn lemma_colour_pieces(ansi: Ansi, plane: nat, hex: Seq<char>)
    ensures
        ansi.sgr_text(plane, hex).len() > 0 ==> pieces(ansi.sgr_text(plane, hex)) == seq![
            Piece::Escape(ansi.sgr_text(plane, hex)),
        ],
        ansi.sgr_text(plane, hex).len() == 0 ==> pieces(ansi.sgr_text(plane, hex)).len() == 0,
        styling_only(ansi.sgr_text(plane, hex)),
{
    lemma_color_styling(ansi, plane, hex);
    if ansi.sgr_text(plane, hex).len() > 0 {
        lemma_one_escape(ansi.sgr_text(plane, hex));
    }
}

pub proof fn lemma_reset_pieces(ansi: Ansi)
    requires
        ansi.enabled,
    ensures
        pieces(ansi.reset_text()) == seq![Piece::Escape(ansi.reset_text())],
        styling_only(ansi.reset_text()),
{
    lemma_reset_styling(ansi);
    lemma_one_escape(ansi.reset_text());
}

pub proof fn lemma_highlight_paint(
    p: Paint,
    s: Seq<char>,
    spans: Seq<HighlightSpan>,
    t: ThemeTokens,
    k: int,
    cursor: int,
)
    requires
        p.tokens,
        p.ansi.enabled,
        no_introducer(s),
        0 <= cursor <= s.len(),
        0 <= k,
    ensures
        only_paint(p, pieces(highlighted_from(s, spans, p.ansi, t, k, cursor))),
    decreases spans.len() - k,
{
    let ansi = p.ansi;
    lemma_plain_range(s, cursor, s.len() as int);
    assert(s.skip(cursor) =~= s.subrange(cursor, s.len() as int));
    lemma_no_paint(p, s.skip(cursor));
    if k < spans.len() {
        lemma_span_place(s, spans[k], cursor);
        match span_place(s, spans[k], cursor) {
            Some((a, b)) => {
                let hex = token_color(t, spans[k].token);
                let color = ansi.fg_text(hex);
                let reset = ansi.reset_text();
                let x = s.subrange(cursor, a);
                let y = s.subrange(a, b);
                let tail = highlighted_from(s, spans, ansi, t, k + 1, b);
                lemma_highlight_paint(p, s, spans, t, k + 1, b);
                lemma_highlight_plain(s, spans, ansi, t, k + 1, b);
                lemma_plain_range(s, cursor, a);
                lemma_plain_range(s, a, b);
                lemma_no_paint(p, x);
                lemma_no_paint(p, y);
                lemma_colour_pieces(ansi, 38, hex);
                lemma_reset_pieces(ansi);
                lemma_styling_tame(color);
                lemma_styling_tame(reset);
                assert(only_paint(p, pieces(color)));
                assert(only_paint(p, pieces(reset)));
                lemma_tame_concat(x, color);
                lemma_paint_add(p, pieces(x), pieces(color));
                lemma_tame_concat(x + color, y);
                lemma_paint_add(p, pieces(x + color), pieces(y));
                lemma_tame_concat(x + color + y, reset);
                lemma_paint_add(p, pieces(x + color + y), pieces(reset));
                lemma_tame_concat(x + color + y + reset, tail);
                lemma_paint_add(p, pieces(x + color + y + reset), pieces(tail));
            },
            None => {
                lemma_highlight_paint(p, s, spans, t, k + 1, cursor);
                assert(Seq::<char>::empty() + highlighted_from(s, spans, ansi, t, k + 1, cursor)
                    =~= highlighted_from(s, spans, ansi, t, k + 1, cursor));
            },
        }
    }
}

pub proof fn lemma_inlined_paint(
    p: Paint,
    s: Seq<char>,
    ranges: Seq<Range>,
    offset: int,
    index: int,
    active: bool,
)
    requires
        p.parts,
        all_tame(pieces(s)),
        only_paint(p, pieces(s)),
    ensures
        only_paint(
            p,
            pieces(
                inlined(
                    s,
                    ranges,
                    p.ansi,
                    p.ansi.bg_text(p.base),
                    p.ansi.bg_text(p.inline),
                    offset,
                    index,
                    active,
                ),
            ),
        ),
    decreases s.len(),
{
    let ansi = p.ansi;
    let base = ansi.bg_text(p.base);
    let inline = ansi.bg_text(p.inline);
    let none = Seq::<char>::empty();
    lemma_colour_pieces(ansi, 48, p.base);
    lemma_colour_pieces(ansi, 48, p.inline);
    assert(only_paint(p, pieces(base)));
    assert(only_paint(p, pieces(inline)));
    assert(only_paint(p, pieces(none)));
    lemma_styling_tame(base);
    lemma_styling_tame(inline);
    lemma_no_styling();
    lemma_styling_tame(none);
    if s.len() > 0 {
        lemma_pieces_step(s);
        let n = escape_len(s) as int;
        let q = pieces(s)[0];
        assert(tame_piece(q));
        let escape = s[0] == '\u{1b}' && 0 < n <= s.len();
        assert(escape == (n > 0)) by {
            if n > 0 {
                assert(q == Piece::Escape(s.take(n)));
                assert(s.take(n)[0] == s[0]);
            } else {
                assert(q == Piece::Character(s[0]));
            }
        }
        let k: int = if escape {
            n
        } else {
            1
        };
        let rest = s.skip(k);
        assert(pieces(s).skip(1) == pieces(rest));
        assert forall|j: int| 0 <= j < pieces(rest).len() implies tame_piece(
            #[trigger] pieces(rest)[j],
        ) && (pieces(rest)[j] is Escape ==> is_paint(p, pieces(rest)[j]->Escape_0)) by {
            assert(pieces(rest)[j] == pieces(s)[j + 1]);
            assert(tame_piece(pieces(s)[j + 1]));
        }
        let i = next_range(ranges, index, offset);
        let next = range_holds(ranges, i, offset);
        let (o2, i2, a2) = if escape {
            (offset, index, active)
        } else {
            (offset + utf8_width(s[0]), i, next)
        };
        lemma_inlined_paint(p, rest, ranges, o2, i2, a2);
        lemma_inlined_plain(rest, ranges, ansi, base, inline, o2, i2, a2);
        let tail = inlined(rest, ranges, ansi, base, inline, o2, i2, a2);
        lemma_tame_one(q);
        let own = piece_text(q);
        assert(only_paint(p, pieces(own))) by {
            assert(pieces(own)[0] == pieces(s)[0]);
        }
        let code = if escape {
            if active && is_reset(own, ansi) {
                inline
            } else {
                none
            }
        } else {
            if active == next {
                none
            } else if next {
                inline
            } else {
                base
            }
        };
        let head = if escape {
            own + code
        } else {
            code + own
        };
        if escape {
            lemma_tame_concat(own, code);
            lemma_paint_add(p, pieces(own), pieces(code));
        } else {
            lemma_tame_concat(code, own);
            lemma_paint_add(p, pieces(code), pieces(own));
        }
        lemma_tame_concat(head, tail);
        lemma_paint_add(p, pieces(head), pieces(tail));
        assert(inlined(s, ranges, ansi, base, inline, offset, index, active) == head + tail);
    }
}

proof fn lemma_kept_paint(p: Paint, ps: Seq<Piece>, keep: bool)
    requires
        only_paint(p, ps),
    ensures
        only_paint(p, kept_pieces(ps, keep)),
    decreases ps.len(),
{
    if ps.len() > 0 {
        let t = ps.skip(1);
        assert forall|k: int| 0 <= k < t.len() && (#[trigger] t[k]) is Escape implies is_paint(
            p,
            t[k]->Escape_0,
        ) by {
            assert(t[k] == ps[k + 1]);
        }
        lemma_kept_paint(p, t, keep);
        assert(only_paint(p, kept(ps[0], keep)));
        lemma_paint_add(p, kept(ps[0], keep), kept_pieces(t, keep));
    }
}

// ---------------------------------------------------------------------------
// Wrapped rows
// ---------------------------------------------------------------------------

/// A styling that paint can bring into force.
pub open spec fn is_painted(p: Paint, m: SgrModel) -> bool {
    &&& m.attrs == plain_style().attrs
    &&& m.fg.len() == 0 || (p.tokens && is_foreground(p.ansi, m.fg))
    &&& m.bg.len() == 0 || (p.parts && (m.bg == p.ansi.bg_text(p.base) || m.bg == p.ansi.bg_text(
        p.inline,
    )))
}

proof fn lemma_paint_styles(p: Paint, m: SgrModel, e: Seq<char>)
    requires
        is_painted(p, m),
        is_paint(p, e),
    ensures
        is_painted(p, styled(m, e)),
{
    law_colour_sequences(m, p.ansi, p.base);
    law_colour_sequences(m, p.ansi, p.inline);
    if is_foreground(p.ansi, e) {
        let hex = choose|hex: Seq<char>| e == #[trigger] p.ansi.fg_text(hex);
        law_colour_sequences(m, p.ansi, hex);
    }
}

proof fn lemma_paint_styled_by(p: Paint, m: SgrModel, ps: Seq<Piece>)
    requires
        is_painted(p, m),
        only_paint(p, ps),
    ensures
        is_painted(p, styled_by(m, ps)),
    decreases ps.len(),
{
    if ps.len() > 0 {
        let t = ps.drop_last();
        assert forall|k: int| 0 <= k < t.len() && (#[trigger] t[k]) is Escape implies is_paint(
            p,
            t[k]->Escape_0,
        ) by {
            assert(t[k] == ps[k]);
        }
        lemma_paint_styled_by(p, m, t);
        assert(ps[ps.len() - 1] == ps.last());
        if let Piece::Escape(e) = ps.last() {
            lemma_paint_styles(p, styled_by(m, t), e);
        }
    }
}

proof fn lemma_no_attrs(n: int)
    ensures
        n <= 10 ==> attr_codes(plain_style().attrs, n) == Seq::<char>::empty(),
    decreases n,
{
    if 0 < n <= 10 {
        lemma_no_attrs(n - 1);
        assert(!plain_style().attrs[n - 1]);
        assert(attr_codes(plain_style().attrs, n) =~= Seq::<char>::empty());
    }
}

proof fn lemma_code_paint(p: Paint, m: SgrModel)
    requires
        is_painted(p, m),
    ensures
        only_paint(p, pieces(style_code(m))),
        styling_only(style_code(m)),
{
    lemma_no_attrs(10);
    assert(style_code(m) =~= m.fg + m.bg);
    lemma_no_styling();
    let none = Seq::<char>::empty();
    if m.fg.len() > 0 {
        let hex = choose|hex: Seq<char>| m.fg == #[trigger] p.ansi.fg_text(hex);
        lemma_colour_pieces(p.ansi, 38, hex);
        assert(only_paint(p, pieces(m.fg)));
    } else {
        assert(m.fg =~= none);
        assert(only_paint(p, pieces(m.fg)));
    }
    if m.bg.len() > 0 {
        lemma_colour_pieces(p.ansi, 48, p.base);
        lemma_colour_pieces(p.ansi, 48, p.inline);
        assert(only_paint(p, pieces(m.bg)));
    } else {
        assert(m.bg =~= none);
        assert(only_paint(p, pieces(m.bg)));
    }
    lemma_clean_concat(m.fg, m.bg);
    lemma_styling_concat(m.fg, m.bg);
    lemma_paint_add(p, pieces(m.fg), pieces(m.bg));
}

proof fn lemma_part_paint(p: Paint, ps: Seq<Piece>, a: int, b: int)
    requires
        only_paint(p, ps),
        0 <= a <= b <= ps.len(),
    ensures
        only_paint(p, ps.subrange(a, b)),
{
    let t = ps.subrange(a, b);
    assert forall|k: int| 0 <= k < t.len() && (#[trigger] t[k]) is Escape implies is_paint(
        p,
        t[k]->Escape_0,
    ) by {
        assert(t[k] == ps[a + k]);
    }
}

proof fn lemma_rows_paint(
    p: Paint,
    ps: Seq<Piece>,
    start: int,
    style: SgrModel,
    limit: nat,
    continuation: nat,
)
    requires
        all_clean(ps),
        only_paint(p, ps),
        is_painted(p, style),
        0 <= start <= ps.len(),
    ensures
        forall|i: int|
            0 <= i < rows_from(ps, start, style, limit, continuation).len() ==> clean_text_seq(
                #[trigger] rows_from(ps, start, style, limit, continuation)[i],
            ) && only_paint(
                p,
                pieces(rows_from(ps, start, style, limit, continuation)[i]),
            ),
    decreases ps.len() - start,
{
    if start < ps.len() {
        lemma_break_at(ps, start, limit);
        let (end, next) = break_at(ps, start, limit);
        let row = ps.subrange(start, end);
        let after = styled_by(style, ps.subrange(start, next));
        lemma_part_paint(p, ps, start, end);
        lemma_part_paint(p, ps, start, next);
        lemma_clean_part(ps, start, end);
        lemma_paint_styled_by(p, style, ps.subrange(start, next));
        lemma_rows_paint(p, ps, next, after, continuation, continuation);
        lemma_code_paint(p, style);
        lemma_reparse(row);
        lemma_clean_concat(style_code(style), flatten(row));
        lemma_paint_add(p, pieces(style_code(style)), row);
        let rest = rows_from(ps, next, after, continuation, continuation);
        let rows = rows_from(ps, start, style, limit, continuation);
        assert(rows == seq![style_code(style) + flatten(row)] + rest);
        assert forall|i: int| 0 <= i < rows.len() implies clean_text_seq(#[trigger] rows[i])
            && only_paint(p, pieces(rows[i])) by {
            if i > 0 {
                assert(rows[i] == rest[i - 1]);
            }
        }
    }
}

pub proof fn lemma_wrapped_paint(p: Paint, s: Seq<char>, first: nat, continuation: nat)
    requires
        only_paint(p, pieces(s)),
    ensures
        forall|i: int|
            0 <= i < wrapped(s, first, continuation).len() ==> clean_text_seq(
                #[trigger] wrapped(s, first, continuation)[i],
            ) && only_paint(p, pieces(wrapped(s, first, continuation)[i])),
{
    let ps = kept_pieces(pieces(s), true);
    lemma_kept_clean(pieces(s), true);
    lemma_kept_paint(p, pieces(s), true);
    lemma_rows_paint(
        p,
        ps,
        0,
        plain_style(),
        at_least_one(first),
        at_least_one(continuation),
    );
    let rows = rows_from(
        ps,
        0,
        plain_style(),
        at_least_one(first),
        at_least_one(continuation),
    );
    if rows.len() == 0 {
        let none = Seq::<char>::empty();
        assert(wrapped(s, first, continuation)[0] =~= none);
        assert(pieces(none) =~= Seq::<Piece>::empty());
    }
}

} // verus!

//! What holds of wrapped rows.
use vstd::prelude::*;
use crate::syntax::{lemma_plain_pieces, no_introducer};
use crate::tui_style::{
    lemma_decimal_digits, lemma_kept_twice, lemma_no_styling, lemma_params_sgr, lemma_styling_concat,
    lemma_styling_invisible, styling_only,
};
use crate::tui_text::{
    all_clean, cell_width, clean_piece, cleaned, flatten, kept_pieces, law_pieces_lossless,
    lemma_clean_concat, lemma_clean_is_tame, lemma_flatten_add, lemma_kept_clean, lemma_reparse,
    lemma_reparse_tame, pieces, pieces_width, sgr_param, tame_piece, Piece,
};
use crate::tui_wrap::{
    at_least_one, attr_codes, break_at, characters, counted_scan, fresh_scan, joined_numbers,
    lemma_break_at, lemma_break_counted, lemma_characters, lemma_characters_kept, lemma_kept_add,
    lemma_no_characters, lemma_visible_monotone, lemma_visible_prefix, plain_style, row_break,
    rows_from, scanned, sgr_numbers, sgr_sequence, style_code, style_step, style_steps, styled_by,
    visible_before, wrapped, wrapped_pieces, Scan, SgrModel,
};
use crate::util::decimal;

verus! {

// ---------------------------------------------------------------------------
// The styling at the start of a row
// ---------------------------------------------------------------------------

proof fn lemma_joined_numbers(v: Seq<nat>)
    ensures
        forall|k: int| 0 <= k < joined_numbers(v).len() ==> sgr_param(#[trigger] joined_numbers(v)[k]),
    decreases v.len(),
{
    if v.len() == 1 {
        lemma_decimal_digits(v[0]);
    } else if v.len() > 1 {
        lemma_joined_numbers(v.drop_last());
        lemma_decimal_digits(v.last());
        reveal_strlit(";");
        let head = joined_numbers(v.drop_last());
        let tail = decimal(v.last());
        assert(";"@.len() == 1 && ";"@[0] == ';');
        assert forall|k: int| 0 <= k < joined_numbers(v).len() implies sgr_param(
            #[trigger] joined_numbers(v)[k],
        ) by {
            if k < head.len() {
                assert(joined_numbers(v)[k] == head[k]);
            } else if k == head.len() {
                assert(joined_numbers(v)[k] == ';');
            } else {
                assert(joined_numbers(v)[k] == tail[k - head.len() - 1]);
            }
        }
    }
}

proof fn lemma_sequence_styling(v: Seq<nat>)
    ensures
        styling_only(sgr_sequence(v)),
{
    lemma_joined_numbers(v);
    lemma_params_sgr(joined_numbers(v));
}

/// The colours of a styling are sequences that style.
pub open spec fn colours_style(m: SgrModel) -> bool {
    styling_only(m.fg) && styling_only(m.bg)
}

proof fn lemma_steps_style(m: SgrModel, v: Seq<nat>, i: int)
    requires
        colours_style(m),
    ensures
        colours_style(style_steps(m, v, i)),
    decreases v.len() - i,
{
    if !(i < 0 || i >= v.len() || style_step(m, v, i).1 <= 0) {
        let (n, count) = style_step(m, v, i);
        lemma_no_styling();
        lemma_sequence_styling(seq![v[i]]);
        lemma_sequence_styling(v.subrange(i, i + crate::tui_wrap::color_params(v, i)));
        lemma_steps_style(n, v, i + count);
    }
}

pub proof fn lemma_styled_by_style(m: SgrModel, ps: Seq<Piece>)
    requires
        colours_style(m),
    ensures
        colours_style(styled_by(m, ps)),
    decreases ps.len(),
{
    if ps.len() > 0 {
        lemma_styled_by_style(m, ps.drop_last());
        if let Piece::Escape(e) = ps.last() {
            lemma_steps_style(
                styled_by(m, ps.drop_last()),
                sgr_numbers(e.subrange(2, e.len() - 1)),
                0,
            );
        }
    }
}

proof fn lemma_attr_codes_style(attrs: Seq<bool>, n: int)
    ensures
        styling_only(attr_codes(attrs, n)),
    decreases n,
{
    lemma_no_styling();
    if n > 0 {
        lemma_attr_codes_style(attrs, n - 1);
        lemma_sequence_styling(seq![(n - 1) as nat]);
        lemma_styling_concat(
            attr_codes(attrs, n - 1),
            if attrs[n - 1] {
                sgr_sequence(seq![(n - 1) as nat])
            } else {
                seq![]
            },
        );
    }
}

pub proof fn lemma_code_styles(m: SgrModel)
    requires
        colours_style(m),
    ensures
        styling_only(style_code(m)),
{
    lemma_attr_codes_style(m.attrs, 10);
    lemma_styling_concat(attr_codes(m.attrs, 10), m.fg);
    lemma_styling_concat(attr_codes(m.attrs, 10) + m.fg, m.bg);
}

// ---------------------------------------------------------------------------
// Nothing but spaces is lost
// ---------------------------------------------------------------------------

/// The characters that are no spaces.
pub open spec fn solid(ps: Seq<Piece>) -> Seq<char>
    decreases ps.len(),
{
    if ps.len() == 0 {
        seq![]
    } else {
        solid(ps.drop_last()) + (match ps.last() {
            Piece::Character(c) => if c == ' ' {
                seq![]
            } else {
                seq![c]
            },
            Piece::Escape(_) => seq![],
        })
    }
}

proof fn lemma_solid_add(a: Seq<Piece>, b: Seq<Piece>)
    ensures
        solid(a + b) == solid(a) + solid(b),
    decreases b.len(),
{
    if b.len() == 0 {
        assert(a + b =~= a);
        assert(solid(a) + solid(b) =~= solid(a));
    } else {
        assert((a + b).drop_last() =~= a + b.drop_last());
        lemma_solid_add(a, b.drop_last());
        assert(solid(a + b) =~= solid(a) + solid(b));
    }
}

proof fn lemma_nothing_solid(ps: Seq<Piece>)
    requires
        forall|k: int|
            0 <= k < ps.len() && (#[trigger] ps[k]) is Character ==> ps[k] == Piece::Character(' '),
    ensures
        solid(ps) == Seq::<char>::empty(),
    decreases ps.len(),
{
    if ps.len() > 0 {
        let t = ps.drop_last();
        assert forall|k: int| 0 <= k < t.len() && (#[trigger] t[k]) is Character implies t[k]
            == Piece::Character(' ') by {
            assert(t[k] == ps[k]);
        }
        lemma_nothing_solid(t);
        assert(ps[ps.len() - 1] == ps.last());
        assert(solid(ps) =~= Seq::<char>::empty());
    }
}

/// The characters of rows that are no spaces.
pub open spec fn rows_solid(rows: Seq<Seq<char>>) -> Seq<char>
    decreases rows.len(),
{
    if rows.len() == 0 {
        seq![]
    } else {
        solid(pieces(rows[0])) + rows_solid(rows.skip(1))
    }
}

/// The text of a row is read as the styling and the pieces that it is made of.
proof fn lemma_row_pieces(style: SgrModel, ps: Seq<Piece>)
    requires
        colours_style(style),
        all_clean(ps),
    ensures
        solid(pieces(style_code(style) + flatten(ps))) == solid(ps),
        pieces_width(pieces(style_code(style) + flatten(ps))) == pieces_width(ps),
{
    lemma_code_styles(style);
    lemma_reparse(ps);
    lemma_clean_concat(style_code(style), flatten(ps));
    let code = pieces(style_code(style));
    lemma_solid_add(code, ps);
    assert forall|k: int| 0 <= k < code.len() && (#[trigger] code[k]) is Character implies code[k]
        == Piece::Character(' ') by {
        assert(code[k] is Escape);
    }
    lemma_nothing_solid(code);
    assert(Seq::<char>::empty() + solid(ps) =~= solid(ps));
    crate::tui_text::lemma_width_add(code, ps);
    lemma_styling_invisible(style_code(style));
}

proof fn lemma_rows_solid(
    ps: Seq<Piece>,
    start: int,
    style: SgrModel,
    limit: nat,
    continuation: nat,
)
    requires
        all_clean(ps),
        colours_style(style),
        0 <= start <= ps.len(),
    ensures
        rows_solid(rows_from(ps, start, style, limit, continuation)) == solid(ps.skip(start)),
    decreases ps.len() - start,
{
    if start == ps.len() {
        assert(ps.skip(start) =~= Seq::<Piece>::empty());
    } else {
        lemma_break_at(ps, start, limit);
        let (end, next) = break_at(ps, start, limit);
        let row = ps.subrange(start, end);
        let gap = ps.subrange(end, next);
        let after = styled_by(style, ps.subrange(start, next));
        lemma_styled_by_style(style, ps.subrange(start, next));
        assert forall|k: int| 0 <= k < row.len() implies clean_piece(#[trigger] row[k]) by {
            assert(clean_piece(ps[start + k]));
        }
        lemma_row_pieces(style, row);
        assert forall|k: int| 0 <= k < gap.len() && (#[trigger] gap[k]) is Character implies gap[k]
            == Piece::Character(' ') by {
            assert(gap[k] == ps[end + k]);
        }
        lemma_nothing_solid(gap);
        lemma_rows_solid(ps, next, after, continuation, continuation);
        assert(ps.skip(start) =~= row + gap + ps.skip(next));
        lemma_solid_add(row, gap);
        lemma_solid_add(row + gap, ps.skip(next));
        let rest = rows_from(ps, next, after, continuation, continuation);
        let rows = rows_from(ps, start, style, limit, continuation);
        assert(rows == seq![style_code(style) + flatten(row)] + rest);
        assert(rows.skip(1) =~= rest);
        assert(solid(row) + Seq::<char>::empty() =~= solid(row));
    }
}

/// Wrapping loses nothing but spaces: the other characters of a text are those
/// of its rows, in order.
pub proof fn law_wrapping_keeps_text(s: Seq<char>, first: nat, continuation: nat)
    ensures
        rows_solid(wrapped(s, first, continuation)) == solid(kept_pieces(pieces(s), true)),
{
    let ps = kept_pieces(pieces(s), true);
    lemma_kept_clean(pieces(s), true);
    lemma_no_styling();
    lemma_rows_solid(ps, 0, plain_style(), at_least_one(first), at_least_one(continuation));
    assert(ps.skip(0) =~= ps);
    let rows = rows_from(
        ps,
        0,
        plain_style(),
        at_least_one(first),
        at_least_one(continuation),
    );
    if rows.len() == 0 {
        let one = seq![Seq::<char>::empty()];
        assert(rows_solid(one) =~= solid(pieces(one[0])) + rows_solid(one.skip(1)));
        assert(one.skip(1) =~= Seq::<Seq<char>>::empty());
        assert(pieces(one[0]) =~= Seq::<Piece>::empty());
        assert(solid(Seq::<Piece>::empty()) =~= Seq::<char>::empty());
        assert(rows_solid(one) =~= Seq::<char>::empty());
        assert(wrapped(s, first, continuation) == one);
    }
}

// ---------------------------------------------------------------------------
// Rows fit
// ---------------------------------------------------------------------------

/// How many characters take room.
pub open spec fn wide_characters(ps: Seq<Piece>) -> nat
    decreases ps.len(),
{
    if ps.len() == 0 {
        0
    } else {
        wide_characters(ps.drop_last()) + (match ps.last() {
            Piece::Character(c) => if cell_width(c) > 0 {
                1nat
            } else {
                0
            },
            Piece::Escape(_) => 0,
        })
    }
}

/// Whether pieces fit: they take no more room than there is, or they are one
/// character that is wider than that.
pub open spec fn fits(ps: Seq<Piece>, limit: nat) -> bool {
    pieces_width(ps) <= limit || wide_characters(ps) <= 1
}

proof fn lemma_width_push(ps: Seq<Piece>)
    requires
        ps.len() > 0,
    ensures
        pieces_width(ps) == pieces_width(ps.drop_last()) + (match ps.last() {
            Piece::Character(c) => cell_width(c),
            Piece::Escape(_) => 0,
        }),
{
    let last = seq![ps.last()];
    assert(ps =~= ps.drop_last() + last);
    crate::tui_text::lemma_width_add(ps.drop_last(), last);
    crate::tui_text::lemma_width_one(ps.last());
}

proof fn lemma_no_wide(ps: Seq<Piece>)
    ensures
        pieces_width(ps) == 0 ==> wide_characters(ps) == 0,
    decreases ps.len(),
{
    if ps.len() > 0 {
        lemma_width_push(ps);
        lemma_no_wide(ps.drop_last());
    }
}

proof fn lemma_prefix_fits(ps: Seq<Piece>, n: int, limit: nat)
    requires
        0 <= n <= ps.len(),
        fits(ps, limit),
    ensures
        fits(ps.take(n), limit),
    decreases ps.len() - n,
{
    if n < ps.len() {
        lemma_prefix_fits(ps, n + 1, limit);
        let t = ps.take(n + 1);
        assert(t.drop_last() =~= ps.take(n));
        lemma_width_push(t);
    } else {
        assert(ps.take(n) =~= ps);
    }
}

proof fn lemma_break_fits(ps: Seq<Piece>, start: int, limit: nat, i: int, k: Scan)
    requires
        0 <= start <= i <= ps.len(),
        fits(ps.subrange(start, i), limit),
        k.visible == pieces_width(ps.subrange(start, i)),
        k.breakpoint matches Some((end, _)) ==> start <= end <= i,
    ensures
        ({
            let (end, _) = row_break(ps, start, limit, i, k);
            start <= end <= ps.len() && fits(ps.subrange(start, end), limit)
        }),
    decreases ps.len() - i,
{
    if i < ps.len() {
        let now = ps.subrange(start, i);
        let more = ps.subrange(start, i + 1);
        assert(more.drop_last() =~= now);
        assert(more.last() == ps[i]);
        lemma_width_push(more);
        lemma_no_wide(now);
        match ps[i] {
            Piece::Escape(_) => {
                lemma_break_fits(ps, start, limit, i + 1, k);
            },
            Piece::Character(c) => {
                if k.visible > 0 && k.visible + cell_width(c) > limit {
                    if let Some((end, next)) = k.breakpoint {
                        if end > start {
                            lemma_prefix_fits(now, end - start, limit);
                            assert(now.take(end - start) =~= ps.subrange(start, end));
                        }
                    }
                } else {
                    lemma_break_fits(ps, start, limit, i + 1, scanned(k, c, i));
                }
            },
        }
    }
}

/// A row takes no more room than there is, unless it is one character that is
/// wider than that.
pub proof fn law_rows_fit(ps: Seq<Piece>, start: int, limit: nat)
    requires
        0 <= start < ps.len(),
    ensures
        fits(ps.subrange(start, break_at(ps, start, limit).0), limit),
{
    let none = ps.subrange(start, start);
    assert(none =~= Seq::<Piece>::empty());
    lemma_break_fits(ps, start, limit, start, fresh_scan());
}

proof fn lemma_wide_add(a: Seq<Piece>, b: Seq<Piece>)
    ensures
        wide_characters(a + b) == wide_characters(a) + wide_characters(b),
    decreases b.len(),
{
    if b.len() == 0 {
        assert(a + b =~= a);
    } else {
        assert((a + b).drop_last() =~= a + b.drop_last());
        lemma_wide_add(a, b.drop_last());
    }
}

/// A row fits where the pieces that it is made of do.
proof fn lemma_row_fits(style: SgrModel, ps: Seq<Piece>, limit: nat)
    requires
        colours_style(style),
        all_clean(ps),
        fits(ps, limit),
    ensures
        fits(pieces(style_code(style) + flatten(ps)), limit),
{
    lemma_row_pieces(style, ps);
    lemma_code_styles(style);
    lemma_reparse(ps);
    lemma_clean_concat(style_code(style), flatten(ps));
    let code = pieces(style_code(style));
    lemma_wide_add(code, ps);
    lemma_styling_invisible(style_code(style));
    lemma_no_wide(code);
}

proof fn lemma_rows_fit(
    ps: Seq<Piece>,
    start: int,
    style: SgrModel,
    limit: nat,
    continuation: nat,
)
    requires
        all_clean(ps),
        colours_style(style),
        0 <= start <= ps.len(),
    ensures
        forall|i: int|
            0 <= i < rows_from(ps, start, style, limit, continuation).len() ==> fits(
                pieces(#[trigger] rows_from(ps, start, style, limit, continuation)[i]),
                if i == 0 {
                    limit
                } else {
                    continuation
                },
            ),
    decreases ps.len() - start,
{
    if start < ps.len() {
        lemma_break_at(ps, start, limit);
        law_rows_fit(ps, start, limit);
        let (end, next) = break_at(ps, start, limit);
        let row = ps.subrange(start, end);
        let after = styled_by(style, ps.subrange(start, next));
        lemma_styled_by_style(style, ps.subrange(start, next));
        assert forall|k: int| 0 <= k < row.len() implies clean_piece(#[trigger] row[k]) by {
            assert(clean_piece(ps[start + k]));
        }
        lemma_row_fits(style, row, limit);
        lemma_rows_fit(ps, next, after, continuation, continuation);
        let rest = rows_from(ps, next, after, continuation, continuation);
        let rows = rows_from(ps, start, style, limit, continuation);
        assert(rows == seq![style_code(style) + flatten(row)] + rest);
        assert forall|i: int| 0 <= i < rows.len() implies fits(
            pieces(#[trigger] rows[i]),
            if i == 0 {
                limit
            } else {
                continuation
            },
        ) by {
            if i > 0 {
                assert(rows[i] == rest[i - 1]);
            }
        }
    }
}

/// The room that a wrapped row has.
pub open spec fn row_room(i: int, first: nat, continuation: nat) -> nat {
    if i == 0 {
        at_least_one(first)
    } else {
        at_least_one(continuation)
    }
}

/// Every wrapped row takes no more room than there is for it, unless it is one
/// character that is wider than that; and there is at least one row.
pub proof fn law_wrapped_rows_fit(s: Seq<char>, first: nat, continuation: nat)
    ensures
        wrapped(s, first, continuation).len() >= 1,
        forall|i: int|
            0 <= i < wrapped(s, first, continuation).len() ==> fits(
                pieces(#[trigger] wrapped(s, first, continuation)[i]),
                row_room(i, first, continuation),
            ),
{
    let ps = kept_pieces(pieces(s), true);
    lemma_kept_clean(pieces(s), true);
    lemma_no_styling();
    lemma_rows_fit(ps, 0, plain_style(), at_least_one(first), at_least_one(continuation));
    let rows = rows_from(
        ps,
        0,
        plain_style(),
        at_least_one(first),
        at_least_one(continuation),
    );
    if rows.len() == 0 {
        assert(wrapped(s, first, continuation)[0] =~= Seq::<char>::empty());
        assert(pieces(Seq::<char>::empty()) =~= Seq::<Piece>::empty());
    }
}

// ---------------------------------------------------------------------------
// Styling moves no break
// ---------------------------------------------------------------------------

/// The text of a row without its styling.
proof fn lemma_row_cleaned(style: SgrModel, ps: Seq<Piece>)
    requires
        colours_style(style),
        all_clean(ps),
    ensures
        cleaned(style_code(style) + flatten(ps), false) == flatten(characters(ps)),
{
    lemma_code_styles(style);
    lemma_reparse(ps);
    lemma_clean_concat(style_code(style), flatten(ps));
    let code = pieces(style_code(style));
    lemma_kept_add(code, ps, false);
    lemma_styling_invisible(style_code(style));
    lemma_characters_kept(ps);
    assert(Seq::<Piece>::empty() + characters(ps) =~= characters(ps));
}

proof fn lemma_characters_add(a: Seq<Piece>, b: Seq<Piece>)
    ensures
        characters(a + b) == characters(a) + characters(b),
    decreases b.len(),
{
    if b.len() == 0 {
        assert(a + b =~= a);
        assert(characters(a) + characters(b) =~= characters(a));
    } else {
        assert((a + b).drop_last() =~= a + b.drop_last());
        lemma_characters_add(a, b.drop_last());
        assert(characters(a + b) =~= characters(a) + characters(b));
    }
}

/// The characters of a part are a part of the characters.
proof fn lemma_characters_part(ps: Seq<Piece>, start: int, end: int)
    requires
        0 <= start <= end <= ps.len(),
    ensures
        0 <= visible_before(ps, start) <= visible_before(ps, end) <= characters(ps).len(),
        characters(ps.subrange(start, end)) == characters(ps).subrange(
            visible_before(ps, start),
            visible_before(ps, end),
        ),
{
    let head = ps.take(start);
    let part = ps.subrange(start, end);
    let tail = ps.skip(end);
    assert(ps.take(end) =~= head + part);
    assert(ps =~= ps.take(end) + tail);
    lemma_characters_add(head, part);
    lemma_characters_add(ps.take(end), tail);
    lemma_characters(head, start);
    lemma_characters(ps.take(end), end);
    lemma_visible_prefix(head, ps, start);
    lemma_visible_prefix(ps.take(end), ps, end);
    assert(characters(part) =~= characters(ps).subrange(
        visible_before(ps, start),
        visible_before(ps, end),
    ));
}

/// The characters of characters are the same.
proof fn lemma_characters_twice(ps: Seq<Piece>)
    ensures
        characters(characters(ps)) == characters(ps),
        all_clean(ps) ==> all_clean(characters(ps)),
    decreases ps.len(),
{
    if ps.len() > 0 {
        let t = ps.drop_last();
        lemma_characters_twice(t);
        if all_clean(ps) {
            assert forall|k: int| 0 <= k < t.len() implies clean_piece(#[trigger] t[k]) by {
                assert(t[k] == ps[k]);
                assert(clean_piece(ps[k]));
            }
            assert(clean_piece(ps[ps.len() - 1]));
        }
        if ps.last() is Character {
            let c = characters(ps);
            assert(c.drop_last() =~= characters(t));
        }
    }
}

pub proof fn lemma_clean_part(ps: Seq<Piece>, start: int, end: int)
    requires
        all_clean(ps),
        0 <= start <= end <= ps.len(),
    ensures
        all_clean(ps.subrange(start, end)),
{
    let part = ps.subrange(start, end);
    assert forall|k: int| 0 <= k < part.len() implies clean_piece(#[trigger] part[k]) by {
        assert(clean_piece(ps[start + k]));
    }
}

/// The rows of pieces read, without their styling, as the rows of their
/// characters.
proof fn lemma_rows_text(
    ps: Seq<Piece>,
    start: int,
    a: SgrModel,
    b: SgrModel,
    limit: nat,
    continuation: nat,
)
    requires
        all_clean(ps),
        colours_style(a),
        colours_style(b),
        0 <= start <= ps.len(),
        start < ps.len() ==> exists|j: int|
            start <= j < ps.len() && (#[trigger] ps[j]) is Character,
    ensures
        ({
            let x = rows_from(ps, start, a, limit, continuation);
            let y = rows_from(characters(ps), visible_before(ps, start), b, limit, continuation);
            &&& x.len() == y.len()
            &&& forall|i: int|
                0 <= i < x.len() ==> cleaned(#[trigger] x[i], false) == cleaned(y[i], false)
        }),
    decreases ps.len() - start,
{
    let vs = characters(ps);
    lemma_characters(ps, ps.len() as int);
    if start < ps.len() {
        let j = choose|j: int| start <= j < ps.len() && (#[trigger] ps[j]) is Character;
        lemma_visible_monotone(ps, start, j);
        lemma_visible_monotone(ps, 0, start);
        lemma_visible_monotone(ps, j + 1, ps.len() as int);
        assert(visible_before(ps, j + 1) == visible_before(ps, j) + 1);
        let (end, next) = break_at(ps, start, limit);
        lemma_break_at(ps, start, limit);
        lemma_break_counted(ps, start, limit, start, fresh_scan());
        let vstart = visible_before(ps, start);
        let vend = visible_before(ps, end);
        let vnext = visible_before(ps, next);
        assert(counted_scan(ps, fresh_scan()) == fresh_scan());
        assert(break_at(vs, vstart, limit) == (vend, vnext));
        lemma_break_at(vs, vstart, limit);
        let sa = styled_by(a, ps.subrange(start, next));
        let sb = styled_by(b, vs.subrange(vstart, vnext));
        lemma_styled_by_style(a, ps.subrange(start, next));
        lemma_styled_by_style(b, vs.subrange(vstart, vnext));
        lemma_rows_text(ps, next, sa, sb, continuation, continuation);
        let part = ps.subrange(start, end);
        let vpart = vs.subrange(vstart, vend);
        lemma_characters_twice(ps);
        lemma_characters_part(ps, start, end);
        lemma_clean_part(ps, start, end);
        lemma_clean_part(vs, vstart, vend);
        lemma_characters_twice(part);
        lemma_row_cleaned(a, part);
        lemma_row_cleaned(b, vpart);
        let rest_a = rows_from(ps, next, sa, continuation, continuation);
        let rest_b = rows_from(vs, vnext, sb, continuation, continuation);
        let x = rows_from(ps, start, a, limit, continuation);
        let y = rows_from(vs, vstart, b, limit, continuation);
        assert(x == seq![style_code(a) + flatten(part)] + rest_a);
        assert(y == seq![style_code(b) + flatten(vpart)] + rest_b);
        assert forall|i: int| 0 <= i < x.len() implies cleaned(#[trigger] x[i], false) == cleaned(
            y[i],
            false,
        ) by {
            if i > 0 {
                assert(x[i] == rest_a[i - 1] && y[i] == rest_b[i - 1]);
            }
        }
    }
}

/// The rows of a text read, without their styling, as the rows of its
/// characters.
proof fn lemma_wrapped_text(s: Seq<char>, first: nat, continuation: nat)
    ensures
        ({
            let x = wrapped(s, first, continuation);
            let y = wrapped_pieces(kept_pieces(pieces(s), false), first, continuation);
            &&& x.len() == y.len()
            &&& forall|i: int|
                0 <= i < x.len() ==> cleaned(#[trigger] x[i], false) == cleaned(y[i], false)
        }),
{
    let ps = kept_pieces(pieces(s), true);
    let vs = characters(ps);
    let a = at_least_one(first);
    let b = at_least_one(continuation);
    lemma_kept_clean(pieces(s), true);
    lemma_characters_kept(ps);
    lemma_kept_twice(pieces(s));
    assert(vs == kept_pieces(pieces(s), false));
    lemma_no_styling();
    if exists|j: int| 0 <= j < ps.len() && (#[trigger] ps[j]) is Character {
        lemma_rows_text(ps, 0, plain_style(), plain_style(), a, b);
    } else {
        lemma_no_characters(ps);
        assert(vs =~= Seq::<Piece>::empty());
        if ps.len() > 0 {
            lemma_break_at(ps, 0, a);
            let (end, next) = break_at(ps, 0, a);
            assert(next == ps.len());
            let row = ps.subrange(0, end);
            let after = styled_by(plain_style(), ps.subrange(0, next));
            assert(rows_from(ps, next, after, b, b).len() == 0);
            assert(wrapped(s, first, continuation) =~= seq![
                style_code(plain_style()) + flatten(row),
            ]);
            lemma_clean_part(ps, 0, end);
            lemma_row_cleaned(plain_style(), row);
            lemma_characters_part(ps, 0, end);
            assert(characters(row) =~= Seq::<Piece>::empty());
            assert(cleaned(Seq::<char>::empty(), false) =~= Seq::<char>::empty());
        }
    }
}

/// Styling moves no break: texts that differ in nothing but their styling have
/// the same rows, row by row, but for the styling.
pub proof fn law_styling_moves_no_break(a: Seq<char>, b: Seq<char>, first: nat, continuation: nat)
    requires
        kept_pieces(pieces(a), false) == kept_pieces(pieces(b), false),
    ensures
        wrapped(a, first, continuation).len() == wrapped(b, first, continuation).len(),
        forall|i: int|
            0 <= i < wrapped(a, first, continuation).len() ==> cleaned(
                #[trigger] wrapped(a, first, continuation)[i],
                false,
            ) == cleaned(wrapped(b, first, continuation)[i], false),
{
    lemma_wrapped_text(a, first, continuation);
    lemma_wrapped_text(b, first, continuation);
    let y = wrapped_pieces(kept_pieces(pieces(a), false), first, continuation);
    let x = wrapped(a, first, continuation);
    let z = wrapped(b, first, continuation);
    assert forall|i: int| 0 <= i < x.len() implies cleaned(#[trigger] x[i], false) == cleaned(
        z[i],
        false,
    ) by {
        assert(cleaned(x[i], false) == cleaned(y[i], false));
        assert(cleaned(z[i], false) == cleaned(y[i], false));
    }
}

/// A text that is put between two stylings reads, row by row, as it does
/// without them.
pub proof fn law_styled_text_reads_the_same(
    before: Seq<char>,
    text: Seq<char>,
    after: Seq<char>,
    first: nat,
    continuation: nat,
)
    requires
        styling_only(before),
        styling_only(after),
        no_introducer(text),
    ensures
        ({
            let x = wrapped(text, first, continuation);
            let y = wrapped(before + text + after, first, continuation);
            &&& x.len() == y.len()
            &&& forall|i: int|
                0 <= i < x.len() ==> cleaned(#[trigger] x[i], false) == cleaned(y[i], false)
        }),
{
    let pa = pieces(before);
    let pt = pieces(text);
    let pz = pieces(after);
    lemma_plain_pieces(text);
    law_pieces_lossless(before);
    law_pieces_lossless(text);
    law_pieces_lossless(after);
    lemma_clean_is_tame(pa);
    lemma_clean_is_tame(pz);
    lemma_flatten_add(pa, pt);
    lemma_flatten_add(pa + pt, pz);
    let all = pa + pt + pz;
    assert forall|k: int| 0 <= k < all.len() implies tame_piece(#[trigger] all[k]) by {
        if k < pa.len() {
            assert(all[k] == pa[k]);
        } else if k < pa.len() + pt.len() {
            assert(all[k] == pt[k - pa.len()]);
        } else {
            assert(all[k] == pz[k - pa.len() - pt.len()]);
        }
    }
    lemma_reparse_tame(all);
    assert(pieces(before + text + after) == all);
    lemma_kept_add(pa, pt, false);
    lemma_kept_add(pa + pt, pz, false);
    lemma_styling_invisible(before);
    lemma_styling_invisible(after);
    let kept = kept_pieces(pt, false);
    assert(Seq::<Piece>::empty() + kept + Seq::<Piece>::empty() =~= kept);
    law_styling_moves_no_break(text, before + text + after, first, continuation);
}

} // verus!

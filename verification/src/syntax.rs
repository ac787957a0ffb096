//! Syntax tokens, and lines with their tokens coloured.
use vstd::prelude::*;
use crate::inline_diff::char_len;
use crate::syntax_grammars;
use crate::theme::{Ansi, Color, ThemeTokens};
use crate::tui_style::{
    lemma_color_styling, lemma_reset_styling, lemma_styling_tame, lemma_tame_concat,
};
use crate::tui_text::{
    all_tame, introducer, kept_pieces, lemma_pieces_step, pieces, push_range, tame_piece, Piece,
};
use crate::util::{
    byte_len, byte_pos, chars_of, checked_byte_len, lemma_byte_pos_monotone, utf8_width,
};

verus! {

#[derive(Clone, Copy, Debug, PartialEq, Eq, Structural)]
pub enum HighlightMode {
    TreeSitter,
    Disabled,
}

impl HighlightMode {
    pub open spec fn label_text(self) -> Seq<char> {
        match self {
            HighlightMode::TreeSitter => "tree_sitter"@,
            HighlightMode::Disabled => "disabled"@,
        }
    }

    pub fn label(self) -> (r: &'static str)
        ensures
            r@ == self.label_text(),
    {
        match self {
            HighlightMode::TreeSitter => "tree_sitter",
            HighlightMode::Disabled => "disabled",
        }
    }
}

#[derive(Clone, Copy, Debug, PartialEq, Eq, Structural)]
pub enum SyntaxToken {
    Keyword,
    String,
    Comment,
    Type,
    Function,
    Number,
    Operator,
    Plain,
}

/// A token of a line, by the bytes that it takes.
#[derive(Clone, Copy, Debug, PartialEq, Eq, Structural)]
pub struct HighlightSpan {
    pub start_byte: usize,
    pub end_byte: usize,
    pub token: SyntaxToken,
}

/// Whether files of a language are highlighted.
pub fn mode_for_language(language: Option<&str>) -> (r: HighlightMode)
    ensures
        r == match language {
            Some(l) => if syntax_grammars::has_grammar(l@) {
                HighlightMode::TreeSitter
            } else {
                HighlightMode::Disabled
            },
            None => HighlightMode::Disabled,
        },
{
    match language {
        Some(l) => match syntax_grammars::find(l) {
            Some(_) => HighlightMode::TreeSitter,
            None => HighlightMode::Disabled,
        },
        None => HighlightMode::Disabled,
    }
}

/// The colour of a token.
pub open spec fn token_color(t: ThemeTokens, token: SyntaxToken) -> Seq<char> {
    match token {
        SyntaxToken::Keyword => t.syntax_keyword.hex@,
        SyntaxToken::String => t.syntax_string.hex@,
        SyntaxToken::Comment => t.syntax_comment.hex@,
        SyntaxToken::Type => t.syntax_type.hex@,
        SyntaxToken::Function => t.syntax_function.hex@,
        SyntaxToken::Number => t.syntax_number.hex@,
        SyntaxToken::Operator => t.syntax_operator.hex@,
        SyntaxToken::Plain => t.syntax_plain.hex@,
    }
}

fn color_for_token(t: ThemeTokens, token: SyntaxToken) -> (r: Color)
    ensures
        r.hex@ == token_color(t, token),
{
    match token {
        SyntaxToken::Keyword => t.syntax_keyword,
        SyntaxToken::String => t.syntax_string,
        SyntaxToken::Comment => t.syntax_comment,
        SyntaxToken::Type => t.syntax_type,
        SyntaxToken::Function => t.syntax_function,
        SyntaxToken::Number => t.syntax_number,
        SyntaxToken::Operator => t.syntax_operator,
        SyntaxToken::Plain => t.syntax_plain,
    }
}

/// The index of the character that starts at a byte offset, looking from the
/// character `i` on; the length stands for the end of the text.
pub open spec fn char_index(s: Seq<char>, i: int, offset: int) -> Option<int>
    decreases s.len() - i,
{
    if i < 0 || i > s.len() {
        None
    } else if byte_pos(s, i) == offset {
        Some(i)
    } else if i >= s.len() {
        None
    } else {
        char_index(s, i + 1, offset)
    }
}

/// Whether a span can be shown after the text before `cursor` has been: it
/// reaches past it, lies inside the text, and does not cut a character.  If
/// so, the characters that it starts and ends with.
pub open spec fn span_place(s: Seq<char>, span: HighlightSpan, cursor: int) -> Option<(int, int)> {
    let at = byte_pos(s, cursor) as int;
    let start = if span.start_byte >= at {
        span.start_byte as int
    } else {
        at
    };
    if span.end_byte <= at || span.start_byte >= byte_len(s) || span.end_byte > byte_len(s)
        || span.start_byte >= span.end_byte {
        None
    } else {
        match (char_index(s, 0, start), char_index(s, 0, span.end_byte as int)) {
            (Some(a), Some(b)) => Some((a, b)),
            _ => None,
        }
    }
}

/// A line with the spans from `k` on coloured, after the first `cursor`
/// characters.
pub open spec fn highlighted_from(
    s: Seq<char>,
    spans: Seq<HighlightSpan>,
    ansi: Ansi,
    t: ThemeTokens,
    k: int,
    cursor: int,
) -> Seq<char>
    decreases spans.len() - k,
{
    if k < 0 || k >= spans.len() {
        s.skip(cursor)
    } else {
        let place = span_place(s, spans[k], cursor);
        (match place {
            Some((a, b)) => s.subrange(cursor, a) + ansi.fg_text(token_color(t, spans[k].token))
                + s.subrange(a, b) + ansi.reset_text(),
            None => seq![],
        }) + highlighted_from(
            s,
            spans,
            ansi,
            t,
            k + 1,
            match place {
                Some((a, b)) => b,
                None => cursor,
            },
        )
    }
}

/// A line with its spans coloured, where colours are on.
pub open spec fn highlighted_line(
    s: Seq<char>,
    spans: Seq<HighlightSpan>,
    ansi: Ansi,
    t: ThemeTokens,
) -> Seq<char> {
    if !ansi.enabled || spans.len() == 0 {
        s
    } else {
        highlighted_from(s, spans, ansi, t, 0, 0)
    }
}

proof fn lemma_char_index(s: Seq<char>, i: int, offset: int)
    requires
        0 <= i <= s.len(),
    ensures
        char_index(s, i, offset) matches Some(k) ==> i <= k <= s.len() && byte_pos(s, k) == offset,
    decreases s.len() - i,
{
    if byte_pos(s, i) != offset && i < s.len() {
        lemma_char_index(s, i + 1, offset);
    }
}

pub proof fn lemma_span_place(s: Seq<char>, span: HighlightSpan, cursor: int)
    requires
        0 <= cursor <= s.len(),
    ensures
        span_place(s, span, cursor) matches Some((a, b)) ==> cursor <= a <= b <= s.len(),
{
    if let Some((a, b)) = span_place(s, span, cursor) {
        lemma_char_index(s, 0, byte_pos(s, a) as int);
        let at = byte_pos(s, cursor) as int;
        let start = if span.start_byte >= at {
            span.start_byte as int
        } else {
            at
        };
        lemma_char_index(s, 0, start);
        lemma_char_index(s, 0, span.end_byte as int);
        if a < cursor {
            lemma_byte_pos_monotone(s, a, cursor);
        }
        if b < a {
            lemma_byte_pos_monotone(s, b, a);
        }
    }
}

/// A text without anything that starts an escape sequence.
pub open spec fn no_introducer(s: Seq<char>) -> bool {
    forall|k: int| 0 <= k < s.len() ==> !introducer(#[trigger] s[k])
}

/// Such a text is read the same wherever it stands.
pub proof fn lemma_plain_pieces(s: Seq<char>)
    requires
        no_introducer(s),
    ensures
        all_tame(pieces(s)),
    decreases s.len(),
{
    if s.len() > 0 {
        lemma_pieces_step(s);
        assert(!introducer(s[0]));
        assert(crate::tui_text::escape_len(s) == 0) by {
            reveal(crate::tui_text::escape_len);
        }
        let t = s.skip(1);
        assert forall|k: int| 0 <= k < t.len() implies !introducer(#[trigger] t[k]) by {
            assert(t[k] == s[k + 1]);
        }
        lemma_plain_pieces(t);
        assert forall|k: int| 0 <= k < pieces(s).len() implies tame_piece(
            #[trigger] pieces(s)[k],
        ) by {
            if k > 0 {
                assert(pieces(s)[k] == pieces(s).skip(1)[k - 1]);
                assert(tame_piece(pieces(t)[k - 1]));
            }
        }
    }
}

pub proof fn lemma_plain_range(s: Seq<char>, a: int, b: int)
    requires
        no_introducer(s),
        0 <= a <= b <= s.len(),
    ensures
        no_introducer(s.subrange(a, b)),
        all_tame(pieces(s.subrange(a, b))),
{
    let t = s.subrange(a, b);
    assert forall|k: int| 0 <= k < t.len() implies !introducer(#[trigger] t[k]) by {
        assert(t[k] == s[a + k]);
    }
    lemma_plain_pieces(t);
}

pub proof fn lemma_highlight_plain(
    s: Seq<char>,
    spans: Seq<HighlightSpan>,
    ansi: Ansi,
    t: ThemeTokens,
    k: int,
    cursor: int,
)
    requires
        no_introducer(s),
        0 <= cursor <= s.len(),
        0 <= k,
    ensures
        all_tame(pieces(highlighted_from(s, spans, ansi, t, k, cursor))),
        kept_pieces(pieces(highlighted_from(s, spans, ansi, t, k, cursor)), false) == kept_pieces(
            pieces(s.skip(cursor)),
            false,
        ),
    decreases spans.len() - k,
{
    assert(s.skip(cursor) =~= s.subrange(cursor, s.len() as int));
    lemma_plain_range(s, cursor, s.len() as int);
    if k < spans.len() {
        lemma_span_place(s, spans[k], cursor);
        match span_place(s, spans[k], cursor) {
            Some((a, b)) => {
                let color = ansi.fg_text(token_color(t, spans[k].token));
                let reset = ansi.reset_text();
                let x = s.subrange(cursor, a);
                let y = s.subrange(a, b);
                let tail = highlighted_from(s, spans, ansi, t, k + 1, b);
                lemma_highlight_plain(s, spans, ansi, t, k + 1, b);
                lemma_plain_range(s, cursor, a);
                lemma_plain_range(s, a, b);
                lemma_color_styling(ansi, 38, token_color(t, spans[k].token));
                lemma_reset_styling(ansi);
                lemma_styling_tame(color);
                lemma_styling_tame(reset);
                lemma_tame_concat(x, color);
                lemma_tame_concat(x + color, y);
                lemma_tame_concat(x + color + y, reset);
                lemma_tame_concat(x + color + y + reset, tail);
                let rest = s.skip(b);
                assert(rest =~= s.subrange(b, s.len() as int));
                lemma_plain_range(s, b, s.len() as int);
                lemma_tame_concat(x, y);
                lemma_tame_concat(x + y, rest);
                assert(s.skip(cursor) =~= x + y + rest);
                let kx = kept_pieces(pieces(x), false);
                let ky = kept_pieces(pieces(y), false);
                let none = Seq::<Piece>::empty();
                assert(kx + none + ky + none =~= kx + ky);
            },
            None => {
                lemma_highlight_plain(s, spans, ansi, t, k + 1, cursor);
                assert(Seq::<char>::empty() + highlighted_from(s, spans, ansi, t, k + 1, cursor)
                    =~= highlighted_from(s, spans, ansi, t, k + 1, cursor));
            },
        }
    }
}

/// Colouring a line changes nothing but its styling.
pub proof fn law_highlight_keeps_text(
    s: Seq<char>,
    spans: Seq<HighlightSpan>,
    ansi: Ansi,
    t: ThemeTokens,
)
    requires
        no_introducer(s),
    ensures
        all_tame(pieces(highlighted_line(s, spans, ansi, t))),
        kept_pieces(pieces(highlighted_line(s, spans, ansi, t)), false) == kept_pieces(
            pieces(s),
            false,
        ),
{
    lemma_plain_pieces(s);
    lemma_highlight_plain(s, spans, ansi, t, 0, 0);
    assert(s.skip(0) =~= s);
}

fn find_char(s: &Vec<char>, offset: usize, limit: usize) -> (r: Option<usize>)
    requires
        limit == byte_len(s@),
    ensures
        match r {
            Some(i) => char_index(s@, 0, offset as int) == Some(i as int),
            None => char_index(s@, 0, offset as int) is None,
        },
{
    let mut i: usize = 0;
    let mut at: usize = 0;
    loop
        invariant
            limit == byte_len(s@),
            i <= s@.len(),
            at == byte_pos(s@, i as int),
            char_index(s@, 0, offset as int) == char_index(s@, i as int, offset as int),
        decreases s@.len() - i,
    {
        if at == offset {
            return Some(i);
        }
        if i >= s.len() {
            return None;
        }
        proof {
            assert(byte_pos(s@, i + 1) == byte_pos(s@, i as int) + utf8_width(s@[i as int]));
            lemma_byte_pos_monotone(s@, i + 1, s@.len() as int);
        }
        at = at + char_len(s[i]);
        i += 1;
    }
}

/// Colour the tokens of a line.  Spans that overlap what has been shown are
/// cut, and spans that do not fit the text are left out.
pub fn render_highlighted_line(
    ansi: Ansi,
    tokens: ThemeTokens,
    text: &str,
    spans: &[HighlightSpan],
) -> (r: String)
    ensures
        r@ == highlighted_line(text@, spans@, ansi, tokens),
{
    if !ansi.enabled || spans.len() == 0 {
        return text.to_owned();
    }
    let s = chars_of(text);
    let limit: usize = checked_byte_len(text);
    let mut out = String::new();
    let mut cursor: usize = 0;
    let mut at: usize = 0;
    let mut k: usize = 0;
    let ghost whole = highlighted_line(text@, spans@, ansi, tokens);
    assert(out@ + highlighted_from(s@, spans@, ansi, tokens, 0, 0) =~= whole);
    while k < spans.len()
        invariant
            s@ == text@,
            limit == byte_len(s@),
            k <= spans@.len(),
            cursor <= s@.len(),
            at == byte_pos(s@, cursor as int),
            out@ + highlighted_from(s@, spans@, ansi, tokens, k as int, cursor as int) == whole,
        decreases spans@.len() - k,
    {
        let span: HighlightSpan = spans[k];
        let ghost before = out@;
        let ghost place = span_place(s@, span, cursor as int);
        let ghost c0 = cursor as int;
        proof {
            lemma_span_place(s@, span, cursor as int);
        }
        if !(span.end_byte <= at || span.start_byte >= limit || span.end_byte > limit
            || span.start_byte >= span.end_byte) {
            let start: usize = if span.start_byte >= at {
                span.start_byte
            } else {
                at
            };
            if let Some(a) = find_char(&s, start, limit) {
                if let Some(b) = find_char(&s, span.end_byte, limit) {
                    assert(place == Some((a as int, b as int)));
                    push_range(&mut out, s.as_slice(), cursor, a);
                    let color = ansi.fg(color_for_token(tokens, span.token));
                    out.append(color.as_str());
                    push_range(&mut out, s.as_slice(), a, b);
                    out.append(ansi.reset());
                    proof {
                        lemma_char_index(s@, 0, span.end_byte as int);
                    }
                    cursor = b;
                    at = span.end_byte;
                }
            }
        }
        proof {
            let head = match place {
                Some((a, b)) => s@.subrange(c0, a) + ansi.fg_text(token_color(tokens, span.token))
                    + s@.subrange(a, b) + ansi.reset_text(),
                None => Seq::empty(),
            };
            let tail = highlighted_from(s@, spans@, ansi, tokens, k + 1, cursor as int);
            assert(out@ =~= before + head);
            assert((before + head) + tail =~= before + (head + tail));
        }
        k += 1;
    }
    push_range(&mut out, s.as_slice(), cursor, s.len());
    assert(s@.subrange(cursor as int, s@.len() as int) =~= s@.skip(cursor as int));
    out
}

} // verus!

//! Display widths, cell fitting and sanitising of untrusted terminal text.
//!
//! A text is read as a sequence of pieces: terminal escape sequences, and the
//! characters between them.  Only SGR sequences (colours and attributes) may
//! reach the terminal; everything else that could move the cursor or run a
//! command is dropped.
use vstd::prelude::*;
use vstd::utf8::{char_is_scalar, encode_scalar, encode_utf8};
use unicode_width::UnicodeWidthChar;
use crate::util::{byte_len, byte_pos, chars_of, checked_byte_len, lemma_byte_len_encode, lemma_byte_pos_add, lemma_byte_pos_monotone, lemma_byte_pos_prefix, utf8_width};

verus! {

/// A C0 control, DEL, or a C1 control.
pub open spec fn is_control(c: char) -> bool {
    c as u32 <= 0x1f || 0x7f <= c as u32 <= 0x9f
}

/// Whether a character is a control character.
pub fn control(c: char) -> (r: bool)
    ensures
        r == is_control(c),
{
    let v = c as u32;
    v <= 0x1f || (0x7f <= v && v <= 0x9f)
}

/// The terminal width of one character, as `unicode-width` tabulates it.
pub uninterp spec fn unicode_width(c: char) -> Option<usize>;

/// `UnicodeWidthChar::width`: a function of the character alone.  Control
/// characters, and only those, have no width; printable ASCII is one cell
/// wide; and no character takes more cells than its encoding takes bytes.
#[verifier::external_body]
fn lookup_width(c: char) -> (r: Option<usize>)
    ensures
        r == unicode_width(c),
        r is None <==> is_control(c),
        0x20 <= c as u32 <= 0x7e ==> r == Some(1usize),
        r matches Some(w) ==> w <= utf8_width(c),
{
    c.width()
}

/// The number of terminal cells that a character occupies.
pub open spec fn cell_width(c: char) -> nat {
    if is_control(c) {
        0
    } else if c as u32 <= 0x7e {
        1
    } else {
        match unicode_width(c) {
            Some(w) => w as nat,
            None => 0,
        }
    }
}

/// The number of cells that a character occupies; controls occupy none.
pub fn char_cells(c: char) -> (n: usize)
    ensures
        n == cell_width(c),
        n <= utf8_width(c),
{
    match lookup_width(c) {
        Some(w) => w,
        None => 0,
    }
}

// ---------------------------------------------------------------------------
// The escape-sequence grammar, over characters
// ---------------------------------------------------------------------------

/// How many leading characters lie in the code range `lo..=hi`.
pub open spec fn run_len(s: Seq<char>, lo: u32, hi: u32) -> nat
    decreases s.len(),
{
    if s.len() > 0 && lo <= s[0] as u32 <= hi {
        1 + run_len(s.drop_first(), lo, hi)
    } else {
        0
    }
}

/// The length of a control sequence body: parameters, intermediates, and one
/// final character where it is there.
pub open spec fn csi_body(s: Seq<char>) -> nat {
    let p = run_len(s, 0x30, 0x3f);
    let q = p + run_len(s.skip(p as int), 0x20, 0x2f);
    if q < s.len() && 0x40 <= s[q as int] as u32 <= 0x7e {
        q + 1
    } else {
        q
    }
}

/// The length of a control string body, up to and with its terminator: BEL
/// where `bel` allows it, ESC `\`, or the C1 string terminator.  An
/// unterminated string takes the whole text.
pub open spec fn string_body(s: Seq<char>, bel: bool) -> nat
    decreases s.len(),
{
    if s.len() == 0 {
        0
    } else if bel && s[0] == '\u{7}' {
        1
    } else if s.len() >= 2 && s[0] == '\u{1b}' && s[1] == '\\' {
        2
    } else if s[0] == '\u{9c}' {
        1
    } else {
        1 + string_body(s.drop_first(), bel)
    }
}

/// The length of what follows ESC in an ordinary escape: intermediates, and
/// one final character where it is there.
pub open spec fn plain_escape_body(s: Seq<char>) -> nat {
    let q = run_len(s, 0x20, 0x2f);
    if q < s.len() && 0x30 <= s[q as int] as u32 <= 0x7e {
        q + 1
    } else {
        q
    }
}

/// The length of the escape sequence at the start of a text; zero where none
/// starts there.
#[verifier::opaque]
pub open spec fn escape_len(s: Seq<char>) -> nat {
    if s.len() == 0 {
        0
    } else if s[0] == '\u{1b}' {
        if s.len() == 1 {
            1
        } else if s[1] == '[' {
            2 + csi_body(s.skip(2))
        } else if s[1] == ']' {
            2 + string_body(s.skip(2), true)
        } else if s[1] == 'P' || s[1] == 'X' || s[1] == '^' || s[1] == '_' {
            2 + string_body(s.skip(2), false)
        } else {
            1 + plain_escape_body(s.skip(1))
        }
    } else if s[0] == '\u{9b}' {
        1 + csi_body(s.skip(1))
    } else if s[0] == '\u{9d}' {
        1 + string_body(s.skip(1), true)
    } else if s[0] == '\u{90}' || s[0] == '\u{98}' || s[0] == '\u{9e}' || s[0] == '\u{9f}' {
        1 + string_body(s.skip(1), false)
    } else {
        0
    }
}

pub proof fn lemma_run_bound(s: Seq<char>, lo: u32, hi: u32)
    ensures
        run_len(s, lo, hi) <= s.len(),
    decreases s.len(),
{
    if s.len() > 0 && lo <= s[0] as u32 <= hi {
        lemma_run_bound(s.drop_first(), lo, hi);
    }
}

pub proof fn lemma_string_bound(s: Seq<char>, bel: bool)
    ensures
        string_body(s, bel) <= s.len(),
    decreases s.len(),
{
    if s.len() > 0 {
        lemma_string_bound(s.drop_first(), bel);
    }
}

pub proof fn lemma_csi_bound(s: Seq<char>)
    ensures
        csi_body(s) <= s.len(),
{
    lemma_run_bound(s, 0x30, 0x3f);
    lemma_run_bound(s.skip(run_len(s, 0x30, 0x3f) as int), 0x20, 0x2f);
}

/// An escape sequence never reaches past the end of its text.
pub proof fn lemma_escape_bound(s: Seq<char>)
    ensures
        escape_len(s) <= s.len(),
{
    reveal(escape_len);
    if s.len() > 0 {
        lemma_csi_bound(s.skip(1));
        lemma_string_bound(s.skip(1), true);
        lemma_string_bound(s.skip(1), false);
        lemma_run_bound(s.skip(1), 0x20, 0x2f);
        if s.len() > 1 {
            lemma_csi_bound(s.skip(2));
            lemma_string_bound(s.skip(2), true);
            lemma_string_bound(s.skip(2), false);
        }
    }
}

fn scan_run(s: &[char], from: usize, lo: u32, hi: u32) -> (end: usize)
    requires
        from <= s@.len(),
    ensures
        from <= end <= s@.len(),
        end - from == run_len(s@.skip(from as int), lo, hi),
{
    let mut i: usize = from;
    while i < s.len() && lo <= s[i] as u32 && s[i] as u32 <= hi
        invariant
            from <= i <= s@.len(),
            run_len(s@.skip(from as int), lo, hi) == (i - from) + run_len(
                s@.skip(i as int),
                lo,
                hi,
            ),
        decreases s@.len() - i,
    {
        assert(s@.skip(i as int).drop_first() =~= s@.skip(i + 1));
        i += 1;
    }
    i
}

fn scan_string(s: &[char], from: usize, bel: bool) -> (end: usize)
    requires
        from <= s@.len(),
    ensures
        from <= end <= s@.len(),
        end - from == string_body(s@.skip(from as int), bel),
{
    let mut i: usize = from;
    while i < s.len()
        invariant
            from <= i <= s@.len(),
            string_body(s@.skip(from as int), bel) == (i - from) + string_body(
                s@.skip(i as int),
                bel,
            ),
        decreases s@.len() - i,
    {
        if bel && s[i] == '\u{7}' {
            return i + 1;
        }
        if s[i] == '\u{1b}' && i + 1 < s.len() && s[i + 1] == '\\' {
            return i + 2;
        }
        if s[i] == '\u{9c}' {
            return i + 1;
        }
        assert(s@.skip(i as int).drop_first() =~= s@.skip(i + 1));
        i += 1;
    }
    i
}

fn scan_csi(s: &[char], from: usize) -> (end: usize)
    requires
        from <= s@.len(),
    ensures
        from <= end <= s@.len(),
        end - from == csi_body(s@.skip(from as int)),
{
    let p: usize = scan_run(s, from, 0x30, 0x3f);
    let q: usize = scan_run(s, p, 0x20, 0x2f);
    assert(s@.skip(from as int).skip((p - from) as int) =~= s@.skip(p as int));
    if q < s.len() && 0x40 <= s[q] as u32 && s[q] as u32 <= 0x7e {
        q + 1
    } else {
        q
    }
}

/// Where the escape sequence that starts at `from` ends; `from` itself where
/// none starts there.
pub fn escape_end(s: &[char], from: usize) -> (end: usize)
    requires
        from <= s@.len(),
    ensures
        from <= end <= s@.len(),
        end - from == escape_len(s@.skip(from as int)),
{
    proof {
        reveal(escape_len);
    }
    if from == s.len() {
        return from;
    }
    proof {
        assert(s@.skip(from as int).skip(1) =~= s@.skip(from + 1));
        if from + 2 <= s@.len() {
            assert(s@.skip(from as int).skip(2) =~= s@.skip(from + 2));
        }
    }
    let c: char = s[from];
    if c == '\u{1b}' {
        if from + 1 == s.len() {
            return from + 1;
        }
        let intro: char = s[from + 1];
        if intro == '[' {
            scan_csi(s, from + 2)
        } else if intro == ']' {
            scan_string(s, from + 2, true)
        } else if intro == 'P' || intro == 'X' || intro == '^' || intro == '_' {
            scan_string(s, from + 2, false)
        } else {
            let q: usize = scan_run(s, from + 1, 0x20, 0x2f);
            if q < s.len() && 0x30 <= s[q] as u32 && s[q] as u32 <= 0x7e {
                q + 1
            } else {
                q
            }
        }
    } else if c == '\u{9b}' {
        scan_csi(s, from + 1)
    } else if c == '\u{9d}' {
        scan_string(s, from + 1, true)
    } else if c == '\u{90}' || c == '\u{98}' || c == '\u{9e}' || c == '\u{9f}' {
        scan_string(s, from + 1, false)
    } else {
        from
    }
}

// ---------------------------------------------------------------------------
// Pieces
// ---------------------------------------------------------------------------

/// One piece of a text: an escape sequence, or a character outside of any.
pub enum Piece {
    Escape(Seq<char>),
    Character(char),
}

/// The piece at the start of a text that is not empty.
pub open spec fn first_piece(s: Seq<char>) -> Piece {
    let n = escape_len(s);
    if n == 0 || n > s.len() {
        Piece::Character(s[0])
    } else {
        Piece::Escape(s.take(n as int))
    }
}

/// A text, cut into its pieces.
pub open spec fn pieces(s: Seq<char>) -> Seq<Piece>
    decreases s.len(),
{
    if s.len() == 0 {
        seq![]
    } else {
        seq![first_piece(s)] + pieces(s.skip(piece_text(first_piece(s)).len() as int))
    }
}

/// The text of one piece.
pub open spec fn piece_text(p: Piece) -> Seq<char> {
    match p {
        Piece::Escape(e) => e,
        Piece::Character(c) => seq![c],
    }
}

/// The text that the pieces make up.
pub open spec fn flatten(ps: Seq<Piece>) -> Seq<char>
    decreases ps.len(),
{
    if ps.len() == 0 {
        seq![]
    } else {
        piece_text(ps[0]) + flatten(ps.skip(1))
    }
}

/// The cells that the pieces occupy; escape sequences occupy none.
pub open spec fn pieces_width(ps: Seq<Piece>) -> nat
    decreases ps.len(),
{
    if ps.len() == 0 {
        0
    } else {
        (match ps[0] {
            Piece::Escape(_) => 0,
            Piece::Character(c) => cell_width(c),
        }) + pieces_width(ps.skip(1))
    }
}

/// The display width of a text.
pub open spec fn text_width(s: Seq<char>) -> nat {
    pieces_width(pieces(s))
}

/// A character that may stand between `ESC [` and `m`.
pub open spec fn sgr_param(c: char) -> bool {
    '0' <= c <= '9' || c == ';' || c == ':'
}

/// An SGR sequence: `ESC [`, digits and separators, `m`.
pub open spec fn sgr(e: Seq<char>) -> bool {
    &&& e.len() >= 3
    &&& e[0] == '\u{1b}'
    &&& e[1] == '['
    &&& e.last() == 'm'
    &&& forall|k: int| 2 <= k < e.len() - 1 ==> sgr_param(#[trigger] e[k])
}

/// A piece that may be sent to the terminal.
pub open spec fn clean_piece(p: Piece) -> bool {
    match p {
        Piece::Escape(e) => sgr(e),
        Piece::Character(c) => !is_control(c),
    }
}

/// Pieces that may be sent to the terminal.
pub open spec fn all_clean(ps: Seq<Piece>) -> bool {
    forall|k: int| 0 <= k < ps.len() ==> clean_piece(#[trigger] ps[k])
}

/// What is kept of one piece: a tab becomes a space, other controls and
/// commands go, and SGR sequences stay where `keep_sgr` says so.
pub open spec fn kept(p: Piece, keep_sgr: bool) -> Seq<Piece> {
    match p {
        Piece::Escape(e) => if keep_sgr && sgr(e) {
            seq![p]
        } else {
            seq![]
        },
        Piece::Character(c) => if c == '\t' {
            seq![Piece::Character(' ')]
        } else if is_control(c) {
            seq![]
        } else {
            seq![p]
        },
    }
}

/// What is kept of a sequence of pieces.
pub open spec fn kept_pieces(ps: Seq<Piece>, keep_sgr: bool) -> Seq<Piece>
    decreases ps.len(),
{
    if ps.len() == 0 {
        seq![]
    } else {
        kept(ps[0], keep_sgr) + kept_pieces(ps.skip(1), keep_sgr)
    }
}

/// A text without commands and controls.
pub open spec fn cleaned(s: Seq<char>, keep_sgr: bool) -> Seq<char> {
    flatten(kept_pieces(pieces(s), keep_sgr))
}

/// `n` blank cells.
pub open spec fn blank_pieces(n: nat) -> Seq<Piece> {
    Seq::new(n, |i: int| Piece::Character(' '))
}

/// The pieces that fill exactly `room` cells: SGR sequences pass, other
/// escapes go, a control stands as a blank, the first character that does not
/// fit ends the text, and blanks fill what is left.
pub open spec fn fitted_pieces(ps: Seq<Piece>, room: nat) -> Seq<Piece>
    decreases ps.len(),
{
    if ps.len() == 0 {
        blank_pieces(room)
    } else {
        match ps[0] {
            Piece::Escape(e) => (if sgr(e) {
                seq![ps[0]]
            } else {
                seq![]
            }) + fitted_pieces(ps.skip(1), room),
            Piece::Character(c) => {
                let shown = if is_control(c) {
                    ' '
                } else {
                    c
                };
                if cell_width(shown) > room {
                    blank_pieces(room)
                } else {
                    seq![Piece::Character(shown)] + fitted_pieces(
                        ps.skip(1),
                        (room - cell_width(shown)) as nat,
                    )
                }
            },
        }
    }
}

/// A text fitted into a cell of the given width.
pub open spec fn fitted(s: Seq<char>, width: nat) -> Seq<char> {
    if width == 0 {
        seq![]
    } else {
        flatten(fitted_pieces(pieces(s), width))
    }
}

/// `n` spaces.
pub open spec fn spaces(n: nat) -> Seq<char> {
    Seq::new(n, |i: int| ' ')
}

pub proof fn lemma_flatten_add(a: Seq<Piece>, b: Seq<Piece>)
    ensures
        flatten(a + b) == flatten(a) + flatten(b),
    decreases a.len(),
{
    if a.len() == 0 {
        assert(a + b =~= b);
    } else {
        assert((a + b).skip(1) =~= a.skip(1) + b);
        lemma_flatten_add(a.skip(1), b);
    }
}

pub proof fn lemma_flatten_one(p: Piece)
    ensures
        flatten(seq![p]) == piece_text(p),
{
    assert(seq![p].skip(1) =~= Seq::<Piece>::empty());
    assert(flatten(seq![p].skip(1)) =~= Seq::<char>::empty());
}

pub proof fn lemma_flatten_blank(n: nat)
    ensures
        flatten(blank_pieces(n)) == spaces(n),
    decreases n,
{
    if n > 0 {
        assert(blank_pieces(n).skip(1) =~= blank_pieces((n - 1) as nat));
        lemma_flatten_blank((n - 1) as nat);
        assert(flatten(blank_pieces(n)) =~= spaces(n));
    } else {
        assert(flatten(blank_pieces(n)) =~= spaces(n));
    }
}

pub proof fn lemma_width_add(a: Seq<Piece>, b: Seq<Piece>)
    ensures
        pieces_width(a + b) == pieces_width(a) + pieces_width(b),
    decreases a.len(),
{
    if a.len() == 0 {
        assert(a + b =~= b);
    } else {
        assert((a + b).skip(1) =~= a.skip(1) + b);
        lemma_width_add(a.skip(1), b);
    }
}

pub proof fn lemma_width_one(p: Piece)
    ensures
        pieces_width(seq![p]) == (match p {
            Piece::Escape(_) => 0,
            Piece::Character(c) => cell_width(c),
        }),
{
    assert(seq![p].skip(1) =~= Seq::<Piece>::empty());
    assert(pieces_width(seq![p].skip(1)) == 0);
}

pub proof fn lemma_width_blank(n: nat)
    ensures
        pieces_width(blank_pieces(n)) == n,
    decreases n,
{
    if n > 0 {
        assert(blank_pieces(n).skip(1) =~= blank_pieces((n - 1) as nat));
        lemma_width_blank((n - 1) as nat);
    }
}

/// A text is what its pieces make up.
pub proof fn law_pieces_lossless(s: Seq<char>)
    ensures
        flatten(pieces(s)) == s,
    decreases s.len(),
{
    if s.len() > 0 {
        let n = escape_len(s);
        lemma_escape_bound(s);
        let k: int = if 0 < n { n as int } else { 1 };
        law_pieces_lossless(s.skip(k));
        let head = if 0 < n {
            Piece::Escape(s.take(n as int))
        } else {
            Piece::Character(s[0])
        };
        lemma_flatten_add(seq![head], pieces(s.skip(k)));
        lemma_flatten_one(head);
        assert(flatten(pieces(s)) =~= s);
    }
}

/// The first piece of a text, and the pieces after it.
pub proof fn lemma_pieces_step(s: Seq<char>)
    requires
        s.len() > 0,
    ensures
        escape_len(s) <= s.len(),
        pieces(s).len() > 0,
        escape_len(s) > 0 ==> pieces(s)[0] == Piece::Escape(s.take(escape_len(s) as int))
            && pieces(s).skip(1) == pieces(s.skip(escape_len(s) as int)),
        escape_len(s) == 0 ==> pieces(s)[0] == Piece::Character(s[0]) && pieces(s).skip(1)
            == pieces(s.skip(1)),
{
    lemma_escape_bound(s);
    let n = escape_len(s);
    if n > 0 {
        let rest = pieces(s.skip(n as int));
        assert(pieces(s) == seq![Piece::Escape(s.take(n as int))] + rest);
        assert(pieces(s).skip(1) =~= rest);
    } else {
        let rest = pieces(s.skip(1));
        assert(pieces(s) == seq![Piece::Character(s[0])] + rest);
        assert(pieces(s).skip(1) =~= rest);
    }
}

proof fn lemma_run_params(a: Seq<char>, t: Seq<char>)
    requires
        forall|k: int| 0 <= k < a.len() ==> sgr_param(#[trigger] a[k]),
        t.len() > 0,
        t[0] == 'm',
    ensures
        run_len(a + t, 0x30, 0x3f) == a.len(),
    decreases a.len(),
{
    if a.len() > 0 {
        assert((a + t).drop_first() =~= a.drop_first() + t);
        assert(sgr_param(a[0]));
        assert forall|k: int| 0 <= k < a.drop_first().len() implies sgr_param(
            #[trigger] a.drop_first()[k],
        ) by {
            assert(sgr_param(a[k + 1]));
        }
        lemma_run_params(a.drop_first(), t);
    } else {
        assert(a + t =~= t);
    }
}

/// An SGR sequence is read as one escape whatever text follows it.
pub proof fn lemma_sgr_escape(e: Seq<char>, rest: Seq<char>)
    requires
        sgr(e),
    ensures
        escape_len(e + rest) == e.len(),
{
    reveal(escape_len);
    let s = e + rest;
    let body = s.skip(2);
    let params = e.subrange(2, e.len() - 1);
    let tail = seq!['m'] + rest;
    assert(body =~= params + tail);
    assert forall|k: int| 0 <= k < params.len() implies sgr_param(#[trigger] params[k]) by {
        assert(sgr_param(e[k + 2]));
    }
    lemma_run_params(params, tail);
    let p = params.len();
    assert(body.skip(p as int) =~= tail);
    assert(run_len(tail, 0x20, 0x2f) == 0);
    assert(body[p as int] == 'm');
    assert(csi_body(body) == p + 1);
}

/// A character that starts an escape sequence.
pub open spec fn introducer(c: char) -> bool {
    c == '\u{1b}' || c == '\u{9b}' || c == '\u{9d}' || c == '\u{90}' || c == '\u{98}' || c
        == '\u{9e}' || c == '\u{9f}'
}

/// A piece that is read the same wherever it stands.
pub open spec fn tame_piece(p: Piece) -> bool {
    match p {
        Piece::Escape(e) => sgr(e),
        Piece::Character(c) => !introducer(c),
    }
}

/// Pieces that are read the same wherever they stand.
pub open spec fn all_tame(ps: Seq<Piece>) -> bool {
    forall|k: int| 0 <= k < ps.len() ==> tame_piece(#[trigger] ps[k])
}

pub proof fn lemma_clean_is_tame(ps: Seq<Piece>)
    requires
        all_clean(ps),
    ensures
        all_tame(ps),
{
    assert forall|k: int| 0 <= k < ps.len() implies tame_piece(#[trigger] ps[k]) by {
        assert(clean_piece(ps[k]));
    }
}

/// Tame pieces, written out and read again, are the same pieces.
pub proof fn lemma_reparse_tame(ps: Seq<Piece>)
    requires
        all_tame(ps),
    ensures
        pieces(flatten(ps)) == ps,
    decreases ps.len(),
{
    if ps.len() > 0 {
        let rest = ps.skip(1);
        assert forall|k: int| 0 <= k < rest.len() implies tame_piece(#[trigger] rest[k]) by {
            assert(tame_piece(ps[k + 1]));
        }
        lemma_reparse_tame(rest);
        let tail = flatten(rest);
        assert(tame_piece(ps[0]));
        match ps[0] {
            Piece::Escape(e) => {
                lemma_sgr_escape(e, tail);
                let s = e + tail;
                assert(flatten(ps) == s);
                assert(s.take(e.len() as int) =~= e);
                assert(s.skip(e.len() as int) =~= tail);
            },
            Piece::Character(c) => {
                let s = seq![c] + tail;
                assert(flatten(ps) == s);
                assert(s.skip(1) =~= tail);
                assert(escape_len(s) == 0) by {
                    reveal(escape_len);
                }
            },
        }
        assert(ps =~= seq![ps[0]] + rest);
        assert(pieces(flatten(ps)) =~= ps);
    }
}

/// Clean pieces, written out and read again, are the same pieces.
pub proof fn lemma_reparse(ps: Seq<Piece>)
    requires
        all_clean(ps),
    ensures
        pieces(flatten(ps)) == ps,
{
    lemma_clean_is_tame(ps);
    lemma_reparse_tame(ps);
}

/// A text that may be sent to the terminal.
pub open spec fn clean_text_seq(s: Seq<char>) -> bool {
    all_clean(pieces(s))
}

/// Clean texts one after the other are read as the one and the other.
pub proof fn lemma_clean_concat(a: Seq<char>, b: Seq<char>)
    requires
        clean_text_seq(a),
        clean_text_seq(b),
    ensures
        pieces(a + b) == pieces(a) + pieces(b),
        clean_text_seq(a + b),
        text_width(a + b) == text_width(a) + text_width(b),
{
    let pa = pieces(a);
    let pb = pieces(b);
    law_pieces_lossless(a);
    law_pieces_lossless(b);
    lemma_flatten_add(pa, pb);
    assert(all_clean(pa + pb));
    lemma_reparse(pa + pb);
    lemma_width_add(pa, pb);
}

pub proof fn lemma_fitted_clean(ps: Seq<Piece>, room: nat)
    ensures
        all_clean(fitted_pieces(ps, room)),
        pieces_width(fitted_pieces(ps, room)) == room,
    decreases ps.len(),
{
    lemma_width_blank(room);
    if ps.len() > 0 {
        match ps[0] {
            Piece::Escape(e) => {
                lemma_fitted_clean(ps.skip(1), room);
                lemma_width_one(ps[0]);
                lemma_width_add(seq![ps[0]], fitted_pieces(ps.skip(1), room));
                assert(Seq::<Piece>::empty() + fitted_pieces(ps.skip(1), room)
                    =~= fitted_pieces(ps.skip(1), room));
            },
            Piece::Character(c) => {
                let shown = if is_control(c) {
                    ' '
                } else {
                    c
                };
                if cell_width(shown) <= room {
                    let left = (room - cell_width(shown)) as nat;
                    lemma_fitted_clean(ps.skip(1), left);
                    lemma_width_one(Piece::Character(shown));
                    lemma_width_add(
                        seq![Piece::Character(shown)],
                        fitted_pieces(ps.skip(1), left),
                    );
                }
            },
        }
    }
}

pub proof fn lemma_kept_clean(ps: Seq<Piece>, keep_sgr: bool)
    ensures
        all_clean(kept_pieces(ps, keep_sgr)),
        forall|k: int|
            0 <= k < kept_pieces(ps, keep_sgr).len() && !keep_sgr ==> (
            #[trigger] kept_pieces(ps, keep_sgr)[k]) is Character,
    decreases ps.len(),
{
    if ps.len() > 0 {
        lemma_kept_clean(ps.skip(1), keep_sgr);
    }
}

/// Clean pieces are kept as they are, but for the SGR sequences where these
/// are not wanted, which take no cells.
pub proof fn lemma_kept_of_clean(ps: Seq<Piece>, keep_sgr: bool)
    requires
        all_clean(ps),
    ensures
        keep_sgr ==> kept_pieces(ps, keep_sgr) == ps,
        pieces_width(kept_pieces(ps, keep_sgr)) == pieces_width(ps),
    decreases ps.len(),
{
    if ps.len() > 0 {
        let rest = ps.skip(1);
        assert forall|k: int| 0 <= k < rest.len() implies clean_piece(#[trigger] rest[k]) by {
            assert(clean_piece(ps[k + 1]));
        }
        lemma_kept_of_clean(rest, keep_sgr);
        assert(clean_piece(ps[0]));
        lemma_width_one(ps[0]);
        lemma_width_add(kept(ps[0], keep_sgr), kept_pieces(rest, keep_sgr));
        assert(seq![ps[0]] + rest =~= ps);
        assert(Seq::<Piece>::empty() + kept_pieces(rest, keep_sgr) =~= kept_pieces(
            rest,
            keep_sgr,
        ));
    }
}

/// A fitted cell is exactly as wide as it was asked to be.
pub proof fn law_fitted_width(s: Seq<char>, width: nat)
    ensures
        text_width(fitted(s, width)) == width,
{
    if width > 0 {
        lemma_fitted_clean(pieces(s), width);
        lemma_reparse(fitted_pieces(pieces(s), width));
    }
}

/// A fitted cell is already sanitised, and dropping its styling keeps its
/// width.
pub proof fn law_fitted_is_clean(s: Seq<char>, width: nat)
    ensures
        cleaned(fitted(s, width), true) == fitted(s, width),
        text_width(cleaned(fitted(s, width), false)) == width,
{
    if width > 0 {
        let ps = fitted_pieces(pieces(s), width);
        lemma_fitted_clean(pieces(s), width);
        lemma_reparse(ps);
        lemma_kept_of_clean(ps, true);
        lemma_kept_of_clean(ps, false);
        lemma_kept_clean(ps, false);
        lemma_reparse(kept_pieces(ps, false));
    } else {
        assert(kept_pieces(pieces(fitted(s, width)), true) =~= Seq::<Piece>::empty());
        assert(kept_pieces(pieces(fitted(s, width)), false) =~= Seq::<Piece>::empty());
    }
}

/// Cleaning twice is cleaning once.
pub proof fn law_clean_idempotent(s: Seq<char>, keep_sgr: bool)
    ensures
        cleaned(cleaned(s, keep_sgr), keep_sgr) == cleaned(s, keep_sgr),
{
    let ps = kept_pieces(pieces(s), keep_sgr);
    lemma_kept_clean(pieces(s), keep_sgr);
    lemma_reparse(ps);
    if keep_sgr {
        lemma_kept_of_clean(ps, true);
    } else {
        lemma_plain_kept(ps);
    }
}

pub proof fn lemma_plain_kept(ps: Seq<Piece>)
    requires
        all_clean(ps),
        forall|k: int| 0 <= k < ps.len() ==> (#[trigger] ps[k]) is Character,
    ensures
        kept_pieces(ps, false) == ps,
        forall|k: int| 0 <= k < flatten(ps).len() ==> !is_control(#[trigger] flatten(ps)[k]),
    decreases ps.len(),
{
    if ps.len() > 0 {
        let rest = ps.skip(1);
        assert(clean_piece(ps[0]));
        assert(ps[0] is Character);
        assert forall|k: int| 0 <= k < rest.len() implies clean_piece(#[trigger] rest[k])
            && rest[k] is Character by {
            assert(clean_piece(ps[k + 1]));
            assert(ps[k + 1] is Character);
        }
        lemma_plain_kept(rest);
        assert(seq![ps[0]] + rest =~= ps);
        let c = ps[0]->Character_0;
        assert(flatten(ps) =~= seq![c] + flatten(rest));
        assert forall|k: int| 0 <= k < flatten(ps).len() implies !is_control(
            #[trigger] flatten(ps)[k],
        ) by {
            if k > 0 {
                assert(flatten(ps)[k] == flatten(rest)[k - 1]);
            }
        }
    }
}

/// Plain text holds no control character at all.
pub proof fn law_plain_has_no_control(s: Seq<char>)
    ensures
        forall|k: int|
            0 <= k < cleaned(s, false).len() ==> !is_control(#[trigger] cleaned(s, false)[k]),
{
    lemma_kept_clean(pieces(s), false);
    lemma_plain_kept(kept_pieces(pieces(s), false));
}

// ---------------------------------------------------------------------------
// Executable text functions
// ---------------------------------------------------------------------------

/// Width is additive per scalar, shared with the cell fitter and with
/// wrapping.  Terminal escapes and raw control characters have no width.
pub fn display_width(text: &str) -> (n: usize)
    ensures
        n == text_width(text@),
{
    let chars = chars_of(text);
    let limit: usize = checked_byte_len(text);
    let mut i: usize = 0;
    let mut total: usize = 0;
    assert(chars@.skip(0) =~= chars@);
    while i < chars.len()
        invariant
            chars@ == text@,
            limit == byte_pos(chars@, chars@.len() as int),
            i <= chars@.len(),
            total <= byte_pos(chars@, i as int),
            total + pieces_width(pieces(chars@.skip(i as int))) == text_width(text@),
        decreases chars@.len() - i,
    {
        let end: usize = escape_end(chars.as_slice(), i);
        let ghost s = chars@.skip(i as int);
        let ghost next: int = if end > i { end as int } else { i + 1 };
        proof {
            lemma_byte_pos_monotone(chars@, i as int, next);
            lemma_byte_pos_monotone(chars@, next, chars@.len() as int);
            assert(s.skip(next - i) =~= chars@.skip(next));
            lemma_pieces_step(s);
        }
        if end > i {
            i = end;
        } else {
            let cells: usize = char_cells(chars[i]);
            assert(byte_pos(chars@, i + 1) == byte_pos(chars@, i as int) + utf8_width(
                chars@[i as int],
            ));
            total += cells;
            i += 1;
        }
    }
    total
}

/// Whether a range of characters is an SGR sequence.
pub fn sgr_chars(s: &[char], from: usize, end: usize) -> (r: bool)
    requires
        from <= end <= s@.len(),
    ensures
        r == sgr(s@.subrange(from as int, end as int)),
{
    let ghost e = s@.subrange(from as int, end as int);
    if end - from < 3 || s[from] != '\u{1b}' || s[from + 1] != '[' || s[end - 1] != 'm' {
        return false;
    }
    let mut i: usize = from + 2;
    while i < end - 1
        invariant
            from + 3 <= end <= s@.len(),
            e == s@.subrange(from as int, end as int),
            from + 2 <= i <= end - 1,
            forall|k: int| 2 <= k < i - from ==> sgr_param(#[trigger] e[k]),
        decreases end - i,
    {
        let c: char = s[i];
        if !(('0' <= c && c <= '9') || c == ';' || c == ':') {
            assert(!sgr_param(e[i - from]));
            return false;
        }
        assert(sgr_param(e[i - from]));
        i += 1;
    }
    true
}

/// Append a range of characters.
pub fn push_range(out: &mut String, s: &[char], from: usize, end: usize)
    requires
        from <= end <= s@.len(),
    ensures
        final(out)@ == old(out)@ + s@.subrange(from as int, end as int),
{
    let ghost before = out@;
    let mut i: usize = from;
    while i < end
        invariant
            from <= i <= end <= s@.len(),
            out@ == before + s@.subrange(from as int, i as int),
        decreases end - i,
    {
        out.push(s[i]);
        i += 1;
        assert(out@ =~= before + s@.subrange(from as int, i as int));
    }
    assert(out@ =~= before + s@.subrange(from as int, end as int));
}

/// Append `n` spaces.
pub fn push_spaces(out: &mut String, n: usize)
    ensures
        final(out)@ == old(out)@ + spaces(n as nat),
{
    let ghost before = out@;
    let mut i: usize = 0;
    while i < n
        invariant
            i <= n,
            out@ == before + spaces(i as nat),
        decreases n - i,
    {
        out.push(' ');
        i += 1;
        assert(out@ =~= before + spaces(i as nat));
    }
    assert(out@ =~= before + spaces(n as nat));
}

/// Fit a terminal cell without forwarding cursor commands or splitting a
/// character.  Raw controls occupy one blank placeholder cell.
pub fn fit_cell(text: &str, width: usize) -> (r: String)
    ensures
        r@ == fitted(text@, width as nat),
        text_width(r@) == width,
        cleaned(r@, true) == r@,
{
    proof {
        law_fitted_width(text@, width as nat);
        law_fitted_is_clean(text@, width as nat);
    }
    if width == 0 {
        return String::new();
    }
    let chars = chars_of(text);
    let mut out = String::new();
    let mut room: usize = width;
    let mut i: usize = 0;
    let ghost whole = fitted(text@, width as nat);
    assert(chars@.skip(0) =~= chars@);
    assert(out@ + flatten(fitted_pieces(pieces(chars@.skip(0)), room as nat)) =~= whole);
    proof {
        assert forall|n: nat| flatten(#[trigger] blank_pieces(n)) == spaces(n) by {
            lemma_flatten_blank(n);
        }
    }
    while i < chars.len()
        invariant
            i <= chars@.len(),
            out@ + flatten(fitted_pieces(pieces(chars@.skip(i as int)), room as nat)) == whole,
            forall|n: nat| flatten(#[trigger] blank_pieces(n)) == spaces(n),
        ensures
            out@ + spaces(room as nat) == whole,
        decreases chars@.len() - i,
    {
        let end: usize = escape_end(chars.as_slice(), i);
        let ghost s = chars@.skip(i as int);
        let ghost ps = pieces(s);
        proof {
            lemma_pieces_step(s);
        }
        if end > i {
            assert(s.take(end - i) =~= chars@.subrange(i as int, end as int));
            assert(s.skip(end - i) =~= chars@.skip(end as int));
            let ghost head = ps[0];
            let ghost rest = fitted_pieces(ps.skip(1), room as nat);
            proof {
                lemma_flatten_one(head);
                lemma_flatten_add(seq![head], rest);
                assert(Seq::<Piece>::empty() + rest =~= rest);
            }
            let ghost before = out@;
            if sgr_chars(chars.as_slice(), i, end) {
                push_range(&mut out, chars.as_slice(), i, end);
                assert(out@ + flatten(rest) =~= before + (piece_text(head) + flatten(rest)));
            }
            i = end;
        } else {
            let c: char = if control(chars[i]) { ' ' } else { chars[i] };
            let cells: usize = char_cells(c);
            assert(s.skip(1) =~= chars@.skip(i + 1));
            if cells > room {
                break;
            }
            let ghost rest = fitted_pieces(ps.skip(1), (room - cells) as nat);
            proof {
                lemma_flatten_one(Piece::Character(c));
                lemma_flatten_add(seq![Piece::Character(c)], rest);
            }
            let ghost before = out@;
            out.push(c);
            room -= cells;
            i += 1;
            assert(out@ + flatten(rest) =~= before + (seq![c] + flatten(rest)));
        }
    }
    push_spaces(&mut out, room);
    out
}

fn clean_text(text: &str, keep_sgr: bool) -> (r: String)
    ensures
        r@ == cleaned(text@, keep_sgr),
{
    let chars = chars_of(text);
    let mut out = String::new();
    let mut i: usize = 0;
    let ghost whole = cleaned(text@, keep_sgr);
    assert(chars@.skip(0) =~= chars@);
    assert(out@ + flatten(kept_pieces(pieces(chars@.skip(0)), keep_sgr)) =~= whole);
    while i < chars.len()
        invariant
            i <= chars@.len(),
            out@ + flatten(kept_pieces(pieces(chars@.skip(i as int)), keep_sgr)) == whole,
        decreases chars@.len() - i,
    {
        let end: usize = escape_end(chars.as_slice(), i);
        let ghost s = chars@.skip(i as int);
        let ghost ps = pieces(s);
        proof {
            lemma_pieces_step(s);
        }
        let ghost before = out@;
        let ghost next: int = if end > i { end as int } else { i + 1 };
        let ghost rest = kept_pieces(pieces(chars@.skip(next)), keep_sgr);
        proof {
            assert(s.skip(next - i) =~= chars@.skip(next));
            lemma_flatten_add(kept(ps[0], keep_sgr), rest);
            lemma_flatten_one(ps[0]);
            lemma_flatten_one(Piece::Character(' '));
        }
        if end > i {
            assert(s.take(end - i) =~= chars@.subrange(i as int, end as int));
            if keep_sgr && sgr_chars(chars.as_slice(), i, end) {
                push_range(&mut out, chars.as_slice(), i, end);
            }
            i = end;
        } else {
            let c: char = chars[i];
            if c == '\t' {
                out.push(' ');
            } else if !control(c) {
                out.push(c);
            }
            i += 1;
        }
        assert(out@ =~= before + flatten(kept(ps[0], keep_sgr)));
        assert(out@ + flatten(rest) =~= before + (flatten(kept(ps[0], keep_sgr)) + flatten(rest)));
    }
    assert(out@ =~= whole);
    out
}

/// Keep SGR styling, remove other terminal commands and controls, and
/// normalise tabs.  This is a single-line primitive; callers that copy several
/// lines join them afterwards.
pub fn sanitize(text: &str) -> (r: String)
    ensures
        r@ == cleaned(text@, true),
{
    clean_text(text, true)
}

/// The same rules as `sanitize`, but with all styling removed for copying.
pub fn plain_text(text: &str) -> (r: String)
    ensures
        r@ == cleaned(text@, false),
        forall|k: int| 0 <= k < r@.len() ==> !is_control(#[trigger] r@[k]),
{
    proof {
        law_plain_has_no_control(text@);
    }
    clean_text(text, false)
}

// ---------------------------------------------------------------------------
// The same grammar over bytes
// ---------------------------------------------------------------------------

/// How many leading bytes lie in the range `lo..=hi`.
pub open spec fn byte_run(b: Seq<u8>, lo: u8, hi: u8) -> nat
    decreases b.len(),
{
    if b.len() > 0 && lo <= b[0] <= hi {
        1 + byte_run(b.drop_first(), lo, hi)
    } else {
        0
    }
}

/// The length of a control sequence body, in bytes.
pub open spec fn byte_csi(b: Seq<u8>) -> nat {
    let p = byte_run(b, 0x30, 0x3f);
    let q = p + byte_run(b.skip(p as int), 0x20, 0x2f);
    if q < b.len() && 0x40 <= b[q as int] <= 0x7e {
        q + 1
    } else {
        q
    }
}

/// The length of a control string body, in bytes, with its terminator.
pub open spec fn byte_string(b: Seq<u8>, bel: bool) -> nat
    decreases b.len(),
{
    if b.len() == 0 {
        0
    } else if bel && b[0] == 0x07 {
        1
    } else if b.len() >= 2 && ((b[0] == 0x1b && b[1] == 0x5c) || (b[0] == 0xc2 && b[1] == 0x9c)) {
        2
    } else {
        1 + byte_string(b.drop_first(), bel)
    }
}

/// The length of what follows ESC in an ordinary escape, in bytes.
pub open spec fn byte_plain_escape(b: Seq<u8>) -> nat {
    let q = byte_run(b, 0x20, 0x2f);
    if q < b.len() && 0x30 <= b[q as int] <= 0x7e {
        q + 1
    } else {
        q
    }
}

/// The length of the escape sequence at the start of a byte string; zero
/// where none starts there.  C1 introducers are recognised in their UTF-8
/// encoding.
pub open spec fn escape_bytes(b: Seq<u8>) -> nat {
    if b.len() == 0 {
        0
    } else if b[0] == 0x1b {
        if b.len() == 1 {
            1
        } else if b[1] == 0x5b {
            2 + byte_csi(b.skip(2))
        } else if b[1] == 0x5d {
            2 + byte_string(b.skip(2), true)
        } else if b[1] == 0x50 || b[1] == 0x58 || b[1] == 0x5e || b[1] == 0x5f {
            2 + byte_string(b.skip(2), false)
        } else {
            1 + byte_plain_escape(b.skip(1))
        }
    } else if b.len() >= 2 && b[0] == 0xc2 {
        if b[1] == 0x9b {
            2 + byte_csi(b.skip(2))
        } else if b[1] == 0x9d {
            2 + byte_string(b.skip(2), true)
        } else if b[1] == 0x90 || b[1] == 0x98 || b[1] == 0x9e || b[1] == 0x9f {
            2 + byte_string(b.skip(2), false)
        } else {
            0
        }
    } else {
        0
    }
}

fn scan_byte_run(b: &[u8], from: usize, lo: u8, hi: u8) -> (end: usize)
    requires
        from <= b@.len(),
    ensures
        from <= end <= b@.len(),
        end - from == byte_run(b@.skip(from as int), lo, hi),
{
    let mut i: usize = from;
    while i < b.len() && lo <= b[i] && b[i] <= hi
        invariant
            from <= i <= b@.len(),
            byte_run(b@.skip(from as int), lo, hi) == (i - from) + byte_run(
                b@.skip(i as int),
                lo,
                hi,
            ),
        decreases b@.len() - i,
    {
        assert(b@.skip(i as int).drop_first() =~= b@.skip(i + 1));
        i += 1;
    }
    i
}

fn scan_byte_string(b: &[u8], from: usize, bel: bool) -> (end: usize)
    requires
        from <= b@.len(),
    ensures
        from <= end <= b@.len(),
        end - from == byte_string(b@.skip(from as int), bel),
{
    let mut i: usize = from;
    while i < b.len()
        invariant
            from <= i <= b@.len(),
            byte_string(b@.skip(from as int), bel) == (i - from) + byte_string(
                b@.skip(i as int),
                bel,
            ),
        decreases b@.len() - i,
    {
        if bel && b[i] == 0x07 {
            return i + 1;
        }
        if i + 1 < b.len() && ((b[i] == 0x1b && b[i + 1] == 0x5c) || (b[i] == 0xc2 && b[i + 1]
            == 0x9c)) {
            return i + 2;
        }
        assert(b@.skip(i as int).drop_first() =~= b@.skip(i + 1));
        i += 1;
    }
    i
}

fn scan_byte_csi(b: &[u8], from: usize) -> (end: usize)
    requires
        from <= b@.len(),
    ensures
        from <= end <= b@.len(),
        end - from == byte_csi(b@.skip(from as int)),
{
    let p: usize = scan_byte_run(b, from, 0x30, 0x3f);
    let q: usize = scan_byte_run(b, p, 0x20, 0x2f);
    assert(b@.skip(from as int).skip((p - from) as int) =~= b@.skip(p as int));
    if q < b.len() && 0x40 <= b[q] && b[q] <= 0x7e {
        q + 1
    } else {
        q
    }
}

/// Byte length of an escape at the beginning of `bytes`, or zero if none
/// starts there.  Handles CSI, OSC, ST-terminated strings (DCS, SOS, PM, APC)
/// and ordinary ESC forms.
pub fn ansi_seq_len(bytes: &[u8]) -> (n: usize)
    ensures
        n == escape_bytes(bytes@),
        n <= bytes@.len(),
{
    let len: usize = bytes.len();
    if len == 0 {
        return 0;
    }
    if bytes[0] == 0x1b {
        if len == 1 {
            return 1;
        }
        let intro: u8 = bytes[1];
        if intro == 0x5b {
            scan_byte_csi(bytes, 2)
        } else if intro == 0x5d {
            scan_byte_string(bytes, 2, true)
        } else if intro == 0x50 || intro == 0x58 || intro == 0x5e || intro == 0x5f {
            scan_byte_string(bytes, 2, false)
        } else {
            let q: usize = scan_byte_run(bytes, 1, 0x20, 0x2f);
            if q < len && 0x30 <= bytes[q] && bytes[q] <= 0x7e {
                q + 1
            } else {
                q
            }
        }
    } else if len >= 2 && bytes[0] == 0xc2 {
        let intro: u8 = bytes[1];
        if intro == 0x9b {
            scan_byte_csi(bytes, 2)
        } else if intro == 0x9d {
            scan_byte_string(bytes, 2, true)
        } else if intro == 0x90 || intro == 0x98 || intro == 0x9e || intro == 0x9f {
            scan_byte_string(bytes, 2, false)
        } else {
            0
        }
    } else {
        0
    }
}

/// An SGR sequence as bytes.
pub open spec fn sgr_bytes(b: Seq<u8>) -> bool {
    &&& b.len() >= 3
    &&& b[0] == 0x1b
    &&& b[1] == 0x5b
    &&& b.last() == 0x6d
    &&& forall|k: int|
        2 <= k < b.len() - 1 ==> 0x30 <= #[trigger] b[k] <= 0x39 || b[k] == 0x3b || b[k] == 0x3a
}

/// Only ordinary SGR parameters can pass the untrusted-text boundary.
pub fn is_sgr(seq: &[u8]) -> (r: bool)
    ensures
        r == sgr_bytes(seq@),
{
    let len: usize = seq.len();
    if len < 3 || seq[0] != 0x1b || seq[1] != 0x5b || seq[len - 1] != 0x6d {
        return false;
    }
    let mut i: usize = 2;
    while i < len - 1
        invariant
            len == seq@.len(),
            2 <= i <= len - 1,
            forall|k: int|
                2 <= k < i ==> 0x30 <= #[trigger] seq@[k] <= 0x39 || seq@[k] == 0x3b || seq@[k]
                    == 0x3a,
        decreases len - i,
    {
        let c: u8 = seq[i];
        if !((0x30 <= c && c <= 0x39) || c == 0x3b || c == 0x3a) {
            assert(seq@[i as int] == c);
            return false;
        }
        i += 1;
    }
    true
}

// ---------------------------------------------------------------------------
// Characters and bytes agree
// ---------------------------------------------------------------------------

proof fn lemma_scalar_bytes(c: char)
    ensures
        ({
            let b = encode_scalar(c as u32);
            let v = c as u32;
            &&& v as int == c as int
            &&& v < 0x80 ==> b.len() == 1 && b[0] == v
            &&& v >= 0x80 ==> b.len() >= 2 && b[0] >= 0xc2
            &&& forall|k: int| 1 <= k < b.len() ==> 0x80 <= #[trigger] b[k] <= 0xbf
            &&& 0x80 <= v <= 0xbf ==> b.len() == 2 && b[0] == 0xc2 && b[1] == v
            &&& v >= 0xc0 ==> b[0] != 0xc2
        }),
{
    char_is_scalar(c);
    let v: u32 = c as u32;
    let b = encode_scalar(v);
    assert(v <= 0x7f ==> (v & 0x7f) as u8 == v as u8) by (bit_vector);
    assert(0x80 <= v <= 0x7ff ==> {
        let l = 0xc0u8 | ((v >> 6) & 0x1f) as u8;
        &&& l >= 0xc2
        &&& (v <= 0xbf ==> l == 0xc2)
        &&& (v >= 0xc0 ==> l != 0xc2)
    }) by (bit_vector);
    assert(0x800 <= v <= 0xffff ==> (0xe0u8 | ((v >> 12) & 0x0f) as u8) >= 0xe0) by (bit_vector);
    assert((0xf0u8 | ((v >> 18) & 0x7) as u8) >= 0xf0) by (bit_vector);
    assert(0x80 <= (0x80u8 | (v & 0x3f) as u8) <= 0xbf) by (bit_vector);
    assert(0x80 <= (0x80u8 | ((v >> 6) & 0x3f) as u8) <= 0xbf) by (bit_vector);
    assert(0x80 <= (0x80u8 | ((v >> 12) & 0x3f) as u8) <= 0xbf) by (bit_vector);
    assert(0x80 <= v <= 0xbf ==> (0x80u8 | (v & 0x3f) as u8) == v as u8) by (bit_vector);
}

/// The encoding of a text that is not empty.
proof fn lemma_encode_step(s: Seq<char>)
    requires
        s.len() > 0,
    ensures
        encode_utf8(s) == encode_scalar(s[0] as u32) + encode_utf8(s.skip(1)),
        encode_scalar(s[0] as u32).len() == utf8_width(s[0]),
{
    char_is_scalar(s[0]);
    assert(s.drop_first() =~= s.skip(1));
}

proof fn lemma_encode_run(s: Seq<char>, lo: u32, hi: u32)
    requires
        lo <= hi < 0x80,
    ensures
        byte_run(encode_utf8(s), lo as u8, hi as u8) == run_len(s, lo, hi),
        encode_utf8(s).skip(run_len(s, lo, hi) as int) == encode_utf8(
            s.skip(run_len(s, lo, hi) as int),
        ),
        byte_len(s.take(run_len(s, lo, hi) as int)) == run_len(s, lo, hi),
        run_len(s, lo, hi) <= s.len(),
    decreases s.len(),
{
    lemma_run_bound(s, lo, hi);
    let b = encode_utf8(s);
    if s.len() > 0 {
        lemma_encode_step(s);
        lemma_scalar_bytes(s[0]);
        let n = run_len(s, lo, hi);
        if lo <= s[0] as u32 <= hi {
            lemma_encode_run(s.skip(1), lo, hi);
            assert(s.drop_first() =~= s.skip(1));
            assert(b.drop_first() =~= encode_utf8(s.skip(1)));
            lemma_byte_len_encode(s.skip(1));
            lemma_byte_pos_monotone(s.skip(1), 0, s.len() - 1);
            assert(b.skip(n as int) =~= encode_utf8(s.skip(1)).skip(n - 1));
            assert(s.skip(1).skip(n - 1) =~= s.skip(n as int));
            assert(s.take(n as int) =~= seq![s[0]] + s.skip(1).take(n - 1));
            lemma_byte_pos_add(seq![s[0]], s.skip(1).take(n - 1), n - 1);
            assert(byte_pos(seq![s[0]], 1) == byte_pos(seq![s[0]], 0) + utf8_width(s[0]));
        } else {
            assert(b.skip(0) =~= b);
            assert(s.skip(0) =~= s);
            assert(b[0] == encode_scalar(s[0] as u32)[0]);
        }
    } else {
        assert(b.skip(0) =~= b);
        assert(s.skip(0) =~= s);
    }
}

/// What follows a prefix of a text, in bytes and in characters.
proof fn lemma_encode_skip(s: Seq<char>, n: int)
    requires
        0 <= n <= s.len(),
    ensures
        encode_utf8(s).skip(byte_pos(s, n) as int) == encode_utf8(s.skip(n)),
        byte_pos(s, n) <= encode_utf8(s).len(),
        byte_pos(s, n) == byte_len(s.take(n)),
    decreases n,
{
    lemma_byte_len_encode(s);
    lemma_byte_pos_monotone(s, n, s.len() as int);
    lemma_byte_pos_prefix(s, s.take(n), n);
    if n > 0 {
        lemma_encode_skip(s, n - 1);
        let t = s.skip(n - 1);
        lemma_encode_step(t);
        assert(t.skip(1) =~= s.skip(n));
        let b = encode_utf8(s);
        assert(b.skip(byte_pos(s, n) as int) =~= b.skip(byte_pos(s, n - 1) as int).skip(
            utf8_width(s[n - 1]) as int,
        ));
        assert(encode_utf8(t).skip(utf8_width(s[n - 1]) as int) =~= encode_utf8(t.skip(1)));
    } else {
        assert(s.skip(0) =~= s);
        assert(encode_utf8(s).skip(0) =~= encode_utf8(s));
    }
}

/// After `n` characters that are ASCII, byte and character offsets agree; one
/// more character of an ASCII range is one more byte.
proof fn lemma_encode_final(s: Seq<char>, n: nat, lo: u32, hi: u32)
    requires
        n <= s.len(),
        byte_len(s.take(n as int)) == n,
        lo <= hi < 0x80,
    ensures
        ({
            let b = encode_utf8(s);
            let c = n < s.len() && lo <= s[n as int] as u32 <= hi;
            &&& c == (n < b.len() && lo as u8 <= b[n as int] <= hi as u8)
            &&& c ==> byte_len(s.take((n + 1) as int)) == n + 1
        }),
{
    let b = encode_utf8(s);
    lemma_encode_skip(s, n as int);
    let t = s.skip(n as int);
    if n < s.len() {
        lemma_encode_step(t);
        lemma_scalar_bytes(t[0]);
        assert(encode_utf8(t).len() >= 1);
        assert(b.skip(n as int) == encode_utf8(t));
        assert(b.skip(n as int)[0] == encode_scalar(t[0] as u32)[0]);
        assert(b[n as int] == b.skip(n as int)[0]);
        lemma_byte_pos_prefix(s, s.take(n as int), n as int);
        lemma_byte_pos_prefix(s, s.take((n + 1) as int), (n + 1) as int);
        assert(byte_pos(s, (n + 1) as int) == byte_pos(s, n as int) + utf8_width(s[n as int]));
    } else {
        assert(t =~= Seq::<char>::empty());
        assert(encode_utf8(t).len() == 0);
    }
}

proof fn lemma_encode_csi(s: Seq<char>)
    ensures
        byte_csi(encode_utf8(s)) == csi_body(s),
        csi_body(s) <= s.len(),
        byte_len(s.take(csi_body(s) as int)) == csi_body(s),
{
    lemma_csi_bound(s);
    let p = run_len(s, 0x30, 0x3f);
    lemma_encode_run(s, 0x30, 0x3f);
    let t = s.skip(p as int);
    lemma_encode_run(t, 0x20, 0x2f);
    let q = p + run_len(t, 0x20, 0x2f);
    assert(s.take(q as int) =~= s.take(p as int) + t.take(q - p));
    lemma_byte_pos_add(s.take(p as int), t.take(q - p), q - p);
    lemma_encode_final(s, q, 0x40, 0x7e);
}

proof fn lemma_encode_plain_escape(s: Seq<char>)
    ensures
        byte_plain_escape(encode_utf8(s)) == plain_escape_body(s),
        plain_escape_body(s) <= s.len(),
        byte_len(s.take(plain_escape_body(s) as int)) == plain_escape_body(s),
{
    lemma_encode_run(s, 0x20, 0x2f);
    lemma_encode_final(s, run_len(s, 0x20, 0x2f), 0x30, 0x7e);
}

/// Continuation bytes never end a control string.
proof fn lemma_byte_string_skip(b: Seq<u8>, n: int, bel: bool)
    requires
        0 <= n <= b.len(),
        forall|k: int| 0 <= k < n ==> 0x80 <= #[trigger] b[k] <= 0xbf,
    ensures
        byte_string(b, bel) == n + byte_string(b.skip(n), bel),
    decreases n,
{
    if n > 0 {
        let t = b.drop_first();
        assert forall|k: int| 0 <= k < n - 1 implies 0x80 <= #[trigger] t[k] <= 0xbf by {
            assert(0x80 <= b[k + 1] <= 0xbf);
        }
        assert(0x80 <= b[0] <= 0xbf);
        lemma_byte_string_skip(t, n - 1, bel);
        assert(t.skip(n - 1) =~= b.skip(n));
    } else {
        assert(b.skip(0) =~= b);
    }
}

proof fn lemma_encode_string(s: Seq<char>, bel: bool)
    ensures
        string_body(s, bel) <= s.len(),
        byte_string(encode_utf8(s), bel) == byte_len(s.take(string_body(s, bel) as int)),
    decreases s.len(),
{
    lemma_string_bound(s, bel);
    if s.len() > 0 {
        let b = encode_utf8(s);
        let c = s[0];
        let e = encode_scalar(c as u32);
        let rest = s.skip(1);
        lemma_encode_step(s);
        lemma_scalar_bytes(c);
        lemma_encode_string(rest, bel);
        assert(s.drop_first() =~= rest);
        assert(b[0] == e[0]);
        if rest.len() > 0 {
            lemma_encode_step(rest);
            lemma_scalar_bytes(rest[0]);
            assert(e.len() == 1 ==> b[1] == encode_scalar(rest[0] as u32)[0]);
        }
        if e.len() >= 2 {
            assert(b[1] == e[1]);
        }
        let n = string_body(s, bel);
        assert(byte_pos(s.take(1), 1) == byte_pos(s.take(1), 0) + utf8_width(c));
        if bel && c == '\u{7}' {
        } else if s.len() >= 2 && c == '\u{1b}' && s[1] == '\\' {
            assert(byte_pos(s.take(2), 2) == byte_pos(s.take(2), 1) + utf8_width(s[1]));
            assert(byte_pos(s.take(2), 1) == byte_pos(s.take(2), 0) + utf8_width(s[0]));
        } else if c == '\u{9c}' {
        } else {
            let m = string_body(rest, bel);
            assert(n == 1 + m);
            assert(s.take(n as int) =~= seq![c] + rest.take(m as int));
            lemma_byte_pos_add(seq![c], rest.take(m as int), m as int);
            assert(byte_pos(seq![c], 1) == byte_pos(seq![c], 0) + utf8_width(c));
            assert(b[0] == 0x07 ==> c == '\u{7}');
            assert(!(b.len() >= 2 && b[0] == 0x1b && b[1] == 0x5c)) by {
                if b[0] == 0x1b {
                    assert(c == '\u{1b}');
                    if rest.len() == 0 {
                        assert(encode_utf8(rest).len() == 0);
                    } else if b[1] == 0x5c {
                        assert(rest[0] == '\\');
                    }
                }
            }
            assert(!(b.len() >= 2 && b[0] == 0xc2 && b[1] == 0x9c)) by {
                if b[0] == 0xc2 {
                    assert(0x80 <= c as u32 <= 0xbf);
                    assert(b[1] == c as u32);
                }
            }
            assert(byte_string(b, bel) == 1 + byte_string(b.drop_first(), bel));
            let t = b.drop_first();
            let k = e.len() - 1;
            assert forall|j: int| 0 <= j < k implies 0x80 <= #[trigger] t[j] <= 0xbf by {
                assert(t[j] == e[j + 1]);
            }
            lemma_byte_string_skip(t, k, bel);
            assert(t.skip(k) =~= encode_utf8(rest));
        }
    } else {
        assert(s.take(0) =~= Seq::<char>::empty());
    }
}

/// Reading a text character by character and reading its UTF-8 bytes finds
/// the same escape sequence at its start, and never splits a character.
pub proof fn law_escape_bytes_agree(s: Seq<char>)
    ensures
        escape_bytes(encode_utf8(s)) == byte_len(s.take(escape_len(s) as int)),
{
    reveal(escape_len);
    lemma_escape_bound(s);
    let b = encode_utf8(s);
    if s.len() > 0 {
        let c = s[0];
        let n = escape_len(s) as int;
        let rest = s.skip(1);
        lemma_encode_step(s);
        lemma_scalar_bytes(c);
        assert(b[0] == encode_scalar(c as u32)[0]);
        assert(byte_pos(s, 1) == byte_pos(s, 0) + utf8_width(c));
        lemma_encode_skip(s, 1);
        if rest.len() > 0 {
            lemma_encode_step(rest);
            lemma_scalar_bytes(rest[0]);
            assert(encode_utf8(rest)[0] == encode_scalar(rest[0] as u32)[0]);
        } else {
            assert(encode_utf8(rest).len() == 0);
        }
        if c as u32 >= 0x80 {
            assert(b[1] == encode_scalar(c as u32)[1]);
        }
        if c == '\u{1b}' {
            assert(b.skip(1)[0] == b[1] || b.len() == 1);
            if s.len() > 1 && (s[1] == '[' || s[1] == ']' || s[1] == 'P' || s[1] == 'X' || s[1]
                == '^' || s[1] == '_') {
                assert(byte_pos(s, 2) == byte_pos(s, 1) + utf8_width(s[1]));
                lemma_encode_skip(s, 2);
                let t = s.skip(2);
                lemma_encode_csi(t);
                lemma_encode_string(t, true);
                lemma_encode_string(t, false);
                assert(s.take(n) =~= s.take(2) + t.take(n - 2));
                lemma_byte_pos_add(s.take(2), t.take(n - 2), n - 2);
            } else if s.len() > 1 {
                lemma_encode_plain_escape(rest);
                assert(s.take(n) =~= s.take(1) + rest.take(n - 1));
                lemma_byte_pos_add(s.take(1), rest.take(n - 1), n - 1);
            } else {
                assert(s.take(1) =~= s);
                lemma_byte_len_encode(s);
            }
        } else if n > 0 {
            lemma_encode_csi(rest);
            lemma_encode_string(rest, true);
            lemma_encode_string(rest, false);
            assert(s.take(n) =~= s.take(1) + rest.take(n - 1));
            lemma_byte_pos_add(s.take(1), rest.take(n - 1), n - 1);
        }
    }
}

} // verus!

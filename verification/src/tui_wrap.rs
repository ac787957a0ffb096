//! Wrapping of styled text: where rows break, and which styling a row has to
//! start with.
use vstd::prelude::*;
use crate::tui_text::{
    all_clean, cell_width, char_cells, clean_piece, escape_end, flatten, kept_pieces,
    lemma_flatten_add, lemma_flatten_one, lemma_kept_clean, lemma_pieces_step, lemma_reparse,
    lemma_width_add, lemma_width_one, pieces, pieces_width, piece_text, push_range, sanitize, Piece,
};
use crate::util::{chars_of, decimal, push_decimal, texts};

verus! {

// ---------------------------------------------------------------------------
// Pieces as data
// ---------------------------------------------------------------------------

/// One piece of a text.
pub enum Unit {
    Escape(Vec<char>),
    Character(char),
}

impl View for Unit {
    type V = Piece;

    open spec fn view(&self) -> Piece {
        match *self {
            Unit::Escape(e) => Piece::Escape(e@),
            Unit::Character(c) => Piece::Character(c),
        }
    }
}

pub open spec fn unit_models(v: Seq<Unit>) -> Seq<Piece> {
    v.map_values(|u: Unit| u@)
}

/// A text, cut into its pieces.
pub fn units(text: &str) -> (r: Vec<Unit>)
    ensures
        unit_models(r@) == pieces(text@),
{
    let chars = chars_of(text);
    let mut out: Vec<Unit> = Vec::new();
    let mut i: usize = 0;
    let ghost whole = pieces(text@);
    assert(chars@.skip(0) =~= chars@);
    assert(unit_models(out@) + pieces(chars@.skip(0)) =~= whole);
    while i < chars.len()
        invariant
            i <= chars@.len(),
            unit_models(out@) + pieces(chars@.skip(i as int)) == whole,
        decreases chars@.len() - i,
    {
        let ghost s = chars@.skip(i as int);
        let ghost before = unit_models(out@);
        proof {
            lemma_pieces_step(s);
        }
        let end: usize = escape_end(chars.as_slice(), i);
        let ghost next: int = if end > i {
            end as int
        } else {
            i + 1
        };
        assert(s.skip(next - i) =~= chars@.skip(next));
        if end > i {
            let part = vstd::slice::slice_subrange(chars.as_slice(), i, end);
            let copy = vstd::slice::slice_to_vec(part);
            assert(copy@ =~= s.take(end - i));
            out.push(Unit::Escape(copy));
            i = end;
        } else {
            out.push(Unit::Character(chars[i]));
            i += 1;
        }
        proof {
            let rest = pieces(chars@.skip(next));
            assert(unit_models(out@) =~= before.push(pieces(s)[0]));
            assert(pieces(s) =~= seq![pieces(s)[0]] + rest);
            assert(before.push(pieces(s)[0]) + rest =~= before + pieces(s));
        }
    }
    assert(unit_models(out@) + pieces(chars@.skip(i as int)) =~= unit_models(out@));
    out
}

fn push_chars(out: &mut String, e: &Vec<char>)
    ensures
        final(out)@ == old(out)@ + e@,
{
    push_range(out, e.as_slice(), 0, e.len());
    assert(e@.subrange(0, e@.len() as int) =~= e@);
}

/// Append one piece.
pub fn push_unit(out: &mut String, u: &Unit)
    ensures
        final(out)@ == old(out)@ + piece_text(u@),
{
    let ghost before = out@;
    match u {
        Unit::Escape(e) => {
            push_chars(out, e);
        },
        Unit::Character(c) => {
            out.push(*c);
            assert(out@ =~= before + seq![*c]);
        },
    }
}

/// Append the pieces from `from` to before `to`.
pub fn push_units(out: &mut String, v: &Vec<Unit>, from: usize, to: usize)
    requires
        from <= to <= v@.len(),
    ensures
        final(out)@ == old(out)@ + flatten(unit_models(v@).subrange(from as int, to as int)),
{
    let ghost before = out@;
    let ghost m = unit_models(v@);
    let mut i: usize = from;
    assert(m.subrange(from as int, from as int) =~= Seq::<Piece>::empty());
    assert(out@ =~= before + flatten(m.subrange(from as int, from as int)));
    while i < to
        invariant
            from <= i <= to <= v@.len(),
            m == unit_models(v@),
            out@ == before + flatten(m.subrange(from as int, i as int)),
        decreases to - i,
    {
        let ghost done = m.subrange(from as int, i as int);
        push_unit(out, &v[i]);
        proof {
            assert(m.subrange(from as int, i + 1) =~= done + seq![m[i as int]]);
            lemma_flatten_add(done, seq![m[i as int]]);
            lemma_flatten_one(m[i as int]);
            assert(out@ =~= before + flatten(m.subrange(from as int, i + 1)));
        }
        i += 1;
    }
}

// ---------------------------------------------------------------------------
// Styling in force
// ---------------------------------------------------------------------------

/// The styling in force: the two colour channels and the numbered attributes.
pub ghost struct SgrModel {
    pub fg: Seq<char>,
    pub bg: Seq<char>,
    pub attrs: Seq<bool>,
}

/// No styling.
pub open spec fn plain_style() -> SgrModel {
    SgrModel { fg: seq![], bg: seq![], attrs: Seq::new(10, |i: int| false) }
}

/// The value of decimal digits.
pub open spec fn chars_value(s: Seq<char>) -> nat
    decreases s.len(),
{
    if s.len() == 0 {
        0
    } else {
        chars_value(s.drop_last()) * 10 + (s.last() as u32 - 0x30) as nat
    }
}

/// A parameter without the plus sign that it may begin with.
pub open spec fn without_plus(s: Seq<char>) -> Seq<char> {
    if s.len() > 0 && s[0] == '+' {
        s.skip(1)
    } else {
        s
    }
}

/// A parameter as a 16-bit number; zero where it is none.
pub open spec fn sgr_number(s: Seq<char>) -> nat {
    let d = without_plus(s);
    if d.len() > 0 && (forall|k: int| 0 <= k < d.len() ==> '0' <= #[trigger] d[k] <= '9')
        && chars_value(d) <= 65535 {
        chars_value(d)
    } else {
        0
    }
}

/// The index of the first semicolon, or the length.
pub open spec fn semicolon(s: Seq<char>) -> nat
    decreases s.len(),
{
    if s.len() == 0 || s[0] == ';' {
        0
    } else {
        1 + semicolon(s.skip(1))
    }
}

/// The parameters of an SGR sequence.
pub open spec fn sgr_numbers(s: Seq<char>) -> Seq<nat>
    decreases s.len(),
{
    let n = semicolon(s) as int;
    if n < 0 || n >= s.len() {
        seq![sgr_number(s)]
    } else {
        seq![sgr_number(s.take(n))] + sgr_numbers(s.skip(n + 1))
    }
}

/// Numbers with semicolons between them.
pub open spec fn joined_numbers(v: Seq<nat>) -> Seq<char>
    decreases v.len(),
{
    if v.len() == 0 {
        seq![]
    } else if v.len() == 1 {
        decimal(v[0])
    } else {
        joined_numbers(v.drop_last()) + ";"@ + decimal(v.last())
    }
}

/// An SGR sequence with the given parameters.
pub open spec fn sgr_sequence(v: Seq<nat>) -> Seq<char> {
    "\u{1b}["@ + joined_numbers(v) + "m"@
}

/// How many parameters an extended colour takes, at the index of its plane.
pub open spec fn color_params(v: Seq<nat>, i: int) -> int {
    if i + 1 < v.len() && v[i + 1] == 2 {
        5
    } else if i + 1 < v.len() && v[i + 1] == 5 {
        3
    } else {
        1
    }
}

/// What the parameter at an index does to the styling, and how many
/// parameters that took.
pub open spec fn style_step(m: SgrModel, v: Seq<nat>, i: int) -> (SgrModel, int) {
    let n = v[i];
    if n == 0 {
        (plain_style(), 1)
    } else if 1 <= n <= 9 {
        (SgrModel { attrs: m.attrs.update(n as int, true), ..m }, 1)
    } else if n == 22 {
        (SgrModel { attrs: m.attrs.update(1, false).update(2, false), ..m }, 1)
    } else if 23 <= n <= 29 {
        (SgrModel { attrs: m.attrs.update(n - 20, false), ..m }, 1)
    } else if 30 <= n <= 37 || 90 <= n <= 97 {
        (SgrModel { fg: sgr_sequence(seq![n]), ..m }, 1)
    } else if 40 <= n <= 47 || 100 <= n <= 107 {
        (SgrModel { bg: sgr_sequence(seq![n]), ..m }, 1)
    } else if n == 39 {
        (SgrModel { fg: seq![], ..m }, 1)
    } else if n == 49 {
        (SgrModel { bg: seq![], ..m }, 1)
    } else if n == 38 || n == 48 {
        let count = color_params(v, i);
        if i + count <= v.len() {
            let code = sgr_sequence(v.subrange(i, i + count));
            (
                if n == 38 {
                    SgrModel { fg: code, ..m }
                } else {
                    SgrModel { bg: code, ..m }
                },
                count,
            )
        } else {
            (m, 1)
        }
    } else {
        (m, 1)
    }
}

/// What the parameters from `i` on do to the styling.
pub open spec fn style_steps(m: SgrModel, v: Seq<nat>, i: int) -> SgrModel
    decreases v.len() - i,
{
    if i < 0 || i >= v.len() || style_step(m, v, i).1 <= 0 {
        m
    } else {
        style_steps(style_step(m, v, i).0, v, i + style_step(m, v, i).1)
    }
}

/// Whether a sequence sets the styling: `ESC [`, parameters, `m`.
pub open spec fn sets_style(e: Seq<char>) -> bool {
    e.len() >= 3 && e[0] == '\u{1b}' && e[1] == '[' && e.last() == 'm'
}

/// The styling after a sequence; one that does not set it changes nothing.
pub open spec fn styled(m: SgrModel, e: Seq<char>) -> SgrModel {
    if sets_style(e) {
        style_steps(m, sgr_numbers(e.subrange(2, e.len() - 1)), 0)
    } else {
        m
    }
}

/// The styling after some pieces.
pub open spec fn styled_by(m: SgrModel, ps: Seq<Piece>) -> SgrModel
    decreases ps.len(),
{
    if ps.len() == 0 {
        m
    } else {
        let before = styled_by(m, ps.drop_last());
        match ps.last() {
            Piece::Escape(e) => styled(before, e),
            Piece::Character(_) => before,
        }
    }
}

/// The sequences that switch on the attributes before the index `n`.
pub open spec fn attr_codes(attrs: Seq<bool>, n: int) -> Seq<char>
    decreases n,
{
    if n <= 0 {
        seq![]
    } else {
        attr_codes(attrs, n - 1) + if attrs[n - 1] {
            sgr_sequence(seq![(n - 1) as nat])
        } else {
            seq![]
        }
    }
}

/// The sequences that bring a styling into force.
pub open spec fn style_code(m: SgrModel) -> Seq<char> {
    attr_codes(m.attrs, 10) + m.fg + m.bg
}

/// The styling in force.
pub struct SgrState {
    pub fg: String,
    pub bg: String,
    pub attrs: [bool; 10],
}

impl View for SgrState {
    type V = SgrModel;

    open spec fn view(&self) -> SgrModel {
        SgrModel { fg: self.fg@, bg: self.bg@, attrs: self.attrs@ }
    }
}

impl Default for SgrState {
    fn default() -> (r: SgrState)
        ensures
            r@ == plain_style(),
    {
        let r = SgrState { fg: String::new(), bg: String::new(), attrs: [false; 10] };
        assert(r@.attrs =~= plain_style().attrs);
        r
    }
}

proof fn lemma_chars_value_grow(d: Seq<char>, i: int)
    requires
        0 <= i <= d.len(),
        forall|k: int| 0 <= k < d.len() ==> '0' <= #[trigger] d[k] <= '9',
    ensures
        chars_value(d.take(i)) <= chars_value(d),
    decreases d.len() - i,
{
    if i < d.len() {
        lemma_chars_value_grow(d, i + 1);
        assert(d.take(i + 1).drop_last() =~= d.take(i));
        assert('0' <= d[i] <= '9');
    } else {
        assert(d.take(i) =~= d);
    }
}

fn parse_sgr_number(s: &[char], from: usize, to: usize) -> (r: u32)
    requires
        from <= to <= s@.len(),
    ensures
        r == sgr_number(s@.subrange(from as int, to as int)),
        r <= 65535,
{
    let ghost whole = s@.subrange(from as int, to as int);
    let signed: bool = from < to && s[from] == '+';
    let first: usize = if signed {
        from + 1
    } else {
        from
    };
    let ghost d = s@.subrange(first as int, to as int);
    assert(d =~= without_plus(whole));
    let mut value: u32 = 0;
    let mut i: usize = first;
    while i < to
        invariant
            d == without_plus(whole),
            whole == s@.subrange(from as int, to as int),
            d == s@.subrange(first as int, to as int),
            first <= i <= to <= s@.len(),
            value <= 65535,
            forall|k: int| 0 <= k < i - first ==> '0' <= #[trigger] d[k] <= '9',
            value == chars_value(d.take(i - first)),
        decreases to - i,
    {
        let c: char = s[i];
        let ghost k = i - first;
        assert(d[k] == c);
        if !('0' <= c && c <= '9') {
            return 0;
        }
        assert(d.take(k + 1).drop_last() =~= d.take(k));
        let next: u32 = value * 10 + (c as u32 - 0x30);
        if next > 65535 {
            proof {
                if forall|j: int| 0 <= j < d.len() ==> '0' <= #[trigger] d[j] <= '9' {
                    lemma_chars_value_grow(d, k + 1);
                }
            }
            return 0;
        }
        value = next;
        i += 1;
    }
    assert(d.take(to - first) =~= d);
    value
}

spec fn nats(v: Seq<u32>) -> Seq<nat> {
    v.map_values(|x: u32| x as nat)
}

fn parse_sgr_numbers(s: &[char], from: usize, to: usize) -> (r: Vec<u32>)
    requires
        from <= to <= s@.len(),
    ensures
        nats(r@) == sgr_numbers(s@.subrange(from as int, to as int)),
        forall|k: int| 0 <= k < r@.len() ==> #[trigger] r@[k] <= 65535,
{
    let ghost all = sgr_numbers(s@.subrange(from as int, to as int));
    let mut out: Vec<u32> = Vec::new();
    let mut pos: usize = from;
    assert(nats(out@) + sgr_numbers(s@.subrange(from as int, to as int)) =~= all);
    loop
        invariant_except_break
            nats(out@) + sgr_numbers(s@.subrange(pos as int, to as int)) == all,
        invariant
            from <= pos <= to <= s@.len(),
            forall|k: int| 0 <= k < out@.len() ==> #[trigger] out@[k] <= 65535,
        ensures
            nats(out@) == all,
        decreases to - pos,
    {
        let ghost t = s@.subrange(pos as int, to as int);
        let ghost before = nats(out@);
        let mut end: usize = pos;
        while end < to && s[end] != ';'
            invariant
                pos <= end <= to <= s@.len(),
                semicolon(s@.subrange(pos as int, to as int)) == (end - pos) + semicolon(
                    s@.subrange(end as int, to as int),
                ),
            decreases to - end,
        {
            assert(s@.subrange(end as int, to as int).skip(1) =~= s@.subrange(end + 1, to as int));
            end += 1;
        }
        let value: u32 = parse_sgr_number(s, pos, end);
        assert(s@.subrange(pos as int, end as int) =~= t.take(end - pos));
        out.push(value);
        assert(nats(out@) =~= before.push(value as nat));
        if end >= to {
            assert(t.take(end - pos) =~= t);
            assert(before.push(value as nat) =~= before + seq![sgr_number(t)]);
            break;
        }
        assert(t.skip(end - pos + 1) =~= s@.subrange(end + 1, to as int));
        assert(before.push(value as nat) + sgr_numbers(s@.subrange(end + 1, to as int)) =~= before
            + (seq![value as nat] + sgr_numbers(s@.subrange(end + 1, to as int))));
        pos = end + 1;
    }
    out
}

fn make_sequence(v: &Vec<u32>, from: usize, to: usize) -> (r: String)
    requires
        from < to <= v@.len(),
    ensures
        r@ == sgr_sequence(nats(v@).subrange(from as int, to as int)),
{
    let ghost m = nats(v@);
    let mut out = String::new();
    out.append("\u{1b}[");
    push_decimal(&mut out, v[from] as u64);
    let mut i: usize = from + 1;
    proof {
        let one = m.subrange(from as int, from + 1);
        assert(one =~= seq![m[from as int]]);
        assert(out@ =~= "\u{1b}["@ + joined_numbers(one));
    }
    while i < to
        invariant
            from < i <= to <= v@.len(),
            m == nats(v@),
            out@ == "\u{1b}["@ + joined_numbers(m.subrange(from as int, i as int)),
        decreases to - i,
    {
        out.append(";");
        push_decimal(&mut out, v[i] as u64);
        proof {
            let now = m.subrange(from as int, i + 1);
            assert(now.drop_last() =~= m.subrange(from as int, i as int));
            assert(now.last() == v@[i as int] as nat);
            assert(out@ =~= "\u{1b}["@ + joined_numbers(now));
        }
        i += 1;
    }
    out.append("m");
    out
}

impl SgrState {
    /// Take a sequence into account.
    pub fn apply(&mut self, e: &Vec<char>)
        ensures
            final(self)@ == styled(old(self)@, e@),
    {
        let len: usize = e.len();
        if len < 3 || e[0] != '\u{1b}' || e[1] != '[' || e[len - 1] != 'm' {
            return;
        }
        let parts = parse_sgr_numbers(e.as_slice(), 2, len - 1);
        let ghost v = nats(parts@);
        let mut i: usize = 0;
        while i < parts.len()
            invariant
                v == nats(parts@),
                v == sgr_numbers(e@.subrange(2, e@.len() - 1)),
                forall|k: int| 0 <= k < parts@.len() ==> #[trigger] parts@[k] <= 65535,
                i <= parts@.len(),
                sets_style(e@),
                style_steps(self@, v, i as int) == styled(old(self)@, e@),
            decreases parts@.len() - i,
        {
            let n: u32 = parts[i];
            assert(v[i as int] == n as nat);
            let ghost before = self@;
            let mut used: usize = 1;
            if n == 0 {
                self.fg = String::new();
                self.bg = String::new();
                self.attrs = [false; 10];
                assert(self@.fg =~= plain_style().fg);
                assert(self@.bg =~= plain_style().bg);
                assert(self@.attrs =~= plain_style().attrs);
            } else if 1 <= n && n <= 9 {
                self.attrs[n as usize] = true;
            } else if n == 22 {
                self.attrs[1] = false;
                self.attrs[2] = false;
            } else if 23 <= n && n <= 29 {
                self.attrs[(n - 20) as usize] = false;
            } else if (30 <= n && n <= 37) || (90 <= n && n <= 97) {
                self.fg = make_sequence(&parts, i, i + 1);
                assert(v.subrange(i as int, i + 1) =~= seq![n as nat]);
            } else if (40 <= n && n <= 47) || (100 <= n && n <= 107) {
                self.bg = make_sequence(&parts, i, i + 1);
                assert(v.subrange(i as int, i + 1) =~= seq![n as nat]);
            } else if n == 39 {
                self.fg = String::new();
                assert(self@.fg =~= Seq::<char>::empty());
            } else if n == 49 {
                self.bg = String::new();
                assert(self@.bg =~= Seq::<char>::empty());
            } else if n == 38 || n == 48 {
                let left: usize = parts.len() - i;
                let count: usize = if left > 1 && parts[i + 1] == 2 {
                    5
                } else if left > 1 && parts[i + 1] == 5 {
                    3
                } else {
                    1
                };
                assert(left > 1 ==> v[i + 1] == parts@[i + 1] as nat);
                assert(count == color_params(v, i as int));
                if count <= left {
                    let code = make_sequence(&parts, i, i + count);
                    if n == 38 {
                        self.fg = code;
                    } else {
                        self.bg = code;
                    }
                    used = count;
                }
            }
            assert(self@ == style_step(before, v, i as int).0);
            assert(used == style_step(before, v, i as int).1);
            i = i + used;
        }
    }

    /// The sequences that bring the styling into force.
    pub fn code(&self) -> (r: String)
        ensures
            r@ == style_code(self@),
    {
        let mut out = String::new();
        let mut i: usize = 0;
        assert(out@ =~= attr_codes(self@.attrs, 0));
        while i < 10
            invariant
                i <= 10,
                out@ == attr_codes(self@.attrs, i as int),
            decreases 10 - i,
        {
            if self.attrs[i] {
                let ghost before = out@;
                out.append("\u{1b}[");
                push_decimal(&mut out, i as u64);
                out.append("m");
                assert(out@ =~= before + sgr_sequence(seq![i as nat]));
            }
            i += 1;
            assert(out@ =~= attr_codes(self@.attrs, i as int));
        }
        out.append(self.fg.as_str());
        out.append(self.bg.as_str());
        out
    }
}

// ---------------------------------------------------------------------------
// Where rows break
// ---------------------------------------------------------------------------

/// A character after which code may break.
pub open spec fn delimiter(c: char) -> bool {
    c == ',' || c == ';' || c == ':' || c == '=' || c == ')' || c == ']' || c == '}' || c == '{'
}

/// What a scan along a row knows: how much it has seen, and the best place to
/// break so far, as the end of this row and the start of the next.
pub ghost struct Scan {
    pub visible: nat,
    pub seen_nonspace: bool,
    pub previous_space: bool,
    pub breakpoint: Option<(int, int)>,
}

pub open spec fn fresh_scan() -> Scan {
    Scan { visible: 0, seen_nonspace: false, previous_space: false, breakpoint: None }
}

/// What the scan knows after the character at the index `i`.
pub open spec fn scanned(k: Scan, c: char, i: int) -> Scan {
    let visible = k.visible + cell_width(c);
    if c == ' ' {
        Scan {
            visible,
            previous_space: true,
            breakpoint: if k.seen_nonspace {
                Some(
                    (
                        match k.breakpoint {
                            Some((end, _)) => if k.previous_space {
                                end
                            } else {
                                i
                            },
                            None => i,
                        },
                        i + 1,
                    ),
                )
            } else {
                k.breakpoint
            },
            ..k
        }
    } else {
        Scan {
            visible,
            seen_nonspace: true,
            previous_space: false,
            breakpoint: if delimiter(c) {
                Some((i + 1, i + 1))
            } else {
                k.breakpoint
            },
        }
    }
}

/// Where a row that starts at `start` ends, and where the next one starts,
/// from the index `i` on.  Spaces between the two are dropped.
pub open spec fn row_break(ps: Seq<Piece>, start: int, limit: nat, i: int, k: Scan) -> (int, int)
    decreases ps.len() - i,
{
    if i < 0 || i >= ps.len() {
        (i, i)
    } else {
        match ps[i] {
            Piece::Escape(_) => row_break(ps, start, limit, i + 1, k),
            Piece::Character(c) => if k.visible > 0 && k.visible + cell_width(c) > limit {
                match k.breakpoint {
                    Some((end, next)) => if end > start {
                        (end, next)
                    } else {
                        (i, i)
                    },
                    None => (i, i),
                }
            } else {
                row_break(ps, start, limit, i + 1, scanned(k, c, i))
            },
        }
    }
}

/// Where the row that starts at `start` breaks.
pub open spec fn break_at(ps: Seq<Piece>, start: int, limit: nat) -> (int, int) {
    row_break(ps, start, limit, start, fresh_scan())
}

/// At least one.
pub open spec fn at_least_one(n: nat) -> nat {
    if n == 0 {
        1
    } else {
        n
    }
}

/// The rows from the piece `start` on, each with the styling that is in force
/// where it starts.
pub open spec fn rows_from(
    ps: Seq<Piece>,
    start: int,
    style: SgrModel,
    limit: nat,
    continuation: nat,
) -> Seq<Seq<char>>
    decreases ps.len() - start,
{
    let (end, next) = break_at(ps, start, limit);
    if start < 0 || start >= ps.len() || next <= start || next > ps.len() {
        seq![]
    } else {
        seq![style_code(style) + flatten(ps.subrange(start, end))] + rows_from(
            ps,
            next,
            styled_by(style, ps.subrange(start, next)),
            continuation,
            continuation,
        )
    }
}

/// Clean pieces wrapped into rows; nothing is one empty row.
pub open spec fn wrapped_pieces(ps: Seq<Piece>, first: nat, continuation: nat) -> Seq<Seq<char>> {
    let rows = rows_from(
        ps,
        0,
        plain_style(),
        at_least_one(first),
        at_least_one(continuation),
    );
    if rows.len() == 0 {
        seq![seq![]]
    } else {
        rows
    }
}

/// A text wrapped into rows.
pub open spec fn wrapped(s: Seq<char>, first: nat, continuation: nat) -> Seq<Seq<char>> {
    wrapped_pieces(kept_pieces(pieces(s), true), first, continuation)
}

/// Where the characters before the index `i` are counted.
pub open spec fn visible_before(ps: Seq<Piece>, i: int) -> int
    decreases i,
{
    if i <= 0 {
        0
    } else {
        visible_before(ps, i - 1) + if ps[i - 1] is Character {
            1int
        } else {
            0
        }
    }
}

/// What a scan that starts at `start` may know at the index `i`.
pub open spec fn scan_fits(ps: Seq<Piece>, start: int, i: int, k: Scan) -> bool {
    &&& start <= i
    &&& k.visible > 0 ==> start < i
    &&& k.seen_nonspace ==> visible_before(ps, i) > visible_before(ps, start)
    &&& k.breakpoint matches Some((end, next)) ==> {
        &&& start < end <= next <= i
        &&& visible_before(ps, end) > visible_before(ps, start)
        &&& forall|j: int|
            end <= j < next && (#[trigger] ps[j]) is Character ==> ps[j] == Piece::Character(' ')
        &&& k.previous_space ==> forall|j: int|
            next <= j < i ==> (#[trigger] ps[j]) is Escape
    }
    &&& k.previous_space && k.seen_nonspace ==> k.breakpoint is Some
    &&& k.breakpoint is Some ==> k.seen_nonspace
}

pub proof fn lemma_visible_monotone(ps: Seq<Piece>, i: int, j: int)
    requires
        0 <= i <= j,
    ensures
        0 <= visible_before(ps, i) <= visible_before(ps, j),
    decreases j,
{
    if i < j {
        lemma_visible_monotone(ps, i, j - 1);
    } else if j > 0 {
        lemma_visible_monotone(ps, i - 1, j - 1);
    }
}

proof fn lemma_scan_step(ps: Seq<Piece>, start: int, i: int, k: Scan)
    requires
        0 <= start,
        0 <= i < ps.len(),
        scan_fits(ps, start, i, k),
    ensures
        match ps[i] {
            Piece::Escape(_) => scan_fits(ps, start, i + 1, k),
            Piece::Character(c) => scan_fits(ps, start, i + 1, scanned(k, c, i)),
        },
{
    lemma_visible_monotone(ps, start, i);
    assert(visible_before(ps, i + 1) == visible_before(ps, i) + if ps[i] is Character {
        1int
    } else {
        0
    });
    if let Piece::Character(c) = ps[i] {
        let n = scanned(k, c, i);
        if n.breakpoint is Some {
            let (end, next) = n.breakpoint->0;
            lemma_visible_monotone(ps, start, end);
            assert forall|j: int| end <= j < next && (#[trigger] ps[j]) is Character implies ps[j]
                == Piece::Character(' ') by {
                if c == ' ' && k.seen_nonspace && j < i {
                    // The spaces before this one end at the breakpoint that is
                    // extended; only escapes can stand between.
                    let (e0, n0) = k.breakpoint->0;
                    if j >= n0 {
                        assert(ps[j] is Escape);
                    }
                }
            }
        }
    }
}

/// A break lies after the start of its row, and only spaces and escapes are
/// dropped at it.
proof fn lemma_break(ps: Seq<Piece>, start: int, limit: nat, i: int, k: Scan)
    requires
        0 <= start < ps.len(),
        i <= ps.len(),
        scan_fits(ps, start, i, k),
        i == start ==> k == fresh_scan(),
    ensures
        ({
            let (end, next) = row_break(ps, start, limit, i, k);
            &&& start < end <= next <= ps.len()
            &&& forall|j: int|
                end <= j < next && (#[trigger] ps[j]) is Character ==> ps[j] == Piece::Character(
                    ' ',
                )
            &&& next < ps.len() ==> exists|j: int|
                next <= j < ps.len() && (#[trigger] ps[j]) is Character
        }),
    decreases ps.len() - i,
{
    if i < ps.len() {
        lemma_scan_step(ps, start, i, k);
        match ps[i] {
            Piece::Escape(_) => {
                lemma_break(ps, start, limit, i + 1, k);
            },
            Piece::Character(c) => {
                if !(k.visible > 0 && k.visible + cell_width(c) > limit) {
                    lemma_break(ps, start, limit, i + 1, scanned(k, c, i));
                } else {
                    assert(ps[i] is Character);
                }
            },
        }
    }
}

/// What `lemma_break` says of the break of a row.
pub proof fn lemma_break_at(ps: Seq<Piece>, start: int, limit: nat)
    requires
        0 <= start < ps.len(),
    ensures
        ({
            let (end, next) = break_at(ps, start, limit);
            &&& start < end <= next <= ps.len()
            &&& forall|j: int|
                end <= j < next && (#[trigger] ps[j]) is Character ==> ps[j] == Piece::Character(
                    ' ',
                )
            &&& next < ps.len() ==> exists|j: int|
                next <= j < ps.len() && (#[trigger] ps[j]) is Character
        }),
{
    lemma_break(ps, start, limit, start, fresh_scan());
}

// ---------------------------------------------------------------------------
// Styling does not move breaks
// ---------------------------------------------------------------------------

/// The pieces that are characters.
pub open spec fn characters(ps: Seq<Piece>) -> Seq<Piece>
    decreases ps.len(),
{
    if ps.len() == 0 {
        seq![]
    } else if ps.last() is Character {
        characters(ps.drop_last()).push(ps.last())
    } else {
        characters(ps.drop_last())
    }
}

pub proof fn lemma_characters(ps: Seq<Piece>, i: int)
    requires
        0 <= i <= ps.len(),
    ensures
        characters(ps).len() == visible_before(ps, ps.len() as int),
        i < ps.len() && ps[i] is Character ==> visible_before(ps, i) < characters(ps).len()
            && characters(ps)[visible_before(ps, i)] == ps[i],
    decreases ps.len(),
{
    if ps.len() > 0 {
        let t = ps.drop_last();
        let n = ps.len() - 1;
        lemma_visible_prefix(t, ps, n);
        assert(visible_before(ps, n + 1) == visible_before(ps, n) + if ps[n] is Character {
            1int
        } else {
            0
        });
        assert(ps.last() == ps[n]);
        lemma_characters(t, n);
        if i < n {
            lemma_characters(t, i);
            lemma_visible_prefix(t, ps, i);
            lemma_visible_monotone(ps, 0, i);
            assert(t[i] == ps[i]);
        }
    }
}

pub proof fn lemma_visible_prefix(a: Seq<Piece>, b: Seq<Piece>, i: int)
    requires
        i <= a.len(),
        i <= b.len(),
        forall|k: int| 0 <= k < i ==> a[k] == b[k],
    ensures
        visible_before(a, i) == visible_before(b, i),
    decreases i,
{
    if i > 0 {
        lemma_visible_prefix(a, b, i - 1);
    }
}

/// A scan with its places counted in characters.
pub open spec fn counted_scan(ps: Seq<Piece>, k: Scan) -> Scan {
    Scan {
        breakpoint: match k.breakpoint {
            Some((end, next)) => Some((visible_before(ps, end), visible_before(ps, next))),
            None => None,
        },
        ..k
    }
}

pub proof fn lemma_break_counted(ps: Seq<Piece>, start: int, limit: nat, i: int, k: Scan)
    requires
        0 <= start < ps.len(),
        i <= ps.len(),
        scan_fits(ps, start, i, k),
    ensures
        ({
            let (end, next) = row_break(ps, start, limit, i, k);
            row_break(
                characters(ps),
                visible_before(ps, start),
                limit,
                visible_before(ps, i),
                counted_scan(ps, k),
            ) == (visible_before(ps, end), visible_before(ps, next))
        }),
    decreases ps.len() - i,
{
    let vs = characters(ps);
    lemma_visible_monotone(ps, 0, i);
    lemma_characters(ps, i);
    if i < ps.len() {
        lemma_scan_step(ps, start, i, k);
        match ps[i] {
            Piece::Escape(_) => {
                lemma_break_counted(ps, start, limit, i + 1, k);
            },
            Piece::Character(c) => {
                let v = visible_before(ps, i);
                assert(vs[v] == ps[i]);
                assert(visible_before(ps, i + 1) == v + 1);
                if !(k.visible > 0 && k.visible + cell_width(c) > limit) {
                    lemma_break_counted(ps, start, limit, i + 1, scanned(k, c, i));
                    assert(counted_scan(ps, scanned(k, c, i)) == scanned(
                        counted_scan(ps, k),
                        c,
                        v,
                    ));
                }
            },
        }
    }
}

proof fn lemma_rows_counted(
    ps: Seq<Piece>,
    start: int,
    a: SgrModel,
    b: SgrModel,
    limit: nat,
    continuation: nat,
)
    requires
        0 <= start <= ps.len(),
        start < ps.len() ==> exists|j: int|
            start <= j < ps.len() && (#[trigger] ps[j]) is Character,
    ensures
        rows_from(ps, start, a, limit, continuation).len() == rows_from(
            characters(ps),
            visible_before(ps, start),
            b,
            limit,
            continuation,
        ).len(),
    decreases ps.len() - start,
{
    let vs = characters(ps);
    lemma_characters(ps, ps.len() as int);
    if start < ps.len() {
        let j = choose|j: int| start <= j < ps.len() && (#[trigger] ps[j]) is Character;
        lemma_visible_monotone(ps, start, j);
        lemma_visible_monotone(ps, 0, start);
        lemma_visible_monotone(ps, j + 1, ps.len() as int);
        assert(visible_before(ps, j + 1) == visible_before(ps, j) + 1);
        let (end, next) = break_at(ps, start, limit);
        lemma_break_at(ps, start, limit);
        lemma_break_counted(ps, start, limit, start, fresh_scan());
        let vstart = visible_before(ps, start);
        assert(counted_scan(ps, fresh_scan()) == fresh_scan());
        assert(break_at(vs, vstart, limit) == (visible_before(ps, end), visible_before(ps, next)));
        lemma_break_at(vs, vstart, limit);
        let sa = styled_by(a, ps.subrange(start, next));
        let sb = styled_by(b, vs.subrange(vstart, visible_before(ps, next)));
        lemma_rows_counted(ps, next, sa, sb, continuation, continuation);
        let rest_a = rows_from(ps, next, sa, continuation, continuation);
        let rest_b = rows_from(vs, visible_before(ps, next), sb, continuation, continuation);
        assert(rows_from(ps, start, a, limit, continuation) == seq![
            style_code(a) + flatten(ps.subrange(start, end)),
        ] + rest_a);
        assert(rows_from(vs, vstart, b, limit, continuation) == seq![
            style_code(b) + flatten(vs.subrange(vstart, visible_before(ps, end))),
        ] + rest_b);
    }
}

/// Styling has no part in where rows break: a styled text takes as many rows
/// as its characters alone.
pub proof fn law_styling_keeps_rows(ps: Seq<Piece>, first: nat, continuation: nat)
    ensures
        wrapped_pieces(ps, first, continuation).len() == wrapped_pieces(
            characters(ps),
            first,
            continuation,
        ).len(),
{
    lemma_characters(ps, ps.len() as int);
    let a = at_least_one(first);
    let b = at_least_one(continuation);
    if exists|j: int| 0 <= j < ps.len() && (#[trigger] ps[j]) is Character {
        lemma_rows_counted(ps, 0, plain_style(), plain_style(), a, b);
    } else {
        assert(characters(ps) =~= Seq::<Piece>::empty()) by {
            lemma_no_characters(ps);
        }
        if ps.len() > 0 {
            lemma_break_at(ps, 0, a);
            let (end, next) = break_at(ps, 0, a);
            assert(next == ps.len());
            let rest = rows_from(
                ps,
                next,
                styled_by(plain_style(), ps.subrange(0, next)),
                b,
                b,
            );
            assert(rest.len() == 0);
        }
    }
}

pub proof fn lemma_no_characters(ps: Seq<Piece>)
    requires
        forall|j: int| 0 <= j < ps.len() ==> !((#[trigger] ps[j]) is Character),
    ensures
        characters(ps).len() == 0,
    decreases ps.len(),
{
    if ps.len() > 0 {
        let t = ps.drop_last();
        assert forall|j: int| 0 <= j < t.len() implies !((#[trigger] t[j]) is Character) by {
            assert(t[j] == ps[j]);
        }
        lemma_no_characters(t);
        assert(!(ps[ps.len() - 1] is Character));
    }
}

/// The characters of clean pieces are what is kept of them without styling.
pub proof fn lemma_characters_kept(ps: Seq<Piece>)
    requires
        all_clean(ps),
    ensures
        characters(ps) == kept_pieces(ps, false),
    decreases ps.len(),
{
    if ps.len() > 0 {
        let t = ps.drop_last();
        assert forall|k: int| 0 <= k < t.len() implies clean_piece(#[trigger] t[k]) by {
            assert(t[k] == ps[k]);
            assert(clean_piece(ps[k]));
        }
        lemma_characters_kept(t);
        assert(clean_piece(ps[ps.len() - 1]));
        lemma_kept_add(t, seq![ps.last()], false);
        assert(ps =~= t + seq![ps.last()]);
        lemma_kept_one(ps.last(), false);
        assert(characters(ps) =~= kept_pieces(ps, false));
    }
}

/// What is kept of pieces one after the other.
pub proof fn lemma_kept_add(a: Seq<Piece>, b: Seq<Piece>, keep: bool)
    ensures
        kept_pieces(a + b, keep) == kept_pieces(a, keep) + kept_pieces(b, keep),
    decreases a.len(),
{
    if a.len() == 0 {
        assert(a + b =~= b);
        assert(kept_pieces(a, keep) + kept_pieces(b, keep) =~= kept_pieces(b, keep));
    } else {
        assert((a + b).skip(1) =~= a.skip(1) + b);
        lemma_kept_add(a.skip(1), b, keep);
        assert(kept_pieces(a + b, keep) =~= kept_pieces(a, keep) + kept_pieces(b, keep));
    }
}

pub proof fn lemma_kept_one(p: Piece, keep: bool)
    ensures
        kept_pieces(seq![p], keep) == crate::tui_text::kept(p, keep),
{
    assert(seq![p].skip(1) =~= Seq::<Piece>::empty());
    assert(kept_pieces(seq![p].skip(1), keep) =~= Seq::<Piece>::empty());
    assert(kept_pieces(seq![p], keep) =~= crate::tui_text::kept(p, keep));
}

// ---------------------------------------------------------------------------
// Wrapping
// ---------------------------------------------------------------------------

/// The place where the row that starts at `start` breaks.
fn find_break(v: &Vec<Unit>, start: usize, limit: usize, bound: usize) -> (r: (usize, usize))
    requires
        start < v@.len(),
        pieces_width(unit_models(v@)) <= bound,
    ensures
        (r.0 as int, r.1 as int) == break_at(unit_models(v@), start as int, limit as nat),
        start < r.0 <= r.1 <= v@.len(),
{
    let ghost ps = unit_models(v@);
    let mut i: usize = start;
    let mut visible: usize = 0;
    let mut seen_nonspace: bool = false;
    let mut previous_space: bool = false;
    let mut breakpoint: Option<(usize, usize)> = None;
    let ghost mut k = fresh_scan();
    proof {
        lemma_break_at(ps, start as int, limit as nat);
        lemma_width_range(ps, start as int, start as int);
    }
    while i < v.len()
        invariant
            ps == unit_models(v@),
            start < v@.len(),
            start <= i <= v@.len(),
            pieces_width(ps) <= bound,
            visible == pieces_width(ps.subrange(start as int, i as int)),
            k == (Scan {
                visible: visible as nat,
                seen_nonspace,
                previous_space,
                breakpoint: match breakpoint {
                    Some((e, n)) => Some((e as int, n as int)),
                    None => None,
                },
            }),
            row_break(ps, start as int, limit as nat, i as int, k) == break_at(
                ps,
                start as int,
                limit as nat,
            ),
            ({
                let (end, next) = break_at(ps, start as int, limit as nat);
                start < end <= next <= ps.len()
            }),
        decreases v@.len() - i,
    {
        assert(ps[i as int] == v@[i as int]@);
        let ghost before = ps.subrange(start as int, i as int);
        proof {
            lemma_width_range(ps, start as int, i + 1);
            assert(ps.subrange(start as int, i + 1) =~= before + seq![ps[i as int]]);
            lemma_width_add(before, seq![ps[i as int]]);
            lemma_width_one(ps[i as int]);
        }
        match &v[i] {
            Unit::Escape(_) => {
                i += 1;
            },
            Unit::Character(ch) => {
                let c: char = *ch;
                let width: usize = char_cells(c);
                if visible > 0 && visible + width > limit {
                    return match breakpoint {
                        Some((end, next)) => if end > start {
                            (end, next)
                        } else {
                            (i, i)
                        },
                        None => (i, i),
                    };
                }
                visible = visible + width;
                if c == ' ' {
                    if seen_nonspace {
                        let end: usize = match breakpoint {
                            Some((end, _)) => if previous_space {
                                end
                            } else {
                                i
                            },
                            None => i,
                        };
                        breakpoint = Some((end, i + 1));
                    }
                    previous_space = true;
                } else {
                    seen_nonspace = true;
                    previous_space = false;
                    if c == ',' || c == ';' || c == ':' || c == '=' || c == ')' || c == ']' || c
                        == '}' || c == '{' {
                        breakpoint = Some((i + 1, i + 1));
                    }
                }
                proof {
                    k = scanned(k, c, i as int);
                }
                i += 1;
            },
        }
    }
    (i, i)
}

proof fn lemma_width_range(ps: Seq<Piece>, from: int, to: int)
    requires
        0 <= from <= to <= ps.len(),
    ensures
        pieces_width(ps.subrange(from, to)) <= pieces_width(ps),
{
    let a = ps.subrange(0, from);
    let b = ps.subrange(from, to);
    let c = ps.subrange(to, ps.len() as int);
    assert(ps =~= (a + b) + c);
    lemma_width_add(a + b, c);
    lemma_width_add(a, b);
}

/// Wrap a text: rows break after a space or a delimiter where there is one,
/// and each row carries the styling that is in force where it starts.
pub fn wrap_ansi(text: &str, first_width: usize, continuation_width: usize) -> (r: Vec<String>)
    ensures
        texts(r@) == wrapped(text@, first_width as nat, continuation_width as nat),
        r@.len() > 0,
{
    let clean = sanitize(text);
    let v = units(clean.as_str());
    let ghost ps = unit_models(v@);
    proof {
        lemma_kept_clean(pieces(text@), true);
        lemma_reparse(kept_pieces(pieces(text@), true));
        assert(ps == kept_pieces(pieces(text@), true));
    }
    let bound: usize = crate::tui_text::display_width(clean.as_str());
    let first: usize = if first_width == 0 {
        1
    } else {
        first_width
    };
    let continuation: usize = if continuation_width == 0 {
        1
    } else {
        continuation_width
    };
    let mut rows: Vec<String> = Vec::new();
    let mut style = SgrState::default();
    let mut start: usize = 0;
    let ghost whole = rows_from(ps, 0, plain_style(), first as nat, continuation as nat);
    assert(texts(rows@) + rows_from(ps, 0, style@, first as nat, continuation as nat) =~= whole);
    while start < v.len()
        invariant
            ps == unit_models(v@),
            all_clean(ps),
            pieces_width(ps) <= bound,
            start <= v@.len(),
            texts(rows@) + rows_from(
                ps,
                start as int,
                style@,
                if rows@.len() == 0 {
                    first as nat
                } else {
                    continuation as nat
                },
                continuation as nat,
            ) == whole,
        decreases v@.len() - start,
    {
        let limit: usize = if rows.len() == 0 {
            first
        } else {
            continuation
        };
        let (end, next) = find_break(&v, start, limit, bound);
        let ghost before = texts(rows@);
        let ghost style0 = style@;
        let mut rendered = style.code();
        push_units(&mut rendered, &v, start, end);
        let ghost row = rendered@;
        rows.push(rendered);
        assert(texts(rows@) =~= before.push(row));
        let mut i: usize = start;
        assert(ps.subrange(start as int, start as int) =~= Seq::<Piece>::empty());
        while i < next
            invariant
                ps == unit_models(v@),
                all_clean(ps),
                start <= i <= next <= v@.len(),
                    style@ == styled_by(style0, ps.subrange(start as int, i as int)),
            decreases next - i,
        {
            assert(ps[i as int] == v@[i as int]@);
            assert(clean_piece(ps[i as int]));
            assert(ps.subrange(start as int, i + 1).drop_last() =~= ps.subrange(
                start as int,
                i as int,
            ));
            assert(ps.subrange(start as int, i + 1).last() == ps[i as int]);
            match &v[i] {
                Unit::Escape(e) => {
                    style.apply(e);
                },
                Unit::Character(_) => {},
            }
            i += 1;
        }
        proof {
            let rest = rows_from(
                ps,
                next as int,
                style@,
                continuation as nat,
                continuation as nat,
            );
            assert(rows_from(ps, start as int, style0, limit as nat, continuation as nat) == seq![
                row,
            ] + rest);
            assert(before.push(row) + rest =~= before + (seq![row] + rest));
        }
        start = next;
    }
    assert(texts(rows@) =~= whole);
    if rows.len() == 0 {
        rows.push(String::new());
        assert(rows@[0]@ =~= Seq::<char>::empty());
        assert(texts(rows@) =~= seq![Seq::<char>::empty()]);
    }
    rows
}

} // verus!

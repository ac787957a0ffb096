//! Token-level comparison of two lines: which byte ranges of either line are
//! worth highlighting.
use vstd::prelude::*;
use crate::util::{
    byte_len, byte_pos, chars_of, checked_byte_len, lemma_byte_pos_monotone, same_text, utf8_width,
};

verus! {

/// A byte range of a line.
#[derive(Clone, Copy, Debug, PartialEq, Eq, Structural)]
pub struct Range {
    pub start: usize,
    pub end: usize,
}

/// The changed ranges of an old and a new line.
#[derive(Clone, Debug, PartialEq, Eq)]
pub struct PairRanges {
    pub old: Vec<Range>,
    pub new: Vec<Range>,
}

impl Default for PairRanges {
    fn default() -> (r: PairRanges)
        ensures
            r.old@.len() == 0,
            r.new@.len() == 0,
    {
        PairRanges { old: Vec::new(), new: Vec::new() }
    }
}

#[derive(Clone, Copy, Debug, PartialEq, Eq, Structural)]
pub enum TokenKind {
    Whitespace,
    Word,
    Punct,
}

/// Lines with more tokens are compared by their common ends only.
pub const MAX_LCS_TOKENS: usize = 240;

/// So are pairs of lines with a larger product of token counts.
pub const MAX_LCS_CELLS: usize = 24_000;

// ---------------------------------------------------------------------------
// Tokens
// ---------------------------------------------------------------------------

pub open spec fn kind_of(c: char) -> TokenKind {
    if c == ' ' || c == '\t' || c == '\r' || c == '\n' {
        TokenKind::Whitespace
    } else if 'a' <= c <= 'z' || 'A' <= c <= 'Z' || '0' <= c <= '9' || c == '_' {
        TokenKind::Word
    } else {
        TokenKind::Punct
    }
}

/// A token, by the indices of its first character and of the one after it.
pub ghost struct TokenModel {
    pub from: int,
    pub to: int,
    pub kind: TokenKind,
}

/// Where the characters of one kind that start at `i` end.
pub open spec fn run_end(s: Seq<char>, i: int, kind: TokenKind) -> int
    decreases s.len() - i,
{
    if 0 <= i < s.len() && kind_of(s[i]) == kind {
        run_end(s, i + 1, kind)
    } else {
        i
    }
}

/// Where the token that starts at `i` ends: punctuation stands alone, other
/// characters join those of their kind.
pub open spec fn token_end(s: Seq<char>, i: int) -> int {
    if kind_of(s[i]) == TokenKind::Punct {
        i + 1
    } else {
        run_end(s, i + 1, kind_of(s[i]))
    }
}

/// The tokens of a line from the character `i` on.
pub open spec fn tokens_from(s: Seq<char>, i: int) -> Seq<TokenModel>
    decreases s.len() - i,
{
    if i < 0 || i >= s.len() || token_end(s, i) <= i || token_end(s, i) > s.len() {
        seq![]
    } else {
        seq![TokenModel { from: i, to: token_end(s, i), kind: kind_of(s[i]) }] + tokens_from(
            s,
            token_end(s, i),
        )
    }
}

/// The tokens of a line.
pub open spec fn tokens(s: Seq<char>) -> Seq<TokenModel> {
    tokens_from(s, 0)
}

pub proof fn lemma_run_end(s: Seq<char>, i: int, kind: TokenKind)
    requires
        0 <= i <= s.len(),
    ensures
        i <= run_end(s, i, kind) <= s.len(),
    decreases s.len() - i,
{
    if i < s.len() && kind_of(s[i]) == kind {
        lemma_run_end(s, i + 1, kind);
    }
}

/// Tokens that cover a line from `i` on, one after the other.
pub open spec fn cover_from(s: Seq<char>, t: Seq<TokenModel>, i: int) -> bool {
    &&& t.len() == 0 ==> i == s.len()
    &&& t.len() > 0 ==> t[0].from == i && t.last().to == s.len()
    &&& forall|k: int| 0 <= k < t.len() ==> 0 <= (#[trigger] t[k]).from < t[k].to <= s.len()
    &&& forall|k: int, l: int|
        0 <= k < l < t.len() ==> (#[trigger] t[k]).to <= (#[trigger] t[l]).from && (l == k + 1
            ==> t[k].to == t[l].from)
}

proof fn lemma_tokens_cover(s: Seq<char>, i: int)
    requires
        0 <= i <= s.len(),
    ensures
        cover_from(s, tokens_from(s, i), i),
        tokens_from(s, i).len() <= s.len() - i,
    decreases s.len() - i,
{
    if i < s.len() {
        lemma_run_end(s, i + 1, kind_of(s[i]));
        let e = token_end(s, i);
        lemma_tokens_cover(s, e);
        let rest = tokens_from(s, e);
        let t = tokens_from(s, i);
        assert forall|k: int, l: int| 0 <= k < l < t.len() implies (#[trigger] t[k]).to <= (
        #[trigger] t[l]).from && (l == k + 1 ==> t[k].to == t[l].from) by {
            assert(t[l] == rest[l - 1]);
            if k > 0 {
                assert(t[k] == rest[k - 1]);
            } else if l > 1 {
                assert(rest[0].to <= rest[l - 1].from);
            }
        }
        assert forall|k: int| 0 <= k < t.len() implies 0 <= (#[trigger] t[k]).from < t[k].to
            <= s.len() by {
            if k > 0 {
                assert(t[k] == rest[k - 1]);
            }
        }
        if rest.len() > 0 {
            assert(t.last() == rest.last());
        }
    }
}

/// The tokens of a line cover it without gap or overlap.
pub proof fn law_tokens_cover(s: Seq<char>)
    ensures
        cover_from(s, tokens(s), 0),
{
    lemma_tokens_cover(s, 0);
}

/// The text of each token.
pub open spec fn words(s: Seq<char>, t: Seq<TokenModel>) -> Seq<Seq<char>> {
    Seq::new(t.len(), |k: int| s.subrange(t[k].from, t[k].to))
}

// ---------------------------------------------------------------------------
// Longest common subsequences
// ---------------------------------------------------------------------------

/// The length of a longest common subsequence of `a` from `i` on and `b` from
/// `j` on.
pub open spec fn lcs(a: Seq<Seq<char>>, b: Seq<Seq<char>>, i: int, j: int) -> nat
    decreases a.len() - i + b.len() - j,
{
    if i < 0 || j < 0 || i >= a.len() || j >= b.len() {
        0
    } else if a[i] == b[j] {
        1 + lcs(a, b, i + 1, j + 1)
    } else {
        let down = lcs(a, b, i + 1, j);
        let right = lcs(a, b, i, j + 1);
        if down >= right {
            down
        } else {
            right
        }
    }
}

/// The pairs of matched tokens: equal tokens match, and where a token has to
/// go, one of the old line goes first.
pub open spec fn matches(a: Seq<Seq<char>>, b: Seq<Seq<char>>, i: int, j: int) -> Seq<(int, int)>
    decreases a.len() - i + b.len() - j,
{
    if i < 0 || j < 0 || i >= a.len() || j >= b.len() {
        seq![]
    } else if a[i] == b[j] {
        seq![(i, j)] + matches(a, b, i + 1, j + 1)
    } else if lcs(a, b, i + 1, j) >= lcs(a, b, i, j + 1) {
        matches(a, b, i + 1, j)
    } else {
        matches(a, b, i, j + 1)
    }
}

/// Pairs of equal tokens, in order on both sides, from `i` and `j` on.
pub open spec fn common(
    a: Seq<Seq<char>>,
    b: Seq<Seq<char>>,
    p: Seq<(int, int)>,
    i: int,
    j: int,
) -> bool {
    &&& forall|k: int|
        0 <= k < p.len() ==> i <= (#[trigger] p[k]).0 < a.len() && j <= p[k].1 < b.len()
            && a[p[k].0] == b[p[k].1]
    &&& forall|k: int, l: int|
        0 <= k < l < p.len() ==> (#[trigger] p[k]).0 < (#[trigger] p[l]).0 && p[k].1 < p[l].1
}

proof fn lemma_lcs_bound(a: Seq<Seq<char>>, b: Seq<Seq<char>>, i: int, j: int)
    requires
        0 <= i <= a.len(),
        0 <= j <= b.len(),
    ensures
        lcs(a, b, i, j) <= a.len() - i,
    decreases a.len() - i + b.len() - j,
{
    if i < a.len() && j < b.len() {
        lemma_lcs_bound(a, b, i + 1, j + 1);
        lemma_lcs_bound(a, b, i + 1, j);
        lemma_lcs_bound(a, b, i, j + 1);
    }
}

pub proof fn lemma_matches(a: Seq<Seq<char>>, b: Seq<Seq<char>>, i: int, j: int)
    requires
        0 <= i <= a.len(),
        0 <= j <= b.len(),
    ensures
        common(a, b, matches(a, b, i, j), i, j),
        matches(a, b, i, j).len() == lcs(a, b, i, j),
    decreases a.len() - i + b.len() - j,
{
    if i < a.len() && j < b.len() {
        if a[i] == b[j] {
            lemma_matches(a, b, i + 1, j + 1);
            let rest = matches(a, b, i + 1, j + 1);
            let p = matches(a, b, i, j);
            assert forall|k: int| 0 <= k < p.len() implies i <= (#[trigger] p[k]).0 < a.len() && j
                <= p[k].1 < b.len() && a[p[k].0] == b[p[k].1] by {
                if k > 0 {
                    assert(p[k] == rest[k - 1]);
                }
            }
            assert forall|k: int, l: int| 0 <= k < l < p.len() implies (#[trigger] p[k]).0 < (
            #[trigger] p[l]).0 && p[k].1 < p[l].1 by {
                assert(p[l] == rest[l - 1]);
                if k > 0 {
                    assert(p[k] == rest[k - 1]);
                }
            }
        } else if lcs(a, b, i + 1, j) >= lcs(a, b, i, j + 1) {
            lemma_matches(a, b, i + 1, j);
        } else {
            lemma_matches(a, b, i, j + 1);
        }
    }
}

proof fn lemma_lcs_longest(
    a: Seq<Seq<char>>,
    b: Seq<Seq<char>>,
    p: Seq<(int, int)>,
    i: int,
    j: int,
)
    requires
        0 <= i <= a.len(),
        0 <= j <= b.len(),
        common(a, b, p, i, j),
    ensures
        p.len() <= lcs(a, b, i, j),
    decreases a.len() - i + b.len() - j,
{
    if p.len() > 0 {
        let first = p[0];
        assert(i <= first.0 < a.len() && j <= first.1 < b.len());
        if a[i] == b[j] {
            let rest = p.skip(1);
            assert forall|k: int| 0 <= k < rest.len() implies i + 1 <= (#[trigger] rest[k]).0
                < a.len() && j + 1 <= rest[k].1 < b.len() && a[rest[k].0] == b[rest[k].1] by {
                assert(rest[k] == p[k + 1]);
                assert(p[0].0 < p[k + 1].0 && p[0].1 < p[k + 1].1);
            }
            assert forall|k: int, l: int| 0 <= k < l < rest.len() implies (#[trigger] rest[k]).0
                < (#[trigger] rest[l]).0 && rest[k].1 < rest[l].1 by {
                assert(p[k + 1].0 < p[l + 1].0 && p[k + 1].1 < p[l + 1].1);
            }
            lemma_lcs_longest(a, b, rest, i + 1, j + 1);
        } else if first.0 > i {
            assert forall|k: int| 0 <= k < p.len() implies i + 1 <= (#[trigger] p[k]).0 by {
                if k > 0 {
                    assert(p[0].0 < p[k].0);
                }
            }
            lemma_lcs_longest(a, b, p, i + 1, j);
        } else {
            assert forall|k: int| 0 <= k < p.len() implies j + 1 <= (#[trigger] p[k]).1 by {
                if k > 0 {
                    assert(p[0].1 < p[k].1);
                }
            }
            lemma_lcs_longest(a, b, p, i, j + 1);
        }
    }
}

/// The matched tokens are a longest common subsequence of the two token lists.
pub proof fn law_matches_longest(a: Seq<Seq<char>>, b: Seq<Seq<char>>, p: Seq<(int, int)>)
    requires
        common(a, b, p, 0, 0),
    ensures
        common(a, b, matches(a, b, 0, 0), 0, 0),
        p.len() <= matches(a, b, 0, 0).len(),
{
    lemma_matches(a, b, 0, 0);
    lemma_lcs_longest(a, b, p, 0, 0);
}

// ---------------------------------------------------------------------------
// Ranges
// ---------------------------------------------------------------------------

/// A piece of a line, by the indices of its first character and of the one
/// after it.
pub ghost struct Cut {
    pub from: int,
    pub to: int,
}

/// The byte range of a piece.
pub open spec fn byte_range(s: Seq<char>, c: Cut) -> Range {
    Range { start: byte_pos(s, c.from) as usize, end: byte_pos(s, c.to) as usize }
}

/// The byte ranges of some pieces.
pub open spec fn byte_ranges(s: Seq<char>, cuts: Seq<Cut>) -> Seq<Range> {
    cuts.map_values(|c: Cut| byte_range(s, c))
}

/// The first index from `i` on at which `flags` holds `value`, or the length.
pub open spec fn next_flag(flags: Seq<bool>, i: int, value: bool) -> int
    decreases flags.len() - i,
{
    if 0 <= i < flags.len() && flags[i] != value {
        next_flag(flags, i + 1, value)
    } else {
        i
    }
}

/// The first token from `i` on, and before `e`, that is not white space.
pub open spec fn first_solid(t: Seq<TokenModel>, i: int, e: int) -> int
    decreases e - i,
{
    if i < e && t[i].kind == TokenKind::Whitespace {
        first_solid(t, i + 1, e)
    } else {
        i
    }
}

/// One past the last token from `i` on, and before `e`, that is not white
/// space.
pub open spec fn last_solid(t: Seq<TokenModel>, i: int, e: int) -> int
    decreases e - i,
{
    if i < e && t[e - 1].kind == TokenKind::Whitespace {
        last_solid(t, i, e - 1)
    } else {
        e
    }
}

/// The piece that the unmatched tokens from `i` to `e` are shown as: without
/// white space at its ends, unless it is nothing but white space.
pub open spec fn group_cut(t: Seq<TokenModel>, i: int, e: int) -> Cut {
    if first_solid(t, i, e) < e {
        Cut { from: t[first_solid(t, i, e)].from, to: t[last_solid(t, i, e) - 1].to }
    } else {
        Cut { from: t[i].from, to: t[e - 1].to }
    }
}

/// The pieces that the unmatched tokens from `i` on are shown as, one for each
/// run of them.
pub open spec fn group_cuts(t: Seq<TokenModel>, matched: Seq<bool>, i: int) -> Seq<Cut>
    decreases t.len() - i,
{
    let start = next_flag(matched, i, false);
    let end = next_flag(matched, start, true);
    if i < 0 || start < i || start >= t.len() || end <= start || end > t.len() {
        seq![]
    } else {
        seq![group_cut(t, start, end)] + group_cuts(t, matched, end)
    }
}

/// Pieces of a line: none empty, in order, and apart from each other.
pub open spec fn separate(s: Seq<char>, cuts: Seq<Cut>) -> bool {
    &&& forall|k: int|
        0 <= k < cuts.len() ==> 0 <= (#[trigger] cuts[k]).from < cuts[k].to <= s.len()
    &&& forall|k: int, l: int|
        0 <= k < l < cuts.len() ==> (#[trigger] cuts[k]).to < (#[trigger] cuts[l]).from
}

pub proof fn lemma_next_flag(flags: Seq<bool>, i: int, value: bool)
    requires
        0 <= i <= flags.len(),
    ensures
        i <= next_flag(flags, i, value) <= flags.len(),
        next_flag(flags, i, value) < flags.len() ==> flags[next_flag(flags, i, value)] == value,
        forall|k: int| i <= k < next_flag(flags, i, value) ==> flags[k] != value,
    decreases flags.len() - i,
{
    if i < flags.len() && flags[i] != value {
        lemma_next_flag(flags, i + 1, value);
    }
}

pub proof fn lemma_solid(t: Seq<TokenModel>, i: int, e: int)
    requires
        0 <= i <= e <= t.len(),
    ensures
        i <= first_solid(t, i, e) <= e,
        i <= last_solid(t, i, e) <= e,
        forall|k: int| i <= k < first_solid(t, i, e) ==> t[k].kind == TokenKind::Whitespace,
        forall|k: int| last_solid(t, i, e) <= k < e ==> t[k].kind == TokenKind::Whitespace,
        first_solid(t, i, e) < e ==> t[first_solid(t, i, e)].kind != TokenKind::Whitespace
            && first_solid(t, i, e) < last_solid(t, i, e),
    decreases e - i,
{
    if i < e {
        if t[i].kind == TokenKind::Whitespace {
            lemma_solid(t, i + 1, e);
        }
        if t[e - 1].kind == TokenKind::Whitespace {
            lemma_solid(t, i, e - 1);
        }
        if first_solid(t, i, e) < e && last_solid(t, i, e) <= first_solid(t, i, e) {
            assert(t[first_solid(t, i, e)].kind == TokenKind::Whitespace);
        }
    }
}

proof fn lemma_group_cut(s: Seq<char>, t: Seq<TokenModel>, i: int, e: int)
    requires
        cover_from(s, t, 0),
        0 <= i < e <= t.len(),
    ensures
        t[i].from <= group_cut(t, i, e).from < group_cut(t, i, e).to <= t[e - 1].to,
{
    lemma_solid(t, i, e);
    let a = if first_solid(t, i, e) < e {
        first_solid(t, i, e)
    } else {
        i
    };
    let z = if first_solid(t, i, e) < e {
        last_solid(t, i, e) - 1
    } else {
        e - 1
    };
    assert(t[a].from < t[a].to);
    assert(t[z].from < t[z].to);
    assert(t[i].from < t[i].to);
    assert(t[e - 1].from < t[e - 1].to);
}

proof fn lemma_group_cuts(s: Seq<char>, t: Seq<TokenModel>, matched: Seq<bool>, i: int)
    requires
        cover_from(s, t, 0),
        matched.len() == t.len(),
        0 <= i <= t.len(),
    ensures
        separate(s, group_cuts(t, matched, i)),
        group_cuts(t, matched, i).len() > 0 ==> i < t.len() && t[i].from <= group_cuts(
            t,
            matched,
            i,
        )[0].from && (matched[i] ==> t[i].to <= group_cuts(t, matched, i)[0].from),
    decreases t.len() - i,
{
    lemma_next_flag(matched, i, false);
    let start = next_flag(matched, i, false);
    lemma_next_flag(matched, start, true);
    let end = next_flag(matched, start, true);
    if start < t.len() {
        assert(end > start);
        lemma_group_cuts(s, t, matched, end);
        lemma_group_cut(s, t, start, end);
        assert(i < start ==> t[i].to <= t[start].from);
        assert(t[i].from < t[i].to);
        let rest = group_cuts(t, matched, end);
        let all = group_cuts(t, matched, i);
        let cut = group_cut(t, start, end);
        if rest.len() > 0 {
            assert(t[end - 1].to == t[end].from);
            assert(t[end].from < t[end].to);
            assert(cut.to < rest[0].from);
        }
        assert forall|k: int| 0 <= k < all.len() implies 0 <= (#[trigger] all[k]).from < all[k].to
            <= s.len() by {
            if k > 0 {
                assert(all[k] == rest[k - 1]);
            } else {
                assert(t[start].from >= 0);
                assert(t[end - 1].to <= s.len());
            }
        }
        assert forall|k: int, l: int| 0 <= k < l < all.len() implies (#[trigger] all[k]).to < (
        #[trigger] all[l]).from by {
            assert(all[l] == rest[l - 1]);
            if k > 0 {
                assert(all[k] == rest[k - 1]);
            } else if l > 1 {
                assert(rest[0].to < rest[l - 1].from);
                assert(rest[0].from < rest[0].to);
            }
        }
    }
}

// ---------------------------------------------------------------------------
// Common ends
// ---------------------------------------------------------------------------

/// How many characters two texts share at their start.
pub open spec fn common_prefix(a: Seq<char>, b: Seq<char>) -> nat
    decreases a.len(),
{
    if a.len() > 0 && b.len() > 0 && a[0] == b[0] {
        1 + common_prefix(a.skip(1), b.skip(1))
    } else {
        0
    }
}

/// How many characters two texts share at their end.
pub open spec fn common_suffix(a: Seq<char>, b: Seq<char>) -> nat
    decreases a.len(),
{
    if a.len() > 0 && b.len() > 0 && a.last() == b.last() {
        1 + common_suffix(a.drop_last(), b.drop_last())
    } else {
        0
    }
}

/// The one piece of `s` between its first `prefix` and its last `suffix`
/// characters, where there is any.
pub open spec fn middle(s: Seq<char>, prefix: nat, suffix: nat) -> Seq<Cut> {
    if prefix + suffix < s.len() {
        seq![Cut { from: prefix as int, to: s.len() - suffix }]
    } else {
        seq![]
    }
}

/// The pieces of either text between the ends that the two share.
pub open spec fn affix_cuts(old: Seq<char>, new: Seq<char>) -> (Seq<Cut>, Seq<Cut>) {
    let p = common_prefix(old, new);
    let q = common_suffix(old.skip(p as int), new.skip(p as int));
    (middle(old, p, q), middle(new, p, q))
}

/// Whether the token with index `k` of the old line is matched.
pub open spec fn old_flags(p: Seq<(int, int)>, n: nat) -> Seq<bool> {
    Seq::new(n, |k: int| exists|m: int| 0 <= m < p.len() && (#[trigger] p[m]).0 == k)
}

/// Whether the token with index `k` of the new line is matched.
pub open spec fn new_flags(p: Seq<(int, int)>, n: nat) -> Seq<bool> {
    Seq::new(n, |k: int| exists|m: int| 0 <= m < p.len() && (#[trigger] p[m]).1 == k)
}

/// Whether two lines are too long to be compared token by token, or one has
/// no tokens at all.
pub open spec fn too_long(m: nat, n: nat) -> bool {
    m == 0 || n == 0 || m > MAX_LCS_TOKENS || n > MAX_LCS_TOKENS || m * n > MAX_LCS_CELLS
}

/// The changed pieces of two lines.
pub open spec fn changed_cuts(old: Seq<char>, new: Seq<char>) -> (Seq<Cut>, Seq<Cut>) {
    let a = tokens(old);
    let b = tokens(new);
    if old == new {
        (seq![], seq![])
    } else if too_long(a.len(), b.len()) {
        affix_cuts(old, new)
    } else {
        let p = matches(words(old, a), words(new, b), 0, 0);
        (group_cuts(a, old_flags(p, a.len()), 0), group_cuts(b, new_flags(p, b.len()), 0))
    }
}

/// The changed pieces lie inside their lines, are not empty, and stand in
/// order and apart; equal lines have none.
pub proof fn law_changes_separate(old: Seq<char>, new: Seq<char>)
    ensures
        separate(old, changed_cuts(old, new).0),
        separate(new, changed_cuts(old, new).1),
        old == new ==> changed_cuts(old, new).0.len() == 0 && changed_cuts(old, new).1.len() == 0,
{
    let a = tokens(old);
    let b = tokens(new);
    law_tokens_cover(old);
    law_tokens_cover(new);
    let p = matches(words(old, a), words(new, b), 0, 0);
    lemma_group_cuts(old, a, old_flags(p, a.len()), 0);
    lemma_group_cuts(new, b, new_flags(p, b.len()), 0);
}

// ---------------------------------------------------------------------------
// Executable comparison
// ---------------------------------------------------------------------------

#[derive(Clone, Copy)]
struct Token {
    from: usize,
    to: usize,
    kind: TokenKind,
}

impl View for Token {
    type V = TokenModel;

    closed spec fn view(&self) -> TokenModel {
        TokenModel { from: self.from as int, to: self.to as int, kind: self.kind }
    }
}

spec fn token_models(v: Seq<Token>) -> Seq<TokenModel> {
    v.map_values(|t: Token| t@)
}

fn kind_of_char(c: char) -> (r: TokenKind)
    ensures
        r == kind_of(c),
{
    if c == ' ' || c == '\t' || c == '\r' || c == '\n' {
        TokenKind::Whitespace
    } else if ('a' <= c && c <= 'z') || ('A' <= c && c <= 'Z') || ('0' <= c && c <= '9') || c
        == '_' {
        TokenKind::Word
    } else {
        TokenKind::Punct
    }
}

/// The tokens of a line.  Once there are too many of them, only that fact
/// matters, and the rest is not read.
fn tokenize(s: &[char]) -> (r: Vec<Token>)
    ensures
        r@.len() <= MAX_LCS_TOKENS ==> token_models(r@) == tokens(s@),
        r@.len() > MAX_LCS_TOKENS ==> tokens(s@).len() > MAX_LCS_TOKENS,
{
    let mut out: Vec<Token> = Vec::new();
    let mut i: usize = 0;
    assert(token_models(out@) + tokens_from(s@, 0) =~= tokens(s@));
    while i < s.len()
        invariant
            i <= s@.len(),
            out@.len() <= MAX_LCS_TOKENS,
            token_models(out@) + tokens_from(s@, i as int) == tokens(s@),
        decreases s@.len() - i,
    {
        let kind: TokenKind = kind_of_char(s[i]);
        let mut end: usize = i + 1;
        proof {
            lemma_run_end(s@, i + 1, kind);
        }
        while kind != TokenKind::Punct && end < s.len() && kind_of_char(s[end]) == kind
            invariant
                i < end <= s@.len(),
                kind != TokenKind::Punct ==> run_end(s@, end as int, kind) == run_end(
                    s@,
                    i + 1,
                    kind,
                ),
                kind == TokenKind::Punct ==> end == i + 1,
            decreases s@.len() - end,
        {
            end += 1;
        }
        let ghost before = token_models(out@);
        let token = Token { from: i, to: end, kind };
        out.push(token);
        assert(token_models(out@) =~= before.push(token@));
        assert(tokens_from(s@, i as int) == seq![token@] + tokens_from(s@, end as int));
        assert(token_models(out@) + tokens_from(s@, end as int) =~= before + (seq![token@]
            + tokens_from(s@, end as int)));
        i = end;
        if out.len() > MAX_LCS_TOKENS {
            return out;
        }
    }
    assert(token_models(out@) + tokens_from(s@, i as int) =~= token_models(out@));
    out
}

/// The byte offset of every character, and of the end.
fn offsets(s: &[char], limit: usize) -> (r: Vec<usize>)
    requires
        byte_len(s@) == limit,
    ensures
        r@.len() == s@.len() + 1,
        forall|k: int| 0 <= k <= s@.len() ==> #[trigger] r@[k] == byte_pos(s@, k),
{
    let mut out: Vec<usize> = Vec::new();
    out.push(0);
    let mut at: usize = 0;
    let mut i: usize = 0;
    while i < s.len()
        invariant
            i <= s@.len(),
            byte_len(s@) == limit,
            at == byte_pos(s@, i as int),
            out@.len() == i + 1,
            forall|k: int| 0 <= k <= i ==> #[trigger] out@[k] == byte_pos(s@, k),
        decreases s@.len() - i,
    {
        proof {
            lemma_byte_pos_monotone(s@, i + 1, s@.len() as int);
            assert(byte_pos(s@, i + 1) == byte_pos(s@, i as int) + utf8_width(s@[i as int]));
        }
        at = at + char_len(s[i]);
        out.push(at);
        i += 1;
    }
    out
}

/// The number of bytes that a character takes.
pub fn char_len(c: char) -> (n: usize)
    ensures
        n == utf8_width(c),
{
    let v = c as u32;
    if v <= 0x7f {
        1
    } else if v <= 0x7ff {
        2
    } else if v <= 0xffff {
        3
    } else {
        4
    }
}

fn same_word(a: &[char], x: Token, b: &[char], y: Token) -> (r: bool)
    requires
        x.from <= x.to <= a@.len(),
        y.from <= y.to <= b@.len(),
    ensures
        r == (a@.subrange(x.from as int, x.to as int) == b@.subrange(y.from as int, y.to as int)),
{
    let ghost p = a@.subrange(x.from as int, x.to as int);
    let ghost q = b@.subrange(y.from as int, y.to as int);
    if x.to - x.from != y.to - y.from {
        assert(p.len() != q.len());
        return false;
    }
    let n: usize = x.to - x.from;
    let mut i: usize = 0;
    while i < n
        invariant
            x.from <= x.to <= a@.len(),
            y.from <= y.to <= b@.len(),
            p == a@.subrange(x.from as int, x.to as int),
            q == b@.subrange(y.from as int, y.to as int),
            n == x.to - x.from == y.to - y.from,
            i <= n,
            forall|k: int| 0 <= k < i ==> p[k] == q[k],
        decreases n - i,
    {
        if a[x.from + i] != b[y.from + i] {
            assert(p[i as int] != q[i as int]);
            return false;
        }
        i += 1;
    }
    assert(p =~= q);
    true
}

/// Tokens that lie inside a line.
spec fn tokens_inside(t: Seq<Token>, n: nat) -> bool {
    forall|k: int| 0 <= k < t.len() ==> (#[trigger] t[k]).from <= t[k].to <= n
}

/// The table of longest-common-subsequence lengths.
fn lcs_table(a: &[char], x: &Vec<Token>, b: &[char], y: &Vec<Token>) -> (dp: Vec<Vec<usize>>)
    requires
        tokens_inside(x@, a@.len()),
        tokens_inside(y@, b@.len()),
        x@.len() <= MAX_LCS_TOKENS,
        y@.len() <= MAX_LCS_TOKENS,
    ensures
        dp@.len() == x@.len() + 1,
        forall|i: int, j: int|
            0 <= i <= x@.len() && 0 <= j <= y@.len() ==> (#[trigger] dp@[i]@[j]) == lcs(
                words(a@, token_models(x@)),
                words(b@, token_models(y@)),
                i,
                j,
            ),
        forall|i: int| 0 <= i <= x@.len() ==> (#[trigger] dp@[i])@.len() == y@.len() + 1,
{
    let ghost p = words(a@, token_models(x@));
    let ghost q = words(b@, token_models(y@));
    let rows: usize = x.len() + 1;
    let cols: usize = y.len() + 1;
    let mut dp: Vec<Vec<usize>> = Vec::new();
    let mut k: usize = 0;
    while k < rows
        invariant
            k <= rows,
            dp@.len() == k,
            cols == y@.len() + 1,
            forall|i: int| 0 <= i < k ==> (#[trigger] dp@[i])@.len() == cols,
            forall|i: int, j: int|
                0 <= i < k && 0 <= j < cols ==> #[trigger] dp@[i]@[j] == 0,
        decreases rows - k,
    {
        let row: Vec<usize> = vec![0; cols];
        dp.push(row);
        k += 1;
    }
    let mut i: usize = x.len();
    while i > 0
        invariant
            p == words(a@, token_models(x@)),
            q == words(b@, token_models(y@)),
            tokens_inside(x@, a@.len()),
            tokens_inside(y@, b@.len()),
            x@.len() <= MAX_LCS_TOKENS,
            y@.len() <= MAX_LCS_TOKENS,
            i <= x@.len(),
            dp@.len() == x@.len() + 1,
            cols == y@.len() + 1,
            forall|r: int| 0 <= r <= x@.len() ==> (#[trigger] dp@[r])@.len() == cols,
            forall|r: int, j: int|
                i <= r <= x@.len() && 0 <= j < cols ==> #[trigger] dp@[r]@[j] == lcs(p, q, r, j),
        decreases i,
    {
        i -= 1;
        let mut row: Vec<usize> = vec![0; cols];
        let mut j: usize = y.len();
        while j > 0
            invariant
                p == words(a@, token_models(x@)),
                q == words(b@, token_models(y@)),
                tokens_inside(x@, a@.len()),
                tokens_inside(y@, b@.len()),
                x@.len() <= MAX_LCS_TOKENS,
                y@.len() <= MAX_LCS_TOKENS,
                i < x@.len(),
                j <= y@.len(),
                dp@.len() == x@.len() + 1,
                cols == y@.len() + 1,
                row@.len() == cols,
                dp@[i + 1]@.len() == cols,
                forall|c: int|
                    0 <= c < cols ==> #[trigger] dp@[i + 1]@[c] == lcs(p, q, i + 1, c),
                forall|c: int| j <= c < cols ==> #[trigger] row@[c] == lcs(p, q, i as int, c),
            decreases j,
        {
            j -= 1;
            proof {
                lemma_lcs_bound(p, q, i + 1, j + 1);
                assert(p[i as int] == a@.subrange(x@[i as int].from as int, x@[i as int].to as int));
                assert(q[j as int] == b@.subrange(y@[j as int].from as int, y@[j as int].to as int));
                assert(dp@[i + 1]@[j + 1] == lcs(p, q, i + 1, j + 1));
                assert(dp@[i + 1]@[j as int] == lcs(p, q, i + 1, j as int));
                assert(row@[j + 1] == lcs(p, q, i as int, j + 1));
            }
            let value: usize = if same_word(a, x[i], b, y[j]) {
                dp[i + 1][j + 1] + 1
            } else {
                let down: usize = dp[i + 1][j];
                let right: usize = row[j + 1];
                if down >= right {
                    down
                } else {
                    right
                }
            };
            row[j] = value;
        }
        let ghost before = dp@;
        dp[i] = row;
        assert forall|r: int, c: int|
            i <= r <= x@.len() && 0 <= c < cols implies #[trigger] dp@[r]@[c] == lcs(
            p,
            q,
            r,
            c,
        ) by {
            if r > i {
                assert(dp@[r] == before[r]);
                assert(before[r]@[c] == lcs(p, q, r, c));
            } else {
                assert(dp@[r]@ == row@);
            }
        }
    }
    dp
}

/// The tokens of either line that are matched.
fn matched_tokens(a: &[char], x: &Vec<Token>, b: &[char], y: &Vec<Token>) -> (r: (
    Vec<bool>,
    Vec<bool>,
))
    requires
        tokens_inside(x@, a@.len()),
        tokens_inside(y@, b@.len()),
        x@.len() <= MAX_LCS_TOKENS,
        y@.len() <= MAX_LCS_TOKENS,
    ensures
        ({
            let p = matches(words(a@, token_models(x@)), words(b@, token_models(y@)), 0, 0);
            r.0@ == old_flags(p, x@.len()) && r.1@ == new_flags(p, y@.len())
        }),
{
    let ghost p = words(a@, token_models(x@));
    let ghost q = words(b@, token_models(y@));
    let ghost all = matches(p, q, 0, 0);
    let dp = lcs_table(a, x, b, y);
    let mut old_matched: Vec<bool> = vec![false; x.len()];
    let mut new_matched: Vec<bool> = vec![false; y.len()];
    let mut i: usize = 0;
    let mut j: usize = 0;
    let ghost mut done: Seq<(int, int)> = seq![];
    assert(done + matches(p, q, 0, 0) =~= all);
    while i < x.len() && j < y.len()
        invariant
            p == words(a@, token_models(x@)),
            q == words(b@, token_models(y@)),
            all == matches(p, q, 0, 0),
            tokens_inside(x@, a@.len()),
            tokens_inside(y@, b@.len()),
            i <= x@.len(),
            j <= y@.len(),
            dp@.len() == x@.len() + 1,
            forall|r: int| 0 <= r <= x@.len() ==> (#[trigger] dp@[r])@.len() == y@.len() + 1,
            forall|r: int, c: int|
                0 <= r <= x@.len() && 0 <= c <= y@.len() ==> (#[trigger] dp@[r]@[c]) == lcs(
                    p,
                    q,
                    r,
                    c,
                ),
            done + matches(p, q, i as int, j as int) == all,
            old_matched@ == old_flags(done, x@.len()),
            new_matched@ == new_flags(done, y@.len()),
        decreases x@.len() - i + y@.len() - j,
    {
        proof {
            assert(p[i as int] == a@.subrange(x@[i as int].from as int, x@[i as int].to as int));
            assert(q[j as int] == b@.subrange(y@[j as int].from as int, y@[j as int].to as int));
        }
        if same_word(a, x[i], b, y[j]) {
            let ghost pair = (i as int, j as int);
            let ghost next = done.push(pair);
            let ghost rest = matches(p, q, i + 1, j + 1);
            old_matched[i] = true;
            new_matched[j] = true;
            proof {
                assert(matches(p, q, i as int, j as int) == seq![pair] + rest);
                assert(next + rest =~= done + (seq![pair] + rest));
                assert forall|k: int| 0 <= k < x@.len() implies old_matched@[k] == (
                #[trigger] old_flags(next, x@.len())[k]) by {
                    if k == i {
                        assert(next[done.len() as int].0 == k);
                    } else if old_flags(done, x@.len())[k] {
                        let m = choose|m: int| 0 <= m < done.len() && (#[trigger] done[m]).0 == k;
                        assert(next[m].0 == k);
                    } else if old_flags(next, x@.len())[k] {
                        let m = choose|m: int| 0 <= m < next.len() && (#[trigger] next[m]).0 == k;
                        assert(m < done.len());
                        assert(done[m].0 == k);
                    }
                }
                assert(old_matched@ =~= old_flags(next, x@.len()));
                assert forall|k: int| 0 <= k < y@.len() implies new_matched@[k] == (
                #[trigger] new_flags(next, y@.len())[k]) by {
                    if k == j {
                        assert(next[done.len() as int].1 == k);
                    } else if new_flags(done, y@.len())[k] {
                        let m = choose|m: int| 0 <= m < done.len() && (#[trigger] done[m]).1 == k;
                        assert(next[m].1 == k);
                    } else if new_flags(next, y@.len())[k] {
                        let m = choose|m: int| 0 <= m < next.len() && (#[trigger] next[m]).1 == k;
                        assert(m < done.len());
                        assert(done[m].1 == k);
                    }
                }
                assert(new_matched@ =~= new_flags(next, y@.len()));
                done = next;
            }
            i += 1;
            j += 1;
        } else {
            proof {
                assert(dp@[i + 1]@[j as int] == lcs(p, q, i + 1, j as int));
                assert(dp@[i as int]@[j + 1] == lcs(p, q, i as int, j + 1));
            }
            if dp[i + 1][j] >= dp[i][j + 1] {
                i += 1;
            } else {
                j += 1;
            }
        }
    }
    assert(done + matches(p, q, i as int, j as int) =~= done);
    (old_matched, new_matched)
}

/// Ranges with one more added at the end: an empty one is left out, one that
/// touches the last is joined with it.
pub open spec fn appended(ranges: Seq<Range>, range: Range) -> Seq<Range> {
    if range.start >= range.end {
        ranges
    } else if ranges.len() > 0 && ranges.last().end >= range.start {
        ranges.drop_last().push(
            Range {
                start: ranges.last().start,
                end: if ranges.last().end >= range.end {
                    ranges.last().end
                } else {
                    range.end
                },
            },
        )
    } else {
        ranges.push(range)
    }
}

pub fn append_range(ranges: &mut Vec<Range>, range: Range)
    ensures
        final(ranges)@ == appended(old(ranges)@, range),
{
    if range.start >= range.end {
        return;
    }
    let len: usize = ranges.len();
    if len > 0 && ranges[len - 1].end >= range.start {
        let last: Range = ranges[len - 1];
        if last.end < range.end {
            ranges[len - 1] = Range { start: last.start, end: range.end };
        }
        assert(ranges@ =~= appended(old(ranges)@, range));
    } else {
        ranges.push(range);
    }
}

/// The run of unmatched tokens that starts at `i`: the tokens that it is shown
/// from and to, and where it ends.
fn unmatched_run(t: &Vec<Token>, matched: &Vec<bool>, i: usize) -> (r: (usize, usize, usize))
    requires
        matched@.len() == t@.len(),
        i < t@.len(),
        !matched@[i as int],
    ensures
        ({
            let m = token_models(t@);
            let (start, end, e) = r;
            &&& i <= start < end <= e <= t@.len()
            &&& e == next_flag(matched@, i as int, true)
            &&& group_cut(m, i as int, e as int) == (Cut {
                from: m[start as int].from,
                to: m[end - 1].to,
            })
        }),
{
    let ghost m = token_models(t@);
    let mut significant: bool = false;
    let mut e: usize = i;
    while e < t.len() && !matched[e]
        invariant
            m == token_models(t@),
            matched@.len() == t@.len(),
            i <= e <= t@.len(),
            i < t@.len(),
            !matched@[i as int],
            next_flag(matched@, i as int, true) == next_flag(matched@, e as int, true),
            significant == (first_solid(m, i as int, e as int) < e),
        decreases t@.len() - e,
    {
        proof {
            lemma_solid(m, i as int, e as int);
            lemma_solid(m, i as int, e + 1);
            assert(m[e as int].kind == t@[e as int].kind);
            let f = first_solid(m, i as int, e as int);
            let g = first_solid(m, i as int, e + 1);
            if f < e {
                if g >= e {
                    assert(m[f].kind == TokenKind::Whitespace);
                }
            } else if g < e {
                assert(m[g].kind == TokenKind::Whitespace);
            }
        }
        if t[e].kind != TokenKind::Whitespace {
            significant = true;
        }
        e += 1;
    }
    let mut start: usize = i;
    let mut end: usize = e;
    proof {
        lemma_next_flag(matched@, i as int, true);
        lemma_solid(m, i as int, e as int);
        assert(next_flag(matched@, i as int, true) == e);
        assert(e > i);
    }
    if significant {
        while start < end && t[start].kind == TokenKind::Whitespace
            invariant
                m == token_models(t@),
                i <= start <= end <= t@.len(),
                first_solid(m, start as int, end as int) == first_solid(m, i as int, end as int),
            decreases end - start,
        {
            start += 1;
        }
        proof {
            lemma_solid_from(m, i as int, start as int, end as int);
            lemma_solid(m, start as int, e as int);
        }
        while end > start && t[end - 1].kind == TokenKind::Whitespace
            invariant
                m == token_models(t@),
                start <= end <= e <= t@.len(),
                last_solid(m, start as int, end as int) == last_solid(m, start as int, e as int),
            decreases end,
        {
            end -= 1;
        }
    }
    (start, end, e)
}

proof fn lemma_group_step(t: Seq<TokenModel>, matched: Seq<bool>, i: int, e: int)
    requires
        matched.len() == t.len(),
        0 <= i < e <= t.len(),
        !matched[i],
        e == next_flag(matched, i, true),
    ensures
        group_cuts(t, matched, i) == seq![group_cut(t, i, e)] + group_cuts(t, matched, e),
{
    assert(next_flag(matched, i, false) == i);
}

fn ranges_from_tokens(
    Ghost(s): Ghost<Seq<char>>,
    t: &Vec<Token>,
    matched: &Vec<bool>,
    at: &Vec<usize>,
) -> (r: Vec<Range>)
    requires
        cover_from(s, token_models(t@), 0),
        matched@.len() == t@.len(),
        at@.len() == s.len() + 1,
        forall|k: int| 0 <= k <= s.len() ==> #[trigger] at@[k] == byte_pos(s, k),
    ensures
        r@ == byte_ranges(s, group_cuts(token_models(t@), matched@, 0)),
{
    let ghost m = token_models(t@);
    let ghost all = group_cuts(m, matched@, 0);
    let mut ranges: Vec<Range> = Vec::new();
    let mut i: usize = 0;
    proof {
        lemma_group_cuts(s, m, matched@, 0);
        assert(all.skip(0) =~= all);
    }
    while i < t.len()
        invariant
            m == token_models(t@),
            cover_from(s, m, 0),
            separate(s, all),
            matched@.len() == t@.len(),
            at@.len() == s.len() + 1,
            forall|k: int| 0 <= k <= s.len() ==> #[trigger] at@[k] == byte_pos(s, k),
            i <= t@.len(),
            ranges@.len() <= all.len(),
            ranges@ == byte_ranges(s, all.take(ranges@.len() as int)),
            group_cuts(m, matched@, i as int) == all.skip(ranges@.len() as int),
        decreases t@.len() - i,
    {
        if matched[i] {
            assert(next_flag(matched@, i as int, false) == next_flag(matched@, i + 1, false));
            i += 1;
            continue;
        }
        let (start, end, e) = unmatched_run(t, matched, i);
        let ghost cut = group_cut(m, i as int, e as int);
        let ghost n = ranges@.len() as int;
        let ghost rest = group_cuts(m, matched@, e as int);
        proof {
            lemma_group_step(m, matched@, i as int, e as int);
            lemma_group_cut(s, m, i as int, e as int);
            assert(all.skip(n) == seq![cut] + rest);
            assert(all.skip(n).len() > 0);
            assert(all[n] == all.skip(n)[0]);
            lemma_byte_pos_monotone(s, cut.from, cut.to);
            if n > 0 {
                assert(ranges@[n - 1] == byte_range(s, all.take(n)[n - 1]));
                assert(all[n - 1].to < all[n].from);
                lemma_byte_pos_monotone(s, all[n - 1].to, cut.from);
                assert(at@[all[n - 1].to] == byte_pos(s, all[n - 1].to));
            }
            assert(m[start as int].from == t@[start as int].from);
            assert(m[end - 1].to == t@[end - 1].to);
        }
        let range = Range { start: at[t[start].from], end: at[t[end - 1].to] };
        append_range(&mut ranges, range);
        proof {
            assert(range == byte_range(s, cut));
            assert(ranges@ =~= byte_ranges(s, all.take(n + 1)));
            assert((seq![cut] + rest).skip(1) =~= rest);
            assert(all.skip(n).skip(1) =~= all.skip(n + 1));
        }
        i = e;
    }
    assert(group_cuts(m, matched@, i as int).len() == 0);
    assert(all.take(ranges@.len() as int) =~= all);
    ranges
}

pub proof fn lemma_solid_from(t: Seq<TokenModel>, i: int, j: int, e: int)
    requires
        0 <= i <= j < e <= t.len(),
        j == first_solid(t, i, e),
    ensures
        last_solid(t, i, e) == last_solid(t, j, e),
    decreases e - i,
{
    lemma_solid(t, i, e);
    lemma_last_solid_same(t, i, j, e);
}

proof fn lemma_last_solid_same(t: Seq<TokenModel>, i: int, j: int, e: int)
    requires
        0 <= i <= j < e <= t.len(),
        t[j].kind != TokenKind::Whitespace,
    ensures
        last_solid(t, i, e) == last_solid(t, j, e),
    decreases e,
{
    if t[e - 1].kind == TokenKind::Whitespace {
        lemma_last_solid_same(t, i, j, e - 1);
    }
}

fn shared_prefix(a: &[char], b: &[char]) -> (n: usize)
    ensures
        n == common_prefix(a@, b@),
        n <= a@.len(),
        n <= b@.len(),
{
    let mut n: usize = 0;
    assert(a@.skip(0) =~= a@);
    assert(b@.skip(0) =~= b@);
    while n < a.len() && n < b.len() && a[n] == b[n]
        invariant
            n <= a@.len(),
            n <= b@.len(),
            common_prefix(a@, b@) == n + common_prefix(a@.skip(n as int), b@.skip(n as int)),
        decreases a@.len() - n,
    {
        assert(a@.skip(n as int).skip(1) =~= a@.skip(n + 1));
        assert(b@.skip(n as int).skip(1) =~= b@.skip(n + 1));
        n += 1;
    }
    n
}

fn shared_suffix(a: &[char], b: &[char], prefix: usize) -> (n: usize)
    requires
        prefix <= a@.len(),
        prefix <= b@.len(),
    ensures
        n == common_suffix(a@.skip(prefix as int), b@.skip(prefix as int)),
        n <= a@.len() - prefix,
        n <= b@.len() - prefix,
{
    let ghost x = a@.skip(prefix as int);
    let ghost y = b@.skip(prefix as int);
    let mut n: usize = 0;
    assert(x.take(x.len() as int) =~= x);
    assert(y.take(y.len() as int) =~= y);
    while n < a.len() - prefix && n < b.len() - prefix && a[a.len() - 1 - n] == b[b.len() - 1 - n]
        invariant
            prefix <= a@.len(),
            prefix <= b@.len(),
            x == a@.skip(prefix as int),
            y == b@.skip(prefix as int),
            n <= x.len(),
            n <= y.len(),
            common_suffix(x, y) == n + common_suffix(x.take(x.len() - n), y.take(y.len() - n)),
        decreases a@.len() - n,
    {
        assert(x.take(x.len() - n).drop_last() =~= x.take(x.len() - n - 1));
        assert(y.take(y.len() - n).drop_last() =~= y.take(y.len() - n - 1));
        n += 1;
    }
    n
}

fn middle_range(text: &str, s: &[char], prefix: usize, suffix: usize) -> (r: Vec<Range>)
    requires
        text@ == s@,
        suffix <= s@.len(),
    ensures
        r@ == byte_ranges(text@, middle(text@, prefix as nat, suffix as nat)),
{
    let at = offsets(s, checked_byte_len(text));
    let mut r: Vec<Range> = Vec::new();
    if prefix < s.len() - suffix {
        let range = Range { start: at[prefix], end: at[s.len() - suffix] };
        r.push(range);
    }
    assert(r@ =~= byte_ranges(text@, middle(text@, prefix as nat, suffix as nat)));
    r
}

/// Compare two lines by the ends that they share only.
pub fn affix_ranges(old: &str, new: &str) -> (r: PairRanges)
    ensures
        r.old@ == byte_ranges(old@, affix_cuts(old@, new@).0),
        r.new@ == byte_ranges(new@, affix_cuts(old@, new@).1),
{
    let a = chars_of(old);
    let b = chars_of(new);
    let prefix: usize = shared_prefix(a.as_slice(), b.as_slice());
    let suffix: usize = shared_suffix(a.as_slice(), b.as_slice(), prefix);
    PairRanges {
        old: middle_range(old, a.as_slice(), prefix, suffix),
        new: middle_range(new, b.as_slice(), prefix, suffix),
    }
}

/// The changed byte ranges of two lines.  White space at the ends of a change
/// is not part of it, unless the change is nothing but white space.
pub fn diff_ranges(old_text: &str, new_text: &str) -> (r: PairRanges)
    ensures
        r.old@ == byte_ranges(old_text@, changed_cuts(old_text@, new_text@).0),
        r.new@ == byte_ranges(new_text@, changed_cuts(old_text@, new_text@).1),
        separate(old_text@, changed_cuts(old_text@, new_text@).0),
        separate(new_text@, changed_cuts(old_text@, new_text@).1),
{
    proof {
        law_changes_separate(old_text@, new_text@);
        law_tokens_cover(old_text@);
        law_tokens_cover(new_text@);
    }
    if same_text(old_text, new_text) {
        let r = PairRanges::default();
        assert(r.old@ =~= byte_ranges(old_text@, changed_cuts(old_text@, new_text@).0));
        assert(r.new@ =~= byte_ranges(new_text@, changed_cuts(old_text@, new_text@).1));
        return r;
    }
    let a = chars_of(old_text);
    let b = chars_of(new_text);
    let x = tokenize(a.as_slice());
    let y = tokenize(b.as_slice());
    if x.len() == 0 || y.len() == 0 || x.len() > MAX_LCS_TOKENS || y.len() > MAX_LCS_TOKENS {
        return affix_ranges(old_text, new_text);
    }
    proof {
        let m = x@.len() as int;
        let n = y@.len() as int;
        assert(m * n <= 240 * 240) by (nonlinear_arith)
            requires
                0 <= m <= 240,
                0 <= n <= 240,
        ;
        assert(token_models(x@).len() == m);
        assert(token_models(y@).len() == n);
    }
    if x.len() * y.len() > MAX_LCS_CELLS {
        return affix_ranges(old_text, new_text);
    }
    proof {
        assert forall|k: int| 0 <= k < x@.len() implies (#[trigger] x@[k]).from <= x@[k].to
            <= a@.len() by {
            let t = token_models(x@)[k];
            assert(t.from < t.to);
        }
        assert forall|k: int| 0 <= k < y@.len() implies (#[trigger] y@[k]).from <= y@[k].to
            <= b@.len() by {
            let t = token_models(y@)[k];
            assert(t.from < t.to);
        }
    }
    let (old_matched, new_matched) = matched_tokens(a.as_slice(), &x, b.as_slice(), &y);
    let old_at = offsets(a.as_slice(), checked_byte_len(old_text));
    let new_at = offsets(b.as_slice(), checked_byte_len(new_text));
    PairRanges {
        old: ranges_from_tokens(Ghost(old_text@), &x, &old_matched, &old_at),
        new: ranges_from_tokens(Ghost(new_text@), &y, &new_matched, &new_at),
    }
}

} // verus!

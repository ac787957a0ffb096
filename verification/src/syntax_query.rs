//! Highlighting of one side of a file: the syntax tree is queried chunk by
//! chunk, and the captures become spans of lines.
use std::sync::Arc;
use vstd::prelude::*;
use vstd::slice::slice_subrange;
use vstd::utf8::encode_utf8;
use tree_sitter::StreamingIterator;
use crate::Error;
use crate::syntax::{HighlightSpan, SyntaxToken};
use crate::util::{
    bytes_start_with, chars_of, has_prefix, has_suffix, same_bytes, same_text, string_of, texts,
    text_starts_with,
};

verus! {

/// Larger files are not highlighted.
pub const MAX_FILE_SIZE: usize = 524288;

/// How many lines are highlighted at a time.
pub const CHUNK_LINES: usize = 128;

// ---------------------------------------------------------------------------
// Lines
// ---------------------------------------------------------------------------

/// Where the lines start that start at or before the byte `n`.
pub open spec fn starts_before(source: Seq<u8>, n: int) -> Seq<int>
    decreases n,
{
    if n <= 0 {
        seq![0]
    } else {
        starts_before(source, n - 1) + if source[n - 1] == 0x0a && n < source.len() {
            seq![n]
        } else {
            seq![]
        }
    }
}

/// Where the lines of a source start.
pub open spec fn line_starts_of(source: Seq<u8>) -> Seq<int> {
    starts_before(source, source.len() as int)
}

/// An end without the carriage returns before it.
pub open spec fn before_cr(source: Seq<u8>, start: int, end: int) -> int
    decreases end - start,
{
    if end > start && source[end - 1] == 0x0d {
        before_cr(source, start, end - 1)
    } else {
        end
    }
}

/// Where the text of a line ends, its line ending left out.
pub open spec fn line_end_of(source: Seq<u8>, starts: Seq<int>, index: int) -> int {
    let start = starts[index];
    let end = if index + 1 < starts.len() {
        starts[index + 1]
    } else {
        source.len() as int
    };
    before_cr(
        source,
        start,
        if end > start && source[end - 1] == 0x0a {
            end - 1
        } else {
            end
        },
    )
}

/// Starts of lines of a source.
pub open spec fn starts_fit(source: Seq<u8>, starts: Seq<int>) -> bool {
    &&& starts.len() > 0
    &&& forall|k: int| 0 <= k < starts.len() ==> 0 <= #[trigger] starts[k] <= source.len()
    &&& forall|j: int, k: int|
        0 <= j < k < starts.len() ==> #[trigger] starts[j] < #[trigger] starts[k]
}

proof fn lemma_starts_before(source: Seq<u8>, n: int)
    requires
        0 <= n <= source.len(),
    ensures
        starts_fit(source, starts_before(source, n)),
        forall|k: int|
            0 <= k < starts_before(source, n).len() ==> #[trigger] starts_before(source, n)[k] <= n,
        starts_before(source, n).len() <= n + 1,
    decreases n,
{
    if n > 0 {
        lemma_starts_before(source, n - 1);
    }
}

proof fn lemma_before_cr(source: Seq<u8>, start: int, end: int)
    requires
        start <= end,
    ensures
        start <= before_cr(source, start, end) <= end,
    decreases end - start,
{
    if end > start && source[end - 1] == 0x0d {
        lemma_before_cr(source, start, end - 1);
    }
}

/// The ends of lines lie inside the source, after their starts.
proof fn lemma_line_end(source: Seq<u8>, starts: Seq<int>, index: int)
    requires
        starts_fit(source, starts),
        0 <= index < starts.len(),
    ensures
        starts[index] <= line_end_of(source, starts, index) <= source.len(),
{
    let start = starts[index];
    let end = if index + 1 < starts.len() {
        starts[index + 1]
    } else {
        source.len() as int
    };
    assert(start <= end);
    lemma_before_cr(
        source,
        start,
        if end > start && source[end - 1] == 0x0a {
            end - 1
        } else {
            end
        },
    );
}

pub open spec fn ints(v: Seq<usize>) -> Seq<int> {
    v.map_values(|x: usize| x as int)
}

pub fn build_line_starts(source: &Vec<u8>) -> (r: Vec<usize>)
    ensures
        ints(r@) == line_starts_of(source@),
        starts_fit(source@, ints(r@)),
{
    let mut starts: Vec<usize> = Vec::new();
    starts.push(0);
    assert(ints(starts@) =~= starts_before(source@, 0));
    let mut i: usize = 0;
    while i < source.len()
        invariant
            i <= source@.len(),
            ints(starts@) == starts_before(source@, i as int),
        decreases source@.len() - i,
    {
        let ghost before = ints(starts@);
        if source[i] == 0x0a && i + 1 < source.len() {
            starts.push(i + 1);
            assert(ints(starts@) =~= before + seq![i + 1]);
        } else {
            assert(before + Seq::<int>::empty() =~= before);
        }
        i += 1;
    }
    proof {
        lemma_starts_before(source@, source@.len() as int);
    }
    starts
}

fn line_end(source: &Vec<u8>, starts: &Vec<usize>, index: usize) -> (r: usize)
    requires
        starts_fit(source@, ints(starts@)),
        index < starts@.len(),
    ensures
        r == line_end_of(source@, ints(starts@), index as int),
        starts@[index as int] <= r <= source@.len(),
{
    let ghost m = ints(starts@);
    proof {
        lemma_line_end(source@, m, index as int);
        assert(m[index as int] == starts@[index as int]);
    }
    let start: usize = starts[index];
    let mut end: usize = if index < starts.len() - 1 {
        assert(m[index + 1] == starts@[index + 1]);
        starts[index + 1]
    } else {
        source.len()
    };
    assert(0 <= m[index as int] <= source@.len());
    if end > start && source[end - 1] == 0x0a {
        end -= 1;
    }
    while end > start && source[end - 1] == 0x0d
        invariant
            start <= end <= source@.len(),
            before_cr(source@, start as int, end as int) == line_end_of(
                source@,
                m,
                index as int,
            ),
        decreases end,
    {
        end -= 1;
    }
    end
}

// ---------------------------------------------------------------------------
// Captures
// ---------------------------------------------------------------------------

/// A captured node: the capture's index in its query, and where the node lies.
#[derive(Clone, Copy, Debug, PartialEq, Eq, Structural)]
pub struct Capture {
    pub index: u32,
    pub start_byte: usize,
    pub end_byte: usize,
    pub start_row: usize,
    pub end_row: usize,
}

/// A match: the pattern's index in its query, and the captured nodes.
#[derive(Debug)]
pub struct FoundMatch {
    pub pattern: usize,
    pub captures: Vec<Capture>,
}

/// An argument of a predicate.
#[derive(Debug)]
pub enum PredicateArg {
    Capture(u32),
    Text(String),
}

/// A predicate that the query leaves to its user.
#[derive(Debug)]
pub struct Predicate {
    pub operator: String,
    pub args: Vec<PredicateArg>,
}

/// What a match says.
pub ghost struct MatchModel {
    pub pattern: usize,
    pub captures: Seq<Capture>,
}

impl View for FoundMatch {
    type V = MatchModel;

    open spec fn view(&self) -> MatchModel {
        MatchModel { pattern: self.pattern, captures: self.captures@ }
    }
}

pub open spec fn match_models(v: Seq<FoundMatch>) -> Seq<MatchModel> {
    v.map_values(|m: FoundMatch| m@)
}

pub ghost enum ArgModel {
    Capture(u32),
    Text(Seq<char>),
}

impl View for PredicateArg {
    type V = ArgModel;

    open spec fn view(&self) -> ArgModel {
        match *self {
            PredicateArg::Capture(id) => ArgModel::Capture(id),
            PredicateArg::Text(t) => ArgModel::Text(t@),
        }
    }
}

/// What a predicate says.
pub ghost struct PredicateModel {
    pub operator: Seq<char>,
    pub args: Seq<ArgModel>,
}

impl View for Predicate {
    type V = PredicateModel;

    open spec fn view(&self) -> PredicateModel {
        PredicateModel {
            operator: self.operator@,
            args: self.args@.map_values(|a: PredicateArg| a@),
        }
    }
}

pub open spec fn predicate_models(v: Seq<Predicate>) -> Seq<PredicateModel> {
    v.map_values(|p: Predicate| p@)
}

/// The predicates of each pattern.
pub open spec fn pattern_models(v: Seq<Vec<Predicate>>) -> Seq<Seq<PredicateModel>> {
    v.map_values(|p: Vec<Predicate>| predicate_models(p@))
}

/// The span that a node has on a line, where it has one.
pub open spec fn span_on_line(
    source: Seq<u8>,
    starts: Seq<int>,
    node: Capture,
    token: SyntaxToken,
    row: int,
) -> Option<HighlightSpan> {
    let line_start = starts[row];
    let line_stop = line_end_of(source, starts, row);
    let start = if node.start_byte >= line_start {
        node.start_byte as int
    } else {
        line_start
    };
    let end = if node.end_byte <= line_stop {
        node.end_byte as int
    } else {
        line_stop
    };
    if end > start {
        Some(
            HighlightSpan {
                start_byte: (start - line_start) as usize,
                end_byte: (end - line_start) as usize,
                token,
            },
        )
    } else {
        None
    }
}

/// The lines with one more captured node, as far as it lies on the rows from
/// `top` to before `bottom`.
pub open spec fn with_capture(
    lines: Seq<Seq<HighlightSpan>>,
    source: Seq<u8>,
    starts: Seq<int>,
    node: Capture,
    token: SyntaxToken,
    top: int,
    bottom: int,
) -> Seq<Seq<HighlightSpan>> {
    Seq::new(
        lines.len(),
        |row: int|
            if node.start_byte < node.end_byte && top <= row < bottom && node.start_row <= row
                <= node.end_row {
                match span_on_line(source, starts, node, token, row) {
                    Some(span) => lines[row].push(span),
                    None => lines[row],
                }
            } else {
                lines[row]
            },
    )
}

pub open spec fn span_lines(v: Seq<Vec<HighlightSpan>>) -> Seq<Seq<HighlightSpan>> {
    v.map_values(|x: Vec<HighlightSpan>| x@)
}

pub fn append_capture_span(
    lines: &mut Vec<Vec<HighlightSpan>>,
    starts: &Vec<usize>,
    source: &Vec<u8>,
    node: Capture,
    token: SyntaxToken,
    top: usize,
    bottom: usize,
)
    requires
        starts_fit(source@, ints(starts@)),
        old(lines)@.len() == starts@.len(),
        top <= bottom <= starts@.len(),
    ensures
        span_lines(final(lines)@) == with_capture(
            span_lines(old(lines)@),
            source@,
            ints(starts@),
            node,
            token,
            top as int,
            bottom as int,
        ),
{
    let ghost before = span_lines(lines@);
    let ghost m = ints(starts@);
    let ghost goal = with_capture(before, source@, m, node, token, top as int, bottom as int);
    if node.end_byte <= node.start_byte || bottom == 0 {
        assert(before =~= goal);
        return;
    }
    let first: usize = if node.start_row >= top {
        node.start_row
    } else {
        top
    };
    let last: usize = if node.end_row <= bottom - 1 {
        node.end_row
    } else {
        bottom - 1
    };
    let mut row: usize = first;
    assert(lines@.len() == before.len());
    while row <= last
        invariant
            starts_fit(source@, m),
            m == ints(starts@),
            top <= bottom <= starts@.len(),
            0 < bottom,
            before.len() == starts@.len() == lines@.len(),
            node.start_byte < node.end_byte,
            first == if node.start_row >= top {
                node.start_row
            } else {
                top
            },
            last == if node.end_row <= bottom - 1 {
                node.end_row
            } else {
                (bottom - 1) as usize
            },
            first <= row,
            row <= last + 1 || row == first,
            goal == with_capture(before, source@, m, node, token, top as int, bottom as int),
            forall|k: int|
                0 <= k < lines@.len() ==> (#[trigger] lines@[k])@ == (if first <= k < row {
                    goal[k]
                } else {
                    before[k]
                }),
        decreases last + 1 - row,
    {
        let stop: usize = line_end(source, starts, row);
        let line_start: usize = starts[row];
        assert(m[row as int] == line_start);
        let start: usize = if node.start_byte >= line_start {
            node.start_byte
        } else {
            line_start
        };
        let end: usize = if node.end_byte <= stop {
            node.end_byte
        } else {
            stop
        };
        let ghost lines0 = lines@;
        assert(lines@[row as int]@ == before[row as int]);
        if end > start {
            let span = HighlightSpan {
                start_byte: start - line_start,
                end_byte: end - line_start,
                token,
            };
            lines[row].push(span);
            assert(lines@[row as int]@ =~= before[row as int].push(span));
        }
        assert(lines@[row as int]@ == goal[row as int]);
        row += 1;
    }
    assert(span_lines(lines@) =~= goal);
}

/// The token that a capture stands for, by its name.
pub open spec fn capture_token(name: Seq<char>) -> Option<SyntaxToken> {
    if has_prefix(name, "keyword"@) {
        Some(SyntaxToken::Keyword)
    } else if has_prefix(name, "string"@) || name == "character"@ {
        Some(SyntaxToken::String)
    } else if has_prefix(name, "comment"@) {
        Some(SyntaxToken::Comment)
    } else if has_prefix(name, "type"@) || name == "constructor"@ {
        Some(SyntaxToken::Type)
    } else if has_prefix(name, "function"@) || has_prefix(name, "method"@) {
        Some(SyntaxToken::Function)
    } else if has_prefix(name, "number"@) || has_prefix(name, "constant.numeric"@) || name
        == "float"@ || name == "integer"@ {
        Some(SyntaxToken::Number)
    } else if has_prefix(name, "constant"@) || name == "boolean"@ || name == "null"@ {
        Some(SyntaxToken::Keyword)
    } else if has_prefix(name, "operator"@) || has_prefix(name, "punctuation"@) {
        Some(SyntaxToken::Operator)
    } else if has_prefix(name, "property"@) || has_prefix(name, "attribute"@) || name == "tag"@ {
        Some(SyntaxToken::Function)
    } else if has_prefix(name, "escape"@) {
        Some(SyntaxToken::String)
    } else {
        None
    }
}

pub fn token_for_capture(name: &str) -> (r: Option<SyntaxToken>)
    ensures
        r == capture_token(name@),
{
    if text_starts_with(name, "keyword") {
        Some(SyntaxToken::Keyword)
    } else if text_starts_with(name, "string") || same_text(name, "character") {
        Some(SyntaxToken::String)
    } else if text_starts_with(name, "comment") {
        Some(SyntaxToken::Comment)
    } else if text_starts_with(name, "type") || same_text(name, "constructor") {
        Some(SyntaxToken::Type)
    } else if text_starts_with(name, "function") || text_starts_with(name, "method") {
        Some(SyntaxToken::Function)
    } else if text_starts_with(name, "number") || text_starts_with(name, "constant.numeric")
        || same_text(name, "float") || same_text(name, "integer") {
        Some(SyntaxToken::Number)
    } else if text_starts_with(name, "constant") || same_text(name, "boolean") || same_text(
        name,
        "null",
    ) {
        Some(SyntaxToken::Keyword)
    } else if text_starts_with(name, "operator") || text_starts_with(name, "punctuation") {
        Some(SyntaxToken::Operator)
    } else if text_starts_with(name, "property") || text_starts_with(name, "attribute")
        || same_text(name, "tag") {
        Some(SyntaxToken::Function)
    } else if text_starts_with(name, "escape") {
        Some(SyntaxToken::String)
    } else {
        None
    }
}

// ---------------------------------------------------------------------------
// Patterns
// ---------------------------------------------------------------------------

pub open spec fn upper(b: u8) -> bool {
    0x41 <= b <= 0x5a
}

pub open spec fn lower(b: u8) -> bool {
    0x61 <= b <= 0x7a
}

pub open spec fn numeric(b: u8) -> bool {
    0x30 <= b <= 0x39
}

/// Upper case letters, digits and underscores.
pub open spec fn constant_byte(b: u8) -> bool {
    upper(b) || numeric(b) || b == 0x5f
}

/// Letters, digits and underscores.
pub open spec fn word_byte(b: u8) -> bool {
    upper(b) || lower(b) || numeric(b) || b == 0x5f
}

/// All bytes after the first are upper case letters, digits or underscores.
pub open spec fn constant_tail(value: Seq<u8>) -> bool {
    forall|k: int| 1 <= k < value.len() ==> constant_byte(#[trigger] value[k])
}

/// The index of the first bar, or the length.
pub open spec fn bar(s: Seq<char>) -> nat
    decreases s.len(),
{
    if s.len() == 0 || s[0] == '|' {
        0
    } else {
        1 + bar(s.skip(1))
    }
}

/// Whether a value is one of the alternatives between bars.
pub open spec fn one_of(alternatives: Seq<char>, value: Seq<u8>) -> bool
    decreases alternatives.len(),
{
    let n = bar(alternatives) as int;
    encode_utf8(alternatives.take(n)) == value || (0 <= n < alternatives.len() && one_of(
        alternatives.skip(n + 1),
        value,
    ))
}

/// Whether a value matches a pattern, as far as patterns are understood: a few
/// character classes, alternatives, and plain prefixes.  Others match nothing.
pub open spec fn pattern_matches(value: Seq<u8>, pattern: Seq<char>) -> bool {
    if pattern == "^[A-Z]"@ {
        value.len() > 0 && upper(value[0])
    } else if pattern == "^[A-Z_][a-zA-Z0-9_]*"@ {
        value.len() > 0 && (upper(value[0]) || value[0] == 0x5f) && forall|k: int|
            1 <= k < value.len() ==> word_byte(#[trigger] value[k])
    } else if pattern == "^[A-Z][A-Z_0-9]+$"@ {
        value.len() >= 2 && upper(value[0]) && constant_tail(value)
    } else if pattern == "^[A-Z][A-Z\\d_]+$"@ || pattern == "^[A-Z][A-Z\\d_]*$"@ || pattern
        == "^[A-Z][A-Z_]*$"@ {
        value.len() > 0 && upper(value[0]) && constant_tail(value)
    } else if pattern == "^[a-z][^.]*$"@ {
        value.len() > 0 && lower(value[0]) && !value.contains(0x2e)
    } else if has_prefix(pattern, seq!['^', '(']) && has_suffix(
        pattern.skip(2),
        seq![')', '$'],
    ) {
        one_of(pattern.subrange(2, pattern.len() - 2), value)
    } else if has_prefix(pattern, seq!['^']) {
        has_prefix(value, encode_utf8(pattern.skip(1)))
    } else {
        false
    }
}

fn constant_rest(value: &[u8]) -> (r: bool)
    ensures
        r == constant_tail(value@),
{
    let mut i: usize = 1;
    while i < value.len()
        invariant
            1 <= i,
            forall|k: int| 1 <= k < i && k < value@.len() ==> constant_byte(#[trigger] value@[k]),
        decreases value@.len() - i,
    {
        let b: u8 = value[i];
        if !((0x41 <= b && b <= 0x5a) || (0x30 <= b && b <= 0x39) || b == 0x5f) {
            assert(!constant_byte(value@[i as int]));
            return false;
        }
        i += 1;
    }
    true
}

fn word_rest(value: &[u8]) -> (r: bool)
    ensures
        r == (forall|k: int| 1 <= k < value@.len() ==> word_byte(#[trigger] value@[k])),
{
    let mut i: usize = 1;
    while i < value.len()
        invariant
            1 <= i,
            forall|k: int| 1 <= k < i && k < value@.len() ==> word_byte(#[trigger] value@[k]),
        decreases value@.len() - i,
    {
        let b: u8 = value[i];
        if !((0x41 <= b && b <= 0x5a) || (0x61 <= b && b <= 0x7a) || (0x30 <= b && b <= 0x39) || b
            == 0x5f) {
            assert(!word_byte(value@[i as int]));
            return false;
        }
        i += 1;
    }
    true
}

fn holds_dot(value: &[u8]) -> (r: bool)
    ensures
        r == value@.contains(0x2e),
{
    let mut i: usize = 0;
    while i < value.len()
        invariant
            i <= value@.len(),
            forall|k: int| 0 <= k < i ==> value@[k] != 0x2e,
        decreases value@.len() - i,
    {
        if value[i] == 0x2e {
            assert(value@[i as int] == 0x2e);
            return true;
        }
        i += 1;
    }
    false
}

fn matches_alternative(s: &Vec<char>, from: usize, to: usize, value: &[u8]) -> (r: bool)
    requires
        from <= to <= s@.len(),
    ensures
        r == one_of(s@.subrange(from as int, to as int), value@),
{
    let mut pos: usize = from;
    loop
        invariant
            from <= pos <= to <= s@.len(),
            one_of(s@.subrange(from as int, to as int), value@) == one_of(
                s@.subrange(pos as int, to as int),
                value@,
            ),
        decreases to - pos,
    {
        let ghost t = s@.subrange(pos as int, to as int);
        let mut end: usize = pos;
        while end < to && s[end] != '|'
            invariant
                pos <= end <= to <= s@.len(),
                bar(s@.subrange(pos as int, to as int)) == (end - pos) + bar(
                    s@.subrange(end as int, to as int),
                ),
            decreases to - end,
        {
            assert(s@.subrange(end as int, to as int).skip(1) =~= s@.subrange(end + 1, to as int));
            end += 1;
        }
        let word = string_of(slice_subrange(s.as_slice(), pos, end));
        assert(word@ =~= t.take(end - pos));
        assert(bar(t) == end - pos);
        if same_bytes(word.as_str().as_bytes(), value) {
            return true;
        }
        if end >= to {
            return false;
        }
        assert(t.skip(end - pos + 1) =~= s@.subrange(end + 1, to as int));
        pos = end + 1;
    }
}

pub fn match_supported_pattern(value: &[u8], pattern: &str) -> (r: bool)
    ensures
        r == pattern_matches(value@, pattern@),
{
    let first: u8 = if value.len() > 0 {
        value[0]
    } else {
        0
    };
    let is_upper: bool = 0x41 <= first && first <= 0x5a;
    if same_text(pattern, "^[A-Z]") {
        return is_upper;
    }
    if same_text(pattern, "^[A-Z_][a-zA-Z0-9_]*") {
        return (is_upper || first == 0x5f) && word_rest(value);
    }
    if same_text(pattern, "^[A-Z][A-Z_0-9]+$") {
        return value.len() >= 2 && is_upper && constant_rest(value);
    }
    if same_text(pattern, "^[A-Z][A-Z\\d_]+$") || same_text(pattern, "^[A-Z][A-Z\\d_]*$")
        || same_text(pattern, "^[A-Z][A-Z_]*$") {
        return is_upper && constant_rest(value);
    }
    if same_text(pattern, "^[a-z][^.]*$") {
        return 0x61 <= first && first <= 0x7a && !holds_dot(value);
    }
    let s = chars_of(pattern);
    let n: usize = s.len();
    proof {
        let p = pattern@;
        if n >= 2 {
            assert(p.take(2) =~= seq![p[0], p[1]]);
            assert(has_prefix(p, seq!['^', '(']) == (p[0] == '^' && p[1] == '(')) by {
                if p[0] == '^' && p[1] == '(' {
                    assert(p.take(2) =~= seq!['^', '(']);
                } else {
                    assert(p.take(2)[0] == p[0] && p.take(2)[1] == p[1]);
                }
            }
        }
        if n >= 4 {
            let t = p.skip(2);
            let u = t.skip(t.len() - 2);
            assert(has_suffix(t, seq![')', '$']) == (p[n - 2] == ')' && p[n - 1] == '$')) by {
                assert(u[0] == p[n - 2] && u[1] == p[n - 1]);
                if p[n - 2] == ')' && p[n - 1] == '$' {
                    assert(u =~= seq![')', '$']);
                }
            }
        }
        if n >= 1 {
            assert(has_prefix(p, seq!['^']) == (p[0] == '^')) by {
                assert(p.take(1)[0] == p[0]);
                if p[0] == '^' {
                    assert(p.take(1) =~= seq!['^']);
                }
            }
        }
    }
    if n >= 4 && s[0] == '^' && s[1] == '(' && s[n - 2] == ')' && s[n - 1] == '$' {
        return matches_alternative(&s, 2, n - 2, value);
    }
    if n >= 1 && s[0] == '^' {
        let rest = string_of(slice_subrange(s.as_slice(), 1, n));
        assert(rest@ =~= pattern@.skip(1));
        return bytes_start_with(value, rest.as_str().as_bytes());
    }
    false
}

/// Whether a predicate passes: one that matches a capture against a pattern is
/// understood, and others are left alone.
pub open spec fn predicate_passes(
    p: PredicateModel,
    captures: Seq<Capture>,
    source: Seq<u8>,
) -> bool {
    if p.operator != "lua-match?"@ {
        true
    } else if p.args.len() == 2 && p.args[0] is Capture && p.args[1] is Text {
        match capture_with(captures, p.args[0]->Capture_0) {
            Some(c) => c.start_byte <= c.end_byte <= source.len() && pattern_matches(
                source.subrange(c.start_byte as int, c.end_byte as int),
                p.args[1]->Text_0,
            ),
            None => false,
        }
    } else {
        false
    }
}

/// The first capture with an index.
pub open spec fn capture_with(captures: Seq<Capture>, index: u32) -> Option<Capture>
    decreases captures.len(),
{
    if captures.len() == 0 {
        None
    } else if captures[0].index == index {
        Some(captures[0])
    } else {
        capture_with(captures.skip(1), index)
    }
}

/// Whether all predicates of a pattern pass.  Directives other than the one
/// that is understood do not filter captures.
pub open spec fn predicates_pass(
    predicates: Seq<PredicateModel>,
    captures: Seq<Capture>,
    source: Seq<u8>,
) -> bool {
    forall|k: int|
        0 <= k < predicates.len() ==> predicate_passes(#[trigger] predicates[k], captures, source)
}

fn find_capture(captures: &Vec<Capture>, index: u32) -> (r: Option<Capture>)
    ensures
        r == capture_with(captures@, index),
{
    let mut i: usize = 0;
    assert(captures@.skip(0) =~= captures@);
    while i < captures.len()
        invariant
            i <= captures@.len(),
            capture_with(captures@, index) == capture_with(captures@.skip(i as int), index),
        decreases captures@.len() - i,
    {
        if captures[i].index == index {
            return Some(captures[i]);
        }
        assert(captures@.skip(i as int).skip(1) =~= captures@.skip(i + 1));
        i += 1;
    }
    None
}

fn one_predicate_passes(p: &Predicate, captures: &Vec<Capture>, source: &Vec<u8>) -> (r: bool)
    ensures
        r == predicate_passes(p@, captures@, source@),
{
    assert(p@.args.len() == p.args@.len());
    assert(p@.args.len() >= 1 ==> p@.args[0] == p.args@[0]@);
    assert(p@.args.len() >= 2 ==> p@.args[1] == p.args@[1]@);
    if !same_text(p.operator.as_str(), "lua-match?") {
        return true;
    }
    if p.args.len() != 2 {
        return false;
    }
    match &p.args[0] {
        PredicateArg::Capture(id) => match &p.args[1] {
            PredicateArg::Text(pattern) => match find_capture(captures, *id) {
                Some(c) => {
                    if c.start_byte <= c.end_byte && c.end_byte <= source.len() {
                        match_supported_pattern(
                            slice_subrange(source.as_slice(), c.start_byte, c.end_byte),
                            pattern.as_str(),
                        )
                    } else {
                        false
                    }
                },
                None => false,
            },
            _ => false,
        },
        _ => false,
    }
}

pub fn general_predicates_pass(
    predicates: &Vec<Predicate>,
    captures: &Vec<Capture>,
    source: &Vec<u8>,
) -> (r: bool)
    ensures
        r == predicates_pass(predicate_models(predicates@), captures@, source@),
{
    let ghost models = predicate_models(predicates@);
    let mut i: usize = 0;
    while i < predicates.len()
        invariant
            i <= predicates@.len(),
            models == predicate_models(predicates@),
            forall|k: int|
                0 <= k < i ==> predicate_passes(#[trigger] models[k], captures@, source@),
        decreases predicates@.len() - i,
    {
        assert(models[i as int] == predicates@[i as int]@);
        if !one_predicate_passes(&predicates[i], captures, source) {
            assert(!predicate_passes(models[i as int], captures@, source@));
            return false;
        }
        i += 1;
    }
    true
}

// ---------------------------------------------------------------------------
// The syntax tree
// ---------------------------------------------------------------------------

/// `tree_sitter::Language`: a grammar.
#[verifier::external_type_specification]
#[verifier::external_body]
pub struct ExLanguage(tree_sitter::Language);

/// `tree_sitter::Tree`: the syntax tree of a source.
#[verifier::external_type_specification]
#[verifier::external_body]
pub struct ExTree(tree_sitter::Tree);

/// `tree_sitter::Query`: a compiled query.
#[verifier::external_type_specification]
#[verifier::external_body]
pub struct ExQuery(tree_sitter::Query);

/// What `tree_sitter::Query::new` makes of a query for a language; `None` where
/// it finds fault with it.
pub uninterp spec fn compiled_query(language: tree_sitter::Language, source: Seq<char>) -> Option<
    tree_sitter::Query,
>;

/// `tree_sitter::Query::new` compiles a query, or finds fault with it.
#[verifier::external_body]
fn new_query(language: &tree_sitter::Language, source: &str) -> (r: Option<tree_sitter::Query>)
    ensures
        r == compiled_query(*language, source@),
{
    tree_sitter::Query::new(language, source).ok()
}

/// The names of the captures of a query, by index.
pub uninterp spec fn query_names(query: tree_sitter::Query) -> Seq<Seq<char>>;

/// `tree_sitter::Query::capture_names`: the names of the captures, by index.
#[verifier::external_body]
fn capture_names(query: &tree_sitter::Query) -> (r: Vec<String>)
    ensures
        texts(r@) == query_names(*query),
{
    query.capture_names().iter().map(|name| name.to_string()).collect()
}

/// The predicates that a query leaves to its user, for each of its patterns.
pub uninterp spec fn query_predicates(query: tree_sitter::Query) -> Seq<Seq<PredicateModel>>;

/// `tree_sitter::Query::general_predicates`, for each pattern in turn: the
/// predicates that the query leaves to its user.
#[verifier::external_body]
fn all_predicates(query: &tree_sitter::Query) -> (r: Vec<Vec<Predicate>>)
    ensures
        pattern_models(r@) == query_predicates(*query),
{
    let convert = |p: &tree_sitter::QueryPredicate| Predicate {
        operator: p.operator.to_string(),
        args: p.args.iter().map(|arg| match arg {
            tree_sitter::QueryPredicateArg::Capture(id) => PredicateArg::Capture(*id),
            tree_sitter::QueryPredicateArg::String(s) => PredicateArg::Text(s.to_string()),
        }).collect(),
    };
    let patterns = 0..query.pattern_count();
    patterns.map(|i| query.general_predicates(i).iter().map(convert).collect()).collect()
}

/// The syntax tree of a source in a language; `None` where the version of the
/// language is not supported.
pub uninterp spec fn syntax_tree(language: tree_sitter::Language, source: Seq<u8>) -> Option<
    tree_sitter::Tree,
>;

/// `tree_sitter::Parser::parse` with a new parser for a language: the syntax
/// tree of a source.
#[verifier::external_body]
fn parse_source(language: &tree_sitter::Language, source: &Vec<u8>) -> (r: Option<
    tree_sitter::Tree,
>)
    ensures
        r == syntax_tree(*language, source@),
{
    let mut parser = tree_sitter::Parser::new();
    parser.set_language(language).ok()?;
    parser.parse(source, None)
}

/// The matches of a query over the nodes of a tree that touch some rows, in the
/// order in which they are found, and whether too many were in progress.
pub uninterp spec fn query_matches(
    query: tree_sitter::Query,
    tree: tree_sitter::Tree,
    source: Seq<u8>,
    top: nat,
    bottom: nat,
) -> (Seq<MatchModel>, bool);

/// Whether a tree is that of a source, in some language.
pub open spec fn is_tree_of(tree: tree_sitter::Tree, source: Seq<u8>) -> bool {
    exists|language: tree_sitter::Language| #[trigger]
        syntax_tree(language, source) == Some(tree)
}

/// `tree_sitter::QueryCursor::matches`, over the nodes that touch the rows
/// from `top` to before `bottom`: the matches in the order in which they are
/// found, and whether there were too many in progress.  The tree has to be
/// that of the source: the texts of its nodes are taken from there.
#[verifier::external_body]
fn run_query(
    query: &tree_sitter::Query,
    tree: &tree_sitter::Tree,
    source: &Vec<u8>,
    top: usize,
    bottom: usize,
) -> (r: (Vec<FoundMatch>, bool))
    requires
        is_tree_of(*tree, source@),
    ensures
        (match_models(r.0@), r.1) == query_matches(
            *query,
            *tree,
            source@,
            top as nat,
            bottom as nat,
        ),
{
    let mut cursor = tree_sitter::QueryCursor::new();
    cursor.set_point_range(tree_sitter::Point::new(top, 0)..tree_sitter::Point::new(bottom, 0));
    let mut found = Vec::new();
    let convert = |c: &tree_sitter::QueryCapture| Capture {
        index: c.index, start_byte: c.node.start_byte(), end_byte: c.node.end_byte(),
        start_row: c.node.start_position().row, end_row: c.node.end_position().row,
    };
    let mut matches = cursor.matches(query, tree.root_node(), source.as_slice());
    while let Some(m) = matches.next() {
        let captures = m.captures().iter().map(convert).collect();
        found.push(FoundMatch { pattern: m.pattern_index, captures });
    }
    (found, cursor.did_exceed_match_limit())
}

/// A compiled query with what is read of it for every match.
pub struct CompiledQuery {
    pub query: tree_sitter::Query,
    pub names: Vec<String>,
    pub predicates: Vec<Vec<Predicate>>,
}

impl CompiledQuery {
    /// The lists are those of the query.
    pub open spec fn wf(&self) -> bool {
        &&& texts(self.names@) == query_names(self.query)
        &&& pattern_models(self.predicates@) == query_predicates(self.query)
    }
}

/// Compile a query.
pub fn compile(language: &tree_sitter::Language, query_source: &str) -> (r: Result<
    Arc<CompiledQuery>,
    Error,
>)
    ensures
        match r {
            Ok(q) => q.wf() && compiled_query(*language, query_source@) == Some(q.query),
            Err(e) => compiled_query(*language, query_source@) is None && e
                == Error::SyntaxUnavailable,
        },
{
    match new_query(language, query_source) {
        Some(query) => {
            let names = capture_names(&query);
            let predicates = all_predicates(&query);
            Ok(Arc::new(CompiledQuery { query, names, predicates }))
        },
        None => Err(Error::SyntaxUnavailable),
    }
}

// ---------------------------------------------------------------------------
// Matches become spans
// ---------------------------------------------------------------------------

/// The lines with the captures of a match before the index `n`.
pub open spec fn with_captures(
    lines: Seq<Seq<HighlightSpan>>,
    source: Seq<u8>,
    names: Seq<Seq<char>>,
    captures: Seq<Capture>,
    top: int,
    bottom: int,
    n: int,
) -> Seq<Seq<HighlightSpan>>
    decreases n,
{
    if n <= 0 {
        lines
    } else {
        let before = with_captures(lines, source, names, captures, top, bottom, n - 1);
        let c = captures[n - 1];
        if c.index < names.len() && capture_token(names[c.index as int]) is Some {
            with_capture(
                before,
                source,
                line_starts_of(source),
                c,
                capture_token(names[c.index as int])->0,
                top,
                bottom,
            )
        } else {
            before
        }
    }
}

/// The lines with the matches before the index `n`, those left out whose
/// predicates do not pass.
pub open spec fn with_matches(
    lines: Seq<Seq<HighlightSpan>>,
    source: Seq<u8>,
    names: Seq<Seq<char>>,
    predicates: Seq<Seq<PredicateModel>>,
    found: Seq<MatchModel>,
    top: int,
    bottom: int,
    n: int,
) -> Seq<Seq<HighlightSpan>>
    decreases n,
{
    if n <= 0 {
        lines
    } else {
        let before = with_matches(lines, source, names, predicates, found, top, bottom, n - 1);
        let m = found[n - 1];
        if m.pattern < predicates.len() && !predicates_pass(
            predicates[m.pattern as int],
            m.captures,
            source,
        ) {
            before
        } else {
            with_captures(
                before,
                source,
                names,
                m.captures,
                top,
                bottom,
                m.captures.len() as int,
            )
        }
    }
}

/// Whether a span comes before another: by its start, then by its end.
pub open spec fn span_before(a: HighlightSpan, b: HighlightSpan) -> bool {
    a.start_byte < b.start_byte || (a.start_byte == b.start_byte && a.end_byte < b.end_byte)
}

/// Sorted spans with one more: after those that it does not come before.
pub open spec fn inserted(v: Seq<HighlightSpan>, x: HighlightSpan) -> Seq<HighlightSpan>
    decreases v.len(),
{
    if v.len() > 0 && span_before(x, v.last()) {
        inserted(v.drop_last(), x).push(v.last())
    } else {
        v.push(x)
    }
}

/// Spans sorted by where they lie; those that lie alike keep their order.
pub open spec fn sorted(v: Seq<HighlightSpan>) -> Seq<HighlightSpan>
    decreases v.len(),
{
    if v.len() == 0 {
        seq![]
    } else {
        inserted(sorted(v.drop_last()), v.last())
    }
}

/// Whether spans stand in order.
pub open spec fn in_order(v: Seq<HighlightSpan>) -> bool {
    forall|i: int, j: int|
        0 <= i < j < v.len() ==> !span_before(#[trigger] v[j], #[trigger] v[i])
}

/// Whether a span comes before none of some others.
pub open spec fn before_none(y: HighlightSpan, v: Seq<HighlightSpan>) -> bool {
    forall|i: int| 0 <= i < v.len() ==> !span_before(y, #[trigger] v[i])
}

proof fn lemma_inserted(v: Seq<HighlightSpan>, x: HighlightSpan)
    requires
        in_order(v),
    ensures
        in_order(inserted(v, x)),
        inserted(v, x).len() == v.len() + 1,
        inserted(v, x).to_multiset() =~= v.to_multiset().insert(x),
        forall|y: HighlightSpan|
            before_none(y, v) && !span_before(y, x) ==> #[trigger] before_none(y, inserted(v, x)),
    decreases v.len(),
{
    broadcast use vstd::seq_lib::group_to_multiset_ensures;

    let r = inserted(v, x);
    if v.len() > 0 && span_before(x, v.last()) {
        let t = v.drop_last();
        let last = v.last();
        assert forall|i: int, j: int| 0 <= i < j < t.len() implies !span_before(
            #[trigger] t[j],
            #[trigger] t[i],
        ) by {
            assert(!span_before(v[j], v[i]));
        }
        lemma_inserted(t, x);
        let u = inserted(t, x);
        assert forall|i: int| 0 <= i < t.len() implies !span_before(last, #[trigger] t[i]) by {
            assert(!span_before(v[v.len() - 1], v[i]));
        }
        assert(v =~= t.push(last));
        assert(before_none(last, t));
        assert(before_none(last, u));
        assert forall|i: int, j: int| 0 <= i < j < r.len() implies !span_before(
            #[trigger] r[j],
            #[trigger] r[i],
        ) by {
            if j == r.len() - 1 {
                assert(r[i] == u[i]);
                assert(!span_before(last, u[i]));
            } else {
                assert(r[i] == u[i] && r[j] == u[j]);
            }
        }
        assert forall|y: HighlightSpan|
            before_none(y, v) && !span_before(y, x) implies #[trigger] before_none(y, r) by {
            assert(before_none(y, t)) by {
                assert forall|i: int| 0 <= i < t.len() implies !span_before(
                    y,
                    #[trigger] t[i],
                ) by {
                    assert(!span_before(y, v[i]));
                }
            }
            assert(before_none(y, u));
            assert(!span_before(y, v[v.len() - 1]));
            assert forall|i: int| 0 <= i < r.len() implies !span_before(y, #[trigger] r[i]) by {
                if i < r.len() - 1 {
                    assert(r[i] == u[i]);
                }
            }
        }
        assert(r.to_multiset() =~= v.to_multiset().insert(x));
    } else {
        assert forall|i: int, j: int| 0 <= i < j < r.len() implies !span_before(
            #[trigger] r[j],
            #[trigger] r[i],
        ) by {
            if j == v.len() {
                if i < v.len() - 1 {
                    assert(!span_before(v[v.len() - 1], v[i]));
                }
            } else {
                assert(r[i] == v[i] && r[j] == v[j]);
            }
        }
        assert(r.to_multiset() =~= v.to_multiset().insert(x));
    }
}

/// Sorting puts spans in order, and neither adds nor loses any.
pub proof fn law_sorted(v: Seq<HighlightSpan>)
    ensures
        in_order(sorted(v)),
        sorted(v).to_multiset() =~= v.to_multiset(),
    decreases v.len(),
{
    broadcast use vstd::seq_lib::group_to_multiset_ensures;

    if v.len() > 0 {
        law_sorted(v.drop_last());
        lemma_inserted(sorted(v.drop_last()), v.last());
        assert(v =~= v.drop_last().push(v.last()));
    }
}

fn insert_span(v: &mut Vec<HighlightSpan>, x: HighlightSpan)
    ensures
        final(v)@ == inserted(old(v)@, x),
{
    let ghost before = v@;
    let mut i: usize = v.len();
    assert(before.take(i as int) =~= before);
    assert(inserted(before.take(i as int), x) + before.skip(i as int) =~= inserted(before, x));
    while i > 0 && (x.start_byte < v[i - 1].start_byte || (x.start_byte == v[i - 1].start_byte
        && x.end_byte < v[i - 1].end_byte))
        invariant
            v@ == before,
            i <= before.len(),
            inserted(before.take(i as int), x) + before.skip(i as int) == inserted(before, x),
        decreases i,
    {
        let ghost t = before.take(i as int);
        assert(t.drop_last() =~= before.take(i - 1));
        assert(t.last() == before[i - 1]);
        let ghost u = inserted(before.take(i - 1), x);
        assert(u.push(before[i - 1]) + before.skip(i as int) =~= u + before.skip(i - 1));
        i -= 1;
    }
    v.insert(i, x);
    proof {
        let t = before.take(i as int);
        if i > 0 {
            assert(t.last() == before[i - 1]);
        }
        assert(inserted(t, x) == t.push(x));
        assert(v@ =~= t.push(x) + before.skip(i as int));
    }
}

fn sort_spans(v: &Vec<HighlightSpan>) -> (r: Vec<HighlightSpan>)
    ensures
        r@ == sorted(v@),
{
    let mut out: Vec<HighlightSpan> = Vec::new();
    let mut i: usize = 0;
    assert(v@.take(0) =~= Seq::<HighlightSpan>::empty());
    while i < v.len()
        invariant
            i <= v@.len(),
            out@ == sorted(v@.take(i as int)),
        decreases v@.len() - i,
    {
        assert(v@.take(i + 1).drop_last() =~= v@.take(i as int));
        assert(v@.take(i + 1).last() == v@[i as int]);
        insert_span(&mut out, v[i]);
        i += 1;
    }
    assert(v@.take(i as int) =~= v@);
    out
}

/// A highlighted side of a file.
pub struct SideHighlight {
    pub source: Vec<u8>,
    pub line_starts: Vec<usize>,
    pub spans_by_line: Vec<Vec<HighlightSpan>>,
    pub tree: tree_sitter::Tree,
    pub query: Arc<CompiledQuery>,
    pub highlighted_chunks: Vec<bool>,
    pub query_failed: bool,
}

/// How many chunks so many lines take.
pub open spec fn chunk_count(lines: int) -> int {
    (lines + CHUNK_LINES - 1) / (CHUNK_LINES as int)
}

/// What a highlight holds.
pub ghost struct HighlightModel {
    pub source: Seq<u8>,
    pub spans: Seq<Seq<HighlightSpan>>,
    pub chunks: Seq<bool>,
    pub failed: bool,
}

impl View for SideHighlight {
    type V = HighlightModel;

    open spec fn view(&self) -> HighlightModel {
        HighlightModel {
            source: self.source@,
            spans: span_lines(self.spans_by_line@),
            chunks: self.highlighted_chunks@,
            failed: self.query_failed,
        }
    }
}

/// The last line of a chunk, and one.
pub open spec fn chunk_bottom(chunk: int, lines: int) -> int {
    let end = chunk * CHUNK_LINES + CHUNK_LINES;
    if end <= lines {
        end
    } else {
        lines
    }
}

/// A highlight after the matches of a chunk: too many of them, and it has
/// failed; otherwise the spans of the chunk are sorted.
pub open spec fn chunk_done(
    h: HighlightModel,
    names: Seq<Seq<char>>,
    predicates: Seq<Seq<PredicateModel>>,
    chunk: int,
    found: Seq<MatchModel>,
    exceeded: bool,
) -> HighlightModel {
    let top = chunk * CHUNK_LINES;
    let bottom = chunk_bottom(chunk, h.spans.len() as int);
    let lines = with_matches(
        h.spans,
        h.source,
        names,
        predicates,
        found,
        top,
        bottom,
        found.len() as int,
    );
    if exceeded {
        HighlightModel { spans: lines, failed: true, ..h }
    } else {
        HighlightModel {
            spans: Seq::new(
                lines.len(),
                |row: int|
                    if top <= row < bottom {
                        sorted(lines[row])
                    } else {
                        lines[row]
                    },
            ),
            chunks: h.chunks.update(chunk, true),
            ..h
        }
    }
}

/// The text of a line of a source.
pub open spec fn source_line(source: Seq<u8>, number: int) -> Option<Seq<u8>> {
    let starts = line_starts_of(source);
    if 1 <= number <= starts.len() {
        Some(source.subrange(starts[number - 1], line_end_of(source, starts, number - 1)))
    } else {
        None
    }
}

proof fn lemma_with_captures_len(
    lines: Seq<Seq<HighlightSpan>>,
    source: Seq<u8>,
    names: Seq<Seq<char>>,
    captures: Seq<Capture>,
    top: int,
    bottom: int,
    n: int,
    row: int,
)
    ensures
        with_captures(lines, source, names, captures, top, bottom, n).len() == lines.len(),
        0 <= row < lines.len() && !(top <= row < bottom) ==> with_captures(
            lines,
            source,
            names,
            captures,
            top,
            bottom,
            n,
        )[row] == lines[row],
    decreases n,
{
    if n > 0 {
        lemma_with_captures_len(lines, source, names, captures, top, bottom, n - 1, row);
    }
}

proof fn lemma_with_matches_len(
    lines: Seq<Seq<HighlightSpan>>,
    source: Seq<u8>,
    names: Seq<Seq<char>>,
    predicates: Seq<Seq<PredicateModel>>,
    found: Seq<MatchModel>,
    top: int,
    bottom: int,
    n: int,
    row: int,
)
    ensures
        with_matches(lines, source, names, predicates, found, top, bottom, n).len() == lines.len(),
        0 <= row < lines.len() && !(top <= row < bottom) ==> with_matches(
            lines,
            source,
            names,
            predicates,
            found,
            top,
            bottom,
            n,
        )[row] == lines[row],
    decreases n,
{
    if n > 0 {
        lemma_with_matches_len(lines, source, names, predicates, found, top, bottom, n - 1, row);
        let before = with_matches(lines, source, names, predicates, found, top, bottom, n - 1);
        lemma_with_captures_len(
            before,
            source,
            names,
            found[n - 1].captures,
            top,
            bottom,
            found[n - 1].captures.len() as int,
            row,
        );
    }
}

/// Highlighting a chunk leaves the lines of all other chunks alone.
pub proof fn law_chunk_is_local(
    h: HighlightModel,
    names: Seq<Seq<char>>,
    predicates: Seq<Seq<PredicateModel>>,
    chunk: int,
    found: Seq<MatchModel>,
    exceeded: bool,
    row: int,
)
    requires
        0 <= row < h.spans.len(),
        !(chunk * CHUNK_LINES <= row < chunk * CHUNK_LINES + CHUNK_LINES),
    ensures
        chunk_done(h, names, predicates, chunk, found, exceeded).spans.len() == h.spans.len(),
        chunk_done(h, names, predicates, chunk, found, exceeded).spans[row] == h.spans[row],
{
    lemma_with_matches_len(
        h.spans,
        h.source,
        names,
        predicates,
        found,
        chunk * CHUNK_LINES,
        chunk_bottom(chunk, h.spans.len() as int),
        found.len() as int,
        row,
    );
}

/// Build the highlight of a source.  Nothing is highlighted yet.
pub fn build(
    language: tree_sitter::Language,
    query: Arc<CompiledQuery>,
    source: Vec<u8>,
) -> (r: Result<SideHighlight, Error>)
    requires
        query.wf(),
    ensures
        match r {
            Ok(h) => {
                &&& source@.len() <= MAX_FILE_SIZE
                &&& syntax_tree(language, source@) == Some(h.tree)
                &&& h.query == query
                &&& h.wf()
                &&& h@.source == source@
                &&& h@.failed == false
                &&& forall|k: int| 0 <= k < h@.spans.len() ==> (#[trigger] h@.spans[k]).len() == 0
                &&& forall|k: int| 0 <= k < h@.chunks.len() ==> !#[trigger] h@.chunks[k]
            },
            Err(e) => if source@.len() > MAX_FILE_SIZE {
                e == Error::SourceTooLarge
            } else {
                e == Error::SyntaxUnavailable && syntax_tree(language, source@) is None
            },
        },
{
    if source.len() > MAX_FILE_SIZE {
        return Err(Error::SourceTooLarge);
    }
    let tree = match parse_source(&language, &source) {
        Some(t) => t,
        None => {
            return Err(Error::SyntaxUnavailable);
        },
    };
    let line_starts = build_line_starts(&source);
    proof {
        lemma_starts_before(source@, source@.len() as int);
        assert(ints(line_starts@).len() == line_starts@.len());
    }
    let count: usize = line_starts.len();
    let mut spans_by_line: Vec<Vec<HighlightSpan>> = Vec::new();
    let mut i: usize = 0;
    while i < count
        invariant
            i <= count,
            spans_by_line@.len() == i,
            forall|k: int| 0 <= k < i ==> (#[trigger] spans_by_line@[k])@.len() == 0,
        decreases count - i,
    {
        spans_by_line.push(Vec::new());
        i += 1;
    }
    let chunks: usize = (count + (CHUNK_LINES - 1)) / CHUNK_LINES;
    let highlighted_chunks: Vec<bool> = vec![false; chunks];
    Ok(
        SideHighlight {
            source,
            line_starts,
            spans_by_line,
            tree,
            query,
            highlighted_chunks,
            query_failed: false,
        },
    )
}

/// A highlight after a chunk has been queried.
pub open spec fn chunk_queried(
    query: tree_sitter::Query,
    tree: tree_sitter::Tree,
    h: HighlightModel,
    chunk: int,
) -> HighlightModel {
    let (found, exceeded) = query_matches(
        query,
        tree,
        h.source,
        (chunk * CHUNK_LINES) as nat,
        chunk_bottom(chunk, h.spans.len() as int) as nat,
    );
    chunk_done(h, query_names(query), query_predicates(query), chunk, found, exceeded)
}

impl SideHighlight {
    /// The tables fit the source.
    pub open spec fn wf(&self) -> bool {
        &&& ints(self.line_starts@) == line_starts_of(self.source@)
        &&& self.spans_by_line@.len() == self.line_starts@.len()
        &&& self.highlighted_chunks@.len() == chunk_count(self.line_starts@.len() as int)
        &&& self.line_starts@.len() <= MAX_FILE_SIZE + 1
        &&& self.query.wf()
        &&& is_tree_of(self.tree, self.source@)
    }

    /// The highlight after a chunk has been queried.
    pub open spec fn queried(&self, chunk: int) -> HighlightModel {
        chunk_queried(self.query.query, self.tree, self@, chunk)
    }

    /// The text of a line, by its number.
    pub fn line_text(&self, line_number: u32) -> (r: Option<&[u8]>)
        requires
            self.wf(),
        ensures
            match r {
                Some(t) => source_line(self@.source, line_number as int) == Some(t@),
                None => source_line(self@.source, line_number as int) is None,
            },
    {
        proof {
            lemma_starts_before(self.source@, self.source@.len() as int);
            assert(ints(self.line_starts@).len() == self.line_starts@.len());
        }
        if line_number == 0 {
            return None;
        }
        let index: usize = (line_number - 1) as usize;
        if index >= self.line_starts.len() {
            return None;
        }
        let start: usize = self.line_starts[index];
        assert(ints(self.line_starts@)[index as int] == start);
        let end: usize = line_end(&self.source, &self.line_starts, index);
        Some(slice_subrange(self.source.as_slice(), start, end))
    }

    /// Take the matches of a chunk over.
    pub fn take_matches(&mut self, chunk: usize, found: &Vec<FoundMatch>, exceeded: bool)
        requires
            old(self).wf(),
            chunk < old(self)@.chunks.len(),
        ensures
            final(self).wf(),
            final(self)@ == chunk_done(
                old(self)@,
                texts(old(self).query.names@),
                pattern_models(old(self).query.predicates@),
                chunk as int,
                match_models(found@),
                exceeded,
            ),
            final(self).query == old(self).query,
            final(self).tree == old(self).tree,
            final(self).source == old(self).source,
            final(self).line_starts == old(self).line_starts,
    {
        let ghost h = self@;
        let ghost names = texts(self.query.names@);
        let ghost predicates = pattern_models(self.query.predicates@);
        let ghost matched = match_models(found@);
        let count: usize = self.line_starts.len();
        proof {
            lemma_starts_before(self.source@, self.source@.len() as int);
            assert(ints(self.line_starts@).len() == count);
            assert(chunk * CHUNK_LINES < count) by (nonlinear_arith)
                requires
                    chunk < (count + 127) / 128,
                    CHUNK_LINES == 128,
            ;
        }
        let top: usize = chunk * CHUNK_LINES;
        let bottom: usize = if count - top >= CHUNK_LINES {
            top + CHUNK_LINES
        } else {
            count
        };
        assert(bottom == chunk_bottom(chunk as int, count as int));
        let mut m: usize = 0;
        assert(h.spans.len() == count);
        while m < found.len()
            invariant
                m <= found@.len(),
                names == texts(self.query.names@),
                predicates == pattern_models(self.query.predicates@),
                matched == match_models(found@),
                self.query == old(self).query,
                self.tree == old(self).tree,
                self.source == old(self).source,
                self.line_starts == old(self).line_starts,
                self.highlighted_chunks == old(self).highlighted_chunks,
                self.query_failed == old(self).query_failed,
                h == old(self)@,
                starts_fit(self.source@, ints(self.line_starts@)),
                ints(self.line_starts@) == line_starts_of(self.source@),
                self.spans_by_line@.len() == self.line_starts@.len(),
                top <= bottom <= self.line_starts@.len(),
                span_lines(self.spans_by_line@) == with_matches(
                    h.spans,
                    h.source,
                    names,
                    predicates,
                    matched,
                    top as int,
                    bottom as int,
                    m as int,
                ),
            decreases found@.len() - m,
        {
            let item = &found[m];
            assert(matched[m as int] == item@);
            assert(predicates.len() == self.query.predicates@.len());
            let ghost before = span_lines(self.spans_by_line@);
            let pass: bool = if item.pattern < self.query.predicates.len() {
                assert(predicates[item.pattern as int] == predicate_models(
                    self.query.predicates@[item.pattern as int]@,
                ));
                general_predicates_pass(
                    &self.query.predicates[item.pattern],
                    &item.captures,
                    &self.source,
                )
            } else {
                true
            };
            if pass {
                let mut i: usize = 0;
                while i < item.captures.len()
                    invariant
                        i <= item.captures@.len(),
                        names == texts(self.query.names@),
                        self.query == old(self).query,
                        self.tree == old(self).tree,
                        self.source == old(self).source,
                        self.line_starts == old(self).line_starts,
                        self.highlighted_chunks == old(self).highlighted_chunks,
                        self.query_failed == old(self).query_failed,
                        h == old(self)@,
                        starts_fit(self.source@, ints(self.line_starts@)),
                        ints(self.line_starts@) == line_starts_of(self.source@),
                        self.spans_by_line@.len() == self.line_starts@.len(),
                        top <= bottom <= self.line_starts@.len(),
                        span_lines(self.spans_by_line@) == with_captures(
                            before,
                            h.source,
                            names,
                            item.captures@,
                            top as int,
                            bottom as int,
                            i as int,
                        ),
                    decreases item.captures@.len() - i,
                {
                    let c: Capture = item.captures[i];
                    let index: usize = c.index as usize;
                    if index < self.query.names.len() {
                        assert(names[index as int] == self.query.names@[index as int]@);
                        if let Some(token) = token_for_capture(self.query.names[index].as_str()) {
                            append_capture_span(
                                &mut self.spans_by_line,
                                &self.line_starts,
                                &self.source,
                                c,
                                token,
                                top,
                                bottom,
                            );
                            assert(span_lines(self.spans_by_line@).len()
                                == self.spans_by_line@.len());
                        }
                    }
                    i += 1;
                }
            }
            m += 1;
        }
        let ghost lines = span_lines(self.spans_by_line@);
        if exceeded {
            self.query_failed = true;
            return;
        }
        let mut row: usize = top;
        while row < bottom
            invariant
                top <= row <= bottom <= self.spans_by_line@.len(),
                self.query == old(self).query,
                self.tree == old(self).tree,
                self.source == old(self).source,
                self.line_starts == old(self).line_starts,
                self.highlighted_chunks == old(self).highlighted_chunks,
                self.query_failed == old(self).query_failed,
                lines.len() == self.spans_by_line@.len(),
                forall|k: int|
                    0 <= k < lines.len() ==> (#[trigger] self.spans_by_line@[k])@ == (if top <= k
                        < row {
                        sorted(lines[k])
                    } else {
                        lines[k]
                    }),
            decreases bottom - row,
        {
            let sorted_row = sort_spans(&self.spans_by_line[row]);
            self.spans_by_line[row] = sorted_row;
            row += 1;
        }
        self.highlighted_chunks[chunk] = true;
        proof {
            let goal = chunk_done(h, names, predicates, chunk as int, matched, exceeded);
            assert(self@.spans =~= goal.spans);
        }
    }

    /// Query a chunk of the tree.
    pub fn highlight_chunk(&mut self, chunk: usize)
        requires
            old(self).wf(),
            chunk < old(self)@.chunks.len(),
        ensures
            final(self).wf(),
            final(self)@ == old(self).queried(chunk as int),
            final(self).query == old(self).query,
            final(self).tree == old(self).tree,
            final(self).source == old(self).source,
    {
        let count: usize = self.line_starts.len();
        proof {
            assert(chunk * CHUNK_LINES < count) by (nonlinear_arith)
                requires
                    chunk < (count + 127) / 128,
                    CHUNK_LINES == 128,
            ;
        }
        let top: usize = chunk * CHUNK_LINES;
        let bottom: usize = if count - top >= CHUNK_LINES {
            top + CHUNK_LINES
        } else {
            count
        };
        let (found, exceeded) = run_query(
            &self.query.query,
            &self.tree,
            &self.source,
            top,
            bottom,
        );
        self.take_matches(chunk, &found, exceeded);
    }

    /// The spans of a line.  Its chunk is highlighted first where it has not
    /// been; once a query has failed there are none.
    pub fn line_spans(&mut self, line_number: u32) -> (r: Vec<HighlightSpan>)
        requires
            old(self).wf(),
        ensures
            final(self).wf(),
            final(self).source == old(self).source,
            final(self).query == old(self).query,
            final(self).tree == old(self).tree,
            ({
                let index = line_number - 1;
                let inside = 0 <= index < old(self)@.spans.len();
                let chunk = index / (CHUNK_LINES as int);
                if !inside || old(self)@.failed {
                    r@.len() == 0 && final(self)@ == old(self)@
                } else {
                    &&& old(self)@.chunks[chunk] ==> final(self)@ == old(self)@
                    &&& !old(self)@.chunks[chunk] ==> final(self)@ == old(self).queried(chunk)
                    &&& r@ == if final(self)@.failed {
                        Seq::empty()
                    } else {
                        final(self)@.spans[index]
                    }
                }
            }),
    {
        let none: Vec<HighlightSpan> = Vec::new();
        if line_number == 0 {
            return none;
        }
        let index: usize = (line_number - 1) as usize;
        if index >= self.line_starts.len() || self.query_failed {
            return none;
        }
        let chunk: usize = index / CHUNK_LINES;
        proof {
            let count = self.line_starts@.len() as int;
            assert(chunk < (count + 127) / 128) by (nonlinear_arith)
                requires
                    index < count,
                    chunk == index / 128,
            ;
        }
        if !self.highlighted_chunks[chunk] {
            self.highlight_chunk(chunk);
        }
        if self.query_failed {
            assert(none@ =~= Seq::<HighlightSpan>::empty());
            return none;
        }
        assert(self@.spans[index as int] == self.spans_by_line@[index as int]@);
        vstd::slice::slice_to_vec(self.spans_by_line[index].as_slice())
    }
}

} // verus!

//! Where a review starts, which comment an identity names, and how tokens and
//! changed parts are coloured.
use vstd::prelude::*;
use crate::cli::{comment_summary, comment_with_id, listed_summaries, status_text};
use crate::diff::{DiffLineKind, FileModel, LineModel};
use crate::inline_diff::Range;
use crate::store::{
    count_comments, on_file, passes, reviewed, CommentModel, StoreModel,
};
use crate::syntax::{
    char_index, highlighted_from, highlighted_line, span_place, HighlightSpan, SyntaxToken,
};
use crate::theme::{Ansi, ThemeTokens};
use crate::tui::{changes_of, Layout};
use crate::tui_nav::at_first_change;
use crate::tui_run::{first_changed_file, start_state, state_at};
use crate::tui_style::{inline_line, inlined, next_range, range_holds};
use crate::tui_view::count_kind;
use crate::util::{byte_pos, decimal, has_prefix, has_suffix, lemma_byte_pos_monotone, utf8_width};

verus! {

// ---------------------------------------------------------------------------
// Comments and counts
// ---------------------------------------------------------------------------

/// An identity names the first comment that has it, and none only where no
/// comment has it.
pub proof fn law_identity_finds_its_comment(comments: Seq<CommentModel>, id: Seq<char>)
    ensures
        match comment_with_id(comments, id) {
            Some(c) => exists|k: int|
                0 <= k < comments.len() && #[trigger] comments[k] == c && c.comment_id == id
                    && forall|j: int| 0 <= j < k ==> (#[trigger] comments[j]).comment_id != id,
            None => forall|k: int|
                0 <= k < comments.len() ==> (#[trigger] comments[k]).comment_id != id,
        },
    decreases comments.len(),
{
    if comments.len() > 0 {
        if comments[0].comment_id == id {
            assert(comments[0] == comment_with_id(comments, id)->0);
        } else {
            let t = comments.skip(1);
            law_identity_finds_its_comment(t, id);
            match comment_with_id(t, id) {
                Some(c) => {
                    let k = choose|k: int|
                        0 <= k < t.len() && #[trigger] t[k] == c && c.comment_id == id && forall|
                            j: int,
                        |
                            0 <= j < k ==> (#[trigger] t[j]).comment_id != id;
                    assert(comments[k + 1] == c);
                    assert forall|j: int| 0 <= j < k + 1 implies (
                    #[trigger] comments[j]).comment_id != id by {
                        if j > 0 {
                            assert(t[j - 1] == comments[j]);
                        }
                    }
                },
                None => {
                    assert forall|k: int| 0 <= k < comments.len() implies (
                    #[trigger] comments[k]).comment_id != id by {
                        if k > 0 {
                            assert(t[k - 1] == comments[k]);
                        }
                    }
                },
            }
        }
    }
}

/// Whether a comment is asked for: every one without a filter, and otherwise
/// those on the file that is named.
pub open spec fn asked_for(c: CommentModel, filter: Option<Seq<char>>) -> bool {
    filter is None || filter == Some(c.file_path)
}

/// Whether a text stands in another.
pub open spec fn stands_in(part: Seq<char>, whole: Seq<char>) -> bool {
    exists|i: int|
        0 <= i <= whole.len() - part.len() && #[trigger] whole.subrange(i, i + part.len()) == part
}

proof fn lemma_stands_before(part: Seq<char>, a: Seq<char>, b: Seq<char>)
    requires
        stands_in(part, a),
    ensures
        stands_in(part, a + b),
{
    let i = choose|i: int|
        0 <= i <= a.len() - part.len() && #[trigger] a.subrange(i, i + part.len()) == part;
    assert((a + b).subrange(i, i + part.len()) =~= part);
}

proof fn lemma_stands_behind(part: Seq<char>, a: Seq<char>)
    ensures
        stands_in(part, a + part),
{
    let i = a.len() as int;
    assert((a + part).subrange(i, i + part.len()) =~= part);
}

proof fn lemma_listed(comments: Seq<CommentModel>, filter: Option<Seq<char>>, n: int, k: int)
    requires
        0 <= k < n <= comments.len(),
        asked_for(comments[k], filter),
    ensures
        stands_in(comment_summary(comments[k]), listed_summaries(comments, filter, n)),
    decreases n,
{
    let before = listed_summaries(comments, filter, n - 1);
    if k == n - 1 {
        lemma_stands_behind(comment_summary(comments[k]), before);
    } else {
        lemma_listed(comments, filter, n - 1, k);
        lemma_stands_before(
            comment_summary(comments[k]),
            before,
            if passes(comments[n - 1], filter) {
                comment_summary(comments[n - 1])
            } else {
                seq![]
            },
        );
    }
}

proof fn lemma_listed_filtered(comments: Seq<CommentModel>, filter: Option<Seq<char>>, n: int)
    requires
        0 <= n <= comments.len(),
    ensures
        ({
            let kept = comments.take(n).filter(|c: CommentModel| asked_for(c, filter));
            listed_summaries(comments, filter, n) == listed_summaries(
                kept,
                None,
                kept.len() as int,
            )
        }),
    decreases n,
{
    reveal(Seq::filter);
    let p = |c: CommentModel| asked_for(c, filter);
    let kept = comments.take(n).filter(p);
    if n > 0 {
        lemma_listed_filtered(comments, filter, n - 1);
        let before = comments.take(n - 1).filter(p);
        assert(comments.take(n).drop_last() =~= comments.take(n - 1));
        assert(comments.take(n).last() == comments[n - 1]);
        if asked_for(comments[n - 1], filter) {
            assert(kept == before.push(comments[n - 1]));
            lemma_listed_prefix(before, kept, before.len() as int);
        } else {
            assert(kept == before);
            assert(listed_summaries(comments, filter, n) =~= listed_summaries(
                comments,
                filter,
                n - 1,
            ));
        }
    } else {
        assert(comments.take(0) =~= Seq::<CommentModel>::empty());
    }
}

proof fn lemma_listed_prefix(a: Seq<CommentModel>, b: Seq<CommentModel>, n: int)
    requires
        n <= a.len(),
        n <= b.len(),
        forall|k: int| 0 <= k < n ==> a[k] == b[k],
    ensures
        listed_summaries(a, None, n) == listed_summaries(b, None, n),
    decreases n,
{
    if n > 0 {
        lemma_listed_prefix(a, b, n - 1);
    }
}

/// The list of comments has every comment that is asked for, and reads as if
/// there were no others.
pub proof fn law_list_has_what_is_asked_for(
    comments: Seq<CommentModel>,
    filter: Option<Seq<char>>,
    k: int,
)
    requires
        0 <= k < comments.len(),
    ensures
        asked_for(comments[k], filter) ==> stands_in(
            comment_summary(comments[k]),
            listed_summaries(comments, filter, comments.len() as int),
        ),
        ({
            let kept = comments.filter(|c: CommentModel| asked_for(c, filter));
            listed_summaries(comments, filter, comments.len() as int) == listed_summaries(
                kept,
                None,
                kept.len() as int,
            )
        }),
{
    if asked_for(comments[k], filter) {
        lemma_listed(comments, filter, comments.len() as int, k);
    }
    lemma_listed_filtered(comments, filter, comments.len() as int);
    assert(comments.take(comments.len() as int) =~= comments);
}

/// The summary of a comment begins with its identity and its place, and ends
/// with its text.
pub proof fn law_summary_says(c: CommentModel)
    ensures
        has_prefix(
            comment_summary(c),
            c.comment_id + seq![' '] + c.file_path + seq![':'] + decimal(c.start_line as nat)
                + seq!['-'] + decimal(c.end_line as nat),
        ),
        has_suffix(comment_summary(c), c.author + seq!['\n'] + c.body + seq!['\n']),
{
    reveal(comment_summary);
    reveal_strlit(" ");
    reveal_strlit(":");
    reveal_strlit("-");
    reveal_strlit("\n");
    assert(" "@ =~= seq![' ']);
    assert(":"@ =~= seq![':']);
    assert("-"@ =~= seq!['-']);
    assert("\n"@ =~= seq!['\n']);
    let head = c.comment_id + seq![' '] + c.file_path + seq![':'] + decimal(c.start_line as nat)
        + seq!['-'] + decimal(c.end_line as nat);
    let tail = c.author + seq!['\n'] + c.body + seq!['\n'];
    let middle = " ["@ + c.match_status.label_text() + "] "@;
    let all = comment_summary(c);
    assert(all =~= head + middle + tail);
    assert(all.take(head.len() as int) =~= head);
    assert(all.skip(all.len() - tail.len()) =~= tail);
}

/// The status of a file says that it is reviewed just while it is.
pub proof fn law_status_says(store: StoreModel, f: FileModel, target: Seq<char>)
    ensures
        status_text(store, f, target) == "reviewed"@ <==> reviewed(
            store.states,
            f.path,
            f.patch_fingerprint,
            target,
        ),
        status_text(store, f, target) == "unreviewed"@ <==> !reviewed(
            store.states,
            f.path,
            f.patch_fingerprint,
            target,
        ),
{
    reveal_strlit("reviewed");
    reveal_strlit("unreviewed");
    assert("reviewed"@.len() == 8 && "unreviewed"@.len() == 10);
}

/// The number of comments on a file is that of the comments that name it and
/// the target.
pub proof fn law_comments_are_counted(
    v: Seq<CommentModel>,
    path: Seq<char>,
    target: Seq<char>,
    n: int,
)
    requires
        0 <= n <= v.len(),
    ensures
        count_comments(v, on_file(path, target), n) == v.take(n).filter(
            |c: CommentModel| c.file_path == path && c.review_target_id == target,
        ).len(),
    decreases n,
{
    reveal(Seq::filter);
    if n > 0 {
        law_comments_are_counted(v, path, target, n - 1);
        assert(v.take(n).drop_last() =~= v.take(n - 1));
        assert(v.take(n).last() == v[n - 1]);
    } else {
        assert(v.take(0) =~= Seq::<CommentModel>::empty());
    }
}

/// The count of the lines of a kind is the number of lines that are of it.
pub proof fn law_kinds_are_counted(lines: Seq<LineModel>, kind: DiffLineKind)
    ensures
        count_kind(lines, kind) == lines.filter(|l: LineModel| l.kind == kind).len(),
    decreases lines.len(),
{
    reveal(Seq::filter);
    if lines.len() > 0 {
        law_kinds_are_counted(lines.drop_last(), kind);
    }
}

// ---------------------------------------------------------------------------
// The start
// ---------------------------------------------------------------------------

proof fn lemma_first_changed(files: Seq<FileModel>, i: int)
    requires
        0 <= i,
    ensures
        match first_changed_file(files, i) {
            Some(k) => i <= k < files.len() && changes_of(files, state_at(k)).len() > 0 && forall|
                j: int,
            |
                i <= j < k ==> (#[trigger] changes_of(files, state_at(j))).len() == 0,
            None => forall|j: int|
                i <= j < files.len() ==> (#[trigger] changes_of(files, state_at(j))).len() == 0,
        },
    decreases files.len() - i,
{
    if i < files.len() && changes_of(files, state_at(i)).len() == 0 {
        lemma_first_changed(files, i + 1);
    }
}

/// A review starts in the first file that has a change, and at the top of the
/// first file where none has.
pub proof fn law_review_starts_at_a_change(files: Seq<FileModel>, l: Layout, j: int)
    requires
        0 < files.len() <= usize::MAX,
        0 <= j < files.len(),
    ensures
        ({
            let s = start_state(files, l);
            &&& s.active_file < files.len()
            &&& j < s.active_file ==> changes_of(files, state_at(j)).len() == 0
            &&& changes_of(files, state_at(j)).len() > 0 ==> changes_of(
                files,
                state_at(s.active_file as int),
            ).len() > 0
            &&& changes_of(files, state_at(s.active_file as int)).len() == 0 ==> s.active_file == 0
                && s.cursor_row == 0 && s.scroll_row == 0
        }),
{
    lemma_first_changed(files, 0);
    if let Some(k) = first_changed_file(files, 0) {
        let s = at_first_change(files, state_at(k), l).0;
        assert(s.active_file == k);
    }
}

// ---------------------------------------------------------------------------
// Tokens
// ---------------------------------------------------------------------------

/// The colour of the palette that a token has.
pub open spec fn palette_colour(t: ThemeTokens, token: SyntaxToken) -> Seq<char> {
    match token {
        SyntaxToken::Keyword => t.syntax_keyword.hex@,
        SyntaxToken::String => t.syntax_string.hex@,
        SyntaxToken::Comment => t.syntax_comment.hex@,
        SyntaxToken::Type => t.syntax_type.hex@,
        SyntaxToken::Function => t.syntax_function.hex@,
        SyntaxToken::Number => t.syntax_number.hex@,
        SyntaxToken::Operator => t.syntax_operator.hex@,
        SyntaxToken::Plain => t.syntax_plain.hex@,
    }
}

proof fn lemma_index_of(s: Seq<char>, i: int, a: int)
    requires
        0 <= i <= a <= s.len(),
    ensures
        char_index(s, i, byte_pos(s, a) as int) == Some(a),
    decreases a - i,
{
    if i < a {
        lemma_byte_pos_monotone(s, i + 1, a);
        assert(byte_pos(s, i + 1) == byte_pos(s, i) + utf8_width(s[i]));
        lemma_index_of(s, i + 1, a);
    }
}

/// A token is written in its colour of the palette, from its first character
/// to its last; the text before it and behind it has no colour.
pub proof fn law_token_has_its_colour(
    s: Seq<char>,
    ansi: Ansi,
    t: ThemeTokens,
    token: SyntaxToken,
    span: HighlightSpan,
    a: int,
    b: int,
)
    requires
        ansi.enabled,
        0 <= a < b <= s.len(),
        span.start_byte == byte_pos(s, a),
        span.end_byte == byte_pos(s, b),
        span.token == token,
    ensures
        highlighted_line(s, seq![span], ansi, t) == s.take(a) + ansi.fg_text(
            palette_colour(t, token),
        ) + s.subrange(a, b) + ansi.reset_text() + s.skip(b),
{
    let spans = seq![span];
    lemma_index_of(s, 0, a);
    lemma_index_of(s, 0, b);
    lemma_byte_pos_monotone(s, a + 1, b);
    lemma_byte_pos_monotone(s, b, s.len() as int);
    assert(byte_pos(s, a + 1) == byte_pos(s, a) + utf8_width(s[a]));
    assert(byte_pos(s, 0) == 0);
    assert(span_place(s, span, 0) == Some((a, b)));
    assert(highlighted_from(s, spans, ansi, t, 1, b) == s.skip(b));
    assert(s.subrange(0, a) =~= s.take(a));
    assert(highlighted_line(s, spans, ansi, t) =~= s.take(a) + ansi.fg_text(
        palette_colour(t, token),
    ) + s.subrange(a, b) + ansi.reset_text() + s.skip(b));
}

// ---------------------------------------------------------------------------
// Changed parts
// ---------------------------------------------------------------------------

/// Where the line is marked from a character on, with one part from `a` to `b`.
spec fn marked_from(
    s: Seq<char>,
    base: Seq<char>,
    inline: Seq<char>,
    a: int,
    b: int,
    i: int,
) -> Seq<char> {
    if i <= a {
        s.subrange(i, a) + inline + s.subrange(a, b) + base + s.skip(b)
    } else if i <= b {
        s.subrange(i, b) + base + s.skip(b)
    } else {
        s.skip(i)
    }
}

proof fn lemma_marked(
    s: Seq<char>,
    range: Range,
    ansi: Ansi,
    base: Seq<char>,
    inline: Seq<char>,
    a: int,
    b: int,
    i: int,
    index: int,
)
    requires
        crate::syntax::no_introducer(s),
        0 <= a < b <= s.len(),
        0 <= i <= s.len(),
        range.start == byte_pos(s, a),
        range.end == byte_pos(s, b),
        index == (if i <= b {
            0int
        } else {
            1
        }),
    ensures
        inlined(
            s.skip(i),
            seq![range],
            ansi,
            base,
            inline,
            byte_pos(s, i) as int,
            index,
            a < i <= b,
        ) == marked_from(s, base, inline, a, b, i),
    decreases s.len() - i,
{
    let t = s.skip(i);
    let ranges = seq![range];
    let offset = byte_pos(s, i) as int;
    if i == s.len() {
        assert(t.len() == 0);
        if i <= b {
            assert(b == i);
            assert(s.subrange(i, b) =~= Seq::<char>::empty());
            assert(s.skip(b) =~= Seq::<char>::empty());
            assert(marked_from(s, base, inline, a, b, i) =~= base);
        } else {
            assert(marked_from(s, base, inline, a, b, i) =~= Seq::<char>::empty());
        }
    } else {
        assert(t[0] == s[i]);
        assert(!crate::tui_text::introducer(s[i]));
        assert(t[0] != '\u{1b}');
        if i < a {
            lemma_byte_pos_monotone(s, i + 1, a);
        } else if a < i {
            lemma_byte_pos_monotone(s, a, i);
        }
        if i < b {
            lemma_byte_pos_monotone(s, i + 1, b);
        } else {
            lemma_byte_pos_monotone(s, b, i);
        }
        assert(byte_pos(s, i + 1) == byte_pos(s, i) + utf8_width(s[i]));
        let next_index = next_range(ranges, index, offset);
        reveal_with_fuel(next_range, 3);
        assert(next_index == if i < b {
            0int
        } else {
            1
        });
        let holds = range_holds(ranges, next_index, offset);
        assert(holds == (a <= i < b));
        lemma_marked(s, range, ansi, base, inline, a, b, i + 1, if i + 1 <= b {
            0
        } else {
            1
        });
        assert(t.skip(1) =~= s.skip(i + 1));
        let rest = marked_from(s, base, inline, a, b, i + 1);
        assert((a < i + 1 <= b) == holds);
        let own = seq![s[i]];
        if i < a {
            assert(own + rest =~= marked_from(s, base, inline, a, b, i));
        } else if i == a {
            assert(s.subrange(i, a) =~= Seq::<char>::empty());
            assert(inline + own + rest =~= marked_from(s, base, inline, a, b, i));
        } else if i < b {
            assert(own + rest =~= marked_from(s, base, inline, a, b, i));
        } else if i == b {
            assert(s.subrange(i, b) =~= Seq::<char>::empty());
            assert(base + own + rest =~= marked_from(s, base, inline, a, b, i));
        } else {
            assert(own + rest =~= marked_from(s, base, inline, a, b, i));
        }
    }
}

/// A changed part stands on its own background from its first character to its
/// last, and behind it the background of the line comes back.
pub proof fn law_part_has_its_background(
    s: Seq<char>,
    range: Range,
    ansi: Ansi,
    base: Seq<char>,
    inline: Seq<char>,
    a: int,
    b: int,
)
    requires
        crate::syntax::no_introducer(s),
        ansi.enabled,
        ansi.true_color,
        0 <= a < b <= s.len(),
        range.start == byte_pos(s, a),
        range.end == byte_pos(s, b),
    ensures
        inline_line(s, seq![range], ansi, base, inline) == s.take(a) + ansi.bg_text(inline)
            + s.subrange(a, b) + ansi.bg_text(base) + s.skip(b),
{
    lemma_marked(
        s,
        range,
        ansi,
        ansi.bg_text(base),
        ansi.bg_text(inline),
        a,
        b,
        0,
        0,
    );
    assert(s.skip(0) =~= s);
    assert(byte_pos(s, 0) == 0);
    assert(s.subrange(0, a) =~= s.take(a));
}

} // verus!

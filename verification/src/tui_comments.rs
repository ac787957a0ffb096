//! The comments at the cursor, and new ones.
use vstd::prelude::*;
use crate::diff::{file_models, DiffFile, DiffLine, DiffLineKind, DiffSnapshot, FileModel, LineModel};
use crate::json::model;
use crate::store::{
    comment_models, comments_document, new_comment, Comment, CommentModel, CommentsChange, Store,
};
use crate::tui::{line_number, number_of, rows_of, viewable, State, StateModel};
use crate::tui_copy::{line_side, side_of};
use crate::tui_keys::{comment_anchor, comment_place};
use crate::tui_nav::lemma_view_rows;
use crate::tui_text::{cleaned, plain_text};
use crate::tui_view::{opt_line, row_models, FileView, RowModel, VisualRow};
use crate::tui_wrap::{wrap_ansi, wrapped};
use crate::util::{
    chars_of, decimal, push_decimal, push_text, same_text, string_of, texts,
};

verus! {

/// What a comment written now would be about.
pub open spec fn target_text(f: FileModel, rows: Seq<RowModel>, s: StateModel) -> Seq<char> {
    match comment_place(f, rows, s) {
        Some((line, _, end)) => {
            let start = match number_of(line) {
                Some(n) => n,
                None => 0,
            };
            if start == end {
                side_of(line) + ":"@ + decimal(start as nat)
            } else {
                side_of(line) + ":"@ + decimal(start as nat) + "-"@ + decimal(end as nat)
            }
        },
        None => "no code line"@,
    }
}

pub fn comment_target_label(file: &DiffFile, view: &FileView<'_>, state: &State) -> (r: String)
    ensures
        r@ == target_text(file@, row_models(view.rows@), state@),
{
    match comment_anchor(file, view, state) {
        Some((line, _, end)) => {
            let start: u32 = match line_number(line) {
                Some(n) => n,
                None => 0,
            };
            let mut out = String::new();
            push_text(&mut out, line_side(line));
            push_text(&mut out, ":");
            push_decimal(&mut out, start as u64);
            if start != end {
                push_text(&mut out, "-");
                push_decimal(&mut out, end as u64);
            }
            assert(out@ =~= target_text(file@, row_models(view.rows@), state@));
            out
        },
        None => "no code line".to_string(),
    }
}

/// Whether a comment is about a line of a file.  A comment without an end
/// covers its first line; on a context line either side will do.
pub open spec fn is_about(c: CommentModel, path: Seq<char>, l: LineModel, target: Seq<char>) -> bool {
    let end = if c.end_line == 0 {
        c.start_line
    } else {
        c.end_line
    };
    &&& number_of(l) matches Some(n) && ((c.start_line <= n <= end) || (end <= n <= c.start_line))
    &&& c.review_target_id == target
    &&& c.file_path == path
    &&& l.kind == DiffLineKind::Context || c.side == side_of(l)
}

pub fn comment_matches(comment: &Comment, file: &DiffFile, line: &DiffLine, target: &str) -> (r:
    bool)
    ensures
        r == is_about(comment@, file@.path, line@, target@),
{
    let number: u32 = match line_number(line) {
        Some(n) => n,
        None => {
            return false;
        },
    };
    let end: u32 = if comment.end_line == 0 {
        comment.start_line
    } else {
        comment.end_line
    };
    let covers = (comment.start_line <= number && number <= end) || (end <= number && number
        <= comment.start_line);
    covers && same_text(comment.review_target_id.as_str(), target) && same_text(
        comment.file_path.as_str(),
        file.path.as_str(),
    ) && (line.kind == DiffLineKind::Context || same_text(comment.side.as_str(), line_side(line)))
}

pub open spec fn is_about_optional(
    c: CommentModel,
    path: Seq<char>,
    l: Option<LineModel>,
    target: Seq<char>,
) -> bool {
    match l {
        Some(x) => is_about(c, path, x, target),
        None => false,
    }
}

/// Whether a comment is about a line that a row shows.
pub open spec fn is_on_row(c: CommentModel, path: Seq<char>, r: RowModel, target: Seq<char>) -> bool {
    is_about_optional(c, path, r.line, target) || is_about_optional(c, path, r.left, target)
        || is_about_optional(c, path, r.right, target)
}

fn optional_matches(
    comment: &Comment,
    file: &DiffFile,
    line: Option<&DiffLine>,
    target: &str,
) -> (r: bool)
    ensures
        r == is_about_optional(comment@, file@.path, opt_line(line), target@),
{
    match line {
        Some(l) => comment_matches(comment, file, l, target),
        None => false,
    }
}

pub fn row_has_comment(
    row: &VisualRow<'_>,
    comment: &Comment,
    file: &DiffFile,
    target: &str,
) -> (r: bool)
    ensures
        r == is_on_row(comment@, file@.path, row@, target@),
{
    optional_matches(comment, file, row.line, target) || optional_matches(
        comment,
        file,
        row.left,
        target,
    ) || optional_matches(comment, file, row.right, target)
}

// ---------------------------------------------------------------------------
// The rows of the comments
// ---------------------------------------------------------------------------

/// The index of the first line end from `i` on, or the length.
pub open spec fn line_end(s: Seq<char>, i: int) -> int
    decreases s.len() - i,
{
    if i >= s.len() {
        s.len() as int
    } else if s[i] == '\n' {
        i
    } else {
        line_end(s, i + 1)
    }
}

pub proof fn lemma_line_end(s: Seq<char>, i: int)
    requires
        0 <= i <= s.len(),
    ensures
        i <= line_end(s, i) <= s.len(),
    decreases s.len() - i,
{
    if i < s.len() && s[i] != '\n' {
        lemma_line_end(s, i + 1);
    }
}

/// The wrapped lines of a text from `i` on; a text always has a last line,
/// though it may be empty.
pub open spec fn body_rows(s: Seq<char>, width: nat, i: int) -> Seq<Seq<char>>
    decreases s.len() - i,
{
    let end = line_end(s, i);
    if i < 0 || i > s.len() || end < i {
        seq![]
    } else {
        wrapped(cleaned(s.subrange(i, end), false), width, width) + (if end < s.len() {
            body_rows(s, width, end + 1)
        } else {
            seq![]
        })
    }
}

/// The rows of one comment: its author and status, and its body.
pub open spec fn comment_block(c: CommentModel, width: nat) -> Seq<Seq<char>> {
    seq![cleaned(c.author + " ["@ + c.match_status.label_text() + "]"@, false)] + body_rows(
        c.body,
        width,
        0,
    )
}

/// The rows of the first `n` comments, as far as they are on a row; an empty
/// row stands between two comments.
pub open spec fn comment_blocks(
    comments: Seq<CommentModel>,
    path: Seq<char>,
    r: RowModel,
    target: Seq<char>,
    width: nat,
    n: int,
) -> Seq<Seq<char>>
    decreases n,
{
    if n <= 0 {
        seq![]
    } else {
        let before = comment_blocks(comments, path, r, target, width, n - 1);
        if is_on_row(comments[n - 1], path, r, target) {
            (if before.len() > 0 {
                before.push(seq![])
            } else {
                before
            }) + comment_block(comments[n - 1], width)
        } else {
            before
        }
    }
}

/// The rows of the comments at the cursor.
pub open spec fn comments_at_cursor(
    comments: Seq<CommentModel>,
    f: FileModel,
    rows: Seq<RowModel>,
    s: StateModel,
    target: Seq<char>,
    width: nat,
) -> Seq<Seq<char>> {
    let found = if s.cursor_row < rows.len() {
        comment_blocks(
            comments,
            f.path,
            rows[s.cursor_row as int],
            target,
            width,
            comments.len() as int,
        )
    } else {
        seq![]
    };
    if found.len() > 0 {
        found
    } else {
        seq!["No comments here. Press c to add one."@]
    }
}

fn push_rows(out: &mut Vec<String>, rows: Vec<String>)
    ensures
        texts(final(out)@) == texts(old(out)@) + texts(rows@),
{
    let ghost before = texts(out@);
    let mut i: usize = 0;
    assert(texts(rows@).take(0) =~= Seq::<Seq<char>>::empty());
    while i < rows.len()
        invariant
            i <= rows@.len(),
            texts(out@) == before + texts(rows@).take(i as int),
        decreases rows@.len() - i,
    {
        let ghost now = texts(out@);
        let row = rows[i].clone();
        out.push(row);
        assert(texts(out@) =~= now.push(row@));
        assert(texts(rows@).take(i + 1) =~= texts(rows@).take(i as int).push(row@));
        assert(texts(out@) =~= before + texts(rows@).take(i + 1));
        i += 1;
    }
    assert(texts(rows@).take(i as int) =~= texts(rows@));
}

fn push_body(out: &mut Vec<String>, body: &str, width: usize)
    ensures
        texts(final(out)@) == texts(old(out)@) + body_rows(body@, width as nat, 0),
{
    let ghost before = texts(out@);
    let chars = chars_of(body);
    let len: usize = chars.len();
    let mut i: usize = 0;
    let mut done = false;
    while !done
        invariant
            chars@ == body@,
            len == body@.len(),
            i <= len,
            !done ==> before + body_rows(body@, width as nat, 0) == texts(out@) + body_rows(
                body@,
                width as nat,
                i as int,
            ),
            done ==> before + body_rows(body@, width as nat, 0) == texts(out@),
        decreases
            if done {
                0
            } else {
                len - i + 1
            },
    {
        let mut end: usize = i;
        while end < len && chars[end] != '\n'
            invariant
                chars@ == body@,
                len == body@.len(),
                i <= end <= len,
                line_end(body@, i as int) == line_end(body@, end as int),
            decreases len - end,
        {
            end += 1;
        }
        let line = string_of(vstd::slice::slice_subrange(chars.as_slice(), i, end));
        let plain = plain_text(line.as_str());
        let ghost now = texts(out@);
        let rows = wrap_ansi(plain.as_str(), width, width);
        push_rows(out, rows);
        let ghost part = wrapped(
            cleaned(body@.subrange(i as int, end as int), false),
            width as nat,
            width as nat,
        );
        if end < len {
            assert(now + (part + body_rows(body@, width as nat, end + 1)) =~= (now + part)
                + body_rows(body@, width as nat, end + 1));
            i = end + 1;
        } else {
            assert(now + (part + Seq::<Seq<char>>::empty()) =~= now + part);
            done = true;
        }
    }
}

/// The rows of the comments at the cursor, wrapped.
pub fn comment_rows(
    snapshot: &DiffSnapshot,
    store: &Store,
    view: &FileView<'_>,
    state: &State,
    width: usize,
) -> (r: Vec<String>)
    requires
        state.active_file < snapshot.files@.len(),
    ensures
        texts(r@) == comments_at_cursor(
            store@.comments,
            file_models(snapshot.files@)[state.active_file as int],
            row_models(view.rows@),
            state@,
            snapshot.review_target.target_id@,
            width as nat,
        ),
{
    let mut out: Vec<String> = Vec::new();
    let file = &snapshot.files[state.active_file];
    assert(file_models(snapshot.files@)[state.active_file as int] == file@);
    assert(texts(out@) =~= Seq::<Seq<char>>::empty());
    if state.cursor_row < view.rows.len() {
        let row = &view.rows[state.cursor_row];
        assert(row_models(view.rows@)[state.cursor_row as int] == row@);
        let target = snapshot.review_target.target_id.as_str();
        let mut i: usize = 0;
        while i < store.comments.len()
            invariant
                i <= store.comments@.len(),
                target@ == snapshot.review_target.target_id@,
                texts(out@) == comment_blocks(
                    store@.comments,
                    file@.path,
                    row@,
                    target@,
                    width as nat,
                    i as int,
                ),
            decreases store.comments@.len() - i,
        {
            let comment = &store.comments[i];
            assert(store@.comments[i as int] == comment@);
            if row_has_comment(row, comment, file, target) {
                let ghost before = texts(out@);
                assert(before.len() == out@.len());
                if out.len() > 0 {
                    out.push(String::new());
                    assert(texts(out@) =~= before.push(seq![]));
                }
                let ghost spaced = texts(out@);
                let mut heading = String::new();
                push_text(&mut heading, comment.author.as_str());
                push_text(&mut heading, " [");
                push_text(&mut heading, comment.match_status.label());
                push_text(&mut heading, "]");
                assert(heading@ =~= comment@.author + " ["@ + comment@.match_status.label_text()
                    + "]"@);
                let plain = plain_text(heading.as_str());
                out.push(plain);
                assert(texts(out@) =~= spaced.push(plain@));
                push_body(&mut out, comment.body.as_str(), width);
                assert(texts(out@) =~= spaced + comment_block(comment@, width as nat));
            }
            i += 1;
        }
    }
    assert(texts(out@).len() == out@.len());
    if out.len() == 0 {
        out.push("No comments here. Press c to add one.".to_string());
        assert(texts(out@) =~= seq!["No comments here. Press c to add one."@]);
    }
    out
}

// ---------------------------------------------------------------------------
// New comments
// ---------------------------------------------------------------------------

/// What adding a comment on the selected code would make of the store, and
/// the comment; nothing where no code is selected.  The caller writes the
/// document and then applies the change.
pub fn add_comment(
    snapshot: &DiffSnapshot,
    store: &Store,
    state: &State,
    body: &str,
    author: &str,
    now: &str,
) -> (r: Option<(CommentsChange, Comment)>)
    requires
        viewable(*snapshot, state@),
    ensures
        ({
            let files = file_models(snapshot.files@);
            let f = files[state.active_file as int];
            match (r, comment_place(f, rows_of(files, state@), state@)) {
                (Some((change, comment)), Some((line, header, end))) => {
                    &&& comment@ == new_comment(
                        snapshot.repository.repo_id@,
                        snapshot.review_target.target_id@,
                        f,
                        line,
                        header,
                        end,
                        body@,
                        author@,
                        now@,
                    )
                    &&& comment_models(change.comments@) == store@.comments.push(comment@)
                    &&& model(change.document) == comments_document(
                        store@,
                        store@.comments.push(comment@),
                    )
                },
                (None, None) => true,
                _ => false,
            }
        }),
{
    let file = &snapshot.files[state.active_file];
    let view = state.file_view(snapshot);
    proof {
        lemma_view_rows(
            view,
            file_models(snapshot.files@),
            state@,
            crate::tui::bare_layout(1, 3),
        );
    }
    match comment_anchor(file, &view, state) {
        Some((line, header, end)) => Some(
            store.add_comment(
                snapshot.repository.repo_id.as_str(),
                snapshot.review_target.target_id.as_str(),
                file,
                line,
                header,
                end,
                body,
                author,
                now,
            ),
        ),
        None => None,
    }
}

} // verus!

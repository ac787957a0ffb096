//! What holds of comments: which line they are put on, which lines they are
//! about, how they match, and which are removed.
use vstd::prelude::*;
use crate::cli::{line_numbered, place_numbered, removed_by};
use crate::diff::{DiffLineKind, FileModel, HunkModel, LineModel};
use crate::store::{
    file_with_path, kept_comments, new_comment, refreshed, CommentModel, MatchStatus,
};
use crate::tui_comments::{is_about, is_on_row};
use crate::tui_view::{
    chunk, head_rows, hunk_rows, numbered_rows, plain_rows, rows_of_hunk, rows_of_hunks, RowModel,
    Setting, ViewMode,
};

verus! {

// ---------------------------------------------------------------------------
// The line that a number stands for
// ---------------------------------------------------------------------------

/// Whether a line has a number on one of its sides.
pub open spec fn carries(l: LineModel, number: u32) -> bool {
    l.old_lineno == Some(number) || l.new_lineno == Some(number)
}

/// Whether a line of a hunk is the first of all hunks with a number.
pub open spec fn is_first_with(hunks: Seq<HunkModel>, number: u32, h: int, k: int) -> bool {
    &&& 0 <= h < hunks.len()
    &&& 0 <= k < hunks[h].lines.len()
    &&& carries(hunks[h].lines[k], number)
    &&& forall|i: int, j: int|
        #![trigger hunks[i].lines[j]]
        0 <= i < hunks.len() && 0 <= j < hunks[i].lines.len() && (i < h || (i == h && j < k))
            ==> !carries(hunks[i].lines[j], number)
}

proof fn lemma_line_numbered(lines: Seq<LineModel>, number: u32)
    ensures
        match line_numbered(lines, number) {
            Some(l) => exists|k: int|
                0 <= k < lines.len() && #[trigger] lines[k] == l && carries(l, number) && forall|
                    j: int,
                |
                    0 <= j < k ==> !carries(#[trigger] lines[j], number),
            None => forall|j: int| 0 <= j < lines.len() ==> !carries(#[trigger] lines[j], number),
        },
    decreases lines.len(),
{
    if lines.len() > 0 && !carries(lines[0], number) {
        let t = lines.skip(1);
        lemma_line_numbered(t, number);
        match line_numbered(t, number) {
            Some(l) => {
                let k = choose|k: int|
                    0 <= k < t.len() && #[trigger] t[k] == l && carries(l, number) && forall|j: int|
                        0 <= j < k ==> !carries(#[trigger] t[j], number);
                assert(lines[k + 1] == l);
                assert forall|j: int| 0 <= j < k + 1 implies !carries(#[trigger] lines[j], number) by {
                    if j > 0 {
                        assert(t[j - 1] == lines[j]);
                    }
                }
            },
            None => {
                assert forall|j: int| 0 <= j < lines.len() implies !carries(
                    #[trigger] lines[j],
                    number,
                ) by {
                    if j > 0 {
                        assert(t[j - 1] == lines[j]);
                    }
                }
            },
        }
    } else if lines.len() > 0 {
        assert(lines[0] == line_numbered(lines, number)->0);
    }
}

/// A number is looked for in every hunk: the line that it stands for is the
/// first one that has it on either side, with the heading of its hunk, and
/// there is none only where no line of any hunk has it.
pub proof fn law_number_finds_its_line(hunks: Seq<HunkModel>, number: u32)
    ensures
        match place_numbered(hunks, number) {
            Some((l, header)) => exists|h: int, k: int|
                is_first_with(hunks, number, h, k) && #[trigger] hunks[h].lines[k] == l
                    && hunks[h].header == header,
            None => forall|h: int, k: int|
                0 <= h < hunks.len() && 0 <= k < hunks[h].lines.len() ==> !carries(
                    #[trigger] hunks[h].lines[k],
                    number,
                ),
        },
    decreases hunks.len(),
{
    if hunks.len() > 0 {
        let lines = hunks[0].lines;
        lemma_line_numbered(lines, number);
        match line_numbered(lines, number) {
            Some(l) => {
                let k = choose|k: int|
                    0 <= k < lines.len() && #[trigger] lines[k] == l && carries(l, number)
                        && forall|j: int| 0 <= j < k ==> !carries(#[trigger] lines[j], number);
                assert(is_first_with(hunks, number, 0, k));
                assert(hunks[0].lines[k] == l);
            },
            None => {
                let t = hunks.skip(1);
                law_number_finds_its_line(t, number);
                assert forall|i: int, j: int|
                    #![trigger hunks[i].lines[j]]
                    0 <= i < hunks.len() && 0 <= j < hunks[i].lines.len() && i == 0 implies !carries(
                    hunks[i].lines[j],
                    number,
                ) by {
                    assert(lines[j] == hunks[i].lines[j]);
                }
                match place_numbered(t, number) {
                    Some((l, header)) => {
                        let (h, k) = choose|h: int, k: int|
                            is_first_with(t, number, h, k) && #[trigger] t[h].lines[k] == l
                                && t[h].header == header;
                        assert forall|i: int, j: int|
                            #![trigger hunks[i].lines[j]]
                            0 <= i < hunks.len() && 0 <= j < hunks[i].lines.len() && (i < h + 1
                                || (i == h + 1 && j < k)) implies !carries(
                            hunks[i].lines[j],
                            number,
                        ) by {
                            if i > 0 {
                                assert(t[i - 1] == hunks[i]);
                                assert(!carries(t[i - 1].lines[j], number));
                            }
                        }
                        assert(t[h] == hunks[h + 1]);
                        assert(is_first_with(hunks, number, h + 1, k));
                        assert(hunks[h + 1].lines[k] == l);
                    },
                    None => {
                        assert forall|h: int, k: int|
                            0 <= h < hunks.len() && 0 <= k < hunks[h].lines.len() implies !carries(
                            #[trigger] hunks[h].lines[k],
                            number,
                        ) by {
                            if h > 0 {
                                assert(t[h - 1] == hunks[h]);
                                assert(!carries(t[h - 1].lines[k], number));
                            }
                        }
                    },
                }
            },
        }
    }
}

/// A path finds the first file that has it, and none only where no file has.
pub proof fn law_path_finds_its_file(files: Seq<FileModel>, path: Seq<char>)
    ensures
        match file_with_path(files, path) {
            Some(f) => exists|k: int|
                0 <= k < files.len() && #[trigger] files[k] == f && f.path == path && forall|j: int|
                    0 <= j < k ==> (#[trigger] files[j]).path != path,
            None => forall|k: int| 0 <= k < files.len() ==> (#[trigger] files[k]).path != path,
        },
    decreases files.len(),
{
    if files.len() > 0 {
        if files[0].path == path {
            assert(files[0] == file_with_path(files, path)->0);
        } else {
            let t = files.skip(1);
            law_path_finds_its_file(t, path);
            match file_with_path(t, path) {
                Some(f) => {
                    let k = choose|k: int|
                        0 <= k < t.len() && #[trigger] t[k] == f && f.path == path && forall|j: int|
                            0 <= j < k ==> (#[trigger] t[j]).path != path;
                    assert(files[k + 1] == f);
                    assert forall|j: int| 0 <= j < k + 1 implies (#[trigger] files[j]).path
                        != path by {
                        if j > 0 {
                            assert(t[j - 1] == files[j]);
                        }
                    }
                },
                None => {
                    assert forall|k: int| 0 <= k < files.len() implies (#[trigger] files[k]).path
                        != path by {
                        if k > 0 {
                            assert(t[k - 1] == files[k]);
                        }
                    }
                },
            }
        }
    }
}

// ---------------------------------------------------------------------------
// The lines that a comment is about
// ---------------------------------------------------------------------------

proof fn lemma_sides_differ()
    ensures
        "old"@ != "new"@,
{
    reveal_strlit("old");
    reveal_strlit("new");
    assert("old"@[0] == 'o' && "new"@[0] == 'n');
}

/// A comment on the new side is about no deleted line, and one on the old side
/// about no added line, whatever their numbers; and a comment is about lines
/// of its own file and target only, with a number that lies between its first
/// line and its last.
pub proof fn law_comment_keeps_its_side(
    c: CommentModel,
    path: Seq<char>,
    l: LineModel,
    target: Seq<char>,
)
    requires
        is_about(c, path, l, target),
    ensures
        c.file_path == path,
        c.review_target_id == target,
        c.side == "new"@ ==> l.kind != DiffLineKind::Delete,
        c.side == "old"@ ==> l.kind != DiffLineKind::Add,
        l.kind == DiffLineKind::Delete ==> c.side == "old"@,
        l.kind == DiffLineKind::Add ==> c.side == "new"@,
        l.kind != DiffLineKind::Meta,
        exists|n: u32|
            (#[trigger] carries(l, n)) && (c.start_line <= n || c.end_line <= n) && (n
                <= c.start_line || n <= c.end_line),
{
    lemma_sides_differ();
    let n = crate::tui::number_of(l)->0;
    assert(carries(l, n));
}

/// The number of a line on the side that it is counted on: the old one for a
/// deleted line, the new one for an added line, and for context the new one,
/// where it has one.
pub open spec fn counted(l: LineModel, n: u32) -> bool {
    match l.kind {
        DiffLineKind::Delete => l.old_lineno == Some(n),
        DiffLineKind::Add => l.new_lineno == Some(n),
        DiffLineKind::Context => l.new_lineno == Some(n) || (l.new_lineno is None && l.old_lineno
            == Some(n)),
        DiffLineKind::Meta => false,
    }
}

/// A comment that has just been written on lines from `l` to the number `last`
/// is about just those lines of its file whose numbers lie between, on the
/// side of `l` or on both.
pub proof fn law_new_comment_is_about_its_lines(
    repository: Seq<char>,
    target: Seq<char>,
    f: FileModel,
    l: LineModel,
    header: Seq<char>,
    last: u32,
    body: Seq<char>,
    author: Seq<char>,
    now: Seq<char>,
    first: u32,
    x: LineModel,
)
    requires
        counted(l, first),
        l.kind != DiffLineKind::Meta,
    ensures
        is_about(
            new_comment(repository, target, f, l, header, last, body, author, now),
            f.path,
            x,
            target,
        ) <==> {
            let end = if last == 0 {
                first
            } else {
                last
            };
            &&& x.kind == DiffLineKind::Context || (x.kind == DiffLineKind::Delete) == (l.kind
                == DiffLineKind::Delete)
            &&& exists|n: u32|
                (#[trigger] counted(x, n)) && (first <= n <= end || end <= n <= first)
        },
{
    lemma_sides_differ();
    let c = new_comment(repository, target, f, l, header, last, body, author, now);
    let end = if last == 0 {
        first
    } else {
        last
    };
    assert(c.start_line == first);
    if first == 0 && last == 0 {
        assert(c.end_line == 0);
    }
    match crate::tui::number_of(x) {
        Some(n) => {
            assert(counted(x, n));
            assert forall|m: u32| #[trigger] counted(x, m) implies m == n by {}
        },
        None => {
            assert forall|m: u32| !#[trigger] counted(x, m) by {}
        },
    }
}

/// A comment that has just been written on one changed line is about that
/// line, and about no line of the other side, whatever its number.
pub proof fn law_new_comment_on_one_line(
    repository: Seq<char>,
    target: Seq<char>,
    f: FileModel,
    l: LineModel,
    header: Seq<char>,
    body: Seq<char>,
    author: Seq<char>,
    now: Seq<char>,
    n: u32,
    x: LineModel,
)
    requires
        l.kind == DiffLineKind::Add && l.new_lineno == Some(n) || l.kind == DiffLineKind::Delete
            && l.old_lineno == Some(n),
    ensures
        ({
            let c = new_comment(repository, target, f, l, header, n, body, author, now);
            &&& is_about(c, f.path, l, target)
            &&& is_about(c, f.path, x, target) ==> carries(x, n)
            &&& l.kind == DiffLineKind::Add && x.kind == DiffLineKind::Delete ==> !is_about(
                c,
                f.path,
                x,
                target,
            )
            &&& l.kind == DiffLineKind::Delete && x.kind == DiffLineKind::Add ==> !is_about(
                c,
                f.path,
                x,
                target,
            )
        }),
{
    let c = new_comment(repository, target, f, l, header, n, body, author, now);
    assert(counted(l, n));
    law_new_comment_is_about_its_lines(
        repository, target, f, l, header, n, body, author, now, n, l,
    );
    law_new_comment_is_about_its_lines(
        repository, target, f, l, header, n, body, author, now, n, x,
    );
    if is_about(c, f.path, x, target) {
        let m = choose|m: u32| (#[trigger] counted(x, m)) && (n <= m <= n || n <= m <= n);
        assert(carries(x, m));
    }
}

// ---------------------------------------------------------------------------
// Rows
// ---------------------------------------------------------------------------

/// Rows of the stacked layout show one line each.
pub open spec fn single_lines(rows: Seq<RowModel>) -> bool {
    forall|k: int| 0 <= k < rows.len() ==> (#[trigger] rows[k]).left is None && rows[k].right is None
}

proof fn lemma_single_add(a: Seq<RowModel>, b: Seq<RowModel>)
    requires
        single_lines(a),
        single_lines(b),
    ensures
        single_lines(a + b),
{
    let c = a + b;
    assert forall|k: int| 0 <= k < c.len() implies (#[trigger] c[k]).left is None
        && c[k].right is None by {
        if k < a.len() {
            assert(c[k] == a[k]);
        } else {
            assert(c[k] == b[k - a.len()]);
        }
    }
}

proof fn lemma_single_hunk(lines: Seq<LineModel>, c: Setting, i: int, ordinal: int)
    requires
        c.mode == ViewMode::Stacked,
    ensures
        single_lines(hunk_rows(lines, c, i, ordinal)),
    decreases lines.len() - i,
{
    let (rows, next, next_ordinal) = chunk(lines, c, i, ordinal);
    if !(i < 0 || i >= lines.len() || next <= i || next > lines.len()) {
        lemma_single_hunk(lines, c, next, next_ordinal);
        lemma_single_add(rows, hunk_rows(lines, c, next, next_ordinal));
    }
}

proof fn lemma_single_hunks(hunks: Seq<HunkModel>, c: Setting, n: int)
    requires
        c.mode == ViewMode::Stacked,
    ensures
        single_lines(rows_of_hunks(hunks, c, n)),
    decreases n,
{
    if n > 0 {
        let e = Setting { hunk_index: (n - 1) as usize, ..c };
        lemma_single_hunks(hunks, c, n - 1);
        lemma_single_hunk(hunks[n - 1].lines, e, 0, 0);
        lemma_single_add(rows_of_hunks(hunks, c, n - 1), rows_of_hunk(hunks[n - 1], e));
    }
}

/// In the stacked view, a comment that has just been written on one changed
/// line is on the row of that line, and every other row that it is on shows a
/// line with the same number that is not of the other side.
pub proof fn law_new_comment_on_its_row(
    repository: Seq<char>,
    target: Seq<char>,
    f: FileModel,
    l: LineModel,
    header: Seq<char>,
    body: Seq<char>,
    author: Seq<char>,
    now: Seq<char>,
    n: u32,
    c: Setting,
    row: int,
)
    requires
        l.kind == DiffLineKind::Add && l.new_lineno == Some(n) || l.kind == DiffLineKind::Delete
            && l.old_lineno == Some(n),
        c.mode == ViewMode::Stacked,
        0 <= row < plain_rows(f, c).len(),
    ensures
        ({
            let comment = new_comment(repository, target, f, l, header, n, body, author, now);
            let r = numbered_rows(plain_rows(f, c))[row];
            &&& r.line == Some(l) ==> is_on_row(comment, f.path, r, target)
            &&& is_on_row(comment, f.path, r, target) ==> (r.line matches Some(x) && carries(
                x,
                n,
            ) && (x.kind == l.kind || x.kind == DiffLineKind::Context))
        }),
{
    let comment = new_comment(repository, target, f, l, header, n, body, author, now);
    let r = numbered_rows(plain_rows(f, c))[row];
    lemma_single_hunks(f.hunks, c, f.hunks.len() as int);
    lemma_single_add(head_rows(f), rows_of_hunks(f.hunks, c, f.hunks.len() as int));
    assert(plain_rows(f, c)[row].left is None && plain_rows(f, c)[row].right is None);
    if let Some(x) = r.line {
        law_new_comment_on_one_line(repository, target, f, l, header, body, author, now, n, x);
        if is_about(comment, f.path, x, target) {
            law_comment_keeps_its_side(comment, f.path, x, target);
        }
    }
}

// ---------------------------------------------------------------------------
// Matching and removal
// ---------------------------------------------------------------------------

/// A comment matches exactly while its file has the patch that it was written
/// on, is stale when the patch has changed, and missing when the file is gone;
/// nothing else of it changes, and a comment of another target not at all.
pub proof fn law_match_follows_the_patch(
    c: CommentModel,
    files: Seq<FileModel>,
    target: Seq<char>,
    k: int,
)
    requires
        forall|i: int, j: int|
            0 <= i < j < files.len() ==> (#[trigger] files[i]).path != (#[trigger] files[j]).path,
    ensures
        c.review_target_id != target ==> refreshed(c, files, target) == c,
        refreshed(c, files, target) == (CommentModel {
            match_status: refreshed(c, files, target).match_status,
            ..c
        }),
        c.review_target_id == target && 0 <= k < files.len() && files[k].path == c.file_path ==> {
            &&& refreshed(c, files, target).match_status == MatchStatus::Exact <==> files[k].patch_fingerprint
                == c.patch_fingerprint
            &&& refreshed(c, files, target).match_status == MatchStatus::Stale <==> files[k].patch_fingerprint
                != c.patch_fingerprint
        },
        c.review_target_id == target && (forall|j: int|
            0 <= j < files.len() ==> (#[trigger] files[j]).path != c.file_path) ==> refreshed(
            c,
            files,
            target,
        ).match_status == MatchStatus::Missing,
{
    law_path_finds_its_file(files, c.file_path);
    if let Some(f) = file_with_path(files, c.file_path) {
        let j = choose|j: int|
            0 <= j < files.len() && #[trigger] files[j] == f && f.path == c.file_path && forall|
                i: int,
            |
                0 <= i < j ==> (#[trigger] files[i]).path != c.file_path;
        if 0 <= k < files.len() && files[k].path == c.file_path {
            assert(k == j);
        }
    }
}

/// A comment that has just been written on a file matches exactly.
pub proof fn law_new_comment_matches(
    repository: Seq<char>,
    target: Seq<char>,
    f: FileModel,
    l: LineModel,
    header: Seq<char>,
    last: u32,
    body: Seq<char>,
    author: Seq<char>,
    now: Seq<char>,
)
    ensures
        ({
            let c = new_comment(repository, target, f, l, header, last, body, author, now);
            &&& c.match_status == MatchStatus::Exact
            &&& refreshed(c, seq![f], target) == c
            &&& c.body == body
            &&& c.author == author
            &&& c.hunk_header == header
            &&& c.stable_line_id == l.stable_line_id
            &&& c.repository_id == repository
            &&& c.created_at == now
            &&& c.updated_at == now
        }),
{
    let files = seq![f];
    assert(file_with_path(files, f.path) == Some(f));
}

/// What clean-up keeps, in order: without `all`, the comments of other targets
/// and files and those that still match; with `all`, those of other files.
pub open spec fn survives(
    c: CommentModel,
    target: Seq<char>,
    filter: Option<Seq<char>>,
    all: bool,
) -> bool {
    ||| filter is Some && filter->0 != c.file_path
    ||| !all && c.review_target_id != target
    ||| !all && (c.match_status == MatchStatus::Exact || c.match_status == MatchStatus::Relocated)
}

/// Clean-up keeps the comments that survive, all of them, and in their order.
pub proof fn law_clean_up_keeps_survivors(
    v: Seq<CommentModel>,
    target: Seq<char>,
    filter: Option<Seq<char>>,
    all: bool,
)
    ensures
        kept_comments(v, removed_by(target, filter, all), v.len() as int) == v.filter(
            |c: CommentModel| survives(c, target, filter, all),
        ),
{
    lemma_kept_filter(v, target, filter, all, v.len() as int);
    assert(v.take(v.len() as int) =~= v);
}

proof fn lemma_kept_filter(
    v: Seq<CommentModel>,
    target: Seq<char>,
    filter: Option<Seq<char>>,
    all: bool,
    n: int,
)
    requires
        0 <= n <= v.len(),
    ensures
        kept_comments(v, removed_by(target, filter, all), n) == v.take(n).filter(
            |c: CommentModel| survives(c, target, filter, all),
        ),
    decreases n,
{
    reveal(Seq::filter);
    let p = |c: CommentModel| survives(c, target, filter, all);
    if n > 0 {
        lemma_kept_filter(v, target, filter, all, n - 1);
        assert(v.take(n).drop_last() =~= v.take(n - 1));
        assert(v.take(n).last() == v[n - 1]);
    } else {
        assert(v.take(n) =~= Seq::<CommentModel>::empty());
    }
}

} // verus!

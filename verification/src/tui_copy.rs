//! Labels, the text that is copied, and the comments at the cursor.
use base64::engine::general_purpose::STANDARD;
use base64::Engine;
use vstd::prelude::*;
use vstd::utf8::encode_utf8;
use crate::diff::{
    file_models, DiffFile, DiffLine, DiffLineKind, DiffSnapshot, FileModel, LineModel,
};
use crate::tui::{line_number, number_of, rows_of, viewable, State, StateModel};
use crate::tui_keys::{selected_rows, selection_bounds};
use crate::tui_nav::lemma_view_rows;
use crate::tui_text::{cleaned, is_control, law_plain_has_no_control, plain_text};
use crate::tui_view::{
    all_lines, comment_line_of, count_kind, row_models, FileView, RowKind, RowModel, VisualRow,
};
use crate::util::{decimal, push_decimal, push_text, same_text, texts};

verus! {

// ---------------------------------------------------------------------------
// Labels
// ---------------------------------------------------------------------------

/// The side of a diff on which a line is counted.
pub open spec fn side_of(l: LineModel) -> Seq<char> {
    if l.kind == DiffLineKind::Delete {
        "old"@
    } else {
        "new"@
    }
}

pub fn line_side(line: &DiffLine) -> (r: &'static str)
    ensures
        r@ == side_of(line@),
{
    if line.kind == DiffLineKind::Delete {
        "old"
    } else {
        "new"
    }
}

/// What a row without a line of code is called.
pub open spec fn kind_text(kind: RowKind) -> Seq<char> {
    match kind {
        RowKind::FileHeader => "file"@,
        RowKind::HunkHeader => "hunk"@,
        RowKind::Fold => "fold"@,
        _ => "meta"@,
    }
}

/// Where the cursor is: a side and a line number, or what the row is called.
pub open spec fn position_text(rows: Seq<RowModel>, s: StateModel) -> Seq<char> {
    if s.cursor_row < rows.len() {
        let row = rows[s.cursor_row as int];
        match comment_line_of(row) {
            Some(l) => if number_of(l) is Some {
                side_of(l) + ":"@ + decimal(number_of(l)->0 as nat)
            } else {
                kind_text(row.kind)
            },
            None => kind_text(row.kind),
        }
    } else {
        seq![]
    }
}

pub fn cursor_position(view: &FileView<'_>, state: &State) -> (r: String)
    ensures
        r@ == position_text(row_models(view.rows@), state@),
{
    let mut out = String::new();
    if state.cursor_row >= view.rows.len() {
        assert(out@ =~= seq![]);
        return out;
    }
    let row = &view.rows[state.cursor_row];
    assert(row_models(view.rows@)[state.cursor_row as int] == row@);
    if let Some(line) = row.comment_line() {
        if let Some(number) = line_number(line) {
            push_text(&mut out, line_side(line));
            push_text(&mut out, ":");
            push_decimal(&mut out, number as u64);
            assert(out@ =~= side_of(line@) + ":"@ + decimal(number as nat));
            return out;
        }
    }
    match row.kind {
        RowKind::FileHeader => "file".to_string(),
        RowKind::HunkHeader => "hunk".to_string(),
        RowKind::Fold => "fold".to_string(),
        _ => "meta".to_string(),
    }
}

/// The number of rows from one to another, both counted.
pub open spec fn rows_between(a: usize, b: usize) -> nat {
    if a <= b {
        (b - a + 1) as nat
    } else {
        (a - b + 1) as nat
    }
}

/// The state of the cursor for the footer.
pub open spec fn cursor_text(rows: Seq<RowModel>, s: StateModel) -> Seq<char> {
    match s.selection_start {
        Some(start) => "SELECT "@ + decimal(rows_between(start, s.cursor_row)) + " rows  "@
            + position_text(rows, s),
        None => "CODE "@ + position_text(rows, s),
    }
}

pub fn cursor_label(view: &FileView<'_>, state: &State) -> (r: String)
    requires
        state.cursor_row < usize::MAX,
        state.selection_start != Some(usize::MAX),
    ensures
        r@ == cursor_text(row_models(view.rows@), state@),
{
    let position = cursor_position(view, state);
    let mut out = String::new();
    match state.selection_start {
        Some(start) => {
            let rows: usize = if start <= state.cursor_row {
                state.cursor_row - start + 1
            } else {
                start - state.cursor_row + 1
            };
            push_text(&mut out, "SELECT ");
            push_decimal(&mut out, rows as u64);
            push_text(&mut out, " rows  ");
            push_text(&mut out, position.as_str());
        },
        None => {
            push_text(&mut out, "CODE ");
            push_text(&mut out, position.as_str());
        },
    }
    assert(out@ =~= cursor_text(row_models(view.rows@), state@));
    out
}

/// The path of a file, with the path that it had before where that differs.
pub open spec fn path_text(f: FileModel) -> Seq<char> {
    match f.old_path {
        Some(old) => if old == f.path {
            f.path
        } else {
            old + " -> "@ + f.path
        },
        None => f.path,
    }
}

pub fn display_path(file: &DiffFile) -> (r: String)
    ensures
        r@ == path_text(file@),
{
    match &file.old_path {
        Some(old) => {
            if same_text(old.as_str(), file.path.as_str()) {
                file.path.clone()
            } else {
                let mut out = String::new();
                push_text(&mut out, old.as_str());
                push_text(&mut out, " -> ");
                push_text(&mut out, file.path.as_str());
                assert(out@ =~= path_text(file@));
                out
            }
        },
        None => file.path.clone(),
    }
}

/// How many lines a file loses and gains; a count of zero is left out.
pub open spec fn stats_text(deletions: nat, additions: nat) -> Seq<char> {
    if deletions == 0 && additions == 0 {
        seq![]
    } else if deletions == 0 {
        "+"@ + decimal(additions)
    } else if additions == 0 {
        "-"@ + decimal(deletions)
    } else {
        "-"@ + decimal(deletions) + " +"@ + decimal(additions)
    }
}

pub fn file_stats(view: &FileView<'_>) -> (r: String)
    ensures
        r@ == stats_text(view.deletions as nat, view.additions as nat),
{
    let mut out = String::new();
    if view.deletions > 0 {
        push_text(&mut out, "-");
        push_decimal(&mut out, view.deletions as u64);
        if view.additions > 0 {
            push_text(&mut out, " +");
            push_decimal(&mut out, view.additions as u64);
        }
    } else if view.additions > 0 {
        push_text(&mut out, "+");
        push_decimal(&mut out, view.additions as u64);
    }
    assert(out@ =~= stats_text(view.deletions as nat, view.additions as nat));
    out
}

// ---------------------------------------------------------------------------
// Copying
// ---------------------------------------------------------------------------

/// A line as it stands in a patch.
pub open spec fn patch_line(l: LineModel) -> Seq<char> {
    match l.kind {
        DiffLineKind::Add => "+"@ + l.text,
        DiffLineKind::Delete => "-"@ + l.text,
        DiffLineKind::Context => " "@ + l.text,
        DiffLineKind::Meta => l.text,
    }
}

pub fn copy_line(line: &DiffLine) -> (r: String)
    ensures
        r@ == patch_line(line@),
{
    let mut out = String::new();
    match line.kind {
        DiffLineKind::Add => push_text(&mut out, "+"),
        DiffLineKind::Delete => push_text(&mut out, "-"),
        DiffLineKind::Context => push_text(&mut out, " "),
        DiffLineKind::Meta => {},
    }
    push_text(&mut out, line.text.as_str());
    assert(out@ =~= patch_line(line@));
    out
}

/// The heading of a file, with what it loses and gains.
pub open spec fn heading_text(f: FileModel, stats: Seq<char>) -> Seq<char> {
    if stats.len() == 0 {
        path_text(f)
    } else {
        path_text(f) + " ("@ + stats + ")"@
    }
}

/// The texts that are copied for a row.  A context line stands on both sides
/// and is copied once.
pub open spec fn row_texts(f: FileModel, stats: Seq<char>, r: RowModel) -> Seq<Seq<char>> {
    match r.kind {
        RowKind::FileHeader => seq![heading_text(f, stats)],
        RowKind::HunkHeader => seq![
            match r.hunk_header {
                Some(h) => h,
                None => ""@,
            },
        ],
        RowKind::Fold => seq![
            "... "@ + decimal(r.fold_line_count as nat) + " "@ + (if r.fold_expanded {
                "context"@
            } else {
                "hidden"@
            }) + " lines"@,
        ],
        RowKind::StackedCode | RowKind::FileMeta => match r.line {
            Some(l) => seq![patch_line(l)],
            None => seq![],
        },
        RowKind::SplitCode => match (r.left, r.right) {
            (Some(a), Some(b)) => if a.kind == DiffLineKind::Context {
                seq![patch_line(a)]
            } else {
                seq![patch_line(a), patch_line(b)]
            },
            (Some(a), None) => seq![patch_line(a)],
            (None, Some(b)) => seq![patch_line(b)],
            (None, None) => seq![],
        },
    }
}

/// The texts that are copied for the rows from `low` to before `end`.
pub open spec fn rows_texts(
    f: FileModel,
    stats: Seq<char>,
    rows: Seq<RowModel>,
    low: int,
    end: int,
) -> Seq<Seq<char>>
    decreases end - low,
{
    if end <= low {
        seq![]
    } else {
        rows_texts(f, stats, rows, low, end - 1) + row_texts(f, stats, rows[end - 1])
    }
}

/// Texts without control sequences, below each other.
pub open spec fn plain_lines(v: Seq<Seq<char>>) -> Seq<char>
    decreases v.len(),
{
    if v.len() == 0 {
        seq![]
    } else if v.len() == 1 {
        cleaned(v[0], false)
    } else {
        plain_lines(v.drop_last()).push('\n') + cleaned(v.last(), false)
    }
}

/// The texts of the selected rows.
pub open spec fn selected_texts(files: Seq<FileModel>, s: StateModel) -> Seq<Seq<char>> {
    let f = files[s.active_file as int];
    let rows = rows_of(files, s);
    if rows.len() == 0 {
        seq![]
    } else {
        let (low, high) = selected_rows(s, rows.len() as int);
        let stats = stats_text(
            count_kind(all_lines(f), DiffLineKind::Delete),
            count_kind(all_lines(f), DiffLineKind::Add),
        );
        rows_texts(f, stats, rows, low, high + 1)
    }
}

fn push_row_texts(
    lines: &mut Vec<String>,
    file: &DiffFile,
    stats: &str,
    row: &VisualRow<'_>,
)
    ensures
        texts(final(lines)@) == texts(old(lines)@) + row_texts(file@, stats@, row@),
{
    let ghost before = texts(lines@);
    match row.kind {
        RowKind::FileHeader => {
            let mut text = display_path(file);
            if !same_text(stats, "") {
                push_text(&mut text, " (");
                push_text(&mut text, stats);
                push_text(&mut text, ")");
            }
            proof {
                reveal_strlit("");
                assert(stats@.len() == 0 <==> stats@ =~= ""@);
                assert(text@ =~= heading_text(file@, stats@));
            }
            lines.push(text);
        },
        RowKind::HunkHeader => {
            let header = match row.hunk_header {
                Some(h) => h,
                None => "",
            };
            lines.push(header.to_string());
        },
        RowKind::Fold => {
            let mut text = String::new();
            push_text(&mut text, "... ");
            push_decimal(&mut text, row.fold_line_count as u64);
            push_text(&mut text, " ");
            push_text(
                &mut text,
                if row.fold_expanded {
                    "context"
                } else {
                    "hidden"
                },
            );
            push_text(&mut text, " lines");
            assert(text@ =~= row_texts(file@, stats@, row@)[0]);
            lines.push(text);
        },
        RowKind::StackedCode | RowKind::FileMeta => {
            if let Some(line) = row.line {
                lines.push(copy_line(line));
            }
        },
        RowKind::SplitCode => {
            let mut both = false;
            if let Some(left) = row.left {
                lines.push(copy_line(left));
                both = left.kind == DiffLineKind::Context;
            }
            if let Some(right) = row.right {
                if !both {
                    lines.push(copy_line(right));
                }
            }
        },
    }
    assert(texts(lines@) =~= before + row_texts(file@, stats@, row@));
}

/// The selected rows as text, and how many lines that is.
pub fn selected_text(snapshot: &DiffSnapshot, state: &State) -> (r: (String, usize))
    requires
        viewable(*snapshot, state@),
    ensures
        r.0@ == plain_lines(selected_texts(file_models(snapshot.files@), state@)),
        r.1 == selected_texts(file_models(snapshot.files@), state@).len(),
{
    let ghost files = file_models(snapshot.files@);
    let view = state.file_view(snapshot);
    proof {
        lemma_view_rows(view, files, state@, crate::tui::bare_layout(1, 3));
    }
    let ghost rows = rows_of(files, state@);
    let count: usize = view.rows.len();
    let mut lines: Vec<String> = Vec::new();
    if count == 0 {
        return (String::new(), 0);
    }
    let (low, high) = selection_bounds(state, count);
    let file = &snapshot.files[state.active_file];
    assert(files[state.active_file as int] == file@);
    let stats = file_stats(&view);
    let mut i: usize = low;
    assert(texts(lines@) =~= Seq::<Seq<char>>::empty());
    while i <= high
        invariant
            rows == row_models(view.rows@),
            low <= i <= high + 1,
            high < count == view.rows@.len(),
            texts(lines@) == rows_texts(file@, stats@, rows, low as int, i as int),
        decreases high + 1 - i,
    {
        assert(rows[i as int] == view.rows@[i as int]@);
        push_row_texts(&mut lines, file, stats.as_str(), &view.rows[i]);
        i += 1;
    }
    let ghost all = texts(lines@);
    let mut out = String::new();
    let mut k: usize = 0;
    while k < lines.len()
        invariant
            k <= lines@.len(),
            all == texts(lines@),
            out@ == plain_lines(all.take(k as int)),
        decreases lines@.len() - k,
    {
        let ghost now = all.take(k + 1);
        assert(now.drop_last() =~= all.take(k as int));
        assert(now.last() == lines@[k as int]@);
        let text = plain_text(lines[k].as_str());
        if k > 0 {
            out.push('\n');
        }
        push_text(&mut out, text.as_str());
        assert(out@ =~= plain_lines(now));
        k += 1;
    }
    assert(all.take(k as int) =~= all);
    (out, lines.len())
}

/// Copied text holds no control character but the line ends between rows.
pub proof fn law_copied_text_is_plain(v: Seq<Seq<char>>)
    ensures
        forall|k: int|
            0 <= k < plain_lines(v).len() ==> (#[trigger] plain_lines(v)[k]) == '\n' || !is_control(
                plain_lines(v)[k],
            ),
    decreases v.len(),
{
    if v.len() == 1 {
        law_plain_has_no_control(v[0]);
    } else if v.len() > 1 {
        law_copied_text_is_plain(v.drop_last());
        law_plain_has_no_control(v.last());
        let before = plain_lines(v.drop_last());
        let text = cleaned(v.last(), false);
        assert forall|k: int| 0 <= k < plain_lines(v).len() implies (#[trigger] plain_lines(v)[k])
            == '\n' || !is_control(plain_lines(v)[k]) by {
            if k < before.len() {
                assert(plain_lines(v)[k] == before[k]);
            } else if k > before.len() {
                assert(plain_lines(v)[k] == text[k - before.len() - 1]);
            }
        }
    }
}

// ---------------------------------------------------------------------------
// The clipboard of the terminal
// ---------------------------------------------------------------------------

/// A digit of the standard base64 alphabet.
pub open spec fn base64_digit(n: int) -> char {
    if n < 26 {
        (0x41 + n) as char
    } else if n < 52 {
        (0x61 + n - 26) as char
    } else if n < 62 {
        (0x30 + n - 52) as char
    } else if n == 62 {
        '+'
    } else {
        '/'
    }
}

/// Bytes in base64 with the standard alphabet and padding: three bytes are
/// four digits of six bits.
pub open spec fn base64_of(b: Seq<u8>) -> Seq<char>
    decreases b.len(),
{
    if b.len() == 0 {
        seq![]
    } else if b.len() == 1 {
        seq![base64_digit(b[0] as int / 4), base64_digit(b[0] as int % 4 * 16), '=', '=']
    } else if b.len() == 2 {
        seq![
            base64_digit(b[0] as int / 4),
            base64_digit(b[0] as int % 4 * 16 + b[1] as int / 16),
            base64_digit(b[1] as int % 16 * 4),
            '=',
        ]
    } else {
        seq![
            base64_digit(b[0] as int / 4),
            base64_digit(b[0] as int % 4 * 16 + b[1] as int / 16),
            base64_digit(b[1] as int % 16 * 4 + b[2] as int / 64),
            base64_digit(b[2] as int % 64),
        ] + base64_of(b.skip(3))
    }
}

/// `Engine::encode` of the crate base64 with the engine `STANDARD`: the bytes
/// in the standard alphabet, with padding.  It panics where the length of the
/// result does not fit.
#[verifier::external_body]
fn encode_base64(bytes: &[u8]) -> (r: String)
    requires
        (bytes@.len() + 2) / 3 * 4 <= isize::MAX,
    ensures
        r@ == base64_of(bytes@),
{
    STANDARD.encode(bytes)
}

/// The sequence by which a terminal takes a text to its clipboard.
pub open spec fn clipboard_sequence(text: Seq<char>) -> Seq<char> {
    "\x1b]52;c;"@ + base64_of(encode_utf8(text)) + "\x07"@
}

pub fn osc52(text: &str) -> (r: String)
    requires
        (encode_utf8(text@).len() + 2) / 3 * 4 <= isize::MAX,
    ensures
        r@ == clipboard_sequence(text@),
{
    let code = encode_base64(text.as_bytes());
    let mut out = String::new();
    push_text(&mut out, "\x1b]52;c;");
    push_text(&mut out, code.as_str());
    push_text(&mut out, "\x07");
    assert(out@ =~= clipboard_sequence(text@));
    out
}

proof fn lemma_digit_plain(n: int)
    requires
        0 <= n < 64,
    ensures
        !is_control(base64_digit(n)),
{
}

proof fn lemma_base64_plain(b: Seq<u8>)
    ensures
        forall|k: int| 0 <= k < base64_of(b).len() ==> !is_control(#[trigger] base64_of(b)[k]),
    decreases b.len(),
{
    if b.len() > 0 {
        lemma_digit_plain(b[0] as int / 4);
        lemma_digit_plain(b[0] as int % 4 * 16);
    }
    if b.len() > 1 {
        lemma_digit_plain(b[0] as int % 4 * 16 + b[1] as int / 16);
        lemma_digit_plain(b[1] as int % 16 * 4);
    }
    if b.len() > 2 {
        lemma_digit_plain(b[1] as int % 16 * 4 + b[2] as int / 64);
        lemma_digit_plain(b[2] as int % 64);
        lemma_base64_plain(b.skip(3));
        let rest = base64_of(b.skip(3));
        assert forall|k: int| 4 <= k < base64_of(b).len() implies !is_control(
            #[trigger] base64_of(b)[k],
        ) by {
            assert(base64_of(b)[k] == rest[k - 4]);
        }
    }
}

/// Whatever the text, the terminal reads one sequence: no character between
/// its start and its end can end it or start another.
pub proof fn law_clipboard_cannot_execute(text: Seq<char>)
    ensures
        forall|k: int|
            7 <= k < clipboard_sequence(text).len() - 1 ==> !is_control(
                #[trigger] clipboard_sequence(text)[k],
            ),
{
    reveal_strlit("\x1b]52;c;");
    reveal_strlit("\x07");
    lemma_base64_plain(encode_utf8(text));
    let code = base64_of(encode_utf8(text));
    assert forall|k: int| 7 <= k < clipboard_sequence(text).len() - 1 implies !is_control(
        #[trigger] clipboard_sequence(text)[k],
    ) by {
        assert(clipboard_sequence(text)[k] == code[k - 7]);
    }
}

} // verus!

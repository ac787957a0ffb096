//! The rows of the screen.
use vstd::prelude::*;
use crate::diff::{DiffFile, DiffLine, DiffLineKind, FileModel, LineModel};
use crate::inline_diff::{byte_ranges, changed_cuts, diff_ranges, PairRanges, Range};
use crate::store::{count_comments, on_file, CommentModel, Store};
use crate::theme::{Ansi, ThemeTokens};
use crate::tui::{
    continuation_indent, line_number, minus, number_of, row_selected, text_columns, wrap_widths,
    Focus, State, StateModel, CURSOR_GUTTER,
};
use crate::tui_comments::{comment_matches, is_about};
use crate::tui_copy::{file_stats, stats_text};
use crate::tui_style::{
    apply_inline, cell, inline_background, inline_bg, inline_line, row_background, row_bg, row_fg,
    row_foreground, style_cell,
};
use crate::tui_text::{
    cleaned, control, display_width, is_control, plain_text, push_spaces, spaces, text_width,
};
use crate::tui_view::{opt_line, row_models, FileView, RowKind, RowModel, VisualRow};
use crate::tui_wrap::{wrap_ansi, wrapped};
use crate::util::{chars_of, decimal, decimal_text, push_decimal, push_text, texts};

verus! {

/// What the rows of a file are drawn from.
pub ghost struct Scene {
    pub file: FileModel,
    pub comments: Seq<CommentModel>,
    pub target: Seq<char>,
    pub rows: Seq<RowModel>,
    pub digits: nat,
    pub stats: Seq<char>,
    pub state: StateModel,
    pub ansi: Ansi,
    pub palette: ThemeTokens,
}

/// The coloured lines of a row, where there are any.
#[derive(Debug)]
pub struct RowHighlight {
    pub line: Option<String>,
    pub left: Option<String>,
    pub right: Option<String>,
}

pub ghost struct HighlightModel {
    pub line: Option<Seq<char>>,
    pub left: Option<Seq<char>>,
    pub right: Option<Seq<char>>,
}

pub open spec fn opt_string(s: Option<String>) -> Option<Seq<char>> {
    match s {
        Some(x) => Some(x@),
        None => None,
    }
}

impl View for RowHighlight {
    type V = HighlightModel;

    open spec fn view(&self) -> HighlightModel {
        HighlightModel {
            line: opt_string(self.line),
            left: opt_string(self.left),
            right: opt_string(self.right),
        }
    }
}

/// A row without colours.
pub open spec fn no_highlight() -> HighlightModel {
    HighlightModel { line: None, left: None, right: None }
}

// ---------------------------------------------------------------------------
// Lines of code
// ---------------------------------------------------------------------------

/// A line number in its column.
pub open spec fn number_text(n: Option<u32>, digits: nat) -> Seq<char> {
    match n {
        Some(v) => spaces(minus(digits, decimal(v as nat).len())) + decimal(v as nat),
        None => spaces(digits),
    }
}

/// Whether some comment is about a line.
pub open spec fn has_comment(
    comments: Seq<CommentModel>,
    path: Seq<char>,
    l: LineModel,
    target: Seq<char>,
) -> bool {
    exists|k: int| 0 <= k < comments.len() && is_about(#[trigger] comments[k], path, l, target)
}

/// What stands before the text of a line: a bar for changes in the stacked
/// layout, a mark for comments, and the number.
pub open spec fn line_prefix(
    comments: Seq<CommentModel>,
    path: Seq<char>,
    l: LineModel,
    target: Seq<char>,
    digits: nat,
    stacked: bool,
) -> Seq<char> {
    (if !stacked {
        ""@
    } else if l.kind == DiffLineKind::Add || l.kind == DiffLineKind::Delete {
        "|"@
    } else {
        " "@
    }) + (if has_comment(comments, path, l, target) {
        "!"@
    } else {
        " "@
    }) + " "@ + number_text(number_of(l), digits) + "  "@
}

/// Whether a text can be shown with its colours: it holds no control
/// character but tabs.
pub open spec fn safe_text(s: Seq<char>) -> bool {
    forall|k: int| 0 <= k < s.len() ==> !is_control(#[trigger] s[k]) || s[k] == '\t'
}

/// The text of a line with its colours and its changed parts.
pub open spec fn line_text(
    l: LineModel,
    selected: bool,
    ranges: Seq<Range>,
    highlight: Option<Seq<char>>,
    ansi: Ansi,
    palette: ThemeTokens,
) -> Seq<char> {
    if !safe_text(l.text) {
        cleaned(l.text, false)
    } else {
        inline_line(
            if ansi.enabled && highlight is Some {
                highlight->0
            } else {
                cleaned(l.text, false)
            },
            ranges,
            ansi,
            row_background(selected, l.kind, palette),
            inline_background(selected, l.kind),
        )
    }
}

/// The wrapped rows of a line behind its prefix.
pub open spec fn code_cells(
    l: LineModel,
    prefix: Seq<char>,
    text: Seq<char>,
    width: nat,
    selected: bool,
    ansi: Ansi,
    palette: ThemeTokens,
) -> Seq<Seq<char>> {
    let (first, continuation) = text_columns(width, text_width(prefix), l.text);
    let indent = continuation_indent(width, text_width(prefix), l.text);
    let rows = wrapped(text, first, continuation);
    Seq::new(
        rows.len(),
        |i: int|
            cell(
                (if i == 0 {
                    prefix
                } else {
                    spaces(indent)
                }) + rows[i],
                width,
                ansi,
                row_background(selected, l.kind, palette),
                row_foreground(l.kind, palette),
            ),
    )
}

/// The rows of a line of code; without a line, a blank one.
pub open spec fn code_lines(
    sc: Scene,
    line: Option<LineModel>,
    width: nat,
    selected: bool,
    stacked: bool,
    ranges: Seq<Range>,
    highlight: Option<Seq<char>>,
) -> Seq<Seq<char>> {
    match line {
        Some(l) => code_cells(
            l,
            line_prefix(sc.comments, sc.file.path, l, sc.target, sc.digits, stacked),
            line_text(l, selected, ranges, highlight, sc.ansi, sc.palette),
            width,
            selected,
            sc.ansi,
            sc.palette,
        ),
        None => seq![
            cell(
                ""@,
                width,
                sc.ansi,
                row_background(selected, DiffLineKind::Context, sc.palette),
                sc.palette.fg_muted.hex@,
            ),
        ],
    }
}

fn push_number(out: &mut String, number: Option<u32>, digits: usize)
    ensures
        final(out)@ == old(out)@ + number_text(number, digits as nat),
{
    let ghost before = out@;
    match number {
        Some(n) => {
            let text = decimal_text(n as u64);
            let chars = chars_of(text.as_str());
            let len: usize = chars.len();
            if digits > len {
                push_spaces(out, digits - len);
            } else {
                assert(before + spaces(0) =~= before);
            }
            push_text(out, text.as_str());
            assert(out@ =~= before + number_text(number, digits as nat));
        },
        None => {
            push_spaces(out, digits);
        },
    }
}

fn any_comment(store: &Store, file: &DiffFile, line: &DiffLine, target: &str) -> (r: bool)
    ensures
        r == has_comment(store@.comments, file@.path, line@, target@),
{
    let mut i: usize = 0;
    while i < store.comments.len()
        invariant
            i <= store.comments@.len(),
            forall|k: int|
                0 <= k < i ==> !is_about(
                    #[trigger] store@.comments[k],
                    file@.path,
                    line@,
                    target@,
                ),
        decreases store.comments@.len() - i,
    {
        let comment = &store.comments[i];
        assert(store@.comments[i as int] == comment@);
        if comment_matches(comment, file, line, target) {
            return true;
        }
        i += 1;
    }
    false
}

fn prefix_of(
    store: &Store,
    file: &DiffFile,
    line: &DiffLine,
    target: &str,
    digits: usize,
    stacked: bool,
) -> (r: String)
    ensures
        r@ == line_prefix(
            store@.comments,
            file@.path,
            line@,
            target@,
            digits as nat,
            stacked,
        ),
{
    let mut out = String::new();
    proof {
        reveal_strlit("");
        assert(""@ =~= Seq::<char>::empty());
    }
    if stacked {
        push_text(
            &mut out,
            if line.kind == DiffLineKind::Add || line.kind == DiffLineKind::Delete {
                "|"
            } else {
                " "
            },
        );
    }
    push_text(
        &mut out,
        if any_comment(store, file, line, target) {
            "!"
        } else {
            " "
        },
    );
    push_text(&mut out, " ");
    push_number(&mut out, line_number(line), digits);
    push_text(&mut out, "  ");
    assert(out@ =~= line_prefix(
        store@.comments,
        file@.path,
        line@,
        target@,
        digits as nat,
        stacked,
    ));
    out
}

pub fn is_safe(text: &str) -> (r: bool)
    ensures
        r == safe_text(text@),
{
    let chars = chars_of(text);
    let mut i: usize = 0;
    while i < chars.len()
        invariant
            chars@ == text@,
            i <= chars@.len(),
            forall|k: int| 0 <= k < i ==> !is_control(#[trigger] text@[k]) || text@[k] == '\t',
        decreases chars@.len() - i,
    {
        if control(chars[i]) && chars[i] != '\t' {
            assert(is_control(text@[i as int]));
            return false;
        }
        i += 1;
    }
    true
}

fn text_of_line(
    line: &DiffLine,
    selected: bool,
    ranges: &[Range],
    highlight: &Option<String>,
    ansi: Ansi,
    palette: ThemeTokens,
) -> (r: String)
    ensures
        r@ == line_text(
            line@,
            selected,
            ranges@,
            opt_string(*highlight),
            ansi,
            palette,
        ),
{
    let source = plain_text(line.text.as_str());
    // Colours are offsets into the text as it is: where cleaning changes it
    // there are none.
    if !is_safe(line.text.as_str()) {
        return source;
    }
    let shown = match highlight {
        Some(text) => if ansi.enabled {
            text.as_str()
        } else {
            source.as_str()
        },
        None => source.as_str(),
    };
    apply_inline(
        shown,
        ranges,
        ansi,
        row_bg(selected, line.kind, palette),
        inline_bg(selected, line.kind),
    )
}

fn cells_of_line(
    line: &DiffLine,
    prefix: &str,
    text: &str,
    width: usize,
    selected: bool,
    ansi: Ansi,
    palette: ThemeTokens,
) -> (r: Vec<String>)
    ensures
        texts(r@) == code_cells(
            line@,
            prefix@,
            text@,
            width as nat,
            selected,
            ansi,
            palette,
        ),
{
    let (first, continuation, indent) = wrap_widths(
        width,
        display_width(prefix),
        line.text.as_str(),
    );
    let rows = wrap_ansi(text, first, continuation);
    let bg = row_bg(selected, line.kind, palette);
    let fg = row_fg(line.kind, palette);
    let ghost spec = code_cells(line@, prefix@, text@, width as nat, selected, ansi, palette);
    let ghost parts = wrapped(text@, first as nat, continuation as nat);
    assert(texts(rows@) == parts);
    assert(spec.len() == rows@.len()) by {
        assert(texts(rows@).len() == rows@.len());
    }
    let mut out: Vec<String> = Vec::new();
    let mut i: usize = 0;
    while i < rows.len()
        invariant
            i <= rows@.len(),
            texts(rows@) == parts,
            spec == code_cells(line@, prefix@, text@, width as nat, selected, ansi, palette),
            parts == wrapped(text@, first as nat, continuation as nat),
            (first as nat, continuation as nat) == text_columns(
                width as nat,
                text_width(prefix@),
                line@.text,
            ),
            indent == continuation_indent(width as nat, text_width(prefix@), line@.text),
            spec.len() == rows@.len(),
            bg.hex@ == row_background(selected, line@.kind, palette),
            fg.hex@ == row_foreground(line@.kind, palette),
            out@.len() == i,
            forall|k: int| 0 <= k < i ==> (#[trigger] out@[k])@ == spec[k],
        decreases rows@.len() - i,
    {
        let mut raw = String::new();
        if i == 0 {
            push_text(&mut raw, prefix);
        } else {
            push_spaces(&mut raw, indent);
        }
        push_text(&mut raw, rows[i].as_str());
        assert(rows@[i as int]@ == parts[i as int]) by {
            assert(texts(rows@)[i as int] == rows@[i as int]@);
        }
        assert(raw@ =~= (if i == 0 {
            prefix@
        } else {
            spaces(indent as nat)
        }) + parts[i as int]);
        let styled = style_cell(raw.as_str(), width, ansi, bg, fg);
        assert(styled@ == spec[i as int]);
        out.push(styled);
        i += 1;
    }
    assert(texts(out@) =~= spec);
    out
}

// ---------------------------------------------------------------------------
// Rows
// ---------------------------------------------------------------------------

/// A text on the background of the panels.
pub open spec fn panel_text(
    text: Seq<char>,
    width: nat,
    selected: bool,
    ansi: Ansi,
    palette: ThemeTokens,
) -> Seq<char> {
    cell(
        cleaned(text, false),
        width,
        ansi,
        if selected {
            palette.bg_selected.hex@
        } else {
            palette.bg_panel.hex@
        },
        palette.fg_muted.hex@,
    )
}

pub fn panel(text: &str, width: usize, selected: bool, ansi: Ansi, palette: ThemeTokens) -> (r:
    String)
    ensures
        r@ == panel_text(text@, width as nat, selected, ansi, palette),
{
    let plain = plain_text(text);
    style_cell(
        plain.as_str(),
        width,
        ansi,
        if selected {
            palette.bg_selected
        } else {
            palette.bg_panel
        },
        palette.fg_muted,
    )
}

/// The number of comments on a file.
pub open spec fn file_comments(comments: Seq<CommentModel>, path: Seq<char>, target: Seq<char>) -> nat {
    count_comments(comments, on_file(path, target), comments.len() as int)
}

/// What the heading of a file says.
pub open spec fn file_heading(sc: Scene) -> Seq<char> {
    let count = file_comments(sc.comments, sc.file.path, sc.target);
    "  "@ + sc.file.status.label_text() + "  "@ + sc.stats + "  "@ + decimal(count) + " comment"@ + (
    if count == 1 {
        ""@
    } else {
        "s"@
    })
}

/// What the marker of a fold says.
pub open spec fn fold_heading(r: RowModel) -> Seq<char> {
    " "@ + (if r.fold_expanded {
        "v"@
    } else {
        ">"@
    }) + "  "@ + decimal(r.fold_line_count as nat) + " "@ + (if r.fold_expanded {
        "context"@
    } else {
        "hidden"@
    }) + " lines"@
}

/// The changed parts of a deletion beside an addition.
pub open spec fn pair_ranges(r: RowModel) -> (Seq<Range>, Seq<Range>) {
    match (r.left, r.right) {
        (Some(a), Some(b)) => if a.kind == DiffLineKind::Delete && b.kind == DiffLineKind::Add {
            let cuts = changed_cuts(a.text, b.text);
            (byte_ranges(a.text, cuts.0), byte_ranges(b.text, cuts.1))
        } else {
            (seq![], seq![])
        },
        _ => (seq![], seq![]),
    }
}

/// The element with an index, or another one.
pub open spec fn line_or(rows: Seq<Seq<char>>, i: int, blank: Seq<char>) -> Seq<char> {
    if 0 <= i < rows.len() {
        rows[i]
    } else {
        blank
    }
}

/// Two lines of code beside each other.
pub open spec fn side_by_side(
    left: Seq<Seq<char>>,
    right: Seq<Seq<char>>,
    left_width: nat,
    right_width: nat,
    selected: bool,
    ansi: Ansi,
    palette: ThemeTokens,
) -> Seq<Seq<char>> {
    let bg = row_background(selected, DiffLineKind::Context, palette);
    let fg = palette.fg_default.hex@;
    let separator = cell(" │ "@, 3, ansi, palette.bg_default.hex@, palette.border.hex@);
    Seq::new(
        if left.len() >= right.len() {
            left.len()
        } else {
            right.len()
        },
        |i: int|
            line_or(left, i, cell(""@, left_width, ansi, bg, fg)) + separator + line_or(
                right,
                i,
                cell(""@, right_width, ansi, bg, fg),
            ),
    )
}

/// The lines of a row behind the gutter.
pub open spec fn inner_lines(sc: Scene, k: int, width: nat, hl: HighlightModel) -> Seq<Seq<char>> {
    let row = sc.rows[k];
    let selected = k == sc.state.cursor_row || row_selected(sc.state, k as usize);
    match row.kind {
        RowKind::FileHeader => seq![
            cell(
                file_heading(sc),
                width,
                sc.ansi,
                if selected {
                    sc.palette.bg_selected.hex@
                } else {
                    sc.palette.bg_panel.hex@
                },
                sc.palette.fg_default.hex@,
            ),
        ],
        RowKind::HunkHeader => seq![
            panel_text(
                match row.hunk_header {
                    Some(h) => h,
                    None => ""@,
                },
                width,
                selected,
                sc.ansi,
                sc.palette,
            ),
        ],
        RowKind::Fold => seq![panel_text(fold_heading(row), width, selected, sc.ansi, sc.palette)],
        RowKind::StackedCode | RowKind::FileMeta => code_lines(
            sc,
            row.line,
            width,
            selected,
            true,
            seq![],
            hl.line,
        ),
        RowKind::SplitCode => if width < 32 {
            if row.right is Some {
                code_lines(sc, row.right, width, selected, true, seq![], hl.right)
            } else {
                code_lines(sc, row.left, width, selected, true, seq![], hl.left)
            }
        } else {
            let left = (width - 3) as nat / 2;
            let right = (width - 3 - left) as nat;
            let ranges = pair_ranges(row);
            side_by_side(
                code_lines(sc, row.left, left, selected, false, ranges.0, hl.left),
                code_lines(sc, row.right, right, selected, false, ranges.1, hl.right),
                left,
                right,
                selected,
                sc.ansi,
                sc.palette,
            )
        },
    }
}

/// The gutter of a line: where the cursor is, and what is selected.
pub open spec fn gutter(sc: Scene, k: int, line: int, width: nat) -> Seq<char> {
    let cursor = k == sc.state.cursor_row && sc.state.focus == Focus::Code && line
        == sc.state.cursor_line;
    cell(
        if cursor {
            "> "@
        } else if row_selected(sc.state, k as usize) {
            "| "@
        } else {
            "  "@
        },
        width,
        sc.ansi,
        sc.palette.bg_panel.hex@,
        if cursor {
            sc.palette.fg_accent.hex@
        } else {
            sc.palette.fg_muted.hex@
        },
    )
}

/// The columns of the gutter.
pub open spec fn gutter_columns(width: nat) -> nat {
    if width <= CURSOR_GUTTER {
        width
    } else {
        CURSOR_GUTTER as nat
    }
}

/// The lines of a row.
pub open spec fn row_lines(sc: Scene, k: int, width: nat, hl: HighlightModel) -> Seq<Seq<char>> {
    let inner = inner_lines(sc, k, minus(width, CURSOR_GUTTER as nat), hl);
    Seq::new(
        inner.len(),
        |i: int| gutter(sc, k, i, gutter_columns(width)) + inner[i],
    )
}

/// What the rows of a file are drawn from.
pub struct Canvas<'a, 'b> {
    pub file: &'a DiffFile,
    pub store: &'a Store,
    pub target: &'a str,
    pub view: &'a FileView<'b>,
    pub state: &'a State,
    pub ansi: Ansi,
    pub palette: ThemeTokens,
}

impl<'a, 'b> View for Canvas<'a, 'b> {
    type V = Scene;

    open spec fn view(&self) -> Scene {
        Scene {
            file: self.file@,
            comments: self.store@.comments,
            target: self.target@,
            rows: row_models(self.view.rows@),
            digits: self.view.line_number_width as nat,
            stats: stats_text(self.view.deletions as nat, self.view.additions as nat),
            state: self.state@,
            ansi: self.ansi,
            palette: self.palette,
        }
    }
}

fn one(line: String) -> (r: Vec<String>)
    ensures
        texts(r@) == seq![line@],
{
    let mut out: Vec<String> = Vec::new();
    out.push(line);
    assert(texts(out@) =~= seq![line@]);
    out
}

impl<'a, 'b> Canvas<'a, 'b> {
    /// The rows of a line of code.
    pub fn code_rows(
        &self,
        line: Option<&DiffLine>,
        width: usize,
        selected: bool,
        stacked: bool,
        ranges: &[Range],
        highlight: &Option<String>,
    ) -> (r: Vec<String>)
        ensures
            texts(r@) == code_lines(
                self@,
                opt_line(line),
                width as nat,
                selected,
                stacked,
                ranges@,
                opt_string(*highlight),
            ),
    {
        match line {
            Some(l) => {
                let prefix = prefix_of(
                    self.store,
                    self.file,
                    l,
                    self.target,
                    self.view.line_number_width,
                    stacked,
                );
                let text = text_of_line(l, selected, ranges, highlight, self.ansi, self.palette);
                cells_of_line(
                    l,
                    prefix.as_str(),
                    text.as_str(),
                    width,
                    selected,
                    self.ansi,
                    self.palette,
                )
            },
            None => one(
                style_cell(
                    "",
                    width,
                    self.ansi,
                    row_bg(selected, DiffLineKind::Context, self.palette),
                    self.palette.fg_muted,
                ),
            ),
        }
    }

    fn heading(&self) -> (r: String)
        ensures
            r@ == file_heading(self@),
    {
        let stats = file_stats(self.view);
        let count: usize = self.store.comment_count(self.file.path.as_str(), self.target);
        let mut out = String::new();
        push_text(&mut out, "  ");
        push_text(&mut out, self.file.status.label());
        push_text(&mut out, "  ");
        push_text(&mut out, stats.as_str());
        push_text(&mut out, "  ");
        push_decimal(&mut out, count as u64);
        push_text(&mut out, " comment");
        if count != 1 {
            push_text(&mut out, "s");
        }
        proof {
            reveal_strlit("");
            assert(""@ =~= Seq::<char>::empty());
            assert(out@ =~= file_heading(self@));
        }
        out
    }

    fn split_rows(&self, row: &VisualRow<'b>, width: usize, selected: bool, hl: &RowHighlight) -> (r:
        Vec<String>)
        requires
            width >= 32,
        ensures
            ({
                let left = (width - 3) as nat / 2;
                let right = (width - 3 - left) as nat;
                let ranges = pair_ranges(row@);
                texts(r@) == side_by_side(
                    code_lines(self@, row@.left, left, selected, false, ranges.0, hl@.left),
                    code_lines(self@, row@.right, right, selected, false, ranges.1, hl@.right),
                    left,
                    right,
                    selected,
                    self.ansi,
                    self.palette,
                )
            }),
    {
        let mut pair = PairRanges::default();
        if let Some(left) = row.left {
            if let Some(right) = row.right {
                if left.kind == DiffLineKind::Delete && right.kind == DiffLineKind::Add {
                    pair = diff_ranges(left.text.as_str(), right.text.as_str());
                }
            }
        }
        assert(pair.old@ =~= pair_ranges(row@).0);
        assert(pair.new@ =~= pair_ranges(row@).1);
        let left_width: usize = (width - 3) / 2;
        let right_width: usize = width - 3 - left_width;
        let left = self.code_rows(
            row.left,
            left_width,
            selected,
            false,
            pair.old.as_slice(),
            &hl.left,
        );
        let right = self.code_rows(
            row.right,
            right_width,
            selected,
            false,
            pair.new.as_slice(),
            &hl.right,
        );
        let bg = row_bg(selected, DiffLineKind::Context, self.palette);
        let blank_left = style_cell("", left_width, self.ansi, bg, self.palette.fg_default);
        let blank_right = style_cell("", right_width, self.ansi, bg, self.palette.fg_default);
        let separator = style_cell(
            " │ ",
            3,
            self.ansi,
            self.palette.bg_default,
            self.palette.border,
        );
        let ghost spec = side_by_side(
            texts(left@),
            texts(right@),
            left_width as nat,
            right_width as nat,
            selected,
            self.ansi,
            self.palette,
        );
        let n: usize = if left.len() >= right.len() {
            left.len()
        } else {
            right.len()
        };
        let mut out: Vec<String> = Vec::new();
        let mut i: usize = 0;
        while i < n
            invariant
                n == spec.len(),
                i <= n,
                spec == side_by_side(
                    texts(left@),
                    texts(right@),
                    left_width as nat,
                    right_width as nat,
                    selected,
                    self.ansi,
                    self.palette,
                ),
                bg.hex@ == row_background(selected, DiffLineKind::Context, self.palette),
                blank_left@ == cell(
                    ""@,
                    left_width as nat,
                    self.ansi,
                    bg.hex@,
                    self.palette.fg_default.hex@,
                ),
                blank_right@ == cell(
                    ""@,
                    right_width as nat,
                    self.ansi,
                    bg.hex@,
                    self.palette.fg_default.hex@,
                ),
                separator@ == cell(
                    " │ "@,
                    3,
                    self.ansi,
                    self.palette.bg_default.hex@,
                    self.palette.border.hex@,
                ),
                out@.len() == i,
                forall|k: int| 0 <= k < i ==> (#[trigger] out@[k])@ == spec[k],
            decreases n - i,
        {
            let mut line = String::new();
            if i < left.len() {
                assert(texts(left@)[i as int] == left@[i as int]@);
                push_text(&mut line, left[i].as_str());
            } else {
                push_text(&mut line, blank_left.as_str());
            }
            push_text(&mut line, separator.as_str());
            if i < right.len() {
                assert(texts(right@)[i as int] == right@[i as int]@);
                push_text(&mut line, right[i].as_str());
            } else {
                push_text(&mut line, blank_right.as_str());
            }
            assert(line@ =~= spec[i as int]);
            out.push(line);
            i += 1;
        }
        assert(texts(out@) =~= spec);
        out
    }

    fn inner_rows(&self, index: usize, width: usize, hl: &RowHighlight) -> (r: Vec<String>)
        requires
            index < self.view.rows@.len(),
        ensures
            texts(r@) == inner_lines(self@, index as int, width as nat, hl@),
    {
        let row = &self.view.rows[index];
        assert(self@.rows[index as int] == row@);
        let selected = index == self.state.cursor_row || self.state.selected(index);
        match row.kind {
            RowKind::FileHeader => {
                let text = self.heading();
                one(
                    style_cell(
                        text.as_str(),
                        width,
                        self.ansi,
                        if selected {
                            self.palette.bg_selected
                        } else {
                            self.palette.bg_panel
                        },
                        self.palette.fg_default,
                    ),
                )
            },
            RowKind::HunkHeader => {
                let header = match row.hunk_header {
                    Some(h) => h,
                    None => "",
                };
                one(panel(header, width, selected, self.ansi, self.palette))
            },
            RowKind::Fold => {
                let mut text = String::new();
                push_text(&mut text, " ");
                push_text(
                    &mut text,
                    if row.fold_expanded {
                        "v"
                    } else {
                        ">"
                    },
                );
                push_text(&mut text, "  ");
                push_decimal(&mut text, row.fold_line_count as u64);
                push_text(&mut text, " ");
                push_text(
                    &mut text,
                    if row.fold_expanded {
                        "context"
                    } else {
                        "hidden"
                    },
                );
                push_text(&mut text, " lines");
                assert(text@ =~= fold_heading(row@));
                one(panel(text.as_str(), width, selected, self.ansi, self.palette))
            },
            RowKind::StackedCode | RowKind::FileMeta => self.code_rows(
                row.line,
                width,
                selected,
                true,
                &[],
                &hl.line,
            ),
            RowKind::SplitCode => if width < 32 {
                if row.right.is_some() {
                    self.code_rows(row.right, width, selected, true, &[], &hl.right)
                } else {
                    self.code_rows(row.left, width, selected, true, &[], &hl.left)
                }
            } else {
                self.split_rows(row, width, selected, hl)
            },
        }
    }

    /// The lines of a row.
    pub fn row(&self, index: usize, width: usize, hl: &RowHighlight) -> (r: Vec<String>)
        requires
            index < self.view.rows@.len(),
        ensures
            texts(r@) == row_lines(self@, index as int, width as nat, hl@),
    {
        let gutter_width: usize = if width <= CURSOR_GUTTER {
            width
        } else {
            CURSOR_GUTTER
        };
        let focused = index == self.state.cursor_row && self.state.focus == Focus::Code;
        let marked = self.state.selected(index);
        let inner = self.inner_rows(index, width - gutter_width, hl);
        let ghost spec = row_lines(self@, index as int, width as nat, hl@);
        let ghost lines = texts(inner@);
        let mut out: Vec<String> = Vec::new();
        let mut i: usize = 0;
        while i < inner.len()
            invariant
                i <= inner@.len(),
                index < self.view.rows@.len(),
                lines == texts(inner@),
                lines == inner_lines(
                    self@,
                    index as int,
                    minus(width as nat, CURSOR_GUTTER as nat),
                    hl@,
                ),
                spec == row_lines(self@, index as int, width as nat, hl@),
                gutter_width == gutter_columns(width as nat),
                focused == (index == self.state.cursor_row && self.state.focus == Focus::Code),
                marked == row_selected(self.state@, index),
                out@.len() == i,
                forall|k: int| 0 <= k < i ==> (#[trigger] out@[k])@ == spec[k],
            decreases inner@.len() - i,
        {
            let cursor = focused && i == self.state.cursor_line;
            let mut line = style_cell(
                if cursor {
                    "> "
                } else if marked {
                    "| "
                } else {
                    "  "
                },
                gutter_width,
                self.ansi,
                self.palette.bg_panel,
                if cursor {
                    self.palette.fg_accent
                } else {
                    self.palette.fg_muted
                },
            );
            assert(line@ == gutter(self@, index as int, i as int, gutter_width as nat));
            assert(lines[i as int] == inner@[i as int]@);
            push_text(&mut line, inner[i].as_str());
            assert(line@ == spec[i as int]);
            out.push(line);
            i += 1;
        }
        assert(texts(out@) =~= spec);
        out
    }
}

} // verus!

//! The editor for comments, docked below the code.
use vstd::prelude::*;
use crate::inline_diff::char_len;
use crate::theme::{Ansi, ThemeTokens};
use crate::tui::{layout_fits, minus, Layout};
use crate::tui_comments::line_end;
use crate::tui_input::{KeyCode, KeyEvent, KeyEventKind, KeyModifiers};
use crate::tui_style::{cell, style_cell};
use crate::tui_text::{
    cell_width, char_cells, cleaned, control, display_width, fit_cell, fitted, is_control,
    plain_text, text_width,
};
use crate::tui_view::larger;
use crate::util::{
    byte_len, byte_pos, checked_byte_len, chars_of, decimal, lemma_byte_pos_monotone, push_decimal,
    push_text, string_of,
};

verus! {

// ---------------------------------------------------------------------------
// Text and cursor
// ---------------------------------------------------------------------------

/// A text with a cursor, which is a byte offset between two characters.
#[derive(Debug)]
pub struct Editor {
    pub body: String,
    pub cursor: usize,
}

/// What the caller has to do after a key.
#[derive(Clone, Copy, Debug, PartialEq, Eq, Structural)]
pub enum Action {
    Continue,
    Save,
    Cancel,
    Quit,
}

/// A text, and the number of characters before the cursor.
pub ghost struct EditorModel {
    pub body: Seq<char>,
    pub at: int,
}

/// Whether a byte offset lies between two characters.
pub open spec fn on_boundary(s: Seq<char>, offset: int) -> bool {
    exists|k: int| 0 <= k <= s.len() && #[trigger] byte_pos(s, k) == offset
}

/// The number of characters before a byte offset.
pub open spec fn index_at(s: Seq<char>, offset: int) -> int {
    choose|k: int| 0 <= k <= s.len() && #[trigger] byte_pos(s, k) == offset
}

proof fn lemma_index_at(s: Seq<char>, k: int)
    requires
        0 <= k <= s.len(),
    ensures
        on_boundary(s, byte_pos(s, k) as int),
        index_at(s, byte_pos(s, k) as int) == k,
{
    let j = index_at(s, byte_pos(s, k) as int);
    if j < k {
        lemma_byte_pos_monotone(s, j, k);
    } else if k < j {
        lemma_byte_pos_monotone(s, k, j);
    }
}

impl View for Editor {
    type V = EditorModel;

    open spec fn view(&self) -> EditorModel {
        EditorModel { body: self.body@, at: index_at(self.body@, self.cursor as int) }
    }
}

/// The number of characters before a byte offset.
fn char_index(chars: &Vec<char>, offset: usize) -> (k: usize)
    requires
        on_boundary(chars@, offset as int),
    ensures
        k == index_at(chars@, offset as int),
        k <= chars@.len(),
        byte_pos(chars@, k as int) == offset,
{
    let ghost target = index_at(chars@, offset as int);
    let len: usize = chars.len();
    let mut k: usize = 0;
    let mut sum: usize = 0;
    while sum < offset
        invariant
            len == chars@.len(),
            0 <= target <= chars@.len(),
            byte_pos(chars@, target) == offset,
            target == index_at(chars@, offset as int),
            k <= target,
            sum == byte_pos(chars@, k as int),
        decreases target - k,
    {
        proof {
            if k == target {
                assert(false);
            }
            lemma_byte_pos_monotone(chars@, k + 1, target);
        }
        sum += char_len(chars[k]);
        k += 1;
    }
    proof {
        lemma_byte_pos_monotone(chars@, k as int, target);
    }
    k
}

/// The byte offset of a character in a text whose length is known.
fn offset_of(chars: &Vec<char>, k: usize, len: usize) -> (r: usize)
    requires
        k <= chars@.len(),
        len == byte_len(chars@),
    ensures
        r == byte_pos(chars@, k as int),
{
    let mut i: usize = 0;
    let mut sum: usize = 0;
    while i < k
        invariant
            i <= k <= chars@.len(),
            len == byte_len(chars@),
            sum == byte_pos(chars@, i as int),
        decreases k - i,
    {
        proof {
            lemma_byte_pos_monotone(chars@, i + 1, chars@.len() as int);
        }
        sum += char_len(chars[i]);
        i += 1;
    }
    sum
}

/// A text with another one put in at the cursor.
pub open spec fn inserted(m: EditorModel, text: Seq<char>) -> EditorModel {
    EditorModel {
        body: m.body.take(m.at) + text + m.body.skip(m.at),
        at: m.at + text.len(),
    }
}

/// A text without the characters from `a` to before `b`, with the cursor there.
pub open spec fn removed(m: EditorModel, a: int, b: int) -> EditorModel {
    EditorModel { body: m.body.take(a) + m.body.skip(b), at: a }
}

/// The start of the line that holds a position.
pub open spec fn start_of(s: Seq<char>, at: int) -> int
    decreases at,
{
    if at <= 0 {
        0
    } else if s[at - 1] == '\n' {
        at
    } else {
        start_of(s, at - 1)
    }
}

/// The position from `i` on up to which a line takes no more than the given
/// columns.
pub open spec fn column_stop(s: Seq<char>, i: int, end: int, column: nat, width: nat) -> int
    decreases end - i,
{
    if i >= end || width + cell_width(s[i]) > column {
        i
    } else {
        column_stop(s, i + 1, end, column, width + cell_width(s[i]))
    }
}

/// The position one line down or up, in the same column where there is one.
pub open spec fn moved_line(s: Seq<char>, at: int, down: bool) -> int {
    let start = start_of(s, at);
    let end = line_end(s, at);
    let column = text_width(s.subrange(start, at));
    if down {
        if end == s.len() {
            at
        } else {
            column_stop(s, end + 1, line_end(s, end + 1), column, 0)
        }
    } else if start == 0 {
        at
    } else {
        column_stop(s, start_of(s, start - 1), start - 1, column, 0)
    }
}

fn find_start(chars: &Vec<char>, at: usize) -> (r: usize)
    requires
        at <= chars@.len(),
    ensures
        r == start_of(chars@, at as int),
        r <= at,
{
    let mut i: usize = at;
    while i > 0 && chars[i - 1] != '\n'
        invariant
            i <= at <= chars@.len(),
            start_of(chars@, at as int) == start_of(chars@, i as int),
        decreases i,
    {
        i -= 1;
    }
    i
}

fn find_end(chars: &Vec<char>, at: usize) -> (r: usize)
    requires
        at <= chars@.len(),
    ensures
        r == line_end(chars@, at as int),
        at <= r <= chars@.len(),
{
    let mut i: usize = at;
    while i < chars.len() && chars[i] != '\n'
        invariant
            at <= i <= chars@.len(),
            line_end(chars@, at as int) == line_end(chars@, i as int),
        decreases chars@.len() - i,
    {
        i += 1;
    }
    i
}

fn find_column(chars: &Vec<char>, start: usize, end: usize, column: usize) -> (r: usize)
    requires
        start <= end <= chars@.len(),
    ensures
        r == column_stop(chars@, start as int, end as int, column as nat, 0),
        start <= r <= end,
{
    let mut i: usize = start;
    let mut width: usize = 0;
    while i < end
        invariant
            start <= i <= end <= chars@.len(),
            width <= column,
            column_stop(chars@, start as int, end as int, column as nat, 0) == column_stop(
                chars@,
                i as int,
                end as int,
                column as nat,
                width as nat,
            ),
        decreases end - i,
    {
        let cells: usize = char_cells(chars[i]);
        if cells > column - width {
            return i;
        }
        width += cells;
        i += 1;
    }
    i
}

/// Line ends of any kind as line feeds.
pub open spec fn line_feeds(s: Seq<char>) -> Seq<char>
    decreases s.len(),
{
    if s.len() == 0 {
        seq![]
    } else {
        let n: int = if s.len() > 1 && s[0] == '\r' && s[1] == '\n' {
            2
        } else {
            1
        };
        seq![
            if s[0] == '\r' {
                '\n'
            } else {
                s[0]
            },
        ] + line_feeds(s.skip(n))
    }
}

/// The lines of a text from `i` on without control sequences.
pub open spec fn plain_body(s: Seq<char>, i: int) -> Seq<char>
    decreases s.len() - i,
{
    let end = line_end(s, i);
    if i < 0 || i > s.len() || end < i {
        seq![]
    } else {
        cleaned(s.subrange(i, end), false) + (if end < s.len() {
            seq!['\n'] + plain_body(s, end + 1)
        } else {
            seq![]
        })
    }
}

/// What a pasted text puts into the editor.
pub open spec fn pasted(text: Seq<char>) -> Seq<char> {
    plain_body(line_feeds(text), 0)
}

fn to_line_feeds(text: &str) -> (r: Vec<char>)
    ensures
        r@ == line_feeds(text@),
{
    let chars = chars_of(text);
    let mut out: Vec<char> = Vec::new();
    let mut i: usize = 0;
    assert(chars@.skip(0) =~= chars@);
    while i < chars.len()
        invariant
            chars@ == text@,
            i <= chars@.len(),
            line_feeds(text@) == out@ + line_feeds(chars@.skip(i as int)),
        decreases chars@.len() - i,
    {
        let ghost rest = chars@.skip(i as int);
        let ghost before = out@;
        let len: usize = chars.len();
        let c = chars[i];
        if c == '\r' {
            out.push('\n');
        } else {
            out.push(c);
        }
        let pair = c == '\r' && i < len - 1 && chars[i + 1] == '\n';
        proof {
            let n: int = if pair {
                2
            } else {
                1
            };
            assert(rest.skip(n) =~= chars@.skip(i + n));
            assert(out@ + line_feeds(rest.skip(n)) =~= before + line_feeds(rest));
        }
        if pair {
            i += 1;
        }
        i += 1;
    }
    assert(chars@.skip(i as int) =~= Seq::<char>::empty());
    assert(out@ + Seq::<char>::empty() =~= out@);
    out
}

fn clean_paste(text: &str) -> (r: String)
    ensures
        r@ == pasted(text@),
{
    let chars = to_line_feeds(text);
    let len: usize = chars.len();
    let ghost s = chars@;
    let mut out = String::new();
    let mut i: usize = 0;
    let mut done = false;
    assert(out@ + plain_body(s, 0) =~= plain_body(s, 0));
    while !done
        invariant
            s == chars@,
            len == s.len(),
            i <= len,
            !done ==> plain_body(s, 0) == out@ + plain_body(s, i as int),
            done ==> plain_body(s, 0) == out@,
        decreases
            if done {
                0
            } else {
                len - i + 1
            },
    {
        let end = find_end(&chars, i);
        let line = string_of(vstd::slice::slice_subrange(chars.as_slice(), i, end));
        let plain = plain_text(line.as_str());
        let ghost before = out@;
        push_text(&mut out, plain.as_str());
        if end < len {
            out.push('\n');
            assert(before + plain_body(s, i as int) =~= out@ + plain_body(s, end + 1));
            i = end + 1;
        } else {
            assert(before + plain_body(s, i as int) =~= out@);
            done = true;
        }
    }
    out
}

/// A key in the editor.
pub open spec fn edited(m: EditorModel, key: KeyEvent) -> (EditorModel, Action) {
    let len = m.body.len() as int;
    let previous = if m.at > 0 {
        m.at - 1
    } else {
        0
    };
    let next = if m.at < len {
        m.at + 1
    } else {
        len
    };
    if key.kind == KeyEventKind::Release {
        (m, Action::Continue)
    } else if key.modifiers.control {
        (
            m,
            if key.code == KeyCode::Char('c') {
                Action::Quit
            } else {
                Action::Continue
            },
        )
    } else {
        match key.code {
            KeyCode::Esc => (m, Action::Cancel),
            KeyCode::Enter => if key.modifiers.shift {
                (inserted(m, seq!['\n']), Action::Continue)
            } else if key.modifiers == KeyModifiers::none() {
                (m, Action::Save)
            } else {
                (m, Action::Continue)
            },
            KeyCode::Backspace => (removed(m, previous, m.at), Action::Continue),
            KeyCode::Delete => (removed(m, m.at, next), Action::Continue),
            KeyCode::Left => (EditorModel { at: previous, ..m }, Action::Continue),
            KeyCode::Right => (EditorModel { at: next, ..m }, Action::Continue),
            KeyCode::Up => (
                EditorModel { at: moved_line(m.body, m.at, false), ..m },
                Action::Continue,
            ),
            KeyCode::Down => (
                EditorModel { at: moved_line(m.body, m.at, true), ..m },
                Action::Continue,
            ),
            KeyCode::Home => (EditorModel { at: start_of(m.body, m.at), ..m }, Action::Continue),
            KeyCode::End => (EditorModel { at: line_end(m.body, m.at), ..m }, Action::Continue),
            KeyCode::Tab => (inserted(m, seq!['\t']), Action::Continue),
            KeyCode::Char(c) => if c == '\n' && key.modifiers.shift {
                (inserted(m, seq!['\n']), Action::Continue)
            } else if !is_control(c) && !key.modifiers.alt {
                (inserted(m, seq![c]), Action::Continue)
            } else {
                (m, Action::Continue)
            },
            _ => (m, Action::Continue),
        }
    }
}

impl Default for Editor {
    fn default() -> (r: Editor)
        ensures
            r.wf(),
            r@ == (EditorModel { body: seq![], at: 0 }),
    {
        let r = Editor { body: String::new(), cursor: 0 };
        proof {
            assert(r.body@ =~= Seq::<char>::empty());
            lemma_index_at(r.body@, 0);
        }
        r
    }
}

impl Editor {
    /// The cursor is between two characters.
    pub open spec fn wf(&self) -> bool {
        on_boundary(self.body@, self.cursor as int)
    }

    /// Makes the text and the cursor what is given.
    fn replace(&mut self, chars: Vec<char>, at: usize)
        requires
            at <= chars@.len(),
        ensures
            final(self).wf(),
            final(self)@ == (EditorModel { body: chars@, at: at as int }),
    {
        self.body = string_of(chars.as_slice());
        let len: usize = checked_byte_len(self.body.as_str());
        self.cursor = offset_of(&chars, at, len);
        proof {
            lemma_index_at(chars@, at as int);
        }
    }

    /// Moves the cursor.
    fn set_at(&mut self, chars: &Vec<char>, at: usize)
        requires
            chars@ == old(self).body@,
            at <= chars@.len(),
        ensures
            final(self).wf(),
            final(self).body == old(self).body,
            final(self)@ == (EditorModel { body: chars@, at: at as int }),
    {
        let len: usize = checked_byte_len(self.body.as_str());
        self.cursor = offset_of(chars, at, len);
        proof {
            lemma_index_at(chars@, at as int);
        }
    }

    pub fn insert(&mut self, text: &str)
        requires
            old(self).wf(),
        ensures
            final(self).wf(),
            final(self)@ == inserted(old(self)@, text@),
    {
        let mut chars = chars_of(self.body.as_str());
        let at = char_index(&chars, self.cursor);
        let ghost body = chars@;
        let mut tail = chars.split_off(at);
        let mut new = chars_of(text);
        chars.append(&mut new);
        let end: usize = chars.len();
        chars.append(&mut tail);
        assert(chars@ =~= body.take(at as int) + text@ + body.skip(at as int));
        self.replace(chars, end);
    }

    /// Puts a pasted text in, without control sequences and with line feeds
    /// for line ends of any kind.
    pub fn paste(&mut self, text: &str)
        requires
            old(self).wf(),
        ensures
            final(self).wf(),
            final(self)@ == inserted(old(self)@, pasted(text@)),
    {
        let clean = clean_paste(text);
        self.insert(clean.as_str());
    }

    /// Takes the characters from `a` to before `b` out.
    fn remove(&mut self, chars: Vec<char>, a: usize, b: usize)
        requires
            chars@ == old(self).body@,
            a <= b <= chars@.len(),
        ensures
            final(self).wf(),
            final(self)@ == removed(old(self)@, a as int, b as int),
    {
        let ghost body = chars@;
        let mut chars = chars;
        let mut tail = chars.split_off(b);
        chars.truncate(a);
        chars.append(&mut tail);
        assert(chars@ =~= body.take(a as int) + body.skip(b as int));
        self.replace(chars, a);
    }

    /// Moves the cursor a line down or up, in the same column.
    pub fn vertical(&mut self, down: bool)
        requires
            old(self).wf(),
        ensures
            final(self).wf(),
            final(self)@ == (EditorModel {
                at: moved_line(old(self)@.body, old(self)@.at, down),
                ..old(self)@
            }),
    {
        let chars = chars_of(self.body.as_str());
        let at = char_index(&chars, self.cursor);
        let start = find_start(&chars, at);
        let end = find_end(&chars, at);
        let before = string_of(vstd::slice::slice_subrange(chars.as_slice(), start, at));
        let column = display_width(before.as_str());
        let next: usize = if down {
            if end == chars.len() {
                return;
            }
            let last = find_end(&chars, end + 1);
            find_column(&chars, end + 1, last, column)
        } else {
            if start == 0 {
                return;
            }
            let first = find_start(&chars, start - 1);
            find_column(&chars, first, start - 1, column)
        };
        self.set_at(&chars, next);
    }

    pub fn key(&mut self, key: KeyEvent) -> (r: Action)
        requires
            old(self).wf(),
        ensures
            final(self).wf(),
            (final(self)@, r) == edited(old(self)@, key),
    {
        if key.kind == KeyEventKind::Release {
            return Action::Continue;
        }
        if key.modifiers.control {
            return if key.code == KeyCode::Char('c') {
                Action::Quit
            } else {
                Action::Continue
            };
        }
        let chars = chars_of(self.body.as_str());
        let len: usize = chars.len();
        let at = char_index(&chars, self.cursor);
        let previous: usize = if at > 0 {
            at - 1
        } else {
            0
        };
        let next: usize = if at < len {
            at + 1
        } else {
            len
        };
        match key.code {
            KeyCode::Esc => {
                return Action::Cancel;
            },
            KeyCode::Enter => {
                if key.modifiers.shift {
                    self.insert_char('\n');
                } else if key.modifiers == KeyModifiers::empty() {
                    return Action::Save;
                }
            },
            KeyCode::Backspace => self.remove(chars, previous, at),
            KeyCode::Delete => self.remove(chars, at, next),
            KeyCode::Left => self.set_at(&chars, previous),
            KeyCode::Right => self.set_at(&chars, next),
            KeyCode::Up => self.vertical(false),
            KeyCode::Down => self.vertical(true),
            KeyCode::Home => {
                let start = find_start(&chars, at);
                self.set_at(&chars, start);
            },
            KeyCode::End => {
                let end = find_end(&chars, at);
                self.set_at(&chars, end);
            },
            KeyCode::Tab => self.insert_char('\t'),
            KeyCode::Char(c) => {
                if c == '\n' && key.modifiers.shift {
                    self.insert_char('\n');
                } else if !control(c) && !key.modifiers.alt {
                    self.insert_char(c);
                }
            },
            _ => {},
        }
        Action::Continue
    }

    fn insert_char(&mut self, c: char)
        requires
            old(self).wf(),
        ensures
            final(self).wf(),
            final(self)@ == inserted(old(self)@, seq![c]),
    {
        let mut text = String::new();
        text.push(c);
        assert(text@ =~= seq![c]);
        self.insert(text.as_str());
    }
}

/// A character typed and taken back leaves the text and the cursor as they
/// were.
pub proof fn law_backspace_undoes(m: EditorModel, c: char, typed: KeyEvent, back: KeyEvent)
    requires
        0 <= m.at <= m.body.len(),
        !is_control(c),
        typed == (KeyEvent {
            code: KeyCode::Char(c),
            modifiers: KeyModifiers::none(),
            kind: KeyEventKind::Press,
        }),
        back == (KeyEvent {
            code: KeyCode::Backspace,
            modifiers: KeyModifiers::none(),
            kind: KeyEventKind::Press,
        }),
    ensures
        edited(edited(m, typed).0, back).0 == m,
{
    let n = inserted(m, seq![c]);
    assert(edited(m, typed).0 == n);
    assert(n.body.take(m.at) =~= m.body.take(m.at));
    assert(n.body.skip(n.at) =~= m.body.skip(m.at));
    assert(m.body.take(m.at) + m.body.skip(m.at) =~= m.body);
}

/// Pasted text is never a command: it holds no control character but line
/// feeds.
pub proof fn law_paste_is_plain(s: Seq<char>, i: int)
    ensures
        forall|k: int|
            0 <= k < plain_body(s, i).len() ==> (#[trigger] plain_body(s, i)[k]) == '\n'
                || !is_control(plain_body(s, i)[k]),
    decreases s.len() - i,
{
    let end = line_end(s, i);
    if !(i < 0 || i > s.len() || end < i) {
        let text = cleaned(s.subrange(i, end), false);
        crate::tui_text::law_plain_has_no_control(s.subrange(i, end));
        if end < s.len() {
            law_paste_is_plain(s, end + 1);
            let rest = plain_body(s, end + 1);
            assert forall|k: int| 0 <= k < plain_body(s, i).len() implies (
            #[trigger] plain_body(s, i)[k]) == '\n' || !is_control(plain_body(s, i)[k]) by {
                if k < text.len() {
                    assert(plain_body(s, i)[k] == text[k]);
                } else if k > text.len() {
                    assert(plain_body(s, i)[k] == rest[k - text.len() - 1]);
                }
            }
        } else {
            assert(plain_body(s, i) =~= text);
        }
    }
}

// ---------------------------------------------------------------------------
// Lines on the screen
// ---------------------------------------------------------------------------

/// Where the editor stands.
#[derive(Clone, Copy, Debug, PartialEq, Eq, Structural)]
pub struct EditorLayout {
    pub x: usize,
    pub y: usize,
    pub width: usize,
    pub height: usize,
    pub content_width: usize,
    pub body_rows: usize,
}

/// Below the heading of the dock, with a column free on either side.
pub open spec fn editor_layout(terminal: Layout) -> EditorLayout {
    let height = minus(terminal.dock_height as nat, 1) as usize;
    EditorLayout {
        x: terminal.main_x,
        y: (terminal.dock_y + 1) as usize,
        width: terminal.main_width,
        height,
        content_width: larger(minus(terminal.main_width as nat, 2), 1) as usize,
        body_rows: height,
    }
}

impl EditorLayout {
    pub fn new(terminal: Layout) -> (r: EditorLayout)
        requires
            terminal.dock_y < usize::MAX,
        ensures
            r == editor_layout(terminal),
    {
        let height: usize = if terminal.dock_height >= 1 {
            terminal.dock_height - 1
        } else {
            0
        };
        EditorLayout {
            x: terminal.main_x,
            y: terminal.dock_y + 1,
            width: terminal.main_width,
            height,
            content_width: if terminal.main_width >= 3 {
                terminal.main_width - 2
            } else {
                1
            },
            body_rows: height,
        }
    }
}

/// A line on the screen: the characters that it shows, and where the next one
/// starts.
#[derive(Clone, Copy, Debug, PartialEq, Eq, Structural)]
pub struct LineSpan {
    pub start: usize,
    pub end: usize,
    pub next: usize,
}

/// How far a line goes, when some columns are already taken.  A line takes at
/// least one character that is wide.
pub open spec fn fit_end(s: Seq<char>, width: nat, i: int, taken: nat) -> int
    decreases s.len() - i,
{
    if i >= s.len() || s[i] == '\n' || (taken > 0 && taken + cell_width(s[i]) > larger(width, 1)) {
        i
    } else {
        fit_end(s, width, i + 1, taken + cell_width(s[i]))
    }
}

/// The lines of a text from `i` on; a line feed at the end starts one more.
pub open spec fn spans(s: Seq<char>, width: nat, i: int) -> Seq<LineSpan>
    decreases s.len() - i,
{
    let end = fit_end(s, width, i, 0);
    let next = if end < s.len() && s[end] == '\n' {
        end + 1
    } else {
        end
    };
    if i < 0 || i >= s.len() || next <= i || next > s.len() {
        seq![]
    } else {
        seq![LineSpan { start: i as usize, end: end as usize, next: next as usize }] + spans(
            s,
            width,
            next,
        )
    }
}

/// The lines of a text on the screen.
pub open spec fn screen_lines(s: Seq<char>, width: nat) -> Seq<LineSpan> {
    if s.len() == 0 || s.last() == '\n' {
        spans(s, width, 0).push(
            LineSpan { start: s.len() as usize, end: s.len() as usize, next: s.len() as usize },
        )
    } else {
        spans(s, width, 0)
    }
}

proof fn lemma_fit_end(s: Seq<char>, width: nat, i: int, taken: nat)
    requires
        0 <= i <= s.len(),
    ensures
        i <= fit_end(s, width, i, taken) <= s.len(),
        taken == 0 && i < s.len() && s[i] != '\n' ==> fit_end(s, width, i, taken) > i,
    decreases s.len() - i,
{
    if !(i >= s.len() || s[i] == '\n' || (taken > 0 && taken + cell_width(s[i]) > larger(width, 1))) {
        lemma_fit_end(s, width, i + 1, taken + cell_width(s[i]));
    }
}

fn find_fit(chars: &Vec<char>, width: usize, start: usize) -> (r: usize)
    requires
        start <= chars@.len(),
    ensures
        r == fit_end(chars@, width as nat, start as int, 0),
        start <= r <= chars@.len(),
{
    proof {
        lemma_fit_end(chars@, width as nat, start as int, 0);
    }
    let limit: usize = if width >= 1 {
        width
    } else {
        1
    };
    let mut i: usize = start;
    let mut taken: usize = 0;
    while i < chars.len() && chars[i] != '\n'
        invariant
            start <= i <= chars@.len(),
            limit == larger(width as nat, 1),
            fit_end(chars@, width as nat, start as int, 0) == fit_end(
                chars@,
                width as nat,
                i as int,
                taken as nat,
            ),
        decreases chars@.len() - i,
    {
        let cells: usize = char_cells(chars[i]);
        if taken > 0 && (taken > limit || cells > limit - taken) {
            return i;
        }
        taken = taken + cells;
        i += 1;
    }
    i
}

fn find_lines(chars: &Vec<char>, width: usize) -> (r: Vec<LineSpan>)
    ensures
        r@ == screen_lines(chars@, width as nat),
        r@.len() >= 1,
{
    let ghost s = chars@;
    let len: usize = chars.len();
    let mut out: Vec<LineSpan> = Vec::new();
    let mut i: usize = 0;
    assert(out@ + spans(s, width as nat, 0) =~= spans(s, width as nat, 0));
    while i < len
        invariant
            s == chars@,
            len == s.len(),
            i <= len,
            i > 0 ==> out@.len() > 0,
            spans(s, width as nat, 0) == out@ + spans(s, width as nat, i as int),
        decreases len - i,
    {
        proof {
            lemma_fit_end(s, width as nat, i as int, 0);
        }
        let end = find_fit(chars, width, i);
        let next: usize = if end < len && chars[end] == '\n' {
            end + 1
        } else {
            end
        };
        let ghost before = out@;
        let line = LineSpan { start: i, end, next };
        out.push(line);
        proof {
            let rest = spans(s, width as nat, next as int);
            assert(spans(s, width as nat, i as int) == seq![line] + rest);
            assert(before + (seq![line] + rest) =~= out@ + rest);
        }
        i = next;
    }
    assert(out@ + Seq::<LineSpan>::empty() =~= out@);
    if len == 0 || chars[len - 1] == '\n' {
        out.push(LineSpan { start: len, end: len, next: len });
    }
    out
}

/// The lines of the screen hold the whole text: the first starts at its start,
/// each starts where the one before ends, and the last ends at its end.
pub proof fn law_lines_cover(s: Seq<char>, width: nat, i: int)
    requires
        s.len() <= usize::MAX,
        0 <= i < s.len(),
    ensures
        spans(s, width, i).len() > 0,
        spans(s, width, i)[0].start == i,
        spans(s, width, i).last().next == s.len(),
        forall|a: int, b: int|
            0 <= a && b == a + 1 && b < spans(s, width, i).len() ==> (#[trigger] spans(
                s,
                width,
                i,
            )[a]).next == (#[trigger] spans(s, width, i)[b]).start,
    decreases s.len() - i,
{
    lemma_fit_end(s, width, i, 0);
    let end = fit_end(s, width, i, 0);
    let next = if end < s.len() && s[end] == '\n' {
        end + 1
    } else {
        end
    };
    if next < s.len() {
        law_lines_cover(s, width, next);
        let rest = spans(s, width, next);
        let all = spans(s, width, i);
        assert forall|a: int, b: int| 0 <= a && b == a + 1 && b < all.len() implies (
        #[trigger] all[a]).next == (#[trigger] all[b]).start by {
            assert(all[b] == rest[a]);
            if a > 0 {
                assert(all[a] == rest[a - 1]);
            }
        }
    } else {
        assert(spans(s, width, next) =~= Seq::<LineSpan>::empty());
    }
}

/// A line of a text on the screen, by byte offsets.
#[derive(Clone, Copy, Debug, PartialEq, Eq, Structural)]
pub struct VisualLine {
    pub start: usize,
    pub end: usize,
    pub next: usize,
}

impl VisualLine {
    /// Whether a cursor stands on the line.
    pub fn contains(&self, cursor: usize) -> (r: bool)
        ensures
            r == (self.start <= cursor <= self.end),
    {
        cursor >= self.start && cursor <= self.end
    }
}

/// The byte offsets of a line.
pub open spec fn in_bytes(s: Seq<char>, l: LineSpan) -> VisualLine {
    VisualLine {
        start: byte_pos(s, l.start as int) as usize,
        end: byte_pos(s, l.end as int) as usize,
        next: byte_pos(s, l.next as int) as usize,
    }
}

proof fn lemma_spans_bounds(s: Seq<char>, width: nat, i: int)
    requires
        s.len() <= usize::MAX,
        0 <= i <= s.len(),
    ensures
        forall|k: int|
            0 <= k < spans(s, width, i).len() ==> (#[trigger] spans(s, width, i)[k]).start
                <= spans(s, width, i)[k].end <= spans(s, width, i)[k].next <= s.len(),
    decreases s.len() - i,
{
    lemma_fit_end(s, width, i, 0);
    let end = fit_end(s, width, i, 0);
    let next = if end < s.len() && s[end] == '\n' {
        end + 1
    } else {
        end
    };
    if !(i >= s.len() || next <= i || next > s.len()) {
        lemma_spans_bounds(s, width, next);
        let rest = spans(s, width, next);
        let all = spans(s, width, i);
        assert forall|k: int| 0 <= k < all.len() implies (#[trigger] all[k]).start <= all[k].end
            <= all[k].next <= s.len() by {
            if k > 0 {
                assert(all[k] == rest[k - 1]);
            }
        }
    }
}

proof fn lemma_lines_bounds(s: Seq<char>, width: nat)
    requires
        s.len() <= usize::MAX,
    ensures
        forall|k: int|
            0 <= k < screen_lines(s, width).len() ==> (#[trigger] screen_lines(s, width)[k]).start
                <= screen_lines(s, width)[k].end <= screen_lines(s, width)[k].next <= s.len(),
{
    lemma_spans_bounds(s, width, 0);
    let inner = spans(s, width, 0);
    assert forall|k: int| 0 <= k < screen_lines(s, width).len() implies (
    #[trigger] screen_lines(s, width)[k]).start <= screen_lines(s, width)[k].end <= screen_lines(
        s,
        width,
    )[k].next <= s.len() by {
        if k < inner.len() {
            assert(screen_lines(s, width)[k] == inner[k]);
        }
    }
}

/// The lines of a text on the screen, by byte offsets.
pub fn visual_lines(body: &str, width: usize) -> (r: Vec<VisualLine>)
    ensures
        r@ == screen_lines(body@, width as nat).map_values(|l: LineSpan| in_bytes(body@, l)),
        r@.len() >= 1,
{
    let chars = chars_of(body);
    let len: usize = checked_byte_len(body);
    let lines = find_lines(&chars, width);
    let count: usize = chars.len();
    proof {
        lemma_lines_bounds(body@, width as nat);
    }
    let mut out: Vec<VisualLine> = Vec::new();
    let mut i: usize = 0;
    while i < lines.len()
        invariant
            chars@ == body@,
            len == byte_len(body@),
            i <= lines@.len(),
            forall|k: int|
                0 <= k < lines@.len() ==> (#[trigger] lines@[k]).start <= lines@[k].end
                    <= lines@[k].next <= body@.len(),
            out@.len() == i,
            forall|k: int| 0 <= k < i ==> #[trigger] out@[k] == in_bytes(body@, lines@[k]),
        decreases lines@.len() - i,
    {
        let line = lines[i];
        out.push(
            VisualLine {
                start: offset_of(&chars, line.start, len),
                end: offset_of(&chars, line.end, len),
                next: offset_of(&chars, line.next, len),
            },
        );
        i += 1;
    }
    assert(out@ =~= screen_lines(body@, width as nat).map_values(
        |l: LineSpan| in_bytes(body@, l),
    ));
    out
}

// ---------------------------------------------------------------------------
// Drawing
// ---------------------------------------------------------------------------

/// The sequence that moves the cursor of the terminal; places count from zero.
pub open spec fn go_to(x: nat, y: nat) -> Seq<char> {
    "\x1b["@ + decimal(y + 1) + ";"@ + decimal(x + 1) + "H"@
}

/// A text at a place.
pub open spec fn placed(x: nat, y: nat, text: Seq<char>) -> Seq<char> {
    go_to(x, y) + text
}

fn push_go_to(out: &mut String, x: usize, y: usize)
    requires
        x < usize::MAX,
        y < usize::MAX,
    ensures
        final(out)@ == old(out)@ + go_to(x as nat, y as nat),
{
    let ghost before = out@;
    push_text(out, "\x1b[");
    push_decimal(out, (y + 1) as u64);
    push_text(out, ";");
    push_decimal(out, (x + 1) as u64);
    push_text(out, "H");
    assert(out@ =~= before + go_to(x as nat, y as nat));
}

pub fn put(out: &mut String, x: usize, y: usize, text: &str)
    requires
        x < usize::MAX,
        y < usize::MAX,
    ensures
        final(out)@ == old(out)@ + placed(x as nat, y as nat, text@),
{
    let ghost before = out@;
    push_go_to(out, x, y);
    push_text(out, text);
    assert(out@ =~= before + placed(x as nat, y as nat, text@));
}

/// The first line from `i` on that the cursor stands on; where there is none,
/// the last line.
pub open spec fn line_of_cursor(lines: Seq<LineSpan>, at: int, i: int) -> int
    decreases lines.len() - i,
{
    if i >= lines.len() {
        lines.len() - 1
    } else if lines[i].start <= at <= lines[i].end {
        i
    } else {
        line_of_cursor(lines, at, i + 1)
    }
}

/// The text of a row of the editor.
pub open spec fn editor_row(s: Seq<char>, lines: Seq<LineSpan>, row: int, width: nat) -> Seq<char> {
    " "@ + fitted(
        if row < lines.len() {
            s.subrange(lines[row].start as int, lines[row].end as int)
        } else {
            seq![]
        },
        width,
    )
}

/// The first `n` rows of the editor, at their places.
pub open spec fn editor_rows(
    s: Seq<char>,
    lines: Seq<LineSpan>,
    first: int,
    e: EditorLayout,
    ansi: Ansi,
    palette: ThemeTokens,
    n: int,
) -> Seq<char>
    decreases n,
{
    if n <= 0 {
        seq![]
    } else {
        editor_rows(s, lines, first, e, ansi, palette, n - 1) + placed(
            e.x as nat,
            (e.y + n - 1) as nat,
            cell(
                editor_row(s, lines, first + n - 1, e.content_width as nat),
                e.width as nat,
                ansi,
                palette.bg_panel.hex@,
                palette.fg_default.hex@,
            ),
        )
    }
}

/// The columns before the cursor on its line.
pub open spec fn cursor_column(s: Seq<char>, line: LineSpan, at: int, width: nat) -> nat {
    let end = if at <= line.end {
        at
    } else {
        line.end as int
    };
    let w = text_width(s.subrange(line.start as int, end));
    if w <= width {
        w
    } else {
        width
    }
}

/// What the editor writes to the terminal: its rows, scrolled so that the
/// cursor is among them, and the cursor.
pub open spec fn drawn(m: EditorModel, terminal: Layout, ansi: Ansi, palette: ThemeTokens) -> Seq<
    char,
> {
    let e = editor_layout(terminal);
    if e.width < 3 || e.height == 0 {
        seq![]
    } else {
        let lines = screen_lines(m.body, e.content_width as nat);
        let row = line_of_cursor(lines, m.at, 0);
        let first = minus((row + 1) as nat, e.body_rows as nat);
        editor_rows(m.body, lines, first as int, e, ansi, palette, e.height as int) + go_to(
            (e.x + 1 + cursor_column(m.body, lines[row], m.at, e.content_width as nat)) as nat,
            (e.y + row - first) as nat,
        ) + "\x1b[?25h"@
    }
}

/// Every place before the end of a text is on one of its lines.
proof fn lemma_cursor_on_line(s: Seq<char>, width: nat, i: int, at: int)
    requires
        s.len() <= usize::MAX,
        0 <= i <= at <= s.len(),
        i < s.len(),
    ensures
        exists|k: int|
            0 <= k < spans(s, width, i).len() && (#[trigger] spans(s, width, i)[k]).start <= at <= spans(
                s,
                width,
                i,
            )[k].end || at == s.len() && s.last() == '\n',
    decreases s.len() - i,
{
    lemma_fit_end(s, width, i, 0);
    let end = fit_end(s, width, i, 0);
    let next = if end < s.len() && s[end] == '\n' {
        end + 1
    } else {
        end
    };
    let all = spans(s, width, i);
    let rest = spans(s, width, next);
    assert(all[0].start == i && all[0].end == end);
    if at > end && next < s.len() {
        lemma_cursor_on_line(s, width, next, at);
        if !(at == s.len() && s.last() == '\n') {
            let k = choose|k: int|
                0 <= k < rest.len() && (#[trigger] rest[k]).start <= at <= rest[k].end;
            assert(all[k + 1] == rest[k]);
        }
    } else if at > end {
        assert(end == s.len() - 1 && s[end] == '\n');
    }
}

proof fn lemma_line_of_cursor_found(lines: Seq<LineSpan>, at: int, i: int, k: int)
    requires
        0 <= i <= k < lines.len(),
        lines[k].start <= at <= lines[k].end,
    ensures
        ({
            let r = line_of_cursor(lines, at, i);
            i <= r <= k && lines[r].start <= at <= lines[r].end
        }),
    decreases k - i,
{
    if !(lines[i].start <= at <= lines[i].end) {
        lemma_line_of_cursor_found(lines, at, i + 1, k);
    }
}

/// The cursor stands on one of the lines.
pub proof fn law_cursor_has_a_line(s: Seq<char>, width: nat, at: int)
    requires
        s.len() <= usize::MAX,
        0 <= at <= s.len(),
    ensures
        ({
            let lines = screen_lines(s, width);
            let row = line_of_cursor(lines, at, 0);
            0 <= row < lines.len() && lines[row].start <= at <= lines[row].end
        }),
{
    let lines = screen_lines(s, width);
    let inner = spans(s, width, 0);
    if s.len() == 0 {
        lemma_line_of_cursor_found(lines, at, 0, lines.len() - 1);
    } else {
        lemma_cursor_on_line(s, width, 0, at);
        if at == s.len() && s.last() == '\n' {
            lemma_line_of_cursor_found(lines, at, 0, lines.len() - 1);
        } else {
            let k = choose|k: int|
                0 <= k < inner.len() && (#[trigger] inner[k]).start <= at <= inner[k].end;
            assert(lines[k] == inner[k]);
            lemma_line_of_cursor_found(lines, at, 0, k);
        }
    }
}

fn find_cursor_line(lines: &Vec<LineSpan>, at: usize) -> (r: usize)
    requires
        lines@.len() >= 1,
    ensures
        r == line_of_cursor(lines@, at as int, 0),
        r < lines@.len(),
{
    let mut i: usize = 0;
    while i < lines.len()
        invariant
            i <= lines@.len(),
            line_of_cursor(lines@, at as int, 0) == line_of_cursor(lines@, at as int, i as int),
        decreases lines@.len() - i,
    {
        if lines[i].start <= at && at <= lines[i].end {
            return i;
        }
        i += 1;
    }
    lines.len() - 1
}

fn row_text(chars: &Vec<char>, lines: &Vec<LineSpan>, first: usize, row: usize, width: usize) -> (r:
    String)
    requires
        forall|k: int|
            0 <= k < lines@.len() ==> (#[trigger] lines@[k]).start <= lines@[k].end <= lines@[k].next
                <= chars@.len(),
        first <= lines@.len(),
    ensures
        r@ == editor_row(chars@, lines@, first + row, width as nat),
{
    let text = if row < lines.len() - first {
        let line = lines[first + row];
        string_of(vstd::slice::slice_subrange(chars.as_slice(), line.start, line.end))
    } else {
        String::new()
    };
    proof {
        if first + row >= lines@.len() {
            assert(text@ =~= Seq::<char>::empty());
        }
    }
    let fit = fit_cell(text.as_str(), width);
    let mut raw = String::new();
    push_text(&mut raw, " ");
    push_text(&mut raw, fit.as_str());
    assert(raw@ =~= editor_row(chars@, lines@, first + row, width as nat));
    raw
}

impl Editor {
    /// What the editor writes to the terminal.
    pub fn draw(&self, terminal: Layout, ansi: Ansi, palette: ThemeTokens) -> (r: String)
        requires
            self.wf(),
            layout_fits(terminal),
        ensures
            r@ == drawn(self@, terminal, ansi, palette),
    {
        let layout = EditorLayout::new(terminal);
        let mut out = String::new();
        if layout.width < 3 || layout.height == 0 {
            assert(out@ =~= Seq::<char>::empty());
            return out;
        }
        let chars = chars_of(self.body.as_str());
        let count: usize = chars.len();
        let at = char_index(&chars, self.cursor);
        let lines = find_lines(&chars, layout.content_width);
        proof {
            lemma_lines_bounds(chars@, layout.content_width as nat);
            law_cursor_has_a_line(chars@, layout.content_width as nat, at as int);
        }
        let cursor_row = find_cursor_line(&lines, at);
        let line_count: usize = lines.len();
        let first: usize = if cursor_row >= layout.body_rows {
            cursor_row - layout.body_rows + 1
        } else {
            0
        };
        let mut row: usize = 0;
        while row < layout.height
            invariant
                layout == editor_layout(terminal),
                layout_fits(terminal),
                row <= layout.height,
                first <= lines@.len(),
                forall|k: int|
                    0 <= k < lines@.len() ==> (#[trigger] lines@[k]).start <= lines@[k].end
                        <= lines@[k].next <= chars@.len(),
                out@ == editor_rows(
                    chars@,
                    lines@,
                    first as int,
                    layout,
                    ansi,
                    palette,
                    row as int,
                ),
            decreases layout.height - row,
        {
            let raw = row_text(&chars, &lines, first, row, layout.content_width);
            let styled = style_cell(
                raw.as_str(),
                layout.width,
                ansi,
                palette.bg_panel,
                palette.fg_default,
            );
            put(&mut out, layout.x, layout.y + row, styled.as_str());
            row += 1;
        }
        let line = lines[cursor_row];
        let end: usize = if at <= line.end {
            at
        } else {
            line.end
        };
        let before = string_of(vstd::slice::slice_subrange(chars.as_slice(), line.start, end));
        let width = display_width(before.as_str());
        let column: usize = if width <= layout.content_width {
            width
        } else {
            layout.content_width
        };
        let ghost rows = out@;
        push_go_to(&mut out, layout.x + 1 + column, layout.y + (cursor_row - first));
        push_text(&mut out, "\x1b[?25h");
        assert(out@ =~= drawn(self@, terminal, ansi, palette));
        out
    }
}

} // verus!

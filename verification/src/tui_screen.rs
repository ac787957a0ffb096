//! The screen cache: the rows that the terminal shows, and the shortest way
//! from them to the next frame.
use std::ops::Range;
use vstd::prelude::*;
use crate::util::{byte_len, checked_byte_len, decimal, push_decimal, same_text, texts};

verus! {

/// What writing a row costs apart from its text.
pub const ROW_COST: usize = 16;

/// What scrolling costs.
pub const SCROLL_COST: usize = 32;

/// Fully styled rows of terminal width.  An empty row is one whose content on
/// the terminal is not known.
pub struct Screen {
    width: usize,
    lines: Vec<String>,
}

/// What the cache holds.
pub ghost struct ScreenModel {
    pub width: usize,
    pub lines: Seq<Seq<char>>,
}

impl View for Screen {
    type V = ScreenModel;

    closed spec fn view(&self) -> ScreenModel {
        ScreenModel { width: self.width, lines: texts(self.lines@) }
    }
}

impl Default for Screen {
    fn default() -> (r: Screen)
        ensures
            r@.width == 0,
            r@.lines.len() == 0,
    {
        Screen { width: 0, lines: Vec::new() }
    }
}

/// What is sent to the terminal for one frame.
pub ghost enum Command {
    /// Start a synchronised update and hide the cursor.
    Begin,
    /// Move the rows from `top` to before `bottom` by `count`, up or down.
    Scroll { top: nat, bottom: nat, count: nat, up: bool },
    /// Write a row.
    Row { row: nat, text: Seq<char> },
}

/// A command as it is sent.
pub open spec fn command_text(c: Command) -> Seq<char> {
    match c {
        Command::Begin => "\u{1b}[?2026h\u{1b}[?25l"@,
        Command::Scroll { top, bottom, count, up } => "\u{1b}["@ + decimal(top + 1) + ";"@
            + decimal(bottom) + "r\u{1b}["@ + decimal(count) + (if up {
            "S"@
        } else {
            "T"@
        }) + "\u{1b}[r"@,
        Command::Row { row, text } => "\u{1b}["@ + decimal(row + 1) + ";1H"@ + text,
    }
}

/// Commands as they are sent.
pub open spec fn commands_text(cs: Seq<Command>) -> Seq<char>
    decreases cs.len(),
{
    if cs.len() == 0 {
        seq![]
    } else {
        commands_text(cs.drop_last()) + command_text(cs.last())
    }
}

/// The row that would stand at `y` after a move by `delta`, where there is one.
pub open spec fn moved_row(old: Seq<Seq<char>>, y: int, delta: int) -> Option<Seq<char>> {
    if 0 <= y + delta < old.len() {
        Some(old[y + delta])
    } else {
        None
    }
}

/// What it costs to write the first `n` rows that differ after a move.
pub open spec fn paint_cost(old: Seq<Seq<char>>, new: Seq<Seq<char>>, delta: int, n: int) -> nat
    decreases n,
{
    if n <= 0 {
        0
    } else {
        paint_cost(old, new, delta, n - 1) + if moved_row(old, n - 1, delta) == Some(new[n - 1]) {
            0
        } else {
            byte_len(new[n - 1]) + ROW_COST as nat
        }
    }
}

/// What it costs to write all rows that differ after a move.
pub open spec fn move_cost(old: Seq<Seq<char>>, new: Seq<Seq<char>>, delta: int) -> nat {
    paint_cost(old, new, delta, new.len() as int)
}

/// The better of the best move so far and one more, ties to the former.
pub open spec fn better(
    old: Seq<Seq<char>>,
    new: Seq<Seq<char>>,
    best: (nat, int),
    delta: int,
) -> (nat, int) {
    let cost = SCROLL_COST as nat + move_cost(old, new, delta);
    if cost < best.0 {
        (cost, delta)
    } else {
        best
    }
}

/// The best move among those by fewer than `n` rows: the cheapest, none where
/// it is as cheap, otherwise the shortest, up before down.
pub open spec fn best_move(old: Seq<Seq<char>>, new: Seq<Seq<char>>, n: int) -> (nat, int)
    decreases n,
{
    if n <= 1 {
        (move_cost(old, new, 0), 0)
    } else {
        better(old, new, better(old, new, best_move(old, new, n - 1), n - 1), -(n - 1))
    }
}

/// A block of rows after a move: the rows that come in are unknown.
pub open spec fn moved_block(old: Seq<Seq<char>>, delta: int) -> Seq<Seq<char>> {
    Seq::new(
        old.len(),
        |y: int|
            match moved_row(old, y, delta) {
                Some(t) => t,
                None => seq![],
            },
    )
}

/// Rows of which those from `top` to before `bottom` have moved.
pub open spec fn moved_rows(rows: Seq<Seq<char>>, top: int, bottom: int, delta: int) -> Seq<
    Seq<char>,
> {
    rows.take(top) + moved_block(rows.subrange(top, bottom), delta) + rows.skip(bottom)
}

/// How far the body moves before rows are written.
pub open spec fn chosen_move(
    s: ScreenModel,
    lines: Seq<Seq<char>>,
    width: usize,
    top: int,
    bottom: int,
) -> int {
    if s.width == width && s.lines.len() == lines.len() {
        best_move(s.lines.subrange(top, bottom), lines.subrange(top, bottom), bottom - top).1
    } else {
        0
    }
}

/// Whether the row `y` has to be written: the first and the last row always,
/// others where they differ from what is there.
pub open spec fn needs_paint(
    shown: Seq<Seq<char>>,
    lines: Seq<Seq<char>>,
    same_size: bool,
    y: int,
) -> bool {
    !same_size || y == 0 || y + 1 == lines.len() || shown[y] != lines[y]
}

/// The commands that write the first `n` rows.
pub open spec fn row_commands(
    shown: Seq<Seq<char>>,
    lines: Seq<Seq<char>>,
    same_size: bool,
    n: int,
) -> Seq<Command>
    decreases n,
{
    if n <= 0 {
        seq![]
    } else {
        row_commands(shown, lines, same_size, n - 1) + if needs_paint(
            shown,
            lines,
            same_size,
            n - 1,
        ) {
            seq![Command::Row { row: (n - 1) as nat, text: lines[n - 1] }]
        } else {
            seq![]
        }
    }
}

/// The commands before the rows.
pub open spec fn head_commands(delta: int, top: int, bottom: int) -> Seq<Command> {
    if delta == 0 {
        seq![Command::Begin]
    } else {
        seq![
            Command::Begin,
            Command::Scroll {
                top: top as nat,
                bottom: bottom as nat,
                count: (if delta > 0 {
                    delta
                } else {
                    -delta
                }) as nat,
                up: delta > 0,
            },
        ]
    }
}

/// The commands for one frame.
pub open spec fn frame_commands(
    s: ScreenModel,
    lines: Seq<Seq<char>>,
    width: usize,
    top: int,
    bottom: int,
) -> Seq<Command> {
    let same_size = s.width == width && s.lines.len() == lines.len();
    let delta = chosen_move(s, lines, width, top, bottom);
    let shown = if delta != 0 {
        moved_rows(s.lines, top, bottom, delta)
    } else {
        s.lines
    };
    head_commands(delta, top, bottom) + row_commands(shown, lines, same_size, lines.len() as int)
}

// ---------------------------------------------------------------------------
// The terminal
// ---------------------------------------------------------------------------

/// The rows of a terminal after a command.
pub open spec fn applied(rows: Seq<Seq<char>>, c: Command) -> Seq<Seq<char>> {
    match c {
        Command::Begin => rows,
        Command::Scroll { top, bottom, count, up } => moved_rows(
            rows,
            top as int,
            bottom as int,
            if up {
                count as int
            } else {
                -(count as int)
            },
        ),
        Command::Row { row, text } => rows.update(row as int, text),
    }
}

/// The rows of a terminal after some commands.
pub open spec fn all_applied(rows: Seq<Seq<char>>, cs: Seq<Command>) -> Seq<Seq<char>>
    decreases cs.len(),
{
    if cs.len() == 0 {
        rows
    } else {
        applied(all_applied(rows, cs.drop_last()), cs.last())
    }
}

/// Whether the cache agrees with a terminal: its rows stand there, but for
/// those that are not known.
pub open spec fn agrees(cache: Seq<Seq<char>>, rows: Seq<Seq<char>>) -> bool {
    &&& cache.len() == rows.len()
    &&& forall|y: int| 0 <= y < rows.len() ==> (#[trigger] cache[y]).len() == 0 || cache[y] == rows[y]
}

proof fn lemma_applied_add(rows: Seq<Seq<char>>, a: Seq<Command>, b: Seq<Command>)
    ensures
        all_applied(rows, a + b) == all_applied(all_applied(rows, a), b),
    decreases b.len(),
{
    if b.len() == 0 {
        assert(a + b =~= a);
    } else {
        assert((a + b).drop_last() =~= a + b.drop_last());
        lemma_applied_add(rows, a, b.drop_last());
    }
}

proof fn lemma_moved_agrees(
    cache: Seq<Seq<char>>,
    rows: Seq<Seq<char>>,
    top: int,
    bottom: int,
    delta: int,
)
    requires
        agrees(cache, rows),
        0 <= top <= bottom <= rows.len(),
    ensures
        agrees(moved_rows(cache, top, bottom, delta), moved_rows(rows, top, bottom, delta)),
        moved_rows(rows, top, bottom, delta).len() == rows.len(),
{
    let a = moved_rows(cache, top, bottom, delta);
    let b = moved_rows(rows, top, bottom, delta);
    assert forall|y: int| 0 <= y < b.len() implies (#[trigger] a[y]).len() == 0 || a[y] == b[y] by {
        if top <= y < bottom {
            let k = y - top + delta;
            if 0 <= k < bottom - top {
                assert(cache[top + k].len() == 0 || cache[top + k] == rows[top + k]);
                assert(a[y] == cache[top + k]);
                assert(b[y] == rows[top + k]);
            } else {
                assert(a[y] =~= Seq::<char>::empty());
            }
        } else {
            assert(cache[y].len() == 0 || cache[y] == rows[y]);
        }
    }
}

proof fn lemma_rows_written(
    shown: Seq<Seq<char>>,
    rows: Seq<Seq<char>>,
    lines: Seq<Seq<char>>,
    same_size: bool,
    n: int,
)
    requires
        0 <= n <= lines.len(),
        rows.len() == lines.len(),
        same_size ==> agrees(shown, rows),
        forall|y: int| 0 <= y < lines.len() ==> (#[trigger] lines[y]).len() > 0,
    ensures
        ({
            let r = all_applied(rows, row_commands(shown, lines, same_size, n));
            &&& r.len() == lines.len()
            &&& forall|y: int| 0 <= y < n ==> #[trigger] r[y] == lines[y]
            &&& forall|y: int| n <= y < lines.len() ==> #[trigger] r[y] == rows[y]
        }),
    decreases n,
{
    if n > 0 {
        lemma_rows_written(shown, rows, lines, same_size, n - 1);
        let before = row_commands(shown, lines, same_size, n - 1);
        let y = n - 1;
        assert(lines[y].len() > 0);
        if needs_paint(shown, lines, same_size, y) {
            let c = Command::Row { row: y as nat, text: lines[y] };
            let all = before + seq![c];
            assert(all.drop_last() =~= before);
            assert(all.last() == c);
        } else {
            assert(before + Seq::<Command>::empty() =~= before);
            assert(shown[y].len() == 0 || shown[y] == rows[y]);
        }
    }
}

/// Whatever the cache held, as long as it agreed with the terminal, sending
/// the commands of a frame leaves exactly that frame on the terminal.
pub proof fn law_frame_is_shown(
    s: ScreenModel,
    rows: Seq<Seq<char>>,
    lines: Seq<Seq<char>>,
    width: usize,
    top: int,
    bottom: int,
)
    requires
        rows.len() == lines.len(),
        0 <= top <= bottom <= lines.len(),
        s.width == width && s.lines.len() == lines.len() ==> agrees(s.lines, rows),
        forall|y: int| 0 <= y < lines.len() ==> (#[trigger] lines[y]).len() > 0,
    ensures
        all_applied(rows, frame_commands(s, lines, width, top, bottom)) == lines,
{
    let same_size = s.width == width && s.lines.len() == lines.len();
    let delta = chosen_move(s, lines, width, top, bottom);
    let head = head_commands(delta, top, bottom);
    let shown = if delta != 0 {
        moved_rows(s.lines, top, bottom, delta)
    } else {
        s.lines
    };
    let tail = row_commands(shown, lines, same_size, lines.len() as int);
    lemma_applied_add(rows, head, tail);
    let moved = all_applied(rows, head);
    assert(seq![Command::Begin].drop_last() =~= Seq::<Command>::empty());
    reveal_with_fuel(all_applied, 3);
    if delta != 0 {
        lemma_moved_agrees(s.lines, rows, top, bottom, delta);
        assert(head.drop_last() =~= seq![Command::Begin]);
        assert(all_applied(rows, head.drop_last()) == rows);
        assert(moved == moved_rows(rows, top, bottom, delta));
    } else {
        assert(head.drop_last() =~= Seq::<Command>::empty());
        assert(moved == rows);
    }
    lemma_rows_written(shown, moved, lines, same_size, lines.len() as int);
    assert(all_applied(moved, tail) =~= lines);
}

// ---------------------------------------------------------------------------
// Drawing
// ---------------------------------------------------------------------------

/// The cost of some rows fits in 128 bits.
proof fn lemma_cost_fits(rows: int)
    requires
        0 <= rows <= isize::MAX,
    ensures
        rows * (usize::MAX + ROW_COST) <= u128::MAX - SCROLL_COST,
{
    let each = usize::MAX + ROW_COST;
    assert(rows * each <= 0x7fff_ffff_ffff_ffff * 0x1_0000_0000_0000_000f) by (nonlinear_arith)
        requires
            0 <= rows <= 0x7fff_ffff_ffff_ffff,
            0 <= each <= 0x1_0000_0000_0000_000f,
    ;
}

proof fn lemma_paint_cost_grow(
    old: Seq<Seq<char>>,
    new: Seq<Seq<char>>,
    delta: int,
    m: int,
    n: int,
)
    requires
        m <= n,
    ensures
        paint_cost(old, new, delta, m) <= paint_cost(old, new, delta, n),
    decreases n,
{
    if m < n && n > 0 {
        lemma_paint_cost_grow(old, new, delta, m, n - 1);
    }
}

/// The index of the row that a move brings to `y`, where there is one.
fn source_row(y: usize, count: usize, up: bool, len: usize) -> (r: Option<usize>)
    requires
        y < len,
        count < len || count == 0,
    ensures
        ({
            let delta: int = if up {
                count as int
            } else {
                -(count as int)
            };
            match r {
                Some(k) => k == y + delta && 0 <= k < len,
                None => !(0 <= y + delta < len),
            }
        }),
{
    if up {
        if count < len - y {
            Some(y + count)
        } else {
            None
        }
    } else if y >= count {
        Some(y - count)
    } else {
        None
    }
}

impl Screen {
    /// Forget all rows.
    pub fn invalidate(&mut self)
        ensures
            final(self)@.lines.len() == 0,
            final(self)@.width == old(self)@.width,
    {
        self.lines = Vec::new();
    }

    /// Forget some rows: what was written over them must go with the next
    /// frame.
    pub fn invalidate_rows(&mut self, rows: Range<usize>)
        ensures
            final(self)@.width == old(self)@.width,
            final(self)@.lines == Seq::new(
                old(self)@.lines.len(),
                |y: int|
                    if rows.start <= y < rows.end {
                        Seq::empty()
                    } else {
                        old(self)@.lines[y]
                    },
            ),
    {
        let ghost before = self.lines@;
        let end: usize = if rows.end < self.lines.len() {
            rows.end
        } else {
            self.lines.len()
        };
        let mut y: usize = rows.start;
        while y < end
            invariant
                end <= before.len(),
                rows.start <= y,
                y <= end || y == rows.start,
                self.width == old(self).width,
                self.lines@.len() == before.len(),
                forall|k: int|
                    0 <= k < before.len() ==> (#[trigger] self.lines@[k])@ == (if rows.start <= k
                        < y {
                        Seq::empty()
                    } else {
                        before[k]@
                    }),
            decreases end - y,
        {
            self.lines[y] = String::new();
            assert(self.lines@[y as int]@ =~= Seq::<char>::empty());
            y += 1;
        }
        proof {
            assert(texts(self.lines@) =~= Seq::new(
                texts(before).len(),
                |y: int|
                    if rows.start <= y < rows.end {
                        Seq::empty()
                    } else {
                        texts(before)[y]
                    },
            ));
        }
    }

    /// What a move costs, or at least `limit` where it costs no less.
    fn cost_of_move(
        &self,
        lines: &Vec<String>,
        top: usize,
        bottom: usize,
        count: usize,
        up: bool,
        limit: u128,
    ) -> (r: u128)
        requires
            top <= bottom <= lines@.len(),
            self.lines@.len() == lines@.len(),
            count < bottom - top || count == 0,
            lines@.len() <= isize::MAX,
        ensures
            ({
                let delta: int = if up {
                    count as int
                } else {
                    -(count as int)
                };
                let full = move_cost(
                    self@.lines.subrange(top as int, bottom as int),
                    texts(lines@).subrange(top as int, bottom as int),
                    delta,
                );
                &&& r == full || (limit <= r <= full)
                &&& r <= u128::MAX - SCROLL_COST
            }),
    {
        let ghost old_rows = self@.lines.subrange(top as int, bottom as int);
        let ghost all = texts(lines@);
        let ghost new_rows = all.subrange(top as int, bottom as int);
        let ghost delta: int = if up {
            count as int
        } else {
            -(count as int)
        };
        let n: usize = bottom - top;
        proof {
            assert(new_rows.len() == n);
        }
        let mut cost: u128 = 0;
        let mut y: usize = 0;
        assert(0 * (usize::MAX + ROW_COST) == 0);
        while y < n
            invariant
                n == bottom - top,
                top <= bottom <= lines@.len(),
                self.lines@.len() == lines@.len(),
                count < n || count == 0,
                delta == if up {
                    count as int
                } else {
                    -(count as int)
                },
                old_rows == self@.lines.subrange(top as int, bottom as int),
                all == texts(lines@),
                new_rows == all.subrange(top as int, bottom as int),
                new_rows.len() == n,
                n <= isize::MAX,
                cost <= y * (usize::MAX + ROW_COST),
                y <= n,
                cost == paint_cost(old_rows, new_rows, delta, y as int),
            decreases n - y,
        {
            let line = lines[top + y].as_str();
            assert(new_rows[y as int] == line@);
            let same: bool = match source_row(y, count, up, n) {
                Some(k) => {
                    assert(old_rows[k as int] == self.lines@[top + k]@);
                    same_text(self.lines[top + k].as_str(), line)
                },
                None => false,
            };
            proof {
                lemma_paint_cost_grow(old_rows, new_rows, delta, y + 1, n as int);
                lemma_cost_fits(y + 1);
                assert((y + 1) * (usize::MAX + ROW_COST) == y * (usize::MAX + ROW_COST)
                    + usize::MAX + ROW_COST) by (nonlinear_arith);
            }
            if !same {
                let len: usize = checked_byte_len(line);
                cost = cost + (len as u128 + ROW_COST as u128);
                if cost >= limit {
                    return cost;
                }
            }
            y += 1;
        }
        proof {
            lemma_cost_fits(n as int);
        }
        cost
    }

    /// The best move of the body, as a count and a direction.
    fn scroll_shift(&self, lines: &Vec<String>, top: usize, bottom: usize) -> (r: (usize, bool))
        requires
            top <= bottom <= lines@.len(),
            self.lines@.len() == lines@.len(),
            lines@.len() <= isize::MAX,
        ensures
            r.0 < bottom - top || r.0 == 0,
            best_move(
                self@.lines.subrange(top as int, bottom as int),
                texts(lines@).subrange(top as int, bottom as int),
                bottom - top,
            ).1 == if r.1 {
                r.0 as int
            } else {
                -(r.0 as int)
            },
    {
        let ghost old_rows = self@.lines.subrange(top as int, bottom as int);
        let ghost new_rows = texts(lines@).subrange(top as int, bottom as int);
        let n: usize = bottom - top;
        let extra: u128 = SCROLL_COST as u128;
        let mut best: u128 = self.cost_of_move(lines, top, bottom, 0, true, u128::MAX);
        let mut shift: usize = 0;
        let mut up: bool = true;
        let mut count: usize = 1;
        while count < n
            invariant
                n == bottom - top,
                top <= bottom <= lines@.len(),
                self.lines@.len() == lines@.len(),
                lines@.len() <= isize::MAX,
                old_rows == self@.lines.subrange(top as int, bottom as int),
                new_rows == texts(lines@).subrange(top as int, bottom as int),
                extra == SCROLL_COST,
                1 <= count,
                count <= n || count == 1,
                shift < n || shift == 0,
                best_move(old_rows, new_rows, count as int) == (
                    best as nat,
                    if up {
                        shift as int
                    } else {
                        -(shift as int)
                    },
                ),
            decreases n - count,
        {
            let down_cost: u128 = self.cost_of_move(lines, top, bottom, count, true, best);
            if extra <= best && down_cost < best - extra {
                best = extra + down_cost;
                shift = count;
                up = true;
            }
            let up_cost: u128 = self.cost_of_move(lines, top, bottom, count, false, best);
            if extra <= best && up_cost < best - extra {
                best = extra + up_cost;
                shift = count;
                up = false;
            }
            count += 1;
        }
        (shift, up)
    }

    /// Bring a frame to the terminal: move the body where that is cheaper, and
    /// write the rows that differ.
    pub fn draw(&mut self, lines: Vec<String>, width: usize, body: Range<usize>) -> (out: String)
        requires
            body.start <= body.end <= lines@.len(),
            lines@.len() <= isize::MAX,
        ensures
            out@ == commands_text(
                frame_commands(
                    old(self)@,
                    texts(lines@),
                    width,
                    body.start as int,
                    body.end as int,
                ),
            ),
            final(self)@.width == width,
            final(self)@.lines == texts(lines@),
    {
        let ghost model = self@;
        let ghost all = texts(lines@);
        let top: usize = body.start;
        let bottom: usize = body.end;
        let same_size: bool = self.width == width && self.lines.len() == lines.len();
        let mut out = String::new();
        out.append("\u{1b}[?2026h\u{1b}[?25l");
        let (count, up) = if same_size {
            self.scroll_shift(&lines, top, bottom)
        } else {
            (0, true)
        };
        let ghost delta: int = if up {
            count as int
        } else {
            -(count as int)
        };
        assert(delta == chosen_move(model, all, width, top as int, bottom as int));
        let ghost head = head_commands(delta, top as int, bottom as int);
        let ghost shown = if delta != 0 {
            moved_rows(model.lines, top as int, bottom as int, delta)
        } else {
            model.lines
        };
        proof {
            lemma_command_one(Command::Begin);
        }
        if count != 0 {
            out.append("\u{1b}[");
            push_decimal(&mut out, top as u64 + 1);
            out.append(";");
            push_decimal(&mut out, bottom as u64);
            out.append("r\u{1b}[");
            push_decimal(&mut out, count as u64);
            if up {
                out.append("S");
            } else {
                out.append("T");
            }
            out.append("\u{1b}[r");
            proof {
                let scroll = head[1];
                assert(head.drop_last() =~= seq![Command::Begin]);
                assert(head.last() == scroll);
                assert(out@ =~= command_text(Command::Begin) + command_text(scroll));
            }
        }
        assert(out@ == commands_text(head));
        let mut y: usize = 0;
        proof {
            assert(head + row_commands(shown, all, same_size, 0) =~= head);
        }
        while y < lines.len()
            invariant
                y <= lines@.len(),
                all == texts(lines@),
                model == self@,
                same_size == (self.width == width && self.lines@.len() == lines@.len()),
                top <= bottom <= lines@.len(),
                !same_size ==> count == 0,
                count < bottom - top || count == 0,
                delta == if up {
                    count as int
                } else {
                    -(count as int)
                },
                shown == if delta != 0 {
                    moved_rows(model.lines, top as int, bottom as int, delta)
                } else {
                    model.lines
                },
                out@ == commands_text(head + row_commands(shown, all, same_size, y as int)),
            decreases lines@.len() - y,
        {
            let line = lines[y].as_str();
            assert(all[y as int] == line@);
            let mut paint: bool = !same_size || y == 0 || y + 1 == lines.len();
            if !paint {
                if count != 0 && top <= y && y < bottom {
                    let ghost block = model.lines.subrange(top as int, bottom as int);
                    assert(shown[y as int] == moved_block(block, delta)[y - top]);
                    match source_row(y - top, count, up, bottom - top) {
                        Some(k) => {
                            assert(block[k as int] == self.lines@[top + k]@);
                            paint = !same_text(self.lines[top + k].as_str(), line);
                        },
                        None => {
                            assert(shown[y as int] =~= Seq::<char>::empty());
                            paint = !same_text("", line);
                            proof {
                                reveal_strlit("");
                                assert(""@ =~= Seq::<char>::empty());
                            }
                        },
                    }
                } else {
                    assert(shown[y as int] == model.lines[y as int]);
                    paint = !same_text(self.lines[y].as_str(), line);
                }
            }
            assert(paint == needs_paint(shown, all, same_size, y as int));
            let ghost before = head + row_commands(shown, all, same_size, y as int);
            let ghost text0 = out@;
            if paint {
                out.append("\u{1b}[");
                push_decimal(&mut out, y as u64 + 1);
                out.append(";1H");
                out.append(line);
                proof {
                    let c = Command::Row { row: y as nat, text: line@ };
                    let now = before + seq![c];
                    assert(now.drop_last() =~= before);
                    assert(now.last() == c);
                    assert(out@ =~= text0 + command_text(c));
                    assert(head + row_commands(shown, all, same_size, y + 1) =~= now);
                }
            } else {
                assert(head + row_commands(shown, all, same_size, y + 1) =~= before);
            }
            y += 1;
        }
        self.width = width;
        self.lines = lines;
        out
    }
}

proof fn lemma_command_one(c: Command)
    ensures
        commands_text(seq![c]) == command_text(c),
{
    assert(seq![c].drop_last() =~= Seq::<Command>::empty());
    assert(commands_text(seq![c].drop_last()) =~= Seq::<char>::empty());
    assert(commands_text(seq![c]) =~= command_text(c));
}

} // verus!

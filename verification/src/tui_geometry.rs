//! Positions on the wrapped rows of a file.
//!
//! Cursor movement, scrolling and the mouse share one coordinate: the number
//! of screen lines above a position when all rows are laid out below each
//! other.
use vstd::prelude::*;
use crate::tui::{heights_of, row_height, heights, Layout};
use crate::tui_view::{row_models, FileView};

verus! {

/// The lines that rows take together.
pub open spec fn total(h: Seq<nat>) -> nat
    decreases h.len(),
{
    if h.len() == 0 {
        0
    } else {
        total(h.drop_last()) + h.last()
    }
}

/// The lines above a row.
pub open spec fn above(h: Seq<nat>, row: int) -> nat {
    total(h.take(row))
}

/// The lines above a position, which is a row and a line within it.
pub open spec fn flat(h: Seq<nat>, p: (int, int)) -> int {
    above(h, p.0) + p.1
}

/// The position with that many lines above it.
pub open spec fn place(h: Seq<nat>, n: int) -> (int, int)
    decreases h.len(),
{
    if h.len() == 0 {
        (0, 0)
    } else if n >= total(h.drop_last()) {
        (h.len() - 1, n - total(h.drop_last()))
    } else {
        place(h.drop_last(), n)
    }
}

/// Whether a position is on the rows.
pub open spec fn on_rows(h: Seq<nat>, p: (int, int)) -> bool {
    0 <= p.0 < h.len() && 0 <= p.1 < h[p.0]
}

pub open spec fn within(n: int, low: int, high: int) -> int {
    if n < low {
        low
    } else if n > high {
        high
    } else {
        n
    }
}

/// The nearest row and line to a position that may lie beyond the rows.
pub open spec fn settled(h: Seq<nat>, p: (int, int)) -> (int, int) {
    let row = if p.0 < h.len() {
        p.0
    } else {
        h.len() - 1
    };
    (
        row,
        if p.1 < h[row] {
            p.1
        } else {
            h[row] - 1
        },
    )
}

/// The position some lines further down, or up for a negative number, as far
/// as there are lines.
pub open spec fn moved(h: Seq<nat>, p: (int, int), delta: int) -> (int, int) {
    if h.len() == 0 {
        (0, 0)
    } else {
        place(h, within(flat(h, settled(h, p)) + delta, 0, total(h) - 1))
    }
}

/// Rows are never empty.
pub open spec fn filled(h: Seq<nat>) -> bool {
    forall|k: int| 0 <= k < h.len() ==> #[trigger] h[k] >= 1
}

pub proof fn lemma_above_step(h: Seq<nat>, row: int)
    requires
        0 <= row < h.len(),
    ensures
        above(h, row + 1) == above(h, row) + h[row],
{
    assert(h.take(row + 1).drop_last() =~= h.take(row));
}

pub proof fn lemma_above_all(h: Seq<nat>)
    ensures
        above(h, h.len() as int) == total(h),
        above(h, 0) == 0,
{
    assert(h.take(h.len() as int) =~= h);
}

pub proof fn lemma_above_order(h: Seq<nat>, a: int, b: int)
    requires
        0 <= a <= b <= h.len(),
    ensures
        above(h, a) <= above(h, b),
        b <= h.len() ==> above(h, b) <= total(h),
    decreases h.len() - a,
{
    lemma_above_all(h);
    if a < b {
        lemma_above_step(h, a);
        lemma_above_order(h, a + 1, b);
    } else if b < h.len() {
        lemma_above_step(h, a);
        lemma_above_order(h, a + 1, b + 1);
    }
}

/// A position on the rows is the place with as many lines above it.
pub proof fn lemma_place_flat(h: Seq<nat>, p: (int, int))
    requires
        on_rows(h, p),
    ensures
        place(h, flat(h, p)) == p,
        0 <= flat(h, p) < total(h),
    decreases h.len(),
{
    let t = h.drop_last();
    lemma_above_step(h, p.0);
    lemma_above_order(h, p.0 + 1, h.len() as int);
    lemma_above_all(h);
    if p.0 < h.len() - 1 {
        assert(t.take(p.0) =~= h.take(p.0));
        lemma_place_flat(t, p);
    } else {
        assert(h.take(p.0) =~= t);
    }
}

/// Every number of lines below the total has its place.
pub proof fn lemma_flat_place(h: Seq<nat>, n: int)
    requires
        0 <= n < total(h),
    ensures
        on_rows(h, place(h, n)),
        flat(h, place(h, n)) == n,
    decreases h.len(),
{
    let t = h.drop_last();
    if n >= total(t) {
        assert(h.take(h.len() - 1) =~= t);
    } else {
        lemma_flat_place(t, n);
        let p = place(t, n);
        assert(t.take(p.0) =~= h.take(p.0));
        assert(h[p.0] == t[p.0]);
    }
}

/// Positions are ordered by row and line as by the lines above them.
pub proof fn lemma_flat_order(h: Seq<nat>, p: (int, int), q: (int, int))
    requires
        on_rows(h, p),
        on_rows(h, q),
    ensures
        flat(h, p) < flat(h, q) <==> (p.0 < q.0 || (p.0 == q.0 && p.1 < q.1)),
{
    lemma_above_step(h, p.0);
    lemma_above_step(h, q.0);
    if p.0 < q.0 {
        lemma_above_order(h, p.0 + 1, q.0);
    } else if q.0 < p.0 {
        lemma_above_order(h, q.0 + 1, p.0);
    }
}

pub proof fn lemma_settled(h: Seq<nat>, p: (int, int))
    requires
        filled(h),
        h.len() > 0,
        p.0 >= 0,
        p.1 >= 0,
    ensures
        on_rows(h, settled(h, p)),
        on_rows(h, p) ==> settled(h, p) == p,
{
}

/// A move ends on the rows.
pub proof fn lemma_moved_on_rows(h: Seq<nat>, p: (int, int), delta: int)
    requires
        filled(h),
        h.len() > 0,
        p.0 >= 0,
        p.1 >= 0,
    ensures
        on_rows(h, moved(h, p, delta)),
        flat(h, moved(h, p, delta)) == within(flat(h, settled(h, p)) + delta, 0, total(h) - 1),
{
    lemma_settled(h, p);
    lemma_place_flat(h, settled(h, p));
    lemma_flat_place(h, within(flat(h, settled(h, p)) + delta, 0, total(h) - 1));
}

/// Two moves in the same direction are one move by both distances.
pub proof fn law_moves_add_up(h: Seq<nat>, p: (int, int), a: int, b: int)
    requires
        filled(h),
        p.0 >= 0,
        p.1 >= 0,
        (a >= 0 && b >= 0) || (a <= 0 && b <= 0),
    ensures
        moved(h, moved(h, p, a), b) == moved(h, p, a + b),
{
    if h.len() > 0 {
        lemma_moved_on_rows(h, p, a);
        lemma_settled(h, moved(h, p, a));
        lemma_place_flat(h, settled(h, p));
    }
}

/// Rows whose heights are known.
pub trait Geometry {
    spec fn rows(&self) -> Seq<nat>;

    spec fn wf(&self) -> bool;

    fn count(&self) -> (n: usize)
        requires
            self.wf(),
        ensures
            n == self.rows().len(),
    ;

    fn height(&self, row: usize) -> (n: usize)
        requires
            self.wf(),
            row < self.rows().len(),
        ensures
            n == self.rows()[row as int],
            n >= 1,
    ;
}

/// Heights given one by one.
pub struct KnownHeights {
    pub heights: Vec<usize>,
}

impl Geometry for KnownHeights {
    open spec fn rows(&self) -> Seq<nat> {
        Seq::new(self.heights@.len(), |k: int| self.heights@[k] as nat)
    }

    open spec fn wf(&self) -> bool {
        forall|k: int| 0 <= k < self.heights@.len() ==> #[trigger] self.heights@[k] >= 1
    }

    fn count(&self) -> (n: usize) {
        self.heights.len()
    }

    fn height(&self, row: usize) -> (n: usize) {
        self.heights[row]
    }
}

/// The rows of a view on a layout.
pub struct ViewRows<'a, 'b> {
    pub view: &'a FileView<'b>,
    pub layout: Layout,
}

impl<'a, 'b> Geometry for ViewRows<'a, 'b> {
    open spec fn rows(&self) -> Seq<nat> {
        heights_of(
            row_models(self.view.rows@),
            self.view.line_number_width as nat,
            self.layout.main_width as nat,
        )
    }

    open spec fn wf(&self) -> bool {
        self.view.line_number_width <= usize::MAX - 5
    }

    fn count(&self) -> (n: usize) {
        self.view.rows.len()
    }

    fn height(&self, row: usize) -> (n: usize) {
        row_height(self.view, row, self.layout)
    }
}

/// The position some lines further down or up.
pub fn visual_position<G: Geometry>(
    geometry: &G,
    position: (usize, usize),
    count: usize,
    down: bool,
) -> (r: (usize, usize))
    requires
        geometry.wf(),
        filled(geometry.rows()),
    ensures
        (r.0 as int, r.1 as int) == moved(
            geometry.rows(),
            (position.0 as int, position.1 as int),
            if down {
                count as int
            } else {
                -count
            },
        ),
        geometry.rows().len() > 0 ==> on_rows(geometry.rows(), (r.0 as int, r.1 as int)),
{
    let len: usize = geometry.count();
    if len == 0 {
        return (0, 0);
    }
    let ghost h = geometry.rows();
    let mut row: usize = if position.0 < len {
        position.0
    } else {
        len - 1
    };
    let mut height: usize = geometry.height(row);
    let mut line: usize = if position.1 < height {
        position.1
    } else {
        height - 1
    };
    let ghost start = flat(h, (row as int, line as int));
    let ghost target = if down {
        start + count
    } else {
        start - count
    };
    proof {
        lemma_settled(h, (position.0 as int, position.1 as int));
        assert((row as int, line as int) == settled(h, (position.0 as int, position.1 as int)));
        lemma_place_flat(h, (row as int, line as int));
    }
    let mut remaining: usize = count;
    while remaining > 0
        invariant_except_break
            if down {
                flat(h, (row as int, line as int)) + remaining == target
            } else {
                flat(h, (row as int, line as int)) - remaining == target
            },
        invariant
            geometry.wf(),
            h == geometry.rows(),
            filled(h),
            len == h.len(),
            row < len,
            height == h[row as int],
            line < height,
            0 <= flat(h, (row as int, line as int)) < total(h),
        ensures
            row < len,
            line < h[row as int],
            flat(h, (row as int, line as int)) == within(target, 0, total(h) - 1),
        decreases remaining,
    {
        proof {
            lemma_above_all(h);
            lemma_above_step(h, row as int);
            lemma_place_flat(h, (row as int, line as int));
        }
        let available: usize = if down {
            height - 1 - line
        } else {
            line
        };
        if remaining <= available {
            line = if down {
                line + remaining
            } else {
                line - remaining
            };
            proof {
                lemma_place_flat(h, (row as int, line as int));
            }
            break;
        }
        if down && row == len - 1 {
            line = height - 1;
            break;
        }
        if !down && row == 0 {
            line = 0;
            break;
        }
        remaining -= available + 1;
        if down {
            row += 1;
            height = geometry.height(row);
            line = 0;
        } else {
            row -= 1;
            height = geometry.height(row);
            line = height - 1;
            proof {
                lemma_above_step(h, row as int);
            }
        }
        proof {
            lemma_place_flat(h, (row as int, line as int));
        }
    }
    proof {
        lemma_place_flat(h, (row as int, line as int));
    }
    (row, line)
}

} // verus!

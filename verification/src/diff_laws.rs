//! What holds of every patch that has been read.
use vstd::prelude::*;
use crate::diff::{
    empty_patch, hunk_line, parsed_file, patch_lines, patch_step, trimmed_cr, DiffLineKind,
    DiffSource, HunkModel, LineModel, PatchModel,
};
use crate::util::find_byte;

verus! {

// ---------------------------------------------------------------------------
// Line numbers
// ---------------------------------------------------------------------------

/// How many of the first `n` lines stand on the old side.
pub open spec fn old_lines(lines: Seq<LineModel>, n: int) -> nat
    decreases n,
{
    if n <= 0 {
        0
    } else {
        old_lines(lines, n - 1) + if lines[n - 1].kind == DiffLineKind::Context || lines[n - 1].kind
            == DiffLineKind::Delete {
            1nat
        } else {
            0
        }
    }
}

/// How many of the first `n` lines stand on the new side.
pub open spec fn new_lines(lines: Seq<LineModel>, n: int) -> nat
    decreases n,
{
    if n <= 0 {
        0
    } else {
        new_lines(lines, n - 1) + if lines[n - 1].kind == DiffLineKind::Context || lines[n - 1].kind
            == DiffLineKind::Add {
            1nat
        } else {
            0
        }
    }
}

/// A number, or the largest one where it would not fit.
pub open spec fn bounded(n: nat) -> u32 {
    if n <= u32::MAX {
        n as u32
    } else {
        u32::MAX
    }
}

/// Whether the lines of a hunk are numbered from the starts that its header
/// gives: each side by the lines of this hunk that stand on it.
pub open spec fn numbered_from_header(h: HunkModel) -> bool {
    forall|k: int|
        0 <= k < h.lines.len() ==> {
            let l = #[trigger] h.lines[k];
            &&& l.old_lineno == if l.kind == DiffLineKind::Context || l.kind
                == DiffLineKind::Delete {
                Some(bounded(h.old_start as nat + old_lines(h.lines, k)))
            } else {
                None
            }
            &&& l.new_lineno == if l.kind == DiffLineKind::Context || l.kind == DiffLineKind::Add {
                Some(bounded(h.new_start as nat + new_lines(h.lines, k)))
            } else {
                None
            }
        }
}

proof fn lemma_counts_prefix(a: Seq<LineModel>, b: Seq<LineModel>, n: int)
    requires
        n <= a.len(),
        n <= b.len(),
        forall|k: int| 0 <= k < n ==> a[k] == b[k],
    ensures
        old_lines(a, n) == old_lines(b, n),
        new_lines(a, n) == new_lines(b, n),
    decreases n,
{
    if n > 0 {
        lemma_counts_prefix(a, b, n - 1);
    }
}

/// What holds while a patch is read.
spec fn numbering(m: PatchModel) -> bool {
    &&& forall|h: int| 0 <= h < m.hunks.len() ==> numbered_from_header(#[trigger] m.hunks[h])
    &&& m.hunks.len() > 0 ==> {
        let last = m.hunks.last();
        &&& m.old_line == bounded(
            last.old_start as nat + old_lines(last.lines, last.lines.len() as int),
        )
        &&& m.new_line == bounded(
            last.new_start as nat + new_lines(last.lines, last.lines.len() as int),
        )
    }
}

proof fn lemma_push_numbered(h: HunkModel, entry: LineModel)
    requires
        numbered_from_header(h),
        entry.old_lineno == (if entry.kind == DiffLineKind::Context || entry.kind
            == DiffLineKind::Delete {
            Some(bounded(h.old_start as nat + old_lines(h.lines, h.lines.len() as int)))
        } else {
            None
        }),
        entry.new_lineno == (if entry.kind == DiffLineKind::Context || entry.kind
            == DiffLineKind::Add {
            Some(bounded(h.new_start as nat + new_lines(h.lines, h.lines.len() as int)))
        } else {
            None
        }),
    ensures
        numbered_from_header(HunkModel { lines: h.lines.push(entry), ..h }),
        old_lines(h.lines.push(entry), h.lines.len() as int) == old_lines(
            h.lines,
            h.lines.len() as int,
        ),
        new_lines(h.lines.push(entry), h.lines.len() as int) == new_lines(
            h.lines,
            h.lines.len() as int,
        ),
{
    let lines = h.lines.push(entry);
    let next = HunkModel { lines, ..h };
    lemma_counts_prefix(lines, h.lines, h.lines.len() as int);
    assert forall|k: int| 0 <= k < lines.len() implies {
        let l = #[trigger] next.lines[k];
        &&& l.old_lineno == if l.kind == DiffLineKind::Context || l.kind == DiffLineKind::Delete {
            Some(bounded(h.old_start as nat + old_lines(lines, k)))
        } else {
            None
        }
        &&& l.new_lineno == if l.kind == DiffLineKind::Context || l.kind == DiffLineKind::Add {
            Some(bounded(h.new_start as nat + new_lines(lines, k)))
        } else {
            None
        }
    } by {
        lemma_counts_prefix(lines, h.lines, k);
        if k < h.lines.len() {
            assert(next.lines[k] == h.lines[k]);
        }
    }
}

proof fn lemma_step_numbers(m: PatchModel, line: Seq<u8>)
    requires
        numbering(m),
    ensures
        patch_step(m, line) matches Some(n) ==> numbering(n),
{
    reveal(patch_step);
    if let Some(n) = patch_step(m, line) {
        if n.hunks.len() > m.hunks.len() {
            assert(n.hunks.drop_last() =~= m.hunks);
            assert forall|h: int| 0 <= h < n.hunks.len() implies numbered_from_header(
                #[trigger] n.hunks[h],
            ) by {
                if h < m.hunks.len() {
                    assert(n.hunks[h] == m.hunks[h]);
                }
            }
        } else if n.hunks != m.hunks {
            let last = m.hunks.last();
            let entry = hunk_line(m.paths.path, line, m.old_line, m.new_line);
            assert(numbered_from_header(m.hunks[m.hunks.len() - 1]));
            lemma_push_numbered(last, entry);
            assert forall|h: int| 0 <= h < n.hunks.len() implies numbered_from_header(
                #[trigger] n.hunks[h],
            ) by {
                if h < m.hunks.len() - 1 {
                    assert(n.hunks[h] == m.hunks[h]);
                }
            }
        }
    }
}

proof fn lemma_lines_number(b: Seq<u8>, m: PatchModel)
    requires
        numbering(m),
    ensures
        patch_lines(b, m) matches Some(n) ==> numbering(n),
    decreases b.len(),
{
    let n = find_byte(b, 0x0a) as int;
    let line = trimmed_cr(b.take(n));
    lemma_step_numbers(m, line);
    if let Some(next) = patch_step(m, line) {
        if n < b.len() {
            lemma_lines_number(b.skip(n + 1), next);
        }
    }
}

/// In every hunk of a file that has been read, a line has on each side that it
/// stands on the number where the hunk starts there and the count of the lines
/// of this hunk before it on that side; so the numbers start anew with every
/// hunk.
pub proof fn law_lines_are_numbered(section: Seq<u8>, source: DiffSource)
    ensures
        parsed_file(section, source) matches Some(f) ==> forall|h: int|
            0 <= h < f.hunks.len() ==> numbered_from_header(#[trigger] f.hunks[h]),
{
    reveal(parsed_file);
    lemma_lines_number(section, empty_patch());
}

} // verus!

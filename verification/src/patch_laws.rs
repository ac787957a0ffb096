//! A patch reads as it was written.
use vstd::prelude::*;
use vstd::utf8::{encode_utf8, is_ascii_chars_encode_utf8};
use crate::diff::{
    empty_patch, header_numbers, header_range, hunk_line, is_digit, line_identity, optional_text,
    parsed_file, patch_step, sections, trimmed_cr, DiffLineKind, DiffSource, FileStatus, HunkModel,
    PatchModel, PathsModel,
};
use crate::git_laws::{
    are_lines, ended, heading_line, heading_paths, is_line, is_plain_path, lemma_ascii_prefix,
    lemma_decimal_bytes, lemma_find_at, lemma_header_bytes, lemma_heading, lemma_heading_paths,
    lemma_lines_concat, lemma_meanings, lemma_mode_and_index, lemma_path_line, lemma_ascii_concat,
    lemma_no_sections, lemma_plain_number, lemma_section_step, lemma_steps, lemma_steps_concat,
    lemma_text_line, lemma_trimmed_ended, one_heading, path_line, steps,
};
use crate::util::{decimal, find_seq, has_prefix, lossy, utf8};

verus! {

// ---------------------------------------------------------------------------
// Hunks
// ---------------------------------------------------------------------------

/// A line of a hunk, as a patch is written from it.
pub ghost struct WrittenLine {
    pub kind: DiffLineKind,
    pub content: Seq<u8>,
}

/// A hunk, as a patch is written from it.
pub ghost struct WrittenHunk {
    pub old_start: u32,
    pub old_count: u32,
    pub new_start: u32,
    pub new_count: u32,
    pub heading: Seq<u8>,
    pub lines: Seq<WrittenLine>,
}

/// A line can be written where it holds no line end; a remark begins with a
/// backslash.
pub open spec fn can_be_written(w: WrittenLine) -> bool {
    &&& is_line(w.content)
    &&& w.content.len() > 0 ==> w.content.last() != 13
    &&& w.kind == DiffLineKind::Meta ==> w.content.len() > 0 && w.content[0] == 0x5c
}

/// A line with its marker: a blank, a plus or a minus.
pub open spec fn written_line(w: WrittenLine) -> Seq<u8> {
    match w.kind {
        DiffLineKind::Context => seq![0x20u8] + w.content,
        DiffLineKind::Add => seq![0x2bu8] + w.content,
        DiffLineKind::Delete => seq![0x2du8] + w.content,
        DiffLineKind::Meta => w.content,
    }
}

pub open spec fn written_number(n: u32) -> Seq<u8> {
    encode_utf8(decimal(n as nat))
}

/// A start and a count with a comma between them.
#[verifier::opaque]
pub open spec fn written_range(a: u32, b: u32) -> Seq<u8> {
    written_number(a) + seq![0x2cu8] + written_number(b)
}

/// The header of a hunk: `@@ -a,b +c,d @@`, and what follows it.
pub open spec fn written_header(h: WrittenHunk) -> Seq<u8> {
    seq![0x40u8, 0x40u8, 0x20u8, 0x2du8] + written_range(h.old_start, h.old_count) + seq![
        0x20u8,
        0x2bu8,
    ] + written_range(h.new_start, h.new_count) + (seq![0x20u8, 0x40u8, 0x40u8] + h.heading)
}

pub open spec fn written_hunk(h: WrittenHunk) -> Seq<Seq<u8>> {
    seq![written_header(h)] + h.lines.map_values(|w: WrittenLine| written_line(w))
}

pub open spec fn hunk_can_be_written(h: WrittenHunk) -> bool {
    &&& is_line(h.heading)
    &&& h.heading.len() > 0 ==> h.heading.last() != 13
    &&& forall|k: int| 0 <= k < h.lines.len() ==> can_be_written(#[trigger] h.lines[k])
}

/// A hunk that has been read says what was written: the header with its
/// numbers, and every line with its kind and its text.
pub open spec fn reads_as(m: HunkModel, h: WrittenHunk) -> bool {
    &&& m.header == lossy(written_header(h))
    &&& m.old_start == h.old_start
    &&& m.old_count == h.old_count
    &&& m.new_start == h.new_start
    &&& m.new_count == h.new_count
    &&& m.lines.len() == h.lines.len()
    &&& forall|k: int|
        0 <= k < h.lines.len() ==> (#[trigger] m.lines[k]).kind == h.lines[k].kind
            && m.lines[k].text == lossy(h.lines[k].content)
}

proof fn lemma_range_number(part: Seq<u8>, a: u32, b: u32)
    requires
        part == written_number(a) + seq![0x2cu8] + written_number(b),
    ensures
        header_range(part) == Some((a, b)),
{
    let x = written_number(a);
    let y = written_number(b);
    lemma_decimal_bytes(a as nat);
    lemma_decimal_bytes(b as nat);
    assert forall|k: int| 0 <= k < x.len() implies part[k] != 0x2c by {
        assert(part[k] == x[k]);
        assert(is_digit(x[k]));
    }
    lemma_find_at(part, 0x2c, x.len() as int);
    assert(part.take(x.len() as int) =~= x);
    assert(part.skip(x.len() as int + 1) =~= y);
    lemma_plain_number(x);
    lemma_plain_number(y);
}

proof fn lemma_no_byte(a: u32, b: u32, x: u8)
    requires
        x == 0x20 || x == 0x0a,
    ensures
        forall|k: int|
            0 <= k < (written_number(a) + seq![0x2cu8] + written_number(b)).len() ==> (
            #[trigger] (written_number(a) + seq![0x2cu8] + written_number(b))[k]) != x,
{
    let p = written_number(a);
    let q = written_number(b);
    let r = p + seq![0x2cu8] + q;
    lemma_decimal_bytes(a as nat);
    lemma_decimal_bytes(b as nat);
    assert forall|k: int| 0 <= k < r.len() implies (#[trigger] r[k]) != x by {
        if k < p.len() {
            assert(r[k] == p[k]);
            assert(is_digit(p[k]));
        } else if k > p.len() {
            assert(r[k] == q[k - p.len() - 1]);
            assert(is_digit(q[k - p.len() - 1]));
        }
    }
}

/// The numbers of a header, from its two ranges.
proof fn lemma_header_places(
    c: Seq<u8>,
    old: Seq<u8>,
    new: Seq<u8>,
    o: (u32, u32),
    n: (u32, u32),
)
    requires
        c.len() > 6 + old.len() + new.len(),
        c[3] == 0x2d,
        forall|k: int| 0 <= k < old.len() ==> c[4 + k] == #[trigger] old[k],
        c[4 + old.len() as int] == 0x20,
        c[5 + old.len() as int] == 0x2b,
        forall|k: int| 0 <= k < new.len() ==> c[6 + old.len() + k] == #[trigger] new[k],
        c[6 + old.len() as int + new.len() as int] == 0x20,
        forall|k: int| 0 <= k < old.len() ==> (#[trigger] old[k]) != 0x20,
        forall|k: int| 0 <= k < new.len() ==> (#[trigger] new[k]) != 0x20,
        header_range(old) == Some(o),
        header_range(new) == Some(n),
    ensures
        header_numbers(c) == Some((o.0, o.1, n.0, n.1)),
{
    let x = old.len() as int;
    let y = new.len() as int;
    let first = c.skip(3);
    assert forall|k: int| 0 <= k < 1 + x implies first[k] != 0x20 by {
        if k > 0 {
            assert(c[4 + (k - 1)] == old[k - 1]);
        }
    }
    lemma_find_at(first, 0x20, 1 + x);
    let second = c.skip(5 + x);
    assert forall|k: int| 0 <= k < 1 + y implies second[k] != 0x20 by {
        if k > 0 {
            assert(c[6 + x + (k - 1)] == new[k - 1]);
        }
    }
    lemma_find_at(second, 0x20, 1 + y);
    assert(c.subrange(3, 4 + x).skip(1) =~= old);
    assert(c.subrange(5 + x, 6 + x + y).skip(1) =~= new);
}

proof fn lemma_header_parts(
    c: Seq<u8>,
    old: Seq<u8>,
    new: Seq<u8>,
    tail: Seq<u8>,
    o: (u32, u32),
    n: (u32, u32),
)
    requires
        c == seq![0x40u8, 0x40u8, 0x20u8, 0x2du8] + old + seq![0x20u8, 0x2bu8] + new + tail,
        tail.len() > 0,
        tail[0] == 0x20,
        forall|k: int| 0 <= k < old.len() ==> (#[trigger] old[k]) != 0x20,
        forall|k: int| 0 <= k < new.len() ==> (#[trigger] new[k]) != 0x20,
        header_range(old) == Some(o),
        header_range(new) == Some(n),
    ensures
        header_numbers(c) == Some((o.0, o.1, n.0, n.1)),
{
    assert forall|k: int| 0 <= k < old.len() implies c[4 + k] == #[trigger] old[k] by {}
    assert forall|k: int| 0 <= k < new.len() implies c[6 + old.len() + k] == #[trigger] new[k] by {}
    lemma_header_places(c, old, new, o, n);
}

proof fn lemma_written_range(a: u32, b: u32)
    ensures
        header_range(written_range(a, b)) == Some((a, b)),
        is_line(written_range(a, b)),
        forall|k: int| 0 <= k < written_range(a, b).len() ==> (#[trigger] written_range(a, b)[k])
            != 0x20,
{
    reveal(written_range);
    lemma_range_number(written_range(a, b), a, b);
    lemma_no_byte(a, b, 0x20);
    lemma_no_byte(a, b, 0x0a);
}

proof fn lemma_line_add(a: Seq<u8>, b: Seq<u8>)
    requires
        is_line(a),
        is_line(b),
    ensures
        is_line(a + b),
{
    let c = a + b;
    assert forall|k: int| 0 <= k < c.len() implies c[k] != 0x0a by {
        if k < a.len() {
            assert(c[k] == a[k]);
        } else {
            assert(c[k] == b[k - a.len()]);
        }
    }
}

proof fn lemma_header_numbers(h: WrittenHunk)
    ensures
        header_numbers(written_header(h)) == Some(
            (h.old_start, h.old_count, h.new_start, h.new_count),
        ),
{
    let old = written_range(h.old_start, h.old_count);
    let new = written_range(h.new_start, h.new_count);
    let tail = seq![0x20u8, 0x40u8, 0x40u8] + h.heading;
    lemma_written_range(h.old_start, h.old_count);
    lemma_written_range(h.new_start, h.new_count);
    assert(tail[0] == 0x20);
    lemma_header_parts(
        written_header(h),
        old,
        new,
        tail,
        (h.old_start, h.old_count),
        (h.new_start, h.new_count),
    );
}

/// What stands before the last part of a header.
spec fn header_front(h: WrittenHunk) -> Seq<u8> {
    seq![0x40u8, 0x40u8, 0x20u8, 0x2du8] + written_range(h.old_start, h.old_count) + seq![
        0x20u8,
        0x2bu8,
    ] + written_range(h.new_start, h.new_count)
}

proof fn lemma_header_front(h: WrittenHunk)
    ensures
        is_line(header_front(h)),
        header_front(h).len() >= 6,
        header_front(h).take(3) == seq![0x40u8, 0x40u8, 0x20u8],
{
    let old = written_range(h.old_start, h.old_count);
    let new = written_range(h.new_start, h.new_count);
    let start = seq![0x40u8, 0x40u8, 0x20u8, 0x2du8];
    let between = seq![0x20u8, 0x2bu8];
    lemma_written_range(h.old_start, h.old_count);
    lemma_written_range(h.new_start, h.new_count);
    assert(is_line(start) && is_line(between));
    lemma_line_add(start, old);
    lemma_line_add(start + old, between);
    lemma_line_add(start + old + between, new);
    assert(header_front(h).take(3) =~= seq![0x40u8, 0x40u8, 0x20u8]);
}

proof fn lemma_written_header(h: WrittenHunk)
    requires
        hunk_can_be_written(h),
    ensures
        header_numbers(written_header(h)) == Some(
            (h.old_start, h.old_count, h.new_start, h.new_count),
        ),
        is_line(written_header(h)),
        written_header(h)[0] == 0x40,
        written_header(h).take(3) == seq![0x40u8, 0x40u8, 0x20u8],
        written_header(h).last() != 13,
        written_header(h).len() >= 3,
{
    lemma_header_numbers(h);
    lemma_header_front(h);
    let front = header_front(h);
    let close = seq![0x20u8, 0x40u8, 0x40u8];
    let tail = close + h.heading;
    let c = written_header(h);
    assert(c == front + tail);
    assert(is_line(close));
    lemma_line_add(close, h.heading);
    lemma_line_add(front, tail);
    assert(c.take(3) =~= front.take(3));
    assert(c.take(3)[0] == c[0]);
    assert(c.last() == tail.last());
    if h.heading.len() > 0 {
        assert(tail.last() == h.heading.last());
    } else {
        assert(tail.last() == close[2]);
    }
}

proof fn lemma_written_line(w: WrittenLine)
    requires
        can_be_written(w),
    ensures
        is_line(written_line(w)),
        trimmed_cr(written_line(w)) == written_line(w),
        written_line(w).len() > 0,
        written_line(w)[0] == 0x20 || written_line(w)[0] == 0x2b || written_line(w)[0] == 0x2d
            || written_line(w)[0] == 0x5c,
{
    let l = written_line(w);
    assert forall|k: int| 0 <= k < l.len() implies l[k] != 0x0a by {
        if w.kind == DiffLineKind::Meta {
            assert(l[k] == w.content[k]);
        } else if k > 0 {
            assert(l[k] == w.content[k - 1]);
        }
    }
    if w.content.len() > 0 {
        assert(l.last() == w.content.last());
    }
}

/// One more line of a hunk.
proof fn lemma_line_step(m: PatchModel, w: WrittenLine)
    requires
        m.hunks.len() > 0,
        can_be_written(w),
    ensures
        patch_step(m, trimmed_cr(written_line(w))) matches Some(n) && {
            let last = m.hunks.last();
            &&& n.paths == m.paths
            &&& n.status == m.status
            &&& n.is_binary == m.is_binary
            &&& n.hunks.len() == m.hunks.len()
            &&& n.hunks.drop_last() == m.hunks.drop_last()
            &&& n.hunks.last().lines.len() == last.lines.len() + 1
            &&& n.hunks.last() == (HunkModel { lines: n.hunks.last().lines, ..last })
            &&& n.hunks.last().lines.drop_last() == last.lines
            &&& n.hunks.last().lines.last().kind == w.kind
            &&& n.hunks.last().lines.last().text == lossy(w.content)
        },
{
    let l = written_line(w);
    lemma_written_line(w);
    lemma_meanings(l);
    reveal(patch_step);
    let n = patch_step(m, l)->0;
    let last = m.hunks.last();
    let entry = hunk_line(m.paths.path, l, m.old_line, m.new_line);
    assert(l.skip(1) =~= w.content || w.kind == DiffLineKind::Meta);
    assert(entry.kind == w.kind);
    assert(entry.text == lossy(w.content));
    assert(n.hunks.drop_last() =~= m.hunks.drop_last());
    assert(last.lines.push(entry).drop_last() =~= last.lines);
}

spec fn written_lines(v: Seq<WrittenLine>) -> Seq<Seq<u8>> {
    v.map_values(|w: WrittenLine| written_line(w))
}

/// What lines make of a patch whose last hunk they belong to.
spec fn lines_read(m: PatchModel, n: PatchModel, v: Seq<WrittenLine>) -> bool {
    let a = m.hunks.last();
    let b = n.hunks.last();
    &&& n.paths == m.paths
    &&& n.status == m.status
    &&& n.is_binary == m.is_binary
    &&& n.hunks.len() == m.hunks.len()
    &&& n.hunks.drop_last() == m.hunks.drop_last()
    &&& b == (HunkModel { lines: b.lines, ..a })
    &&& b.lines.len() == a.lines.len() + v.len()
    &&& forall|k: int| 0 <= k < a.lines.len() ==> #[trigger] b.lines[k] == a.lines[k]
    &&& forall|k: int|
        0 <= k < v.len() ==> b.lines[a.lines.len() + k].kind == (#[trigger] v[k]).kind
            && b.lines[a.lines.len() + k].text == lossy(v[k].content)
}

proof fn lemma_lines_read(m: PatchModel, v: Seq<WrittenLine>)
    requires
        m.hunks.len() > 0,
        forall|k: int| 0 <= k < v.len() ==> can_be_written(#[trigger] v[k]),
    ensures
        steps(written_lines(v), m) matches Some(n) && lines_read(m, n, v),
        are_lines(written_lines(v)),
    decreases v.len(),
{
    let ls = written_lines(v);
    if v.len() == 0 {
        assert(ls.len() == 0);
    } else {
        let t = v.skip(1);
        lemma_line_step(m, v[0]);
        lemma_written_line(v[0]);
        let next = patch_step(m, trimmed_cr(written_line(v[0])))->0;
        assert forall|k: int| 0 <= k < t.len() implies can_be_written(#[trigger] t[k]) by {
            assert(t[k] == v[k + 1]);
        }
        lemma_lines_read(next, t);
        assert(ls[0] == written_line(v[0]));
        assert(ls.skip(1) =~= written_lines(t));
        let n = steps(ls, m)->0;
        let a = m.hunks.last();
        let b = n.hunks.last();
        let c = next.hunks.last();
        assert forall|k: int| 0 <= k < a.lines.len() implies #[trigger] b.lines[k] == a.lines[k] by {
            assert(b.lines[k] == c.lines[k]);
            assert(c.lines.drop_last()[k] == c.lines[k]);
        }
        assert forall|k: int| 0 <= k < v.len() implies b.lines[a.lines.len() + k].kind == (
        #[trigger] v[k]).kind && b.lines[a.lines.len() + k].text == lossy(v[k].content) by {
            if k == 0 {
                assert(b.lines[a.lines.len() as int] == c.lines[a.lines.len() as int]);
                assert(c.lines.last() == c.lines[a.lines.len() as int]);
            } else {
                assert(t[k - 1] == v[k]);
                assert(b.lines[c.lines.len() + (k - 1)].kind == t[k - 1].kind);
            }
        }
        assert forall|k: int| 0 <= k < ls.len() implies is_line(#[trigger] ls[k]) by {
            if k > 0 {
                assert(ls[k] == written_lines(t)[k - 1]);
            }
        }
    }
}

/// All lines of some hunks.
pub open spec fn written_hunks(v: Seq<WrittenHunk>) -> Seq<Seq<u8>>
    decreases v.len(),
{
    if v.len() == 0 {
        seq![]
    } else {
        written_hunks(v.drop_last()) + written_hunk(v.last())
    }
}

pub open spec fn hunks_can_be_written(v: Seq<WrittenHunk>) -> bool {
    forall|h: int| 0 <= h < v.len() ==> hunk_can_be_written(#[trigger] v[h])
}

proof fn lemma_hunk_read(m: PatchModel, h: WrittenHunk)
    requires
        hunk_can_be_written(h),
    ensures
        are_lines(written_hunk(h)),
        written_hunk(h).last().len() > 0,
        steps(written_hunk(h), m) matches Some(n) && {
            &&& n.paths == m.paths
            &&& n.status == m.status
            &&& n.is_binary == m.is_binary
            &&& n.hunks.len() == m.hunks.len() + 1
            &&& n.hunks.drop_last() == m.hunks
            &&& reads_as(n.hunks.last(), h)
        },
{
    let c = written_header(h);
    lemma_written_header(h);
    lemma_header_bytes();
    lemma_meanings(c);
    assert(has_prefix(c, utf8("@@ ")));
    assert(trimmed_cr(c) == c);
    let empty = HunkModel {
        header: lossy(c),
        old_start: h.old_start,
        old_count: h.old_count,
        new_start: h.new_start,
        new_count: h.new_count,
        lines: seq![],
    };
    let next = PatchModel {
        hunks: m.hunks.push(empty),
        old_line: h.old_start,
        new_line: h.new_start,
        ..m
    };
    assert(patch_step(m, c) == Some(next)) by {
        reveal(patch_step);
    }
    lemma_lines_read(next, h.lines);
    let ls = written_hunk(h);
    let rest = written_lines(h.lines);
    assert(ls =~= seq![c] + rest);
    assert(ls.skip(1) =~= rest);
    assert(ls[0] == c);
    assert(are_lines(seq![c]));
    lemma_lines_concat(seq![c], rest);
    let n = steps(ls, m)->0;
    assert(next.hunks.drop_last() =~= m.hunks);
    let b = n.hunks.last();
    assert forall|k: int| 0 <= k < h.lines.len() implies (#[trigger] b.lines[k]).kind
        == h.lines[k].kind && b.lines[k].text == lossy(h.lines[k].content) by {
        assert(b.lines[empty.lines.len() + k].kind == h.lines[k].kind);
    }
    if h.lines.len() > 0 {
        lemma_written_line(h.lines.last());
        assert(ls.last() == written_line(h.lines.last()));
    }
}

proof fn lemma_hunks_read(m: PatchModel, v: Seq<WrittenHunk>)
    requires
        hunks_can_be_written(v),
        m.hunks.len() == 0,
    ensures
        are_lines(written_hunks(v)),
        v.len() > 0 ==> written_hunks(v).len() > 0 && written_hunks(v).last().len() > 0,
        steps(written_hunks(v), m) matches Some(n) && {
            &&& n.paths == m.paths
            &&& n.status == m.status
            &&& n.is_binary == m.is_binary
            &&& n.hunks.len() == v.len()
            &&& forall|h: int| 0 <= h < v.len() ==> reads_as(#[trigger] n.hunks[h], v[h])
        },
    decreases v.len(),
{
    if v.len() > 0 {
        let t = v.drop_last();
        assert forall|h: int| 0 <= h < t.len() implies hunk_can_be_written(#[trigger] t[h]) by {
            assert(t[h] == v[h]);
        }
        lemma_hunks_read(m, t);
        assert(hunk_can_be_written(v[v.len() - 1]));
        let before = steps(written_hunks(t), m)->0;
        lemma_hunk_read(before, v.last());
        lemma_steps_concat(written_hunks(t), written_hunk(v.last()), m);
        lemma_lines_concat(written_hunks(t), written_hunk(v.last()));
        let n = steps(written_hunks(v), m)->0;
        assert forall|h: int| 0 <= h < v.len() implies reads_as(#[trigger] n.hunks[h], v[h]) by {
            if h < t.len() {
                assert(n.hunks.drop_last()[h] == n.hunks[h]);
                assert(before.hunks[h] == n.hunks[h]);
                assert(reads_as(before.hunks[h], t[h]));
            }
        }
        assert(written_hunks(v).last() == written_hunk(v.last()).last());
    }
}

// ---------------------------------------------------------------------------
// Files
// ---------------------------------------------------------------------------

/// A line of the head that says nothing of the file: how alike two files are,
/// the objects, or a mode.
pub open spec fn is_neutral(line: Seq<u8>) -> bool {
    &&& is_line(line)
    &&& line.len() > 0
    &&& line.last() != 13
    &&& line[0] == 0x69 || line[0] == 0x6f || line[0] == 0x73
}

pub open spec fn all_neutral(lines: Seq<Seq<u8>>) -> bool {
    forall|k: int| 0 <= k < lines.len() ==> is_neutral(#[trigger] lines[k])
}

proof fn lemma_neutral(lines: Seq<Seq<u8>>, m: PatchModel)
    requires
        all_neutral(lines),
        m.hunks.len() == 0,
    ensures
        steps(lines, m) == Some(m),
        are_lines(lines),
    decreases lines.len(),
{
    if lines.len() > 0 {
        let l = lines[0];
        let t = lines.skip(1);
        assert(is_neutral(l));
        assert(trimmed_cr(l) == l);
        lemma_meanings(l);
        assert(patch_step(m, l) == Some(m)) by {
            reveal(patch_step);
        }
        assert forall|k: int| 0 <= k < t.len() implies is_neutral(#[trigger] t[k]) by {
            assert(t[k] == lines[k + 1]);
        }
        lemma_neutral(t, m);
        assert forall|k: int| 0 <= k < lines.len() implies is_line(#[trigger] lines[k]) by {
            assert(is_neutral(lines[k]));
        }
    }
}

/// What a patch does to a file.
pub ghost enum Change {
    Modified,
    Added,
    Deleted,
    Renamed(Seq<u8>),
    Copied(Seq<u8>),
}

/// The path that a file had before.
pub open spec fn path_before(change: Change, path: Seq<u8>) -> Seq<u8> {
    match change {
        Change::Renamed(old) => old,
        Change::Copied(old) => old,
        _ => path,
    }
}

pub open spec fn status_after(change: Change) -> FileStatus {
    match change {
        Change::Modified => FileStatus::Modified,
        Change::Added => FileStatus::Added,
        Change::Deleted => FileStatus::Deleted,
        Change::Renamed(_) => FileStatus::Renamed,
        Change::Copied(_) => FileStatus::Copied,
    }
}

/// A text and a path behind it.
pub open spec fn text_and_path(text: &str, path: Seq<u8>) -> Seq<u8> {
    utf8(text) + path
}

/// The lines that say what happened to the file.
pub open spec fn change_lines(change: Change, path: Seq<u8>) -> Seq<Seq<u8>> {
    match change {
        Change::Modified => seq![],
        Change::Added => seq![utf8("new file mode 100644")],
        Change::Deleted => seq![utf8("deleted file mode 100644")],
        Change::Renamed(old) => seq![
            text_and_path("rename from ", old),
            text_and_path("rename to ", path),
        ],
        Change::Copied(old) => seq![
            text_and_path("copy from ", old),
            text_and_path("copy to ", path),
        ],
    }
}

/// The two lines that name the sides.
pub open spec fn named_sides(change: Change, path: Seq<u8>) -> Seq<Seq<u8>> {
    seq![
        if change is Added {
            utf8("--- /dev/null")
        } else {
            text_and_path("--- a/", path_before(change, path))
        },
        if change is Deleted {
            utf8("+++ /dev/null")
        } else {
            path_line(path)
        },
    ]
}

/// A line of a text and a path.
proof fn lemma_text_and_path(t: Seq<char>, path: Seq<u8>)
    requires
        vstd::utf8::is_ascii_chars(t),
        t.len() > 0,
        forall|k: int| 0 <= k < t.len() ==> (#[trigger] t[k]) != '\n' && t[k] != '\r',
        is_plain_path(path),
    ensures
        is_line(encode_utf8(t) + path),
        trimmed_cr(encode_utf8(t) + path) == encode_utf8(t) + path,
        (encode_utf8(t) + path).len() >= t.len(),
        (encode_utf8(t) + path)[0] == t[0] as u8,
        has_prefix(encode_utf8(t) + path, encode_utf8(t)),
        (encode_utf8(t) + path).skip(encode_utf8(t).len() as int) == path,
{
    lemma_text_line(t);
    let e = encode_utf8(t);
    let l = e + path;
    lemma_line_add(e, path);
    if path.len() > 0 {
        assert(l.last() == path.last());
    } else {
        assert(l.last() == e.last());
    }
    assert(l.take(e.len() as int) =~= e);
    assert(l.skip(e.len() as int) =~= path);
}

/// The lines of a renamed file.
proof fn lemma_rename_lines(m: PatchModel, old: Seq<u8>, path: Seq<u8>)
    requires
        m.hunks.len() == 0,
        is_plain_path(old),
        is_plain_path(path),
    ensures
        is_line(text_and_path("rename from ", old)),
        is_line(text_and_path("rename to ", path)),
        patch_step(m, trimmed_cr(text_and_path("rename from ", old))) == Some(
            PatchModel {
                status: FileStatus::Renamed,
                paths: PathsModel { old: Some(old), ..m.paths },
                ..m
            },
        ),
        patch_step(m, trimmed_cr(text_and_path("rename to ", path))) == Some(
            PatchModel {
                status: FileStatus::Renamed,
                paths: PathsModel { path: Some(path), ..m.paths },
                ..m
            },
        ),
{
    reveal_strlit("rename from ");
    reveal_strlit("rename to ");
    lemma_text_and_path("rename from "@, old);
    lemma_text_and_path("rename to "@, path);
    let a = text_and_path("rename from ", old);
    let b = text_and_path("rename to ", path);
    lemma_meanings(a);
    lemma_meanings(b);
    assert(!has_prefix(b, utf8("rename from "))) by {
        is_ascii_chars_encode_utf8("rename from "@);
        is_ascii_chars_encode_utf8("rename to "@);
        if has_prefix(b, utf8("rename from ")) {
            let p = b.take(12);
            assert(p[7] == utf8("rename from ")[7]);
            assert("rename from "@[7] as u8 == utf8("rename from ")[7]);
            assert(b[7] == utf8("rename to ")[7]);
            assert("rename to "@[7] as u8 == utf8("rename to ")[7]);
        }
    }
    reveal(patch_step);
}

proof fn lemma_copy_lines(m: PatchModel, old: Seq<u8>, path: Seq<u8>)
    requires
        m.hunks.len() == 0,
        is_plain_path(old),
        is_plain_path(path),
    ensures
        is_line(text_and_path("copy from ", old)),
        is_line(text_and_path("copy to ", path)),
        patch_step(m, trimmed_cr(text_and_path("copy from ", old))) == Some(
            PatchModel {
                status: FileStatus::Copied,
                paths: PathsModel { old: Some(old), ..m.paths },
                ..m
            },
        ),
        patch_step(m, trimmed_cr(text_and_path("copy to ", path))) == Some(
            PatchModel {
                status: FileStatus::Copied,
                paths: PathsModel { path: Some(path), ..m.paths },
                ..m
            },
        ),
{
    reveal_strlit("copy from ");
    reveal_strlit("copy to ");
    lemma_text_and_path("copy from "@, old);
    lemma_text_and_path("copy to "@, path);
    let a = text_and_path("copy from ", old);
    let b = text_and_path("copy to ", path);
    lemma_meanings(a);
    lemma_meanings(b);
    assert(!has_prefix(b, utf8("copy from "))) by {
        is_ascii_chars_encode_utf8("copy from "@);
        is_ascii_chars_encode_utf8("copy to "@);
        if has_prefix(b, utf8("copy from ")) {
            let p = b.take(10);
            assert(p[5] == utf8("copy from ")[5]);
            assert("copy from "@[5] as u8 == utf8("copy from ")[5]);
            assert(b[5] == utf8("copy to ")[5]);
            assert("copy to "@[5] as u8 == utf8("copy to ")[5]);
        }
    }
    reveal(patch_step);
}

/// The line that names the old path.
proof fn lemma_old_line(m: PatchModel, old: Seq<u8>)
    requires
        m.hunks.len() == 0,
        is_plain_path(old),
    ensures
        is_line(text_and_path("--- a/", old)),
        patch_step(m, trimmed_cr(text_and_path("--- a/", old))) == Some(
            PatchModel { paths: PathsModel { old: Some(old), ..m.paths }, ..m },
        ),
{
    reveal_strlit("--- a/");
    reveal_strlit("--- ");
    reveal_strlit("/dev/null");
    lemma_text_and_path("--- a/"@, old);
    let a = utf8("--- a/");
    let l = text_and_path("--- a/", old);
    is_ascii_chars_encode_utf8("--- "@);
    is_ascii_chars_encode_utf8("--- a/"@);
    is_ascii_chars_encode_utf8("/dev/null"@);
    assert("--- a/"@.take(4) =~= "--- "@);
    lemma_ascii_prefix("--- a/"@, "--- "@);
    assert(l.take(4) =~= a.take(4));
    let rest = l.skip(4);
    assert("--- a/"@[4] as u8 == a[4] && "--- a/"@[5] as u8 == a[5]);
    assert(rest[0] == 0x61 && rest[1] == 0x2f);
    assert("/dev/null"@[0] as u8 == utf8("/dev/null")[0]);
    assert(rest != utf8("/dev/null"));
    assert(rest.skip(2) =~= old);
    lemma_meanings(l);
    reveal(patch_step);
}

/// The lines of a deleted file.
proof fn lemma_deleted_lines(m: PatchModel)
    requires
        m.hunks.len() == 0,
    ensures
        is_line(utf8("deleted file mode 100644")),
        is_line(utf8("+++ /dev/null")),
        utf8("+++ /dev/null").len() > 0,
        patch_step(m, trimmed_cr(utf8("deleted file mode 100644"))) == Some(
            PatchModel { status: FileStatus::Deleted, ..m },
        ),
        patch_step(m, trimmed_cr(utf8("+++ /dev/null"))) == Some(m),
{
    reveal_strlit("deleted file mode 100644");
    reveal_strlit("deleted file mode");
    reveal_strlit("+++ /dev/null");
    reveal_strlit("+++ ");
    reveal_strlit("/dev/null");
    reveal_strlit("diff --git ");
    lemma_text_line("deleted file mode 100644"@);
    lemma_text_line("+++ /dev/null"@);
    assert("deleted file mode 100644"@.take(17) =~= "deleted file mode"@);
    lemma_ascii_prefix("deleted file mode 100644"@, "deleted file mode"@);
    assert("+++ /dev/null"@.take(4) =~= "+++ "@);
    assert("+++ /dev/null"@.skip(4) =~= "/dev/null"@);
    lemma_ascii_prefix("+++ /dev/null"@, "+++ "@);
    let d = utf8("deleted file mode 100644");
    lemma_meanings(d);
    lemma_meanings(utf8("+++ /dev/null"));
    assert(!has_prefix(d, utf8("diff --git "))) by {
        is_ascii_chars_encode_utf8("diff --git "@);
        is_ascii_chars_encode_utf8("deleted file mode 100644"@);
        if has_prefix(d, utf8("diff --git ")) {
            let p = d.take(11);
            assert(p[1] == utf8("diff --git ")[1]);
            assert("diff --git "@[1] as u8 == utf8("diff --git ")[1]);
            assert("deleted file mode 100644"@[1] as u8 == d[1]);
        }
    }
    reveal(patch_step);
}

/// What the lines of a change, and those that name the sides, make of a patch.
proof fn lemma_change_steps(m: PatchModel, change: Change, path: Seq<u8>)
    requires
        m.hunks.len() == 0,
        m.status == FileStatus::Modified,
        is_plain_path(path),
        is_plain_path(path_before(change, path)),
    ensures
        are_lines(change_lines(change, path)),
        are_lines(named_sides(change, path)),
        named_sides(change, path).last().len() > 0,
        steps(change_lines(change, path) + named_sides(change, path), m) == Some(
            PatchModel {
                status: status_after(change),
                paths: PathsModel {
                    path: if change is Deleted {
                        m.paths.path
                    } else {
                        Some(path)
                    },
                    old: if change is Added {
                        m.paths.old
                    } else {
                        Some(path_before(change, path))
                    },
                },
                ..m
            },
        ),
{
    let old = path_before(change, path);
    let ls = change_lines(change, path);
    let sides = named_sides(change, path);
    lemma_steps_concat(ls, sides, m);
    lemma_mode_and_index(m);
    lemma_deleted_lines(m);
    lemma_rename_lines(m, old, path);
    lemma_copy_lines(m, old, path);
    let first = match change {
        Change::Renamed(_) => PatchModel {
            status: FileStatus::Renamed,
            paths: PathsModel { old: Some(old), ..m.paths },
            ..m
        },
        Change::Copied(_) => PatchModel {
            status: FileStatus::Copied,
            paths: PathsModel { old: Some(old), ..m.paths },
            ..m
        },
        _ => m,
    };
    lemma_rename_lines(first, old, path);
    lemma_copy_lines(first, old, path);
    let a = match change {
        Change::Renamed(_) | Change::Copied(_) => PatchModel {
            paths: PathsModel { path: Some(path), ..first.paths },
            ..first
        },
        _ => PatchModel { status: status_after(change), ..m },
    };
    assert(steps(ls, m) == Some(a)) by {
        let t = ls.skip(1);
        match change {
            Change::Modified => {},
            Change::Added | Change::Deleted => {
                assert(t.len() == 0);
                assert(steps(t, a) == Some(a));
            },
            Change::Renamed(_) | Change::Copied(_) => {
                assert(t[0] == ls[1]);
                assert(t.skip(1).len() == 0);
                assert(steps(t.skip(1), a) == Some(a));
                assert(steps(t, first) == Some(a));
            },
        }
    }
    lemma_mode_and_index(a);
    lemma_old_line(a, old);
    let b = if change is Added {
        a
    } else {
        PatchModel { paths: PathsModel { old: Some(old), ..a.paths }, ..a }
    };
    lemma_deleted_lines(b);
    lemma_path_line(b, path);
    let c = if change is Deleted {
        b
    } else {
        PatchModel { paths: PathsModel { path: Some(path), ..b.paths }, ..b }
    };
    let t = sides.skip(1);
    assert(t[0] == sides[1]);
    assert(t.skip(1).len() == 0);
    assert(steps(t.skip(1), c) == Some(c));
    assert(steps(t, b) == Some(c));
    assert(steps(sides, a) == Some(c));
}

/// The lines of a written patch.
pub open spec fn written_patch(
    change: Change,
    path: Seq<u8>,
    extra: Seq<Seq<u8>>,
    hunks: Seq<WrittenHunk>,
) -> Seq<Seq<u8>> {
    seq![heading_line(path)] + extra + (change_lines(change, path) + named_sides(change, path))
        + written_hunks(hunks)
}

/// A patch reads as it was written: the file has the path and the path before,
/// the status that the lines of the change say, and all hunks, with the numbers
/// of their headers and every line with its kind and text, in order.
pub proof fn law_patch_reads_back(
    change: Change,
    path: Seq<u8>,
    extra: Seq<Seq<u8>>,
    hunks: Seq<WrittenHunk>,
    source: DiffSource,
)
    requires
        is_plain_path(path),
        is_plain_path(path_before(change, path)),
        find_seq(path, utf8(" b/")) is None,
        all_neutral(extra),
        hunks_can_be_written(hunks),
    ensures
        parsed_file(ended(written_patch(change, path, extra, hunks)).drop_last(), source) matches Some(
            f,
        ) && {
            &&& f.path == lossy(path)
            &&& f.old_path == Some(lossy(path_before(change, path)))
            &&& f.status == status_after(change)
            &&& !f.is_binary
            &&& f.source == source
            &&& f.hunks.len() == hunks.len()
            &&& forall|h: int| 0 <= h < hunks.len() ==> reads_as(#[trigger] f.hunks[h], hunks[h])
        },
{
    let head = seq![heading_line(path)];
    let middle = change_lines(change, path) + named_sides(change, path);
    let body = written_hunks(hunks);
    let m = PatchModel { paths: heading_paths(path), ..empty_patch() };
    lemma_heading(path);
    lemma_heading_paths(path);
    assert(steps(head, empty_patch()) == Some(m)) by {
        assert(head.skip(1).len() == 0);
        assert(steps(head.skip(1), m) == Some(m));
    }
    lemma_neutral(extra, m);
    lemma_change_steps(m, change, path);
    let n = steps(middle, m)->0;
    lemma_hunks_read(n, hunks);
    lemma_steps_concat(head, extra, empty_patch());
    lemma_steps_concat(head + extra, middle, empty_patch());
    lemma_steps_concat(head + extra + middle, body, empty_patch());
    assert(are_lines(head));
    lemma_lines_concat(head, extra);
    lemma_lines_concat(change_lines(change, path), named_sides(change, path));
    lemma_lines_concat(head + extra, middle);
    lemma_lines_concat(head + extra + middle, body);
    let lines = written_patch(change, path, extra, hunks);
    lemma_steps(lines, empty_patch());
    reveal(parsed_file);
}

// ---------------------------------------------------------------------------
// Many files
// ---------------------------------------------------------------------------

/// The lines of the sections from one on, each ended.
pub open spec fn sections_text(blocks: Seq<Seq<Seq<u8>>>, k: int) -> Seq<u8>
    decreases blocks.len() - k,
{
    if k < 0 || k >= blocks.len() {
        seq![]
    } else {
        ended(blocks[k]) + sections_text(blocks, k + 1)
    }
}

/// Lines that make up a section: a heading, and others that are none.
pub open spec fn is_section(lines: Seq<Seq<u8>>) -> bool {
    lines.len() > 0 && one_heading(lines) && has_prefix(lines[0], utf8("diff --git "))
}

proof fn lemma_sections_text(blocks: Seq<Seq<Seq<u8>>>, k: int)
    requires
        0 <= k <= blocks.len(),
        forall|i: int| 0 <= i < blocks.len() ==> is_section(#[trigger] blocks[i]),
    ensures
        k < blocks.len() ==> has_prefix(sections_text(blocks, k), utf8("diff --git ")),
        sections(sections_text(blocks, k)) == Seq::new(
            (blocks.len() - k) as nat,
            |i: int| ended(blocks[k + i]).drop_last(),
        ),
    decreases blocks.len() - k,
{
    let parts = Seq::new((blocks.len() - k) as nat, |i: int| ended(blocks[k + i]).drop_last());
    if k == blocks.len() {
        lemma_no_sections();
        assert(parts =~= Seq::<Seq<u8>>::empty());
    } else {
        assert(is_section(blocks[k]));
        lemma_sections_text(blocks, k + 1);
        lemma_section_step(blocks[k], sections_text(blocks, k + 1));
        assert(blocks[k][blocks[k].len() - 1].len() > 0);
        lemma_trimmed_ended(blocks[k]);
        let rest = Seq::new(
            (blocks.len() - k - 1) as nat,
            |i: int| ended(blocks[k + 1 + i]).drop_last(),
        );
        assert(parts =~= seq![ended(blocks[k]).drop_last()] + rest);
    }
}

/// A patch of many files comes apart into the sections that it was put
/// together from, in order, each with all its lines.
pub proof fn law_sections_come_apart(blocks: Seq<Seq<Seq<u8>>>)
    requires
        forall|i: int| 0 <= i < blocks.len() ==> is_section(#[trigger] blocks[i]),
    ensures
        sections(sections_text(blocks, 0)) == blocks.map_values(
            |lines: Seq<Seq<u8>>| ended(lines).drop_last(),
        ),
{
    lemma_sections_text(blocks, 0);
    assert(sections(sections_text(blocks, 0)) =~= blocks.map_values(
        |lines: Seq<Seq<u8>>| ended(lines).drop_last(),
    ));
}

// ---------------------------------------------------------------------------
// Identities
// ---------------------------------------------------------------------------

/// Two texts that go on behind a colon, and have none before it, are the same
/// before it and behind it.
proof fn lemma_same_parts(a: Seq<u8>, x: Seq<u8>, b: Seq<u8>, y: Seq<u8>)
    requires
        forall|k: int| 0 <= k < a.len() ==> (#[trigger] a[k]) != 0x3a,
        forall|k: int| 0 <= k < b.len() ==> (#[trigger] b[k]) != 0x3a,
        a + seq![0x3au8] + x == b + seq![0x3au8] + y,
    ensures
        a == b,
        x == y,
{
    let s = a + seq![0x3au8] + x;
    let t = b + seq![0x3au8] + y;
    assert(s[a.len() as int] == 0x3a);
    assert(t[b.len() as int] == 0x3a);
    if a.len() < b.len() {
        assert(t[a.len() as int] == b[a.len() as int]);
    } else if b.len() < a.len() {
        assert(s[b.len() as int] == a[b.len() as int]);
    }
    assert(s.take(a.len() as int) =~= a);
    assert(t.take(b.len() as int) =~= b);
    assert(s.skip(a.len() as int + 1) =~= x);
    assert(t.skip(b.len() as int + 1) =~= y);
}

/// A text of letters and digits.
spec fn wordy(s: Seq<char>) -> bool {
    forall|k: int|
        0 <= k < s.len() ==> '0' <= (#[trigger] s[k]) <= '9' || 'a' <= s[k] <= 'z'
}

proof fn lemma_wordy_bytes(s: Seq<char>)
    requires
        wordy(s),
    ensures
        vstd::utf8::is_ascii_chars(s),
        encode_utf8(s).len() == s.len(),
        forall|k: int| 0 <= k < encode_utf8(s).len() ==> (#[trigger] encode_utf8(s)[k]) != 0x3a,
{
    assert(vstd::utf8::is_ascii_chars(s));
    is_ascii_chars_encode_utf8(s);
    assert forall|k: int| 0 <= k < encode_utf8(s).len() implies (#[trigger] encode_utf8(s)[k])
        != 0x3a by {
        assert(s[k] as u8 == encode_utf8(s)[k]);
    }
}

proof fn lemma_wordy_same(a: Seq<char>, b: Seq<char>)
    requires
        wordy(a),
        wordy(b),
        encode_utf8(a) == encode_utf8(b),
    ensures
        a == b,
{
    vstd::utf8::encode_utf8_decode_utf8(a);
    vstd::utf8::encode_utf8_decode_utf8(b);
}

proof fn lemma_labels()
    ensures
        wordy("context"@),
        wordy("add"@),
        wordy("delete"@),
        wordy("meta"@),
        wordy("null"@),
        "null"@.len() > 0 && "null"@[0] == 'n',
        "context"@.len() == 7,
        "add"@.len() == 3,
        "delete"@.len() == 6,
        "meta"@.len() == 4,
{
    reveal_strlit("context");
    reveal_strlit("add");
    reveal_strlit("delete");
    reveal_strlit("meta");
    reveal_strlit("null");
}

proof fn lemma_optional_wordy(n: Option<u32>)
    ensures
        wordy(optional_text(n)),
{
    lemma_labels();
    if let Some(v) = n {
        crate::tui_style::lemma_decimal_digits(v as nat);
    }
}

proof fn lemma_optional_same(a: Option<u32>, b: Option<u32>)
    requires
        optional_text(a) == optional_text(b),
    ensures
        a == b,
{
    lemma_labels();
    match (a, b) {
        (Some(x), Some(y)) => {
            crate::tui_colour_laws::lemma_decimal_value(x as nat);
            crate::tui_colour_laws::lemma_decimal_value(y as nat);
        },
        (Some(x), None) => {
            crate::tui_style::lemma_decimal_digits(x as nat);
            assert('0' <= decimal(x as nat)[0] <= '9');
        },
        (None, Some(y)) => {
            crate::tui_style::lemma_decimal_digits(y as nat);
            assert('0' <= decimal(y as nat)[0] <= '9');
        },
        (None, None) => {},
    }
}

/// The bytes of an identity behind the path.
spec fn identity_tail(
    kind: DiffLineKind,
    old: Option<u32>,
    new: Option<u32>,
    content: Seq<u8>,
) -> Seq<u8> {
    let colon = seq![0x3au8];
    colon + (encode_utf8(kind.label_text()) + colon + (encode_utf8(optional_text(old)) + colon + (
    encode_utf8(optional_text(new)) + colon + content)))
}

proof fn lemma_identity_tail(
    path: Seq<u8>,
    kind: DiffLineKind,
    old: Option<u32>,
    new: Option<u32>,
    content: Seq<u8>,
)
    ensures
        line_identity(Some(path), kind, old, new, content) == path + identity_tail(
            kind,
            old,
            new,
            content,
        ),
{
    lemma_labels();
    lemma_optional_wordy(old);
    lemma_optional_wordy(new);
    let k = kind.label_text();
    let o = optional_text(old);
    let n = optional_text(new);
    lemma_wordy_bytes(k);
    lemma_wordy_bytes(o);
    lemma_wordy_bytes(n);
    reveal_strlit(":");
    let c = ":"@;
    assert(vstd::utf8::is_ascii_chars(c));
    is_ascii_chars_encode_utf8(c);
    assert(encode_utf8(c)[0] == c[0] as u8);
    assert(encode_utf8(c) =~= seq![0x3au8]);
    lemma_ascii_concat(c, k);
    lemma_ascii_concat(c + k, c);
    lemma_ascii_concat(c + k + c, o);
    lemma_ascii_concat(c + k + c + o, c);
    lemma_ascii_concat(c + k + c + o + c, n);
    lemma_ascii_concat(c + k + c + o + c + n, c);
    lemma_regroup(
        path,
        seq![0x3au8],
        encode_utf8(k),
        encode_utf8(o),
        encode_utf8(n),
        content,
    );
}

proof fn lemma_regroup(
    path: Seq<u8>,
    c: Seq<u8>,
    k: Seq<u8>,
    o: Seq<u8>,
    n: Seq<u8>,
    content: Seq<u8>,
)
    ensures
        path + (c + k + c + o + c + n + c) + content == path + (c + (k + c + (o + c + (n + c
            + content)))),
{
    let x = n + c + content;
    assert(c + k + c + o + c + n + c + content =~= c + k + c + o + c + x);
    let y = o + c + x;
    assert(c + k + c + o + c + x =~= c + k + c + y);
    assert(c + k + c + y =~= c + (k + c + y));
    assert(path + (c + k + c + o + c + n + c) + content =~= path + (c + k + c + o + c + n + c
        + content));
}

/// Lines of one file are told apart by what they are identified with: their
/// kind, their numbers and their content.
pub proof fn law_identity_tells_lines_apart(
    path: Seq<u8>,
    a: (DiffLineKind, Option<u32>, Option<u32>, Seq<u8>),
    b: (DiffLineKind, Option<u32>, Option<u32>, Seq<u8>),
)
    requires
        line_identity(Some(path), a.0, a.1, a.2, a.3) == line_identity(
            Some(path),
            b.0,
            b.1,
            b.2,
            b.3,
        ),
    ensures
        a == b,
{
    lemma_identity_tail(path, a.0, a.1, a.2, a.3);
    lemma_identity_tail(path, b.0, b.1, b.2, b.3);
    let s = identity_tail(a.0, a.1, a.2, a.3);
    let t = identity_tail(b.0, b.1, b.2, b.3);
    assert((path + s).skip(path.len() as int) =~= s);
    assert((path + t).skip(path.len() as int) =~= t);
    lemma_labels();
    lemma_optional_wordy(a.1);
    lemma_optional_wordy(a.2);
    lemma_optional_wordy(b.1);
    lemma_optional_wordy(b.2);
    lemma_wordy_bytes(a.0.label_text());
    lemma_wordy_bytes(b.0.label_text());
    lemma_wordy_bytes(optional_text(a.1));
    lemma_wordy_bytes(optional_text(a.2));
    lemma_wordy_bytes(optional_text(b.1));
    lemma_wordy_bytes(optional_text(b.2));
    let colon = seq![0x3au8];
    let s3 = encode_utf8(optional_text(a.2)) + colon + a.3;
    let t3 = encode_utf8(optional_text(b.2)) + colon + b.3;
    let s2 = encode_utf8(optional_text(a.1)) + colon + s3;
    let t2 = encode_utf8(optional_text(b.1)) + colon + t3;
    let s1 = encode_utf8(a.0.label_text()) + colon + s2;
    let t1 = encode_utf8(b.0.label_text()) + colon + t2;
    assert(s.skip(1) =~= s1);
    assert(t.skip(1) =~= t1);
    lemma_same_parts(encode_utf8(a.0.label_text()), s2, encode_utf8(b.0.label_text()), t2);
    lemma_same_parts(encode_utf8(optional_text(a.1)), s3, encode_utf8(optional_text(b.1)), t3);
    lemma_same_parts(encode_utf8(optional_text(a.2)), a.3, encode_utf8(optional_text(b.2)), b.3);
    lemma_wordy_same(a.0.label_text(), b.0.label_text());
    lemma_wordy_same(optional_text(a.1), optional_text(b.1));
    lemma_wordy_same(optional_text(a.2), optional_text(b.2));
    lemma_optional_same(a.1, b.1);
    lemma_optional_same(a.2, b.2);
}

} // verus!

//! Files that Git does not track yet are shown as files whose lines are all
//! added.
use vstd::prelude::*;
use vstd::utf8::{encode_utf8, is_ascii_chars, is_ascii_chars_encode_utf8};
use crate::diff::{
    diff_start, digits_value, empty_patch, header_number, header_numbers, header_range, is_digit,
    line_identity, short_id, lemma_find_seq_hit, parsed_file, parsed_sections, patch_lines,
    patch_step, section_end, sections, trimmed_cr, trimmed_lf, updated_paths, unsigned_part,
    DiffLineKind, DiffSource, FileStatus, HunkModel, LineModel, PatchModel, PathsModel,
};
use crate::git::{
    added_hunk, added_lines, binary_note, count_byte, line_total, patch_files, shown_as_binary,
    untracked_head, untracked_patch, untracked_patches, Untracked,
};
use crate::util::{
    decimal, digit, find_byte, find_seq, has_prefix, lemma_find_byte, lossy, utf8,
};

verus! {

// ---------------------------------------------------------------------------
// Lines
// ---------------------------------------------------------------------------

/// Lines, each with a line feed behind it.
pub open spec fn ended(lines: Seq<Seq<u8>>) -> Seq<u8>
    decreases lines.len(),
{
    if lines.len() == 0 {
        seq![]
    } else {
        lines[0] + seq![0x0au8] + ended(lines.skip(1))
    }
}

/// A line holds no line feed.
pub open spec fn is_line(line: Seq<u8>) -> bool {
    forall|k: int| 0 <= k < line.len() ==> line[k] != 0x0a
}

pub open spec fn are_lines(lines: Seq<Seq<u8>>) -> bool {
    forall|k: int| 0 <= k < lines.len() ==> is_line(#[trigger] lines[k])
}

/// The steps that lines of a patch make.
pub open spec fn steps(lines: Seq<Seq<u8>>, m: PatchModel) -> Option<PatchModel>
    decreases lines.len(),
{
    if lines.len() == 0 {
        Some(m)
    } else {
        match patch_step(m, trimmed_cr(lines[0])) {
            Some(next) => steps(lines.skip(1), next),
            None => None,
        }
    }
}

pub proof fn lemma_ended_line(line: Seq<u8>, rest: Seq<u8>)
    requires
        is_line(line),
    ensures
        find_byte(line + seq![0x0au8] + rest, 0x0a) == line.len(),
        find_byte(line, 0x0a) == line.len(),
{
    let b = line + seq![0x0au8] + rest;
    lemma_find_byte(b, 0x0a);
    lemma_find_byte(line, 0x0a);
    let n = find_byte(b, 0x0a) as int;
    assert(b[line.len() as int] == 0x0a);
    if n < line.len() {
        assert(b[n] == line[n]);
    }
}

/// A patch of whole lines is read line by line.
pub proof fn lemma_steps(lines: Seq<Seq<u8>>, m: PatchModel)
    requires
        lines.len() > 0,
        are_lines(lines),
    ensures
        ended(lines).len() > 0,
        patch_lines(ended(lines).drop_last(), m) == steps(lines, m),
    decreases lines.len(),
{
    let rest = lines.skip(1);
    let b = ended(lines).drop_last();
    let line = lines[0];
    assert(is_line(line));
    if rest.len() == 0 {
        assert(ended(rest) =~= seq![]);
        assert(b =~= line);
        lemma_ended_line(line, seq![]);
        assert(b.take(line.len() as int) =~= line);
        if let Some(next) = patch_step(m, trimmed_cr(line)) {
            assert(steps(rest, next) == Some(next));
        }
    } else {
        assert(are_lines(rest)) by {
            assert forall|k: int| 0 <= k < rest.len() implies is_line(#[trigger] rest[k]) by {
                assert(rest[k] == lines[k + 1]);
            }
        }
        if let Some(next) = patch_step(m, trimmed_cr(line)) {
            lemma_steps(rest, next);
        }
        lemma_steps(rest, m);
        let tail = ended(rest).drop_last();
        assert(b =~= line + seq![0x0au8] + tail);
        lemma_ended_line(line, tail);
        assert(b.take(line.len() as int) =~= line);
        assert(b.skip(line.len() as int + 1) =~= tail);
    }
}

pub proof fn lemma_ended_concat(a: Seq<Seq<u8>>, b: Seq<Seq<u8>>)
    ensures
        ended(a + b) == ended(a) + ended(b),
    decreases a.len(),
{
    if a.len() == 0 {
        assert(a + b =~= b);
        assert(ended(a) + ended(b) =~= ended(b));
    } else {
        lemma_ended_concat(a.skip(1), b);
        assert((a + b).skip(1) =~= a.skip(1) + b);
        assert((a + b)[0] == a[0]);
        assert(ended(a + b) =~= ended(a) + ended(b));
    }
}

pub proof fn lemma_steps_concat(a: Seq<Seq<u8>>, b: Seq<Seq<u8>>, m: PatchModel)
    ensures
        steps(a + b, m) == (match steps(a, m) {
            Some(n) => steps(b, n),
            None => None,
        }),
    decreases a.len(),
{
    if a.len() == 0 {
        assert(a + b =~= b);
    } else {
        assert((a + b).skip(1) =~= a.skip(1) + b);
        if let Some(n) = patch_step(m, trimmed_cr(a[0])) {
            lemma_steps_concat(a.skip(1), b, n);
        }
    }
}

// ---------------------------------------------------------------------------
// The lines of a file
// ---------------------------------------------------------------------------

/// The lines of a file from an offset on, without their line ends.
pub open spec fn source_lines(content: Seq<u8>, i: int) -> Seq<Seq<u8>>
    decreases content.len() + 1 - i,
{
    if i < 0 || i >= content.len() {
        seq![]
    } else {
        let end = i + find_byte(content.skip(i), 0x0a);
        if end > content.len() {
            seq![]
        } else {
            seq![trimmed_cr(content.subrange(i, end))] + source_lines(content, end + 1)
        }
    }
}

/// Lines as a patch adds them.
pub open spec fn plus_lines(lines: Seq<Seq<u8>>) -> Seq<Seq<u8>> {
    lines.map_values(|l: Seq<u8>| seq![0x2bu8] + l)
}

pub proof fn lemma_trimmed_cr(s: Seq<u8>)
    ensures
        trimmed_cr(s).len() <= s.len(),
        forall|k: int| 0 <= k < trimmed_cr(s).len() ==> #[trigger] trimmed_cr(s)[k] == s[k],
        trimmed_cr(s).len() > 0 ==> trimmed_cr(s).last() != 13,
    decreases s.len(),
{
    if s.len() > 0 && s.last() == 13 {
        let t = s.drop_last();
        lemma_trimmed_cr(t);
        assert forall|k: int| 0 <= k < trimmed_cr(s).len() implies trimmed_cr(s)[k] == s[k] by {
            assert(trimmed_cr(t)[k] == t[k]);
        }
    }
}

pub proof fn lemma_added_lines(content: Seq<u8>, i: int)
    requires
        0 <= i,
    ensures
        added_lines(content, i) == ended(plus_lines(source_lines(content, i))),
        are_lines(plus_lines(source_lines(content, i))),
    decreases content.len() + 1 - i,
{
    if i < content.len() {
        let end = i + find_byte(content.skip(i), 0x0a);
        lemma_find_byte(content.skip(i), 0x0a);
        assert(content.skip(i).len() == content.len() - i);
        lemma_added_lines(content, end + 1);
        let raw = content.subrange(i, end);
        let line = trimmed_cr(raw);
        let rest = source_lines(content, end + 1);
        let all = source_lines(content, i);
        lemma_trimmed_cr(raw);
        assert forall|k: int| 0 <= k < line.len() implies line[k] != 0x0a by {
            assert(line[k] == raw[k] && raw[k] == content.skip(i)[k]);
        }
        assert(all =~= seq![line] + rest);
        let plus = plus_lines(all);
        assert(plus.skip(1) =~= plus_lines(rest));
        assert(plus[0] == seq![0x2bu8] + line);
        assert forall|k: int| 0 <= k < plus.len() implies is_line(#[trigger] plus[k]) by {
            if k > 0 {
                assert(plus[k] == plus_lines(rest)[k - 1]);
            }
        }
    } else {
        assert(plus_lines(source_lines(content, i)) =~= seq![]);
    }
}

pub proof fn lemma_count_concat(a: Seq<u8>, b: Seq<u8>, x: u8)
    ensures
        count_byte(a + b, x) == count_byte(a, x) + count_byte(b, x),
    decreases b.len(),
{
    if b.len() == 0 {
        assert(a + b =~= a);
    } else {
        lemma_count_concat(a, b.drop_last(), x);
        assert((a + b).drop_last() =~= a + b.drop_last());
    }
}

pub proof fn lemma_count_none(a: Seq<u8>, x: u8)
    requires
        forall|k: int| 0 <= k < a.len() ==> a[k] != x,
    ensures
        count_byte(a, x) == 0,
    decreases a.len(),
{
    if a.len() > 0 {
        lemma_count_none(a.drop_last(), x);
    }
}

/// A file has as many lines as it is said to have.
pub proof fn lemma_source_lines_total(content: Seq<u8>, i: int)
    requires
        0 <= i,
    ensures
        i <= content.len() ==> source_lines(content, i).len() == line_total(content.skip(i)),
        i > content.len() ==> source_lines(content, i).len() == 0,
    decreases content.len() + 1 - i,
{
    if i < content.len() {
        let b = content.skip(i);
        lemma_find_byte(b, 0x0a);
        let n = find_byte(b, 0x0a) as int;
        let end = i + n;
        lemma_source_lines_total(content, end + 1);
        let head = b.take(n);
        lemma_count_none(head, 0x0a);
        if n < b.len() {
            let tail = content.skip(end + 1);
            assert(b =~= head + seq![0x0au8] + tail);
            lemma_count_concat(head + seq![0x0au8], tail, 0x0a);
            assert((head + seq![0x0au8]).drop_last() =~= head);
            if tail.len() == 0 {
                assert(b.last() == 0x0a);
                assert(count_byte(tail, 0x0a) == 0);
            } else {
                assert(b.last() == tail.last());
            }
        } else {
            assert(head =~= b);
        }
    } else if i == content.len() {
        assert(content.skip(i).len() == 0);
    }
}

// ---------------------------------------------------------------------------
// The head of a patch
// ---------------------------------------------------------------------------

/// What a line begins with where it is one that a patch gives a meaning to.
pub proof fn lemma_meanings(line: Seq<u8>)
    ensures
        has_prefix(line, utf8("diff --git ")) ==> line[0] == 0x64,
        has_prefix(line, utf8("rename from ")) ==> line[0] == 0x72,
        has_prefix(line, utf8("rename to ")) ==> line[0] == 0x72,
        has_prefix(line, utf8("copy from ")) ==> line[0] == 0x63,
        has_prefix(line, utf8("copy to ")) ==> line[0] == 0x63,
        has_prefix(line, utf8("+++ ")) ==> line[0] == 0x2b,
        has_prefix(line, utf8("--- ")) ==> line[0] == 0x2d,
        has_prefix(line, utf8("new file mode")) ==> line[0] == 0x6e,
        has_prefix(line, utf8("deleted file mode")) ==> line[0] == 0x64,
        has_prefix(line, utf8("Binary files ")) ==> line[0] == 0x42,
        has_prefix(line, utf8("GIT binary patch")) ==> line[0] == 0x47,
        has_prefix(line, utf8("@@ ")) ==> line[0] == 0x40,
{
    reveal_strlit("diff --git ");
    reveal_strlit("rename from ");
    reveal_strlit("rename to ");
    reveal_strlit("copy from ");
    reveal_strlit("copy to ");
    reveal_strlit("+++ ");
    reveal_strlit("--- ");
    reveal_strlit("new file mode");
    reveal_strlit("deleted file mode");
    reveal_strlit("Binary files ");
    reveal_strlit("GIT binary patch");
    reveal_strlit("@@ ");
    lemma_first_byte(line, "diff --git "@);
    lemma_first_byte(line, "rename from "@);
    lemma_first_byte(line, "rename to "@);
    lemma_first_byte(line, "copy from "@);
    lemma_first_byte(line, "copy to "@);
    lemma_first_byte(line, "+++ "@);
    lemma_first_byte(line, "--- "@);
    lemma_first_byte(line, "new file mode"@);
    lemma_first_byte(line, "deleted file mode"@);
    lemma_first_byte(line, "Binary files "@);
    lemma_first_byte(line, "GIT binary patch"@);
    lemma_first_byte(line, "@@ "@);
}

pub proof fn lemma_first_byte(line: Seq<u8>, p: Seq<char>)
    requires
        is_ascii_chars(p),
        p.len() > 0,
    ensures
        has_prefix(line, encode_utf8(p)) ==> line[0] == p[0] as u8,
{
    is_ascii_chars_encode_utf8(p);
    let e = encode_utf8(p);
    if has_prefix(line, e) {
        assert(line.take(e.len() as int)[0] == e[0]);
    }
}

// ---------------------------------------------------------------------------
// The lines of a patch that adds a file
// ---------------------------------------------------------------------------

pub open spec fn heading_line(path: Seq<u8>) -> Seq<u8> {
    utf8("diff --git a/") + path + utf8(" b/") + path
}

pub open spec fn path_line(path: Seq<u8>) -> Seq<u8> {
    utf8("+++ b/") + path
}

pub open spec fn binary_line(path: Seq<u8>) -> Seq<u8> {
    utf8("Binary files /dev/null and b/") + path + utf8(" differ")
}

pub open spec fn count_line(n: nat) -> Seq<u8> {
    utf8("@@ -0,0 +1,") + encode_utf8(decimal(n)) + utf8(" @@")
}

pub proof fn lemma_ascii_concat(a: Seq<char>, b: Seq<char>)
    requires
        is_ascii_chars(a),
        is_ascii_chars(b),
    ensures
        encode_utf8(a + b) == encode_utf8(a) + encode_utf8(b),
{
    assert(is_ascii_chars(a + b));
    is_ascii_chars_encode_utf8(a);
    is_ascii_chars_encode_utf8(b);
    is_ascii_chars_encode_utf8(a + b);
    let e = encode_utf8(a + b);
    let f = encode_utf8(a) + encode_utf8(b);
    assert forall|i: int| 0 <= i < e.len() implies e[i] == f[i] by {
        assert((a + b)[i] as u8 == e[i]);
        if i < a.len() {
            assert(a[i] as u8 == encode_utf8(a)[i]);
        } else {
            assert(b[i - a.len()] as u8 == encode_utf8(b)[i - a.len()]);
        }
    }
    assert(e =~= f);
}

pub proof fn lemma_line_feed()
    ensures
        utf8("\n") == seq![0x0au8],
        is_ascii_chars("\n"@),
{
    reveal_strlit("\n");
    is_ascii_chars_encode_utf8("\n"@);
    assert("\n"@[0] as u8 == encode_utf8("\n"@)[0]);
    assert(utf8("\n") =~= seq![0x0au8]);
}

/// The fixed texts of a patch, line by line.
pub proof fn lemma_fixed_texts()
    ensures
        utf8("\nnew file mode 100644\nindex 0000000..0000000\n") == seq![0x0au8] + utf8(
            "new file mode 100644",
        ) + seq![0x0au8] + utf8("index 0000000..0000000") + seq![0x0au8],
        utf8("--- /dev/null\n+++ b/") == utf8("--- /dev/null") + seq![0x0au8] + utf8("+++ b/"),
        utf8(" differ\n") == utf8(" differ") + seq![0x0au8],
        utf8(" @@\n") == utf8(" @@") + seq![0x0au8],
{
    lemma_line_feed();
    reveal_strlit("\n");
    let lf = "\n"@;
    let a = "new file mode 100644"@;
    let b = "index 0000000..0000000"@;
    reveal_strlit("new file mode 100644");
    reveal_strlit("index 0000000..0000000");
    reveal_strlit("\nnew file mode 100644\nindex 0000000..0000000\n");
    assert("\nnew file mode 100644\nindex 0000000..0000000\n"@ =~= lf + a + lf + b + lf);
    lemma_ascii_concat(lf, a);
    lemma_ascii_concat(lf + a, lf);
    lemma_ascii_concat(lf + a + lf, b);
    lemma_ascii_concat(lf + a + lf + b, lf);
    let c = "--- /dev/null"@;
    let d = "+++ b/"@;
    reveal_strlit("--- /dev/null");
    reveal_strlit("+++ b/");
    reveal_strlit("--- /dev/null\n+++ b/");
    assert("--- /dev/null\n+++ b/"@ =~= c + lf + d);
    lemma_ascii_concat(c, lf);
    lemma_ascii_concat(c + lf, d);
    reveal_strlit(" differ");
    reveal_strlit(" differ\n");
    assert(" differ\n"@ =~= " differ"@ + lf);
    lemma_ascii_concat(" differ"@, lf);
    reveal_strlit(" @@");
    reveal_strlit(" @@\n");
    assert(" @@\n"@ =~= " @@"@ + lf);
    lemma_ascii_concat(" @@"@, lf);
}

pub proof fn lemma_ended_one(line: Seq<u8>)
    ensures
        ended(seq![line]) == line + seq![0x0au8],
{
    assert(seq![line].skip(1) =~= Seq::<Seq<u8>>::empty());
    assert(ended(Seq::<Seq<u8>>::empty()) =~= Seq::<u8>::empty());
    assert(ended(seq![line]) =~= line + seq![0x0au8]);
}

/// The first lines of the patch.
pub open spec fn head_lines(path: Seq<u8>) -> Seq<Seq<u8>> {
    seq![heading_line(path), utf8("new file mode 100644"), utf8("index 0000000..0000000")]
}

pub proof fn lemma_head_lines(path: Seq<u8>)
    ensures
        untracked_head(path) == ended(head_lines(path)),
{
    lemma_fixed_texts();
    let h = heading_line(path);
    let a = utf8("new file mode 100644");
    let b = utf8("index 0000000..0000000");
    lemma_ended_one(h);
    lemma_ended_one(a);
    lemma_ended_one(b);
    lemma_ended_concat(seq![h], seq![a]);
    lemma_ended_concat(seq![h] + seq![a], seq![b]);
    assert(head_lines(path) =~= seq![h] + seq![a] + seq![b]);
    assert(untracked_head(path) =~= ended(head_lines(path)));
}

/// The lines that name the two sides.
pub open spec fn side_lines(path: Seq<u8>) -> Seq<Seq<u8>> {
    seq![utf8("--- /dev/null"), path_line(path)]
}

pub proof fn lemma_side_lines(path: Seq<u8>)
    ensures
        utf8("--- /dev/null\n+++ b/") + path + seq![0x0au8] == ended(side_lines(path)),
{
    lemma_fixed_texts();
    let c = utf8("--- /dev/null");
    let d = path_line(path);
    lemma_ended_one(c);
    lemma_ended_one(d);
    lemma_ended_concat(seq![c], seq![d]);
    assert(side_lines(path) =~= seq![c] + seq![d]);
    assert(utf8("--- /dev/null\n+++ b/") + path + seq![0x0au8] =~= ended(side_lines(path)));
}

/// The lines of the hunk.
pub open spec fn added_hunk_lines(content: Seq<u8>) -> Seq<Seq<u8>> {
    if line_total(content) == 0 {
        seq![]
    } else {
        seq![count_line(line_total(content))] + plus_lines(source_lines(content, 0))
    }
}

pub proof fn lemma_hunk_lines(content: Seq<u8>)
    ensures
        added_hunk(content) == ended(added_hunk_lines(content)),
{
    lemma_fixed_texts();
    if line_total(content) > 0 {
        let e = count_line(line_total(content));
        lemma_ended_one(e);
        lemma_added_lines(content, 0);
        lemma_ended_concat(seq![e], plus_lines(source_lines(content, 0)));
    }
    assert(added_hunk(content) =~= ended(added_hunk_lines(content)));
}

/// The lines of a patch that adds a file.
pub open spec fn untracked_lines(path: Seq<u8>, content: Seq<u8>) -> Seq<Seq<u8>> {
    head_lines(path) + (if shown_as_binary(content) {
        seq![binary_line(path)]
    } else {
        side_lines(path) + added_hunk_lines(content)
    })
}

/// The patch is made of its lines.
pub proof fn lemma_untracked_lines(path: Seq<u8>, content: Seq<u8>)
    ensures
        untracked_patch(path, content) == ended(untracked_lines(path, content)),
{
    lemma_head_lines(path);
    if shown_as_binary(content) {
        let n = binary_line(path);
        lemma_ended_one(n);
        assert(binary_note(path) =~= ended(seq![n])) by {
            lemma_fixed_texts();
        }
        lemma_ended_concat(head_lines(path), seq![n]);
    } else {
        lemma_side_lines(path);
        lemma_hunk_lines(content);
        lemma_ended_concat(side_lines(path), added_hunk_lines(content));
        lemma_ended_concat(head_lines(path), side_lines(path) + added_hunk_lines(content));
        assert(untracked_patch(path, content) =~= ended(head_lines(path)) + (ended(
            side_lines(path),
        ) + ended(added_hunk_lines(content))));
    }
}

// ---------------------------------------------------------------------------
// The header of the hunk
// ---------------------------------------------------------------------------

/// The digits of a number say the number.
pub proof fn lemma_decimal_bytes(n: nat)
    ensures
        is_ascii_chars(decimal(n)),
        encode_utf8(decimal(n)).len() == decimal(n).len() > 0,
        forall|k: int|
            0 <= k < encode_utf8(decimal(n)).len() ==> is_digit(
                #[trigger] encode_utf8(decimal(n))[k],
            ),
        digits_value(encode_utf8(decimal(n))) == n,
    decreases n,
{
    let d = decimal(n);
    let e = encode_utf8(d);
    if n >= 10 {
        lemma_decimal_bytes(n / 10);
        let f = encode_utf8(decimal(n / 10));
        let last = seq![digit(n % 10)];
        assert(is_ascii_chars(last));
        lemma_ascii_concat(decimal(n / 10), last);
        is_ascii_chars_encode_utf8(last);
        assert(d =~= decimal(n / 10) + last);
        assert(is_ascii_chars(d));
        assert(last[0] as u8 == encode_utf8(last)[0]);
        assert(e.drop_last() =~= f);
        assert(e.last() == 0x30 + n % 10);
        assert forall|k: int| 0 <= k < e.len() implies is_digit(#[trigger] e[k]) by {
            if k < f.len() {
                assert(e[k] == f[k]);
            }
        }
    } else {
        is_ascii_chars_encode_utf8(d);
        assert(d[0] as u8 == e[0]);
        assert(e.drop_last() =~= Seq::<u8>::empty());
        assert(digits_value(e.drop_last()) == 0);
    }
}

pub proof fn lemma_find_at(b: Seq<u8>, x: u8, i: int)
    requires
        0 <= i < b.len(),
        b[i] == x,
        forall|k: int| 0 <= k < i ==> b[k] != x,
    ensures
        find_byte(b, x) == i,
{
    lemma_find_byte(b, x);
    let n = find_byte(b, x) as int;
    if n < i {
        assert(b[n] != x);
    }
}

pub proof fn lemma_plain_number(d: Seq<u8>)
    requires
        d.len() > 0,
        forall|k: int| 0 <= k < d.len() ==> is_digit(#[trigger] d[k]),
        digits_value(d) <= u32::MAX,
    ensures
        header_number(d) == Some(digits_value(d) as u32),
{
    assert(is_digit(d[0]));
    assert(is_digit(d[d.len() - 1]));
    assert(unsigned_part(d) == d);
}

pub proof fn lemma_one_digit(d: u8)
    requires
        is_digit(d),
    ensures
        header_number(seq![d]) == Some((d - 0x30) as u32),
{
    let b = seq![d];
    assert(b.drop_last() =~= Seq::<u8>::empty());
    assert(digits_value(b.drop_last()) == 0);
    assert(digits_value(b) == (d - 0x30) as nat);
    lemma_plain_number(b);
}

pub proof fn lemma_header_bytes()
    ensures
        utf8("@@ -0,0 +1,") == seq![
            0x40u8,
            0x40u8,
            0x20u8,
            0x2du8,
            0x30u8,
            0x2cu8,
            0x30u8,
            0x20u8,
            0x2bu8,
            0x31u8,
            0x2cu8,
        ],
        utf8(" @@") == seq![0x20u8, 0x40u8, 0x40u8],
        utf8("@@ ") == seq![0x40u8, 0x40u8, 0x20u8],
{
    reveal_strlit("@@ -0,0 +1,");
    reveal_strlit(" @@");
    reveal_strlit("@@ ");
    is_ascii_chars_encode_utf8("@@ -0,0 +1,"@);
    is_ascii_chars_encode_utf8(" @@"@);
    is_ascii_chars_encode_utf8("@@ "@);
    let a = utf8("@@ -0,0 +1,");
    let t = "@@ -0,0 +1,"@;
    assert(a[0] == t[0] as u8 && a[1] == t[1] as u8 && a[2] == t[2] as u8 && a[3] == t[3] as u8
        && a[4] == t[4] as u8 && a[5] == t[5] as u8 && a[6] == t[6] as u8 && a[7] == t[7] as u8
        && a[8] == t[8] as u8 && a[9] == t[9] as u8 && a[10] == t[10] as u8);
    assert(a =~= seq![
        0x40u8,
        0x40u8,
        0x20u8,
        0x2du8,
        0x30u8,
        0x2cu8,
        0x30u8,
        0x20u8,
        0x2bu8,
        0x31u8,
        0x2cu8,
    ]);
    let z = utf8(" @@");
    let u = " @@"@;
    assert(z[0] == u[0] as u8 && z[1] == u[1] as u8 && z[2] == u[2] as u8);
    assert(z =~= seq![0x20u8, 0x40u8, 0x40u8]);
    let p = utf8("@@ ");
    let v = "@@ "@;
    assert(p[0] == v[0] as u8 && p[1] == v[1] as u8 && p[2] == v[2] as u8);
    assert(p =~= seq![0x40u8, 0x40u8, 0x20u8]);
}

pub proof fn lemma_count_range(q: Seq<u8>, d: u8, e: Seq<u8>)
    requires
        is_digit(d),
        q == seq![d, 0x2cu8] + e,
        e.len() > 0,
        forall|k: int| 0 <= k < e.len() ==> is_digit(#[trigger] e[k]),
        digits_value(e) <= u32::MAX,
    ensures
        header_range(q) == Some(((d - 0x30) as u32, digits_value(e) as u32)),
{
    lemma_find_at(q, 0x2c, 1);
    assert(q.take(1) =~= seq![d]);
    assert(q.skip(2) =~= e);
    lemma_one_digit(d);
    lemma_plain_number(e);
}

/// The header of a hunk that adds some lines.
pub proof fn lemma_count_line(n: nat)
    requires
        n <= u32::MAX,
    ensures
        is_line(count_line(n)),
        count_line(n).last() == 0x40,
        has_prefix(count_line(n), utf8("@@ ")),
        header_numbers(count_line(n)) == Some((0u32, 0u32, 1u32, n as u32)),
{
    let e = encode_utf8(decimal(n));
    lemma_decimal_bytes(n);
    lemma_header_bytes();
    let c = count_line(n);
    let w = e.len() as int;
    assert(c.len() == 14 + w);
    assert(c.take(3) =~= utf8("@@ "));
    assert forall|k: int| 0 <= k < w implies c[k + 11] == e[k] by {}
    assert forall|k: int| 0 <= k < c.len() implies c[k] != 0x0a by {
        if 11 <= k < 11 + w {
            assert(c[(k - 11) + 11] == e[k - 11]);
            assert(is_digit(e[k - 11]));
        }
    }
    let first = c.skip(3);
    lemma_find_at(first, 0x20, 4);
    let second = c.skip(8);
    assert forall|k: int| 0 <= k < 3 + w implies second[k] != 0x20 by {
        if k >= 3 {
            assert(c[(k - 3) + 11] == e[k - 3]);
            assert(is_digit(e[k - 3]));
        }
    }
    assert(second[3 + w] == 0x20);
    lemma_find_at(second, 0x20, 3 + w);
    let old = c.subrange(3, 7);
    let new = c.subrange(8, 11 + w);
    let zero = seq![0x30u8];
    assert(old.skip(1) =~= seq![0x30u8, 0x2cu8] + zero);
    assert(digits_value(zero.drop_last()) == 0);
    assert(digits_value(zero) == 0);
    lemma_count_range(old.skip(1), 0x30, zero);
    assert(new.skip(1) =~= seq![0x31u8, 0x2cu8] + e);
    lemma_count_range(new.skip(1), 0x31, e);
}

// ---------------------------------------------------------------------------
// Reading the head
// ---------------------------------------------------------------------------

/// A path that a line of a patch can hold.
pub open spec fn is_plain_path(path: Seq<u8>) -> bool {
    is_line(path) && (path.len() > 0 ==> path.last() != 13)
}

/// The paths that a heading names.
pub open spec fn heading_paths(path: Seq<u8>) -> PathsModel {
    updated_paths(empty_patch().paths, heading_line(path), false)
}

/// Text with no line end in it is a line.
pub proof fn lemma_text_line(s: Seq<char>)
    requires
        is_ascii_chars(s),
        s.len() > 0,
        forall|k: int| 0 <= k < s.len() ==> (#[trigger] s[k]) != '\n' && s[k] != '\r',
    ensures
        is_line(encode_utf8(s)),
        trimmed_cr(encode_utf8(s)) == encode_utf8(s),
        encode_utf8(s).len() == s.len(),
        encode_utf8(s)[0] == s[0] as u8,
        encode_utf8(s).last() != 13,
{
    is_ascii_chars_encode_utf8(s);
    let e = encode_utf8(s);
    assert forall|k: int| 0 <= k < e.len() implies e[k] != 0x0a && e[k] != 13 by {
        assert(s[k] as u8 == e[k]);
    }
    assert(s[0] as u8 == e[0]);
}

pub proof fn lemma_ascii_prefix(a: Seq<char>, b: Seq<char>)
    requires
        is_ascii_chars(a),
        is_ascii_chars(b),
        has_prefix(a, b),
    ensures
        has_prefix(encode_utf8(a), encode_utf8(b)),
        encode_utf8(a).skip(encode_utf8(b).len() as int) == encode_utf8(a.skip(b.len() as int)),
{
    let rest = a.skip(b.len() as int);
    assert(a =~= b + rest);
    lemma_ascii_concat(b, rest);
    let e = encode_utf8(a);
    let f = encode_utf8(b);
    assert(e.take(f.len() as int) =~= f);
    assert(e.skip(f.len() as int) =~= encode_utf8(rest));
}

pub proof fn lemma_heading(path: Seq<u8>)
    requires
        is_plain_path(path),
    ensures
        is_line(heading_line(path)),
        has_prefix(heading_line(path), utf8("diff --git ")),
        patch_step(empty_patch(), trimmed_cr(heading_line(path))) == Some(
            PatchModel { paths: heading_paths(path), ..empty_patch() },
        ),
{
    let a = utf8("diff --git a/");
    let b = utf8(" b/");
    reveal_strlit("diff --git a/");
    reveal_strlit("diff --git ");
    reveal_strlit(" b/");
    lemma_text_line("diff --git a/"@);
    lemma_text_line(" b/"@);
    assert("diff --git a/"@.take(11) =~= "diff --git "@);
    lemma_ascii_prefix("diff --git a/"@, "diff --git "@);
    is_ascii_chars_encode_utf8("diff --git "@);
    let h = heading_line(path);
    assert(h =~= a + path + b + path);
    assert(h.take(11) =~= a.take(11));
    assert forall|k: int| 0 <= k < h.len() implies h[k] != 0x0a by {
        if k < a.len() {
            assert(h[k] == a[k]);
        } else if k < a.len() + path.len() {
            assert(h[k] == path[k - a.len()]);
        } else if k < a.len() + path.len() + b.len() {
            assert(h[k] == b[k - a.len() - path.len()]);
        } else {
            assert(h[k] == path[k - a.len() - path.len() - b.len()]);
        }
    }
    if path.len() == 0 {
        assert(h.last() == b.last());
    } else {
        assert(h.last() == path.last());
    }
    assert(trimmed_cr(h) == h);
    lemma_meanings(h);
    reveal(patch_step);
}

/// The lines of the head that hold no path.
pub proof fn lemma_mode_and_index(m: PatchModel)
    requires
        m.hunks.len() == 0,
    ensures
        is_line(utf8("new file mode 100644")),
        is_line(utf8("index 0000000..0000000")),
        is_line(utf8("--- /dev/null")),
        utf8("new file mode 100644").len() > 0,
        utf8("new file mode 100644")[0] == 0x6e,
        utf8("index 0000000..0000000").len() > 0,
        utf8("index 0000000..0000000")[0] == 0x69,
        utf8("--- /dev/null").len() > 0,
        utf8("--- /dev/null")[0] == 0x2d,
        patch_step(m, trimmed_cr(utf8("new file mode 100644"))) == Some(
            PatchModel { status: FileStatus::Added, ..m },
        ),
        patch_step(m, trimmed_cr(utf8("index 0000000..0000000"))) == Some(m),
        patch_step(m, trimmed_cr(utf8("--- /dev/null"))) == Some(m),
{
    reveal_strlit("new file mode 100644");
    reveal_strlit("new file mode");
    reveal_strlit("index 0000000..0000000");
    reveal_strlit("--- /dev/null");
    reveal_strlit("--- ");
    reveal_strlit("/dev/null");
    lemma_text_line("new file mode 100644"@);
    lemma_text_line("index 0000000..0000000"@);
    lemma_text_line("--- /dev/null"@);
    assert("new file mode 100644"@.take(13) =~= "new file mode"@);
    lemma_ascii_prefix("new file mode 100644"@, "new file mode"@);
    assert("--- /dev/null"@.take(4) =~= "--- "@);
    assert("--- /dev/null"@.skip(4) =~= "/dev/null"@);
    lemma_ascii_prefix("--- /dev/null"@, "--- "@);
    lemma_meanings(utf8("new file mode 100644"));
    lemma_meanings(utf8("index 0000000..0000000"));
    lemma_meanings(utf8("--- /dev/null"));
    reveal(patch_step);
}

/// The line that names the new path.
pub proof fn lemma_path_line(m: PatchModel, path: Seq<u8>)
    requires
        m.hunks.len() == 0,
        is_plain_path(path),
    ensures
        is_line(path_line(path)),
        path_line(path).len() > 0,
        path_line(path)[0] == 0x2b,
        path_line(path).last() != 0x0a,
        patch_step(m, trimmed_cr(path_line(path))) == Some(
            PatchModel { paths: PathsModel { path: Some(path), ..m.paths }, ..m },
        ),
{
    let a = utf8("+++ b/");
    let l = path_line(path);
    reveal_strlit("+++ b/");
    reveal_strlit("+++ ");
    reveal_strlit("/dev/null");
    lemma_text_line("+++ b/"@);
    is_ascii_chars_encode_utf8("+++ "@);
    is_ascii_chars_encode_utf8("+++ b/"@);
    is_ascii_chars_encode_utf8("/dev/null"@);
    assert("+++ b/"@.take(4) =~= "+++ "@);
    lemma_ascii_prefix("+++ b/"@, "+++ "@);
    assert(l =~= a + path);
    assert(l.take(4) =~= a.take(4));
    assert forall|k: int| 0 <= k < l.len() implies l[k] != 0x0a by {
        if k < a.len() {
            assert(l[k] == a[k]);
        } else {
            assert(l[k] == path[k - a.len()]);
        }
    }
    if path.len() == 0 {
        assert(l.last() == a.last());
    } else {
        assert(l.last() == path.last());
    }
    assert(trimmed_cr(l) == l);
    let rest = l.skip(4);
    assert("+++ b/"@[4] as u8 == a[4] && "+++ b/"@[5] as u8 == a[5]);
    assert(rest[0] == 0x62 && rest[1] == 0x2f);
    assert("/dev/null"@[0] as u8 == utf8("/dev/null")[0]);
    assert(rest != utf8("/dev/null"));
    assert(rest.skip(2) =~= path);
    lemma_meanings(l);
    reveal(patch_step);
}

/// The line that stands for what is not shown as text.
pub proof fn lemma_binary_line(m: PatchModel, path: Seq<u8>)
    requires
        m.hunks.len() == 0,
        is_plain_path(path),
    ensures
        is_line(binary_line(path)),
        binary_line(path).len() > 0,
        binary_line(path)[0] == 0x42,
        patch_step(m, trimmed_cr(binary_line(path))) == Some(
            PatchModel { status: FileStatus::Binary, is_binary: true, ..m },
        ),
{
    let a = utf8("Binary files /dev/null and b/");
    let b = utf8(" differ");
    let l = binary_line(path);
    reveal_strlit("Binary files /dev/null and b/");
    reveal_strlit("Binary files ");
    reveal_strlit(" differ");
    lemma_text_line("Binary files /dev/null and b/"@);
    lemma_text_line(" differ"@);
    assert("Binary files /dev/null and b/"@.take(13) =~= "Binary files "@);
    lemma_ascii_prefix("Binary files /dev/null and b/"@, "Binary files "@);
    is_ascii_chars_encode_utf8("Binary files "@);
    assert(l =~= a + path + b);
    assert(l.take(13) =~= a.take(13));
    assert forall|k: int| 0 <= k < l.len() implies l[k] != 0x0a by {
        if k < a.len() {
            assert(l[k] == a[k]);
        } else if k < a.len() + path.len() {
            assert(l[k] == path[k - a.len()]);
        } else {
            assert(l[k] == b[k - a.len() - path.len()]);
        }
    }
    assert(l.last() == b.last());
    assert(trimmed_cr(l) == l);
    lemma_meanings(l);
    reveal(patch_step);
}

// ---------------------------------------------------------------------------
// Reading the hunk
// ---------------------------------------------------------------------------

/// A line that a file gains.
pub open spec fn added_line(path: Seq<u8>, line: Seq<u8>, number: u32) -> LineModel {
    LineModel {
        kind: DiffLineKind::Add,
        old_lineno: None,
        new_lineno: Some(number),
        text: lossy(line),
        stable_line_id: short_id(
            "line_"@,
            line_identity(Some(path), DiffLineKind::Add, None, Some(number), line),
        ),
    }
}

/// Lines that a file gains, counted from a number on.
pub open spec fn added_models(path: Seq<u8>, lines: Seq<Seq<u8>>, from: int) -> Seq<LineModel> {
    Seq::new(lines.len(), |k: int| added_line(path, lines[k], (from + k) as u32))
}

/// A patch with more lines in its last hunk.
pub open spec fn with_lines(m: PatchModel, more: Seq<LineModel>) -> PatchModel {
    let last = m.hunks.last();
    PatchModel {
        hunks: m.hunks.drop_last().push(HunkModel { lines: last.lines + more, ..last }),
        new_line: (m.new_line + more.len()) as u32,
        ..m
    }
}

pub proof fn lemma_plus_step(m: PatchModel, path: Seq<u8>, line: Seq<u8>)
    requires
        m.hunks.len() > 0,
        m.paths.path == Some(path),
        m.new_line < u32::MAX,
        line.len() > 0 ==> line.last() != 13,
    ensures
        patch_step(m, trimmed_cr(seq![0x2bu8] + line)) == Some(
            with_lines(m, seq![added_line(path, line, m.new_line)]),
        ),
{
    let l = seq![0x2bu8] + line;
    if line.len() > 0 {
        assert(l.last() == line.last());
    }
    assert(trimmed_cr(l) == l);
    lemma_meanings(l);
    assert(l.skip(1) =~= line);
    let last = m.hunks.last();
    let entry = added_line(path, line, m.new_line);
    assert(last.lines.push(entry) =~= last.lines + seq![entry]);
    reveal(patch_step);
}

pub proof fn lemma_plus_steps(m: PatchModel, path: Seq<u8>, lines: Seq<Seq<u8>>)
    requires
        m.hunks.len() > 0,
        m.paths.path == Some(path),
        m.new_line + lines.len() <= u32::MAX,
        forall|k: int|
            0 <= k < lines.len() ==> ((#[trigger] lines[k]).len() > 0 ==> lines[k].last() != 13),
    ensures
        steps(plus_lines(lines), m) == Some(
            with_lines(m, added_models(path, lines, m.new_line as int)),
        ),
    decreases lines.len(),
{
    let all = added_models(path, lines, m.new_line as int);
    let last = m.hunks.last();
    if lines.len() == 0 {
        assert(last.lines + all =~= last.lines);
        assert(m.hunks.drop_last().push(last) =~= m.hunks);
    } else {
        let rest = lines.skip(1);
        let plus = plus_lines(lines);
        let one = seq![added_line(path, lines[0], m.new_line)];
        let next = with_lines(m, one);
        lemma_plus_step(m, path, lines[0]);
        assert(plus[0] == seq![0x2bu8] + lines[0]);
        assert(plus.skip(1) =~= plus_lines(rest));
        assert forall|k: int| 0 <= k < rest.len() && (#[trigger] rest[k]).len() > 0 implies rest[k].last()
            != 13 by {
            assert(rest[k] == lines[k + 1]);
        }
        lemma_plus_steps(next, path, rest);
        let tail = added_models(path, rest, m.new_line + 1);
        assert(all =~= one + tail);
        assert((last.lines + one) + tail =~= last.lines + all);
        assert(next.hunks.drop_last() =~= m.hunks.drop_last());
    }
}

pub proof fn lemma_source_lines_trimmed(content: Seq<u8>, i: int)
    requires
        0 <= i,
    ensures
        forall|k: int|
            0 <= k < source_lines(content, i).len() ==> ((
            #[trigger] source_lines(content, i)[k]).len() > 0 ==> source_lines(content, i)[k].last()
                != 13),
    decreases content.len() + 1 - i,
{
    if i < content.len() {
        let end = i + find_byte(content.skip(i), 0x0a);
        lemma_find_byte(content.skip(i), 0x0a);
        lemma_source_lines_trimmed(content, end + 1);
        lemma_trimmed_cr(content.subrange(i, end));
        let all = source_lines(content, i);
        let rest = source_lines(content, end + 1);
        assert forall|k: int| 0 <= k < all.len() && (#[trigger] all[k]).len() > 0 implies all[k].last()
            != 13 by {
            if k > 0 {
                assert(all[k] == rest[k - 1]);
            }
        }
    }
}

/// Lines end in one line feed that is not part of them.
pub proof fn lemma_trimmed_ended(lines: Seq<Seq<u8>>)
    requires
        lines.len() > 0,
        are_lines(lines),
        lines.last().len() > 0,
    ensures
        trimmed_lf(ended(lines)) == ended(lines).drop_last(),
{
    let init = lines.drop_last();
    let line = lines.last();
    assert(lines =~= init + seq![line]);
    lemma_ended_concat(init, seq![line]);
    lemma_ended_one(line);
    let b = ended(lines);
    assert(b.last() == 0x0a);
    assert(b.drop_last() =~= ended(init) + line);
    assert(is_line(line));
    let t = b.drop_last();
    assert(t.last() == line[line.len() - 1]);
    assert(t.last() != 0x0a);
    assert(trimmed_lf(t) == t);
}

// ---------------------------------------------------------------------------
// Whole files
// ---------------------------------------------------------------------------

pub proof fn lemma_find_seq_none(b: Seq<u8>, needle: Seq<u8>, k: int)
    requires
        find_seq(b, needle) is None,
        0 <= k <= b.len(),
    ensures
        !has_prefix(b.skip(k), needle),
    decreases k,
{
    if k == 0 {
        assert(b.skip(0) =~= b);
    } else {
        lemma_find_seq_none(b.skip(1), needle, k - 1);
        assert(b.skip(1).skip(k - 1) =~= b.skip(k));
    }
}

pub proof fn lemma_find_seq_at(b: Seq<u8>, needle: Seq<u8>, i: int)
    requires
        0 <= i <= b.len(),
        has_prefix(b.skip(i), needle),
        forall|k: int| 0 <= k < i ==> !has_prefix(#[trigger] b.skip(k), needle),
    ensures
        find_seq(b, needle) == Some(i as nat),
    decreases i,
{
    if i == 0 {
        assert(b.skip(0) =~= b);
    } else {
        assert(b.skip(0) =~= b);
        assert(!has_prefix(b.skip(0), needle));
        let t = b.skip(1);
        assert forall|k: int| 0 <= k < i - 1 implies !has_prefix(#[trigger] t.skip(k), needle) by {
            assert(t.skip(k) =~= b.skip(k + 1));
        }
        assert(t.skip(i - 1) =~= b.skip(i));
        lemma_find_seq_at(t, needle, i - 1);
    }
}

/// A heading names its path twice, where the path does not look like the place
/// between the two.
pub proof fn lemma_heading_paths(path: Seq<u8>)
    requires
        find_seq(path, utf8(" b/")) is None,
    ensures
        heading_paths(path) == (PathsModel { path: Some(path), old: Some(path) }),
{
    reveal_strlit("diff --git a/");
    reveal_strlit("diff --git ");
    reveal_strlit("a/");
    reveal_strlit(" b/");
    is_ascii_chars_encode_utf8("diff --git a/"@);
    is_ascii_chars_encode_utf8("diff --git "@);
    is_ascii_chars_encode_utf8("a/"@);
    is_ascii_chars_encode_utf8(" b/"@);
    assert("diff --git a/"@.take(11) =~= "diff --git "@);
    assert("diff --git a/"@.skip(11) =~= "a/"@);
    lemma_ascii_prefix("diff --git a/"@, "diff --git "@);
    let a = utf8("diff --git a/");
    let s = utf8("a/");
    let q = utf8(" b/");
    assert(s[0] == "a/"@[0] as u8 && s[1] == "a/"@[1] as u8);
    assert(q[0] == " b/"@[0] as u8 && q[1] == " b/"@[1] as u8 && q[2] == " b/"@[2] as u8);
    let h = heading_line(path);
    assert(h =~= a + path + q + path);
    assert(h.take(11) =~= a.take(11));
    let rest = h.skip(11);
    assert(rest =~= s + path + q + path);
    let n = 2 + path.len() as int;
    assert(rest.skip(n).take(3) =~= q);
    assert forall|k: int| 0 <= k < n implies !has_prefix(#[trigger] rest.skip(k), q) by {
        let t = rest.skip(k);
        if has_prefix(t, q) {
            let u = t.take(3);
            assert(u[0] == t[0] && u[1] == t[1] && u[2] == t[2]);
            assert(rest[k] == 0x20 && rest[k + 1] == 0x62 && rest[k + 2] == 0x2f);
            if k == 0 {
                assert(rest[0] == s[0]);
            } else if k == 1 {
                assert(rest[1] == s[1]);
            } else if k + 3 <= n {
                lemma_find_seq_none(path, q, k - 2);
                assert(path.skip(k - 2).take(3) =~= q);
            } else if k + 2 == n {
                assert(rest[k + 2] == q[0]);
            } else {
                assert(rest[k + 1] == q[0]);
            }
        }
    }
    lemma_find_seq_at(rest, q, n);
    assert(rest.take(n).skip(2) =~= path);
    assert(rest.skip(n + 1).skip(2) =~= path);
    assert(rest.take(n)[0] == s[0] && rest.take(n)[1] == s[1]);
    assert(rest.skip(n + 1)[0] == q[1] && rest.skip(n + 1)[1] == q[2]);
}

/// What reading the patch of an untracked file comes to.
pub open spec fn untracked_model(path: Seq<u8>, content: Seq<u8>) -> PatchModel {
    let m = PatchModel { paths: heading_paths(path), status: FileStatus::Added, ..empty_patch() };
    if shown_as_binary(content) {
        PatchModel { status: FileStatus::Binary, is_binary: true, ..m }
    } else {
        let n = line_total(content);
        let named = PatchModel { paths: PathsModel { path: Some(path), ..m.paths }, ..m };
        if n == 0 {
            named
        } else {
            PatchModel {
                hunks: seq![
                    HunkModel {
                        header: lossy(count_line(n)),
                        old_start: 0,
                        old_count: 0,
                        new_start: 1,
                        new_count: n as u32,
                        lines: added_models(path, source_lines(content, 0), 1),
                    },
                ],
                new_line: (n + 1) as u32,
                ..named
            }
        }
    }
}

pub proof fn lemma_head_steps(path: Seq<u8>)
    requires
        is_plain_path(path),
    ensures
        are_lines(head_lines(path)),
        steps(head_lines(path), empty_patch()) == Some(
            PatchModel { paths: heading_paths(path), status: FileStatus::Added, ..empty_patch() },
        ),
{
    let ls = head_lines(path);
    let m = PatchModel { paths: heading_paths(path), ..empty_patch() };
    let n = PatchModel { status: FileStatus::Added, ..m };
    lemma_heading(path);
    lemma_mode_and_index(m);
    lemma_mode_and_index(n);
    let two = ls.skip(1);
    let one = two.skip(1);
    assert(two[0] == ls[1] && one[0] == ls[2]);
    assert(steps(one.skip(1), n) == Some(n));
    assert(steps(one, n) == Some(n));
    assert(steps(two, m) == Some(n));
}

pub proof fn lemma_side_steps(path: Seq<u8>, m: PatchModel)
    requires
        is_plain_path(path),
        m.hunks.len() == 0,
    ensures
        are_lines(side_lines(path)),
        steps(side_lines(path), m) == Some(
            PatchModel { paths: PathsModel { path: Some(path), ..m.paths }, ..m },
        ),
{
    let ls = side_lines(path);
    lemma_mode_and_index(m);
    lemma_path_line(m, path);
    let n = PatchModel { paths: PathsModel { path: Some(path), ..m.paths }, ..m };
    let one = ls.skip(1);
    assert(one[0] == ls[1]);
    assert(steps(one.skip(1), n) == Some(n));
    assert(steps(one, m) == Some(n));
}

pub proof fn lemma_hunk_steps(path: Seq<u8>, content: Seq<u8>, m: PatchModel)
    requires
        m.hunks.len() == 0,
        m.paths.path == Some(path),
        0 < line_total(content) < u32::MAX,
    ensures
        are_lines(added_hunk_lines(content)),
        added_hunk_lines(content).last().len() > 0,
        steps(added_hunk_lines(content), m) == Some(
            PatchModel {
                hunks: seq![
                    HunkModel {
                        header: lossy(count_line(line_total(content))),
                        old_start: 0,
                        old_count: 0,
                        new_start: 1,
                        new_count: line_total(content) as u32,
                        lines: added_models(path, source_lines(content, 0), 1),
                    },
                ],
                old_line: 0,
                new_line: (line_total(content) + 1) as u32,
                ..m
            },
        ),
{
    let total = line_total(content);
    let c = count_line(total);
    let src = source_lines(content, 0);
    let plus = plus_lines(src);
    let ls = added_hunk_lines(content);
    lemma_count_line(total);
    lemma_added_lines(content, 0);
    lemma_source_lines_total(content, 0);
    assert(content.skip(0) =~= content);
    lemma_source_lines_trimmed(content, 0);
    assert(ls =~= seq![c] + plus);
    assert(ls[0] == c);
    assert(ls.skip(1) =~= plus);
    assert forall|k: int| 0 <= k < ls.len() implies is_line(#[trigger] ls[k]) by {
        if k > 0 {
            assert(ls[k] == plus[k - 1]);
        }
    }
    assert(ls.last() == plus[plus.len() - 1]);
    let empty = HunkModel {
        header: lossy(c),
        old_start: 0,
        old_count: 0,
        new_start: 1,
        new_count: total as u32,
        lines: seq![],
    };
    let next = PatchModel { hunks: m.hunks.push(empty), old_line: 0, new_line: 1, ..m };
    assert(trimmed_cr(c) == c);
    assert(patch_step(m, c) == Some(next)) by {
        lemma_meanings(c);
        reveal(patch_step);
    }
    lemma_plus_steps(next, path, src);
    assert(empty.lines + added_models(path, src, 1) =~= added_models(path, src, 1));
    let full = HunkModel { lines: added_models(path, src, 1), ..empty };
    assert(next.hunks.drop_last().push(full) =~= seq![full]);
}

pub proof fn lemma_content_lines(content: Seq<u8>)
    requires
        !shown_as_binary(content),
    ensures
        line_total(content) < u32::MAX,
{
    lemma_count_bound(content, 0x0a);
}

pub proof fn lemma_count_bound(b: Seq<u8>, x: u8)
    ensures
        count_byte(b, x) <= b.len(),
    decreases b.len(),
{
    if b.len() > 0 {
        lemma_count_bound(b.drop_last(), x);
    }
}

pub proof fn lemma_lines_concat(a: Seq<Seq<u8>>, b: Seq<Seq<u8>>)
    requires
        are_lines(a),
        are_lines(b),
    ensures
        are_lines(a + b),
{
    let c = a + b;
    assert forall|k: int| 0 <= k < c.len() implies is_line(#[trigger] c[k]) by {
        if k < a.len() {
            assert(c[k] == a[k]);
        } else {
            assert(c[k] == b[k - a.len()]);
        }
    }
}

/// The lines of the patch lead to its model.
pub proof fn lemma_untracked_steps(path: Seq<u8>, content: Seq<u8>)
    requires
        is_plain_path(path),
    ensures
        are_lines(untracked_lines(path, content)),
        untracked_lines(path, content).len() > 0,
        untracked_lines(path, content).last().len() > 0,
        steps(untracked_lines(path, content), empty_patch()) == Some(
            untracked_model(path, content),
        ),
{
    let m = PatchModel { paths: heading_paths(path), status: FileStatus::Added, ..empty_patch() };
    let head = head_lines(path);
    lemma_head_steps(path);
    if shown_as_binary(content) {
        let l = seq![binary_line(path)];
        lemma_binary_line(m, path);
        lemma_steps_concat(head, l, empty_patch());
        lemma_lines_concat(head, l);
        let n = PatchModel { status: FileStatus::Binary, is_binary: true, ..m };
        assert(steps(l.skip(1), n) == Some(n));
        assert(untracked_lines(path, content).last() == l[0]);
    } else {
        let sides = side_lines(path);
        let named = PatchModel { paths: PathsModel { path: Some(path), ..m.paths }, ..m };
        let hunk = added_hunk_lines(content);
        lemma_content_lines(content);
        lemma_side_steps(path, m);
        lemma_path_line(m, path);
        if line_total(content) > 0 {
            lemma_hunk_steps(path, content, named);
            assert(untracked_lines(path, content).last() == hunk.last());
        } else {
            assert(sides + hunk =~= sides);
            assert(untracked_lines(path, content).last() == path_line(path));
        }
        lemma_steps_concat(sides, hunk, m);
        lemma_steps_concat(head, sides + hunk, empty_patch());
        lemma_lines_concat(sides, hunk);
        lemma_lines_concat(head, sides + hunk);
    }
}

/// A file that Git does not track is read back as one that is added: under its
/// own path, with all its lines, in order and counted from one, or as a binary
/// file without lines.
pub proof fn law_untracked_is_added(path: Seq<u8>, content: Seq<u8>, source: DiffSource)
    requires
        is_plain_path(path),
    ensures
        parsed_file(trimmed_lf(untracked_patch(path, content)), source) matches Some(f) && {
            &&& f.source == source
            &&& f.is_binary == shown_as_binary(content)
            &&& f.status == (if shown_as_binary(content) {
                FileStatus::Binary
            } else {
                FileStatus::Added
            })
            &&& f.hunks == untracked_model(path, content).hunks
            &&& !shown_as_binary(content) || find_seq(path, utf8(" b/")) is None ==> f.path
                == lossy(path)
            &&& find_seq(path, utf8(" b/")) is None ==> f.old_path == Some(lossy(path))
        },
{
    let lines = untracked_lines(path, content);
    lemma_untracked_lines(path, content);
    lemma_untracked_steps(path, content);
    lemma_trimmed_ended(lines);
    lemma_steps(lines, empty_patch());
    if find_seq(path, utf8(" b/")) is None {
        lemma_heading_paths(path);
    }
    reveal(parsed_file);
}

// ---------------------------------------------------------------------------
// Many files
// ---------------------------------------------------------------------------

/// No line but the first can be taken for a heading.
pub open spec fn one_heading(lines: Seq<Seq<u8>>) -> bool {
    &&& are_lines(lines)
    &&& forall|k: int| 0 <= k < lines.len() ==> (#[trigger] lines[k]).len() > 0
    &&& forall|k: int| 1 <= k < lines.len() ==> (#[trigger] lines[k])[0] != 0x64
}

pub proof fn lemma_line_starts(lines: Seq<Seq<u8>>, p: int)
    requires
        one_heading(lines),
        0 <= p,
        p + 1 < ended(lines).len(),
        ended(lines)[p] == 0x0a,
    ensures
        ended(lines)[p + 1] != 0x64,
    decreases lines.len(),
{
    let line = lines[0];
    let rest = lines.skip(1);
    let b = ended(lines);
    let t = ended(rest);
    assert(is_line(line));
    assert(b =~= line + seq![0x0au8] + t);
    if p < line.len() {
        assert(b[p] == line[p]);
    } else if p == line.len() {
        assert(b[p + 1] == t[0]);
        assert(rest.len() > 0);
        assert(rest[0] == lines[1]);
        assert(t[0] == rest[0][0]);
    } else {
        assert(one_heading(rest)) by {
            assert forall|k: int| 0 <= k < rest.len() implies is_line(#[trigger] rest[k]) by {
                assert(rest[k] == lines[k + 1]);
            }
            assert forall|k: int| 0 <= k < rest.len() implies (#[trigger] rest[k]).len() > 0 by {
                assert(rest[k] == lines[k + 1]);
            }
            assert forall|k: int| 1 <= k < rest.len() implies (#[trigger] rest[k])[0] != 0x64 by {
                assert(rest[k] == lines[k + 1]);
            }
        }
        let q = p - line.len() - 1;
        assert(t[q] == b[p] && t[q + 1] == b[p + 1]);
        lemma_line_starts(rest, q);
    }
}

/// Lines that cannot be taken for headings.
pub open spec fn plain_lines(lines: Seq<Seq<u8>>) -> bool {
    forall|k: int|
        0 <= k < lines.len() ==> is_line(#[trigger] lines[k]) && lines[k].len() > 0 && lines[k][0]
            != 0x64
}

pub proof fn lemma_plain_concat(a: Seq<Seq<u8>>, b: Seq<Seq<u8>>)
    requires
        plain_lines(a),
        plain_lines(b),
    ensures
        plain_lines(a + b),
{
    let c = a + b;
    assert forall|k: int| 0 <= k < c.len() implies is_line(#[trigger] c[k]) && c[k].len() > 0
        && c[k][0] != 0x64 by {
        if k < a.len() {
            assert(c[k] == a[k]);
        } else {
            assert(c[k] == b[k - a.len()]);
        }
    }
}

pub proof fn lemma_heading_over(h: Seq<u8>, lines: Seq<Seq<u8>>)
    requires
        is_line(h),
        h.len() > 0,
        plain_lines(lines),
    ensures
        one_heading(seq![h] + lines),
{
    let all = seq![h] + lines;
    assert forall|k: int| 0 <= k < all.len() implies is_line(#[trigger] all[k]) && all[k].len() > 0
        && (k > 0 ==> all[k][0] != 0x64) by {
        if k > 0 {
            assert(all[k] == lines[k - 1]);
        }
    }
}

/// The lines of the hunk begin with a marker.
pub proof fn lemma_plain_hunk(content: Seq<u8>)
    requires
        !shown_as_binary(content),
    ensures
        plain_lines(added_hunk_lines(content)),
{
    if line_total(content) > 0 {
        lemma_content_lines(content);
        lemma_count_line(line_total(content));
        lemma_header_bytes();
        lemma_added_lines(content, 0);
        let c = count_line(line_total(content));
        assert(c.take(3)[0] == c[0]);
        let plus = plus_lines(source_lines(content, 0));
        assert(plain_lines(seq![c]));
        assert forall|k: int| 0 <= k < plus.len() implies is_line(#[trigger] plus[k])
            && plus[k].len() > 0 && plus[k][0] != 0x64 by {
            assert(plus[k] == seq![0x2bu8] + source_lines(content, 0)[k]);
        }
        lemma_plain_concat(seq![c], plus);
    }
}

/// The patch of one file holds one heading.
pub proof fn lemma_one_heading(path: Seq<u8>, content: Seq<u8>)
    requires
        is_plain_path(path),
    ensures
        untracked_lines(path, content).len() > 0,
        one_heading(untracked_lines(path, content)),
        has_prefix(untracked_lines(path, content)[0], utf8("diff --git ")),
{
    let h = heading_line(path);
    lemma_heading(path);
    lemma_mode_and_index(empty_patch());
    lemma_path_line(empty_patch(), path);
    lemma_binary_line(empty_patch(), path);
    lemma_heading_start();
    let fixed = seq![utf8("new file mode 100644"), utf8("index 0000000..0000000")];
    assert(plain_lines(fixed));
    let rest = if shown_as_binary(content) {
        seq![binary_line(path)]
    } else {
        side_lines(path) + added_hunk_lines(content)
    };
    if shown_as_binary(content) {
        assert(plain_lines(rest));
    } else {
        assert(plain_lines(side_lines(path)));
        lemma_plain_hunk(content);
        lemma_plain_concat(side_lines(path), added_hunk_lines(content));
    }
    lemma_plain_concat(fixed, rest);
    lemma_heading_over(h, fixed + rest);
    assert(untracked_lines(path, content) =~= seq![h] + (fixed + rest));
}

pub proof fn lemma_heading_start()
    ensures
        utf8("diff --git ").len() == 11,
        utf8("diff --git ")[0] == 0x64,
        utf8("diff --git ")[1] == 0x69,
        utf8("\ndiff --git ") == seq![0x0au8] + utf8("diff --git "),
{
    reveal_strlit("diff --git ");
    reveal_strlit("\ndiff --git ");
    reveal_strlit("\n");
    is_ascii_chars_encode_utf8("diff --git "@);
    let a = "diff --git "@;
    let e = utf8("diff --git ");
    assert(e[0] == a[0] as u8 && e[1] == a[1] as u8);
    lemma_line_feed();
    assert("\ndiff --git "@ =~= "\n"@ + a);
    lemma_ascii_concat("\n"@, a);
}

/// A section ends where the lines under its heading end.
pub proof fn lemma_section_end(lines: Seq<Seq<u8>>, more: Seq<u8>)
    requires
        lines.len() > 0,
        one_heading(lines),
        has_prefix(lines[0], utf8("diff --git ")),
        more.len() == 0 || has_prefix(more, utf8("diff --git ")),
    ensures
        diff_start(ended(lines) + more) == Some(0nat),
        section_end(ended(lines) + more) == ended(lines).len(),
        ended(lines).len() > 0,
{
    lemma_heading_start();
    let p = utf8("diff --git ");
    let q = utf8("\ndiff --git ");
    let b = ended(lines);
    let all = b + more;
    let line = lines[0];
    assert(b =~= line + (seq![0x0au8] + ended(lines.skip(1))));
    assert(all.take(11) =~= line.take(11));
    let t = all.skip(1);
    assert(t[0] == line[1] && line.take(11)[1] == line[1]);
    if has_prefix(t, p) {
        assert(t.take(11)[0] == t[0]);
    }
    let init = lines.drop_last();
    let last = lines.last();
    assert(lines =~= init + seq![last]);
    lemma_ended_concat(init, seq![last]);
    lemma_ended_one(last);
    assert(b.last() == 0x0a);
    let n = b.len() - 2;
    assert(last.len() > 0);
    assert forall|k: int| 0 <= k <= t.len() && (k != n || more.len() == 0) && k <= n implies !has_prefix(
        #[trigger] t.skip(k),
        q,
    ) by {
        let u = t.skip(k);
        if has_prefix(u, q) {
            assert(u.take(12)[0] == u[0] && u.take(12)[1] == u[1]);
            assert(all[k + 1] == 0x0a && all[k + 2] == 0x64);
            if k < n {
                assert(b[k + 1] == all[k + 1] && b[k + 2] == all[k + 2]);
                lemma_line_starts(lines, k + 1);
            }
        }
    }
    if more.len() == 0 {
        assert(all =~= b);
        assert forall|k: int| 0 <= k <= t.len() implies !has_prefix(#[trigger] t.skip(k), q) by {}
        lemma_find_seq_hit(t, q);
    } else {
        assert(t.skip(n).take(12) =~= q) by {
            assert(t.skip(n) =~= seq![0x0au8] + more);
            assert((seq![0x0au8] + more).take(12) =~= seq![0x0au8] + more.take(11));
        }
        lemma_find_seq_at(t, q, n);
    }
}

/// The patches of the files from the one with index `k` on.
pub open spec fn patches_from(files: Seq<Untracked>, k: int) -> Seq<u8>
    decreases files.len() - k,
{
    if k < 0 || k >= files.len() {
        seq![]
    } else {
        untracked_patch(files[k].path@, files[k].content@) + patches_from(files, k + 1)
    }
}

pub proof fn lemma_patches_from(files: Seq<Untracked>, k: int)
    requires
        0 <= k <= files.len(),
    ensures
        untracked_patches(files, k) + patches_from(files, k) == untracked_patches(
            files,
            files.len() as int,
        ),
    decreases files.len() - k,
{
    if k < files.len() {
        lemma_patches_from(files, k + 1);
        assert(untracked_patches(files, k) + patches_from(files, k) =~= untracked_patches(
            files,
            k + 1,
        ) + patches_from(files, k + 1));
    } else {
        assert(untracked_patches(files, k) + patches_from(files, k) =~= untracked_patches(files, k));
    }
}

/// The section of one file.
pub open spec fn untracked_section(file: Untracked) -> Seq<u8> {
    trimmed_lf(untracked_patch(file.path@, file.content@))
}

/// Lines under one heading are a section, before what follows.
pub proof fn lemma_section_step(lines: Seq<Seq<u8>>, more: Seq<u8>)
    requires
        lines.len() > 0,
        one_heading(lines),
        has_prefix(lines[0], utf8("diff --git ")),
        more.len() == 0 || has_prefix(more, utf8("diff --git ")),
    ensures
        has_prefix(ended(lines) + more, utf8("diff --git ")),
        sections(ended(lines) + more) == seq![trimmed_lf(ended(lines))] + sections(more),
{
    let own = ended(lines);
    let b = own + more;
    lemma_section_end(lines, more);
    lemma_heading_start();
    assert(own =~= lines[0] + (seq![0x0au8] + ended(lines.skip(1))));
    assert(b.take(11) =~= lines[0].take(11));
    assert(b.skip(0) =~= b);
    assert(b.take(own.len() as int) =~= own);
    assert(b.skip(own.len() as int) =~= more);
}

pub proof fn lemma_no_sections()
    ensures
        sections(Seq::<u8>::empty()) == Seq::<Seq<u8>>::empty(),
{
    lemma_heading_start();
    let b = Seq::<u8>::empty();
    assert(!has_prefix(b, utf8("diff --git ")));
    assert(find_seq(b, utf8("\ndiff --git ")) is None);
}

pub proof fn lemma_sections_from(files: Seq<Untracked>, k: int)
    requires
        0 <= k <= files.len(),
        forall|i: int| 0 <= i < files.len() ==> is_plain_path((#[trigger] files[i]).path@),
    ensures
        k < files.len() ==> has_prefix(patches_from(files, k), utf8("diff --git ")),
        sections(patches_from(files, k)) == Seq::new(
            (files.len() - k) as nat,
            |i: int| untracked_section(files[k + i]),
        ),
    decreases files.len() - k,
{
    let parts = Seq::new((files.len() - k) as nat, |i: int| untracked_section(files[k + i]));
    if k == files.len() {
        lemma_no_sections();
        assert(parts =~= Seq::<Seq<u8>>::empty());
    } else {
        let path = files[k].path@;
        let content = files[k].content@;
        lemma_sections_from(files, k + 1);
        lemma_untracked_lines(path, content);
        lemma_one_heading(path, content);
        lemma_section_step(untracked_lines(path, content), patches_from(files, k + 1));
        let rest = Seq::new(
            (files.len() - k - 1) as nat,
            |i: int| untracked_section(files[k + 1 + i]),
        );
        assert(parts =~= seq![untracked_section(files[k])] + rest);
    }
}

/// Every file that Git does not track has a section of its own, and so each is
/// read back as a file of its own, in order.
pub proof fn law_untracked_files_apart(files: Seq<Untracked>, source: DiffSource)
    requires
        forall|i: int| 0 <= i < files.len() ==> is_plain_path((#[trigger] files[i]).path@),
    ensures
        patch_files(untracked_patches(files, files.len() as int), source) matches Some(fs) && fs.len()
            == files.len() && forall|k: int|
            0 <= k < files.len() ==> parsed_file(untracked_section(files[k]), source) == Some(
                #[trigger] fs[k],
            ),
{
    let patch = untracked_patches(files, files.len() as int);
    lemma_patches_from(files, 0);
    assert(patch =~= patches_from(files, 0)) by {
        assert(untracked_patches(files, 0) + patches_from(files, 0) =~= patches_from(files, 0));
    }
    lemma_sections_from(files, 0);
    let all = parsed_sections(sections(patch), source);
    assert forall|k: int| 0 <= k < all.len() implies (#[trigger] all[k]) is Some && all[k]
        == parsed_file(untracked_section(files[k]), source) by {
        law_untracked_is_added(files[k].path@, files[k].content@, source);
    }
    assert(!all.contains(None));
    let fs = patch_files(patch, source)->0;
    assert forall|k: int| 0 <= k < files.len() implies parsed_file(
        untracked_section(files[k]),
        source,
    ) == Some(#[trigger] fs[k]) by {
        assert(all[k] is Some);
    }
}

} // verus!

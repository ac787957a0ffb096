//! The diff model and the parser for Git's unified patches.
use vstd::prelude::*;
use vstd::slice::slice_subrange;
use vstd::utf8::encode_utf8;
use crate::Error;
use crate::util::{
    chars_of, contains_text, copy_bytes, copy_strings, decimal, find, find_byte, find_seq,
    has_prefix, hash_hex, hex, index_of, join_args, joined, lemma_find_byte, lossy, lossy_utf8,
    push_bytes, push_decimal, same_bytes, same_text, sha256, starts_with, string_of, strip_prefix, texts,
    text_contains, text_prefix, utf8,
};

verus! {

#[derive(Clone, Copy, Debug, PartialEq, Eq, Structural)]
pub enum DiffLineKind {
    Context,
    Add,
    Delete,
    Meta,
}

impl DiffLineKind {
    /// The kind as it is spelled in identities and output.
    pub open spec fn label_text(self) -> Seq<char> {
        match self {
            DiffLineKind::Context => "context"@,
            DiffLineKind::Add => "add"@,
            DiffLineKind::Delete => "delete"@,
            DiffLineKind::Meta => "meta"@,
        }
    }

    pub fn label(self) -> (r: &'static str)
        ensures
            r@ == self.label_text(),
    {
        match self {
            DiffLineKind::Context => "context",
            DiffLineKind::Add => "add",
            DiffLineKind::Delete => "delete",
            DiffLineKind::Meta => "meta",
        }
    }
}

#[derive(Clone, Debug)]
pub struct DiffLine {
    pub kind: DiffLineKind,
    pub old_lineno: Option<u32>,
    pub new_lineno: Option<u32>,
    pub text: String,
    pub stable_line_id: String,
}

/// What a diff line says.
pub ghost struct LineModel {
    pub kind: DiffLineKind,
    pub old_lineno: Option<u32>,
    pub new_lineno: Option<u32>,
    pub text: Seq<char>,
    pub stable_line_id: Seq<char>,
}

impl View for DiffLine {
    type V = LineModel;

    open spec fn view(&self) -> LineModel {
        LineModel {
            kind: self.kind,
            old_lineno: self.old_lineno,
            new_lineno: self.new_lineno,
            text: self.text@,
            stable_line_id: self.stable_line_id@,
        }
    }
}

/// The lines of a hunk, as they read.
pub open spec fn line_models(v: Seq<DiffLine>) -> Seq<LineModel> {
    v.map_values(|l: DiffLine| l@)
}

#[derive(Clone, Debug)]
pub struct DiffHunk {
    pub header: String,
    pub old_start: u32,
    pub old_count: u32,
    pub new_start: u32,
    pub new_count: u32,
    pub lines: Vec<DiffLine>,
}

/// What a hunk says.
pub ghost struct HunkModel {
    pub header: Seq<char>,
    pub old_start: u32,
    pub old_count: u32,
    pub new_start: u32,
    pub new_count: u32,
    pub lines: Seq<LineModel>,
}

impl View for DiffHunk {
    type V = HunkModel;

    open spec fn view(&self) -> HunkModel {
        HunkModel {
            header: self.header@,
            old_start: self.old_start,
            old_count: self.old_count,
            new_start: self.new_start,
            new_count: self.new_count,
            lines: line_models(self.lines@),
        }
    }
}

/// The hunks of a file, as they read.
pub open spec fn hunk_models(v: Seq<DiffHunk>) -> Seq<HunkModel> {
    v.map_values(|h: DiffHunk| h@)
}

#[derive(Clone, Copy, Debug, PartialEq, Eq, Structural)]
pub enum FileStatus {
    Added,
    Modified,
    Deleted,
    Renamed,
    Copied,
    Binary,
}

impl FileStatus {
    pub open spec fn label_text(self) -> Seq<char> {
        match self {
            FileStatus::Added => "A"@,
            FileStatus::Modified => "M"@,
            FileStatus::Deleted => "D"@,
            FileStatus::Renamed => "R"@,
            FileStatus::Copied => "C"@,
            FileStatus::Binary => "B"@,
        }
    }

    pub fn label(self) -> (r: &'static str)
        ensures
            r@ == self.label_text(),
    {
        match self {
            FileStatus::Added => "A",
            FileStatus::Modified => "M",
            FileStatus::Deleted => "D",
            FileStatus::Renamed => "R",
            FileStatus::Copied => "C",
            FileStatus::Binary => "B",
        }
    }
}

#[derive(Clone, Copy, Debug, PartialEq, Eq, Structural)]
pub enum DiffSource {
    Unstaged,
    Staged,
    Untracked,
    Explicit,
}

impl DiffSource {
    pub open spec fn label_text(self) -> Seq<char> {
        match self {
            DiffSource::Unstaged => "unstaged"@,
            DiffSource::Staged => "staged"@,
            DiffSource::Untracked => "untracked"@,
            DiffSource::Explicit => "target"@,
        }
    }

    pub fn label(self) -> (r: &'static str)
        ensures
            r@ == self.label_text(),
    {
        match self {
            DiffSource::Unstaged => "unstaged",
            DiffSource::Staged => "staged",
            DiffSource::Untracked => "untracked",
            DiffSource::Explicit => "target",
        }
    }
}

#[derive(Clone, Debug)]
pub struct DiffFile {
    pub path: String,
    pub old_path: Option<String>,
    pub status: FileStatus,
    pub source: DiffSource,
    pub language: Option<String>,
    pub is_binary: bool,
    pub hunks: Vec<DiffHunk>,
    pub patch_fingerprint: String,
    pub patch_text: Vec<u8>,
}

/// What a file's diff says.
pub ghost struct FileModel {
    pub path: Seq<char>,
    pub old_path: Option<Seq<char>>,
    pub status: FileStatus,
    pub source: DiffSource,
    pub language: Option<Seq<char>>,
    pub is_binary: bool,
    pub hunks: Seq<HunkModel>,
    pub patch_fingerprint: Seq<char>,
    pub patch_text: Seq<u8>,
}

/// The text of an optional string.
pub open spec fn opt_text(s: Option<String>) -> Option<Seq<char>> {
    match s {
        Some(t) => Some(t@),
        None => None,
    }
}

impl View for DiffFile {
    type V = FileModel;

    open spec fn view(&self) -> FileModel {
        FileModel {
            path: self.path@,
            old_path: opt_text(self.old_path),
            status: self.status,
            source: self.source,
            language: opt_text(self.language),
            is_binary: self.is_binary,
            hunks: hunk_models(self.hunks@),
            patch_fingerprint: self.patch_fingerprint@,
            patch_text: self.patch_text@,
        }
    }
}

/// The files of a snapshot, as they read.
pub open spec fn file_models(v: Seq<DiffFile>) -> Seq<FileModel> {
    v.map_values(|f: DiffFile| f@)
}

/// The number of lines that hunks take on screen: a header and its lines each.
pub open spec fn hunk_lines(hunks: Seq<HunkModel>) -> nat
    decreases hunks.len(),
{
    if hunks.len() == 0 {
        0
    } else {
        hunk_lines(hunks.drop_last()) + 1 + hunks.last().lines.len()
    }
}

/// The number of lines that the hunks of some files take.
pub open spec fn all_hunk_lines(files: Seq<FileModel>) -> nat
    decreases files.len(),
{
    if files.len() == 0 {
        0
    } else {
        all_hunk_lines(files.drop_last()) + hunk_lines(files.last().hunks)
    }
}

proof fn lemma_hunk_lines_prefix(hunks: Seq<HunkModel>, n: int)
    requires
        0 <= n <= hunks.len(),
    ensures
        hunk_lines(hunks.take(n)) <= hunk_lines(hunks),
    decreases hunks.len() - n,
{
    if n < hunks.len() {
        lemma_hunk_lines_prefix(hunks, n + 1);
        assert(hunks.take(n + 1).drop_last() =~= hunks.take(n));
    } else {
        assert(hunks.take(n) =~= hunks);
    }
}

proof fn lemma_all_lines_prefix(files: Seq<FileModel>, n: int)
    requires
        0 <= n <= files.len(),
    ensures
        all_hunk_lines(files.take(n)) <= all_hunk_lines(files),
    decreases files.len() - n,
{
    if n < files.len() {
        lemma_all_lines_prefix(files, n + 1);
        assert(files.take(n + 1).drop_last() =~= files.take(n));
    } else {
        assert(files.take(n) =~= files);
    }
}

impl DiffFile {
    /// The number of lines of the file's hunks, headers counted.
    pub fn line_count(&self) -> (n: usize)
        requires
            hunk_lines(self@.hunks) <= usize::MAX,
        ensures
            n == hunk_lines(self@.hunks),
    {
        let mut n: usize = 0;
        let mut i: usize = 0;
        while i < self.hunks.len()
            invariant
                i <= self.hunks@.len(),
                n == hunk_lines(self@.hunks.take(i as int)),
                hunk_lines(self@.hunks) <= usize::MAX,
            decreases self.hunks@.len() - i,
        {
            proof {
                lemma_hunk_lines_prefix(self@.hunks, i + 1);
                assert(self@.hunks.take(i + 1).drop_last() =~= self@.hunks.take(i as int));
                assert(self@.hunks.take(i + 1).last() == self.hunks@[i as int]@);
            }
            n = n + 1 + self.hunks[i].lines.len();
            i += 1;
        }
        assert(self@.hunks.take(i as int) =~= self@.hunks);
        n
    }
}

#[derive(Clone, Copy, Debug, PartialEq, Eq, Structural)]
pub enum ReviewTargetKind {
    WorkingTree,
    Cached,
    Commit,
    Range,
    SymmetricRange,
}

impl ReviewTargetKind {
    pub open spec fn label_text(self) -> Seq<char> {
        match self {
            ReviewTargetKind::WorkingTree => "working_tree"@,
            ReviewTargetKind::Cached => "cached"@,
            ReviewTargetKind::Commit => "commit"@,
            ReviewTargetKind::Range => "range"@,
            ReviewTargetKind::SymmetricRange => "symmetric_range"@,
        }
    }

    pub fn label(self) -> (r: &'static str)
        ensures
            r@ == self.label_text(),
    {
        match self {
            ReviewTargetKind::WorkingTree => "working_tree",
            ReviewTargetKind::Cached => "cached",
            ReviewTargetKind::Commit => "commit",
            ReviewTargetKind::Range => "range",
            ReviewTargetKind::SymmetricRange => "symmetric_range",
        }
    }
}

#[derive(Clone, Debug)]
pub struct ReviewTarget {
    pub kind: ReviewTargetKind,
    pub raw_args: Vec<String>,
    pub normalized_spec: String,
    pub target_id: String,
}

/// A repository; the root path is kept as the bytes that the system gives.
#[derive(Clone, Debug)]
pub struct Repository {
    pub root_path: Vec<u8>,
    pub repo_id: String,
    pub current_branch: String,
}

#[derive(Clone, Debug)]
pub struct DiffSnapshot {
    pub snapshot_id: String,
    pub repository: Repository,
    pub review_target: ReviewTarget,
    pub files: Vec<DiffFile>,
}

impl DiffSnapshot {
    /// The number of lines of all hunks of all files, headers counted.
    pub fn total_lines(&self) -> (n: usize)
        requires
            all_hunk_lines(file_models(self.files@)) <= usize::MAX,
        ensures
            n == all_hunk_lines(file_models(self.files@)),
    {
        let ghost models = file_models(self.files@);
        let mut n: usize = 0;
        let mut i: usize = 0;
        while i < self.files.len()
            invariant
                models == file_models(self.files@),
                i <= self.files@.len(),
                n == all_hunk_lines(models.take(i as int)),
                all_hunk_lines(models) <= usize::MAX,
            decreases self.files@.len() - i,
        {
            proof {
                lemma_all_lines_prefix(models, i + 1);
                assert(models.take(i + 1).drop_last() =~= models.take(i as int));
                assert(models.take(i + 1).last() == self.files@[i as int]@);
            }
            n = n + self.files[i].line_count();
            i += 1;
        }
        assert(models.take(i as int) =~= models);
        n
    }
}

// ---------------------------------------------------------------------------
// Review targets
// ---------------------------------------------------------------------------

/// What one argument says about the kind of target, if anything.
pub open spec fn argument_kind(arg: Seq<char>) -> Option<ReviewTargetKind> {
    if arg == "--cached"@ || arg == "--staged"@ {
        Some(ReviewTargetKind::Cached)
    } else if contains_text(arg, "..."@) {
        Some(ReviewTargetKind::SymmetricRange)
    } else if contains_text(arg, ".."@) {
        Some(ReviewTargetKind::Range)
    } else {
        None
    }
}

/// The first argument that says anything about the kind decides.
pub open spec fn first_kind(args: Seq<Seq<char>>) -> Option<ReviewTargetKind>
    decreases args.len(),
{
    if args.len() == 0 {
        None
    } else {
        match argument_kind(args[0]) {
            Some(kind) => Some(kind),
            None => first_kind(args.skip(1)),
        }
    }
}

/// The kind of target that the arguments ask for.
pub open spec fn target_kind(args: Seq<Seq<char>>) -> ReviewTargetKind {
    match first_kind(args) {
        Some(kind) => kind,
        None => if args.len() == 0 {
            ReviewTargetKind::WorkingTree
        } else {
            ReviewTargetKind::Commit
        },
    }
}

/// A short identifier: a prefix and the start of a digest.
pub open spec fn short_id(prefix: Seq<char>, input: Seq<u8>) -> Seq<char> {
    prefix + hex(sha256(input)).take(16)
}

/// A short identifier: a prefix and the start of a digest.
pub fn make_id(prefix: &str, input: &[u8]) -> (r: String)
    ensures
        r@ == short_id(prefix@, input@),
{
    let hash = hash_hex(input);
    let mut out = String::new();
    out.append(prefix);
    let head = text_prefix(hash.as_str(), 16);
    out.append(head.as_str());
    assert(out@ =~= short_id(prefix@, input@));
    out
}

fn kind_of_argument(arg: &str) -> (r: Option<ReviewTargetKind>)
    ensures
        r == argument_kind(arg@),
{
    if same_text(arg, "--cached") || same_text(arg, "--staged") {
        Some(ReviewTargetKind::Cached)
    } else if text_contains(arg, "...") {
        Some(ReviewTargetKind::SymmetricRange)
    } else if text_contains(arg, "..") {
        Some(ReviewTargetKind::Range)
    } else {
        None
    }
}

/// The review target that command-line arguments stand for.
pub fn make_review_target(args: &[String]) -> (r: ReviewTarget)
    ensures
        r.kind == target_kind(texts(args@)),
        texts(r.raw_args@) == texts(args@),
        r.normalized_spec@ == joined(texts(args@)),
        r.target_id@ == short_id(
            "target_"@,
            encode_utf8(r.kind.label_text() + ":"@ + joined(texts(args@))),
        ),
{
    let normalized_spec = join_args(args);
    let mut kind: ReviewTargetKind = if args.len() == 0 {
        ReviewTargetKind::WorkingTree
    } else {
        ReviewTargetKind::Commit
    };
    let ghost all = texts(args@);
    let mut i: usize = 0;
    assert(all.skip(0) =~= all);
    while i < args.len()
        invariant_except_break
            args@.len() > 0 ==> kind == ReviewTargetKind::Commit,
            args@.len() == 0 ==> kind == ReviewTargetKind::WorkingTree,
        invariant
            i <= args@.len(),
            all == texts(args@),
            first_kind(all) == first_kind(all.skip(i as int)),
        ensures
            kind == target_kind(all),
        decreases args@.len() - i,
    {
        assert(all.skip(i as int)[0] == args@[i as int]@);
        assert(all.skip(i as int).skip(1) =~= all.skip(i + 1));
        if let Some(found) = kind_of_argument(args[i].as_str()) {
            kind = found;
            break;
        }
        i += 1;
    }
    let mut identity = String::new();
    identity.append(kind.label());
    identity.append(":");
    identity.append(normalized_spec.as_str());
    assert(identity@ =~= kind.label_text() + ":"@ + joined(all));
    let target_id = make_id("target_", identity.as_str().as_bytes());
    ReviewTarget { kind, raw_args: copy_strings(args), normalized_spec, target_id }
}

// ---------------------------------------------------------------------------
// Paths in patch headers
// ---------------------------------------------------------------------------

/// A line without the carriage returns at its end.  Other white space is part
/// of the patch.
pub open spec fn trimmed_cr(line: Seq<u8>) -> Seq<u8>
    decreases line.len(),
{
    if line.len() > 0 && line.last() == 13 {
        trimmed_cr(line.drop_last())
    } else {
        line
    }
}

pub fn trim_cr(line: &[u8]) -> (r: &[u8])
    ensures
        r@ == trimmed_cr(line@),
{
    let mut end: usize = line.len();
    assert(line@.take(end as int) =~= line@);
    while end > 0 && line[end - 1] == 13
        invariant
            end <= line@.len(),
            trimmed_cr(line@.take(end as int)) == trimmed_cr(line@),
        decreases end,
    {
        assert(line@.take(end as int).drop_last() =~= line@.take(end - 1));
        end -= 1;
    }
    slice_subrange(line, 0, end)
}

/// A path without the `a/` or `b/` that Git puts before it.
pub open spec fn stripped_path(p: Seq<u8>) -> Seq<u8> {
    if p.len() >= 2 && (p[0] == 0x61 || p[0] == 0x62) && p[1] == 0x2f {
        p.skip(2)
    } else {
        p
    }
}

fn strip_git_prefix(path: &[u8]) -> (r: &[u8])
    ensures
        r@ == stripped_path(path@),
{
    if path.len() >= 2 && (path[0] == 0x61 || path[0] == 0x62) && path[1] == 0x2f {
        slice_subrange(path, 2, path.len())
    } else {
        path
    }
}

/// The paths that the headers read so far name, in Git's own spelling.
pub ghost struct PathsModel {
    pub path: Option<Seq<u8>>,
    pub old: Option<Seq<u8>>,
}

/// What follows a text at the start of a line.
pub open spec fn after(line: Seq<u8>, p: &str) -> Seq<u8> {
    line.skip(utf8(p).len() as int)
}

/// Whether a header line is about paths.
pub open spec fn is_path_line(line: Seq<u8>, in_hunk: bool) -> bool {
    ||| has_prefix(line, utf8("diff --git "))
    ||| has_prefix(line, utf8("rename from "))
    ||| has_prefix(line, utf8("copy from "))
    ||| has_prefix(line, utf8("rename to "))
    ||| has_prefix(line, utf8("copy to "))
    ||| !in_hunk && has_prefix(line, utf8("+++ "))
    ||| !in_hunk && has_prefix(line, utf8("--- "))
}

/// The paths after one more header line.
pub open spec fn updated_paths(m: PathsModel, line: Seq<u8>, in_hunk: bool) -> PathsModel {
    if has_prefix(line, utf8("diff --git ")) {
        let rest = after(line, "diff --git ");
        match find_seq(rest, utf8(" b/")) {
            Some(i) => PathsModel {
                old: Some(stripped_path(rest.take(i as int))),
                path: Some(stripped_path(rest.skip(i as int + 1))),
            },
            None => PathsModel { old: None, path: Some(rest) },
        }
    } else if has_prefix(line, utf8("rename from ")) {
        PathsModel { old: Some(after(line, "rename from ")), ..m }
    } else if has_prefix(line, utf8("copy from ")) {
        PathsModel { old: Some(after(line, "copy from ")), ..m }
    } else if has_prefix(line, utf8("rename to ")) {
        PathsModel { path: Some(after(line, "rename to ")), ..m }
    } else if has_prefix(line, utf8("copy to ")) {
        PathsModel { path: Some(after(line, "copy to ")), ..m }
    } else if !in_hunk && has_prefix(line, utf8("+++ ")) {
        if after(line, "+++ ") != utf8("/dev/null") {
            PathsModel { path: Some(stripped_path(after(line, "+++ "))), ..m }
        } else {
            m
        }
    } else if !in_hunk && has_prefix(line, utf8("--- ")) {
        if after(line, "--- ") != utf8("/dev/null") {
            PathsModel { old: Some(stripped_path(after(line, "--- "))), ..m }
        } else {
            m
        }
    } else {
        m
    }
}

/// The paths named by the headers of one section, in Git's literal spelling:
/// quoted paths stay quoted, since comment identities are built on them.
struct PatchPaths<'a> {
    path: Option<&'a [u8]>,
    old: Option<&'a [u8]>,
}

/// The bytes of an optional slice.
spec fn opt_bytes(b: Option<&[u8]>) -> Option<Seq<u8>> {
    match b {
        Some(x) => Some(x@),
        None => None,
    }
}

impl<'a> View for PatchPaths<'a> {
    type V = PathsModel;

    closed spec fn view(&self) -> PathsModel {
        PathsModel { path: opt_bytes(self.path), old: opt_bytes(self.old) }
    }
}

impl<'a> PatchPaths<'a> {
    fn update(&mut self, line: &'a [u8], in_hunk: bool) -> (used: bool)
        ensures
            used == is_path_line(line@, in_hunk),
            final(self)@ == updated_paths(old(self)@, line@, in_hunk),
    {
        if let Some(rest) = strip_prefix(line, "diff --git ") {
            let len: usize = rest.len();
            if let Some(i) = find(rest, " b/") {
                proof {
                    reveal_strlit(" b/");
                    vstd::utf8::is_ascii_chars_encode_utf8(" b/"@);
                }
                self.old = Some(strip_git_prefix(slice_subrange(rest, 0, i)));
                self.path = Some(strip_git_prefix(slice_subrange(rest, i + 1, len)));
            } else {
                self.old = None;
                self.path = Some(rest);
            }
        } else if let Some(value) = strip_prefix(line, "rename from ") {
            self.old = Some(value);
        } else if let Some(value) = strip_prefix(line, "copy from ") {
            self.old = Some(value);
        } else if let Some(value) = strip_prefix(line, "rename to ") {
            self.path = Some(value);
        } else if let Some(value) = strip_prefix(line, "copy to ") {
            self.path = Some(value);
        } else if in_hunk {
            return false;
        } else if let Some(value) = strip_prefix(line, "+++ ") {
            if !same_bytes(value, "/dev/null".as_bytes()) {
                self.path = Some(strip_git_prefix(value));
            }
        } else if let Some(value) = strip_prefix(line, "--- ") {
            if !same_bytes(value, "/dev/null".as_bytes()) {
                self.old = Some(strip_git_prefix(value));
            }
        } else {
            return false;
        }
        true
    }
}

// ---------------------------------------------------------------------------
// Hunk headers
// ---------------------------------------------------------------------------

pub open spec fn is_digit(b: u8) -> bool {
    0x30 <= b <= 0x39
}

/// The value of decimal digits, underscores between them ignored.
pub open spec fn digits_value(b: Seq<u8>) -> nat
    decreases b.len(),
{
    if b.len() == 0 {
        0
    } else if b.last() == 0x5f {
        digits_value(b.drop_last())
    } else {
        digits_value(b.drop_last()) * 10 + (b.last() - 0x30) as nat
    }
}

/// The digits of a number, without its sign.
pub open spec fn unsigned_part(b: Seq<u8>) -> Seq<u8> {
    if b.len() > 0 && (b[0] == 0x2b || b[0] == 0x2d) {
        b.skip(1)
    } else {
        b
    }
}

/// A number as hunk headers write it: an optional sign, digits, and single
/// underscores inside.  A negative number other than zero has no value, nor
/// has one that does not fit 32 bits.
pub open spec fn header_number(b: Seq<u8>) -> Option<u32> {
    let d = unsigned_part(b);
    if d.len() > 0 && d[0] != 0x5f && d.last() != 0x5f && (forall|k: int|
        0 <= k < d.len() ==> is_digit(#[trigger] d[k]) || d[k] == 0x5f) && digits_value(d)
        <= u32::MAX && (b[0] == 0x2d ==> digits_value(d) == 0) {
        Some(digits_value(d) as u32)
    } else {
        None
    }
}

proof fn lemma_digits_prefix(b: Seq<u8>, n: int)
    requires
        0 <= n <= b.len(),
        forall|k: int| 0 <= k < b.len() ==> is_digit(#[trigger] b[k]) || b[k] == 0x5f,
    ensures
        digits_value(b.take(n)) <= digits_value(b),
    decreases b.len() - n,
{
    if n < b.len() {
        lemma_digits_prefix(b, n + 1);
        let t = b.take(n + 1);
        assert(t.drop_last() =~= b.take(n));
        assert(is_digit(b[n]) || b[n] == 0x5f);
    } else {
        assert(b.take(n) =~= b);
    }
}

/// A number with a sign and underscores, as a hunk header has it.
pub fn parse_number(b: &[u8]) -> (r: Option<u32>)
    ensures
        r == header_number(b@),
{
    if b.len() == 0 {
        return None;
    }
    let signed: bool = b[0] == 0x2b || b[0] == 0x2d;
    let negative: bool = b[0] == 0x2d;
    let d: &[u8] = if signed {
        slice_subrange(b, 1, b.len())
    } else {
        b
    };
    assert(d@ =~= unsigned_part(b@));
    if d.len() == 0 || d[0] == 0x5f || d[d.len() - 1] == 0x5f {
        return None;
    }
    let mut value: u32 = 0;
    let mut i: usize = 0;
    while i < d.len()
        invariant
            i <= d@.len(),
            d@ == unsigned_part(b@),
            forall|k: int| 0 <= k < i ==> is_digit(#[trigger] d@[k]) || d@[k] == 0x5f,
            value == digits_value(d@.take(i as int)),
        decreases d@.len() - i,
    {
        let c: u8 = d[i];
        let ghost t = d@.take(i + 1);
        assert(t.drop_last() =~= d@.take(i as int));
        if c != 0x5f {
            if c < 0x30 || c > 0x39 {
                assert(!(is_digit(d@[i as int]) || d@[i as int] == 0x5f));
                return None;
            }
            let next: u64 = value as u64 * 10 + (c - 0x30) as u64;
            if next > 0xffff_ffff {
                proof {
                    if forall|k: int|
                        0 <= k < d@.len() ==> is_digit(#[trigger] d@[k]) || d@[k] == 0x5f {
                        lemma_digits_prefix(d@, i + 1);
                    }
                }
                return None;
            }
            value = next as u32;
        }
        i += 1;
    }
    assert(d@.take(i as int) =~= d@);
    if negative && value != 0 {
        None
    } else {
        Some(value)
    }
}

/// A start and a count, the count one where it is left out.
pub open spec fn header_range(part: Seq<u8>) -> Option<(u32, u32)> {
    let i = find_byte(part, 0x2c) as int;
    if i < part.len() {
        match (header_number(part.take(i)), header_number(part.skip(i + 1))) {
            (Some(start), Some(count)) => Some((start, count)),
            _ => None,
        }
    } else {
        match header_number(part) {
            Some(start) => Some((start, 1)),
            None => None,
        }
    }
}

fn parse_range(part: &[u8]) -> (r: Option<(u32, u32)>)
    ensures
        r == header_range(part@),
{
    let i: usize = index_of(part, 0, 0x2c);
    assert(part@.skip(0) =~= part@);
    if i < part.len() {
        let start = parse_number(slice_subrange(part, 0, i));
        let count = parse_number(slice_subrange(part, i + 1, part.len()));
        match start {
            Some(s) => match count {
                Some(c) => Some((s, c)),
                None => None,
            },
            None => None,
        }
    } else {
        match parse_number(part) {
            Some(s) => Some((s, 1)),
            None => None,
        }
    }
}

/// The four numbers of a hunk header: old start and count, new start and count.
pub open spec fn header_numbers(header: Seq<u8>) -> Option<(u32, u32, u32, u32)> {
    if header.len() < 3 {
        None
    } else {
        let first = 3 + find_byte(header.skip(3), 0x20) as int;
        if first >= header.len() {
            None
        } else {
            let second = first + 1 + find_byte(header.skip(first + 1), 0x20) as int;
            if second >= header.len() {
                None
            } else {
                let old = header.subrange(3, first);
                let new = header.subrange(first + 1, second);
                if old.len() == 0 || old[0] != 0x2d || new.len() == 0 || new[0] != 0x2b {
                    None
                } else {
                    match (header_range(old.skip(1)), header_range(new.skip(1))) {
                        (Some(o), Some(n)) => Some((o.0, o.1, n.0, n.1)),
                        _ => None,
                    }
                }
            }
        }
    }
}

fn parse_hunk_header(header: &[u8]) -> (r: Option<(u32, u32, u32, u32)>)
    ensures
        r == header_numbers(header@),
{
    if header.len() < 3 {
        return None;
    }
    let first: usize = index_of(header, 3, 0x20);
    if first >= header.len() {
        return None;
    }
    let second: usize = index_of(header, first + 1, 0x20);
    if second >= header.len() {
        return None;
    }
    let old = slice_subrange(header, 3, first);
    let new = slice_subrange(header, first + 1, second);
    if old.len() == 0 || old[0] != 0x2d || new.len() == 0 || new[0] != 0x2b {
        return None;
    }
    let o = parse_range(slice_subrange(old, 1, old.len()));
    let n = parse_range(slice_subrange(new, 1, new.len()));
    match o {
        Some((old_start, old_count)) => match n {
            Some((new_start, new_count)) => Some((old_start, old_count, new_start, new_count)),
            None => None,
        },
        None => None,
    }
}

// ---------------------------------------------------------------------------
// One file's patch
// ---------------------------------------------------------------------------

/// What the lines of a patch read so far amount to.
pub ghost struct PatchModel {
    pub paths: PathsModel,
    pub status: FileStatus,
    pub is_binary: bool,
    pub hunks: Seq<HunkModel>,
    pub old_line: u32,
    pub new_line: u32,
}

/// Before any line is read.
pub open spec fn empty_patch() -> PatchModel {
    PatchModel {
        paths: PathsModel { path: None, old: None },
        status: FileStatus::Modified,
        is_binary: false,
        hunks: seq![],
        old_line: 0,
        new_line: 0,
    }
}

/// The number after `n`; the largest number stays where it is.
pub open spec fn next_number(n: u32) -> u32 {
    if n == u32::MAX {
        n
    } else {
        (n + 1) as u32
    }
}

/// The kind of a line inside a hunk, by its first byte.
pub open spec fn kind_of(line: Seq<u8>) -> DiffLineKind {
    if line.len() > 0 && line[0] == 0x2b {
        DiffLineKind::Add
    } else if line.len() > 0 && line[0] == 0x2d {
        DiffLineKind::Delete
    } else if line.len() > 0 && line[0] == 0x5c {
        DiffLineKind::Meta
    } else {
        DiffLineKind::Context
    }
}

/// The content of a line inside a hunk, without its marker.
pub open spec fn content_of(line: Seq<u8>) -> Seq<u8> {
    if line.len() > 0 && (line[0] == 0x2b || line[0] == 0x2d || line[0] == 0x20) {
        line.skip(1)
    } else {
        line
    }
}

/// A number, or the word for none.
pub open spec fn optional_text(n: Option<u32>) -> Seq<char> {
    match n {
        Some(v) => decimal(v as nat),
        None => "null"@,
    }
}

/// The identity of a line: the file's path, the kind of line, its numbers and
/// its content.
pub open spec fn line_identity(
    path: Option<Seq<u8>>,
    kind: DiffLineKind,
    old_lineno: Option<u32>,
    new_lineno: Option<u32>,
    content: Seq<u8>,
) -> Seq<u8> {
    (match path {
        Some(p) => p,
        None => seq![],
    }) + encode_utf8(
        ":"@ + kind.label_text() + ":"@ + optional_text(old_lineno) + ":"@ + optional_text(
            new_lineno,
        ) + ":"@,
    ) + content
}

/// A line of a hunk, given the numbers that come next on either side.
pub open spec fn hunk_line(
    path: Option<Seq<u8>>,
    line: Seq<u8>,
    old_line: u32,
    new_line: u32,
) -> LineModel {
    let kind = kind_of(line);
    let old_lineno = if kind is Delete || kind is Context {
        Some(old_line)
    } else {
        None
    };
    let new_lineno = if kind is Add || kind is Context {
        Some(new_line)
    } else {
        None
    };
    LineModel {
        kind,
        old_lineno,
        new_lineno,
        text: lossy(content_of(line)),
        stable_line_id: short_id(
            "line_"@,
            line_identity(path, kind, old_lineno, new_lineno, content_of(line)),
        ),
    }
}

/// The status after a line, as far as renames and copies go.
pub open spec fn moved_status(status: FileStatus, line: Seq<u8>) -> FileStatus {
    if has_prefix(line, utf8("copy from ")) || has_prefix(line, utf8("copy to ")) {
        FileStatus::Copied
    } else if has_prefix(line, utf8("rename from ")) || has_prefix(line, utf8("rename to ")) {
        FileStatus::Renamed
    } else {
        status
    }
}

/// One more line of a patch; `None` where it is a malformed hunk header.
#[verifier::opaque]
pub open spec fn patch_step(m: PatchModel, line: Seq<u8>) -> Option<PatchModel> {
    let in_hunk = m.hunks.len() > 0;
    let status = moved_status(m.status, line);
    if is_path_line(line, in_hunk) {
        Some(PatchModel { paths: updated_paths(m.paths, line, in_hunk), status, ..m })
    } else if has_prefix(line, utf8("new file mode")) {
        Some(PatchModel { status: FileStatus::Added, ..m })
    } else if has_prefix(line, utf8("deleted file mode")) {
        Some(PatchModel { status: FileStatus::Deleted, ..m })
    } else if has_prefix(line, utf8("Binary files ")) || has_prefix(
        line,
        utf8("GIT binary patch"),
    ) {
        Some(PatchModel { status: FileStatus::Binary, is_binary: true, ..m })
    } else if has_prefix(line, utf8("@@ ")) {
        match header_numbers(line) {
            Some((old_start, old_count, new_start, new_count)) => Some(
                PatchModel {
                    hunks: m.hunks.push(
                        HunkModel {
                            header: lossy(line),
                            old_start,
                            old_count,
                            new_start,
                            new_count,
                            lines: seq![],
                        },
                    ),
                    old_line: old_start,
                    new_line: new_start,
                    ..m
                },
            ),
            None => None,
        }
    } else if in_hunk {
        let entry = hunk_line(m.paths.path, line, m.old_line, m.new_line);
        let last = m.hunks.last();
        Some(
            PatchModel {
                hunks: m.hunks.drop_last().push(
                    HunkModel { lines: last.lines.push(entry), ..last },
                ),
                old_line: if entry.old_lineno is Some {
                    next_number(m.old_line)
                } else {
                    m.old_line
                },
                new_line: if entry.new_lineno is Some {
                    next_number(m.new_line)
                } else {
                    m.new_line
                },
                ..m
            },
        )
    } else {
        Some(m)
    }
}

/// All lines of a patch, one after the other.
pub open spec fn patch_lines(b: Seq<u8>, m: PatchModel) -> Option<PatchModel>
    decreases b.len(),
{
    let n = find_byte(b, 0x0a) as int;
    match patch_step(m, trimmed_cr(b.take(n))) {
        None => None,
        Some(next) => if n >= b.len() {
            Some(next)
        } else {
            patch_lines(b.skip(n + 1), next)
        },
    }
}

/// The file that one section of a patch describes; `None` where a hunk header
/// is malformed.
#[verifier::opaque]
pub open spec fn parsed_file(patch: Seq<u8>, source: DiffSource) -> Option<FileModel> {
    match patch_lines(patch, empty_patch()) {
        None => None,
        Some(m) => {
            let path = match m.paths.path {
                Some(p) => lossy(p),
                None => lossy(utf8("(unknown)")),
            };
            Some(
                FileModel {
                    path,
                    old_path: match m.paths.old {
                        Some(p) => Some(lossy(p)),
                        None => None,
                    },
                    status: m.status,
                    source,
                    language: language_of(path),
                    is_binary: m.is_binary,
                    hunks: m.hunks,
                    patch_fingerprint: "sha256:"@ + hex(sha256(patch)),
                    patch_text: patch,
                },
            )
        },
    }
}

struct PatchState<'a> {
    paths: PatchPaths<'a>,
    status: FileStatus,
    is_binary: bool,
    hunks: Vec<DiffHunk>,
    old_line: u32,
    new_line: u32,
}

impl<'a> View for PatchState<'a> {
    type V = PatchModel;

    closed spec fn view(&self) -> PatchModel {
        PatchModel {
            paths: self.paths@,
            status: self.status,
            is_binary: self.is_binary,
            hunks: hunk_models(self.hunks@),
            old_line: self.old_line,
            new_line: self.new_line,
        }
    }
}

fn push_optional(out: &mut String, n: Option<u32>)
    ensures
        final(out)@ == old(out)@ + optional_text(n),
{
    match n {
        Some(v) => push_decimal(out, v as u64),
        None => out.append("null"),
    }
}

/// The line that the bytes of one hunk line stand for.
fn make_line(path: Option<&[u8]>, line: &[u8], old_line: u32, new_line: u32) -> (r: DiffLine)
    ensures
        r@ == hunk_line(opt_bytes(path), line@, old_line, new_line),
{
    let first: u8 = if line.len() > 0 {
        line[0]
    } else {
        0
    };
    let kind: DiffLineKind = if first == 0x2b {
        DiffLineKind::Add
    } else if first == 0x2d {
        DiffLineKind::Delete
    } else if first == 0x5c {
        DiffLineKind::Meta
    } else {
        DiffLineKind::Context
    };
    let content: &[u8] = if first == 0x2b || first == 0x2d || first == 0x20 {
        slice_subrange(line, 1, line.len())
    } else {
        line
    };
    let old_lineno: Option<u32> = match kind {
        DiffLineKind::Delete | DiffLineKind::Context => Some(old_line),
        _ => None,
    };
    let new_lineno: Option<u32> = match kind {
        DiffLineKind::Add | DiffLineKind::Context => Some(new_line),
        _ => None,
    };
    let mut middle = String::new();
    middle.append(":");
    middle.append(kind.label());
    middle.append(":");
    push_optional(&mut middle, old_lineno);
    middle.append(":");
    push_optional(&mut middle, new_lineno);
    middle.append(":");
    assert(middle@ =~= ":"@ + kind.label_text() + ":"@ + optional_text(old_lineno) + ":"@
        + optional_text(new_lineno) + ":"@);
    let mut identity: Vec<u8> = match path {
        Some(p) => copy_bytes(p),
        None => Vec::new(),
    };
    push_bytes(&mut identity, middle.as_str().as_bytes());
    push_bytes(&mut identity, content);
    assert(identity@ =~= line_identity(opt_bytes(path), kind, old_lineno, new_lineno, content@));
    DiffLine {
        kind,
        old_lineno,
        new_lineno,
        text: lossy_utf8(content),
        stable_line_id: make_id("line_", identity.as_slice()),
    }
}

fn step_number(n: u32) -> (r: u32)
    ensures
        r == next_number(n),
{
    if n == u32::MAX {
        n
    } else {
        n + 1
    }
}

impl<'a> PatchState<'a> {
    /// Read one more line.
    fn step(&mut self, line: &'a [u8]) -> (r: Result<(), Error>)
        ensures
            match r {
                Ok(_) => patch_step(old(self)@, line@) == Some(final(self)@),
                Err(e) => patch_step(old(self)@, line@) is None && e == Error::ParseFailed,
            },
    {
        proof {
            reveal(patch_step);
        }
        if starts_with(line, "copy from ") || starts_with(line, "copy to ") {
            self.status = FileStatus::Copied;
        } else if starts_with(line, "rename from ") || starts_with(line, "rename to ") {
            self.status = FileStatus::Renamed;
        }
        let in_hunk: bool = self.hunks.len() > 0;
        let ghost before = old(self)@;
        assert(hunk_models(self.hunks@) == before.hunks);
        if self.paths.update(line, in_hunk) {
            return Ok(());
        }
        if starts_with(line, "new file mode") {
            self.status = FileStatus::Added;
        } else if starts_with(line, "deleted file mode") {
            self.status = FileStatus::Deleted;
        } else if starts_with(line, "Binary files ") || starts_with(line, "GIT binary patch") {
            self.status = FileStatus::Binary;
            self.is_binary = true;
        } else if starts_with(line, "@@ ") {
            match parse_hunk_header(line) {
                Some((old_start, old_count, new_start, new_count)) => {
                    self.old_line = old_start;
                    self.new_line = new_start;
                    let hunk = DiffHunk {
                        header: lossy_utf8(line),
                        old_start,
                        old_count,
                        new_start,
                        new_count,
                        lines: Vec::new(),
                    };
                    assert(hunk@.lines =~= Seq::<LineModel>::empty());
                    self.hunks.push(hunk);
                    assert(hunk_models(self.hunks@) =~= before.hunks.push(hunk@));
                },
                None => {
                    return Err(Error::ParseFailed);
                },
            }
        } else if in_hunk {
            let entry = make_line(self.paths.path, line, self.old_line, self.new_line);
            if entry.old_lineno.is_some() {
                self.old_line = step_number(self.old_line);
            }
            if entry.new_lineno.is_some() {
                self.new_line = step_number(self.new_line);
            }
            let ghost hunks0 = self.hunks@;
            if let Some(mut hunk) = self.hunks.pop() {
                let ghost hunk0 = hunk@;
                let ghost entry_model = entry@;
                assert(hunk0 == before.hunks.last());
                hunk.lines.push(entry);
                assert(hunk@.lines =~= hunk0.lines.push(entry_model));
                self.hunks.push(hunk);
                assert(hunk_models(self.hunks@) =~= before.hunks.drop_last().push(hunk@));
            }
        }
        Ok(())
    }
}

/// Read one section of a patch.
fn parse_file_patch(patch: &[u8], source: DiffSource) -> (r: Result<DiffFile, Error>)
    ensures
        match r {
            Ok(file) => parsed_file(patch@, source) == Some(file@),
            Err(e) => parsed_file(patch@, source) is None && e == Error::ParseFailed,
        },
{
    proof {
        reveal(parsed_file);
    }
    let mut state = PatchState {
        paths: PatchPaths { path: None, old: None },
        status: FileStatus::Modified,
        is_binary: false,
        hunks: Vec::new(),
        old_line: 0,
        new_line: 0,
    };
    assert(state@.hunks =~= empty_patch().hunks);
    let mut pos: usize = 0;
    assert(patch@.skip(0) =~= patch@);
    loop
        invariant_except_break
            patch_lines(patch@, empty_patch()) == patch_lines(patch@.skip(pos as int), state@),
        invariant
            pos <= patch@.len(),
        ensures
            patch_lines(patch@, empty_patch()) == Some(state@),
        decreases patch@.len() - pos,
    {
        let end: usize = index_of(patch, pos, 0x0a);
        let raw = slice_subrange(patch, pos, end);
        let ghost b = patch@.skip(pos as int);
        assert(raw@ =~= b.take(end - pos));
        let line = trim_cr(raw);
        match state.step(line) {
            Ok(_) => {},
            Err(e) => {
                proof {
                    reveal(parsed_file);
                }
                return Err(e);
            },
        }
        if end >= patch.len() {
            break;
        }
        assert(b.skip(end - pos + 1) =~= patch@.skip(end + 1));
        pos = end + 1;
    }
    let path = match state.paths.path {
        Some(p) => lossy_utf8(p),
        None => lossy_utf8("(unknown)".as_bytes()),
    };
    let old_path = match state.paths.old {
        Some(p) => Some(lossy_utf8(p)),
        None => None,
    };
    let mut patch_fingerprint = String::new();
    patch_fingerprint.append("sha256:");
    let digest = hash_hex(patch);
    patch_fingerprint.append(digest.as_str());
    assert(patch_fingerprint@ =~= "sha256:"@ + hex(sha256(patch@)));
    let language = detect_language(path.as_str());
    Ok(
        DiffFile {
            path,
            old_path,
            status: state.status,
            source,
            language,
            is_binary: state.is_binary,
            hunks: state.hunks,
            patch_fingerprint,
            patch_text: copy_bytes(patch),
        },
    )
}

// ---------------------------------------------------------------------------
// Whole patches
// ---------------------------------------------------------------------------

/// Where the first file section of a patch starts: at its beginning, or at the
/// beginning of a later line.
pub open spec fn diff_start(b: Seq<u8>) -> Option<nat> {
    if has_prefix(b, utf8("diff --git ")) {
        Some(0)
    } else {
        match find_seq(b, utf8("\ndiff --git ")) {
            Some(n) => Some(n + 1),
            None => None,
        }
    }
}

/// Where the section at the start of `b` ends: where the next one starts.
pub open spec fn section_end(b: Seq<u8>) -> nat {
    match diff_start(b.skip(1)) {
        Some(i) => 1 + i,
        None => b.len(),
    }
}

/// A section without the line feeds at its end.
pub open spec fn trimmed_lf(b: Seq<u8>) -> Seq<u8>
    decreases b.len(),
{
    if b.len() > 0 && b.last() == 0x0a {
        trimmed_lf(b.drop_last())
    } else {
        b
    }
}

/// The file sections of a patch.
pub open spec fn sections(b: Seq<u8>) -> Seq<Seq<u8>>
    decreases b.len(),
{
    match diff_start(b) {
        None => seq![],
        Some(start) => if start >= b.len() {
            seq![]
        } else {
            let rest = b.skip(start as int);
            let end = section_end(rest);
            if end > rest.len() {
                seq![]
            } else {
                seq![trimmed_lf(rest.take(end as int))] + sections(rest.skip(end as int))
            }
        },
    }
}

fn find_diff_start(b: &[u8]) -> (r: Option<usize>)
    ensures
        match r {
            Some(i) => diff_start(b@) == Some(i as nat) && i < b@.len(),
            None => diff_start(b@) is None,
        },
{
    proof {
        reveal_strlit("diff --git ");
        vstd::utf8::is_ascii_chars_encode_utf8("diff --git "@);
        reveal_strlit("\ndiff --git ");
        vstd::utf8::is_ascii_chars_encode_utf8("\ndiff --git "@);
    }
    if starts_with(b, "diff --git ") {
        Some(0)
    } else {
        let len: usize = b.len();
        match find(b, "\ndiff --git ") {
            Some(n) => Some(n + 1),
            None => None,
        }
    }
}

fn trim_lf(b: &[u8]) -> (r: &[u8])
    ensures
        r@ == trimmed_lf(b@),
{
    let mut end: usize = b.len();
    assert(b@.take(end as int) =~= b@);
    while end > 0 && b[end - 1] == 0x0a
        invariant
            end <= b@.len(),
            trimmed_lf(b@.take(end as int)) == trimmed_lf(b@),
        decreases end,
    {
        assert(b@.take(end as int).drop_last() =~= b@.take(end - 1));
        end -= 1;
    }
    slice_subrange(b, 0, end)
}

/// The files that a patch describes, one per section.
pub open spec fn parsed_sections(parts: Seq<Seq<u8>>, source: DiffSource) -> Seq<
    Option<FileModel>,
> {
    parts.map_values(|p: Seq<u8>| parsed_file(p, source))
}

/// Read a patch: one file for each section, in order.  The patch is refused
/// where the hunk header of any section is malformed.
pub fn parse_patch(patch: &[u8], source: DiffSource) -> (r: Result<Vec<DiffFile>, Error>)
    ensures
        match r {
            Ok(files) => parsed_sections(sections(patch@), source) == file_models(
                files@,
            ).map_values(|f: FileModel| Some(f)),
            Err(e) => e == Error::ParseFailed && parsed_sections(
                sections(patch@),
                source,
            ).contains(None),
        },
{
    let mut files: Vec<DiffFile> = Vec::new();
    let mut pos: usize = 0;
    let ghost all = sections(patch@);
    assert(patch@.skip(0) =~= patch@);
    assert(all.skip(0) =~= all);
    while pos < patch.len()
        invariant
            pos <= patch@.len(),
            all == sections(patch@),
            files@.len() <= all.len(),
            sections(patch@.skip(pos as int)) == all.skip(files@.len() as int),
            forall|k: int|
                0 <= k < files@.len() ==> parsed_file(#[trigger] all[k], source) == Some(
                    files@[k]@,
                ),
        ensures
            files@.len() == all.len(),
        decreases patch@.len() - pos,
    {
        let ghost b = patch@.skip(pos as int);
        let tail = slice_subrange(patch, pos, patch.len());
        assert(tail@ =~= b);
        let start: usize = match find_diff_start(tail) {
            Some(n) => n,
            None => {
                break;
            },
        };
        let rest = slice_subrange(tail, start, tail.len());
        assert(rest@ =~= b.skip(start as int));
        let after_start = slice_subrange(rest, 1, rest.len());
        assert(after_start@ =~= rest@.skip(1));
        let end: usize = match find_diff_start(after_start) {
            Some(i) => 1 + i,
            None => rest.len(),
        };
        let section = trim_lf(slice_subrange(rest, 0, end));
        assert(rest@.subrange(0, end as int) =~= rest@.take(end as int));
        let ghost tail_sections = sections(rest@.skip(end as int));
        assert(sections(b) == seq![section@] + tail_sections);
        assert(all[files@.len() as int] == all.skip(files@.len() as int)[0]);
        match parse_file_patch(section, source) {
            Ok(file) => {
                files.push(file);
            },
            Err(e) => {
                proof {
                    let k = files@.len() as int;
                    assert(parsed_sections(all, source)[k] == None::<FileModel>);
                }
                return Err(e);
            },
        }
        assert(all.skip(files@.len() as int) =~= all.skip(files@.len() - 1).skip(1));
        assert((seq![section@] + tail_sections).skip(1) =~= tail_sections);
        assert(rest@.skip(end as int) =~= patch@.skip(pos + start + end));
        pos = pos + start + end;
    }
    assert(parsed_sections(all, source) =~= file_models(files@).map_values(
        |f: FileModel| Some(f),
    ));
    Ok(files)
}

// ---------------------------------------------------------------------------
// Languages
// ---------------------------------------------------------------------------

/// One past the last `c`, or zero where there is none.
pub open spec fn after_last(s: Seq<char>, c: char) -> nat
    decreases s.len(),
{
    if s.len() == 0 {
        0
    } else if s.last() == c {
        s.len()
    } else {
        after_last(s.drop_last(), c)
    }
}

fn find_last(s: &[char], end: usize, c: char) -> (r: usize)
    requires
        end <= s@.len(),
    ensures
        r == after_last(s@.take(end as int), c),
        r <= end,
{
    let mut i: usize = end;
    while i > 0 && s[i - 1] != c
        invariant
            i <= end <= s@.len(),
            after_last(s@.take(i as int), c) == after_last(s@.take(end as int), c),
        decreases i,
    {
        assert(s@.take(i as int).drop_last() =~= s@.take(i - 1));
        i -= 1;
    }
    i
}

/// The final component of a path.  Empty components and single dots do not
/// count; a path that ends in two dots has no file name.
pub open spec fn file_name(path: Seq<char>) -> Option<Seq<char>>
    decreases path.len(),
{
    let i = after_last(path, '/');
    let name = path.skip(i as int);
    if name.len() == 0 || name == seq!['.'] {
        if i == 0 || i > path.len() {
            None
        } else {
            file_name(path.take(i - 1))
        }
    } else if name == seq!['.', '.'] {
        None
    } else {
        Some(name)
    }
}

/// The part after the last dot, where something stands before that dot.
pub open spec fn extension(name: Seq<char>) -> Option<Seq<char>> {
    let i = after_last(name, '.');
    if i >= 2 {
        Some(name.skip(i as int))
    } else {
        None
    }
}

/// The language of files with the given extension.
pub open spec fn extension_language(ext: Seq<char>) -> Option<Seq<char>> {
    if ext == "zig"@ {
        Some("zig"@)
    } else if ext == "tsx"@ {
        Some("tsx"@)
    } else if ext == "ts"@ || ext == "mts"@ || ext == "cts"@ {
        Some("typescript"@)
    } else if ext == "js"@ || ext == "jsx"@ || ext == "mjs"@ || ext == "cjs"@ {
        Some("javascript"@)
    } else if ext == "py"@ || ext == "pyw"@ {
        Some("python"@)
    } else if ext == "go"@ {
        Some("go"@)
    } else if ext == "rs"@ {
        Some("rust"@)
    } else if ext == "c"@ || ext == "h"@ {
        Some("c"@)
    } else if ext == "cpp"@ || ext == "hpp"@ || ext == "cc"@ || ext == "cxx"@ || ext == "hxx"@ || ext == "hh"@ {
        Some("cpp"@)
    } else if ext == "java"@ {
        Some("java"@)
    } else if ext == "md"@ {
        Some("markdown"@)
    } else if ext == "json"@ {
        Some("json"@)
    } else if ext == "html"@ {
        Some("html"@)
    } else if ext == "gn"@ || ext == "gni"@ {
        Some("gn"@)
    } else if ext == "css"@ {
        Some("css"@)
    } else {
        None
    }
}

/// The language of a file, by its name.
pub open spec fn language_of(path: Seq<char>) -> Option<Seq<char>> {
    match file_name(path) {
        None => None,
        Some(name) => if name == "Makefile"@ {
            Some("make"@)
        } else if name == "Dockerfile"@ {
            Some("dockerfile"@)
        } else if name == "build.zig"@ {
            Some("zig"@)
        } else if name == ".gn"@ {
            Some("gn"@)
        } else {
            match extension(name) {
                Some(ext) => extension_language(ext),
                None => None,
            }
        },
    }
}

fn language_for_extension(ext: &str) -> (r: Option<&'static str>)
    ensures
        match r {
            Some(l) => extension_language(ext@) == Some(l@),
            None => extension_language(ext@) is None,
        },
{
    if same_text(ext, "zig") {
        Some("zig")
    } else if same_text(ext, "tsx") {
        Some("tsx")
    } else if same_text(ext, "ts") || same_text(ext, "mts") || same_text(ext, "cts") {
        Some("typescript")
    } else if same_text(ext, "js") || same_text(ext, "jsx") || same_text(ext, "mjs") || same_text(ext, "cjs") {
        Some("javascript")
    } else if same_text(ext, "py") || same_text(ext, "pyw") {
        Some("python")
    } else if same_text(ext, "go") {
        Some("go")
    } else if same_text(ext, "rs") {
        Some("rust")
    } else if same_text(ext, "c") || same_text(ext, "h") {
        Some("c")
    } else if same_text(ext, "cpp") || same_text(ext, "hpp") || same_text(ext, "cc") || same_text(ext, "cxx") || same_text(ext, "hxx") || same_text(ext, "hh") {
        Some("cpp")
    } else if same_text(ext, "java") {
        Some("java")
    } else if same_text(ext, "md") {
        Some("markdown")
    } else if same_text(ext, "json") {
        Some("json")
    } else if same_text(ext, "html") {
        Some("html")
    } else if same_text(ext, "gn") || same_text(ext, "gni") {
        Some("gn")
    } else if same_text(ext, "css") {
        Some("css")
    } else {
        None
    }
}

fn path_file_name(path: &[char]) -> (r: Option<Vec<char>>)
    ensures
        match r {
            Some(name) => file_name(path@) == Some(name@),
            None => file_name(path@) is None,
        },
{
    let mut end: usize = path.len();
    assert(path@.take(end as int) =~= path@);
    loop
        invariant
            end <= path@.len(),
            file_name(path@) == file_name(path@.take(end as int)),
        decreases end,
    {
        let i: usize = find_last(path, end, '/');
        let ghost name = path@.take(end as int).skip(i as int);
        assert(name =~= path@.subrange(i as int, end as int));
        let dot: bool = end - i == 1 && path[i] == '.';
        proof {
            if dot {
                assert(name =~= seq!['.']);
            } else {
                assert(name == seq!['.'] ==> name.len() == 1 && name[0] == '.');
            }
            if end - i == 2 && path@[i as int] == '.' && path@[i + 1] == '.' {
                assert(name =~= seq!['.', '.']);
            } else {
                assert(name == seq!['.', '.'] ==> name.len() == 2 && name[0] == '.' && name[1]
                    == '.');
            }
        }
        if i == end || dot {
            if i == 0 {
                return None;
            }
            assert(path@.take(end as int).take(i - 1) =~= path@.take(i - 1));
            end = i - 1;
        } else if end - i == 2 && path[i] == '.' && path[i + 1] == '.' {
            return None;
        } else {
            let part = slice_subrange(path, i, end);
            return Some(vstd::slice::slice_to_vec(part));
        }
    }
}

/// The language of a file, by its name.
pub fn detect_language(path: &str) -> (r: Option<String>)
    ensures
        opt_text(r) == language_of(path@),
{
    let chars = chars_of(path);
    let name = match path_file_name(chars.as_slice()) {
        Some(name) => name,
        None => {
            return None;
        },
    };
    let text = string_of(name.as_slice());
    let base = text.as_str();
    let language = if same_text(base, "Makefile") {
        Some("make")
    } else if same_text(base, "Dockerfile") {
        Some("dockerfile")
    } else if same_text(base, "build.zig") {
        Some("zig")
    } else if same_text(base, ".gn") {
        Some("gn")
    } else {
        let i: usize = find_last(name.as_slice(), name.len(), '.');
        assert(name@.take(name@.len() as int) =~= name@);
        if i >= 2 {
            let ext = string_of(slice_subrange(name.as_slice(), i, name.len()));
            assert(ext@ =~= name@.skip(i as int));
            language_for_extension(ext.as_str())
        } else {
            None
        }
    };
    match language {
        Some(l) => Some(l.to_owned()),
        None => None,
    }
}

// ---------------------------------------------------------------------------
// Raw paths
// ---------------------------------------------------------------------------

/// The paths that the first section of a patch names.
pub open spec fn first_section_paths(
    b: Seq<u8>,
    m: PathsModel,
    in_hunk: bool,
    seen_diff: bool,
) -> PathsModel
    decreases b.len(),
{
    let n = find_byte(b, 0x0a) as int;
    let line = trimmed_cr(b.take(n));
    let starts = has_prefix(line, utf8("diff --git "));
    if starts && seen_diff {
        m
    } else {
        let next = updated_paths(m, line, in_hunk);
        if n >= b.len() {
            next
        } else {
            first_section_paths(
                b.skip(n + 1),
                next,
                in_hunk || has_prefix(line, utf8("@@ ")),
                seen_diff || starts,
            )
        }
    }
}

/// The file's paths as bytes.  Names that decoded without loss are encoded
/// again; others are read from the first section of the patch.
pub open spec fn raw_paths(f: FileModel) -> (Seq<u8>, Option<Seq<u8>>) {
    let old = match f.old_path {
        Some(p) => Some(encode_utf8(p)),
        None => None,
    };
    if !f.path.contains('\u{fffd}') && (f.old_path matches Some(p) ==> !p.contains('\u{fffd}')) {
        (encode_utf8(f.path), old)
    } else {
        let m = first_section_paths(
            f.patch_text,
            PathsModel { path: None, old: None },
            false,
            false,
        );
        (
            match m.path {
                Some(p) => p,
                None => encode_utf8(f.path),
            },
            match m.old {
                Some(p) => Some(p),
                None => old,
            },
        )
    }
}

fn has_replacement(s: &str) -> (r: bool)
    ensures
        r == s@.contains('\u{fffd}'),
{
    let chars = chars_of(s);
    let mut i: usize = 0;
    while i < chars.len()
        invariant
            chars@ == s@,
            i <= chars@.len(),
            forall|k: int| 0 <= k < i ==> chars@[k] != '\u{fffd}',
        decreases chars@.len() - i,
    {
        if chars[i] == '\u{fffd}' {
            assert(s@[i as int] == '\u{fffd}');
            return true;
        }
        i += 1;
    }
    false
}

/// The bytes of an optional slice.
pub open spec fn slice_bytes(b: Option<&[u8]>) -> Option<Seq<u8>> {
    match b {
        Some(x) => Some(x@),
        None => None,
    }
}

/// The file's new and old path as bytes, even where the displayed strings are
/// lossy.
pub fn raw_file_paths(file: &DiffFile) -> (r: (&[u8], Option<&[u8]>))
    ensures
        (r.0@, slice_bytes(r.1)) == raw_paths(file@),
{
    let old: Option<&[u8]> = match &file.old_path {
        Some(p) => Some(p.as_str().as_bytes()),
        None => None,
    };
    let lossy_old: bool = match &file.old_path {
        Some(p) => has_replacement(p.as_str()),
        None => false,
    };
    if !has_replacement(file.path.as_str()) && !lossy_old {
        return (file.path.as_str().as_bytes(), old);
    }
    let patch = file.patch_text.as_slice();
    let mut paths = PatchPaths { path: None, old: None };
    let mut in_hunk: bool = false;
    let mut seen_diff: bool = false;
    let mut pos: usize = 0;
    let ghost whole = first_section_paths(
        patch@,
        PathsModel { path: None, old: None },
        false,
        false,
    );
    assert(patch@.skip(0) =~= patch@);
    loop
        invariant
            pos <= patch@.len(),
            whole == first_section_paths(patch@.skip(pos as int), paths@, in_hunk, seen_diff),
        ensures
            whole == paths@,
        decreases patch@.len() - pos,
    {
        let end: usize = index_of(patch, pos, 0x0a);
        let raw = slice_subrange(patch, pos, end);
        let ghost b = patch@.skip(pos as int);
        assert(raw@ =~= b.take(end - pos));
        let line = trim_cr(raw);
        let starts: bool = starts_with(line, "diff --git ");
        if starts && seen_diff {
            break;
        }
        let _used = paths.update(line, in_hunk);
        if end >= patch.len() {
            break;
        }
        seen_diff = seen_diff || starts;
        in_hunk = in_hunk || starts_with(line, "@@ ");
        assert(b.skip(end - pos + 1) =~= patch@.skip(end + 1));
        pos = end + 1;
    }
    (
        match paths.path {
            Some(p) => p,
            None => file.path.as_str().as_bytes(),
        },
        match paths.old {
            Some(p) => Some(p),
            None => old,
        },
    )
}

// ---------------------------------------------------------------------------
// Sections begin with their heading
// ---------------------------------------------------------------------------

proof fn lemma_heading_bytes()
    ensures
        utf8("diff --git ").len() == 11,
        utf8("diff --git ")[0] == 0x64,
        utf8("diff --git ").last() == 0x20,
        forall|k: int|
            0 <= k < 11 ==> (#[trigger] utf8("diff --git ")[k]) != 0x0a && utf8("diff --git ")[k]
                != 0x0d,
        utf8("diff --git ")[1] == 0x69,
        utf8("\ndiff --git ") == seq![0x0au8] + utf8("diff --git "),
{
    reveal_strlit("diff --git ");
    vstd::utf8::is_ascii_chars_encode_utf8("diff --git "@);
    reveal_strlit("\ndiff --git ");
    vstd::utf8::is_ascii_chars_encode_utf8("\ndiff --git "@);
    let a = "diff --git "@;
    let b = "\ndiff --git "@;
    let p = utf8("diff --git ");
    let q = utf8("\ndiff --git ");
    assert(a.len() == 11 && b.len() == 12);
    assert(p[0] == a[0] as u8 && p[1] == a[1] as u8 && p[2] == a[2] as u8 && p[3] == a[3] as u8
        && p[4] == a[4] as u8 && p[5] == a[5] as u8 && p[6] == a[6] as u8 && p[7] == a[7] as u8
        && p[8] == a[8] as u8 && p[9] == a[9] as u8 && p[10] == a[10] as u8);
    assert forall|k: int| 0 <= k < 12 implies q[k] == (seq![0x0au8] + p)[k] by {
        assert(q[k] == b[k] as u8);
        if k > 0 {
            assert(p[k - 1] == a[k - 1] as u8);
            assert(a[k - 1] == b[k]);
        }
    }
    assert(q =~= seq![0x0au8] + p);
}

pub proof fn lemma_find_seq_hit(b: Seq<u8>, needle: Seq<u8>)
    ensures
        find_seq(b, needle) matches Some(n) ==> n <= b.len() && has_prefix(
            b.skip(n as int),
            needle,
        ),
    decreases b.len(),
{
    if has_prefix(b, needle) {
        assert(b.skip(0) =~= b);
    } else if b.len() > 0 {
        lemma_find_seq_hit(b.skip(1), needle);
        if let Some(n) = find_seq(b.skip(1), needle) {
            assert(b.skip(1).skip(n as int) =~= b.skip(n as int + 1));
        }
    }
}

/// Trimming bytes at the end leaves a prefix that does not end in one.
proof fn lemma_trimmed_lf_prefix(s: Seq<u8>, p: Seq<u8>)
    requires
        has_prefix(s, p),
        p.len() > 0,
        p.last() != 0x0a,
    ensures
        has_prefix(trimmed_lf(s), p),
    decreases s.len(),
{
    if s.last() == 0x0a {
        if s.len() == p.len() {
            assert(s =~= s.take(p.len() as int));
        } else {
            assert(s.drop_last().take(p.len() as int) =~= s.take(p.len() as int));
            lemma_trimmed_lf_prefix(s.drop_last(), p);
        }
    }
}

proof fn lemma_trimmed_cr_prefix(s: Seq<u8>, p: Seq<u8>)
    requires
        has_prefix(s, p),
        p.len() > 0,
        p.last() != 0x0d,
    ensures
        has_prefix(trimmed_cr(s), p),
    decreases s.len(),
{
    if s.last() == 0x0d {
        if s.len() == p.len() {
            assert(s =~= s.take(p.len() as int));
        } else {
            assert(s.drop_last().take(p.len() as int) =~= s.take(p.len() as int));
            lemma_trimmed_cr_prefix(s.drop_last(), p);
        }
    }
}

/// A section begins with its heading.
pub proof fn lemma_sections_begin(b: Seq<u8>, k: int)
    requires
        0 <= k < sections(b).len(),
    ensures
        has_prefix(sections(b)[k], utf8("diff --git ")),
    decreases b.len(),
{
    lemma_heading_bytes();
    let p = utf8("diff --git ");
    let q = utf8("\ndiff --git ");
    let start = diff_start(b)->0;
    let rest = b.skip(start as int);
    let end = section_end(rest);
    if k > 0 {
        lemma_sections_begin(rest.skip(end as int), k - 1);
    } else {
        assert(has_prefix(rest, p)) by {
            if has_prefix(b, p) {
                assert(rest =~= b);
            } else {
                lemma_find_seq_hit(b, q);
                let t = b.skip(start - 1);
                assert(t.take(12) =~= q);
                assert(rest.take(11) =~= t.take(12).skip(1));
                assert(q.skip(1) =~= p);
            }
        }
        assert(rest.take(11) == p);
        assert(end >= 11) by {
            let t = rest.skip(1);
            if has_prefix(t, p) {
                assert(t[0] == t.take(11)[0]);
                assert(rest[1] == rest.take(11)[1]);
                assert(false);
            }
            lemma_find_seq_hit(t, q);
            if let Some(n) = find_seq(t, q) {
                assert(t.skip(n as int).take(12)[0] == q[0]);
                assert(rest[n as int + 1] == 0x0a);
                if n + 1 < 11 {
                    assert(rest.take(11)[n as int + 1] == p[n as int + 1]);
                }
            }
        }
        let part = rest.take(end as int);
        assert(part.take(11) =~= rest.take(11));
        lemma_trimmed_lf_prefix(part, p);
    }
}

/// Whether the first line of a text is the heading of a section.
pub open spec fn begins_section(b: Seq<u8>) -> bool {
    has_prefix(trimmed_cr(b.take(find_byte(b, 0x0a) as int)), utf8("diff --git "))
}

pub proof fn lemma_begins_section(b: Seq<u8>)
    requires
        has_prefix(b, utf8("diff --git ")),
    ensures
        begins_section(b),
{
    lemma_heading_bytes();
    crate::util::lemma_find_byte(b, 0x0a);
    let p = utf8("diff --git ");
    let n = find_byte(b, 0x0a) as int;
    if n < 11 {
        assert(b.take(11)[n] == p[n]);
    }
    let line = b.take(n);
    assert(line.take(11) =~= b.take(11));
    lemma_trimmed_cr_prefix(line, p);
}

/// What stands behind a section does not change the paths that it names.
proof fn lemma_paths_of_first(
    a: Seq<u8>,
    b: Seq<u8>,
    m: PathsModel,
    in_hunk: bool,
    seen_diff: bool,
)
    requires
        begins_section(b),
        seen_diff || begins_section(a),
    ensures
        first_section_paths(a.push(0x0a) + b, m, in_hunk, seen_diff) == first_section_paths(
            a,
            m,
            in_hunk,
            seen_diff,
        ),
    decreases a.len(),
{
    let s = a.push(0x0a) + b;
    crate::util::lemma_find_byte(a, 0x0a);
    crate::util::lemma_find_byte(s, 0x0a);
    let n = find_byte(a, 0x0a) as int;
    let k = find_byte(s, 0x0a) as int;
    assert(k == n) by {
        if n < a.len() {
            assert(s[n] == 0x0a);
            if k < n {
                assert(a[k] == s[k]);
            }
        } else {
            assert(s[a.len() as int] == 0x0a);
            if k < n {
                assert(a[k] == s[k]);
            }
        }
    }
    assert(s.take(n) =~= a.take(n));
    let line = trimmed_cr(a.take(n));
    let starts = has_prefix(line, utf8("diff --git "));
    if !(starts && seen_diff) {
        let next = updated_paths(m, line, in_hunk);
        let hunk = in_hunk || has_prefix(line, utf8("@@ "));
        if n < a.len() {
            assert(s.skip(n + 1) =~= a.skip(n + 1).push(0x0a) + b);
            lemma_paths_of_first(a.skip(n + 1), b, next, hunk, seen_diff || starts);
        } else {
            assert(s.skip(n + 1) =~= b);
            assert(seen_diff || starts);
            assert(first_section_paths(b, next, hunk, true) == next);
            assert(n < s.len());
            assert(first_section_paths(s, m, in_hunk, seen_diff) == first_section_paths(
                s.skip(n + 1),
                next,
                hunk,
                true,
            ));
        }
    }
}

/// A file to which another patch is joined keeps its paths.
pub proof fn lemma_joined_paths(f: FileModel, g: FileModel)
    requires
        begins_section(f.patch_text),
        begins_section(g.patch_text),
    ensures
        forall|h: FileModel|
            #![trigger raw_paths(h)]
            h.path == f.path && h.old_path == f.old_path && h.patch_text == f.patch_text.push(0x0a)
                + g.patch_text ==> raw_paths(h) == raw_paths(f),
{
    lemma_paths_of_first(
        f.patch_text,
        g.patch_text,
        PathsModel { path: None, old: None },
        false,
        false,
    );
}

/// A file that has been read from a section keeps the section's bytes as they
/// are, and its fingerprint is the digest of those bytes.
pub proof fn law_patch_is_kept(section: Seq<u8>, source: DiffSource)
    ensures
        parsed_file(section, source) matches Some(f) ==> f.patch_text == section
            && f.patch_fingerprint == "sha256:"@ + hex(sha256(section)),
{
    reveal(parsed_file);
}

} // verus!

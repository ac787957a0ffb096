//! What is asked of Git, and what its answers amount to.
use vstd::prelude::*;
use vstd::utf8::encode_utf8;
use crate::Error;
use crate::diff::{
    begins_section, file_models, hunk_models, lemma_begins_section, law_patch_is_kept, lemma_joined_paths,
    lemma_sections_begin, make_id, parse_patch, parsed_file, parsed_sections, raw_file_paths, raw_paths,
    sections, short_id, trim_cr, trimmed_cr, DiffFile, DiffSnapshot, DiffSource, FileModel,
    Repository, ReviewTarget, ReviewTargetKind,
};
use crate::util::{
    chars_of, contains_text, copy_bytes, decimal, decimal_text, find_byte, find_seq, has_prefix,
    hash_hex, hex, index_of, lemma_find_byte, lossy, lossy_utf8, push_bytes, push_text, same_bytes,
    same_text, sha256, string_of, text_contains, text_starts_with, texts, utf8,
};

verus! {

/// The most bytes of a diff that are read.
pub const MAX_DIFF_BYTES: usize = 209_715_200;

/// The most bytes of error output that are read.
pub const MAX_STDERR_BYTES: usize = 20_971_520;

/// The most bytes of an untracked file that are shown.
pub const MAX_UNTRACKED_BYTES: usize = 20_971_520;

/// The most bytes of a source file that are read.
pub const MAX_SOURCE_BYTES: usize = 4_194_304;

/// A side of a diff.
#[derive(Clone, Copy, Debug, PartialEq, Eq, Hash, Structural)]
pub enum FileSide {
    Old,
    New,
}

// ---------------------------------------------------------------------------
// Reading
// ---------------------------------------------------------------------------

/// The bytes of a stream as far as they are wanted: as many as allowed and one
/// more, by which a stream that is too long is known.
pub struct BoundedBuffer {
    pub bytes: Vec<u8>,
    pub limit: usize,
}

/// What is kept of a stream.
pub open spec fn bounded(source: Seq<u8>, limit: nat) -> Seq<u8> {
    if source.len() <= limit + 1 {
        source
    } else {
        source.take(limit as int + 1)
    }
}

impl BoundedBuffer {
    pub open spec fn wf(&self) -> bool {
        self.limit < usize::MAX && self.bytes@.len() <= self.limit + 1
    }

    pub fn new(limit: usize) -> (r: BoundedBuffer)
        requires
            limit < usize::MAX,
        ensures
            r.wf(),
            r.limit == limit,
            r.bytes@ == bounded(seq![], limit as nat),
    {
        let r = BoundedBuffer { bytes: Vec::new(), limit };
        assert(r.bytes@ =~= Seq::<u8>::empty());
        r
    }

    /// How many more bytes are wanted.
    pub fn room(&self) -> (n: usize)
        requires
            self.wf(),
        ensures
            n == self.limit + 1 - self.bytes@.len(),
    {
        self.limit + 1 - self.bytes.len()
    }

    /// Takes a part of the stream.
    pub fn feed(&mut self, part: &[u8])
        requires
            old(self).wf(),
        ensures
            final(self).wf(),
            final(self).limit == old(self).limit,
            final(self).bytes@ == bounded(old(self).bytes@ + part@, old(self).limit as nat),
    {
        let room: usize = self.room();
        let ghost before = self.bytes@;
        if part.len() <= room {
            push_bytes(&mut self.bytes, part);
            assert(before + part@ =~= bounded(before + part@, self.limit as nat));
        } else {
            push_bytes(&mut self.bytes, vstd::slice::slice_subrange(part, 0, room));
            assert(self.bytes@ =~= (before + part@).take(self.limit + 1));
        }
    }

    /// Whether the stream is longer than allowed.
    pub fn is_oversize(&self) -> (r: bool)
        ensures
            r == (self.bytes@.len() > self.limit),
    {
        self.bytes.len() > self.limit
    }
}

/// Parts of a stream taken one after the other are kept as the whole would be.
pub proof fn law_parts_are_bounded(a: Seq<u8>, b: Seq<u8>, limit: nat)
    ensures
        bounded(bounded(a, limit) + b, limit) == bounded(a + b, limit),
{
    if a.len() > limit + 1 {
        let head = a.take(limit as int + 1);
        assert((head + b).take(limit as int + 1) =~= (a + b).take(limit as int + 1));
        assert(bounded(head + b, limit) =~= bounded(a + b, limit));
    }
}

/// What is kept of a source that is there at once.
pub fn read_bounded(source: &[u8], limit: usize) -> (r: Vec<u8>)
    requires
        limit < usize::MAX,
    ensures
        r@ == bounded(source@, limit as nat),
{
    let mut buffer = BoundedBuffer::new(limit);
    buffer.feed(source);
    assert(Seq::<u8>::empty() + source@ =~= source@);
    buffer.bytes
}

/// What one of the pipes of a command came to; `read` is `None` where it could
/// not be read.
pub fn pipe_error(read: Option<usize>, limit: usize) -> (r: Option<Error>)
    ensures
        r == match read {
            Some(n) => if n > limit {
                Some(Error::DiffTooLarge)
            } else {
                None
            },
            None => Some(Error::GitCommandFailed),
        },
{
    match read {
        Some(n) => if n > limit {
            Some(Error::DiffTooLarge)
        } else {
            None
        },
        None => Some(Error::GitCommandFailed),
    }
}

/// What a command came to: the first failure of its pipes, or a status that is
/// not known or not success.
pub fn command_result(failure: Option<Error>, success: Option<bool>) -> (r: Result<(), Error>)
    ensures
        r == match failure {
            Some(e) => Err(e),
            None => if success == Some(true) {
                Ok(())
            } else {
                Err(Error::GitCommandFailed)
            },
        },
{
    match failure {
        Some(e) => Err(e),
        None => match success {
            Some(true) => Ok(()),
            _ => Err(Error::GitCommandFailed),
        },
    }
}

// ---------------------------------------------------------------------------
// The repository
// ---------------------------------------------------------------------------

pub open spec fn is_line_end(b: u8) -> bool {
    b == 0x0d || b == 0x0a
}

/// Bytes without line ends at the start.
pub open spec fn without_leading(b: Seq<u8>) -> Seq<u8>
    decreases b.len(),
{
    if b.len() > 0 && is_line_end(b[0]) {
        without_leading(b.skip(1))
    } else {
        b
    }
}

/// Bytes without line ends at the end.
pub open spec fn without_trailing(b: Seq<u8>) -> Seq<u8>
    decreases b.len(),
{
    if b.len() > 0 && is_line_end(b.last()) {
        without_trailing(b.drop_last())
    } else {
        b
    }
}

/// Bytes without line ends at either end.
pub open spec fn trimmed(b: Seq<u8>) -> Seq<u8> {
    without_trailing(without_leading(b))
}

pub fn trim_newlines(bytes: &[u8]) -> (r: &[u8])
    ensures
        r@ == trimmed(bytes@),
{
    let len: usize = bytes.len();
    let mut start: usize = 0;
    assert(bytes@.skip(0) =~= bytes@);
    while start < len && (bytes[start] == 0x0d || bytes[start] == 0x0a)
        invariant
            len == bytes@.len(),
            start <= len,
            without_leading(bytes@) == without_leading(bytes@.skip(start as int)),
        decreases len - start,
    {
        assert(bytes@.skip(start as int).skip(1) =~= bytes@.skip(start + 1));
        start += 1;
    }
    let ghost rest = bytes@.skip(start as int);
    assert(without_leading(bytes@) == rest);
    let mut end: usize = len;
    assert(bytes@.subrange(start as int, end as int) =~= rest);
    while end > start && (bytes[end - 1] == 0x0d || bytes[end - 1] == 0x0a)
        invariant
            len == bytes@.len(),
            start <= end <= len,
            without_trailing(rest) == without_trailing(bytes@.subrange(start as int, end as int)),
        decreases end,
    {
        assert(bytes@.subrange(start as int, end as int).drop_last() =~= bytes@.subrange(
            start as int,
            end - 1,
        ));
        end -= 1;
    }
    vstd::slice::slice_subrange(bytes, start, end)
}

/// What a failure to find the repository counts as.
pub fn discovery_error(error: Error) -> (r: Error)
    ensures
        r == match error {
            Error::Interrupted(_) => error,
            _ => Error::NotGitRepository,
        },
{
    match error {
        Error::Interrupted(n) => Error::Interrupted(n),
        _ => Error::NotGitRepository,
    }
}

/// The root of the repository that Git names.
pub fn repository_root(output: &[u8]) -> (r: Result<Vec<u8>, Error>)
    ensures
        match r {
            Ok(root) => root@ == trimmed(output@) && root@.len() > 0,
            Err(e) => e == Error::NotGitRepository && trimmed(output@).len() == 0,
        },
{
    let root = trim_newlines(output);
    if root.len() == 0 {
        return Err(Error::NotGitRepository);
    }
    Ok(copy_bytes(root))
}

/// A repository, given its root, the branch that Git names, and the root
/// without symbolic links.  Without a commit there is no branch to name, and
/// `HEAD` stands for it.
pub fn describe_repository(root: Vec<u8>, branch: Result<Vec<u8>, Error>, real_root: &[u8]) -> (r:
    Result<Repository, Error>)
    ensures
        match (branch, r) {
            (Ok(b), Ok(repo)) => repo.root_path == root && repo.repo_id@ == short_id(
                "repo_"@,
                real_root@,
            ) && repo.current_branch@ == lossy(trimmed(b@)),
            (Err(Error::GitCommandFailed), Ok(repo)) => repo.root_path == root && repo.repo_id@
                == short_id("repo_"@, real_root@) && repo.current_branch@ == "HEAD"@,
            (Err(e), Err(f)) => e == f && e != Error::GitCommandFailed,
            _ => false,
        },
{
    let current_branch = match branch {
        Ok(b) => lossy_utf8(trim_newlines(b.as_slice())),
        Err(Error::GitCommandFailed) => "HEAD".to_string(),
        Err(e) => {
            return Err(e);
        },
    };
    Ok(Repository { root_path: root, repo_id: make_id("repo_", real_root), current_branch })
}

// ---------------------------------------------------------------------------
// Asking for diffs
// ---------------------------------------------------------------------------

/// What every diff is asked for with.
pub open spec fn base_arguments() -> Seq<Seq<char>> {
    seq![
        "diff"@,
        "--patch"@,
        "--find-renames"@,
        "--no-ext-diff"@,
        "--no-color"@,
        "--unified=1000000"@,
    ]
}

pub open spec fn is_color_option(arg: Seq<char>) -> bool {
    arg == "--color"@ || has_prefix(arg, "--color="@)
}

/// Arguments without options for colours; what stands behind `--` is a path.
pub open spec fn without_colors(args: Seq<Seq<char>>) -> Seq<Seq<char>>
    decreases args.len(),
{
    if args.len() == 0 || args[0] == "--"@ {
        args
    } else {
        (if is_color_option(args[0]) {
            seq![]
        } else {
            seq![args[0]]
        }) + without_colors(args.skip(1))
    }
}

/// The arguments of the command that gives a diff.
pub open spec fn diff_command(raw: Seq<Seq<char>>, cached: bool) -> Seq<Seq<char>> {
    base_arguments() + (if cached {
        seq!["--cached"@]
    } else {
        seq![]
    }) + without_colors(raw)
}

/// From a `--` on, the caller's arguments are paths: they end the command, each
/// as it was given, even one that looks like an option.
pub proof fn law_paths_are_kept(raw: Seq<Seq<char>>, cached: bool, i: int)
    requires
        0 <= i < raw.len(),
        raw[i] == "--"@,
    ensures
        diff_command(raw, cached).len() >= raw.len() - i,
        diff_command(raw, cached).skip(diff_command(raw, cached).len() - (raw.len() - i)) == raw.skip(
            i,
        ),
{
    let w = without_colors(raw);
    let d = diff_command(raw, cached);
    lemma_paths_are_kept(raw, i);
    let n = raw.len() - i;
    assert(d.skip(d.len() - n) =~= w.skip(w.len() - n));
}

proof fn lemma_paths_are_kept(raw: Seq<Seq<char>>, i: int)
    requires
        0 <= i < raw.len(),
        raw[i] == "--"@,
    ensures
        without_colors(raw).len() >= raw.len() - i,
        without_colors(raw).skip(without_colors(raw).len() - (raw.len() - i)) == raw.skip(i),
    decreases raw.len(),
{
    if raw[0] != "--"@ {
        let rest = raw.skip(1);
        lemma_paths_are_kept(rest, i - 1);
        let w = without_colors(rest);
        let n = raw.len() - i;
        assert(without_colors(raw).skip(without_colors(raw).len() - n) =~= w.skip(w.len() - n));
        assert(rest.skip(i - 1) =~= raw.skip(i));
    }
}

/// The arguments for a diff.  Nothing is put behind the caller's arguments,
/// which may end in paths.
pub fn diff_arguments(raw_args: &[String], cached: bool) -> (r: Vec<String>)
    ensures
        texts(r@) == diff_command(texts(raw_args@), cached),
{
    let ghost raw = texts(raw_args@);
    let mut args: Vec<String> = Vec::new();
    args.push("diff".to_string());
    args.push("--patch".to_string());
    args.push("--find-renames".to_string());
    args.push("--no-ext-diff".to_string());
    args.push("--no-color".to_string());
    args.push("--unified=1000000".to_string());
    if cached {
        args.push("--cached".to_string());
    }
    let ghost head = base_arguments() + (if cached {
        seq!["--cached"@]
    } else {
        seq![]
    });
    assert(texts(args@) =~= head);
    let mut before_paths = true;
    let mut i: usize = 0;
    assert(raw.skip(0) =~= raw);
    while i < raw_args.len()
        invariant
            i <= raw_args@.len(),
            raw == texts(raw_args@),
            before_paths ==> head + without_colors(raw) == texts(args@) + without_colors(
                raw.skip(i as int),
            ),
            !before_paths ==> head + without_colors(raw) == texts(args@) + raw.skip(i as int),
        decreases raw_args@.len() - i,
    {
        let ghost rest = raw.skip(i as int);
        let ghost before = texts(args@);
        let arg = raw_args[i].as_str();
        assert(rest[0] == arg@);
        assert(rest.skip(1) =~= raw.skip(i + 1));
        if same_text(arg, "--") {
            before_paths = false;
        }
        if before_paths && (same_text(arg, "--color") || text_starts_with(arg, "--color=")) {
            assert(before + (Seq::<Seq<char>>::empty() + without_colors(rest.skip(1))) =~= before
                + without_colors(rest.skip(1)));
        } else {
            let copy = raw_args[i].clone();
            args.push(copy);
            assert(texts(args@) =~= before.push(arg@));
            if before_paths {
                assert(before + (seq![arg@] + without_colors(rest.skip(1))) =~= texts(args@)
                    + without_colors(rest.skip(1)));
            } else {
                assert(before + rest =~= texts(args@) + rest.skip(1));
            }
        }
        i += 1;
    }
    assert(raw.skip(i as int) =~= Seq::<Seq<char>>::empty());
    assert(texts(args@) + Seq::<Seq<char>>::empty() =~= texts(args@));
    args
}

// ---------------------------------------------------------------------------
// Files of a snapshot
// ---------------------------------------------------------------------------

/// A file that two patches change: the description of the first, and the text
/// and hunks of both.
pub open spec fn joined_file(a: FileModel, b: FileModel) -> FileModel {
    let text = a.patch_text.push(0x0a) + b.patch_text;
    FileModel {
        patch_text: text,
        patch_fingerprint: "sha256:"@ + hex(sha256(text)),
        hunks: a.hunks + b.hunks,
        source: if a.source != b.source {
            DiffSource::Explicit
        } else {
            a.source
        },
        ..a
    }
}

/// The first file from `i` on with the same path.
pub open spec fn same_path(files: Seq<FileModel>, f: FileModel, i: int) -> Option<int>
    decreases files.len() - i,
{
    if i < 0 || i >= files.len() {
        None
    } else if raw_paths(files[i]).0 == raw_paths(f).0 {
        Some(i)
    } else {
        same_path(files, f, i + 1)
    }
}

/// Files with one more: joined to the one with the same path, or behind them.
pub open spec fn merged(files: Seq<FileModel>, f: FileModel) -> Seq<FileModel> {
    match same_path(files, f, 0) {
        Some(i) => files.update(i, joined_file(files[i], f)),
        None => files.push(f),
    }
}

/// Files with the first `n` of some more.
pub open spec fn merged_all(files: Seq<FileModel>, more: Seq<FileModel>, n: int) -> Seq<FileModel>
    decreases n,
{
    if n <= 0 {
        files
    } else {
        merged(merged_all(files, more, n - 1), more[n - 1])
    }
}

/// The files of a patch, where it can be read.
pub open spec fn patch_files(patch: Seq<u8>, source: DiffSource) -> Option<Seq<FileModel>> {
    let all = parsed_sections(sections(patch), source);
    if all.contains(None) {
        None
    } else {
        Some(all.map_values(|f: Option<FileModel>| f->0))
    }
}

/// Files with those of a patch, where it can be read.
pub open spec fn with_patch(files: Seq<FileModel>, patch: Seq<u8>, source: DiffSource) -> Option<
    Seq<FileModel>,
> {
    match patch_files(patch, source) {
        Some(more) => Some(merged_all(files, more, more.len() as int)),
        None => None,
    }
}

proof fn lemma_same_path(files: Seq<FileModel>, f: FileModel, i: int)
    requires
        0 <= i <= files.len(),
    ensures
        match same_path(files, f, i) {
            Some(k) => i <= k < files.len() && raw_paths(files[k]).0 == raw_paths(f).0,
            None => forall|k: int|
                i <= k < files.len() ==> raw_paths(#[trigger] files[k]).0 != raw_paths(f).0,
        },
    decreases files.len() - i,
{
    if i < files.len() && raw_paths(files[i]).0 != raw_paths(f).0 {
        lemma_same_path(files, f, i + 1);
    }
}

fn find_same_path(files: &Vec<DiffFile>, incoming: &DiffFile) -> (r: Option<usize>)
    ensures
        match r {
            Some(i) => same_path(file_models(files@), incoming@, 0) == Some(i as int) && i
                < files@.len(),
            None => same_path(file_models(files@), incoming@, 0) is None,
        },
{
    let ghost models = file_models(files@);
    let path = raw_file_paths(incoming).0;
    let mut i: usize = 0;
    while i < files.len()
        invariant
            models == file_models(files@),
            path@ == raw_paths(incoming@).0,
            i <= files@.len(),
            same_path(models, incoming@, 0) == same_path(models, incoming@, i as int),
        decreases files@.len() - i,
    {
        assert(models[i as int] == files@[i as int]@);
        if same_bytes(raw_file_paths(&files[i]).0, path) {
            return Some(i);
        }
        i += 1;
    }
    None
}

/// Adds a file, or joins it to the one with the same path.
pub fn merge_or_append_file(files: &mut Vec<DiffFile>, incoming: DiffFile)
    ensures
        file_models(final(files)@) == merged(file_models(old(files)@), incoming@),
{
    let ghost before = files@;
    match find_same_path(files, &incoming) {
        Some(i) => {
            let mut existing = files.remove(i);
            let ghost first = existing@;
            existing.patch_text.push(0x0a);
            push_bytes(&mut existing.patch_text, incoming.patch_text.as_slice());
            let mut fingerprint = String::new();
            push_text(&mut fingerprint, "sha256:");
            let digest = hash_hex(existing.patch_text.as_slice());
            push_text(&mut fingerprint, digest.as_str());
            assert(fingerprint@ =~= "sha256:"@ + hex(sha256(existing.patch_text@)));
            existing.patch_fingerprint = fingerprint;
            if existing.source != incoming.source {
                existing.source = DiffSource::Explicit;
            }
            let ghost added = incoming@;
            let mut hunks = incoming.hunks;
            let ghost own = existing.hunks@;
            existing.hunks.append(&mut hunks);
            proof {
                assert(hunk_models(existing.hunks@) =~= first.hunks + added.hunks);
                assert(existing@ == joined_file(first, added));
            }
            files.insert(i, existing);
            assert(file_models(files@) =~= file_models(before).update(i as int, existing@));
        },
        None => {
            files.push(incoming);
            assert(file_models(files@) =~= file_models(before).push(incoming@));
        },
    }
}

/// Adds the files of a patch.
pub fn append_patch(files: &mut Vec<DiffFile>, patch: &[u8], source: DiffSource) -> (r: Result<
    (),
    Error,
>)
    ensures
        match r {
            Ok(()) => with_patch(file_models(old(files)@), patch@, source) == Some(
                file_models(final(files)@),
            ),
            Err(e) => e == Error::ParseFailed && with_patch(
                file_models(old(files)@),
                patch@,
                source,
            ) is None && final(files)@ == old(files)@,
        },
{
    let ghost all = parsed_sections(sections(patch@), source);
    let mut parsed = match parse_patch(patch, source) {
        Ok(v) => v,
        Err(e) => {
            return Err(e);
        },
    };
    let ghost more = file_models(parsed@);
    proof {
        assert(all == more.map_values(|f: FileModel| Some(f)));
        assert(!all.contains(None)) by {
            if all.contains(None) {
                let k = choose|k: int| 0 <= k < all.len() && all[k] == None::<FileModel>;
                assert(all[k] == Some(more[k]));
            }
        }
        assert(all.map_values(|f: Option<FileModel>| f->0) =~= more);
    }
    let ghost before = file_models(files@);
    let mut rest: Vec<DiffFile> = Vec::new();
    let ghost count = more.len();
    while parsed.len() > 0
        invariant
            more.len() == count,
            parsed@.len() + rest@.len() == count,
            forall|k: int| 0 <= k < parsed@.len() ==> (#[trigger] parsed@[k])@ == more[k],
            forall|k: int|
                0 <= k < rest@.len() ==> (#[trigger] rest@[k])@ == more[count - 1 - k],
        decreases parsed@.len(),
    {
        if let Some(f) = parsed.pop() {
            rest.push(f);
        }
    }
    while rest.len() > 0
        invariant
            more.len() == count,
            rest@.len() <= count,
            forall|k: int|
                0 <= k < rest@.len() ==> (#[trigger] rest@[k])@ == more[count - 1 - k],
            file_models(files@) == merged_all(before, more, count - rest@.len()),
        decreases rest@.len(),
    {
        if let Some(f) = rest.pop() {
            assert(f@ == more[count - 1 - rest@.len()]);
            merge_or_append_file(files, f);
        }
    }
    Ok(())
}

// ---------------------------------------------------------------------------
// Paths stay apart
// ---------------------------------------------------------------------------

/// No two files have the same path.
pub open spec fn paths_apart(files: Seq<FileModel>) -> bool {
    forall|i: int, j: int|
        0 <= i < j < files.len() ==> raw_paths(#[trigger] files[i]).0 != raw_paths(
            #[trigger] files[j],
        ).0
}

/// The patches of files begin with their headings.
pub open spec fn headed(files: Seq<FileModel>) -> bool {
    forall|k: int| 0 <= k < files.len() ==> begins_section((#[trigger] files[k]).patch_text)
}

/// A file keeps its description and its paths when a patch is joined to it.
proof fn lemma_joined(a: FileModel, b: FileModel)
    requires
        begins_section(a.patch_text),
        begins_section(b.patch_text),
    ensures
        raw_paths(joined_file(a, b)) == raw_paths(a),
        begins_section(joined_file(a, b).patch_text),
{
    lemma_joined_paths(a, b);
    let text = joined_file(a, b).patch_text;
    lemma_find_byte(a.patch_text, 0x0a);
    lemma_find_byte(text, 0x0a);
    let n = find_byte(a.patch_text, 0x0a) as int;
    let k = find_byte(text, 0x0a) as int;
    assert(k == n) by {
        assert(text[n] == 0x0a);
        if k < n {
            assert(a.patch_text[k] == text[k]);
        }
    }
    assert(text.take(n) =~= a.patch_text.take(n));
}

/// Adding a file never makes two files of one path, even where names cannot be
/// decoded; and the description of a file that is there stays.
pub proof fn law_merge_keeps_paths_apart(files: Seq<FileModel>, f: FileModel)
    requires
        paths_apart(files),
        headed(files),
        begins_section(f.patch_text),
    ensures
        paths_apart(merged(files, f)),
        headed(merged(files, f)),
        forall|k: int|
            0 <= k < files.len() ==> {
                let g = #[trigger] merged(files, f)[k];
                g.path == files[k].path && g.old_path == files[k].old_path && g.status
                    == files[k].status && g.is_binary == files[k].is_binary
            },
{
    lemma_same_path(files, f, 0);
    let all = merged(files, f);
    if let Some(i) = same_path(files, f, 0) {
        lemma_joined(files[i], f);
    }
    assert forall|i: int, j: int| 0 <= i < j < all.len() implies raw_paths(#[trigger] all[i]).0
        != raw_paths(#[trigger] all[j]).0 by {
        if i < files.len() {
            assert(raw_paths(all[i]).0 == raw_paths(files[i]).0);
        }
        if j < files.len() {
            assert(raw_paths(all[j]).0 == raw_paths(files[j]).0);
        }
    }
}

proof fn lemma_merged_all_apart(files: Seq<FileModel>, more: Seq<FileModel>, n: int)
    requires
        paths_apart(files),
        headed(files),
        headed(more),
        n <= more.len(),
    ensures
        paths_apart(merged_all(files, more, n)),
        headed(merged_all(files, more, n)),
    decreases n,
{
    if n > 0 {
        lemma_merged_all_apart(files, more, n - 1);
        law_merge_keeps_paths_apart(merged_all(files, more, n - 1), more[n - 1]);
    }
}

proof fn lemma_patch_headed(patch: Seq<u8>, source: DiffSource)
    ensures
        patch_files(patch, source) matches Some(files) ==> headed(files),
{
    if let Some(files) = patch_files(patch, source) {
        let parts = sections(patch);
        let all = parsed_sections(parts, source);
        assert forall|k: int| 0 <= k < files.len() implies begins_section(
            (#[trigger] files[k]).patch_text,
        ) by {
            lemma_sections_begin(patch, k);
            lemma_begins_section(parts[k]);
            law_patch_is_kept(parts[k], source);
            assert(all[k] == parsed_file(parts[k], source));
            assert(all.contains(all[k]));
        }
    }
}

proof fn lemma_with_patch_apart(files: Seq<FileModel>, patch: Seq<u8>, source: DiffSource)
    requires
        paths_apart(files),
        headed(files),
    ensures
        with_patch(files, patch, source) matches Some(all) ==> paths_apart(all) && headed(all),
{
    lemma_patch_headed(patch, source);
    if let Some(more) = patch_files(patch, source) {
        lemma_merged_all_apart(files, more, more.len() as int);
    }
}

proof fn lemma_diffs_apart(kind: ReviewTargetKind, outputs: Seq<Seq<u8>>, n: int)
    ensures
        diffs_merged(kind, outputs, n) matches Some(all) ==> paths_apart(all) && headed(all),
    decreases n,
{
    if n > 0 {
        lemma_diffs_apart(kind, outputs, n - 1);
        if let Some(files) = diffs_merged(kind, outputs, n - 1) {
            lemma_with_patch_apart(files, outputs[n - 1], source_of(kind, n - 1));
        }
    }
}

/// No two files of a snapshot have the same path, whatever Git answered.
pub proof fn law_snapshot_paths_apart(
    kind: ReviewTargetKind,
    outputs: Seq<Seq<u8>>,
    untracked: Seq<Untracked>,
)
    ensures
        snapshot_files(kind, outputs, untracked) matches Some(files) ==> paths_apart(files),
{
    let n = outputs.len() as int;
    lemma_diffs_apart(kind, outputs, n);
    if let Some(files) = diffs_merged(kind, outputs, n) {
        if kind == ReviewTargetKind::WorkingTree {
            lemma_with_patch_apart(
                files,
                untracked_patches(untracked, untracked.len() as int),
                DiffSource::Untracked,
            );
        }
    }
}

// ---------------------------------------------------------------------------
// Untracked files
// ---------------------------------------------------------------------------

/// An untracked file, as far as it was read.
pub struct Untracked {
    pub path: Vec<u8>,
    pub content: Vec<u8>,
}

pub open spec fn count_byte(b: Seq<u8>, x: u8) -> nat
    decreases b.len(),
{
    if b.len() == 0 {
        0
    } else {
        count_byte(b.drop_last(), x) + if b.last() == x {
            1nat
        } else {
            0
        }
    }
}

/// The number of lines; the last one may lack its line feed.
pub open spec fn line_total(content: Seq<u8>) -> nat {
    if content.len() == 0 {
        0
    } else {
        count_byte(content, 0x0a) + if content.last() != 0x0a {
            1nat
        } else {
            0
        }
    }
}

proof fn lemma_count_byte(b: Seq<u8>, x: u8)
    ensures
        count_byte(b, x) <= b.len(),
        b.len() > 0 && b.last() != x ==> count_byte(b, x) < b.len(),
    decreases b.len(),
{
    if b.len() > 0 {
        lemma_count_byte(b.drop_last(), x);
    }
}

pub fn count_patch_lines(content: &[u8]) -> (n: usize)
    ensures
        n == line_total(content@),
{
    let len: usize = content.len();
    if len == 0 {
        return 0;
    }
    let mut n: usize = 0;
    let mut i: usize = 0;
    while i < len
        invariant
            len == content@.len(),
            n <= i <= len,
            n == count_byte(content@.take(i as int), 0x0a),
        decreases len - i,
    {
        assert(content@.take(i + 1).drop_last() =~= content@.take(i as int));
        if content[i] == 0x0a {
            n += 1;
        }
        i += 1;
    }
    assert(content@.take(len as int) =~= content@);
    proof {
        lemma_count_byte(content@, 0x0a);
    }
    if content[len - 1] != 0x0a {
        n += 1;
    }
    n
}

/// The lines from `i` on, each added.
pub open spec fn added_lines(content: Seq<u8>, i: int) -> Seq<u8>
    decreases content.len() + 1 - i,
{
    if i < 0 || i >= content.len() {
        seq![]
    } else {
        let end = i + find_byte(content.skip(i), 0x0a);
        if end > content.len() {
            seq![]
        } else {
            seq![0x2bu8] + trimmed_cr(content.subrange(i, end)) + seq![0x0au8] + added_lines(
                content,
                end + 1,
            )
        }
    }
}

/// Whether a file is not shown as text.
pub open spec fn shown_as_binary(content: Seq<u8>) -> bool {
    content.len() > MAX_UNTRACKED_BYTES || content.contains(0)
}

/// The head of a patch that adds a file.
pub open spec fn untracked_head(path: Seq<u8>) -> Seq<u8> {
    utf8("diff --git a/") + path + utf8(" b/") + path + utf8(
        "\nnew file mode 100644\nindex 0000000..0000000\n",
    )
}

/// What stands for a file that is not shown as text.
pub open spec fn binary_note(path: Seq<u8>) -> Seq<u8> {
    utf8("Binary files /dev/null and b/") + path + utf8(" differ\n")
}

/// The hunk that adds all lines of a file.
pub open spec fn added_hunk(content: Seq<u8>) -> Seq<u8> {
    if line_total(content) == 0 {
        seq![]
    } else {
        utf8("@@ -0,0 +1,") + encode_utf8(decimal(line_total(content))) + utf8(" @@\n")
            + added_lines(content, 0)
    }
}

/// A patch that adds a file.
pub open spec fn untracked_patch(path: Seq<u8>, content: Seq<u8>) -> Seq<u8> {
    untracked_head(path) + (if shown_as_binary(content) {
        binary_note(path)
    } else {
        utf8("--- /dev/null\n+++ b/") + path + seq![0x0au8] + added_hunk(content)
    })
}

fn has_zero(b: &[u8]) -> (r: bool)
    ensures
        r == b@.contains(0),
{
    let mut i: usize = 0;
    while i < b.len()
        invariant
            i <= b@.len(),
            forall|k: int| 0 <= k < i ==> b@[k] != 0,
        decreases b@.len() - i,
    {
        if b[i] == 0 {
            assert(b@[i as int] == 0);
            return true;
        }
        i += 1;
    }
    false
}

fn push_added_lines(out: &mut Vec<u8>, content: &[u8])
    ensures
        final(out)@ == old(out)@ + added_lines(content@, 0),
{
    let ghost before = out@;
    let len: usize = content.len();
    let mut i: usize = 0;
    while i < len
        invariant
            len == content@.len(),
            i <= len,
            before == old(out)@,
            before + added_lines(content@, 0) == out@ + added_lines(content@, i as int),
        decreases len + 1 - i,
    {
        let ghost now = out@;
        let end = index_of(content, i, 0x0a);
        out.push(0x2b);
        let line = vstd::slice::slice_subrange(content, i, end);
        push_bytes(out, trim_cr(line));
        out.push(0x0a);
        assert(now + added_lines(content@, i as int) =~= out@ + added_lines(content@, end + 1));
        if end >= len {
            assert(added_lines(content@, end + 1) =~= Seq::<u8>::empty());
            assert(out@ + Seq::<u8>::empty() =~= out@);
            return;
        }
        i = end + 1;
    }
    assert(out@ + Seq::<u8>::empty() =~= out@);
}

fn push_untracked_head(out: &mut Vec<u8>, path: &[u8])
    ensures
        final(out)@ == old(out)@ + untracked_head(path@),
{
    let ghost before = out@;
    push_bytes(out, "diff --git a/".as_bytes());
    push_bytes(out, path);
    push_bytes(out, " b/".as_bytes());
    push_bytes(out, path);
    push_bytes(out, "\nnew file mode 100644\nindex 0000000..0000000\n".as_bytes());
    assert(out@ =~= before + untracked_head(path@));
}

fn push_binary_note(out: &mut Vec<u8>, path: &[u8])
    ensures
        final(out)@ == old(out)@ + binary_note(path@),
{
    let ghost before = out@;
    push_bytes(out, "Binary files /dev/null and b/".as_bytes());
    push_bytes(out, path);
    push_bytes(out, " differ\n".as_bytes());
    assert(out@ =~= before + binary_note(path@));
}

fn push_added_hunk(out: &mut Vec<u8>, content: &[u8])
    ensures
        final(out)@ == old(out)@ + added_hunk(content@),
{
    let ghost before = out@;
    let count: usize = count_patch_lines(content);
    if count > 0 {
        push_bytes(out, "@@ -0,0 +1,".as_bytes());
        let number = decimal_text(count as u64);
        push_bytes(out, number.as_str().as_bytes());
        push_bytes(out, " @@\n".as_bytes());
        push_added_lines(out, content);
    }
    assert(out@ =~= before + added_hunk(content@));
}

/// Appends a patch that adds a file.
pub fn append_untracked_patch(patches: &mut Vec<u8>, path: &[u8], content: &[u8])
    ensures
        final(patches)@ == old(patches)@ + untracked_patch(path@, content@),
{
    let ghost before = patches@;
    push_untracked_head(patches, path);
    if content.len() > MAX_UNTRACKED_BYTES || has_zero(content) {
        push_binary_note(patches, path);
    } else {
        push_bytes(patches, "--- /dev/null\n+++ b/".as_bytes());
        push_bytes(patches, path);
        patches.push(0x0a);
        push_added_hunk(patches, content);
    }
    assert(patches@ =~= before + untracked_patch(path@, content@));
}

/// The patch that adds the first `n` of some files.
pub open spec fn untracked_patches(files: Seq<Untracked>, n: int) -> Seq<u8>
    decreases n,
{
    if n <= 0 {
        seq![]
    } else {
        untracked_patches(files, n - 1) + untracked_patch(
            files[n - 1].path@,
            files[n - 1].content@,
        )
    }
}

fn patch_of_untracked(files: &Vec<Untracked>) -> (r: Vec<u8>)
    ensures
        r@ == untracked_patches(files@, files@.len() as int),
{
    let mut out: Vec<u8> = Vec::new();
    let mut i: usize = 0;
    assert(out@ =~= Seq::<u8>::empty());
    while i < files.len()
        invariant
            i <= files@.len(),
            out@ == untracked_patches(files@, i as int),
        decreases files@.len() - i,
    {
        append_untracked_patch(
            &mut out,
            files[i].path.as_slice(),
            files[i].content.as_slice(),
        );
        i += 1;
    }
    out
}

/// The parts of a list that a zero byte ends; empty ones are left out.
pub open spec fn zero_separated(b: Seq<u8>) -> Seq<Seq<u8>>
    decreases b.len(),
{
    let n = find_byte(b, 0) as int;
    let head = if 0 < n <= b.len() {
        seq![b.take(n)]
    } else {
        seq![]
    };
    if n >= b.len() {
        head
    } else {
        head + zero_separated(b.skip(n + 1))
    }
}

pub open spec fn byte_lists(v: Seq<Vec<u8>>) -> Seq<Seq<u8>> {
    v.map_values(|b: Vec<u8>| b@)
}

/// The paths in a list that a zero byte ends.
pub fn split_paths(list: &[u8]) -> (r: Vec<Vec<u8>>)
    ensures
        byte_lists(r@) == zero_separated(list@),
{
    let len: usize = list.len();
    let mut out: Vec<Vec<u8>> = Vec::new();
    let mut i: usize = 0;
    let mut done = false;
    assert(list@.skip(0) =~= list@);
    assert(byte_lists(out@) + zero_separated(list@) =~= zero_separated(list@));
    while !done
        invariant
            len == list@.len(),
            i <= len,
            !done ==> zero_separated(list@) == byte_lists(out@) + zero_separated(
                list@.skip(i as int),
            ),
            done ==> zero_separated(list@) == byte_lists(out@),
        decreases
            if done {
                0
            } else {
                len - i + 1
            },
    {
        let ghost rest = list@.skip(i as int);
        let ghost before = byte_lists(out@);
        proof {
            lemma_find_byte(rest, 0);
        }
        let end = index_of(list, i, 0);
        let ghost n = end - i;
        if end > i {
            let part = copy_bytes(vstd::slice::slice_subrange(list, i, end));
            assert(part@ =~= rest.take(n));
            out.push(part);
            assert(byte_lists(out@) =~= before.push(part@));
        }
        if end >= len {
            assert(byte_lists(out@) =~= before + zero_separated(rest));
            done = true;
        } else {
            assert(rest.skip(n + 1) =~= list@.skip(end + 1));
            assert(byte_lists(out@) + zero_separated(rest.skip(n + 1)) =~= before + zero_separated(
                rest,
            ));
            i = end + 1;
        }
    }
    out
}

// ---------------------------------------------------------------------------
// Loading a snapshot
// ---------------------------------------------------------------------------

/// A diff to ask Git for.
pub struct DiffRequest {
    pub args: Vec<String>,
    pub source: DiffSource,
}

/// The diffs that make up a target: for the working tree what is not staged
/// and what is, and otherwise what the arguments ask for.
pub open spec fn requests(kind: ReviewTargetKind, raw: Seq<Seq<char>>) -> Seq<
    (Seq<Seq<char>>, DiffSource),
> {
    if kind == ReviewTargetKind::WorkingTree {
        seq![
            (diff_command(seq![], false), DiffSource::Unstaged),
            (diff_command(seq![], true), DiffSource::Staged),
        ]
    } else {
        seq![(diff_command(raw, false), DiffSource::Explicit)]
    }
}

pub open spec fn request_models(v: Seq<DiffRequest>) -> Seq<(Seq<Seq<char>>, DiffSource)> {
    v.map_values(|r: DiffRequest| (texts(r.args@), r.source))
}

/// The diffs that make up a target.  For the working tree the untracked files
/// come on top.
pub fn diff_requests(target: &ReviewTarget) -> (r: Vec<DiffRequest>)
    ensures
        request_models(r@) == requests(target.kind, texts(target.raw_args@)),
{
    let mut out: Vec<DiffRequest> = Vec::new();
    if target.kind == ReviewTargetKind::WorkingTree {
        let none: Vec<String> = Vec::new();
        assert(texts(none@) =~= Seq::<Seq<char>>::empty());
        out.push(
            DiffRequest {
                args: diff_arguments(none.as_slice(), false),
                source: DiffSource::Unstaged,
            },
        );
        out.push(
            DiffRequest { args: diff_arguments(none.as_slice(), true), source: DiffSource::Staged },
        );
    } else {
        out.push(
            DiffRequest {
                args: diff_arguments(target.raw_args.as_slice(), false),
                source: DiffSource::Explicit,
            },
        );
    }
    assert(request_models(out@) =~= requests(target.kind, texts(target.raw_args@)));
    out
}

/// The source of the diff with an index.
pub open spec fn source_of(kind: ReviewTargetKind, i: int) -> DiffSource {
    if kind != ReviewTargetKind::WorkingTree {
        DiffSource::Explicit
    } else if i == 0 {
        DiffSource::Unstaged
    } else {
        DiffSource::Staged
    }
}

/// The files of the first `n` diffs, where they can be read.
pub open spec fn diffs_merged(kind: ReviewTargetKind, outputs: Seq<Seq<u8>>, n: int) -> Option<
    Seq<FileModel>,
>
    decreases n,
{
    if n <= 0 {
        Some(seq![])
    } else {
        match diffs_merged(kind, outputs, n - 1) {
            Some(files) => with_patch(files, outputs[n - 1], source_of(kind, n - 1)),
            None => None,
        }
    }
}

/// The files of a snapshot, where its patches can be read.
pub open spec fn snapshot_files(
    kind: ReviewTargetKind,
    outputs: Seq<Seq<u8>>,
    untracked: Seq<Untracked>,
) -> Option<Seq<FileModel>> {
    match diffs_merged(kind, outputs, outputs.len() as int) {
        Some(files) => if kind == ReviewTargetKind::WorkingTree {
            with_patch(
                files,
                untracked_patches(untracked, untracked.len() as int),
                DiffSource::Untracked,
            )
        } else {
            Some(files)
        },
        None => None,
    }
}

/// What the first `n` files add to the identity of a snapshot.
pub open spec fn files_identity(files: Seq<FileModel>, n: int) -> Seq<u8>
    decreases n,
{
    if n <= 0 {
        seq![]
    } else {
        files_identity(files, n - 1) + raw_paths(files[n - 1]).0 + encode_utf8(
            files[n - 1].patch_fingerprint,
        )
    }
}

/// The identity of a snapshot: that of the repository and of the target, and
/// the paths and patches of its files.
pub open spec fn snapshot_identity(
    repo_id: Seq<char>,
    target_id: Seq<char>,
    files: Seq<FileModel>,
) -> Seq<char> {
    short_id(
        "snap_"@,
        encode_utf8(repo_id) + encode_utf8(target_id) + files_identity(files, files.len() as int),
    )
}

fn identity_of(repo_id: &str, target_id: &str, files: &Vec<DiffFile>) -> (r: String)
    ensures
        r@ == snapshot_identity(repo_id@, target_id@, file_models(files@)),
{
    let ghost models = file_models(files@);
    let ghost head = encode_utf8(repo_id@) + encode_utf8(target_id@);
    let mut input: Vec<u8> = Vec::new();
    push_bytes(&mut input, repo_id.as_bytes());
    push_bytes(&mut input, target_id.as_bytes());
    assert(input@ =~= head + files_identity(models, 0));
    let mut i: usize = 0;
    while i < files.len()
        invariant
            i <= files@.len(),
            models == file_models(files@),
            input@ == head + files_identity(models, i as int),
        decreases files@.len() - i,
    {
        let ghost before = input@;
        assert(models[i as int] == files@[i as int]@);
        push_bytes(&mut input, raw_file_paths(&files[i]).0);
        push_bytes(&mut input, files[i].patch_fingerprint.as_str().as_bytes());
        assert(input@ =~= head + files_identity(models, i + 1));
        i += 1;
    }
    make_id("snap_", input.as_slice())
}

/// A snapshot, given what Git answered to the requests for its diffs and the
/// untracked files as far as they could be read.
pub fn load_snapshot(
    repo: Repository,
    target: ReviewTarget,
    outputs: Vec<Vec<u8>>,
    untracked: Vec<Untracked>,
) -> (r: Result<DiffSnapshot, Error>)
    requires
        outputs@.len() == requests(target.kind, texts(target.raw_args@)).len(),
    ensures
        match r {
            Ok(s) => snapshot_files(target.kind, byte_lists(outputs@), untracked@) == Some(
                file_models(s.files@),
            ) && s.repository == repo && s.review_target == target && s.snapshot_id@
                == snapshot_identity(repo.repo_id@, target.target_id@, file_models(s.files@)),
            Err(e) => e == Error::ParseFailed && snapshot_files(
                target.kind,
                byte_lists(outputs@),
                untracked@,
            ) is None,
        },
{
    let ghost all = byte_lists(outputs@);
    let mut files: Vec<DiffFile> = Vec::new();
    let working = target.kind == ReviewTargetKind::WorkingTree;
    let mut i: usize = 0;
    assert(file_models(files@) =~= Seq::<FileModel>::empty());
    while i < outputs.len()
        invariant
            i <= outputs@.len(),
            all == byte_lists(outputs@),
            working == (target.kind == ReviewTargetKind::WorkingTree),
            diffs_merged(target.kind, all, i as int) == Some(file_models(files@)),
        decreases outputs@.len() - i,
    {
        assert(all[i as int] == outputs@[i as int]@);
        let source = if !working {
            DiffSource::Explicit
        } else if i == 0 {
            DiffSource::Unstaged
        } else {
            DiffSource::Staged
        };
        match append_patch(&mut files, outputs[i].as_slice(), source) {
            Ok(()) => {},
            Err(e) => {
                proof {
                    lemma_unreadable(target.kind, all, i + 1, all.len() as int);
                }
                return Err(e);
            },
        }
        i += 1;
    }
    if working {
        let patch = patch_of_untracked(&untracked);
        match append_patch(&mut files, patch.as_slice(), DiffSource::Untracked) {
            Ok(()) => {},
            Err(e) => {
                return Err(e);
            },
        }
    }
    let snapshot_id = identity_of(repo.repo_id.as_str(), target.target_id.as_str(), &files);
    Ok(DiffSnapshot { snapshot_id, repository: repo, review_target: target, files })
}

proof fn lemma_unreadable(kind: ReviewTargetKind, outputs: Seq<Seq<u8>>, i: int, n: int)
    requires
        0 <= i <= n,
        diffs_merged(kind, outputs, i) is None,
    ensures
        diffs_merged(kind, outputs, n) is None,
    decreases n - i,
{
    if i < n {
        lemma_unreadable(kind, outputs, i, n - 1);
    }
}

// ---------------------------------------------------------------------------
// Revisions
// ---------------------------------------------------------------------------

/// The two parts of a text around a separator.
pub open spec fn parts_around(s: Seq<char>, separator: Seq<char>) -> Option<
    (Seq<char>, Seq<char>),
> {
    match find_seq(s, separator) {
        Some(n) => Some((s.take(n as int), s.skip((n + separator.len()) as int))),
        None => None,
    }
}

/// The ends of a range, with three dots or with two.
pub open spec fn range_ends(arg: Seq<char>) -> Option<(Seq<char>, Seq<char>)> {
    if parts_around(arg, "..."@) is Some {
        parts_around(arg, "..."@)
    } else {
        parts_around(arg, ".."@)
    }
}

/// The ends of the first range among arguments.
pub open spec fn first_range(args: Seq<Seq<char>>) -> Option<(Seq<char>, Seq<char>)>
    decreases args.len(),
{
    if args.len() == 0 {
        None
    } else if range_ends(args[0]) is Some {
        range_ends(args[0])
    } else {
        first_range(args.skip(1))
    }
}

pub open spec fn opt_pair(p: Option<(String, String)>) -> Option<(Seq<char>, Seq<char>)> {
    match p {
        Some((a, b)) => Some((a@, b@)),
        None => None,
    }
}

fn split_around(s: &str, separator: &str) -> (r: Option<(String, String)>)
    ensures
        opt_pair(r) == parts_around(s@, separator@),
{
    let chars = chars_of(s);
    let pin = chars_of(separator);
    let len: usize = chars.len();
    let mut i: usize = 0;
    assert(chars@.skip(0) =~= chars@);
    while i < len
        invariant
            chars@ == s@,
            pin@ == separator@,
            len == chars@.len(),
            i <= len,
            find_seq(s@, separator@) == match find_seq(chars@.skip(i as int), separator@) {
                Some(n) => Some(n + i as nat),
                None => None,
            },
        decreases len - i,
    {
        let ghost rest = chars@.skip(i as int);
        if crate::util::chars_match(chars.as_slice(), i, pin.as_slice()) {
            return Some(pieces_at(&chars, i, pin.len()));
        }
        assert(rest.skip(1) =~= chars@.skip(i + 1));
        i += 1;
    }
    if crate::util::chars_match(chars.as_slice(), i, pin.as_slice()) {
        return Some(pieces_at(&chars, i, pin.len()));
    }
    None
}

fn pieces_at(chars: &Vec<char>, i: usize, n: usize) -> (r: (String, String))
    requires
        i + n <= chars@.len(),
    ensures
        r.0@ == chars@.take(i as int),
        r.1@ == chars@.skip(i + n),
{
    let len: usize = chars.len();
    let a = string_of(vstd::slice::slice_subrange(chars.as_slice(), 0, i));
    let b = string_of(vstd::slice::slice_subrange(chars.as_slice(), i + n, len));
    assert(a@ =~= chars@.take(i as int));
    assert(b@ =~= chars@.skip(i + n));
    (a, b)
}

/// The ends of the first range among arguments.
pub fn range_revisions(args: &[String]) -> (r: Option<(String, String)>)
    ensures
        opt_pair(r) == first_range(texts(args@)),
{
    let ghost all = texts(args@);
    let mut i: usize = 0;
    assert(all.skip(0) =~= all);
    while i < args.len()
        invariant
            all == texts(args@),
            i <= args@.len(),
            first_range(all) == first_range(all.skip(i as int)),
        decreases args@.len() - i,
    {
        let ghost rest = all.skip(i as int);
        assert(rest[0] == args@[i as int]@);
        assert(rest.skip(1) =~= all.skip(i + 1));
        let wide = split_around(args[i].as_str(), "...");
        if wide.is_some() {
            return wide;
        }
        let narrow = split_around(args[i].as_str(), "..");
        if narrow.is_some() {
            return narrow;
        }
        i += 1;
    }
    assert(all.skip(i as int) =~= Seq::<Seq<char>>::empty());
    None
}

/// A revision; where none is named, the last commit.
pub open spec fn or_head(revision: Seq<char>) -> Seq<char> {
    if revision.len() == 0 {
        "HEAD"@
    } else {
        revision
    }
}

pub fn revision_or_head(revision: &str) -> (r: &str)
    ensures
        r@ == or_head(revision@),
{
    proof {
        reveal_strlit("");
        assert(revision@.len() == 0 <==> revision@ =~= ""@);
    }
    if same_text(revision, "") {
        "HEAD"
    } else {
        revision
    }
}

/// Whether an argument may name a revision: it is no option and no range.
pub open spec fn may_be_revision(arg: Seq<char>) -> bool {
    !has_prefix(arg, "-"@) && !contains_text(arg, ".."@)
}

/// The arguments before the paths that may name a revision.
pub open spec fn candidates(args: Seq<Seq<char>>) -> Seq<Seq<char>>
    decreases args.len(),
{
    if args.len() == 0 || args[0] == "--"@ {
        seq![]
    } else {
        (if may_be_revision(args[0]) {
            seq![args[0]]
        } else {
            seq![]
        }) + candidates(args.skip(1))
    }
}

/// The arguments that may name a revision; Git decides which of them do.
pub fn revision_candidates(args: &[String]) -> (r: Vec<String>)
    ensures
        texts(r@) == candidates(texts(args@)),
{
    let ghost all = texts(args@);
    let mut out: Vec<String> = Vec::new();
    let mut i: usize = 0;
    assert(all.skip(0) =~= all);
    assert(texts(out@) + candidates(all) =~= candidates(all));
    while i < args.len()
        invariant
            all == texts(args@),
            i <= args@.len(),
            candidates(all) == texts(out@) + candidates(all.skip(i as int)),
        decreases args@.len() - i,
    {
        let ghost rest = all.skip(i as int);
        let ghost before = texts(out@);
        let arg = args[i].as_str();
        assert(rest[0] == arg@);
        assert(rest.skip(1) =~= all.skip(i + 1));
        if same_text(arg, "--") {
            assert(before + Seq::<Seq<char>>::empty() =~= before);
            return out;
        }
        if !text_starts_with(arg, "-") && !text_contains(arg, "..") {
            let copy = args[i].clone();
            out.push(copy);
            assert(texts(out@) =~= before.push(arg@));
        }
        assert(before + candidates(rest) =~= texts(out@) + candidates(rest.skip(1)));
        i += 1;
    }
    assert(all.skip(i as int) =~= Seq::<Seq<char>>::empty());
    assert(texts(out@) + Seq::<Seq<char>>::empty() =~= texts(out@));
    out
}

/// The argument by which Git is asked whether one names a commit.
pub fn commit_query(arg: &str) -> (r: String)
    ensures
        r@ == arg@ + "^{commit}"@,
{
    let mut out = String::new();
    push_text(&mut out, arg);
    push_text(&mut out, "^{commit}");
    assert(out@ =~= arg@ + "^{commit}"@);
    out
}

// ---------------------------------------------------------------------------
// The sides of a file
// ---------------------------------------------------------------------------

/// Where the text of a side of a file is.
#[derive(Debug)]
pub enum SideSource {
    /// There is none.
    Nothing,
    /// In a revision; without a name, what is staged.
    Blob { revision: String, path: Vec<u8> },
    /// In the revision from which two others have parted.
    MergeBase { old: String, new: String, path: Vec<u8> },
    /// In the working tree.
    Worktree { path: Vec<u8> },
}

pub ghost enum SideModel {
    Nothing,
    Blob { revision: Seq<char>, path: Seq<u8> },
    MergeBase { old: Seq<char>, new: Seq<char>, path: Seq<u8> },
    Worktree { path: Seq<u8> },
}

impl View for SideSource {
    type V = SideModel;

    open spec fn view(&self) -> SideModel {
        match *self {
            SideSource::Nothing => SideModel::Nothing,
            SideSource::Blob { revision, path } => SideModel::Blob {
                revision: revision@,
                path: path@,
            },
            SideSource::MergeBase { old, new, path } => SideModel::MergeBase {
                old: old@,
                new: new@,
                path: path@,
            },
            SideSource::Worktree { path } => SideModel::Worktree { path: path@ },
        }
    }
}

/// The path of a file on a side.
pub open spec fn side_path(f: FileModel, side: FileSide) -> Seq<u8> {
    let (path, old) = raw_paths(f);
    match side {
        FileSide::New => path,
        FileSide::Old => match old {
            Some(p) => p,
            None => path,
        },
    }
}

/// Where a side of a file of the working tree is.
pub open spec fn working_side(f: FileModel, side: FileSide) -> SideModel {
    let path = side_path(f, side);
    match (f.source, side) {
        (DiffSource::Unstaged, FileSide::Old) => SideModel::Blob { revision: ""@, path },
        (DiffSource::Unstaged, FileSide::New) => SideModel::Worktree { path },
        (DiffSource::Untracked, FileSide::New) => SideModel::Worktree { path },
        (DiffSource::Staged, FileSide::Old) => SideModel::Blob { revision: "HEAD"@, path },
        (DiffSource::Staged, FileSide::New) => SideModel::Blob { revision: ""@, path },
        (DiffSource::Untracked, FileSide::Old) => SideModel::Nothing,
        (DiffSource::Explicit, _) => SideModel::Nothing,
    }
}

/// Where a side of a file of another target is; `revisions` are the arguments
/// that name commits.
pub open spec fn explicit_side(
    kind: ReviewTargetKind,
    raw: Seq<Seq<char>>,
    f: FileModel,
    side: FileSide,
    revisions: Seq<Seq<char>>,
) -> SideModel {
    let path = side_path(f, side);
    match kind {
        ReviewTargetKind::Cached => SideModel::Blob {
            revision: if side == FileSide::Old {
                "HEAD"@
            } else {
                ""@
            },
            path,
        },
        ReviewTargetKind::Commit => if side == FileSide::Old {
            SideModel::Blob {
                revision: if revisions.len() > 0 {
                    revisions[0]
                } else {
                    ""@
                },
                path,
            }
        } else if revisions.len() > 1 {
            SideModel::Blob { revision: revisions[1], path }
        } else {
            SideModel::Worktree { path }
        },
        ReviewTargetKind::Range | ReviewTargetKind::SymmetricRange => match first_range(raw) {
            Some((old, new)) => if side == FileSide::New {
                SideModel::Blob { revision: or_head(new), path }
            } else if kind == ReviewTargetKind::SymmetricRange {
                SideModel::MergeBase { old: or_head(old), new: or_head(new), path }
            } else {
                SideModel::Blob { revision: or_head(old), path }
            },
            None => SideModel::Nothing,
        },
        _ => SideModel::Nothing,
    }
}

/// Where a side of a file is.
pub open spec fn side_source(
    kind: ReviewTargetKind,
    raw: Seq<Seq<char>>,
    f: FileModel,
    side: FileSide,
    revisions: Seq<Seq<char>>,
) -> SideModel {
    if f.is_binary {
        SideModel::Nothing
    } else if kind == ReviewTargetKind::WorkingTree {
        working_side(f, side)
    } else {
        explicit_side(kind, raw, f, side, revisions)
    }
}

fn path_on_side(file: &DiffFile, side: FileSide) -> (r: Vec<u8>)
    ensures
        r@ == side_path(file@, side),
{
    let (path, old) = raw_file_paths(file);
    match side {
        FileSide::New => copy_bytes(path),
        FileSide::Old => match old {
            Some(p) => copy_bytes(p),
            None => copy_bytes(path),
        },
    }
}

fn load_explicit_file_side(
    target: &ReviewTarget,
    file: &DiffFile,
    side: FileSide,
    revisions: &[String],
) -> (r: SideSource)
    ensures
        r@ == explicit_side(
            target.kind,
            texts(target.raw_args@),
            file@,
            side,
            texts(revisions@),
        ),
{
    assert(texts(revisions@).len() == revisions@.len());
    let path = path_on_side(file, side);
    match target.kind {
        ReviewTargetKind::Cached => match side {
            FileSide::Old => SideSource::Blob { revision: "HEAD".to_string(), path },
            FileSide::New => SideSource::Blob { revision: "".to_string(), path },
        },
        ReviewTargetKind::Commit => match side {
            FileSide::Old => if revisions.len() > 0 {
                SideSource::Blob { revision: revisions[0].clone(), path }
            } else {
                SideSource::Blob { revision: "".to_string(), path }
            },
            FileSide::New => if revisions.len() > 1 {
                SideSource::Blob { revision: revisions[1].clone(), path }
            } else {
                SideSource::Worktree { path }
            },
        },
        ReviewTargetKind::Range | ReviewTargetKind::SymmetricRange => match range_revisions(
            target.raw_args.as_slice(),
        ) {
            Some((old, new)) => {
                let old = revision_or_head(old.as_str()).to_string();
                let new = revision_or_head(new.as_str()).to_string();
                match side {
                    FileSide::New => SideSource::Blob { revision: new, path },
                    FileSide::Old => if target.kind == ReviewTargetKind::SymmetricRange {
                        SideSource::MergeBase { old, new, path }
                    } else {
                        SideSource::Blob { revision: old, path }
                    },
                }
            },
            None => SideSource::Nothing,
        },
        _ => SideSource::Nothing,
    }
}

/// Where a side of a file is; `revisions` are the arguments of the target that
/// name commits.
pub fn load_file_side(
    target: &ReviewTarget,
    file: &DiffFile,
    side: FileSide,
    revisions: &[String],
) -> (r: SideSource)
    ensures
        r@ == side_source(
            target.kind,
            texts(target.raw_args@),
            file@,
            side,
            texts(revisions@),
        ),
{
    if file.is_binary {
        return SideSource::Nothing;
    }
    if target.kind != ReviewTargetKind::WorkingTree {
        return load_explicit_file_side(target, file, side, revisions);
    }
    let path = path_on_side(file, side);
    match file.source {
        DiffSource::Unstaged => match side {
            FileSide::Old => SideSource::Blob { revision: "".to_string(), path },
            FileSide::New => SideSource::Worktree { path },
        },
        DiffSource::Staged => match side {
            FileSide::Old => SideSource::Blob { revision: "HEAD".to_string(), path },
            FileSide::New => SideSource::Blob { revision: "".to_string(), path },
        },
        DiffSource::Untracked => match side {
            FileSide::Old => SideSource::Nothing,
            FileSide::New => SideSource::Worktree { path },
        },
        DiffSource::Explicit => SideSource::Nothing,
    }
}

/// The name of a file in a revision.
pub fn blob_name(revision: &str, path: &[u8]) -> (r: Vec<u8>)
    ensures
        r@ == encode_utf8(revision@).push(0x3a) + path@,
{
    let mut out: Vec<u8> = Vec::new();
    push_bytes(&mut out, revision.as_bytes());
    out.push(0x3a);
    push_bytes(&mut out, path);
    assert(out@ =~= encode_utf8(revision@).push(0x3a) + path@);
    out
}

/// The revision that Git names as the one from which two others have parted.
pub fn merge_base(output: &[u8]) -> (r: String)
    ensures
        r@ == lossy(trimmed(output@)),
{
    lossy_utf8(trim_newlines(output))
}

/// The text of a file in a revision: where Git refuses, there is none.
pub fn read_blob(answer: Result<Vec<u8>, Error>) -> (r: Result<Option<Vec<u8>>, Error>)
    ensures
        r == match answer {
            Ok(content) => Ok(Some(content)),
            Err(Error::GitCommandFailed) => Ok(None),
            Err(e) => Err(e),
        },
{
    match answer {
        Ok(content) => Ok(Some(content)),
        Err(Error::GitCommandFailed) => Ok(None),
        Err(e) => Err(e),
    }
}

/// What became of reading a file of the working tree.
pub enum WorktreeRead {
    Content(Vec<u8>),
    /// There is no such file, or it may not be read.
    Absent,
    Failed,
}

/// The text of a file of the working tree, unless it is too long.
pub fn read_worktree_file(read: WorktreeRead) -> (r: Result<Option<Vec<u8>>, Error>)
    ensures
        r == match read {
            WorktreeRead::Content(content) => if content@.len() <= MAX_SOURCE_BYTES {
                Ok(Some(content))
            } else {
                Ok(None)
            },
            WorktreeRead::Absent => Ok(None),
            WorktreeRead::Failed => Err(Error::GitCommandFailed),
        },
{
    match read {
        WorktreeRead::Content(content) => if content.len() <= MAX_SOURCE_BYTES {
            Ok(Some(content))
        } else {
            Ok(None)
        },
        WorktreeRead::Absent => Ok(None),
        WorktreeRead::Failed => Err(Error::GitCommandFailed),
    }
}

} // verus!

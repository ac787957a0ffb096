use diffo::diff::{self, make_review_target, parse_patch, DiffSource, FileStatus, Repository};
use diffo::git::{
    append_untracked_patch, blob_name, command_result, commit_query, count_patch_lines,
    describe_repository, diff_arguments, diff_requests, discovery_error, load_file_side,
    load_snapshot, merge_base, merge_or_append_file, pipe_error, range_revisions, read_blob,
    read_bounded, read_worktree_file, repository_root, revision_candidates, revision_or_head,
    split_paths, trim_newlines, BoundedBuffer, FileSide, SideSource, Untracked, WorktreeRead,
    MAX_SOURCE_BYTES,
};
use diffo::util;
use diffo::Error;

#[test]
fn ranges_include_omitted_endpoints() {
    for (spec, old, new) in [
        ("main..feature", "main", "feature"),
        ("main...feature", "main", "feature"),
        ("..feature", "HEAD", "feature"),
        ("main...", "main", "HEAD"),
    ] {
        let args = [spec.into()];
        let (actual_old, actual_new) = range_revisions(&args).unwrap();
        assert_eq!(
            (revision_or_head(&actual_old), revision_or_head(&actual_new)),
            (old, new)
        );
    }
}
#[test]
fn synthetic_patch_exact_bytes() {
    let mut patch = Vec::new();
    append_untracked_patch(&mut patch, b"new.txt", b"one\r\n\xff\r\n");
    assert_eq!(patch, b"diff --git a/new.txt b/new.txt\nnew file mode 100644\nindex 0000000..0000000\n--- /dev/null\n+++ b/new.txt\n@@ -0,0 +1,2 @@\n+one\n+\xff\n");
    patch.clear();
    append_untracked_patch(&mut patch, b"empty", b"");
    assert_eq!(patch, b"diff --git a/empty b/empty\nnew file mode 100644\nindex 0000000..0000000\n--- /dev/null\n+++ b/empty\n");
    patch.clear();
    append_untracked_patch(&mut patch, b"binary", b"\0");
    assert_eq!(patch, b"diff --git a/binary b/binary\nnew file mode 100644\nindex 0000000..0000000\nBinary files /dev/null and b/binary differ\n");
    for (bytes, count) in [
        (&b""[..], 0),
        (&b"\n"[..], 1),
        (&b"a"[..], 1),
        (&b"a\n"[..], 1),
        (&b"a\n\n"[..], 2),
    ] {
        assert_eq!(count_patch_lines(bytes), count);
    }
}
#[test]
fn merged_fingerprint_is_single_lf_join_with_first_metadata() {
    let first = b"diff --git a/x b/x\n@@ -1 +1 @@\n-old\n+new";
    let second = b"diff --git a/x b/x\nnew file mode 100644\n@@ -0,0 +1 @@\n+old";
    let mut files = parse_patch(first, DiffSource::Unstaged).unwrap();
    let incoming = parse_patch(second, DiffSource::Staged)
        .unwrap()
        .remove(0);
    merge_or_append_file(&mut files, incoming);
    assert_eq!(files.len(), 1);
    assert_eq!(files[0].source, DiffSource::Explicit);
    assert_eq!(files[0].status, diff::FileStatus::Modified);
    assert_eq!(files[0].hunks.len(), 2);
    let joined = [first.as_slice(), b"\n", second.as_slice()].concat();
    assert_eq!(files[0].patch_text, joined);
    assert_eq!(
        files[0].patch_fingerprint,
        format!("sha256:{}", util::hash_hex(&joined))
    );
}
#[test]
fn bounded_reader_detects_oversize_without_consuming_whole_stream() {
    let bytes = vec![b'x'; 100];
    assert_eq!(read_bounded(bytes.as_slice(), 10).len(), 11);
    assert_eq!(read_bounded(bytes.as_slice(), 100), bytes);
}

fn strings(args: &[&str]) -> Vec<String> {
    args.iter().map(|a| a.to_string()).collect()
}

fn repository() -> Repository {
    describe_repository(b"/repo".to_vec(), Ok(b"main\n".to_vec()), b"/real/repo").unwrap()
}

fn patch_of(name: &str, text: &str) -> Vec<u8> {
    format!("diff --git a/{name} b/{name}\n--- a/{name}\n+++ b/{name}\n@@ -1 +1 @@\n-head\n+{text}\n")
        .into_bytes()
}

#[test]
fn working_tree_merges_in_order_and_keeps_raw_fingerprints() {
    let target = make_review_target(&[]);
    let requests = diff_requests(&target);
    assert_eq!(requests.len(), 2);
    assert_eq!(
        requests[0].args,
        strings(&[
            "diff",
            "--patch",
            "--find-renames",
            "--no-ext-diff",
            "--no-color",
            "--unified=1000000"
        ])
    );
    assert_eq!(requests[1].args[6], "--cached");
    let unstaged = [patch_of("both", "worktree"), patch_of("unstaged", "worktree")].concat();
    let staged = [patch_of("both", "index"), patch_of("staged", "index")].concat();
    let untracked = split_paths(b"binary\0\0empty\0untracked\0")
        .into_iter()
        .zip([b"a\0b".to_vec(), Vec::new(), b"one\r\n\nlast".to_vec()])
        .map(|(path, content)| Untracked { path, content })
        .collect();
    let snapshot =
        load_snapshot(repository(), target, vec![unstaged, staged], untracked).unwrap();
    let names: Vec<_> = snapshot.files.iter().map(|f| f.path.as_str()).collect();
    assert_eq!(
        names,
        ["both", "unstaged", "staged", "binary", "empty", "untracked"]
    );
    let both = &snapshot.files[0];
    assert_eq!(both.source, DiffSource::Explicit);
    assert_eq!(both.hunks.len(), 2);
    assert_eq!(both.hunks[0].lines[1].text, "worktree");
    assert_eq!(both.hunks[1].lines[1].text, "index");
    assert!(snapshot.files[3].is_binary);
    assert!(snapshot.files[4].hunks.is_empty());
    assert_eq!(snapshot.files[4].status, diff::FileStatus::Added);
    assert_eq!(snapshot.files[5].hunks[0].lines.len(), 3);
    let mut identity = snapshot.repository.repo_id.clone() + &snapshot.review_target.target_id;
    for file in &snapshot.files {
        identity += &file.path;
        identity += &file.patch_fingerprint;
    }
    assert_eq!(
        snapshot.snapshot_id,
        format!("snap_{}", &util::hash_hex(identity.as_bytes())[..16])
    );
    assert_eq!(
        snapshot.repository.repo_id,
        format!("repo_{}", &util::hash_hex(b"/real/repo")[..16])
    );
    assert_eq!(snapshot.repository.current_branch, "main");
}

#[test]
fn malformed_patches_are_refused() {
    let bad = b"diff --git a/x b/x\n@@ bogus @@\n".to_vec();
    assert!(matches!(
        load_snapshot(
            repository(),
            make_review_target(&strings(&["HEAD"])),
            vec![bad],
            Vec::new()
        ),
        Err(Error::ParseFailed)
    ));
}

#[test]
fn non_utf8_untracked_names_keep_distinct_identities() {
    let untracked = [0xfe_u8, 0xff]
        .into_iter()
        .map(|byte| Untracked {
            path: vec![byte],
            content: b"\xff\n".to_vec(),
        })
        .collect();
    let snapshot = load_snapshot(
        repository(),
        make_review_target(&[]),
        vec![Vec::new(), Vec::new()],
        untracked,
    )
    .unwrap();
    assert_eq!(snapshot.files.len(), 2);
    assert_eq!(snapshot.files[0].path, snapshot.files[1].path);
    assert_ne!(
        snapshot.files[0].patch_fingerprint,
        snapshot.files[1].patch_fingerprint
    );
    assert_ne!(
        snapshot.files[0].hunks[0].lines[0].stable_line_id,
        snapshot.files[1].hunks[0].lines[0].stable_line_id
    );
    let mut identity =
        (snapshot.repository.repo_id.clone() + &snapshot.review_target.target_id).into_bytes();
    for (file, byte) in snapshot.files.iter().zip([0xfe_u8, 0xff]) {
        assert_eq!(
            file.hunks[0].lines[0].stable_line_id,
            format!(
                "line_{}",
                &util::hash_hex(&[&[byte][..], b":add:null:1:\xff"].concat())[..16]
            )
        );
        assert!(matches!(
            load_file_side(&snapshot.review_target, file, FileSide::New, &[]),
            SideSource::Worktree { path } if path == [byte]
        ));
        identity.push(byte);
        identity.extend_from_slice(file.patch_fingerprint.as_bytes());
    }
    assert_eq!(
        snapshot.snapshot_id,
        format!("snap_{}", &util::hash_hex(&identity)[..16])
    );
}

/// A side as it would be asked for.
fn side(args: &[&str], side: FileSide, revisions: &[&str]) -> String {
    let target = make_review_target(&strings(args));
    let file = parse_patch(&patch_of("x.rs", "new"), DiffSource::Explicit)
        .unwrap()
        .remove(0);
    match load_file_side(&target, &file, side, &strings(revisions)) {
        SideSource::Nothing => "nothing".into(),
        SideSource::Blob { revision, path } => {
            String::from_utf8(blob_name(&revision, &path)).unwrap()
        }
        SideSource::MergeBase { old, new, path } => {
            format!("{old}^{new}:{}", String::from_utf8(path).unwrap())
        }
        SideSource::Worktree { path } => format!("tree/{}", String::from_utf8(path).unwrap()),
    }
}

#[test]
fn explicit_targets_name_the_sources_of_their_sides() {
    for (args, revisions, old, new) in [
        (vec!["--cached"], vec![], "HEAD:x.rs", ":x.rs"),
        (vec!["--staged"], vec![], "HEAD:x.rs", ":x.rs"),
        (vec!["base"], vec!["base"], "base:x.rs", "tree/x.rs"),
        (
            vec!["base", "feature"],
            vec!["base", "feature"],
            "base:x.rs",
            "feature:x.rs",
        ),
        (
            vec!["main..feature"],
            vec![],
            "main:x.rs",
            "feature:x.rs",
        ),
        (
            vec!["main...feature"],
            vec![],
            "main^feature:x.rs",
            "feature:x.rs",
        ),
        (vec!["..feature"], vec![], "HEAD:x.rs", "feature:x.rs"),
        (vec!["base.."], vec![], "base:x.rs", "HEAD:x.rs"),
        (
            vec!["...feature"],
            vec![],
            "HEAD^feature:x.rs",
            "feature:x.rs",
        ),
        (vec!["--", "x.rs"], vec![], ":x.rs", "tree/x.rs"),
    ] {
        assert_eq!(side(&args, FileSide::Old, &revisions), old, "{args:?}");
        assert_eq!(side(&args, FileSide::New, &revisions), new, "{args:?}");
    }
    assert_eq!(side(&[], FileSide::Old, &[]), "nothing");
    let mut file = parse_patch(&patch_of("x.rs", "new"), DiffSource::Staged)
        .unwrap()
        .remove(0);
    let target = make_review_target(&[]);
    assert!(matches!(
        load_file_side(&target, &file, FileSide::Old, &[]),
        SideSource::Blob { revision, .. } if revision == "HEAD"
    ));
    file.is_binary = true;
    assert!(matches!(
        load_file_side(&target, &file, FileSide::Old, &[]),
        SideSource::Nothing
    ));
}

#[test]
fn revision_candidates_skip_options_ranges_and_pathspecs() {
    let args = strings(&["--find-renames", "HEAD", "a..b", "src/main.rs", "--", "HEAD"]);
    assert_eq!(revision_candidates(&args), ["HEAD", "src/main.rs"]);
    assert_eq!(commit_query("HEAD"), "HEAD^{commit}");
    assert_eq!(
        diff_arguments(&strings(&["--color=always", "x", "--", "--color"]), true)[6..],
        strings(&["--cached", "x", "--", "--color"])
    );
}

#[test]
fn answers_of_git_are_told_apart() {
    assert_eq!(trim_newlines(b"\r\nmain\n\r\n"), b"main");
    assert_eq!(trim_newlines(b"\n\n"), b"");
    assert_eq!(repository_root(b"/repo\n").unwrap(), b"/repo");
    assert!(matches!(
        repository_root(b"\n"),
        Err(Error::NotGitRepository)
    ));
    assert!(matches!(
        discovery_error(Error::GitCommandFailed),
        Error::NotGitRepository
    ));
    assert!(matches!(
        discovery_error(Error::Interrupted(2)),
        Error::Interrupted(2)
    ));
    let unborn =
        describe_repository(b"/repo".to_vec(), Err(Error::GitCommandFailed), b"/repo").unwrap();
    assert_eq!(unborn.current_branch, "HEAD");
    assert!(matches!(
        describe_repository(b"/repo".to_vec(), Err(Error::DiffTooLarge), b"/repo"),
        Err(Error::DiffTooLarge)
    ));
    assert_eq!(merge_base(b"abc\xff\n"), "abc\u{fffd}");
    assert_eq!(pipe_error(Some(10), 10), None);
    assert_eq!(pipe_error(Some(11), 10), Some(Error::DiffTooLarge));
    assert_eq!(pipe_error(None, 10), Some(Error::GitCommandFailed));
    assert_eq!(command_result(None, Some(true)), Ok(()));
    assert_eq!(
        command_result(None, Some(false)),
        Err(Error::GitCommandFailed)
    );
    assert_eq!(command_result(None, None), Err(Error::GitCommandFailed));
    assert_eq!(
        command_result(Some(Error::Interrupted(15)), Some(true)),
        Err(Error::Interrupted(15))
    );
    assert_eq!(read_blob(Ok(vec![1])), Ok(Some(vec![1])));
    assert_eq!(read_blob(Err(Error::GitCommandFailed)), Ok(None));
    assert_eq!(
        read_blob(Err(Error::DiffTooLarge)),
        Err(Error::DiffTooLarge)
    );
    let long = vec![b'x'; MAX_SOURCE_BYTES + 1];
    assert_eq!(read_worktree_file(WorktreeRead::Content(long)), Ok(None));
    assert_eq!(
        read_worktree_file(WorktreeRead::Content(vec![1])),
        Ok(Some(vec![1]))
    );
    assert_eq!(read_worktree_file(WorktreeRead::Absent), Ok(None));
    assert_eq!(
        read_worktree_file(WorktreeRead::Failed),
        Err(Error::GitCommandFailed)
    );
}

#[test]
fn bounded_buffers_take_parts_as_they_take_the_whole() {
    let bytes: Vec<u8> = (0..100).collect();
    for size in [1, 7, 50, 100] {
        let mut buffer = BoundedBuffer::new(60);
        for part in bytes.chunks(size) {
            buffer.feed(part);
        }
        assert_eq!(buffer.bytes, read_bounded(&bytes, 60));
        assert_eq!(buffer.room(), 0);
        assert!(buffer.is_oversize());
    }
}

#[test]
fn paths_behind_dashes_are_never_options() {
    let raw = strings(&["--color", "HEAD", "--color=always", "--", "--color", "a.txt"]);
    let args = diff_arguments(&raw, true);
    assert_eq!(args.last().map(String::as_str), Some("a.txt"));
    assert_eq!(
        args[args.len() - 5..],
        strings(&["--cached", "HEAD", "--", "--color", "a.txt"])
    );
}

#[test]
fn untracked_files_are_read_back_as_added() {
    let mut patch = Vec::new();
    append_untracked_patch(&mut patch, b"one.txt", b"++ a\r\ndiff --git a/x b/x\n\nlast");
    append_untracked_patch(&mut patch, b"two b/two.bin", b"\0");
    append_untracked_patch(&mut patch, b"three", b"");
    let files = parse_patch(&patch, DiffSource::Untracked).unwrap();
    assert_eq!(files.len(), 3);
    assert_eq!((files[0].path.as_str(), files[0].status), ("one.txt", FileStatus::Added));
    assert_eq!(files[0].old_path.as_deref(), Some("one.txt"));
    let lines: Vec<(&str, Option<u32>)> = files[0].hunks[0]
        .lines
        .iter()
        .map(|l| (l.text.as_str(), l.new_lineno))
        .collect();
    assert_eq!(
        lines,
        [
            ("++ a", Some(1)),
            ("diff --git a/x b/x", Some(2)),
            ("", Some(3)),
            ("last", Some(4)),
        ]
    );
    assert_eq!((files[1].status, files[1].is_binary), (FileStatus::Binary, true));
    assert_eq!((files[2].path.as_str(), files[2].hunks.len()), ("three", 0));
}

use diffo::diff::{
    detect_language, make_review_target, parse_patch, raw_file_paths, DiffLineKind, DiffSource,
    FileStatus, ReviewTargetKind,
};
use diffo::util;
use diffo::Error;

#[test]
fn detects_all_legacy_languages() {
    for (path, language) in [
        ("src/app.ts", "typescript"),
        ("src/app.tsx", "tsx"),
        ("a.mts", "typescript"),
        ("a.cts", "typescript"),
        ("a.js", "javascript"),
        ("a.cjs", "javascript"),
        ("a.mjs", "javascript"),
        ("a.jsx", "javascript"),
        ("src/lib.rs", "rust"),
        ("a.c", "c"),
        ("a.h", "c"),
        ("a.cpp", "cpp"),
        ("a.hh", "cpp"),
        ("a.py", "python"),
        ("a.pyw", "python"),
        ("BUILD.gn", "gn"),
        ("imports.gni", "gn"),
        (".gn", "gn"),
        ("Makefile", "make"),
        ("Dockerfile", "dockerfile"),
        ("build.zig", "zig"),
        ("a.go", "go"),
        ("a.java", "java"),
        ("a.md", "markdown"),
        ("a.json", "json"),
        ("a.html", "html"),
        ("a.css", "css"),
    ] {
        assert_eq!(detect_language(path).as_deref(), Some(language));
    }
    assert_eq!(detect_language("README"), None);
    assert_eq!(detect_language(".rs"), None);
    assert_eq!(detect_language("a.rs/"), Some("rust".into()));
        assert_eq!(detect_language("dir\\Makefile"), None);
}
#[test]
fn parses_unified_diff_and_header_like_content() {
    let patch = b"diff --git a/src/main.zig b/src/main.zig\nindex 1111111..2222222 100644\n--- a/src/main.zig\n+++ b/src/main.zig\n@@ -1,2 +1,3 @@\n const std = @import(\"std\");\n-old();\n+new();\n+extra();\n";
    let files = parse_patch(patch, DiffSource::Explicit).unwrap();
    assert_eq!(files.len(), 1);
    assert_eq!(files[0].path, "src/main.zig");
    assert_eq!(files[0].hunks.len(), 1);
    assert_eq!(files[0].hunks[0].lines.len(), 4);
    assert_eq!(files[0].hunks[0].lines[2].kind, DiffLineKind::Add);
    let file = parse_patch(b"diff --git a/notes.txt b/notes.txt\n--- a/notes.txt\n+++ b/notes.txt\n@@ -1,2 +1,2 @@\n keep\n--- deleted prefix\n+++ added prefix\n", DiffSource::Explicit).unwrap().remove(0);
    assert_eq!(file.path, "notes.txt");
    assert_eq!(file.hunks[0].lines[1].text, "-- deleted prefix");
    assert_eq!(file.hunks[0].lines[2].text, "++ added prefix");
}
#[test]
fn malformed_later_header_fails_and_counters_saturate() {
    assert!(matches!(
        parse_patch(
            b"diff --git a/x b/x\n@@ -1,1 +1,1 @@\n a\n@@ bogus header @@\n",
            DiffSource::Explicit
        ),
        Err(Error::ParseFailed)
    ));
    let file = parse_patch(
        b"diff --git a/x b/x\n@@ -4294967295,2 +4294967295,2 @@\n a\n b\n",
        DiffSource::Explicit,
    )
    .unwrap()
    .remove(0);
    assert_eq!(file.hunks[0].lines[1].old_lineno, Some(u32::MAX));
}
#[test]
fn raw_patch_and_anchor_hashes_preserve_invalid_utf8_and_crlf() {
    let patch = b"\ndiff --git a/x b/x\r\n@@ -0,0 +1,1 @@\r\n+\xff\r\n\\ No newline at end of file\r\n\n";
    let file = parse_patch(patch, DiffSource::Untracked).unwrap().remove(0);
    assert_eq!(file.patch_text, patch[1..patch.len() - 2]);
    assert_eq!(
        file.patch_fingerprint,
        format!("sha256:{}", util::hash_hex(&patch[1..patch.len() - 2]))
    );
    assert_eq!(
        file.hunks[0].lines[0].stable_line_id,
        format!("line_{}", &util::hash_hex(b"x:add:null:1:\xff")[..16])
    );
    assert_eq!(
        file.hunks[0].lines[1].stable_line_id,
        format!(
            "line_{}",
            &util::hash_hex(b"x:meta:null:null:\\ No newline at end of file")[..16]
        )
    );
}
#[test]
fn multi_file_status_and_raw_paths() {
    let files = parse_patch(b"preamble\ndiff --git a/old b/new\nrename from old\nrename to new\ndiff --git a/a b/b\ncopy from a\ncopy to b\ndiff --git a/bin b/bin\nGIT binary patch\ndiff --git a/\xff b/\xff\n@@ -0,0 +1 @@\n+hi\n", DiffSource::Explicit).unwrap();
    assert_eq!(files.len(), 4);
    assert_eq!(files[0].status, FileStatus::Renamed);
    assert_eq!(files[1].status, FileStatus::Copied);
    assert!(files[2].is_binary);
    assert_eq!(raw_file_paths(&files[3]).0, b"\xff");
    assert_eq!(
        files[3].hunks[0].lines[0].stable_line_id,
        format!("line_{}", &util::hash_hex(b"\xff:add:null:1:hi")[..16])
    );
}
#[test]
fn target_kind_order_and_identity_match_legacy() {
    for (args, kind) in [
        (vec![], ReviewTargetKind::WorkingTree),
        (vec!["--cached"], ReviewTargetKind::Cached),
        (vec!["--staged"], ReviewTargetKind::Cached),
        (vec!["HEAD"], ReviewTargetKind::Commit),
        (vec!["main..feature"], ReviewTargetKind::Range),
        (
            vec!["main...feature", "--", "src"],
            ReviewTargetKind::SymmetricRange,
        ),
        (vec!["main..feature", "--cached"], ReviewTargetKind::Range),
    ] {
        let args: Vec<_> = args.into_iter().map(String::from).collect();
        let target = make_review_target(&args);
        assert_eq!(target.kind, kind);
        assert_eq!(
            target.target_id,
            format!(
                "target_{}",
                &util::hash_hex(
                    format!("{}:{}", kind.label(), util::join_args(&args)).as_bytes()
                )[..16]
            )
        );
    }
}

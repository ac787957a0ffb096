use diffo::diff::{
    self, parse_patch, DiffFile, DiffLine, DiffLineKind, DiffSnapshot, DiffSource, Repository,
};
use diffo::json::{document_bytes, parse_json, whole_number};
use diffo::store::{state_directory, MatchStatus, Store};
use diffo::Error;
use serde_json::Value;

const NOW: &str = "2026-01-01T00:00:00Z";
const COMMENTS: &str = "{\"schema_version\": 1, \"extension\": {\"keep\": true}, \"comments\": [{\"comment_id\":\"cmt_v1\",\"repository_id\":\"repo\",\"review_target_id\":\"target\",\"file_path\":\"a.txt\",\"anchor\":{\"side\":\"new\",\"start_line\":1,\"end_line\":2,\"stable_line_ids\":[\"line_one\",\"line_two\"],\"hunk_header\":\"@@ -1 +1 @@\",\"context_before\":[\"before 文本\"],\"context_after\":[\"after\"],\"patch_fingerprint\":\"sha256:old\",\"match_status\":\"relocated\",\"extension\":42},\"body\":\"body\\n\\\"text\\\"\",\"author\":\"tester\",\"created_at\":\"2026-01-01T00:00:00Z\",\"updated_at\":\"2026-01-01T00:00:00Z\",\"extension\":\"keep\"}]}";
const STATES: &str = "{\"schema_version\":1,\"extension\":true,\"states\":[{\"repository_id\":\"repo\",\"review_target_id\":\"target\",\"file_path\":\"a.txt\",\"status\":\"reviewed\",\"patch_fingerprint\":\"sha256:old\",\"updated_at\":\"now\",\"extension\":42}]}";

fn empty() -> Store {
    Store::open(Vec::new(), None, None).unwrap()
}

fn value(bytes: &[u8]) -> Value {
    serde_json::from_slice(bytes).unwrap()
}

fn sample_file() -> DiffFile {
    parse_patch(
        b"diff --git a/a.txt b/a.txt\n--- a/a.txt\n+++ b/a.txt\n@@ -1 +1 @@\n-old\n+new\n",
        DiffSource::Explicit,
    )
    .unwrap()
    .remove(0)
}

fn sample_line(file: &DiffFile) -> &DiffLine {
    file.hunks[0]
        .lines
        .iter()
        .find(|l| l.kind == DiffLineKind::Add)
        .unwrap()
}

fn add(store: &mut Store, target: &str, file: &DiffFile) {
    let (change, _) = store.add_comment(
        "repo",
        target,
        file,
        sample_line(file),
        &file.hunks[0].header,
        0,
        "body",
        "tester",
        NOW,
    );
    store.apply_comments(change, true).unwrap();
}

fn mark(store: &mut Store, target: &str, file: &DiffFile, reviewed: bool) {
    let change = store.set_reviewed("repo", target, file, reviewed, NOW);
    store.apply_states(change, true).unwrap();
}

#[test]
fn store_schema_v1_roundtrip_preserves_extra_anchor_data() {
    let store = Store::open(
        Vec::new(),
        Some(COMMENTS.as_bytes().to_vec()),
        Some(STATES.as_bytes().to_vec()),
    )
    .unwrap();
    assert_eq!(store.comments[0].match_status, MatchStatus::Relocated);
    assert_eq!(store.comments[0].context_before, ["before 文本"]);
    assert_eq!(store.comments[0].stable_line_id, "line_one");
    let (comments, states) = store.save();
    assert_eq!(
        value(&document_bytes(&comments).unwrap()),
        value(COMMENTS.as_bytes())
    );
    assert_eq!(
        value(&document_bytes(&states).unwrap()),
        value(STATES.as_bytes())
    );
}

#[test]
fn store_mutations_preserve_memory_and_disk_on_write_failure() {
    let mut store = empty();
    let file = sample_file();
    add(&mut store, "target", &file);
    mark(&mut store, "target", &file, true);
    let before = store.save();
    let (count, change) = store.remove_all_comments(None);
    assert_eq!(count, 1);
    assert_eq!(
        store.apply_comments(change.unwrap(), false),
        Err(Error::StorageWriteFailed)
    );
    assert_eq!(store.comments.len(), 1);
    let (change, _) = store.add_comment(
        "repo",
        "target",
        &file,
        sample_line(&file),
        "header",
        0,
        "second",
        "tester",
        NOW,
    );
    assert_eq!(
        store.apply_comments(change, false),
        Err(Error::StorageWriteFailed)
    );
    assert_eq!(store.comments.len(), 1);
    let change = store.set_reviewed("repo", "target", &file, false, NOW);
    assert_eq!(
        store.apply_states(change, false),
        Err(Error::StorageWriteFailed)
    );
    assert!(store.is_reviewed(&file.path, &file.patch_fingerprint, "target"));
    let after = store.save();
    assert_eq!(document_bytes(&after.0), document_bytes(&before.0));
    assert_eq!(document_bytes(&after.1), document_bytes(&before.1));
}

#[test]
fn store_refresh_and_removal_respect_target_file_and_fingerprint() {
    let mut store = empty();
    let mut file = sample_file();
    add(&mut store, "target_a", &file);
    add(&mut store, "target_b", &file);
    let mut other = file.clone();
    other.path = "b.txt".into();
    add(&mut store, "target_a", &other);
    mark(&mut store, "target_a", &file, true);
    assert!(store.is_reviewed("a.txt", &file.patch_fingerprint, "target_a"));
    assert!(!store.is_reviewed("a.txt", "different", "target_a"));
    assert!(!store.is_reviewed("a.txt", &file.patch_fingerprint, "target_b"));
    file.patch_fingerprint = "changed".into();
    let mut target = diff::make_review_target(&[]);
    target.target_id = "target_a".into();
    let snapshot = DiffSnapshot {
        snapshot_id: "snapshot".into(),
        repository: Repository {
            root_path: b"repo".to_vec(),
            repo_id: "repo".into(),
            current_branch: "main".into(),
        },
        review_target: target,
        files: vec![file],
    };
    store.refresh_match_status(&snapshot);
    assert_eq!(store.comments[0].match_status, MatchStatus::Stale);
    assert_eq!(store.comments[1].match_status, MatchStatus::Exact);
    assert_eq!(store.comments[2].match_status, MatchStatus::Missing);
    assert_eq!(store.comment_count("a.txt", "target_a"), 1);
    assert_eq!(store.comment_count("a.txt", "target_b"), 1);
    assert_eq!(store.outdated_comment_count("target_a", Some("a.txt")), 1);
    let (count, change) = store.remove_outdated_comments("target_a", Some("a.txt"));
    assert_eq!(count, 1);
    store.apply_comments(change.unwrap(), true).unwrap();
    assert_eq!(store.comments.len(), 2);
    let (count, change) = store.remove_all_comments(Some("a.txt"));
    assert_eq!(count, 1);
    store.apply_comments(change.unwrap(), true).unwrap();
    assert_eq!(store.comments[0].file_path, "b.txt");
    let (count, change) = store.remove_all_comments(None);
    assert_eq!(count, 1);
    store.apply_comments(change.unwrap(), true).unwrap();
    let (comments, _) = store.save();
    let reopened = Store::open(Vec::new(), document_bytes(&comments), None).unwrap();
    assert!(reopened.comments.is_empty());
    let (count, change) = store.remove_all_comments(None);
    assert_eq!(count, 0);
    assert!(change.is_none());
}

#[test]
fn store_invalid_documents_fail_closed_and_numeric_fields_are_bounded() {
    for bytes in [
        b"not json".as_slice(),
        b"[]",
        b"{\"comments\":{}}",
        b"{\"schema_version\":2,\"comments\":[]}",
        b"{\"comments\":[1]}",
    ] {
        assert!(matches!(
            Store::open(Vec::new(), Some(bytes.to_vec()), None),
            Err(Error::StorageCorrupted)
        ));
    }
    assert!(matches!(
        Store::open(Vec::new(), None, Some(b"{\"states\":[1]}".to_vec())),
        Err(Error::StorageCorrupted)
    ));
    let numbers = br#"{"schema_version":1,"comments":[{"anchor":{"start_line":-1,"end_line":4294967296}},{"anchor":{"start_line":1.9,"end_line":4294967295}}]}"#;
    let store = Store::open(Vec::new(), Some(numbers.to_vec()), None).unwrap();
    assert_eq!(
        (store.comments[0].start_line, store.comments[0].end_line),
        (0, 0)
    );
    assert_eq!(
        (store.comments[1].start_line, store.comments[1].end_line),
        (1, u32::MAX)
    );
}

#[test]
fn whole_parts_are_those_of_the_number() {
    for (number, whole) in [
        (0.0, 0),
        (-0.0, 0),
        (0.999, 0),
        (1.0, 1),
        (1.9, 1),
        (-1.5, 0),
        (1e300, 0),
        (5e-324, 0),
        (65535.5, 65535),
        (2147483648.0, 2147483648),
        (4294967294.75, 4294967294),
        (4294967295.0, u32::MAX),
        (4294967295.5, 0),
        (4294967296.0, 0),
    ] {
        let n = serde_json::Number::from_f64(number).unwrap();
        assert_eq!(whole_number(&n), whole, "{number}");
    }
}

#[test]
fn documents_are_read_and_written_by_the_same_rules() {
    assert!(parse_json(b"{broken").is_none());
    let document = parse_json("{\"b\":[null,true,-3,2.5,\"架\"],\"a\":{}}".as_bytes()).unwrap();
    let written = document_bytes(&document).unwrap();
    assert_eq!(
        String::from_utf8(written.clone()).unwrap(),
        "{\n  \"b\": [\n    null,\n    true,\n    -3,\n    2.5,\n    \"架\"\n  ],\n  \"a\": {}\n}\n"
    );
    let again = document_bytes(&parse_json(&written).unwrap()).unwrap();
    assert_eq!(again, written);
}

#[test]
fn marks_are_kept_per_file_target_and_patch() {
    let mut store = empty();
    let file = sample_file();
    let mut other = file.clone();
    other.path = "b.txt".into();
    mark(&mut store, "target", &file, true);
    mark(&mut store, "target", &other, true);
    mark(&mut store, "target", &file, false);
    assert_eq!(store.states.len(), 2);
    assert!(!store.is_reviewed("a.txt", &file.patch_fingerprint, "target"));
    assert!(store.is_reviewed("b.txt", &file.patch_fingerprint, "target"));
    assert_eq!(
        store.status_for_file("a.txt", &file.patch_fingerprint, "target"),
        "unreviewed"
    );
    let (_, states) = store.save();
    let reopened = Store::open(Vec::new(), None, document_bytes(&states)).unwrap();
    assert!(reopened.is_reviewed("b.txt", &file.patch_fingerprint, "target"));
}

#[test]
fn a_changed_patch_is_unreviewed_until_it_is_marked_again() {
    let mut store = empty();
    let file = sample_file();
    let mut changed = file.clone();
    changed.patch_fingerprint = "sha256:changed".into();
    mark(&mut store, "target", &file, true);
    assert!(store.is_reviewed("a.txt", &file.patch_fingerprint, "target"));
    assert!(!store.is_reviewed("a.txt", &changed.patch_fingerprint, "target"));
    mark(&mut store, "target", &changed, true);
    assert_eq!(store.states.len(), 1);
    assert!(!store.is_reviewed("a.txt", &file.patch_fingerprint, "target"));
    assert!(store.is_reviewed("a.txt", &changed.patch_fingerprint, "target"));
}

#[test]
fn documents_are_kept_per_repository_below_the_state_directory() {
    let path = |state: Option<&str>, home: Option<&str>| {
        let bytes = |s: &str| s.as_bytes().to_vec();
        let path = state_directory(state.map(bytes), home.map(bytes), "repo_1");
        String::from_utf8(path).unwrap()
    };
    assert_eq!(path(None, Some("/home/me")), "/home/me/.local/state/diffo/repos/repo_1");
    assert_eq!(path(None, None), "./.local/state/diffo/repos/repo_1");
    assert_eq!(path(Some("relative-state"), Some("/home/me")), "relative-state/diffo/repos/repo_1");
    assert_eq!(path(Some("/state/"), None), "/state/diffo/repos/repo_1");
    assert_eq!(path(Some(""), None), "diffo/repos/repo_1");
}

#[test]
fn a_store_keeps_its_directory() {
    let mut store = Store::open(b"/state/repo".to_vec(), None, None).unwrap();
    let file = sample_file();
    add(&mut store, "target", &file);
    mark(&mut store, "target", &file, true);
    let change = store.set_reviewed("repo", "target", &file, false, NOW);
    assert!(matches!(
        store.apply_states(change, false),
        Err(Error::StorageWriteFailed)
    ));
    assert_eq!(store.repo_dir, b"/state/repo");
}

use diffo::cli::{
    add_comment, comment_text, comments_command, help_text, mark_file, parse_arguments, parse_line,
    quote, review_output, split_debug, Command,
};
use diffo::diff::{make_review_target, DiffSnapshot, Repository};
use diffo::git::load_snapshot;
use diffo::json::document_bytes;
use diffo::store::Store;
use diffo::theme::{list_builtins, validate_theme_bytes};
use diffo::util::default_author;
use diffo::Error;
use serde_json::Value;

#[test]
fn decimal_line_arguments_follow_zig_parser() {
    for (text, expected) in [
        ("0", 0),
        ("-0", 0),
        ("+01", 1),
        ("1__0", 10),
        ("4_294_967_295", u32::MAX),
    ] {
        assert_eq!(parse_line(text).unwrap(), expected);
    }
    for text in ["", "+", "-1", "_1", "1_", "0x10", " 1", "4294967296"] {
        assert!(parse_line(text).is_err(), "{text}");
    }
}

#[test]
fn json_string_spelling_preserves_control_character_compatibility() {
    let input = "\u{0008}\u{000c}\n\r\t\"\\ 文本";
    assert_eq!(quote(input), "\"\\u0008\\u000c\\n\\r\\t\\\"\\\\ 文本\"");
    assert_eq!(
        serde_json::from_str::<String>(&quote(input)).unwrap(),
        input
    );
}

const OLD: &str = "diff --git a/a.txt b/a.txt\n--- a/a.txt\n+++ b/a.txt\n@@ -1,2 +1,2 @@\n-old\n+new\n context\n";
const NEWER: &str = "diff --git a/a.txt b/a.txt\n--- a/a.txt\n+++ b/a.txt\n@@ -1,2 +1,2 @@\n-old\n+newer\n context\n";
const NOW: &str = "2026-01-01T00:00:00Z";
const BODY: &str = "Unicode 文本\nquote \" slash \\ tab\t";

struct Session {
    store: Store,
    patch: &'static str,
}

impl Session {
    fn new() -> Self {
        Self {
            store: Store::open(Vec::new(), None, None).unwrap(),
            patch: OLD,
        }
    }
    fn snapshot(&self) -> DiffSnapshot {
        let repo = Repository {
            root_path: b"/repo".to_vec(),
            repo_id: "repo_test".into(),
            current_branch: "main".into(),
        };
        let outputs = vec![self.patch.as_bytes().to_vec(), Vec::new()];
        load_snapshot(repo, make_review_target(&[]), outputs, Vec::new()).unwrap()
    }
    fn run(&mut self, args: &[&str]) -> Result<String, Error> {
        let args: Vec<String> = args.iter().map(|a| a.to_string()).collect();
        let (_, args) = split_debug(&args);
        let snapshot = self.snapshot();
        match parse_arguments(&args)? {
            Command::Help => Ok(help_text().to_string()),
            Command::ReviewStatus { file, json } => Ok(review_output(
                &snapshot,
                &self.store,
                file.as_deref(),
                json,
            )),
            Command::ReviewMark { file, reviewed } => {
                let change = mark_file(&snapshot, &self.store, &file, reviewed, NOW)?;
                self.store.apply_states(change, true)?;
                Ok(review_output(&snapshot, &self.store, Some(&file), false))
            }
            Command::ListThemes => Ok(list_builtins()),
            Command::ValidateTheme { path } => panic!("no file {path}"),
            Command::Review { args } => panic!("no review of {args:?}"),
            command => {
                let reply =
                    comments_command(command, &snapshot, &mut self.store, "Test Author", NOW)?;
                if let Some(change) = reply.change {
                    self.store.apply_comments(change, true)?;
                }
                Ok(reply.output)
            }
        }
    }
    fn text(&mut self, args: &[&str]) -> String {
        self.run(args).unwrap()
    }
    fn json(&mut self, args: &[&str]) -> Value {
        serde_json::from_str(&self.text(args)).unwrap()
    }
    fn add(&mut self) -> String {
        self.text(&[
            "comments", "add", "--file", "a.txt", "--line", "1", "--end", "2", "--body", BODY,
        ])
    }
}

#[test]
fn cli_comment_review_and_cleanup_lifecycle() {
    let mut f = Session::new();
    assert_eq!(f.text(&["comments", "list"]), "no comments\n");
    let initial = f.json(&["review", "status", "--json"]);
    assert_eq!(initial["schema_version"], 1);
    assert_eq!(initial["files"][0]["status"], "unreviewed");
    let added = f.add();
    assert!(added.contains("a.txt:1-2 [exact] Test Author\n"));
    let list = f.json(&["comments", "list", "--json"]);
    assert_eq!(list["comments"].as_array().unwrap().len(), 1);
    let c = &list["comments"][0];
    assert_eq!(c["side"], "old");
    assert_eq!(c["body"], BODY);
    assert_eq!(list["review_target_id"], c["review_target_id"]);
    let id = c["comment_id"].as_str().unwrap();
    assert_eq!(f.text(&["comments", "get", id]), added);
    assert_eq!(f.json(&["comments", "get", id, "ignored", "--json"]), *c);
    assert_eq!(
        f.text(&["comments", "list", "--file", "absent"]),
        "no comments\n"
    );
    assert!(f
        .text(&["review", "mark", "--file", "a.txt"])
        .starts_with("reviewed a.txt comments=1 fingerprint="));
    assert_eq!(
        f.json(&["review", "status", "--json"])["files"][0]["status"],
        "reviewed"
    );
    assert!(f
        .text(&["review", "mark", "--file", "a.txt", "--unreviewed"])
        .starts_with("unreviewed"));
    f.text(&["review", "mark", "--file", "a.txt"]);
    f.patch = NEWER;
    assert_eq!(
        f.json(&["comments", "list", "--json"])["comments"][0]["match_status"],
        "stale"
    );
    assert_eq!(
        f.json(&["review", "status", "--json"])["files"][0]["status"],
        "unreviewed"
    );
    let dry = f.json(&["comments", "cleanup", "--dry-run", "--json"]);
    assert_eq!(dry["removed_count"], 1);
    assert_eq!(dry["dry_run"], true);
    assert_eq!(dry["all"], false);
    assert_eq!(f.store.comments.len(), 1);
    assert_eq!(
        f.text(&["comments", "clean"]),
        "removed 1 outdated comments\n"
    );
    assert_eq!(f.text(&["comments", "list"]), "no comments\n");
}

#[test]
fn cli_lists_all_targets_but_default_cleanup_only_removes_current_target() {
    let mut f = Session::new();
    f.add();
    let (comments, _) = f.store.save();
    let mut data: Value = serde_json::from_slice(&document_bytes(&comments).unwrap()).unwrap();
    let mut other = data["comments"][0].clone();
    other["comment_id"] = Value::from("other-target");
    other["review_target_id"] = Value::from("target_other");
    other["anchor"]["match_status"] = Value::from("stale");
    data["comments"].as_array_mut().unwrap().push(other);
    f.store = Store::open(Vec::new(), Some(serde_json::to_vec(&data).unwrap()), None).unwrap();
    let list = f.json(&["comments", "list", "--json"]);
    assert_eq!(list["comments"].as_array().unwrap().len(), 2);
    assert_eq!(
        f.json(&["review", "status", "--json"])["files"][0]["comment_count"],
        1
    );
    assert_eq!(
        f.text(&["comments", "clean"]),
        "removed 0 outdated comments\n"
    );
    assert_eq!(
        f.text(&["comments", "clean", "--all", "--dry-run"]),
        "would remove 2 comments\n"
    );
    assert_eq!(
        f.json(&["comments", "clean", "--all", "--file", "a.txt", "--json"])["removed_count"],
        2
    );
    assert_eq!(f.text(&["comments", "list"]), "no comments\n");
}

#[test]
fn cli_missing_comments_and_empty_review() {
    let mut f = Session::new();
    f.add();
    f.patch = "";
    assert_eq!(f.text(&["review", "status"]), "no changed files\n");
    assert_eq!(
        f.json(&["review", "status", "--json"])["files"],
        Value::Array(Vec::new())
    );
    assert_eq!(
        f.json(&["comments", "list", "--json"])["comments"][0]["match_status"],
        "missing"
    );
    assert_eq!(
        f.text(&["comments", "clean", "--dry-run"]),
        "would remove 1 outdated comments\n"
    );
}

#[test]
fn cli_argument_errors_and_help() {
    let mut f = Session::new();
    let help = f.text(&["--help"]);
    assert!(help.starts_with("diffo - terminal Git diff review\n\nUsage:\n"));
    assert!(help.contains("diffo comments clean [--all]"));
    assert_eq!(help, f.text(&["--debug-git", "-h"]));
    for args in [
        vec!["comments"],
        vec!["comments", "list", "--bad"],
        vec!["comments", "list", "--file"],
        vec!["comments", "get", "absent"],
        vec![
            "comments",
            "add",
            "--file",
            "a.txt",
            "--line",
            "4294967296",
            "--body",
            "x",
        ],
        vec![
            "comments", "add", "--file", "a.txt", "--line", "-1", "--body", "x",
        ],
        vec![
            "comments", "add", "--file", "a.txt", "--line", "999", "--body", "x",
        ],
        vec!["review"],
        vec!["review", "mark"],
        vec!["review", "mark", "--file", "absent"],
        vec!["review", "status", "--reviewed"],
        vec!["themes", "validate"],
        vec!["themes", "unknown"],
    ] {
        let error = f.run(&args).unwrap_err();
        assert_eq!(
            error.report(),
            "invalid arguments; use diffo --help",
            "{args:?}"
        );
    }
}

#[test]
fn cli_themes_commands_preserve_output() {
    let mut f = Session::new();
    assert_eq!(
        f.text(&["themes", "list", "ignored"]),
        "catppuccin-mocha  built-in default\nbase16/base24     supported via diffo themes validate <file>\n"
    );
    for count in [16, 24] {
        let content: String = (0..count)
            .map(|i| format!("base{i:02x}: \"abcdef\"\n"))
            .collect();
        assert_eq!(
            validate_theme_bytes(content.as_bytes()).unwrap(),
            format!("valid Base{count} theme ({count} color slots)")
        );
    }
    assert_eq!(
        validate_theme_bytes(b"not a theme").unwrap_err().report(),
        "theme file does not look like Base16/Base24"
    );
}

#[test]
fn cli_author_precedence_and_zero_end_line() {
    for (author, user, expected) in [
        (Some("Author"), Some("User"), "Author"),
        (None, Some("User"), "User"),
        (None, None, "local"),
        (Some(""), Some("User"), ""),
    ] {
        let f = Session::new();
        let snapshot = f.snapshot();
        let name = default_author(author.map(String::from), user.map(String::from));
        let end = parse_line("-0").unwrap();
        let line = parse_line("+1").unwrap();
        let (_, comment) = add_comment(
            &snapshot, &f.store, "a.txt", line, end, expected, &name, NOW,
        )
        .unwrap();
        assert!(comment_text(&comment).contains(&format!("a.txt:1-1 [exact] {expected}\n")));
    }
}

#[test]
fn every_error_has_its_words() {
    for (error, message, report) in [
        (
            Error::NotGitRepository,
            "current directory is not inside a Git repository",
            "current directory is not inside a Git repository",
        ),
        (
            Error::GitCommandFailed,
            "git command failed; run with --debug-git for details",
            "git command failed; run with --debug-git for details",
        ),
        (
            Error::DiffTooLarge,
            "diff is too large to load (over 200MB); narrow the review range",
            "diff is too large to load (over 200MB); narrow the review range",
        ),
        (
            Error::Interrupted(15),
            "interrupted by signal 15",
            "interrupted by signal 15",
        ),
        (
            Error::Interrupted(i32::MIN),
            "interrupted by signal -2147483648",
            "interrupted by signal -2147483648",
        ),
        (
            Error::StorageCorrupted,
            "stored review data is corrupted",
            "stored review data is corrupted",
        ),
        (
            Error::StorageWriteFailed,
            "could not write stored review data",
            "StorageWriteFailed",
        ),
        (Error::ParseFailed, "could not parse Git diff", "ParseFailed"),
        (
            Error::SyntaxUnavailable,
            "syntax highlighting is unavailable",
            "SyntaxUnavailable",
        ),
        (
            Error::SourceTooLarge,
            "source is too large for syntax highlighting",
            "SourceTooLarge",
        ),
    ] {
        assert_eq!(error.message(), message);
        assert_eq!(error.report(), report);
    }
}

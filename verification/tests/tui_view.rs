use diffo::diff::{parse_patch, DiffFile, DiffSource};
use diffo::tui_view::{
    build_file_view, fold_state, next_change, previous_change, ChangeSpan, FoldEntry, FoldId,
    FoldMode, FoldState, RowKind, ViewMode, CONTEXT_RADIUS, MIN_FOLD_LINES,
};

fn file(body: &str) -> DiffFile {
    let patch = format!(
        "diff --git a/a.zig b/a.zig\n--- a/a.zig\n+++ b/a.zig\n@@ -1,18 +1,18 @@\n{body}"
    );
    parse_patch(patch.as_bytes(), DiffSource::Explicit)
        .unwrap()
        .remove(0)
}

const LONG_CONTEXT: &str = " one\n two\n three\n four\n five\n six\n six-a\n six-b\n six-c\n six-d\n-old();\n+new();\n seven\n eight\n nine\n ten\n eleven\n twelve\n";

#[test]
fn line_number_width_includes_both_sides_and_hidden_context() {
    let patch = format!(
        "diff --git a/a.zig b/a.zig\n--- a/a.zig\n+++ b/a.zig\n@@ -100000,18 +1,18 @@\n{LONG_CONTEXT}"
    );
    let file = parse_patch(patch.as_bytes(), DiffSource::Explicit)
        .unwrap()
        .remove(0);
    for mode in [ViewMode::Stacked, ViewMode::Split] {
        for fold_mode in [FoldMode::Fold, FoldMode::Unfold] {
            assert_eq!(
                build_file_view(&file, 0, mode, fold_mode, &[]).line_number_width,
                6
            );
        }
    }
    assert_eq!(
        build_file_view(
            &self::file("+short\n"),
            0,
            ViewMode::Stacked,
            FoldMode::Unfold,
            &[]
        )
        .line_number_width,
        4
    );
}

#[test]
fn unfold_shows_long_context_without_fold_row() {
    let file = file(LONG_CONTEXT);
    for mode in [ViewMode::Stacked, ViewMode::Split] {
        let view = build_file_view(&file, 0, mode, FoldMode::Unfold, &[]);
        assert!(view.rows.iter().all(|row| row.kind != RowKind::Fold));
        assert!(
            view.rows
                .iter()
                .any(|row| row.comment_line().is_some_and(|line| line.text == "six-a"))
        );
        assert_eq!((view.additions, view.deletions), (1, 1));
    }
}

#[test]
fn stacked_and_split_fold_distant_context_keep_nearby_context() {
    let file = file(LONG_CONTEXT);
    for mode in [ViewMode::Stacked, ViewMode::Split] {
        let view = build_file_view(&file, 0, mode, FoldMode::Fold, &[]);
        let folds: Vec<_> = view
            .rows
            .iter()
            .filter(|row| row.kind == RowKind::Fold)
            .collect();
        assert_eq!(folds.len(), 1);
        assert_eq!(folds[0].fold_line_count, 7);
        assert!(folds[0].comment_line().is_none());
        assert!(view.rows.iter().any(|row| row.fold_id.is_none()
            && row.comment_line().is_some_and(|line| line.text == "six-b")));
        assert!(
            !view
                .rows
                .iter()
                .any(|row| row.comment_line().is_some_and(|line| line.text == "six-a"))
        );
        // Three distant lines after the change do not meet the minimum of four.
        assert!(
            view.rows
                .iter()
                .any(|row| row.comment_line().is_some_and(|line| line.text == "twelve"))
        );
    }
}

#[test]
fn fold_keeps_context_when_hunk_has_no_changes() {
    let file = file(" one\n two\n three\n four\n five\n");
    for mode in [ViewMode::Stacked, ViewMode::Split] {
        let view = build_file_view(&file, 0, mode, FoldMode::Fold, &[]);
        assert_eq!(view.rows.len(), 6);
        assert!(view.rows.iter().all(|row| row.kind != RowKind::Fold));
        assert!(view.changes.is_empty());
    }
}

#[test]
fn split_pairs_deletes_and_adds_and_prefers_new_comment_line() {
    let file = file(" const std = @import(\"std\");\n-old();\n+new();\n+extra();\n");
    let view = build_file_view(&file, 0, ViewMode::Split, FoldMode::Unfold, &[]);
    let paired = &view.rows[2];
    assert_eq!(paired.left.unwrap().text, "old();");
    assert_eq!(paired.right.unwrap().text, "new();");
    assert_eq!(paired.comment_line().unwrap().text, "new();");
    assert!(view.rows[3].left.is_none());
    assert_eq!(view.rows[3].right.unwrap().text, "extra();");
    assert_eq!((view.additions, view.deletions), (2, 1));
    assert_eq!(
        view.changes,
        [ChangeSpan {
            id: 0,
            start_row: 2,
            end_row: 3
        }]
    );
}

#[test]
fn split_handles_unpaired_deletes_adds_and_meta() {
    let file =
        file("+first\n context\n-one\n-two\n+replacement\n\\ No newline at end of file\n");
    let view = build_file_view(&file, 0, ViewMode::Split, FoldMode::Fold, &[]);
    assert!(view.rows[1].left.is_none());
    assert_eq!(view.rows[1].right.unwrap().text, "first");
    assert!(std::ptr::eq(
        view.rows[2].left.unwrap(),
        view.rows[2].right.unwrap()
    ));
    assert_eq!(view.rows[4].comment_line().unwrap().text, "two");
    assert!(view.rows[4].right.is_none());
    assert_eq!(view.rows[5].kind, RowKind::FileMeta);
    assert!(view.rows[5].change_id.is_none());
}

#[test]
fn change_navigation_returns_next_and_previous_starts() {
    let file = file(" one\n-old();\n+new();\n two\n-old2();\n+new2();\n");
    for mode in [ViewMode::Stacked, ViewMode::Split] {
        let view = build_file_view(&file, 0, mode, FoldMode::Unfold, &[]);
        let first = next_change(&view, 0).unwrap();
        let second = next_change(&view, first).unwrap();
        assert!(second > first);
        assert_eq!(previous_change(&view, second), Some(first));
        assert_eq!(previous_change(&view, first), None);
        assert_eq!(next_change(&view, second), None);
        assert_eq!(previous_change(&view, usize::MAX), Some(second));
        for change in &view.changes {
            assert!(
                view.rows[change.start_row..=change.end_row]
                    .iter()
                    .all(|row| row.change_id == Some(change.id))
            );
        }
    }
}

#[test]
fn expanded_fold_includes_context_and_stable_ids_across_layouts() {
    let file = file(LONG_CONTEXT);
    let id = FoldId {
        file_index: 3,
        hunk_index: 0,
        ordinal: 0,
    };
    for mode in [ViewMode::Stacked, ViewMode::Split] {
        let view = build_file_view(
            &file,
            3,
            mode,
            FoldMode::Fold,
            &[FoldEntry {
                id,
                state: FoldState::Expanded,
            }],
        );
        let fold = &view.rows[1];
        assert!(fold.fold_expanded);
        assert_eq!(fold.fold_id, Some(id));
        let expanded: Vec<_> = view
            .rows
            .iter()
            .filter(|row| row.kind != RowKind::Fold && row.fold_id == Some(id))
            .collect();
        assert_eq!(expanded.len(), 7);
        assert_eq!(expanded[0].comment_line().unwrap().text, "one");
    }
    assert_eq!(fold_state(&[], id), FoldState::Collapsed);
}

#[test]
fn minimum_fold_size_and_context_radius_are_exact() {
    for distant in [0, 1, 3, 4, 8] {
        let body = format!(
            "{}-old\n+new\n{}",
            " context\n".repeat(distant + CONTEXT_RADIUS),
            " context\n".repeat(distant + CONTEXT_RADIUS)
        );
        let file = file(&body);
        let view = build_file_view(&file, 0, ViewMode::Stacked, FoldMode::Fold, &[]);
        let folds: Vec<_> = view
            .rows
            .iter()
            .filter(|row| row.kind == RowKind::Fold)
            .collect();
        assert_eq!(folds.len(), if distant >= MIN_FOLD_LINES { 2 } else { 0 });
        for (ordinal, fold) in folds.iter().enumerate() {
            assert_eq!(fold.fold_line_count, distant);
            assert_eq!(fold.fold_id.unwrap().ordinal, ordinal);
        }
    }
}

#[test]
fn file_and_empty_hunk_metadata_are_retained() {
    let mut file = file("");
    let view = build_file_view(&file, 0, ViewMode::Stacked, FoldMode::Fold, &[]);
    assert_eq!(view.rows[0].kind, RowKind::FileHeader);
    assert_eq!(view.rows[1].kind, RowKind::HunkHeader);
    assert_eq!(view.rows[1].hunk_header, Some("@@ -1,18 +1,18 @@"));
    file.hunks.clear();
    for binary in [false, true] {
        file.is_binary = binary;
        let view = build_file_view(&file, 0, ViewMode::Split, FoldMode::Fold, &[]);
        assert_eq!(view.rows.len(), 2);
        assert_eq!(view.rows[1].kind, RowKind::FileMeta);
    }
}

#[test]
fn both_layouts_have_the_same_fold_markers() {
    let file = file(LONG_CONTEXT);
    let expanded = [FoldEntry {
        id: FoldId {
            file_index: 0,
            hunk_index: 0,
            ordinal: 0,
        },
        state: FoldState::Expanded,
    }];
    for folds in [&[][..], &expanded[..]] {
        let marks = |mode| -> Vec<(Option<FoldId>, usize, bool)> {
            build_file_view(&file, 0, mode, FoldMode::Fold, folds)
                .rows
                .iter()
                .filter(|row| row.kind == RowKind::Fold)
                .map(|row| (row.fold_id, row.fold_line_count, row.fold_expanded))
                .collect()
        };
        assert!(!marks(ViewMode::Stacked).is_empty());
        assert_eq!(marks(ViewMode::Stacked), marks(ViewMode::Split));
    }
}

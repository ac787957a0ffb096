use diffo::diff::{DiffLine, DiffLineKind};
use diffo::git::FileSide;
use diffo::syntax_cache::{compute_outcome, line_ref, Outcome, SyntaxCache};
use diffo::syntax_grammars;
use diffo::syntax_query::{self, compile};
use diffo::theme::{catppuccin_mocha, Ansi};
use diffo::Error;
use std::sync::Arc;

const ANSI: Ansi = Ansi {
    enabled: true,
    true_color: true,
};

fn line(kind: DiffLineKind, old: Option<u32>, new: Option<u32>, text: &str) -> DiffLine {
    DiffLine {
        kind,
        old_lineno: old,
        new_lineno: new,
        text: text.into(),
        stable_line_id: String::new(),
    }
}

fn grammar() -> Option<(tree_sitter::Language, Arc<syntax_query::CompiledQuery>)> {
    let language: tree_sitter::Language = tree_sitter_rust::LANGUAGE.into();
    let query = compile(&language, tree_sitter_rust::HIGHLIGHTS_QUERY).unwrap();
    Some((language, query))
}

#[test]
fn line_references_select_correct_sides() {
    assert_eq!(
        line_ref(&line(DiffLineKind::Add, None, Some(12), "")),
        Some((FileSide::New, 12))
    );
    assert_eq!(
        line_ref(&line(DiffLineKind::Delete, Some(7), None, "")),
        Some((FileSide::Old, 7))
    );
    assert_eq!(
        line_ref(&line(DiffLineKind::Context, Some(7), Some(12), "")),
        Some((FileSide::New, 12))
    );
    assert_eq!(
        line_ref(&line(DiffLineKind::Context, Some(7), None, "")),
        Some((FileSide::Old, 7))
    );
    assert_eq!(
        line_ref(&line(DiffLineKind::Meta, Some(7), Some(12), "")),
        None
    );
    assert_eq!(line_ref(&line(DiffLineKind::Add, None, None, "")), None);
}

#[test]
fn successful_highlights_are_cached_and_mismatches_are_rejected() {
    let mut cache = SyntaxCache::default();
    assert!(cache.is_missing(0, FileSide::New));
    let outcome = compute_outcome(grammar(), Ok(Some(b"fn main() {}\n".to_vec()))).unwrap();
    cache.insert(0, FileSide::New, outcome);
    assert!(!cache.is_missing(0, FileSide::New));
    let original = line(DiffLineKind::Add, None, Some(1), "fn main() {}");
    let first = cache
        .highlight_diff_line(ANSI, catppuccin_mocha(), 0, &original)
        .unwrap();
    assert!(first.contains("\x1b[38;2;"));
    // What has been loaded stays, whatever becomes of its source.
    cache.insert(0, FileSide::New, Outcome::Unavailable);
    assert_eq!(
        cache
            .highlight_diff_line(ANSI, catppuccin_mocha(), 0, &original)
            .unwrap(),
        first
    );
    assert_eq!(cache.entries.len(), 1);
    let changed = line(DiffLineKind::Add, None, Some(1), "fn changed() {}");
    assert!(matches!(
        cache.highlight_diff_line(ANSI, catppuccin_mocha(), 0, &changed),
        Err(Error::SyntaxUnavailable)
    ));
    let absent = line(DiffLineKind::Add, None, Some(2), "fn main() {}");
    assert!(matches!(
        cache.highlight_diff_line(ANSI, catppuccin_mocha(), 0, &absent),
        Err(Error::SyntaxUnavailable)
    ));
}

#[test]
fn missing_and_too_large_sources_are_negative_cached() {
    let mut cache = SyntaxCache::default();
    let added = line(DiffLineKind::Add, None, Some(1), "fn main() {}");
    let source = || b"fn main() {}\n".to_vec();
    let large = vec![b' '; syntax_query::MAX_FILE_SIZE + 1];
    cache.insert(0, FileSide::New, compute_outcome(grammar(), Ok(None)).unwrap());
    cache.insert(0, FileSide::New, compute_outcome(grammar(), Ok(Some(source()))).unwrap());
    assert!(matches!(
        cache.highlight_diff_line(ANSI, catppuccin_mocha(), 0, &added),
        Err(Error::SyntaxUnavailable)
    ));
    cache.insert(1, FileSide::New, compute_outcome(grammar(), Ok(Some(source()))).unwrap());
    assert!(cache
        .highlight_diff_line(ANSI, catppuccin_mocha(), 1, &added)
        .is_ok());
    cache.insert(2, FileSide::New, compute_outcome(grammar(), Ok(Some(large))).unwrap());
    cache.insert(2, FileSide::New, compute_outcome(grammar(), Ok(Some(source()))).unwrap());
    assert!(matches!(
        cache.highlight_diff_line(ANSI, catppuccin_mocha(), 2, &added),
        Err(Error::SourceTooLarge)
    ));
    assert_eq!(cache.entries.len(), 3);
    assert!(matches!(
        compute_outcome(grammar(), Err(Error::SourceTooLarge)),
        Ok(Outcome::TooLarge)
    ));
    assert!(matches!(
        compute_outcome(grammar(), Err(Error::GitCommandFailed)),
        Err(Error::GitCommandFailed)
    ));
}

#[test]
fn unsupported_languages_and_disabled_ansi_do_not_load_source() {
    let mut cache = SyntaxCache::default();
    let added = line(DiffLineKind::Add, None, Some(1), "fn main() {}");
    assert!(matches!(
        cache.highlight_diff_line(
            Ansi {
                enabled: false,
                ..ANSI
            },
            catppuccin_mocha(),
            0,
            &added
        ),
        Err(Error::SyntaxUnavailable)
    ));
    assert!(cache.entries.is_empty());
    assert!(syntax_grammars::find("markdown").is_none());
    cache.insert(
        0,
        FileSide::New,
        compute_outcome(None, Ok(Some(b"text".to_vec()))).unwrap(),
    );
    assert!(matches!(
        cache.highlight_diff_line(ANSI, catppuccin_mocha(), 0, &added),
        Err(Error::SyntaxUnavailable)
    ));
    assert!(matches!(cache.entries[0].outcome, Outcome::Unavailable));
}

#[test]
fn old_index_and_new_worktree_have_independent_caches() {
    let mut cache = SyntaxCache::default();
    cache.insert(
        0,
        FileSide::Old,
        compute_outcome(grammar(), Ok(Some(b"fn old() {}\n".to_vec()))).unwrap(),
    );
    cache.insert(
        0,
        FileSide::New,
        compute_outcome(grammar(), Ok(Some(b"fn new() {}\n".to_vec()))).unwrap(),
    );
    for (kind, old, new, text) in [
        (DiffLineKind::Delete, Some(1), None, "fn old() {}"),
        (DiffLineKind::Add, None, Some(1), "fn new() {}"),
    ] {
        let rendered = cache
            .highlight_diff_line(ANSI, catppuccin_mocha(), 0, &line(kind, old, new, text))
            .unwrap();
        assert!(rendered.contains("\x1b[38;2;"));
    }
    assert_eq!(cache.entries.len(), 2);
}

use diffo::syntax::{HighlightSpan, SyntaxToken};
use diffo::syntax_grammars;
use diffo::syntax_query::{
    build, build_line_starts, compile, match_supported_pattern, token_for_capture, SideHighlight,
    CHUNK_LINES, MAX_FILE_SIZE,
};
use diffo::Error;
use tree_sitter::Language;

fn build_with_query(
    language: Language,
    query: &str,
    source: Vec<u8>,
) -> Result<SideHighlight, Error> {
    let query = compile(&language, query)?;
    build(language, query, source)
}

fn language(name: &str) -> (Language, &'static str) {
    match name {
        "rust" => (
            tree_sitter_rust::LANGUAGE.into(),
            tree_sitter_rust::HIGHLIGHTS_QUERY,
        ),
        "javascript" => (
            tree_sitter_javascript::LANGUAGE.into(),
            tree_sitter_javascript::HIGHLIGHT_QUERY,
        ),
        "zig" => (
            tree_sitter_zig::LANGUAGE.into(),
            tree_sitter_zig::HIGHLIGHTS_QUERY,
        ),
        _ => panic!("no grammar for {name}"),
    }
}

fn highlight(name: &str, source: &str) -> SideHighlight {
    let (language, query) = language(name);
    build_with_query(language, query, source.as_bytes().to_vec())
        .unwrap_or_else(|err| panic!("failed to highlight {name}: {err:?}"))
}

fn has_token(highlight: &mut SideHighlight, line: u32, token: SyntaxToken, text: &str) -> bool {
    let spans = highlight.line_spans(line);
    let source = highlight.line_text(line).unwrap();
    spans.iter().any(|span| {
        span.token == token && source.get(span.start_byte..span.end_byte) == Some(text.as_bytes())
    })
}

#[test]
fn finds_bundled_grammars_and_parses_empty_sources() {
    for name in [
        "zig",
        "javascript",
        "typescript",
        "tsx",
        "rust",
        "c",
        "cpp",
        "python",
        "gn",
    ] {
        assert_eq!(syntax_grammars::find(name).unwrap().name, name);
    }
    assert!(syntax_grammars::find("markdown").is_none());
    for name in ["zig", "javascript", "rust"] {
        let h = highlight(name, "");
        assert_eq!(h.line_text(1), Some(&b""[..]));
    }
}

#[test]
fn file_switch_highlighting_only_computes_requested_lines() {
    let source: String = (0..4000).map(|i| format!("fn f_{i}() {{}}\n")).collect();
    let mut h = highlight("rust", &source);
    let computed = |h: &SideHighlight| {
        h.spans_by_line
            .iter()
            .filter(|spans| !spans.is_empty())
            .count()
    };
    assert_eq!(
        computed(&h),
        0,
        "Opening a file must not highlight offscreen lines"
    );
    assert!(has_token(&mut h, 3900, SyntaxToken::Keyword, "fn"));
    assert!((1..=128).contains(&computed(&h)));
    let first_chunk = computed(&h);
    let spans = h.line_spans(3900);
    assert_eq!(h.line_spans(3900), spans);
    assert_eq!(computed(&h), first_chunk);
    assert!(has_token(&mut h, 1, SyntaxToken::Keyword, "fn"));
    assert!(computed(&h) > first_chunk);
    assert!(computed(&h) <= 256);
    assert!(h.line_spans(0).is_empty());
    assert!(h.line_spans(4001).is_empty());
}

#[test]
fn chunked_queries_match_full_queries_across_languages_and_multiline_captures() {
    let mut cases: Vec<(&str, String)> = [
        ("zig", "const value = \"架\";\n"),
        ("javascript", "const value = `first\nsecond`;\n"),
        ("rust", "fn f() { let value = \"first\nsecond\"; }\n"),
    ]
    .into_iter()
    .map(|(name, source)| (name, source.repeat(CHUNK_LINES + 1)))
    .collect();
    cases.push((
        "rust",
        format!(
            "/* first\n{}last */\nfn main() {{}}\n",
            "中间 🦀\r\n".repeat(CHUNK_LINES * 3)
        ),
    ));
    for (name, source) in cases {
        let mut backwards = highlight(name, &source);
        assert!(
            !backwards.tree.root_node().has_error(),
            "Invalid {name} fixture"
        );
        let mut forwards = highlight(name, &source);
        let count = forwards.line_starts.len() as u32;
        let expected: Vec<Vec<HighlightSpan>> =
            (1..=count).map(|line| forwards.line_spans(line)).collect();
        // Navigate backwards first, so no earlier chunk can prime later captures.
        for line in (1..=count).rev() {
            assert_eq!(
                backwards.line_spans(line),
                expected[line as usize - 1],
                "{name}, line {line}"
            );
        }
        assert_eq!(backwards.spans_by_line, expected, "{name}");
        assert!(backwards.highlighted_chunks.iter().all(|&ready| ready));
        assert!(expected.iter().any(|spans| !spans.is_empty()));
        for spans in &expected {
            assert!(spans
                .windows(2)
                .all(|w| (w[0].start_byte, w[0].end_byte) <= (w[1].start_byte, w[1].end_byte)));
        }
    }
}

#[test]
fn capture_mapping() {
    for (name, token) in [
        ("keyword.return", SyntaxToken::Keyword),
        ("function.call", SyntaxToken::Function),
        ("comment.documentation", SyntaxToken::Comment),
        ("constant.numeric", SyntaxToken::Number),
        ("punctuation.bracket", SyntaxToken::Operator),
        ("constructor", SyntaxToken::Type),
        ("escape", SyntaxToken::String),
        ("boolean", SyntaxToken::Keyword),
    ] {
        assert_eq!(token_for_capture(name), Some(token));
    }
    assert_eq!(token_for_capture("variable"), None);
}

#[test]
fn conservative_lua_patterns() {
    for (value, pattern, expected) in [
        ("MyType", "^[A-Z_][a-zA-Z0-9_]*", true),
        ("myType", "^[A-Z_][a-zA-Z0-9_]*", false),
        ("//! doc", "^//!", true),
        ("// doc", "^//!", false),
        ("MyType", "^[A-Z]", true),
        ("MAX_VALUE", "^[A-Z][A-Z\\d_]+$", true),
        (
            "console",
            "^(arguments|module|console|window|document)$",
            true,
        ),
        (
            "unknown",
            "^(arguments|module|console|window|document)$",
            false,
        ),
        ("abc", "%w+", false),
        ("", "^[A-Z_][a-zA-Z0-9_]*", false),
    ] {
        assert_eq!(
            match_supported_pattern(value.as_bytes(), pattern),
            expected,
            "{value:?}: {pattern}"
        );
    }
}

#[test]
fn lua_predicates_filter_actual_captures() {
    let (language, _) = language("zig");
    let mut h = build_with_query(
        language.clone(),
        "((identifier) @type (#lua-match? @type \"^[A-Z_][a-zA-Z0-9_]*\"))",
        b"const MyType = lower;\n".to_vec(),
    )
    .unwrap();
    assert!(has_token(&mut h, 1, SyntaxToken::Type, "MyType"));
    assert!(!has_token(&mut h, 1, SyntaxToken::Type, "lower"));
    let mut malformed = build_with_query(
        language,
        "((identifier) @type (#lua-match? @type))",
        b"const MyType = lower;".to_vec(),
    )
    .unwrap();
    assert!(malformed.line_spans(1).is_empty());
}

#[test]
fn builtin_predicates_filter_matches_and_directives_do_not() {
    let (language, _) = language("javascript");
    for (predicate, expected) in [
        ("#eq? @type \"UPPER\"", vec!["UPPER"]),
        ("#not-eq? @type \"UPPER\"", vec!["lower", "Other"]),
        ("#any-of? @type \"UPPER\" \"Other\"", vec!["UPPER", "Other"]),
        ("#match? @type \"^[A-Z]+$\"", vec!["UPPER"]),
        ("#not-match? @type \"^[A-Z]\"", vec!["lower"]),
        ("#set! priority 95", vec!["UPPER", "lower", "Other"]),
        ("#is-not? local", vec!["UPPER", "lower", "Other"]),
        ("#future-directive! @type", vec!["UPPER", "lower", "Other"]),
    ] {
        let query = format!("((identifier) @type ({predicate}))");
        let mut h =
            build_with_query(language.clone(), &query, b"UPPER; lower; Other;".to_vec()).unwrap();
        let spans = h.line_spans(1);
        let captured: Vec<_> = spans
            .iter()
            .map(|s| std::str::from_utf8(&h.source[s.start_byte..s.end_byte]).unwrap())
            .collect();
        assert_eq!(captured, expected, "{predicate}");
    }
}

#[test]
fn multiline_utf8_and_crlf_spans_stay_within_line_bytes() {
    let mut h = highlight("rust", "/* 你好\r\n世界 */\r\nlet text = \"🦀\";\n");
    assert_eq!(h.line_text(1), Some("/* 你好".as_bytes()));
    assert_eq!(h.line_text(2), Some("世界 */".as_bytes()));
    assert_eq!(h.line_text(3), Some("let text = \"🦀\";".as_bytes()));
    assert!(has_token(&mut h, 1, SyntaxToken::Comment, "/* 你好"));
    assert!(has_token(&mut h, 2, SyntaxToken::Comment, "世界 */"));
    for line in 1..=3 {
        let spans = h.line_spans(line);
        let text = std::str::from_utf8(h.line_text(line).unwrap()).unwrap();
        for span in spans {
            assert!(text.get(span.start_byte..span.end_byte).is_some());
        }
    }
    assert!(h.line_text(0).is_none());
    assert!(h.line_text(4).is_none());
    assert!(h.line_spans(0).is_empty());
}

#[test]
fn line_boundaries_empty_sources_and_size_limit() {
    for (source, expected) in [
        ("", vec![""]),
        ("\n", vec![""]),
        ("a\n", vec!["a"]),
        ("a\n\n", vec!["a", ""]),
        ("a\r\nb", vec!["a", "b"]),
    ] {
        let h = highlight("zig", source);
        for (index, line) in expected.iter().enumerate() {
            assert_eq!(h.line_text(index as u32 + 1), Some(line.as_bytes()));
        }
        assert_eq!(h.line_starts.len(), expected.len());
        assert_eq!(
            build_line_starts(&source.as_bytes().to_vec()),
            h.line_starts
        );
    }
    let (language, query) = language("zig");
    assert!(matches!(
        build_with_query(language.clone(), query, vec![b' '; MAX_FILE_SIZE + 1]),
        Err(Error::SourceTooLarge)
    ));
    assert!(build_with_query(language, query, vec![b' '; MAX_FILE_SIZE]).is_ok());
}

#[test]
fn faulty_queries_are_unavailable() {
    let (language, _) = language("rust");
    assert!(matches!(
        build_with_query(language, "(no_such_node) @type", b"fn f() {}".to_vec()),
        Err(Error::SyntaxUnavailable)
    ));
}

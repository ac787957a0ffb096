use diffo::syntax::{
    mode_for_language, render_highlighted_line, HighlightMode, HighlightSpan, SyntaxToken,
};
use diffo::theme::{catppuccin_mocha, Ansi};

#[test]
fn language_modes() {
    for name in [
        "zig",
        "typescript",
        "tsx",
        "javascript",
        "rust",
        "c",
        "cpp",
        "python",
        "gn",
    ] {
        assert_eq!(mode_for_language(Some(name)), HighlightMode::TreeSitter);
    }
    assert_eq!(mode_for_language(Some("markdown")), HighlightMode::Disabled);
    assert_eq!(mode_for_language(None), HighlightMode::Disabled);
    assert_eq!(HighlightMode::TreeSitter.label(), "tree_sitter");
    assert_eq!(HighlightMode::Disabled.label(), "disabled");
}

#[test]
fn renders_token_colors_and_leaves_disabled_output_unchanged() {
    let spans = [HighlightSpan {
        start_byte: 0,
        end_byte: 5,
        token: SyntaxToken::Keyword,
    }];
    let text = "const value = 1";
    let ansi = Ansi {
        enabled: true,
        true_color: true,
    };
    let rendered = render_highlighted_line(ansi, catppuccin_mocha(), text, &spans);
    assert!(rendered.contains("\x1b[38;2;"));
    assert!(rendered.contains("const\x1b[0m value = 1"));
    assert_eq!(
        render_highlighted_line(
            Ansi {
                enabled: false,
                ..ansi
            },
            catppuccin_mocha(),
            text,
            &spans
        ),
        text
    );
}

#[test]
fn invalid_utf8_offsets_and_overlaps_preserve_text() {
    let ansi = Ansi {
        enabled: true,
        true_color: true,
    };
    let spans = [
        HighlightSpan {
            start_byte: 1,
            end_byte: 2,
            token: SyntaxToken::String,
        },
        HighlightSpan {
            start_byte: 0,
            end_byte: 3,
            token: SyntaxToken::String,
        },
        HighlightSpan {
            start_byte: 0,
            end_byte: 4,
            token: SyntaxToken::Comment,
        },
        HighlightSpan {
            start_byte: 4,
            end_byte: 99,
            token: SyntaxToken::Number,
        },
    ];
    let rendered = render_highlighted_line(ansi, catppuccin_mocha(), "你ab", &spans);
    let expected = format!(
        "{}你{}{}a{}b",
        ansi.fg(catppuccin_mocha().syntax_string),
        ansi.reset(),
        ansi.fg(catppuccin_mocha().syntax_comment),
        ansi.reset()
    );
    assert_eq!(rendered, expected);
}

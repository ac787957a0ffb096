use diffo::theme::{
    catppuccin_mocha, list_builtins, parse_hex, validate_base_theme, Ansi, Color,
};
use diffo::Error;

fn theme_content(slots: usize, value: &str) -> String {
    (0..slots)
        .map(|index| format!("base{index:02x}: \"{value}\"\n"))
        .collect()
}


#[test]
fn validator_recognizes_base24_and_partial_extra_slots() {
    for (slots, name) in [(16, "16"), (19, "16"), (24, "24")] {
        let content = theme_content(slots, "#Aa09Ff");
        assert_eq!(
            validate_base_theme(content.as_bytes()).unwrap(),
            format!("valid Base{name} theme ({slots} color slots)")
        );
    }
}

#[test]
fn validator_rejects_missing_invalid_long_and_cross_line_colors() {
    for content in [
        String::new(),
        theme_content(15, "ffffff"),
        theme_content(16, "fffff"),
        theme_content(16, "fffffff"),
        theme_content(16, "gggggg"),
        theme_content(16, ""),
        theme_content(16, "\nffffff"),
        "base00: ffffff\n".repeat(16),
    ] {
        assert!(
            matches!(
                validate_base_theme(content.as_bytes()),
                Err(Error::ThemeInvalid)
            ),
            "{content:?}"
        );
    }
}

#[test]
fn validator_accepts_later_valid_duplicate_and_crlf() {
    let content = format!(
        "{}{}",
        theme_content(16, "invalid"),
        theme_content(16, "123ABC").replace('\n', "\r\n")
    );
    assert_eq!(
        validate_base_theme(content.as_bytes()).unwrap(),
        "valid Base16 theme (16 color slots)"
    );
}


#[test]
fn parse_hex_accepts_optional_hash_and_rejects_malformed_values() {
    assert_eq!(parse_hex(b"#1e1e2e"), Some([30, 30, 46]));
    assert_eq!(parse_hex(b"Aa00FF"), Some([170, 0, 255]));
    for invalid in ["", "#fff", "0000000", "gg0000", "++0000", "架架"] {
        assert_eq!(parse_hex(invalid.as_bytes()), None);
    }
}

#[test]
fn ansi_obeys_no_color_force_and_truecolor_detection_without_global_mutation() {
    assert_eq!(
        Ansi::from_environment(false, true, Some("truecolor")),
        Ansi {
            enabled: false,
            true_color: false
        }
    );
    assert_eq!(
        Ansi::from_environment(true, true, Some("truecolor")),
        Ansi {
            enabled: true,
            true_color: true
        }
    );
    assert_eq!(
        Ansi::from_environment(false, false, None),
        Ansi {
            enabled: true,
            true_color: false
        }
    );
    for value in ["truecolor", "24bit", "supports-truecolor"] {
        assert!(Ansi::from_environment(false, false, Some(value)).true_color);
    }
    assert!(!Ansi::from_environment(false, false, Some("TRUECOLOR")).true_color);
}

#[test]
fn ansi_encodes_rgb_and_handles_disabled_or_invalid_colors() {
    let ansi = Ansi {
        enabled: true,
        true_color: true,
    };
    let color = Color { hex: "#1e1e2e" };
    assert_eq!(ansi.fg(color), "\x1b[38;2;30;30;46m");
    assert_eq!(ansi.bg(color), "\x1b[48;2;30;30;46m");
    assert_eq!(ansi.reset(), "\x1b[0m");
    assert_eq!(ansi.fg(Color { hex: "invalid" }), "");
    for disabled in [
        Ansi {
            enabled: false,
            true_color: true,
        },
        Ansi {
            enabled: true,
            true_color: false,
        },
    ] {
        assert_eq!(disabled.fg(color), "");
        assert_eq!(disabled.bg(color), "");
    }
    assert_eq!(
        Ansi {
            enabled: false,
            true_color: false
        }
        .reset(),
        ""
    );
}

#[test]
fn default_palette_and_builtin_listing_match_original() {
    let palette = catppuccin_mocha();
    assert_eq!(palette.name, "catppuccin-mocha");
    assert_eq!(palette.bg_default.hex, "#1e1e2e");
    assert_eq!(palette.syntax_plain, palette.fg_default);
    assert_eq!(palette.syntax_function, palette.fg_accent);
    assert_eq!(palette.reviewed_badge, palette.diff_add_fg);
    assert_eq!(palette.error_color, palette.diff_del_fg);
    assert_eq!(
        list_builtins(),
        "catppuccin-mocha  built-in default\nbase16/base24     supported via diffo themes validate <file>\n"
    );
}

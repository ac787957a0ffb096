use diffo::tui_text::{ansi_seq_len, display_width, fit_cell, is_sgr, plain_text, sanitize};
use diffo::tui_wrap::{wrap_ansi, SgrState};

#[test]
fn display_width_handles_cjk() {
    assert_eq!(display_width("a"), 1);
    assert_eq!(display_width("架"), 2);
    assert_eq!(display_width("架构a"), 5);
}

#[test]
fn fit_cell_handles_ansi_and_cjk_width() {
    assert_eq!(fit_cell("\x1b[31m架a\x1b[0m", 4), "\x1b[31m架a\x1b[0m ");
    assert_eq!(fit_cell("架a", 1), " ");
    assert_eq!(fit_cell("架a", 2), "架");
    assert_eq!(fit_cell("架a", 0), "");
}

#[test]
fn display_width_handles_combining_marks_emoji_and_controls() {
    for text in [
        "\u{301}", "\u{200d}", "\u{200b}", "\u{feff}", "\t", "\r", "\u{7f}", "\u{85}",
    ] {
        assert_eq!(display_width(text), 0, "{text:?}");
    }
    assert_eq!(display_width("😀"), 2);
    assert_eq!(display_width("e\u{301}"), 1);
    assert_eq!(display_width("\x1b[31m架a\x1b[0m"), 3);
}

#[test]
fn fit_cell_replaces_control_bytes_and_drops_non_sgr_escapes() {
    assert_eq!(fit_cell("a\tb\x1b[2Kc", 4), "a bc");
    assert_eq!(fit_cell("a\r\n\x07\x7fb", 6), "a    b");
}

#[test]
fn fit_cell_forwards_sgr_but_strips_osc() {
    assert_eq!(fit_cell("\x1b[31mx\x1b]0;evil\x07y", 4), "\x1b[31mxy  ");
    assert_eq!(
        sanitize("\x1b[38:2::1:2:3mx\x1b[m"),
        "\x1b[38:2::1:2:3mx\x1b[m"
    );
}

#[test]
fn ansi_seq_len_bounds_csi_osc_and_lone_escape() {
    for (text, count) in [
        ("\x1b[31m", 5),
        ("\x1b[2K", 4),
        ("\x1b", 1),
        ("\x1b]0;hi\x07", 7),
        ("\x1b]0;hi\x1b\\", 8),
        ("\x1b[", 2),
        ("\x1b[31", 4),
        ("\x1b(0", 3),
        ("\x1b7", 2),
        ("x", 0),
        ("", 0),
    ] {
        assert_eq!(ansi_seq_len(text.as_bytes()), count, "{text:?}");
    }
}

#[test]
fn sanitizer_removes_terminal_injection_and_controls() {
    let text = "a\t\x1b[31mb\x1b[0m\r\n\x07\x7f\x1b[2J\x1b[Hc\x1b]52;c;ZXZpbA==\x07d";
    assert_eq!(sanitize(text), "a \x1b[31mb\x1b[0mcd");
    assert_eq!(plain_text(text), "a bcd");
    for sequence in [
        "\x1bPpayload\x1b\\",
        "\x1b_payload\x1b\\",
        "\x1b^payload\x1b\\",
        "\x1bXpayload\x1b\\",
        "\u{9d}52;c;ZXZpbA==\u{9c}",
        "\u{90}payload\u{9c}",
        "\u{9b}2J",
        "\x1b]unterminated",
    ] {
        assert_eq!(sanitize(sequence), "", "{sequence:?}");
        assert_eq!(display_width(sequence), 0);
    }
}

#[test]
fn malformed_escapes_do_not_split_utf8_or_pass_non_sgr_commands() {
    for text in ["\x1b架", "\x1b[31架", "\x1b[ 架", "\x1b\x1b架"] {
        assert_eq!(sanitize(text), "架");
        assert_eq!(fit_cell(text, 2), "架");
    }
    assert!(!is_sgr(b"\x1b[?1m"));
    assert!(!is_sgr(b"\x1b[1 m"));
    assert!(!is_sgr(b"\x1b[31\x07m"));
}

#[test]
fn trailing_combining_mark_and_reset_survive_exact_fit() {
    assert_eq!(
        fit_cell("\x1b[31me\u{301}\x1b[0m", 1),
        "\x1b[31me\u{301}\x1b[0m"
    );
    assert_eq!(fit_cell("\x1b[31m架\x1b[0m", 2), "\x1b[31m架\x1b[0m");
}

#[test]
fn fitted_width_and_sanitization_are_consistent() {
    for text in [
        "",
        "abc",
        "架😀e\u{301}",
        "\t\rabc",
        "\x1b[31mx\x1b[0m",
        "x\x1b]0;evil\x07y",
        "\u{9b}2J架",
    ] {
        for width in 0..12 {
            let fitted = fit_cell(text, width);
            assert_eq!(display_width(&fitted), width, "{text:?}, {width}");
            assert_eq!(sanitize(&fitted), fitted);
            assert_eq!(display_width(&plain_text(&fitted)), width);
        }
        assert_eq!(sanitize(&sanitize(text)), sanitize(text));
    }
}

#[test]
fn wrapped_rows_hold_the_whole_text_and_fit() {
    for text in ["one two three four", "let 名 = value.field[0];", "", "🙂🙂🙂🙂🙂"] {
        for width in 2..12 {
            let rows = wrap_ansi(text, width, width);
            assert_eq!(rows.concat().replace(' ', ""), text.replace(' ', ""));
            assert!(rows.iter().all(|r| display_width(r) <= width));
        }
    }
}

#[test]
fn only_styling_sequences_change_the_styling() {
    let code = |sequences: &[&str]| {
        let mut style = SgrState::default();
        for sequence in sequences {
            style.apply(&sequence.chars().collect());
        }
        style.code()
    };
    assert_eq!(code(&["\x1b[1;31m"]), "\x1b[1m\x1b[31m");
    assert_eq!(code(&["\x1b[31m", "", "m", "\x1b[", "\x1bm", "\x1b[2J", "0m"]), "\x1b[31m");
    assert_eq!(code(&["\x1b[31m", "\x1b[m"]), "");
    assert_eq!(code(&["\x1b[31m", "\x1b[x;4m"]), "\x1b[4m");
    assert_eq!(code(&["\x1b[+31m"]), "\x1b[31m");
    assert_eq!(code(&["\x1b[31m", "\x1b[+m"]), "");
    assert_eq!(code(&["\x1b[48;2;1;2;3m", "\x1b[38;5;9m"]), "\x1b[38;5;9m\x1b[48;2;1;2;3m");
    assert_eq!(code(&["\x1b[38;2;1m"]), "\x1b[1m\x1b[2m");
    assert_eq!(code(&["\x1b[65536m", "\x1b[9m"]), "\x1b[9m");
}

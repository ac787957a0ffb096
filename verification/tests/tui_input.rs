use diffo::tui_editor::{Action, Editor};
use diffo::tui_input::{
    key, poll_millis, Decoder, Event, Input, InputLimit, KeyCode, KeyEvent, KeyModifiers,
    MouseButton, MouseEvent, MouseEventKind, Plan, ESCAPE_TIMEOUT, PASTE_LIMIT, SEQUENCE_LIMIT,
};

const PASTE_START: &[u8] = b"\x1b[200~";
const PASTE_END: &[u8] = b"\x1b[201~";

fn events(bytes: &[u8]) -> Vec<Event> {
    let mut decoder = Decoder::default();
    decoder.feed(bytes);
    let mut result = Vec::new();
    while let Some(event) = decoder.next(false).unwrap() {
        result.push(event);
    }
    assert!(decoder.pending().is_empty(), "Incomplete test input");
    result
}

#[test]
fn all_legacy_shift_enter_forms_reach_editor_at_every_split() {
    for sequence in [
        "13;2u", "10;2u", "13:2u", "13;2~", "10;2~", "27;2;13~", "27;2;10~", "13;6u",
        "27:4:10~", "13;2:1u",
    ] {
        let sequence = format!("\x1b[{sequence}");
        for split in 0..=sequence.len() {
            let mut decoder = Decoder::default();
            let mut editor = Editor::default();
            editor.insert("before");
            decoder.feed(&sequence.as_bytes()[..split]);
            let first = decoder.next(false).unwrap();
            if split < sequence.len() {
                assert_eq!(first, None);
            }
            decoder.feed(&sequence.as_bytes()[split..]);
            let event = first.or_else(|| decoder.next(false).unwrap()).unwrap();
            assert_eq!(
                event,
                key(KeyCode::Enter, KeyModifiers::shift_only()),
                "{sequence:?}"
            );
            assert_eq!(editor.key(event.as_key_event().unwrap()), Action::Continue);
            editor.insert("after");
            assert_eq!(editor.body, "before\nafter");
            assert_eq!(editor.key(KeyEvent::new(KeyCode::Enter, KeyModifiers::empty())), Action::Save);
            assert_eq!(decoder.next(false).unwrap(), None);
        }
    }
}

#[test]
fn utf8_paste_mouse_and_keys_are_invariant_under_fragmentation() {
    let stream = "c架\x1b[D\x1b[200~paste\r\nqyc\x03\x1b[13:2u🦀\x1b[201~\x1b[<0;3;4M\x1b[<32;7;8M\x1b[<0;7;8m\x1b[<64;7;8M\x1b[<65;7;8M\x1b[97:65;2u\r";
    let expected = events(stream.as_bytes());
    assert_eq!(expected[0], key(KeyCode::Char('c'), KeyModifiers::empty()));
    assert_eq!(expected[1], key(KeyCode::Char('架'), KeyModifiers::empty()));
    assert_eq!(
        expected[3],
        Event::Paste("paste\r\nqyc\x03\x1b[13:2u🦀".into())
    );
    assert_eq!(expected[9].as_key_event().unwrap().code, KeyCode::Char('A'));
    for size in 1..=stream.len() {
        let mut decoder = Decoder::default();
        let mut actual = Vec::new();
        for chunk in stream.as_bytes().chunks(size) {
            decoder.feed(chunk);
            while let Some(event) = decoder.next(false).unwrap() {
                actual.push(event);
            }
        }
        assert_eq!(actual, expected, "chunk size {size}");
        assert!(decoder.pending().is_empty());
    }
}

#[test]
fn escape_timeout_only_applies_to_a_bare_escape() {
    let mut decoder = Decoder::default();
    decoder.feed(b"\x1b");
    assert_eq!(decoder.next(false).unwrap(), None);
    assert_eq!(
        decoder.next(true).unwrap(),
        Some(key(KeyCode::Esc, KeyModifiers::empty()))
    );
    for sequence in [b"\x1b[13;".as_slice(), b"\x1bO", b"\xe6\x9e"] {
        let mut decoder = Decoder::default();
        decoder.feed(sequence);
        assert_eq!(decoder.next(true).unwrap(), None);
        assert_eq!(decoder.pending(), sequence);
    }
}

#[test]
fn unused_sequences_and_invalid_utf8_do_not_turn_into_commands() {
    let decoded = events(b"\x1b[13~\x1b[13;5u\x1b[5;13u\x1b[?1;2c\x1bOP\x1b]qyc\x07\x1bPqyc\x1b\\\xff\xe6\x03\x1b[999;\x03\x1b]broken\x03");
    let mut editor = Editor::default();
    editor.insert("body");
    let mut quits = 0;
    for event in decoded {
        if editor.key(event.as_key_event().unwrap()) == Action::Quit {
            quits += 1;
        }
    }
    assert_eq!(quits, 3);
    assert_eq!(editor.body, "body");
}

#[test]
fn navigation_ctrl_keys_and_mouse_have_explicit_mappings() {
    for (sequence, code) in [
        ("\x1b[A", KeyCode::Up),
        ("\x1bOB", KeyCode::Down),
        ("\x1bOC", KeyCode::Right),
        ("\x1b[D", KeyCode::Left),
        ("\x1b[3~", KeyCode::Delete),
        ("\x1b[5~", KeyCode::PageUp),
        ("\x1b[6~", KeyCode::PageDown),
        ("\x1bOH", KeyCode::Home),
        ("\x1bOF", KeyCode::End),
        ("\x1b[7~", KeyCode::Home),
        ("\x1b[8~", KeyCode::End),
        ("\x7f", KeyCode::Backspace),
        ("\x08", KeyCode::Backspace),
        ("\t", KeyCode::Tab),
        ("\n", KeyCode::Enter),
    ] {
        assert_eq!(events(sequence.as_bytes()), [key(code, KeyModifiers::empty())]);
    }
    for sequence in [b"\x03".as_slice(), b"\x1b[99;5u", b"\x1b[27;5;99~"] {
        assert_eq!(
            events(sequence),
            [key(KeyCode::Char('c'), KeyModifiers::control_only())]
        );
    }
    assert_eq!(
        events(b"\x1b[<28;3;4M"),
        [Event::Mouse(MouseEvent {
            kind: MouseEventKind::Down(MouseButton::Left),
            column: 2,
            row: 3,
            modifiers: KeyModifiers {
                shift: true,
                alt: true,
                control: true,
                ..KeyModifiers::empty()
            },
        })]
    );
    assert!(events(b"\x1b[<0;0;2M\x1b[<128;3;4M").is_empty());
    let mut editor = Editor::default();
    for event in events(b"\x1b[13;2:3u\x1b[13;1:3u\x1b[99;5:3u\x04") {
        assert_eq!(editor.key(event.as_key_event().unwrap()), Action::Continue);
    }
    assert!(editor.body.is_empty());
}

#[test]
fn oversized_sequences_and_pastes_fail_instead_of_replaying_input() {
    for bytes in [
        [b"\x1b[".as_slice(), &vec![b'1'; SEQUENCE_LIMIT]].concat(),
        [b"\x1b]".as_slice(), &vec![b'q'; SEQUENCE_LIMIT], b"\x07"].concat(),
        [PASTE_START, &vec![b'y'; PASTE_LIMIT + 1], PASTE_END].concat(),
        [PASTE_START, &vec![b'y'; PASTE_LIMIT + 20]].concat(),
    ] {
        let mut decoder = Decoder::default();
        decoder.feed(&bytes);
        assert_eq!(decoder.next(false), Err(InputLimit {}));
    }
    let bytes = [PASTE_START, &vec![b'a'; PASTE_LIMIT], PASTE_END].concat();
    assert_eq!(events(&bytes), [Event::Paste("a".repeat(PASTE_LIMIT))]);
}

#[test]
fn a_lone_escape_expires_and_other_bytes_wait() {
    let mut input = Input::default();
    assert_eq!(input.plan(0, 0), Ok(Plan::Poll(0)));
    input.decoder.feed(b"\x1b");
    assert_eq!(input.plan(10, 100_000_000), Ok(Plan::Poll(ESCAPE_TIMEOUT)));
    assert_eq!(
        input.plan(10 + ESCAPE_TIMEOUT, 100_000_000),
        Ok(Plan::Ready(key(KeyCode::Esc, KeyModifiers::empty())))
    );
    input.decoder.feed("架".as_bytes());
    assert_eq!(
        input.plan(0, 0),
        Ok(Plan::Ready(key(KeyCode::Char('架'), KeyModifiers::empty())))
    );
    assert_eq!(poll_millis(0), 1);
    assert_eq!(poll_millis(35_000_000), 35);
}

#[test]
fn every_kind_of_character_is_typed_as_itself() {
    for c in [' ', '~', 'é', '\u{7ff}', '\u{800}', '文', '\u{d7ff}', '\u{ffff}', '😀', '\u{10ffff}'] {
        let mut bytes = c.to_string().into_bytes();
        bytes.push(b'x');
        assert_eq!(
            events(&bytes),
            [
                key(KeyCode::Char(c), KeyModifiers::empty()),
                key(KeyCode::Char('x'), KeyModifiers::empty()),
            ]
        );
    }
}

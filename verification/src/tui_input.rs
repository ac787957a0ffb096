//! Terminal input: the decoder from bytes to keys, mouse events and pastes.
//!
//! The decoder never guesses: a sequence that is not complete stays in the
//! buffer until more bytes arrive, so that the events do not depend on how the
//! bytes were split up on their way.
use vstd::prelude::*;
use vstd::slice::slice_subrange;
use vstd::utf8::{is_scalar, valid_utf8};
use crate::diff::{digits_value, is_digit};
use crate::util::{
    bytes_start_with, find_byte, find_seq, has_prefix, index_of, is_utf8, lossy, lossy_utf8,
    push_bytes, utf8,
};

verus! {

/// Longest escape sequence that is waited for.
pub const SEQUENCE_LIMIT: usize = 256;

/// Longest paste that is accepted, in bytes.
pub const PASTE_LIMIT: usize = 1048576;

/// How long a lone escape byte may be the start of a sequence, in nanoseconds.
pub const ESCAPE_TIMEOUT: u64 = 35_000_000;

#[derive(Clone, Copy, Debug, PartialEq, Eq, Structural)]
pub enum KeyCode {
    Backspace,
    Enter,
    Left,
    Right,
    Up,
    Down,
    Home,
    End,
    PageUp,
    PageDown,
    Tab,
    BackTab,
    Delete,
    Char(char),
    Esc,
}

#[derive(Clone, Copy, Debug, PartialEq, Eq, Structural)]
pub struct KeyModifiers {
    pub shift: bool,
    pub alt: bool,
    pub control: bool,
    pub super_key: bool,
    pub hyper: bool,
    pub meta: bool,
}

#[derive(Clone, Copy, Debug, PartialEq, Eq, Structural)]
pub enum KeyEventKind {
    Press,
    Repeat,
    Release,
}

#[derive(Clone, Copy, Debug, PartialEq, Eq, Structural)]
pub struct KeyEvent {
    pub code: KeyCode,
    pub modifiers: KeyModifiers,
    pub kind: KeyEventKind,
}

#[derive(Clone, Copy, Debug, PartialEq, Eq, Structural)]
pub enum MouseButton {
    Left,
    Right,
    Middle,
}

#[derive(Clone, Copy, Debug, PartialEq, Eq, Structural)]
pub enum MouseEventKind {
    Down(MouseButton),
    Up(MouseButton),
    Drag(MouseButton),
    Moved,
    ScrollDown,
    ScrollUp,
    ScrollLeft,
    ScrollRight,
}

#[derive(Clone, Copy, Debug, PartialEq, Eq, Structural)]
pub struct MouseEvent {
    pub kind: MouseEventKind,
    pub column: u16,
    pub row: u16,
    pub modifiers: KeyModifiers,
}

#[derive(Clone, Debug, PartialEq, Eq)]
pub enum Event {
    Key(KeyEvent),
    Mouse(MouseEvent),
    Paste(String),
    FocusGained,
    FocusLost,
}

/// What an event says.
pub ghost enum EventModel {
    Key(KeyEvent),
    Mouse(MouseEvent),
    Paste(Seq<char>),
    FocusGained,
    FocusLost,
}

impl View for Event {
    type V = EventModel;

    open spec fn view(&self) -> EventModel {
        match *self {
            Event::Key(k) => EventModel::Key(k),
            Event::Mouse(m) => EventModel::Mouse(m),
            Event::Paste(t) => EventModel::Paste(t@),
            Event::FocusGained => EventModel::FocusGained,
            Event::FocusLost => EventModel::FocusLost,
        }
    }
}

/// What an optional event says.
pub open spec fn opt_event(e: Option<Event>) -> Option<EventModel> {
    match e {
        Some(x) => Some(x@),
        None => None,
    }
}

/// A sequence or a paste is longer than the decoder accepts.
#[derive(Clone, Copy, Debug, PartialEq, Eq, Structural)]
pub struct InputLimit {}

// ---------------------------------------------------------------------------
// Keys
// ---------------------------------------------------------------------------

impl KeyModifiers {
    pub open spec fn none() -> KeyModifiers {
        KeyModifiers {
            shift: false,
            alt: false,
            control: false,
            super_key: false,
            hyper: false,
            meta: false,
        }
    }

    /// No modifier.
    pub fn empty() -> (r: KeyModifiers)
        ensures
            r == KeyModifiers::none(),
    {
        KeyModifiers {
            shift: false,
            alt: false,
            control: false,
            super_key: false,
            hyper: false,
            meta: false,
        }
    }

    /// Control alone.
    pub fn control_only() -> (r: KeyModifiers)
        ensures
            r == (KeyModifiers { control: true, ..KeyModifiers::none() }),
    {
        let mut r = KeyModifiers::empty();
        r.control = true;
        r
    }

    /// Shift alone.
    pub fn shift_only() -> (r: KeyModifiers)
        ensures
            r == (KeyModifiers { shift: true, ..KeyModifiers::none() }),
    {
        let mut r = KeyModifiers::empty();
        r.shift = true;
        r
    }
}

/// A key press.
pub open spec fn pressed(code: KeyCode, modifiers: KeyModifiers) -> EventModel {
    EventModel::Key(KeyEvent { code, modifiers, kind: KeyEventKind::Press })
}

impl KeyEvent {
    /// A key press.
    pub fn new(code: KeyCode, modifiers: KeyModifiers) -> (r: KeyEvent)
        ensures
            r == (KeyEvent { code, modifiers, kind: KeyEventKind::Press }),
    {
        KeyEvent { code, modifiers, kind: KeyEventKind::Press }
    }
}

impl Event {
    /// The key of a key event.
    pub fn as_key_event(&self) -> (r: Option<KeyEvent>)
        ensures
            match self@ {
                EventModel::Key(k) => r == Some(k),
                _ => r is None,
            },
    {
        match self {
            Event::Key(k) => Some(*k),
            _ => None,
        }
    }
}

/// A key press.
pub fn key(code: KeyCode, modifiers: KeyModifiers) -> (r: Event)
    ensures
        r@ == pressed(code, modifiers),
{
    Event::Key(KeyEvent::new(code, modifiers))
}

/// The length of the UTF-8 sequence that a byte starts; zero where it starts
/// none of more than one byte.
pub open spec fn lead_len(b: u8) -> int {
    if 0xc2 <= b <= 0xdf {
        2
    } else if 0xe0 <= b <= 0xef {
        3
    } else if 0xf0 <= b <= 0xf4 {
        4
    } else {
        0
    }
}

/// Whether a second byte may follow a first one: overlong forms, surrogates
/// and values beyond the last scalar are ruled out here.
pub open spec fn second_ok(first: u8, second: u8) -> bool {
    let low: u8 = if first == 0xe0 {
        0xa0
    } else if first == 0xf0 {
        0x90
    } else {
        0x80
    };
    let high: u8 = if first == 0xed {
        0x9f
    } else if first == 0xf4 {
        0x8f
    } else {
        0xbf
    };
    low <= second <= high
}

/// Whether the bytes can be the start of one encoded character.
pub open spec fn scalar_prefix(b: Seq<u8>) -> bool {
    &&& b.len() >= 2 && lead_len(b[0]) >= 2 ==> second_ok(b[0], b[1])
    &&& b.len() >= 3 && lead_len(b[0]) >= 3 ==> 0x80 <= b[2] <= 0xbf
    &&& b.len() >= 4 && lead_len(b[0]) >= 4 ==> 0x80 <= b[3] <= 0xbf
}

/// The code point of a complete multi-byte sequence.
pub open spec fn scalar_value(b: Seq<u8>) -> int {
    if lead_len(b[0]) == 2 {
        (b[0] - 0xc0) * 64 + (b[1] - 0x80)
    } else if lead_len(b[0]) == 3 {
        (b[0] - 0xe0) * 4096 + (b[1] - 0x80) * 64 + (b[2] - 0x80)
    } else {
        (b[0] - 0xf0) * 262144 + (b[1] - 0x80) * 4096 + (b[2] - 0x80) * 64 + (b[3] - 0x80)
    }
}

/// The key that plain bytes stand for, and how many they are.  `None` where
/// more bytes are needed; no key where the bytes are not text.
pub open spec fn character_of(b: Seq<u8>) -> Option<(int, Option<EventModel>)> {
    let first = b[0];
    let none = KeyModifiers::none();
    let control = KeyModifiers { control: true, ..none };
    if first == 13 || first == 10 {
        Some((1, Some(pressed(KeyCode::Enter, none))))
    } else if first == 9 {
        Some((1, Some(pressed(KeyCode::Tab, none))))
    } else if first == 8 || first == 127 {
        Some((1, Some(pressed(KeyCode::Backspace, none))))
    } else if first == 0 {
        Some((1, Some(pressed(KeyCode::Char(' '), control))))
    } else if first <= 26 {
        Some((1, Some(pressed(KeyCode::Char((0x60 + first) as char), control))))
    } else if 28 <= first <= 31 {
        Some((1, Some(pressed(KeyCode::Char((0x40 + first) as char), control))))
    } else if 32 <= first <= 126 {
        Some((1, Some(pressed(KeyCode::Char(first as char), none))))
    } else if lead_len(first) == 0 || !scalar_prefix(b) {
        Some((1, None))
    } else if b.len() < lead_len(first) {
        None
    } else {
        Some((lead_len(first), Some(pressed(KeyCode::Char(scalar_value(b) as char), none))))
    }
}

/// `char::from_u32` gives the character with the given code point, where there
/// is one.
pub assume_specification[ char::from_u32 ](i: u32) -> (r: Option<char>)
    ensures
        r == if is_scalar(i) {
            Some(i as char)
        } else {
            None
        },
;

fn multibyte(b: &[u8], len: usize) -> (r: Option<char>)
    requires
        len == lead_len(b@[0]),
        2 <= len <= b@.len(),
        scalar_prefix(b@),
    ensures
        r == Some(scalar_value(b@) as char),
{
    let code: u32 = if len == 2 {
        (b[0] as u32 - 0xc0) * 64 + (b[1] as u32 - 0x80)
    } else if len == 3 {
        (b[0] as u32 - 0xe0) * 4096 + (b[1] as u32 - 0x80) * 64 + (b[2] as u32 - 0x80)
    } else {
        (b[0] as u32 - 0xf0) * 262144 + (b[1] as u32 - 0x80) * 4096 + (b[2] as u32 - 0x80) * 64
            + (b[3] as u32 - 0x80)
    };
    char::from_u32(code)
}

/// The key that plain bytes stand for.
fn character(b: &[u8]) -> (r: Option<(usize, Option<Event>)>)
    requires
        b@.len() > 0,
    ensures
        match r {
            None => character_of(b@) is None,
            Some((n, e)) => character_of(b@) == Some((n as int, opt_event(e))) && 1 <= n
                <= b@.len(),
        },
{
    let first: u8 = b[0];
    let none = KeyModifiers::empty();
    if first == 13 || first == 10 {
        Some((1, Some(key(KeyCode::Enter, none))))
    } else if first == 9 {
        Some((1, Some(key(KeyCode::Tab, none))))
    } else if first == 8 || first == 127 {
        Some((1, Some(key(KeyCode::Backspace, none))))
    } else if first == 0 {
        Some((1, Some(key(KeyCode::Char(' '), KeyModifiers::control_only()))))
    } else if first <= 26 {
        Some((1, Some(key(KeyCode::Char((0x60 + first) as char), KeyModifiers::control_only()))))
    } else if 28 <= first && first <= 31 {
        Some((1, Some(key(KeyCode::Char((0x40 + first) as char), KeyModifiers::control_only()))))
    } else if 32 <= first && first <= 126 {
        Some((1, Some(key(KeyCode::Char(first as char), none))))
    } else {
        let len: usize = if 0xc2 <= first && first <= 0xdf {
            2
        } else if 0xe0 <= first && first <= 0xef {
            3
        } else if 0xf0 <= first && first <= 0xf4 {
            4
        } else {
            return Some((1, None));
        };
        let low: u8 = if first == 0xe0 {
            0xa0
        } else if first == 0xf0 {
            0x90
        } else {
            0x80
        };
        let high: u8 = if first == 0xed {
            0x9f
        } else if first == 0xf4 {
            0x8f
        } else {
            0xbf
        };
        if b.len() >= 2 && !(low <= b[1] && b[1] <= high) {
            return Some((1, None));
        }
        if len >= 3 && b.len() >= 3 && !(0x80 <= b[2] && b[2] <= 0xbf) {
            return Some((1, None));
        }
        if len >= 4 && b.len() >= 4 && !(0x80 <= b[3] && b[3] <= 0xbf) {
            return Some((1, None));
        }
        if b.len() < len {
            return None;
        }
        match multibyte(b, len) {
            Some(c) => Some((len, Some(key(KeyCode::Char(c), none)))),
            None => Some((1, None)),
        }
    }
}

// ---------------------------------------------------------------------------
// Control sequences
// ---------------------------------------------------------------------------

/// The part with index `k` of a byte string cut at every `sep`.
pub open spec fn part(b: Seq<u8>, sep: u8, k: nat) -> Option<Seq<u8>>
    decreases k,
{
    let n = find_byte(b, sep) as int;
    if k == 0 {
        Some(b.take(n))
    } else if n >= b.len() {
        None
    } else {
        part(b.skip(n + 1), sep, (k - 1) as nat)
    }
}

/// A number without a plus sign before it.
pub open spec fn unplus(b: Seq<u8>) -> Seq<u8> {
    if b.len() > 0 && b[0] == 0x2b {
        b.skip(1)
    } else {
        b
    }
}

/// An unsigned number as `str::parse` reads it: an optional plus sign and
/// digits, not larger than `max`.
pub open spec fn parsed(b: Seq<u8>, max: nat) -> Option<nat> {
    let d = unplus(b);
    if d.len() > 0 && (forall|k: int| 0 <= k < d.len() ==> is_digit(#[trigger] d[k]))
        && digits_value(d) <= max {
        Some(digits_value(d))
    } else {
        None
    }
}

/// The number at the start of the field with index `k`.
pub open spec fn field_number(params: Seq<u8>, k: nat) -> Option<nat> {
    match part(params, 0x3b, k) {
        Some(field) => match part(field, 0x3a, 0) {
            Some(head) => parsed(head, u32::MAX as nat),
            None => None,
        },
        None => None,
    }
}

/// The numbers between semicolons and colons, empty parts left out.
pub open spec fn loose_numbers(b: Seq<u8>) -> Seq<nat>
    decreases b.len(),
{
    let n = separator(b) as int;
    let head = if n == 0 {
        seq![]
    } else {
        match parsed(b.take(n), u16::MAX as nat) {
            Some(v) => seq![v],
            None => seq![0nat],
        }
    };
    if n < 0 || n >= b.len() {
        head
    } else {
        head + loose_numbers(b.skip(n + 1))
    }
}

/// The index of the first semicolon or colon, or the length.
pub open spec fn separator(b: Seq<u8>) -> nat
    decreases b.len(),
{
    if b.len() == 0 || b[0] == 0x3b || b[0] == 0x3a {
        0
    } else {
        1 + separator(b.skip(1))
    }
}

/// Whether the bit with the given weight is set.
pub open spec fn bit(value: nat, weight: nat) -> bool {
    (value / weight) % 2 == 1
}

/// The modifiers that a number stands for: one more than the sum of their bits.
pub open spec fn modifiers_of(value: nat) -> KeyModifiers {
    let bits = if value == 0 {
        0nat
    } else {
        (value - 1) as nat
    };
    KeyModifiers {
        shift: bit(bits, 1),
        alt: bit(bits, 2),
        control: bit(bits, 4),
        super_key: bit(bits, 8),
        hyper: bit(bits, 16),
        meta: bit(bits, 32),
    }
}

fn modifiers(value: u32) -> (r: KeyModifiers)
    ensures
        r == modifiers_of(value as nat),
{
    let bits: u32 = if value == 0 {
        0
    } else {
        value - 1
    };
    KeyModifiers {
        shift: (bits / 1) % 2 == 1,
        alt: (bits / 2) % 2 == 1,
        control: (bits / 4) % 2 == 1,
        super_key: (bits / 8) % 2 == 1,
        hyper: (bits / 16) % 2 == 1,
        meta: (bits / 32) % 2 == 1,
    }
}

/// The cursor keys.
pub open spec fn navigation_of(b: u8) -> Option<KeyCode> {
    if b == 0x41 {
        Some(KeyCode::Up)
    } else if b == 0x42 {
        Some(KeyCode::Down)
    } else if b == 0x43 {
        Some(KeyCode::Right)
    } else if b == 0x44 {
        Some(KeyCode::Left)
    } else if b == 0x48 {
        Some(KeyCode::Home)
    } else if b == 0x46 {
        Some(KeyCode::End)
    } else {
        None
    }
}

fn navigation(b: u8) -> (r: Option<KeyCode>)
    ensures
        r == navigation_of(b),
{
    match b {
        0x41 => Some(KeyCode::Up),
        0x42 => Some(KeyCode::Down),
        0x43 => Some(KeyCode::Right),
        0x44 => Some(KeyCode::Left),
        0x48 => Some(KeyCode::Home),
        0x46 => Some(KeyCode::End),
        _ => None,
    }
}

/// The key with a code point or a functional-key number.
pub open spec fn unicode_key_of(code: nat) -> Option<KeyCode> {
    if code == 10 || code == 13 {
        Some(KeyCode::Enter)
    } else if code == 9 {
        Some(KeyCode::Tab)
    } else if code == 27 {
        Some(KeyCode::Esc)
    } else if code == 8 || code == 127 {
        Some(KeyCode::Backspace)
    } else if code == 57350 {
        Some(KeyCode::Left)
    } else if code == 57351 {
        Some(KeyCode::Right)
    } else if code == 57352 {
        Some(KeyCode::Up)
    } else if code == 57353 {
        Some(KeyCode::Down)
    } else if code == 57354 {
        Some(KeyCode::PageUp)
    } else if code == 57355 {
        Some(KeyCode::PageDown)
    } else if code == 57356 {
        Some(KeyCode::Home)
    } else if code == 57357 {
        Some(KeyCode::End)
    } else if code == 57349 {
        Some(KeyCode::Delete)
    } else if 0xe000 <= code <= 0xf8ff {
        None
    } else if code <= u32::MAX && is_scalar(code as u32) {
        Some(KeyCode::Char(code as u32 as char))
    } else {
        None
    }
}

fn unicode_key(code: u32) -> (r: Option<KeyCode>)
    ensures
        r == unicode_key_of(code as nat),
{
    match code {
        10 | 13 => Some(KeyCode::Enter),
        9 => Some(KeyCode::Tab),
        27 => Some(KeyCode::Esc),
        8 | 127 => Some(KeyCode::Backspace),
        57350 => Some(KeyCode::Left),
        57351 => Some(KeyCode::Right),
        57352 => Some(KeyCode::Up),
        57353 => Some(KeyCode::Down),
        57354 => Some(KeyCode::PageUp),
        57355 => Some(KeyCode::PageDown),
        57356 => Some(KeyCode::Home),
        57357 => Some(KeyCode::End),
        57349 => Some(KeyCode::Delete),
        // Other functional keys are not text and are bound to nothing.
        _ => if 0xe000 <= code && code <= 0xf8ff {
            None
        } else {
            match char::from_u32(code) {
                Some(c) => Some(KeyCode::Char(c)),
                None => None,
            }
        },
    }
}

/// The mouse event that SGR parameters stand for.
pub open spec fn mouse_of(params: Seq<u8>, release: bool) -> Option<EventModel> {
    let max = u16::MAX as nat;
    match (part(params, 0x3b, 0), part(params, 0x3b, 1), part(params, 0x3b, 2)) {
        (Some(a), Some(b), Some(c)) => match (parsed(a, max), parsed(b, max), parsed(c, max)) {
            (Some(bits), Some(column), Some(row)) => if column == 0 || row == 0 || bits > 127
                || part(params, 0x3b, 3) is Some {
                None
            } else {
                Some(
                    EventModel::Mouse(
                        MouseEvent {
                            kind: mouse_kind(bits, release),
                            column: (column - 1) as u16,
                            row: (row - 1) as u16,
                            modifiers: KeyModifiers {
                                shift: bit(bits, 4),
                                alt: bit(bits, 8),
                                control: bit(bits, 16),
                                ..KeyModifiers::none()
                            },
                        },
                    ),
                )
            },
            _ => None,
        },
        _ => None,
    }
}

/// What the button bits of a mouse report say.
pub open spec fn mouse_kind(bits: nat, release: bool) -> MouseEventKind {
    let low = bits % 4;
    let button = if low == 0 {
        MouseButton::Left
    } else if low == 1 {
        MouseButton::Middle
    } else {
        MouseButton::Right
    };
    if bit(bits, 64) {
        if low == 0 {
            MouseEventKind::ScrollUp
        } else if low == 1 {
            MouseEventKind::ScrollDown
        } else if low == 2 {
            MouseEventKind::ScrollLeft
        } else {
            MouseEventKind::ScrollRight
        }
    } else if release {
        MouseEventKind::Up(button)
    } else if low == 3 {
        MouseEventKind::Moved
    } else if bit(bits, 32) {
        MouseEventKind::Drag(button)
    } else {
        MouseEventKind::Down(button)
    }
}

/// Whether loose numbers spell Shift with Enter, in any of its forms.
pub open spec fn shift_enter(v: Seq<nat>) -> bool {
    &&& v.len() >= 2
    &&& modifiers_of(v[1]).shift
    &&& v[0] == 10 || v[0] == 13 || (v.len() >= 3 && v[0] == 27 && (v[2] == 10 || v[2] == 13))
}

/// Whether a key went down, repeats, or went up.
pub open spec fn kind_field(params: Seq<u8>) -> KeyEventKind {
    match part(params, 0x3b, 1) {
        Some(field) => match part(field, 0x3a, 1) {
            Some(k) => if k == seq![0x32u8] {
                KeyEventKind::Repeat
            } else if k == seq![0x33u8] {
                KeyEventKind::Release
            } else {
                KeyEventKind::Press
            },
            None => KeyEventKind::Press,
        },
        None => KeyEventKind::Press,
    }
}

/// The key that a control sequence names, before its shifted form is looked at.
pub open spec fn csi_code(params: Seq<u8>, last: u8) -> Option<KeyCode> {
    if navigation_of(last) is Some {
        navigation_of(last)
    } else if last == 0x5a {
        Some(KeyCode::BackTab)
    } else if last == 0x7e {
        match field_number(params, 0) {
            Some(n) => if n == 1 || n == 7 {
                Some(KeyCode::Home)
            } else if n == 4 || n == 8 {
                Some(KeyCode::End)
            } else if n == 3 {
                Some(KeyCode::Delete)
            } else if n == 5 {
                Some(KeyCode::PageUp)
            } else if n == 6 {
                Some(KeyCode::PageDown)
            } else if n == 27 {
                match field_number(params, 2) {
                    Some(code) => unicode_key_of(code),
                    None => None,
                }
            } else {
                None
            },
            None => None,
        }
    } else if last == 0x75 {
        match field_number(params, 0) {
            Some(code) => unicode_key_of(code),
            None => None,
        }
    } else {
        None
    }
}

/// The alternate character that the first field gives for Shift.
pub open spec fn shifted_char(params: Seq<u8>) -> Option<char> {
    match part(params, 0x3b, 0) {
        Some(field) => match part(field, 0x3a, 1) {
            Some(text) => match parsed(text, u32::MAX as nat) {
                Some(n) => if is_scalar(n as u32) {
                    Some(n as u32 as char)
                } else {
                    None
                },
                None => None,
            },
            None => None,
        },
        None => None,
    }
}

/// The event that a control sequence stands for.
pub open spec fn csi_of(params: Seq<u8>, last: u8) -> Option<EventModel> {
    if !valid_utf8(params) {
        None
    } else if params.len() > 0 && params[0] == 0x3c && (last == 0x4d || last == 0x6d) {
        mouse_of(params.skip(1), last == 0x6d)
    } else if (last == 0x75 || last == 0x7e) && shift_enter(loose_numbers(params)) {
        Some(
            EventModel::Key(
                KeyEvent {
                    code: KeyCode::Enter,
                    modifiers: KeyModifiers { shift: true, ..KeyModifiers::none() },
                    kind: kind_field(params),
                },
            ),
        )
    } else {
        let plain = modifiers_of(
            match field_number(params, 1) {
                Some(n) => n,
                None => 1,
            },
        );
        let mods = if last == 0x5a {
            KeyModifiers { shift: true, ..plain }
        } else {
            plain
        };
        match csi_code(params, last) {
            Some(code) => Some(
                EventModel::Key(
                    KeyEvent {
                        code: if last == 0x75 && mods.shift && shifted_char(params) is Some {
                            KeyCode::Char(shifted_char(params)->0)
                        } else {
                            code
                        },
                        modifiers: mods,
                        kind: kind_field(params),
                    },
                ),
            ),
            None => if last == 0x49 && params.len() == 0 {
                Some(EventModel::FocusGained)
            } else if last == 0x4f && params.len() == 0 {
                Some(EventModel::FocusLost)
            } else {
                None
            },
        }
    }
}

fn get_part<'a>(b: &'a [u8], sep: u8, k: usize) -> (r: Option<&'a [u8]>)
    ensures
        match r {
            Some(p) => part(b@, sep, k as nat) == Some(p@),
            None => part(b@, sep, k as nat) is None,
        },
    decreases k,
{
    let n: usize = index_of(b, 0, sep);
    assert(b@.skip(0) =~= b@);
    if k == 0 {
        Some(slice_subrange(b, 0, n))
    } else if n >= b.len() {
        None
    } else {
        let rest = slice_subrange(b, n + 1, b.len());
        assert(rest@ =~= b@.skip(n + 1));
        get_part(rest, sep, k - 1)
    }
}

proof fn lemma_digits_grow(d: Seq<u8>, i: int)
    requires
        0 <= i <= d.len(),
        forall|k: int| 0 <= k < d.len() ==> is_digit(#[trigger] d[k]),
    ensures
        digits_value(d.take(i)) <= digits_value(d),
    decreases d.len() - i,
{
    if i < d.len() {
        lemma_digits_grow(d, i + 1);
        assert(d.take(i + 1).drop_last() =~= d.take(i));
        assert(is_digit(d[i]));
    } else {
        assert(d.take(i) =~= d);
    }
}

fn parse_number(b: &[u8], max: u32) -> (r: Option<u32>)
    ensures
        match r {
            Some(n) => parsed(b@, max as nat) == Some(n as nat),
            None => parsed(b@, max as nat) is None,
        },
{
    let d: &[u8] = if b.len() > 0 && b[0] == 0x2b {
        slice_subrange(b, 1, b.len())
    } else {
        b
    };
    if d.len() == 0 {
        return None;
    }
    let mut value: u32 = 0;
    let mut i: usize = 0;
    while i < d.len()
        invariant
            d@ == unplus(b@),
            d@.len() > 0,
            i <= d@.len(),
            value <= max,
            forall|k: int| 0 <= k < i ==> is_digit(#[trigger] d@[k]),
            value == digits_value(d@.take(i as int)),
        decreases d@.len() - i,
    {
        let c: u8 = d[i];
        if c < 0x30 || c > 0x39 {
            assert(!is_digit(d@[i as int]));
            return None;
        }
        assert(d@.take(i + 1).drop_last() =~= d@.take(i as int));
        let next: u64 = value as u64 * 10 + (c - 0x30) as u64;
        if next > max as u64 {
            proof {
                if forall|k: int| 0 <= k < d@.len() ==> is_digit(#[trigger] d@[k]) {
                    lemma_digits_grow(d@, i + 1);
                }
            }
            return None;
        }
        value = next as u32;
        i += 1;
    }
    assert(d@.take(i as int) =~= d@);
    Some(value)
}

fn number_field(params: &[u8], k: usize) -> (r: Option<u32>)
    ensures
        match r {
            Some(n) => field_number(params@, k as nat) == Some(n as nat),
            None => field_number(params@, k as nat) is None,
        },
{
    match get_part(params, 0x3b, k) {
        Some(field) => match get_part(field, 0x3a, 0) {
            Some(head) => parse_number(head, u32::MAX),
            None => None,
        },
        None => None,
    }
}

spec fn nats(v: Seq<u32>) -> Seq<nat> {
    v.map_values(|x: u32| x as nat)
}

fn numbers(b: &[u8]) -> (r: Vec<u32>)
    ensures
        nats(r@) == loose_numbers(b@),
{
    let mut out: Vec<u32> = Vec::new();
    let mut pos: usize = 0;
    assert(b@.skip(0) =~= b@);
    assert(nats(out@) + loose_numbers(b@.skip(0)) =~= loose_numbers(b@));
    loop
        invariant_except_break
            nats(out@) + loose_numbers(b@.skip(pos as int)) == loose_numbers(b@),
        invariant
            pos <= b@.len(),
        ensures
            nats(out@) == loose_numbers(b@),
        decreases b@.len() - pos,
    {
        let mut end: usize = pos;
        while end < b.len() && b[end] != 0x3b && b[end] != 0x3a
            invariant
                pos <= end <= b@.len(),
                separator(b@.skip(pos as int)) == (end - pos) + separator(b@.skip(end as int)),
            decreases b@.len() - end,
        {
            assert(b@.skip(end as int).skip(1) =~= b@.skip(end + 1));
            end += 1;
        }
        let ghost t = b@.skip(pos as int);
        let ghost before = nats(out@);
        let ghost head = if end == pos {
            seq![]
        } else {
            match parsed(t.take(end - pos), u16::MAX as nat) {
                Some(v) => seq![v],
                None => seq![0nat],
            }
        };
        assert(separator(t) == end - pos);
        if end > pos {
            let piece = slice_subrange(b, pos, end);
            assert(piece@ =~= t.take(end - pos));
            let value: u32 = match parse_number(piece, 65535) {
                Some(v) => v,
                None => 0,
            };
            out.push(value);
        }
        assert(nats(out@) =~= before + head);
        if end >= b.len() {
            assert(loose_numbers(t) == head);
            break;
        }
        assert(t.skip(end - pos + 1) =~= b@.skip(end + 1));
        assert(before + (head + loose_numbers(b@.skip(end + 1))) =~= (before + head)
            + loose_numbers(b@.skip(end + 1)));
        pos = end + 1;
    }
    out
}

fn mouse(params: &[u8], release: bool) -> (r: Option<Event>)
    ensures
        opt_event(r) == mouse_of(params@, release),
{
    let a = match get_part(params, 0x3b, 0) {
        Some(p) => p,
        None => {
            return None;
        },
    };
    let b = match get_part(params, 0x3b, 1) {
        Some(p) => p,
        None => {
            return None;
        },
    };
    let c = match get_part(params, 0x3b, 2) {
        Some(p) => p,
        None => {
            return None;
        },
    };
    let bits: u32 = match parse_number(a, 65535) {
        Some(n) => n,
        None => {
            return None;
        },
    };
    let column: u32 = match parse_number(b, 65535) {
        Some(n) => n,
        None => {
            return None;
        },
    };
    let row: u32 = match parse_number(c, 65535) {
        Some(n) => n,
        None => {
            return None;
        },
    };
    if column == 0 || row == 0 || bits > 127 || get_part(params, 0x3b, 3).is_some() {
        return None;
    }
    let low: u32 = bits % 4;
    let button: MouseButton = if low == 0 {
        MouseButton::Left
    } else if low == 1 {
        MouseButton::Middle
    } else {
        MouseButton::Right
    };
    let kind: MouseEventKind = if (bits / 64) % 2 == 1 {
        if low == 0 {
            MouseEventKind::ScrollUp
        } else if low == 1 {
            MouseEventKind::ScrollDown
        } else if low == 2 {
            MouseEventKind::ScrollLeft
        } else {
            MouseEventKind::ScrollRight
        }
    } else if release {
        MouseEventKind::Up(button)
    } else if low == 3 {
        MouseEventKind::Moved
    } else if (bits / 32) % 2 == 1 {
        MouseEventKind::Drag(button)
    } else {
        MouseEventKind::Down(button)
    };
    let mut mods = KeyModifiers::empty();
    mods.shift = (bits / 4) % 2 == 1;
    mods.alt = (bits / 8) % 2 == 1;
    mods.control = (bits / 16) % 2 == 1;
    Some(
        Event::Mouse(
            MouseEvent { kind, column: (column - 1) as u16, row: (row - 1) as u16, modifiers: mods },
        ),
    )
}

fn event_kind(params: &[u8]) -> (r: KeyEventKind)
    ensures
        r == kind_field(params@),
{
    if let Some(field) = get_part(params, 0x3b, 1) {
        if let Some(k) = get_part(field, 0x3a, 1) {
            proof {
                if k@.len() == 1 && k@[0] == 0x32 {
                    assert(k@ =~= seq![0x32u8]);
                }
                if k@.len() == 1 && k@[0] == 0x33 {
                    assert(k@ =~= seq![0x33u8]);
                }
                assert(k@ == seq![0x32u8] ==> k@[0] == 0x32);
                assert(k@ == seq![0x33u8] ==> k@[0] == 0x33);
            }
            if k.len() == 1 && k[0] == 0x32 {
                return KeyEventKind::Repeat;
            }
            if k.len() == 1 && k[0] == 0x33 {
                return KeyEventKind::Release;
            }
        }
    }
    KeyEventKind::Press
}

fn key_code(params: &[u8], last: u8) -> (r: Option<KeyCode>)
    ensures
        r == csi_code(params@, last),
{
    if let Some(code) = navigation(last) {
        return Some(code);
    }
    if last == 0x5a {
        return Some(KeyCode::BackTab);
    }
    if last == 0x7e {
        return match number_field(params, 0) {
            Some(n) => match n {
                1 | 7 => Some(KeyCode::Home),
                4 | 8 => Some(KeyCode::End),
                3 => Some(KeyCode::Delete),
                5 => Some(KeyCode::PageUp),
                6 => Some(KeyCode::PageDown),
                27 => match number_field(params, 2) {
                    Some(code) => unicode_key(code),
                    None => None,
                },
                _ => None,
            },
            None => None,
        };
    }
    if last == 0x75 {
        return match number_field(params, 0) {
            Some(code) => unicode_key(code),
            None => None,
        };
    }
    None
}

fn alternate_char(params: &[u8]) -> (r: Option<char>)
    ensures
        r == shifted_char(params@),
{
    match get_part(params, 0x3b, 0) {
        Some(field) => match get_part(field, 0x3a, 1) {
            Some(text) => match parse_number(text, u32::MAX) {
                Some(n) => char::from_u32(n),
                None => None,
            },
            None => None,
        },
        None => None,
    }
}

/// The event that a control sequence stands for.
fn csi(params: &[u8], last: u8) -> (r: Option<Event>)
    ensures
        opt_event(r) == csi_of(params@, last),
{
    if !is_utf8(params) {
        return None;
    }
    if params.len() > 0 && params[0] == 0x3c && (last == 0x4d || last == 0x6d) {
        let rest = slice_subrange(params, 1, params.len());
        assert(rest@ =~= params@.skip(1));
        return mouse(rest, last == 0x6d);
    }
    let kind: KeyEventKind = event_kind(params);
    if last == 0x75 || last == 0x7e {
        let v = numbers(params);
        let ghost m = loose_numbers(params@);
        assert(m == nats(v@));
        assert(forall|k: int| 0 <= k < v@.len() ==> m[k] == v@[k] as nat);
        if v.len() >= 2 && modifiers(v[1]).shift && (v[0] == 10 || v[0] == 13 || (v.len() >= 3
            && v[0] == 27 && (v[2] == 10 || v[2] == 13))) {
            return Some(
                Event::Key(
                    KeyEvent { code: KeyCode::Enter, modifiers: KeyModifiers::shift_only(), kind },
                ),
            );
        }
    }
    let mut mods: KeyModifiers = modifiers(
        match number_field(params, 1) {
            Some(n) => n,
            None => 1,
        },
    );
    if last == 0x5a {
        mods.shift = true;
    }
    match key_code(params, last) {
        Some(code) => {
            let mut code: KeyCode = code;
            if last == 0x75 && mods.shift {
                if let Some(c) = alternate_char(params) {
                    code = KeyCode::Char(c);
                }
            }
            Some(Event::Key(KeyEvent { code, modifiers: mods, kind }))
        },
        None => {
            if last == 0x49 && params.len() == 0 {
                Some(Event::FocusGained)
            } else if last == 0x4f && params.len() == 0 {
                Some(Event::FocusLost)
            } else {
                None
            }
        },
    }
}

// ---------------------------------------------------------------------------
// The decoder
// ---------------------------------------------------------------------------

/// What starts a paste.
pub open spec fn paste_start() -> Seq<u8> {
    utf8("\u{1b}[200~")
}

/// What ends a paste.
pub open spec fn paste_end() -> Seq<u8> {
    utf8("\u{1b}[201~")
}

/// What the bytes at the start of the buffer call for.
pub ghost enum Step {
    /// More bytes are needed.
    Wait,
    /// The sequence is too long.
    Limit,
    /// The given number of bytes stands for nothing.
    Drop(int),
    /// An event, and the number of bytes that it took.
    Emit(EventModel, int),
}

/// An event, or nothing, for the given number of bytes.
pub open spec fn emit(e: Option<EventModel>, n: int) -> Step {
    match e {
        Some(x) => Step::Emit(x, n),
        None => Step::Drop(n),
    }
}

/// Whether a byte ends a control sequence, or breaks it off.
pub open spec fn ends_sequence(b: u8) -> bool {
    b < 0x20 || 0x40 <= b <= 0x7e
}

/// The index of the first byte from `i` on that ends a sequence, or the length.
pub open spec fn sequence_end(b: Seq<u8>, i: int) -> int
    decreases b.len() - i,
{
    if 0 <= i < b.len() && !ends_sequence(b[i]) {
        sequence_end(b, i + 1)
    } else {
        i
    }
}

/// One past the terminator of a terminal reply, scanning from `i` on: an
/// interrupt, which stays in the buffer, BEL, or ESC `\`.  `None` where there
/// is none yet.
pub open spec fn reply_end(b: Seq<u8>, i: int) -> Option<int>
    decreases b.len() - i,
{
    if i < 0 || i >= b.len() {
        None
    } else if b[i] == 3 {
        Some(i)
    } else if b[i] == 7 {
        Some(i + 1)
    } else if i + 1 < b.len() && b[i] == 27 && b[i + 1] == 0x5c {
        Some(i + 2)
    } else {
        reply_end(b, i + 1)
    }
}

/// A paste at the start of the buffer.
pub open spec fn paste_step(b: Seq<u8>) -> Step {
    match find_seq(b.skip(6), paste_end()) {
        Some(n) => if n > PASTE_LIMIT {
            Step::Limit
        } else {
            Step::Emit(EventModel::Paste(lossy(b.subrange(6, 6 + n as int))), 12 + n as int)
        },
        None => if b.len() > PASTE_LIMIT + 12 {
            Step::Limit
        } else {
            Step::Wait
        },
    }
}

/// A control sequence at the start of the buffer.
pub open spec fn sequence_step(b: Seq<u8>) -> Step {
    let end = sequence_end(b, 2);
    if end >= b.len() {
        if b.len() > SEQUENCE_LIMIT {
            Step::Limit
        } else {
            Step::Wait
        }
    } else if end >= SEQUENCE_LIMIT {
        Step::Limit
    } else if b[end] < 0x20 {
        Step::Drop(end)
    } else if b[1] == 0x5b {
        emit(csi_of(b.subrange(2, end), b[end]), end + 1)
    } else {
        emit(
            match navigation_of(b[end]) {
                Some(code) => Some(pressed(code, KeyModifiers::none())),
                None => None,
            },
            end + 1,
        )
    }
}

/// A terminal reply at the start of the buffer.
pub open spec fn reply_step(b: Seq<u8>) -> Step {
    match reply_end(b, 2) {
        Some(end) => if end > SEQUENCE_LIMIT {
            Step::Limit
        } else {
            Step::Drop(end)
        },
        None => if b.len() > SEQUENCE_LIMIT {
            Step::Limit
        } else {
            Step::Wait
        },
    }
}

/// An event with Alt held down.
pub open spec fn with_alt(e: Option<EventModel>) -> Option<EventModel> {
    match e {
        Some(EventModel::Key(k)) => Some(
            EventModel::Key(
                KeyEvent { modifiers: KeyModifiers { alt: true, ..k.modifiers }, ..k },
            ),
        ),
        _ => None,
    }
}

/// What the bytes at the start of a buffer call for; `expire` says that a lone
/// escape has waited long enough.
#[verifier::opaque]
pub open spec fn first_step(b: Seq<u8>, expire: bool) -> Step {
    if has_prefix(b, paste_start()) {
        paste_step(b)
    } else if b[0] != 27 {
        match character_of(b) {
            Some((n, e)) => emit(e, n),
            None => Step::Wait,
        }
    } else if b.len() == 1 {
        if expire {
            Step::Emit(pressed(KeyCode::Esc, KeyModifiers::none()), 1)
        } else {
            Step::Wait
        }
    } else if b[1] == 0x5b || b[1] == 0x4f {
        sequence_step(b)
    } else if b[1] == 0x5d || b[1] == 0x50 || b[1] == 0x5f || b[1] == 0x5e {
        reply_step(b)
    } else if b[1] == 27 {
        Step::Emit(pressed(KeyCode::Esc, KeyModifiers::none()), 1)
    } else {
        match character_of(b.skip(1)) {
            Some((n, e)) => emit(with_alt(e), n + 1),
            None => Step::Wait,
        }
    }
}

/// What decoding one event from a buffer gives: the event, or none yet, and
/// the bytes that are left; or the failure.
pub ghost enum Decoded {
    Event(EventModel, Seq<u8>),
    Nothing(Seq<u8>),
    Failed(Seq<u8>),
}

/// Decode one event.
pub open spec fn decoded(b: Seq<u8>, expire: bool) -> Decoded
    decreases b.len(),
{
    if b.len() == 0 {
        Decoded::Nothing(b)
    } else {
        match first_step(b, expire) {
            Step::Wait => Decoded::Nothing(b),
            Step::Limit => Decoded::Failed(b),
            Step::Emit(e, n) => Decoded::Event(e, b.skip(n)),
            Step::Drop(n) => if 0 < n <= b.len() {
                decoded(b.skip(n), expire)
            } else {
                Decoded::Nothing(b)
            },
        }
    }
}

/// The input decoder: bytes that have arrived and are not decoded yet, and how
/// far they have been searched for the end of a paste.
pub struct Decoder {
    bytes: Vec<u8>,
    paste_scan: usize,
}

impl Default for Decoder {
    fn default() -> (r: Decoder)
        ensures
            r.wf(),
            r@ == Seq::<u8>::empty(),
    {
        Decoder { bytes: Vec::new(), paste_scan: 0 }
    }
}

impl View for Decoder {
    type V = Seq<u8>;

    closed spec fn view(&self) -> Seq<u8> {
        self.bytes@
    }
}

impl Decoder {
    /// No end of a paste starts in the part that has been searched, and that
    /// part cannot become one when more bytes arrive.
    pub closed spec fn wf(&self) -> bool {
        self.paste_scan > 0 ==> {
            &&& has_prefix(self.bytes@, paste_start())
            &&& self.paste_scan + 5 <= self.bytes@.len()
            &&& forall|k: int|
                6 <= k < self.paste_scan ==> !has_prefix(
                    #[trigger] self.bytes@.skip(k),
                    paste_end(),
                )
        }
    }

    /// The bytes that are not decoded yet.
    pub fn pending(&self) -> (r: &[u8])
        ensures
            r@ == self@,
    {
        self.bytes.as_slice()
    }

    /// Add bytes that have arrived.
    pub fn feed(&mut self, more: &[u8])
        requires
            old(self).wf(),
        ensures
            final(self).wf(),
            final(self)@ == old(self)@ + more@,
    {
        let ghost before = self.bytes@;
        push_bytes(&mut self.bytes, more);
        proof {
            lemma_paste_lengths();
            if self.paste_scan > 0 {
                assert(self.bytes@.take(6) =~= before.take(6));
                assert forall|k: int| 6 <= k < self.paste_scan implies !has_prefix(
                    #[trigger] self.bytes@.skip(k),
                    paste_end(),
                ) by {
                    assert(!has_prefix(before.skip(k), paste_end()));
                    assert(self.bytes@.skip(k).take(6) =~= before.skip(k).take(6));
                }
            }
        }
    }

    fn consume(&mut self, count: usize)
        requires
            count <= old(self)@.len(),
        ensures
            final(self).wf(),
            final(self)@ == old(self)@.skip(count as int),
    {
        let rest = self.bytes.split_off(count);
        assert(rest@ =~= old(self)@.skip(count as int));
        self.bytes = rest;
        self.paste_scan = 0;
    }

    /// Decode the next event, where the bytes that have arrived hold one.
    pub fn next(&mut self, expire_escape: bool) -> (r: Result<Option<Event>, InputLimit>)
        requires
            old(self).wf(),
        ensures
            final(self).wf(),
            match r {
                Ok(Some(e)) => decoded(old(self)@, expire_escape) == Decoded::Event(
                    e@,
                    final(self)@,
                ),
                Ok(None) => decoded(old(self)@, expire_escape) == Decoded::Nothing(final(self)@),
                Err(_) => decoded(old(self)@, expire_escape) == Decoded::Failed(final(self)@),
            },
    {
        let ghost whole = decoded(self@, expire_escape);
        while self.bytes.len() > 0
            invariant
                self.wf(),
                whole == decoded(old(self)@, expire_escape),
                whole == decoded(self@, expire_escape),
            decreases self@.len(),
        {
            let outcome = self.step(expire_escape);
            match outcome {
                Outcome::Wait => {
                    return Ok(None);
                },
                Outcome::Limit => {
                    return Err(InputLimit {  });
                },
                Outcome::Emit(e) => {
                    return Ok(Some(e));
                },
                Outcome::Drop => {},
            }
        }
        Ok(None)
    }

    /// Do what the bytes at the start of the buffer call for.
    fn step(&mut self, expire_escape: bool) -> (r: Outcome)
        requires
            old(self).wf(),
            old(self)@.len() > 0,
        ensures
            final(self).wf(),
            match r {
                Outcome::Wait => first_step(old(self)@, expire_escape) == Step::Wait && final(self)@ == old(self)@,
                Outcome::Limit => first_step(old(self)@, expire_escape) == Step::Limit && final(self)@ == old(self)@,
                Outcome::Drop => exists|n: int|
                    first_step(old(self)@, expire_escape) == Step::Drop(n) && 0 < n <= old(self)@.len() && final(self)@ == #[trigger] old(self)@.skip(n),
                Outcome::Emit(e) => exists|n: int|
                    first_step(old(self)@, expire_escape) == Step::Emit(e@, n) && 0 < n <= old(self)@.len() && final(self)@ == #[trigger] old(self)@.skip(n),
            },
    {
        proof {
            reveal(first_step);
        }
        let ghost b = self.bytes@;
        if bytes_start_with(self.bytes.as_slice(), "\u{1b}[200~".as_bytes()) {
            return self.step_paste();
        }
        assert(self.paste_scan == 0);
        if self.bytes[0] != 27 {
            return match character(self.bytes.as_slice()) {
                None => Outcome::Wait,
                Some((len, event)) => {
                    self.consume(len);
                    assert(self@ == b.skip(len as int));
                    match event {
                        Some(e) => Outcome::Emit(e),
                        None => Outcome::Drop,
                    }
                },
            };
        }
        if self.bytes.len() == 1 {
            if !expire_escape {
                return Outcome::Wait;
            }
            self.consume(1);
            assert(self@ == b.skip(1));
            return Outcome::Emit(key(KeyCode::Esc, KeyModifiers::empty()));
        }
        let intro: u8 = self.bytes[1];
        if intro == 0x5b || intro == 0x4f {
            self.step_sequence()
        } else if intro == 0x5d || intro == 0x50 || intro == 0x5f || intro == 0x5e {
            self.step_reply()
        } else if intro == 27 {
            self.consume(1);
            assert(self@ == b.skip(1));
            Outcome::Emit(key(KeyCode::Esc, KeyModifiers::empty()))
        } else {
            let rest = slice_subrange(self.bytes.as_slice(), 1, self.bytes.len());
            assert(rest@ =~= b.skip(1));
            match character(rest) {
                None => Outcome::Wait,
                Some((len, event)) => {
                    self.consume(len + 1);
                    assert(self@ == b.skip(len + 1));
                    match event {
                        Some(Event::Key(k)) => {
                            let mut k: KeyEvent = k;
                            k.modifiers.alt = true;
                            Outcome::Emit(Event::Key(k))
                        },
                        _ => Outcome::Drop,
                    }
                },
            }
        }
    }

    fn step_paste(&mut self) -> (r: Outcome)
        requires
            old(self).wf(),
            has_prefix(old(self)@, paste_start()),
        ensures
            final(self).wf(),
            match r {
                Outcome::Wait => paste_step(old(self)@) == Step::Wait && final(self)@ == old(self)@,
                Outcome::Limit => paste_step(old(self)@) == Step::Limit && final(self)@ == old(self)@,
                Outcome::Drop => false,
                Outcome::Emit(e) => exists|n: int|
                    paste_step(old(self)@) == Step::Emit(e@, n) && 0 < n <= old(self)@.len()
                        && final(self)@ == #[trigger] old(self)@.skip(n),
            },
    {
        let ghost b = self.bytes@;
        let ghost t = b.skip(6);
        proof {
            lemma_paste_lengths();
            assert(t.skip(0) =~= t);
        }
        let pin = "\u{1b}[201~".as_bytes();
        let len: usize = self.bytes.len();
        let mut i: usize = if self.paste_scan > 6 {
            self.paste_scan
        } else {
            6
        };
        proof {
            assert forall|k: int| 0 <= k < i - 6 implies !has_prefix(
                #[trigger] t.skip(k),
                paste_end(),
            ) by {
                assert(t.skip(k) =~= b.skip(k + 6));
            }
            lemma_find_from(t, paste_end(), i - 6);
        }
        while i < len
            invariant
                self.bytes@ == b,
                self.paste_scan == old(self).paste_scan,
                len == b.len(),
                6 <= i <= len,
                t == b.skip(6),
                pin@ == paste_end(),
                paste_end().len() == 6,
                find_seq(t, paste_end()) == match find_seq(t.skip(i - 6), paste_end()) {
                    Some(n) => Some((n + (i - 6)) as nat),
                    None => None,
                },
                forall|k: int| 6 <= k < i ==> !has_prefix(#[trigger] b.skip(k), paste_end()),
                has_prefix(b, paste_start()),
                paste_start().len() == 6,
                b == old(self)@,
            decreases len - i,
        {
            let tail = slice_subrange(self.bytes.as_slice(), i, len);
            assert(tail@ =~= t.skip(i - 6));
            assert(tail@ =~= b.skip(i as int));
            if bytes_start_with(tail, pin) {
                if i - 6 > PASTE_LIMIT {
                    self.paste_scan = 0;
                    return Outcome::Limit;
                }
                let body = slice_subrange(self.bytes.as_slice(), 6, i);
                let text = lossy_utf8(body);
                assert(body@ =~= b.subrange(6, i as int));
                self.consume(i + 6);
                assert(self@ == b.skip(i + 6));
                return Outcome::Emit(Event::Paste(text));
            }
            assert(t.skip(i - 6).skip(1) =~= t.skip(i - 5));
            i += 1;
        }
        assert(find_seq(t, paste_end()) is None);
        if len > PASTE_LIMIT + 12 {
            self.paste_scan = 0;
            return Outcome::Limit;
        }
        self.paste_scan = len - 5;
        Outcome::Wait
    }

    fn step_sequence(&mut self) -> (r: Outcome)
        requires
            old(self).wf(),
            old(self)@.len() >= 2,
        ensures
            final(self).wf(),
            match r {
                Outcome::Wait => sequence_step(old(self)@) == Step::Wait && final(self)@ == old(self)@,
                Outcome::Limit => sequence_step(old(self)@) == Step::Limit && final(self)@ == old(self)@,
                Outcome::Drop => exists|n: int|
                    sequence_step(old(self)@) == Step::Drop(n) && 0 < n <= old(self)@.len()
                        && final(self)@ == #[trigger] old(self)@.skip(n),
                Outcome::Emit(e) => exists|n: int|
                    sequence_step(old(self)@) == Step::Emit(e@, n) && 0 < n <= old(self)@.len()
                        && final(self)@ == #[trigger] old(self)@.skip(n),
            },
    {
        let ghost b = self.bytes@;
        let len: usize = self.bytes.len();
        let mut end: usize = 2;
        while end < len && !(self.bytes[end] < 0x20 || (0x40 <= self.bytes[end] && self.bytes[end]
            <= 0x7e))
            invariant
                self.bytes@ == b,
                len == b.len(),
                2 <= end <= len,
                sequence_end(b, 2) == sequence_end(b, end as int),
            decreases len - end,
        {
            end += 1;
        }
        if end >= len {
            return if len > SEQUENCE_LIMIT {
                Outcome::Limit
            } else {
                Outcome::Wait
            };
        }
        if end >= SEQUENCE_LIMIT {
            return Outcome::Limit;
        }
        let last: u8 = self.bytes[end];
        if last < 0x20 {
            // An interrupted sequence must not hold back an interrupt or a
            // fresh escape.
            self.consume(end);
            assert(self@ == b.skip(end as int));
            return Outcome::Drop;
        }
        let event = if self.bytes[1] == 0x5b {
            csi(slice_subrange(self.bytes.as_slice(), 2, end), last)
        } else {
            match navigation(last) {
                Some(code) => Some(key(code, KeyModifiers::empty())),
                None => None,
            }
        };
        self.consume(end + 1);
        assert(self@ == b.skip(end + 1));
        match event {
            Some(e) => Outcome::Emit(e),
            None => Outcome::Drop,
        }
    }

    fn step_reply(&mut self) -> (r: Outcome)
        requires
            old(self).wf(),
            old(self)@.len() >= 2,
        ensures
            final(self).wf(),
            match r {
                Outcome::Wait => reply_step(old(self)@) == Step::Wait && final(self)@ == old(self)@,
                Outcome::Limit => reply_step(old(self)@) == Step::Limit && final(self)@ == old(self)@,
                Outcome::Drop => exists|n: int|
                    reply_step(old(self)@) == Step::Drop(n) && 0 < n <= old(self)@.len()
                        && final(self)@ == #[trigger] old(self)@.skip(n),
                Outcome::Emit(_) => false,
            },
    {
        let ghost b = self.bytes@;
        let len: usize = self.bytes.len();
        let mut i: usize = 2;
        let mut end: Option<usize> = None;
        while i < len && end.is_none()
            invariant
                self.bytes@ == b,
                len == b.len(),
                2 <= i <= len,
                match end {
                    Some(e) => reply_end(b, 2) == Some(e as int) && 2 <= e <= len,
                    None => reply_end(b, 2) == reply_end(b, i as int),
                },
            decreases len - i,
        {
            if self.bytes[i] == 3 {
                end = Some(i);
            } else if self.bytes[i] == 7 {
                end = Some(i + 1);
            } else if i + 1 < len && self.bytes[i] == 27 && self.bytes[i + 1] == 0x5c {
                end = Some(i + 2);
            }
            i += 1;
        }
        match end {
            Some(e) => {
                if e > SEQUENCE_LIMIT {
                    return Outcome::Limit;
                }
                self.consume(e);
                assert(self@ == b.skip(e as int));
                Outcome::Drop
            },
            None => if len > SEQUENCE_LIMIT {
                Outcome::Limit
            } else {
                Outcome::Wait
            },
        }
    }
}

enum Outcome {
    Wait,
    Limit,
    Drop,
    Emit(Event),
}

proof fn lemma_paste_lengths()
    ensures
        paste_start().len() == 6,
        paste_end().len() == 6,
{
    reveal_strlit("\u{1b}[200~");
    reveal_strlit("\u{1b}[201~");
    vstd::utf8::is_ascii_chars_encode_utf8("\u{1b}[200~"@);
    vstd::utf8::is_ascii_chars_encode_utf8("\u{1b}[201~"@);
}

/// Where nothing is found at the first positions, the search goes on after
/// them.
proof fn lemma_find_from(b: Seq<u8>, needle: Seq<u8>, i: int)
    requires
        0 <= i <= b.len(),
        forall|k: int| 0 <= k < i ==> !has_prefix(#[trigger] b.skip(k), needle),
    ensures
        find_seq(b, needle) == match find_seq(b.skip(i), needle) {
            Some(n) => Some((n + i) as nat),
            None => None,
        },
    decreases i,
{
    assert(b.skip(0) =~= b);
    if i > 0 {
        let t = b.skip(1);
        assert(!has_prefix(b.skip(0), needle));
        assert forall|k: int| 0 <= k < i - 1 implies !has_prefix(#[trigger] t.skip(k), needle) by {
            assert(t.skip(k) =~= b.skip(k + 1));
        }
        lemma_find_from(t, needle, i - 1);
        assert(t.skip(i - 1) =~= b.skip(i));
    }
}

// ---------------------------------------------------------------------------
// Fragmentation
// ---------------------------------------------------------------------------

/// All events of a buffer, what is left of it, and whether a limit was hit.
pub ghost struct Run {
    pub events: Seq<EventModel>,
    pub rest: Seq<u8>,
    pub failed: bool,
}

/// Decode all that a buffer holds.
pub open spec fn run(b: Seq<u8>) -> Run
    decreases b.len(),
{
    if b.len() == 0 {
        Run { events: seq![], rest: b, failed: false }
    } else {
        match first_step(b, false) {
            Step::Wait => Run { events: seq![], rest: b, failed: false },
            Step::Limit => Run { events: seq![], rest: b, failed: true },
            Step::Drop(n) => if 0 < n <= b.len() {
                run(b.skip(n))
            } else {
                Run { events: seq![], rest: b, failed: false }
            },
            Step::Emit(e, n) => if 0 < n <= b.len() {
                Run { events: seq![e] + run(b.skip(n)).events, ..run(b.skip(n)) }
            } else {
                Run { events: seq![], rest: b, failed: false }
            },
        }
    }
}

/// One run after another, on what the first one left and more bytes.
pub open spec fn then_run(first: Run, more: Seq<u8>) -> Run {
    if first.failed {
        Run { rest: first.rest + more, ..first }
    } else {
        let second = run(first.rest + more);
        Run { events: first.events + second.events, ..second }
    }
}

proof fn lemma_prefix_stable(a: Seq<u8>, c: Seq<u8>, p: Seq<u8>)
    requires
        a.len() >= p.len(),
    ensures
        has_prefix(a + c, p) == has_prefix(a, p),
{
    assert((a + c).take(p.len() as int) =~= a.take(p.len() as int));
}

proof fn lemma_find_stable(t: Seq<u8>, c: Seq<u8>, needle: Seq<u8>)
    requires
        needle.len() > 0,
    ensures
        match find_seq(t, needle) {
            Some(n) => n + needle.len() <= t.len() && find_seq(t + c, needle) == Some(n),
            None => match find_seq(t + c, needle) {
                Some(n) => n + needle.len() > t.len(),
                None => true,
            },
        },
    decreases t.len(),
{
    if t.len() >= needle.len() {
        lemma_prefix_stable(t, c, needle);
    }
    if t.len() > 0 {
        lemma_find_stable(t.skip(1), c, needle);
        assert((t + c).skip(1) =~= t.skip(1) + c);
    }
}

proof fn lemma_sequence_end_stable(a: Seq<u8>, c: Seq<u8>, i: int)
    requires
        0 <= i <= a.len(),
    ensures
        i <= sequence_end(a, i) <= a.len(),
        sequence_end(a, i) < a.len() ==> sequence_end(a + c, i) == sequence_end(a, i),
        sequence_end(a, i) >= a.len() ==> sequence_end(a + c, i) >= a.len(),
        sequence_end(a + c, i) <= a.len() + c.len(),
    decreases a.len() - i,
{
    if i < a.len() {
        assert((a + c)[i] == a[i]);
        if !ends_sequence(a[i]) {
            lemma_sequence_end_stable(a, c, i + 1);
        }
    } else {
        lemma_sequence_end_bound(a + c, i);
    }
}

proof fn lemma_sequence_end_bound(b: Seq<u8>, i: int)
    requires
        0 <= i <= b.len(),
    ensures
        i <= sequence_end(b, i) <= b.len(),
    decreases b.len() - i,
{
    if i < b.len() && !ends_sequence(b[i]) {
        lemma_sequence_end_bound(b, i + 1);
    }
}

proof fn lemma_reply_end_bound(b: Seq<u8>, i: int)
    requires
        0 <= i,
    ensures
        reply_end(b, i) matches Some(e) ==> i <= e <= b.len(),
    decreases b.len() - i,
{
    if i < b.len() {
        lemma_reply_end_bound(b, i + 1);
    }
}

proof fn lemma_reply_end_stable(a: Seq<u8>, c: Seq<u8>, i: int)
    requires
        0 <= i <= a.len(),
    ensures
        match reply_end(a, i) {
            Some(e) => reply_end(a + c, i) == Some(e) && i <= e <= a.len(),
            None => reply_end(a + c, i) matches Some(e) ==> e >= a.len(),
        },
    decreases a.len() - i,
{
    let b = a + c;
    if i < a.len() {
        lemma_reply_end_stable(a, c, i + 1);
        assert(b[i] == a[i]);
        if i + 1 < a.len() {
            assert(b[i + 1] == a[i + 1]);
        }
    } else {
        lemma_reply_end_bound(b, i);
    }
}

proof fn lemma_character_stable(a: Seq<u8>, c: Seq<u8>)
    requires
        a.len() > 0,
        character_of(a) is Some,
    ensures
        character_of(a + c) == character_of(a),
        0 < (character_of(a)->0).0 <= a.len(),
{
    let b = a + c;
    assert(b[0] == a[0]);
    if a.len() >= 2 {
        assert(b[1] == a[1]);
    }
    if a.len() >= 3 {
        assert(b[2] == a[2]);
    }
    if a.len() >= 4 {
        assert(b[3] == a[3]);
    }
}

pub proof fn lemma_paste_bytes()
    ensures
        paste_start().len() == 6,
        paste_end().len() == 6,
        paste_start()[0] == 27,
        paste_start()[1] == 0x5b,
        paste_start()[2] == 0x32,
        paste_start()[3] == 0x30,
        paste_start()[4] == 0x30,
{
    lemma_paste_lengths();
    reveal_strlit("\u{1b}[200~");
    let s = "\u{1b}[200~"@;
    vstd::utf8::is_ascii_chars_encode_utf8(s);
    assert(s[0] as u8 == vstd::utf8::encode_utf8(s)[0]);
    assert(s[1] as u8 == vstd::utf8::encode_utf8(s)[1]);
    assert(s[2] as u8 == vstd::utf8::encode_utf8(s)[2]);
    assert(s[3] as u8 == vstd::utf8::encode_utf8(s)[3]);
    assert(s[4] as u8 == vstd::utf8::encode_utf8(s)[4]);
}

/// Where the bytes at the start of a buffer call for anything but waiting,
/// they call for the same whatever bytes follow them.
proof fn lemma_step_stable(a: Seq<u8>, c: Seq<u8>)
    requires
        a.len() > 0,
        !(first_step(a, false) is Wait),
    ensures
        first_step(a + c, false) == first_step(a, false),
        match first_step(a, false) {
            Step::Drop(n) => 0 < n <= a.len(),
            Step::Emit(_, n) => 0 < n <= a.len(),
            _ => true,
        },
{
    reveal(first_step);
    lemma_paste_bytes();
    let b = a + c;
    assert(b[0] == a[0]);
    if a.len() >= 6 {
        lemma_prefix_stable(a, c, paste_start());
    }
    if has_prefix(a, paste_start()) {
        let t = a.skip(6);
        assert(b.skip(6) =~= t + c);
        lemma_find_stable(t, c, paste_end());
        if let Some(n) = find_seq(t, paste_end()) {
            assert(b.subrange(6, 6 + n as int) =~= a.subrange(6, 6 + n as int));
        }
    } else if has_prefix(b, paste_start()) {
        assert(a.len() < 6);
        assert forall|k: int| 0 <= k < a.len() implies a[k] == paste_start()[k] by {
            assert(b.take(6)[k] == paste_start()[k]);
        }
        assert(first_step(a, false) is Wait) by {
            if a.len() >= 2 {
                reveal_with_fuel(sequence_end, 4);
                assert(sequence_end(a, 2) >= a.len());
            }
        }
    } else if a[0] != 27 {
        lemma_character_stable(a, c);
    } else {
        assert(a.len() >= 2);
        assert(b[1] == a[1]);
        if a[1] == 0x5b || a[1] == 0x4f {
            lemma_sequence_end_stable(a, c, 2);
            let end = sequence_end(a, 2);
            if end < a.len() {
                assert(b[end] == a[end]);
                assert(b.subrange(2, end) =~= a.subrange(2, end));
            }
        } else if a[1] == 0x5d || a[1] == 0x50 || a[1] == 0x5f || a[1] == 0x5e {
            lemma_reply_end_stable(a, c, 2);
        } else if a[1] != 27 {
            assert(b.skip(1) =~= a.skip(1) + c);
            lemma_character_stable(a.skip(1), c);
        }
    }
}

/// The events do not depend on how the bytes were split up: decoding some
/// bytes, and then what is left of them together with more, gives what
/// decoding all of them at once gives.
pub proof fn law_fragmentation(a: Seq<u8>, c: Seq<u8>)
    ensures
        run(a + c) == then_run(run(a), c),
    decreases a.len(),
{
    if a.len() == 0 {
        assert(a + c =~= c);
        assert(Seq::<EventModel>::empty() + run(c).events =~= run(c).events);
    } else {
        match first_step(a, false) {
            Step::Wait => {
                assert(Seq::<EventModel>::empty() + run(a + c).events =~= run(a + c).events);
            },
            Step::Limit => {
                lemma_step_stable(a, c);
            },
            Step::Drop(n) => {
                lemma_step_stable(a, c);
                law_fragmentation(a.skip(n), c);
                assert((a + c).skip(n) =~= a.skip(n) + c);
            },
            Step::Emit(e, n) => {
                lemma_step_stable(a, c);
                law_fragmentation(a.skip(n), c);
                assert((a + c).skip(n) =~= a.skip(n) + c);
                let first = run(a.skip(n));
                if !first.failed {
                    let second = run(first.rest + c);
                    assert((seq![e] + first.events) + second.events =~= seq![e] + (first.events
                        + second.events));
                }
            },
        }
    }
}

/// Taking one event after the other gives the events of the whole buffer.
pub proof fn law_run_by_events(b: Seq<u8>)
    ensures
        match decoded(b, false) {
            Decoded::Event(e, rest) => run(b) == (Run {
                events: seq![e] + run(rest).events,
                ..run(rest)
            }),
            Decoded::Nothing(rest) => run(b) == (Run { events: seq![], rest, failed: false }),
            Decoded::Failed(rest) => run(b) == (Run { events: seq![], rest, failed: true }),
        },
    decreases b.len(),
{
    if b.len() > 0 {
        match first_step(b, false) {
            Step::Drop(n) => {
                lemma_step_stable(b, seq![]);
                law_run_by_events(b.skip(n));
            },
            Step::Emit(e, n) => {
                lemma_step_stable(b, seq![]);
            },
            _ => {},
        }
    }
}

// ---------------------------------------------------------------------------
// Waiting
// ---------------------------------------------------------------------------

/// The input side of the terminal: the decoder, and since when a lone escape
/// has been waiting.  Times are nanoseconds on a clock of the caller's.
pub struct Input {
    pub decoder: Decoder,
    pub escape_since: Option<u64>,
}

impl Default for Input {
    fn default() -> (r: Input)
        ensures
            r.decoder.wf(),
            r.decoder@ == Seq::<u8>::empty(),
            r.escape_since is None,
    {
        Input { decoder: Decoder::default(), escape_since: None }
    }
}

/// What to do next about input.
#[derive(Clone, Debug, PartialEq, Eq)]
pub enum Plan {
    /// An event is there.
    Ready(Event),
    /// Nothing came of a lone escape that has waited long enough.
    Idle,
    /// Wait for bytes, for at most so many nanoseconds.
    Poll(u64),
}

/// How long a lone escape has waited.
pub open spec fn waited(since: u64, now: u64) -> u64 {
    if now >= since {
        (now - since) as u64
    } else {
        0
    }
}

/// How long to wait for bytes when a lone escape stands in the buffer.
pub open spec fn escape_wait(since: u64, now: u64, timeout: u64) -> u64 {
    let left = (ESCAPE_TIMEOUT - waited(since, now)) as u64;
    if timeout <= left {
        timeout
    } else {
        left
    }
}

impl Input {
    /// Decide what to do: hand out an event that is complete, let a lone
    /// escape expire, or wait for more bytes.
    pub fn plan(&mut self, now: u64, timeout: u64) -> (r: Result<Plan, InputLimit>)
        requires
            old(self).decoder.wf(),
        ensures
            final(self).decoder.wf(),
            match decoded(old(self).decoder@, false) {
                Decoded::Event(e, rest) => final(self).decoder@ == rest && final(
                    self).escape_since is None && (r matches Ok(Plan::Ready(x)) && x@ == e),
                Decoded::Failed(rest) => r is Err && final(self).decoder@ == rest,
                Decoded::Nothing(rest) => if rest == seq![27u8] {
                    let since = match old(self).escape_since {
                        Some(t) => t,
                        None => now,
                    };
                    if waited(since, now) >= ESCAPE_TIMEOUT {
                        final(self).escape_since is None && match decoded(rest, true) {
                            Decoded::Event(e, left) => final(self).decoder@ == left && (
                            r matches Ok(Plan::Ready(x)) && x@ == e),
                            Decoded::Nothing(left) => final(self).decoder@ == left && (
                            r matches Ok(Plan::Idle)),
                            Decoded::Failed(left) => final(self).decoder@ == left && r is Err,
                        }
                    } else {
                        final(self).escape_since == Some(since) && final(self).decoder@ == rest && (
                        r matches Ok(Plan::Poll(t)) && t == escape_wait(since, now, timeout))
                    }
                } else {
                    final(self).escape_since is None && final(self).decoder@ == rest && (
                    r matches Ok(Plan::Poll(t)) && t == timeout)
                },
            },
    {
        match self.decoder.next(false) {
            Err(e) => {
                return Err(e);
            },
            Ok(Some(event)) => {
                self.escape_since = None;
                return Ok(Plan::Ready(event));
            },
            Ok(None) => {},
        }
        let pending = self.decoder.pending();
        let lone: bool = pending.len() == 1 && pending[0] == 27;
        proof {
            if lone {
                assert(self.decoder@ =~= seq![27u8]);
            } else {
                assert(self.decoder@ == seq![27u8] ==> self.decoder@.len() == 1 && self.decoder@[0]
                    == 27);
            }
        }
        if !lone {
            self.escape_since = None;
            return Ok(Plan::Poll(timeout));
        }
        let since: u64 = match self.escape_since {
            Some(t) => t,
            None => now,
        };
        let elapsed: u64 = if now >= since {
            now - since
        } else {
            0
        };
        if elapsed >= ESCAPE_TIMEOUT {
            self.escape_since = None;
            return match self.decoder.next(true) {
                Err(e) => Err(e),
                Ok(Some(event)) => Ok(Plan::Ready(event)),
                Ok(None) => Ok(Plan::Idle),
            };
        }
        self.escape_since = Some(since);
        let left: u64 = ESCAPE_TIMEOUT - elapsed;
        Ok(
            Plan::Poll(
                if timeout <= left {
                    timeout
                } else {
                    left
                },
            ),
        )
    }
}

/// A wait in whole milliseconds for the system call: at least one, and no more
/// than fits its argument.
pub fn poll_millis(wait: u64) -> (r: i32)
    ensures
        r == if wait / 1_000_000 < 1 {
            1
        } else if wait / 1_000_000 > i32::MAX {
            i32::MAX as int
        } else {
            (wait / 1_000_000) as int
        },
{
    let millis: u64 = wait / 1_000_000;
    if millis < 1 {
        1
    } else if millis > 0x7fff_ffff {
        i32::MAX
    } else {
        millis as i32
    }
}

} // verus!

//! Colours: the built-in palette, SGR colour sequences, and the check of
//! Base16 and Base24 theme files.
use vstd::prelude::*;
use vstd::slice::slice_subrange;
use crate::Error;
use crate::util::{
    bytes_start_with, contains_text, decimal, find_byte, hex_digit, index_of, push_decimal,
    text_contains, utf8,
};

verus! {

#[derive(Clone, Copy, Debug, PartialEq, Eq)]
pub struct Color {
    pub hex: &'static str,
}

#[derive(Clone, Copy, Debug, PartialEq, Eq)]
pub struct ThemeTokens {
    pub name: &'static str,
    pub bg_default: Color,
    pub bg_panel: Color,
    pub bg_selected: Color,
    pub fg_default: Color,
    pub fg_muted: Color,
    pub fg_accent: Color,
    pub diff_add_bg: Color,
    pub diff_add_fg: Color,
    pub diff_del_bg: Color,
    pub diff_del_fg: Color,
    pub diff_context_fg: Color,
    pub border: Color,
    pub warning: Color,
    pub error_color: Color,
    pub comment_badge: Color,
    pub reviewed_badge: Color,
    pub unreviewed_badge: Color,
    pub syntax_keyword: Color,
    pub syntax_string: Color,
    pub syntax_comment: Color,
    pub syntax_type: Color,
    pub syntax_function: Color,
    pub syntax_number: Color,
    pub syntax_operator: Color,
    pub syntax_plain: Color,
}

/// The default palette.
pub fn catppuccin_mocha() -> (r: ThemeTokens)
    ensures
        r.name@ == "catppuccin-mocha"@,
        r.bg_default.hex@ == "#1e1e2e"@,
        r.bg_panel.hex@ == "#181825"@,
        r.bg_selected.hex@ == "#313244"@,
        r.fg_default.hex@ == "#cdd6f4"@,
        r.fg_muted.hex@ == "#9399b2"@,
        r.fg_accent.hex@ == "#89b4fa"@,
        r.diff_add_bg.hex@ == "#1e3a2f"@,
        r.diff_add_fg.hex@ == "#a6e3a1"@,
        r.diff_del_bg.hex@ == "#3b2228"@,
        r.diff_del_fg.hex@ == "#f38ba8"@,
        r.diff_context_fg.hex@ == "#bac2de"@,
        r.border.hex@ == "#45475a"@,
        r.warning.hex@ == "#f9e2af"@,
        r.error_color.hex@ == "#f38ba8"@,
        r.comment_badge.hex@ == "#f5c2e7"@,
        r.reviewed_badge.hex@ == "#a6e3a1"@,
        r.unreviewed_badge.hex@ == "#fab387"@,
        r.syntax_keyword.hex@ == "#cba6f7"@,
        r.syntax_string.hex@ == "#a6e3a1"@,
        r.syntax_comment.hex@ == "#6c7086"@,
        r.syntax_type.hex@ == "#f9e2af"@,
        r.syntax_function.hex@ == "#89b4fa"@,
        r.syntax_number.hex@ == "#fab387"@,
        r.syntax_operator.hex@ == "#94e2d5"@,
        r.syntax_plain.hex@ == "#cdd6f4"@,
{
    ThemeTokens {
        name: "catppuccin-mocha",
        bg_default: Color { hex: "#1e1e2e" },
        bg_panel: Color { hex: "#181825" },
        bg_selected: Color { hex: "#313244" },
        fg_default: Color { hex: "#cdd6f4" },
        fg_muted: Color { hex: "#9399b2" },
        fg_accent: Color { hex: "#89b4fa" },
        diff_add_bg: Color { hex: "#1e3a2f" },
        diff_add_fg: Color { hex: "#a6e3a1" },
        diff_del_bg: Color { hex: "#3b2228" },
        diff_del_fg: Color { hex: "#f38ba8" },
        diff_context_fg: Color { hex: "#bac2de" },
        border: Color { hex: "#45475a" },
        warning: Color { hex: "#f9e2af" },
        error_color: Color { hex: "#f38ba8" },
        comment_badge: Color { hex: "#f5c2e7" },
        reviewed_badge: Color { hex: "#a6e3a1" },
        unreviewed_badge: Color { hex: "#fab387" },
        syntax_keyword: Color { hex: "#cba6f7" },
        syntax_string: Color { hex: "#a6e3a1" },
        syntax_comment: Color { hex: "#6c7086" },
        syntax_type: Color { hex: "#f9e2af" },
        syntax_function: Color { hex: "#89b4fa" },
        syntax_number: Color { hex: "#fab387" },
        syntax_operator: Color { hex: "#94e2d5" },
        syntax_plain: Color { hex: "#cdd6f4" },
    }
}

/// Whether, and how, colours are written.
#[derive(Clone, Copy, Debug, PartialEq, Eq, Structural)]
pub struct Ansi {
    pub enabled: bool,
    pub true_color: bool,
}

pub open spec fn is_hex(b: u8) -> bool {
    0x30 <= b <= 0x39 || 0x41 <= b <= 0x46 || 0x61 <= b <= 0x66
}

/// The value of a hexadecimal digit.
pub open spec fn hex_value(b: u8) -> int {
    if b <= 0x39 {
        b - 0x30
    } else if b <= 0x46 {
        b - 0x37
    } else {
        b - 0x57
    }
}

/// A colour without the hash sign before it.
pub open spec fn unhashed(b: Seq<u8>) -> Seq<u8> {
    if b.len() > 0 && b[0] == 0x23 {
        b.skip(1)
    } else {
        b
    }
}

/// Whether a byte string is a colour: six hexadecimal digits, with or without
/// a hash sign.
pub open spec fn is_color(b: Seq<u8>) -> bool {
    let raw = unhashed(b);
    raw.len() == 6 && forall|k: int| 0 <= k < 6 ==> is_hex(#[trigger] raw[k])
}

/// One of the three parts of a colour.
pub open spec fn channel(b: Seq<u8>, k: int) -> int {
    let raw = unhashed(b);
    hex_value(raw[2 * k]) * 16 + hex_value(raw[2 * k + 1])
}

fn hex_digit_value(b: u8) -> (r: u8)
    requires
        is_hex(b),
    ensures
        r == hex_value(b),
        r < 16,
{
    if b <= 0x39 {
        b - 0x30
    } else if b <= 0x46 {
        b - 0x37
    } else {
        b - 0x57
    }
}

fn is_hex_digit(b: u8) -> (r: bool)
    ensures
        r == is_hex(b),
{
    (0x30 <= b && b <= 0x39) || (0x41 <= b && b <= 0x46) || (0x61 <= b && b <= 0x66)
}

/// The red, green and blue parts of a colour.
pub fn parse_hex(hex: &[u8]) -> (r: Option<[u8; 3]>)
    ensures
        match r {
            Some(c) => is_color(hex@) && c[0] == channel(hex@, 0) && c[1] == channel(hex@, 1)
                && c[2] == channel(hex@, 2),
            None => !is_color(hex@),
        },
{
    let raw: &[u8] = if hex.len() > 0 && hex[0] == 0x23 {
        slice_subrange(hex, 1, hex.len())
    } else {
        hex
    };
    assert(raw@ =~= unhashed(hex@));
    if raw.len() != 6 {
        return None;
    }
    let mut i: usize = 0;
    while i < 6
        invariant
            i <= 6,
            raw@.len() == 6,
            raw@ == unhashed(hex@),
            forall|k: int| 0 <= k < i ==> is_hex(#[trigger] raw@[k]),
        decreases 6 - i,
    {
        if !is_hex_digit(raw[i]) {
            assert(!is_hex(raw@[i as int]));
            return None;
        }
        i += 1;
    }
    assert(is_hex(raw@[0]) && is_hex(raw@[1]) && is_hex(raw@[2]) && is_hex(raw@[3]) && is_hex(
        raw@[4],
    ) && is_hex(raw@[5]));
    Some(
        [
            hex_digit_value(raw[0]) * 16 + hex_digit_value(raw[1]),
            hex_digit_value(raw[2]) * 16 + hex_digit_value(raw[3]),
            hex_digit_value(raw[4]) * 16 + hex_digit_value(raw[5]),
        ],
    )
}

impl Ansi {
    /// The settings that an environment asks for: colours are off where it
    /// says so and they are not forced, and true colours need to be announced.
    pub open spec fn environment(
        force: bool,
        no_color: bool,
        colorterm: Option<Seq<char>>,
    ) -> Ansi {
        if !force && no_color {
            Ansi { enabled: false, true_color: false }
        } else {
            Ansi {
                enabled: true,
                true_color: match colorterm {
                    Some(v) => contains_text(v, "truecolor"@) || contains_text(v, "24bit"@),
                    None => false,
                },
            }
        }
    }

    pub fn from_environment(force: bool, no_color: bool, colorterm: Option<&str>) -> (r: Ansi)
        ensures
            r == Ansi::environment(
                force,
                no_color,
                match colorterm {
                    Some(v) => Some(v@),
                    None => None,
                },
            ),
    {
        if !force && no_color {
            return Ansi { enabled: false, true_color: false };
        }
        let true_color: bool = match colorterm {
            Some(v) => text_contains(v, "truecolor") || text_contains(v, "24bit"),
            None => false,
        };
        Ansi { enabled: true, true_color }
    }

    /// The SGR sequence for a colour on the given plane.
    pub open spec fn sgr_text(self, plane: nat, hex: Seq<char>) -> Seq<char> {
        let b = vstd::utf8::encode_utf8(hex);
        if self.enabled && self.true_color && is_color(b) {
            "\u{1b}["@ + decimal(plane) + ";2;"@ + decimal(channel(b, 0) as nat) + ";"@ + decimal(
                channel(b, 1) as nat,
            ) + ";"@ + decimal(channel(b, 2) as nat) + "m"@
        } else {
            seq![]
        }
    }

    /// The foreground sequence for a colour.
    pub open spec fn fg_text(self, hex: Seq<char>) -> Seq<char> {
        self.sgr_text(38, hex)
    }

    /// The background sequence for a colour.
    pub open spec fn bg_text(self, hex: Seq<char>) -> Seq<char> {
        self.sgr_text(48, hex)
    }

    /// What ends all colours.
    pub open spec fn reset_text(self) -> Seq<char> {
        if self.enabled {
            "\u{1b}[0m"@
        } else {
            ""@
        }
    }

    fn sgr_color(self, plane: u8, color: Color) -> (r: String)
        ensures
            r@ == self.sgr_text(plane as nat, color.hex@),
    {
        let mut out = String::new();
        if !self.enabled || !self.true_color {
            assert(out@ =~= self.sgr_text(plane as nat, color.hex@));
            return out;
        }
        if let Some(rgb) = parse_hex(color.hex.as_bytes()) {
            out.append("\u{1b}[");
            push_decimal(&mut out, plane as u64);
            out.append(";2;");
            push_decimal(&mut out, rgb[0] as u64);
            out.append(";");
            push_decimal(&mut out, rgb[1] as u64);
            out.append(";");
            push_decimal(&mut out, rgb[2] as u64);
            out.append("m");
        }
        assert(out@ =~= self.sgr_text(plane as nat, color.hex@));
        out
    }

    pub fn fg(self, color: Color) -> (r: String)
        ensures
            r@ == self.fg_text(color.hex@),
    {
        self.sgr_color(38, color)
    }

    pub fn bg(self, color: Color) -> (r: String)
        ensures
            r@ == self.bg_text(color.hex@),
    {
        self.sgr_color(48, color)
    }

    pub fn reset(self) -> (r: &'static str)
        ensures
            r@ == self.reset_text(),
    {
        if self.enabled {
            "\u{1b}[0m"
        } else {
            ""
        }
    }
}

/// The listing of built-in and supported themes.
pub fn list_builtins() -> (r: String)
    ensures
        r@ == "catppuccin-mocha  built-in default\nbase16/base24     supported via diffo themes validate <file>\n"@,
{
    "catppuccin-mocha  built-in default\nbase16/base24     supported via diffo themes validate <file>\n".to_owned()
}

// ---------------------------------------------------------------------------
// Theme files
// ---------------------------------------------------------------------------

/// Larger theme files are refused.
pub const MAX_THEME_BYTES: usize = 4194304;

/// Whether six hexadecimal digits, and no more, stand at `i`.
pub open spec fn color_at(line: Seq<u8>, i: int) -> bool {
    &&& 0 <= i <= line.len() - 6
    &&& i == 0 || !is_hex(line[i - 1])
    &&& i + 6 == line.len() || !is_hex(line[i + 6])
    &&& is_color(line.subrange(i, i + 6))
}

/// Whether a line holds a colour.
pub open spec fn line_has_color(line: Seq<u8>) -> bool {
    exists|i: int| #[trigger] color_at(line, i)
}

/// Whether the key stands at `i` with a colour after it on the same line.
pub open spec fn key_at(content: Seq<u8>, key: Seq<u8>, i: int) -> bool {
    let after = content.skip(i + key.len());
    &&& 0 <= i <= content.len() - key.len()
    &&& content.subrange(i, i + key.len()) == key
    &&& line_has_color(after.take(find_byte(after, 0x0a) as int))
}

/// Whether a key has a colour.  The format of the file does not matter.
pub open spec fn key_has_color(content: Seq<u8>, key: Seq<u8>) -> bool {
    exists|i: int| #[trigger] key_at(content, key, i)
}

/// The key of a colour slot: `base` and two hexadecimal digits.
pub open spec fn slot_key(index: int) -> Seq<u8> {
    vstd::utf8::encode_utf8(
        "base"@.push(hex_digit((index / 16) as nat)).push(hex_digit((index % 16) as nat)),
    )
}

/// How many of the slots from `from` to before `to` have a colour.
pub open spec fn slots(content: Seq<u8>, from: int, to: int) -> nat
    decreases to - from,
{
    if from >= to {
        0
    } else {
        slots(content, from, to - 1) + if key_has_color(content, slot_key(to - 1)) {
            1nat
        } else {
            0
        }
    }
}

/// The verdict on a theme: all sixteen base slots are needed, and eight more
/// make it a Base24 theme.
pub open spec fn theme_verdict(content: Seq<u8>) -> Option<Seq<char>> {
    let base = slots(content, 0, 16);
    let extra = slots(content, 16, 24);
    if base < 16 {
        None
    } else {
        Some(
            "valid Base"@ + (if extra >= 8 {
                "24"@
            } else {
                "16"@
            }) + " theme ("@ + decimal(base + extra) + " color slots)"@,
        )
    }
}

fn line_contains_hex_color(line: &[u8]) -> (r: bool)
    ensures
        r == line_has_color(line@),
{
    let len: usize = line.len();
    if len < 6 {
        return false;
    }
    let mut i: usize = 0;
    while i <= len - 6
        invariant
            6 <= len == line@.len(),
            i <= len - 5,
            forall|k: int| 0 <= k < i ==> !#[trigger] color_at(line@, k),
        decreases len - i,
    {
        let before: bool = i == 0 || !is_hex_digit(line[i - 1]);
        let after: bool = i + 6 == len || !is_hex_digit(line[i + 6]);
        if before && after && parse_hex(slice_subrange(line, i, i + 6)).is_some() {
            assert(color_at(line@, i as int));
            return true;
        }
        assert(!color_at(line@, i as int));
        i += 1;
    }
    false
}

fn key_has_hex_color(content: &[u8], key: &[u8]) -> (r: bool)
    ensures
        r == key_has_color(content@, key@),
{
    let len: usize = content.len();
    if key.len() > len {
        return false;
    }
    let last: usize = len - key.len();
    let mut i: usize = 0;
    loop
        invariant
            len == content@.len(),
            last == len - key@.len(),
            i <= last,
            forall|k: int| 0 <= k < i ==> !#[trigger] key_at(content@, key@, k),
        decreases last - i,
    {
        let tail = slice_subrange(content, i, len);
        assert(tail@.take(key@.len() as int) =~= content@.subrange(i as int, i + key@.len()));
        if bytes_start_with(tail, key) {
            let after = slice_subrange(content, i + key.len(), len);
            assert(after@ =~= content@.skip(i + key@.len()));
            let end: usize = index_of(after, 0, 0x0a);
            assert(after@.skip(0) =~= after@);
            let line = slice_subrange(after, 0, end);
            assert(line@ =~= after@.take(end as int));
            if line_contains_hex_color(line) {
                assert(key_at(content@, key@, i as int));
                return true;
            }
        }
        assert(!key_at(content@, key@, i as int));
        if i == last {
            return false;
        }
        i += 1;
    }
}

fn nibble_char(d: u8) -> (c: char)
    requires
        d < 16,
    ensures
        c == hex_digit(d as nat),
{
    if d < 10 {
        (0x30 + d) as char
    } else {
        (0x57 + d) as char
    }
}

fn count_slots(content: &[u8], from: u8, to: u8) -> (n: u64)
    requires
        from <= to <= 24,
    ensures
        n == slots(content@, from as int, to as int),
        n <= to - from,
{
    let mut n: u64 = 0;
    let mut index: u8 = from;
    while index < to
        invariant
            from <= index <= to <= 24,
            n == slots(content@, from as int, index as int),
            n <= index - from,
        decreases to - index,
    {
        let mut key = String::new();
        key.append("base");
        key.push(nibble_char(index / 16));
        key.push(nibble_char(index % 16));
        assert(key@ =~= "base"@.push(hex_digit((index / 16) as nat)).push(
            hex_digit((index % 16) as nat),
        ));
        if key_has_hex_color(content, key.as_str().as_bytes()) {
            n += 1;
        }
        index += 1;
    }
    n
}

/// Check a theme for its colour slots.
pub fn validate_base_theme(content: &[u8]) -> (r: Result<String, Error>)
    ensures
        match r {
            Ok(text) => theme_verdict(content@) == Some(text@),
            Err(e) => theme_verdict(content@) is None && e == Error::ThemeInvalid,
        },
{
    let base: u64 = count_slots(content, 0, 16);
    let extra: u64 = count_slots(content, 16, 24);
    if base < 16 {
        return Err(Error::ThemeInvalid);
    }
    let mut out = String::new();
    out.append("valid Base");
    if extra >= 8 {
        out.append("24");
    } else {
        out.append("16");
    }
    out.append(" theme (");
    push_decimal(&mut out, base + extra);
    out.append(" color slots)");
    assert(out@ =~= theme_verdict(content@)->0);
    Ok(out)
}

/// Check the content of a theme file, as far as it was read: files over the
/// size limit are refused.
pub fn validate_theme_bytes(content: &[u8]) -> (r: Result<String, Error>)
    ensures
        match r {
            Ok(text) => content@.len() <= MAX_THEME_BYTES && theme_verdict(content@) == Some(text@),
            Err(e) => (content@.len() > MAX_THEME_BYTES || theme_verdict(content@) is None) && e
                == Error::ThemeInvalid,
        },
{
    if content.len() > MAX_THEME_BYTES {
        return Err(Error::ThemeInvalid);
    }
    validate_base_theme(content)
}

} // verus!

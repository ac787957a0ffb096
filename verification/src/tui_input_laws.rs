//! What typing a character comes to.
use vstd::prelude::*;
use vstd::utf8::{
    char_is_scalar, char_u32_cast, encode_scalar, encode_utf8, has_width_1_encoding, has_width_2_encoding,
    has_width_3_encoding, has_width_4_encoding, is_scalar,
};
use crate::tui_input::{
    character_of, decoded, first_step, lead_len, lemma_paste_bytes, pressed, scalar_prefix, scalar_value,
    Decoded, KeyCode, KeyModifiers, Step,
};

verus! {

/// The bytes of a scalar's encoding as numbers.
proof fn lemma_scalar_bytes(v: u32)
    ensures
        has_width_1_encoding(v) ==> encode_scalar(v) == seq![v as u8],
        has_width_2_encoding(v) ==> encode_scalar(v) == seq![
            (0xc0 + v / 64) as u8,
            (0x80 + v % 64) as u8,
        ],
        has_width_3_encoding(v) ==> encode_scalar(v) == seq![
            (0xe0 + v / 4096) as u8,
            (0x80 + v / 64 % 64) as u8,
            (0x80 + v % 64) as u8,
        ],
        has_width_4_encoding(v) ==> encode_scalar(v) == seq![
            (0xf0 + v / 262144) as u8,
            (0x80 + v / 4096 % 64) as u8,
            (0x80 + v / 64 % 64) as u8,
            (0x80 + v % 64) as u8,
        ],
{
    assert(v <= 0x7f ==> (v & 0x7f) as u8 == v as u8) by (bit_vector);
    assert(v <= 0x7ff ==> 0xC0u8 | ((v >> 6) & 0x1F) as u8 == (0xc0 + v / 64) as u8)
        by (bit_vector);
    assert(v <= 0xffff ==> 0xE0u8 | ((v >> 12) & 0x0F) as u8 == (0xe0 + v / 4096) as u8)
        by (bit_vector);
    assert(v <= 0x10ffff ==> 0xF0u8 | ((v >> 18) & 0x7) as u8 == (0xf0 + v / 262144) as u8)
        by (bit_vector);
    assert(0x80u8 | (v & 0x3F) as u8 == (0x80 + v % 64) as u8) by (bit_vector);
    assert(0x80u8 | ((v >> 6) & 0x3F) as u8 == (0x80 + v / 64 % 64) as u8) by (bit_vector);
    assert(0x80u8 | ((v >> 12) & 0x3F) as u8 == (0x80 + v / 4096 % 64) as u8) by (bit_vector);
}

/// Bytes that begin with a scalar's encoding of more than one byte hold its
/// value.
proof fn lemma_wide_scalar(v: u32, rest: Seq<u8>)
    requires
        is_scalar(v),
        v >= 128,
    ensures
        ({
            let b = encode_scalar(v) + rest;
            &&& b[0] >= 0xc2
            &&& lead_len(b[0]) == encode_scalar(v).len()
            &&& scalar_prefix(b)
            &&& scalar_value(b) == v
        }),
{
    lemma_scalar_bytes(v);
    let own = encode_scalar(v);
    let b = own + rest;
    assert(b[0] == own[0] && b[1] == own[1]);
    if has_width_2_encoding(v) {
        assert(b[0] == 0xc0 + v / 64 && b[1] == 0x80 + v % 64);
    } else if has_width_3_encoding(v) {
        assert(b[2] == own[2]);
        assert(b[0] == 0xe0 + v / 4096 && b[1] == 0x80 + v / 64 % 64 && b[2] == 0x80 + v % 64);
    } else {
        assert(b[2] == own[2] && b[3] == own[3]);
        assert(b[0] == 0xf0 + v / 262144 && b[1] == 0x80 + v / 4096 % 64 && b[2] == 0x80 + v / 64
            % 64 && b[3] == 0x80 + v % 64);
    }
}

/// The key that a character's bytes stand for.
proof fn lemma_typed(c: char, rest: Seq<u8>)
    requires
        c as u32 >= 32,
        c as u32 != 127,
    ensures
        (encode_scalar(c as u32) + rest)[0] != 27,
        character_of(encode_scalar(c as u32) + rest) == Some(
            (
                encode_scalar(c as u32).len() as int,
                Some(pressed(KeyCode::Char(c), KeyModifiers::none())),
            ),
        ),
{
    let v = c as u32;
    let b = encode_scalar(v) + rest;
    char_is_scalar(c);
    char_u32_cast(c, v);
    if v < 128 {
        lemma_scalar_bytes(v);
        assert(b[0] == v as u8);
        assert(b[0] as char == c);
    } else {
        lemma_wide_scalar(v, rest);
    }
}

/// A character that is no control code arrives as a press of its own key, and
/// only its bytes are taken.
pub proof fn law_character_is_typed(c: char, rest: Seq<u8>, expire: bool)
    requires
        c as u32 >= 32,
        c as u32 != 127,
    ensures
        decoded(encode_utf8(seq![c]) + rest, expire) == Decoded::Event(
            pressed(KeyCode::Char(c), KeyModifiers::none()),
            rest,
        ),
{
    let own = encode_scalar(c as u32);
    assert(seq![c].drop_first() =~= Seq::<char>::empty());
    assert(encode_utf8(seq![c].drop_first()) =~= Seq::<u8>::empty());
    assert(encode_utf8(seq![c]) =~= own);
    let b = own + rest;
    assert(b.skip(own.len() as int) =~= rest);
    lemma_typed(c, rest);
    lemma_paste_bytes();
    assert(first_step(b, expire) == Step::Emit(
        pressed(KeyCode::Char(c), KeyModifiers::none()),
        own.len() as int,
    )) by {
        reveal(first_step);
    }
}

} // verus!

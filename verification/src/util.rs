//! Text helpers shared by every module: conversions between strings and
//! character vectors, UTF-8 lengths, and the handful of standard-library
//! string operations that the rest of the crate builds on.
use vstd::prelude::*;
use vstd::utf8::*;
use sha2::Digest;

verus! {

/// `String::push` appends one character.
pub assume_specification[ std::string::String::push ](s: &mut std::string::String, c: char)
    ensures
        final(s)@ == old(s)@.push(c),
;

/// The number of bytes that the UTF-8 encoding of a character takes.
pub open spec fn utf8_width(c: char) -> nat {
    let v = c as u32;
    if v <= 0x7f {
        1
    } else if v <= 0x7ff {
        2
    } else if v <= 0xffff {
        3
    } else {
        4
    }
}

/// The byte offset at which the character with index `i` starts.
pub open spec fn byte_pos(s: Seq<char>, i: int) -> nat
    decreases i,
{
    if i <= 0 {
        0
    } else {
        byte_pos(s, i - 1) + utf8_width(s[i - 1])
    }
}

/// The number of bytes that the UTF-8 encoding of a text takes.
pub open spec fn byte_len(s: Seq<char>) -> nat {
    byte_pos(s, s.len() as int)
}

/// `byte_pos` looks only at the characters before the index.
pub proof fn lemma_byte_pos_prefix(s: Seq<char>, t: Seq<char>, i: int)
    requires
        i <= s.len(),
        i <= t.len(),
        forall|k: int| 0 <= k < i ==> s[k] == t[k],
    ensures
        byte_pos(s, i) == byte_pos(t, i),
    decreases i,
{
    if i > 0 {
        lemma_byte_pos_prefix(s, t, i - 1);
    }
}

/// Offsets in a concatenation.
pub proof fn lemma_byte_pos_add(a: Seq<char>, b: Seq<char>, i: int)
    requires
        0 <= i <= b.len(),
    ensures
        byte_pos(a + b, a.len() + i) == byte_len(a) + byte_pos(b, i),
    decreases i,
{
    if i > 0 {
        lemma_byte_pos_add(a, b, i - 1);
    } else {
        lemma_byte_pos_prefix(a + b, a, a.len() as int);
    }
}

/// Offsets grow with the index, by at least one byte per character.
pub proof fn lemma_byte_pos_monotone(s: Seq<char>, i: int, j: int)
    requires
        0 <= i <= j,
    ensures
        byte_pos(s, i) + (j - i) <= byte_pos(s, j),
        byte_pos(s, j) <= byte_pos(s, i) + 4 * (j - i),
    decreases j,
{
    if i < j {
        lemma_byte_pos_monotone(s, i, j - 1);
    }
}

/// `byte_len` is the length of the UTF-8 encoding.
pub proof fn lemma_byte_len_encode(s: Seq<char>)
    ensures
        byte_len(s) == encode_utf8(s).len(),
    decreases s.len(),
{
    if s.len() > 0 {
        let rest = s.drop_first();
        lemma_byte_len_encode(rest);
        assert(s =~= seq![s[0]] + rest);
        lemma_byte_pos_add(seq![s[0]], rest, rest.len() as int);
        assert(byte_pos(seq![s[0]], 1) == byte_pos(seq![s[0]], 0) + utf8_width(s[0]));
        char_is_scalar(s[0]);
    }
}

/// The characters of a string.
pub fn chars_of(s: &str) -> (r: Vec<char>)
    ensures
        r@ == s@,
{
    let mut out: Vec<char> = Vec::new();
    for c in it: s.chars()
        invariant
            it.seq() == s@,
            out@ == s@.take(it.index() as int),
    {
        out.push(c);
    }
    out
}

/// The string that holds the given characters.
pub fn string_of(chars: &[char]) -> (r: String)
    ensures
        r@ == chars@,
{
    let mut out = String::new();
    let mut i: usize = 0;
    while i < chars.len()
        invariant
            i <= chars@.len(),
            out@ == chars@.take(i as int),
        decreases chars@.len() - i,
    {
        out.push(chars[i]);
        i += 1;
    }
    out
}

/// The byte length of a text fits the machine word.
pub fn checked_byte_len(s: &str) -> (n: usize)
    ensures
        n == byte_len(s@),
{
    let bytes = s.as_bytes();
    proof {
        lemma_byte_len_encode(s@);
    }
    bytes.len()
}

/// Whether two strings hold the same characters.
pub fn same_text(a: &str, b: &str) -> (r: bool)
    ensures
        r == (a@ == b@),
{
    let x = a.as_bytes();
    let y = b.as_bytes();
    proof {
        encode_utf8_decode_utf8(a@);
        encode_utf8_decode_utf8(b@);
    }
    same_bytes(x, y)
}

/// Whether two byte strings are equal.
pub fn same_bytes(x: &[u8], y: &[u8]) -> (r: bool)
    ensures
        r == (x@ == y@),
{
    if x.len() != y.len() {
        return false;
    }
    let mut i: usize = 0;
    while i < x.len()
        invariant
            x@.len() == y@.len(),
            i <= x@.len(),
            forall|k: int| 0 <= k < i ==> x@[k] == y@[k],
        decreases x@.len() - i,
    {
        if x[i] != y[i] {
            assert(x@[i as int] != y@[i as int]);
            return false;
        }
        i += 1;
    }
    assert(x@ =~= y@);
    true
}

// ---------------------------------------------------------------------------
// Byte strings
// ---------------------------------------------------------------------------

/// The bytes of a text.
pub open spec fn utf8(s: &str) -> Seq<u8> {
    encode_utf8(s@)
}

/// Whether `b` begins with `p`.
pub open spec fn has_prefix<T>(b: Seq<T>, p: Seq<T>) -> bool {
    p.len() <= b.len() && b.take(p.len() as int) == p
}

/// Whether `b` ends with `p`.
pub open spec fn has_suffix<T>(b: Seq<T>, p: Seq<T>) -> bool {
    p.len() <= b.len() && b.skip(b.len() - p.len()) == p
}

/// Whether a byte string begins with the given text.
pub fn starts_with(b: &[u8], p: &str) -> (r: bool)
    ensures
        r == has_prefix(b@, utf8(p)),
{
    bytes_start_with(b, p.as_bytes())
}

/// Whether a byte string begins with another.
pub fn bytes_start_with(b: &[u8], p: &[u8]) -> (r: bool)
    ensures
        r == has_prefix(b@, p@),
{
    if p.len() > b.len() {
        return false;
    }
    same_bytes(vstd::slice::slice_subrange(b, 0, p.len()), p)
}

/// What follows the given text at the start of a byte string.
pub fn strip_prefix<'a>(b: &'a [u8], p: &str) -> (r: Option<&'a [u8]>)
    ensures
        match r {
            Some(rest) => has_prefix(b@, utf8(p)) && rest@ == b@.skip(utf8(p).len() as int),
            None => !has_prefix(b@, utf8(p)),
        },
{
    if starts_with(b, p) {
        Some(vstd::slice::slice_subrange(b, p.as_bytes().len(), b.len()))
    } else {
        None
    }
}

/// The index of the first byte `x`, or the length where there is none.
pub open spec fn find_byte(b: Seq<u8>, x: u8) -> nat
    decreases b.len(),
{
    if b.len() == 0 || b[0] == x {
        0
    } else {
        1 + find_byte(b.skip(1), x)
    }
}

/// `find_byte` points at the first occurrence, or past the end.
pub proof fn lemma_find_byte(b: Seq<u8>, x: u8)
    ensures
        find_byte(b, x) <= b.len(),
        find_byte(b, x) < b.len() ==> b[find_byte(b, x) as int] == x,
        forall|k: int| 0 <= k < find_byte(b, x) ==> b[k] != x,
    decreases b.len(),
{
    if b.len() > 0 && b[0] != x {
        lemma_find_byte(b.skip(1), x);
        assert forall|k: int| 0 <= k < find_byte(b, x) implies b[k] != x by {
            if k > 0 {
                assert(b[k] == b.skip(1)[k - 1]);
            }
        }
    }
}

/// The index of the first byte `x` at or after `from`, or the length.
pub fn index_of(b: &[u8], from: usize, x: u8) -> (r: usize)
    requires
        from <= b@.len(),
    ensures
        from <= r <= b@.len(),
        r == from + find_byte(b@.skip(from as int), x),
{
    let mut i: usize = from;
    while i < b.len() && b[i] != x
        invariant
            from <= i <= b@.len(),
            find_byte(b@.skip(from as int), x) == (i - from) + find_byte(b@.skip(i as int), x),
        decreases b@.len() - i,
    {
        assert(b@.skip(i as int).skip(1) =~= b@.skip(i + 1));
        i += 1;
    }
    i
}

/// The index at which `needle` first occurs; beyond the end where it does not.
pub open spec fn find_seq<T>(b: Seq<T>, needle: Seq<T>) -> Option<nat>
    decreases b.len(),
{
    if has_prefix(b, needle) {
        Some(0)
    } else if b.len() == 0 {
        None
    } else {
        match find_seq(b.skip(1), needle) {
            Some(n) => Some(n + 1),
            None => None,
        }
    }
}

/// The index at which a byte string first holds the given text.
pub fn find(b: &[u8], needle: &str) -> (r: Option<usize>)
    ensures
        match r {
            Some(i) => find_seq(b@, utf8(needle)) == Some(i as nat) && i + utf8(needle).len()
                <= b@.len(),
            None => find_seq(b@, utf8(needle)) is None,
        },
{
    let p = needle.as_bytes();
    let mut i: usize = 0;
    assert(b@.skip(0) =~= b@);
    loop
        invariant
            i <= b@.len(),
            p@ == utf8(needle),
            find_seq(b@, utf8(needle)) == match find_seq(b@.skip(i as int), utf8(needle)) {
                Some(n) => Some(n + i as nat),
                None => None,
            },
        decreases b@.len() - i,
    {
        if bytes_start_with(vstd::slice::slice_subrange(b, i, b.len()), p) {
            return Some(i);
        }
        if i == b.len() {
            return None;
        }
        assert(b@.skip(i as int).skip(1) =~= b@.skip(i + 1));
        i += 1;
    }
}

/// Whether a text holds another.
pub open spec fn contains_text(s: Seq<char>, needle: Seq<char>) -> bool {
    exists|k: int| 0 <= k <= s.len() && has_prefix(#[trigger] s.skip(k), needle)
}

/// Whether the characters from `i` on begin with `needle`.
pub fn chars_match(s: &[char], i: usize, needle: &[char]) -> (r: bool)
    requires
        i <= s@.len(),
    ensures
        r == has_prefix(s@.skip(i as int), needle@),
{
    let len: usize = s.len();
    if needle.len() > len - i {
        return false;
    }
    let ghost t = s@.skip(i as int);
    let mut k: usize = 0;
    while k < needle.len()
        invariant
            len == s@.len(),
            k <= needle@.len() <= len - i,
            i <= len,
            t == s@.skip(i as int),
            forall|j: int| 0 <= j < k ==> t[j] == needle@[j],
        decreases needle@.len() - k,
    {
        if s[i + k] != needle[k] {
            assert(t.take(needle@.len() as int)[k as int] != needle@[k as int]);
            return false;
        }
        k += 1;
    }
    assert(t.take(needle@.len() as int) =~= needle@);
    true
}

/// Whether a text holds another.
pub fn text_contains(s: &str, needle: &str) -> (r: bool)
    ensures
        r == contains_text(s@, needle@),
{
    let hay = chars_of(s);
    let pin = chars_of(needle);
    let mut i: usize = 0;
    loop
        invariant
            hay@ == s@,
            pin@ == needle@,
            i <= s@.len(),
            forall|k: int| 0 <= k < i ==> !has_prefix(#[trigger] s@.skip(k), needle@),
        decreases s@.len() - i,
    {
        if chars_match(hay.as_slice(), i, pin.as_slice()) {
            return true;
        }
        if i == hay.len() {
            return false;
        }
        i += 1;
    }
}

/// Whether a text begins with another.
pub fn text_starts_with(s: &str, p: &str) -> (r: bool)
    ensures
        r == has_prefix(s@, p@),
{
    let hay = chars_of(s);
    let pin = chars_of(p);
    assert(hay@.skip(0) =~= hay@);
    chars_match(hay.as_slice(), 0, pin.as_slice())
}

/// Append the bytes of a slice.
pub fn push_bytes(out: &mut Vec<u8>, b: &[u8])
    ensures
        final(out)@ == old(out)@ + b@,
{
    let ghost before = out@;
    let mut i: usize = 0;
    while i < b.len()
        invariant
            i <= b@.len(),
            out@ == before + b@.take(i as int),
        decreases b@.len() - i,
    {
        out.push(b[i]);
        i += 1;
        assert(out@ =~= before + b@.take(i as int));
    }
    assert(out@ =~= before + b@);
}

/// A copy of a byte string.
pub fn copy_bytes(b: &[u8]) -> (r: Vec<u8>)
    ensures
        r@ == b@,
{
    let mut out: Vec<u8> = Vec::new();
    push_bytes(&mut out, b);
    assert(out@ =~= b@);
    out
}

// ---------------------------------------------------------------------------
// Numbers as text
// ---------------------------------------------------------------------------

/// The decimal digit with the given value.
pub open spec fn digit(d: nat) -> char {
    (0x30 + d) as char
}

/// A number in decimal notation.
pub open spec fn decimal(n: nat) -> Seq<char>
    decreases n,
{
    if n < 10 {
        seq![digit(n)]
    } else {
        decimal(n / 10).push(digit(n % 10))
    }
}

/// Append a number in decimal notation.
pub fn push_decimal(out: &mut String, n: u64)
    ensures
        final(out)@ == old(out)@ + decimal(n as nat),
    decreases n,
{
    let ghost before = out@;
    if n < 10 {
        out.push((0x30 + n as u8) as char);
        assert(out@ =~= before + decimal(n as nat));
    } else {
        push_decimal(out, n / 10);
        out.push((0x30 + (n % 10) as u8) as char);
        assert(out@ =~= before + decimal(n as nat));
    }
}

/// A number in decimal notation.
pub fn decimal_text(n: u64) -> (r: String)
    ensures
        r@ == decimal(n as nat),
{
    let mut out = String::new();
    push_decimal(&mut out, n);
    assert(out@ =~= decimal(n as nat));
    out
}

/// A hexadecimal digit, in lower case.
pub open spec fn hex_digit(d: nat) -> char {
    if d < 10 {
        (0x30 + d) as char
    } else {
        (0x57 + d) as char
    }
}

/// A byte string in hexadecimal notation, two digits to a byte.
pub open spec fn hex(b: Seq<u8>) -> Seq<char> {
    Seq::new(
        2 * b.len(),
        |i: int|
            hex_digit(
                if i % 2 == 0 {
                    (b[i / 2] / 16) as nat
                } else {
                    (b[i / 2] % 16) as nat
                },
            ),
    )
}

fn nibble(d: u8) -> (c: char)
    requires
        d < 16,
    ensures
        c == hex_digit(d as nat),
{
    if d < 10 {
        (0x30 + d) as char
    } else {
        (0x57 + d) as char
    }
}

fn hex_text(b: &[u8]) -> (r: String)
    ensures
        r@ == hex(b@),
{
    let mut out = String::new();
    let mut i: usize = 0;
    while i < b.len()
        invariant
            i <= b@.len(),
            out@ == hex(b@.take(i as int)),
        decreases b@.len() - i,
    {
        out.push(nibble(b[i] / 16));
        out.push(nibble(b[i] % 16));
        i += 1;
        assert(out@ =~= hex(b@.take(i as int)));
    }
    assert(b@.take(i as int) =~= b@);
    out
}

// ---------------------------------------------------------------------------
// Digests and lossy decoding
// ---------------------------------------------------------------------------

/// The SHA-256 digest of a byte string.
pub uninterp spec fn sha256(b: Seq<u8>) -> Seq<u8>;

/// `sha2::Sha256::digest`: a function of the bytes alone, always 32 bytes long.
#[verifier::external_body]
fn sha256_digest(b: &[u8]) -> (r: Vec<u8>)
    ensures
        r@ == sha256(b@),
        r@.len() == 32,
{
    sha2::Sha256::digest(b).to_vec()
}

/// The hexadecimal SHA-256 digest of a byte string.
pub fn hash_hex(b: &[u8]) -> (r: String)
    ensures
        r@ == hex(sha256(b@)),
        r@.len() == 64,
{
    let digest = sha256_digest(b);
    hex_text(digest.as_slice())
}

/// The text that a byte string stands for when every malformed part is
/// replaced by U+FFFD.
pub uninterp spec fn lossy(b: Seq<u8>) -> Seq<char>;

/// `String::from_utf8_lossy`: a function of the bytes alone, and plain decoding
/// where the bytes are valid UTF-8.
#[verifier::external_body]
fn from_utf8_lossy(b: &[u8]) -> (r: String)
    ensures
        r@ == lossy(b@),
        valid_utf8(b@) ==> r@ == decode_utf8(b@),
{
    String::from_utf8_lossy(b).into_owned()
}

/// Decode bytes as UTF-8, replacing malformed parts by U+FFFD.
pub fn lossy_utf8(b: &[u8]) -> (r: String)
    ensures
        r@ == lossy(b@),
        valid_utf8(b@) ==> r@ == decode_utf8(b@),
{
    from_utf8_lossy(b)
}

/// `std::str::from_utf8` accepts exactly the well-formed byte strings.
#[verifier::external_body]
pub(crate) fn is_utf8(b: &[u8]) -> (r: bool)
    ensures
        r == valid_utf8(b@),
{
    std::str::from_utf8(b).is_ok()
}

// ---------------------------------------------------------------------------
// Lists of strings
// ---------------------------------------------------------------------------

/// The texts of a list of strings.
pub open spec fn texts(v: Seq<String>) -> Seq<Seq<char>> {
    v.map_values(|s: String| s@)
}

/// Texts joined by single spaces.
pub open spec fn joined(v: Seq<Seq<char>>) -> Seq<char>
    decreases v.len(),
{
    if v.len() == 0 {
        seq![]
    } else if v.len() == 1 {
        v[0]
    } else {
        joined(v.drop_last()).push(' ') + v.last()
    }
}

/// Arguments joined by single spaces.
pub fn join_args(args: &[String]) -> (r: String)
    ensures
        r@ == joined(texts(args@)),
{
    let mut out = String::new();
    let mut i: usize = 0;
    while i < args.len()
        invariant
            i <= args@.len(),
            out@ == joined(texts(args@).take(i as int)),
        decreases args@.len() - i,
    {
        let ghost before = out@;
        let ghost now = texts(args@).take(i + 1);
        assert(now.drop_last() =~= texts(args@).take(i as int));
        if i > 0 {
            out.push(' ');
        }
        out.append(args[i].as_str());
        i += 1;
        assert(out@ =~= joined(now));
    }
    assert(texts(args@).take(i as int) =~= texts(args@));
    out
}

/// A copy of a list of strings.
pub fn copy_strings(v: &[String]) -> (r: Vec<String>)
    ensures
        texts(r@) == texts(v@),
        r@.len() == v@.len(),
{
    let mut out: Vec<String> = Vec::new();
    let mut i: usize = 0;
    while i < v.len()
        invariant
            i <= v@.len(),
            out@.len() == i,
            forall|k: int| 0 <= k < i ==> out@[k]@ == v@[k]@,
        decreases v@.len() - i,
    {
        out.push(v[i].clone());
        i += 1;
    }
    assert(texts(out@) =~= texts(v@));
    out
}

/// Append a text.
pub fn push_text(out: &mut String, s: &str)
    ensures
        final(out)@ == old(out)@ + s@,
{
    out.append(s);
}

/// The first `n` characters of a text.
pub fn text_prefix(s: &str, n: usize) -> (r: String)
    requires
        n <= s@.len(),
    ensures
        r@ == s@.take(n as int),
{
    let chars = chars_of(s);
    let mut out = String::new();
    let mut i: usize = 0;
    while i < n
        invariant
            chars@ == s@,
            i <= n <= s@.len(),
            out@ == s@.take(i as int),
        decreases n - i,
    {
        out.push(chars[i]);
        i += 1;
        assert(out@ =~= s@.take(i as int));
    }
    out
}

/// The text of an optional string.
pub open spec fn optional_text(s: Option<String>) -> Option<Seq<char>> {
    match s {
        Some(t) => Some(t@),
        None => None,
    }
}

/// The author of a comment: who authors commits, or else the user, or else
/// nobody in particular.
pub open spec fn author_text(git_author: Option<Seq<char>>, user: Option<Seq<char>>) -> Seq<char> {
    match git_author {
        Some(a) => a,
        None => match user {
            Some(u) => u,
            None => "local"@,
        },
    }
}

pub fn default_author(git_author: Option<String>, user: Option<String>) -> (r: String)
    ensures
        r@ == author_text(optional_text(git_author), optional_text(user)),
{
    match git_author {
        Some(a) => a,
        None => match user {
            Some(u) => u,
            None => "local".to_string(),
        },
    }
}

} // verus!

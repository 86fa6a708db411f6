//! Percent-encoding for route segments carrying Han characters.
//!
//! `/character/好` is the URL worth sharing, but a browser normalises it to
//! `/character/%E5%A5%BD` in the address bar and on reload. Links are built
//! encoded so both spellings round-trip, and [`decode_char`] accepts either.

use vstd::prelude::*;
use vstd::string::StringSliceAdditionalSpecFns;
use vstd::utf8::{decode_utf8, encode_utf8, valid_utf8};

use crate::chars::push_char;

verus! {

/// The bytes a path segment must not carry verbatim, besides every non-ASCII
/// byte: the C0 controls and DEL, space, `"`, `#`, `%`, `<`, `>`, `?`, `` ` ``,
/// `/`, `{` and `}`.
pub open spec fn in_segment_set(b: u8) -> bool {
    ||| b <= 0x1f
    ||| b == 0x7f
    ||| b == 0x20
    ||| b == 0x22
    ||| b == 0x23
    ||| b == 0x25
    ||| b == 0x3c
    ||| b == 0x3e
    ||| b == 0x3f
    ||| b == 0x60
    ||| b == 0x2f
    ||| b == 0x7b
    ||| b == 0x7d
}

/// Whether `b` is written as `%XX` in a segment.
pub open spec fn must_escape(b: u8) -> bool {
    b >= 0x80 || in_segment_set(b)
}

/// The upper-case hexadecimal digit for `d`, which is below sixteen.
pub open spec fn upper_hex(d: nat) -> char {
    if d < 10 {
        (d + 48) as char
    } else {
        (d + 55) as char
    }
}

/// `%` and the byte's two upper-case hexadecimal digits.
pub open spec fn escape(b: u8) -> Seq<char> {
    seq!['%', upper_hex(b as nat / 16), upper_hex(b as nat % 16)]
}

pub open spec fn piece(b: u8) -> Seq<char> {
    if must_escape(b) {
        escape(b)
    } else {
        seq![b as char]
    }
}

/// The percent-encoding of `bytes`: each byte that must be escaped as `%XX`,
/// every other byte as the ASCII character it is.
pub open spec fn encoded(bytes: Seq<u8>) -> Seq<char>
    decreases bytes.len(),
{
    if bytes.len() == 0 {
        Seq::empty()
    } else {
        encoded(bytes.drop_last()) + piece(bytes.last())
    }
}

/// The value of an ASCII hexadecimal digit, either case.
pub open spec fn hex_value(b: u8) -> Option<nat> {
    if 0x30 <= b <= 0x39 {
        Some((b - 0x30) as nat)
    } else if 0x61 <= b <= 0x66 {
        Some((b - 0x57) as nat)
    } else if 0x41 <= b <= 0x46 {
        Some((b - 0x37) as nat)
    } else {
        None
    }
}

/// `bytes` with every `%` that is followed by two hexadecimal digits, and the
/// digits, replaced by the byte they spell; everything else is kept.
pub open spec fn percent_decoded(bytes: Seq<u8>) -> Seq<u8>
    decreases bytes.len(),
{
    if bytes.len() == 0 {
        Seq::empty()
    } else if bytes[0] == 0x25 && bytes.len() >= 3 && hex_value(bytes[1]) is Some && hex_value(
        bytes[2],
    ) is Some {
        seq![(hex_value(bytes[1])->0 * 16 + hex_value(bytes[2])->0) as u8] + percent_decoded(
            bytes.subrange(3, bytes.len() as int),
        )
    } else {
        seq![bytes[0]] + percent_decoded(bytes.subrange(1, bytes.len() as int))
    }
}

/// What [`decode`] makes of a segment: its percent-decoding when that is valid
/// UTF-8, the segment itself otherwise.
pub open spec fn decode_spec(text: Seq<char>) -> Seq<char> {
    let bytes = percent_decoded(encode_utf8(text));
    if valid_utf8(bytes) {
        decode_utf8(bytes)
    } else {
        text
    }
}

/// `%` and two upper-case hexadecimal digits for one byte.
///
/// Trusted: calls `percent_encoding::percent_encode_byte`, which reads the three
/// characters out of a fixed table holding `%00` to `%FF` in upper case.
#[verifier::external_body]
fn escape_byte(b: u8) -> (r: &'static str)
    ensures
        r@ == escape(b),
{
    percent_encoding::percent_encode_byte(b)
}

/// The segment's percent-decoding as a string, when the decoded bytes are valid
/// UTF-8.
///
/// Trusted: calls `percent_encoding::percent_decode_str(text).decode_utf8()`.
/// The crate's source decodes `%` followed by two hexadecimal digits (either
/// case) to the byte they spell and keeps every other byte; `decode_utf8` then
/// fails exactly when the result is not well-formed UTF-8, as `std::str::from_utf8`
/// documents.
#[verifier::external_body]
fn percent_decode_utf8(text: &str) -> (r: Option<String>)
    ensures
        match r {
            Some(s) => valid_utf8(percent_decoded(text.spec_bytes())) && s@ == decode_utf8(
                percent_decoded(text.spec_bytes()),
            ),
            None => !valid_utf8(percent_decoded(text.spec_bytes())),
        },
{
    match percent_encoding::percent_decode_str(text).decode_utf8() {
        Ok(s) => Some(s.into_owned()),
        Err(_) => None,
    }
}

/// Encode a string for use as one path segment.
pub fn encode(text: &str) -> (r: String)
    ensures
        r@ == encoded(encode_utf8(text@)),
{
    let bytes = text.as_bytes();
    let mut out = String::new();
    let mut i: usize = 0;
    assert(bytes@.subrange(0, 0) =~= Seq::<u8>::empty());
    while i < bytes.len()
        invariant
            i <= bytes.len(),
            bytes@ == encode_utf8(text@),
            out@ == encoded(bytes@.subrange(0, i as int)),
        decreases bytes.len() - i,
    {
        let b = bytes[i];
        proof {
            assert(bytes@.subrange(0, i + 1).drop_last() =~= bytes@.subrange(0, i as int));
        }
        if b >= 0x80 || b <= 0x1f || b == 0x7f || b == 0x20 || b == 0x22 || b == 0x23 || b == 0x25
            || b == 0x3c || b == 0x3e || b == 0x3f || b == 0x60 || b == 0x2f || b == 0x7b || b
            == 0x7d {
            out.append(escape_byte(b));
        } else {
            push_char(&mut out, b as char);
        }
        i = i + 1;
    }
    assert(bytes@.subrange(0, bytes.len() as int) =~= bytes@);
    out
}

/// Decode a path segment, or hand it back unchanged when its decoding is not
/// valid UTF-8.
pub fn decode(text: &str) -> (r: String)
    ensures
        r@ == decode_spec(text@),
{
    match percent_decode_utf8(text) {
        Some(s) => s,
        None => String::from_str(text),
    }
}

/// Read a character out of a route segment, whether or not it arrived encoded:
/// the first character of its decoding.
pub fn decode_char(segment: &str) -> (r: Option<char>)
    ensures
        decode_spec(segment@).len() == 0 ==> r is None,
        decode_spec(segment@).len() > 0 ==> r == Some(decode_spec(segment@)[0]),
{
    let text = decode(segment);
    if text.as_str().is_empty() {
        None
    } else {
        Some(text.as_str().get_char(0))
    }
}

// ── Laws ────────────────────────────────────────────────────────────────────

/// The byte of the upper-case hexadecimal digit for `d`.
pub open spec fn upper_hex_byte(d: nat) -> u8 {
    if d < 10 {
        (d + 48) as u8
    } else {
        (d + 55) as u8
    }
}

pub open spec fn piece_bytes(b: u8) -> Seq<u8> {
    if must_escape(b) {
        seq![0x25u8, upper_hex_byte(b as nat / 16), upper_hex_byte(b as nat % 16)]
    } else {
        seq![b]
    }
}

/// The bytes of [`encoded`], which is all ASCII.
pub open spec fn encoded_bytes(bytes: Seq<u8>) -> Seq<u8>
    decreases bytes.len(),
{
    if bytes.len() == 0 {
        Seq::empty()
    } else {
        encoded_bytes(bytes.drop_last()) + piece_bytes(bytes.last())
    }
}

proof fn lemma_encode_utf8_append(a: Seq<char>, b: Seq<char>)
    ensures
        encode_utf8(a + b) == encode_utf8(a) + encode_utf8(b),
    decreases a.len(),
{
    if a.len() == 0 {
        assert(a + b =~= b);
    } else {
        assert((a + b).drop_first() =~= a.drop_first() + b);
        lemma_encode_utf8_append(a.drop_first(), b);
        assert((a + b)[0] == a[0]);
    }
}

proof fn lemma_piece_bytes(b: u8)
    ensures
        encode_utf8(piece(b)) == piece_bytes(b),
{
    let p = piece(b);
    assert(vstd::utf8::is_ascii_chars(p));
    vstd::utf8::is_ascii_chars_encode_utf8(p);
    if must_escape(b) {
        assert(encode_utf8(p)[0] == p[0] as u8);
        assert(encode_utf8(p)[1] == p[1] as u8);
        assert(encode_utf8(p)[2] == p[2] as u8);
    } else {
        assert(encode_utf8(p)[0] == p[0] as u8);
    }
    assert(encode_utf8(p) =~= piece_bytes(b));
}

proof fn lemma_encoded_bytes(bytes: Seq<u8>)
    ensures
        encode_utf8(encoded(bytes)) == encoded_bytes(bytes),
    decreases bytes.len(),
{
    if bytes.len() > 0 {
        lemma_encoded_bytes(bytes.drop_last());
        lemma_encode_utf8_append(encoded(bytes.drop_last()), piece(bytes.last()));
        lemma_piece_bytes(bytes.last());
    } else {
        assert(encoded(bytes) =~= Seq::<char>::empty());
    }
}

proof fn lemma_encoded_bytes_append(a: Seq<u8>, b: Seq<u8>)
    ensures
        encoded_bytes(a + b) == encoded_bytes(a) + encoded_bytes(b),
    decreases b.len(),
{
    if b.len() == 0 {
        assert(a + b =~= a);
        assert(encoded_bytes(a) + encoded_bytes(b) =~= encoded_bytes(a));
    } else {
        assert((a + b).drop_last() =~= a + b.drop_last());
        lemma_encoded_bytes_append(a, b.drop_last());
        assert(encoded_bytes(a) + encoded_bytes(b) =~= encoded_bytes(a) + encoded_bytes(
            b.drop_last(),
        ) + piece_bytes(b.last()));
    }
}

proof fn lemma_hex_value(d: nat)
    requires
        d < 16,
    ensures
        hex_value(upper_hex_byte(d)) == Some(d),
{
}

/// Percent-decoding undoes percent-encoding, byte for byte.
proof fn lemma_decode_encoded_bytes(bytes: Seq<u8>)
    ensures
        percent_decoded(encoded_bytes(bytes)) == bytes,
    decreases bytes.len(),
{
    if bytes.len() > 0 {
        let b = bytes[0];
        let rest = bytes.drop_first();
        assert(bytes =~= seq![b] + rest);
        lemma_encoded_bytes_append(seq![b], rest);
        assert(seq![b].drop_last() =~= Seq::<u8>::empty());
        assert(encoded_bytes(Seq::<u8>::empty()) =~= Seq::<u8>::empty());
        assert(encoded_bytes(seq![b]) == encoded_bytes(seq![b].drop_last()) + piece_bytes(b));
        assert(encoded_bytes(seq![b]) =~= piece_bytes(b));
        let x = encoded_bytes(bytes);
        lemma_decode_encoded_bytes(rest);
        if must_escape(b) {
            lemma_hex_value(b as nat / 16);
            lemma_hex_value(b as nat % 16);
            assert(x.subrange(3, x.len() as int) =~= encoded_bytes(rest));
            assert(((b as nat / 16) * 16 + b as nat % 16) as u8 == b);
        } else {
            assert(x.subrange(1, x.len() as int) =~= encoded_bytes(rest));
        }
        assert(percent_decoded(x) =~= seq![b] + rest);
    } else {
        assert(encoded_bytes(bytes) =~= Seq::<u8>::empty());
    }
}

/// A link built with [`encode`] reads back as the text it was built from: the
/// encoded segment decodes to the original, whatever it held.
pub proof fn lemma_decode_encode(text: Seq<char>)
    ensures
        decode_spec(encoded(encode_utf8(text))) == text,
{
    broadcast use vstd::utf8::group_utf8_lib;

    let bytes = encode_utf8(text);
    lemma_encoded_bytes(bytes);
    lemma_decode_encoded_bytes(bytes);
}

/// No byte of a character's UTF-8 encoding is `%` unless the character is.
proof fn lemma_no_percent_byte(c: char)
    requires
        c != '%',
    ensures
        forall|i: int|
            0 <= i < encode_utf8(seq![c]).len() ==> #[trigger] encode_utf8(seq![c])[i] != 0x25,
{
    let x = c as u32;
    assert(seq![c].drop_first() =~= Seq::<char>::empty());
    assert(encode_utf8(Seq::<char>::empty()) =~= Seq::<u8>::empty());
    assert(encode_utf8(seq![c]) == vstd::utf8::encode_scalar(x) + encode_utf8(seq![c].drop_first()));
    assert(encode_utf8(seq![c]) =~= vstd::utf8::encode_scalar(x));
    assert(x != 0x25) by {
        vstd::utf8::char_u32_cast(c, x);
    }
    if x < 0x80 {
        assert(((x & 0x7F) as u8) != 0x25u8) by (bit_vector)
            requires
                x != 0x25,
                x < 0x80,
        ;
    }
    assert((0xC0u8 | ((x >> 6) & 0x1F) as u8) != 0x25u8) by (bit_vector);
    assert((0xE0u8 | ((x >> 12) & 0x0F) as u8) != 0x25u8) by (bit_vector);
    assert((0xF0u8 | ((x >> 18) & 0x7) as u8) != 0x25u8) by (bit_vector);
    assert((0x80u8 | (x & 0x3F) as u8) != 0x25u8) by (bit_vector);
    assert((0x80u8 | ((x >> 6) & 0x3F) as u8) != 0x25u8) by (bit_vector);
    assert((0x80u8 | ((x >> 12) & 0x3F) as u8) != 0x25u8) by (bit_vector);
}

proof fn lemma_no_percent_bytes(text: Seq<char>)
    requires
        forall|i: int| 0 <= i < text.len() ==> text[i] != '%',
    ensures
        forall|i: int| 0 <= i < encode_utf8(text).len() ==> #[trigger] encode_utf8(text)[i] != 0x25,
    decreases text.len(),
{
    if text.len() > 0 {
        let rest = text.drop_first();
        lemma_no_percent_bytes(rest);
        lemma_no_percent_byte(text[0]);
        assert(text =~= seq![text[0]] + rest);
        lemma_encode_utf8_append(seq![text[0]], rest);
        let a = encode_utf8(seq![text[0]]);
        let whole = encode_utf8(text);
        assert forall|i: int| 0 <= i < whole.len() implies #[trigger] whole[i] != 0x25 by {
            if i < a.len() {
                assert(whole[i] == a[i]);
            } else {
                assert(whole[i] == encode_utf8(rest)[i - a.len()]);
            }
        }
    }
}

proof fn lemma_decode_plain_bytes(bytes: Seq<u8>)
    requires
        forall|i: int| 0 <= i < bytes.len() ==> bytes[i] != 0x25,
    ensures
        percent_decoded(bytes) == bytes,
    decreases bytes.len(),
{
    if bytes.len() > 0 {
        let rest = bytes.subrange(1, bytes.len() as int);
        lemma_decode_plain_bytes(rest);
        assert(bytes =~= seq![bytes[0]] + rest);
    }
}

/// A segment that arrived unencoded reads as itself, so long as it holds no `%`:
/// `/character/好` decodes to `好` just as `/character/%E5%A5%BD` does.
pub proof fn lemma_decode_plain(text: Seq<char>)
    requires
        forall|i: int| 0 <= i < text.len() ==> text[i] != '%',
    ensures
        decode_spec(text) == text,
{
    broadcast use vstd::utf8::group_utf8_lib;

    lemma_no_percent_bytes(text);
    lemma_decode_plain_bytes(encode_utf8(text));
}

proof fn lemma_encoded_plain_bytes(bytes: Seq<u8>)
    requires
        forall|i: int| 0 <= i < bytes.len() ==> !must_escape(#[trigger] bytes[i]),
    ensures
        encoded(bytes).len() == bytes.len(),
        forall|i: int| 0 <= i < bytes.len() ==> #[trigger] encoded(bytes)[i] == bytes[i] as char,
    decreases bytes.len(),
{
    if bytes.len() > 0 {
        let rest = bytes.drop_last();
        assert forall|i: int| 0 <= i < rest.len() implies !must_escape(#[trigger] rest[i]) by {
            assert(rest[i] == bytes[i]);
        }
        lemma_encoded_plain_bytes(rest);
        assert(!must_escape(bytes[bytes.len() - 1]));
        let e = encoded(bytes);
        assert(e == encoded(rest) + seq![bytes.last() as char]);
        assert forall|i: int| 0 <= i < bytes.len() implies #[trigger] e[i] == bytes[i] as char by {
            if i < rest.len() {
                assert(e[i] == encoded(rest)[i]);
                assert(rest[i] == bytes[i]);
            }
        }
    }
}

/// Plain ASCII that a path segment may carry as it is (no space, `%`, `/`, `?`,
/// `#`, quote, angle bracket, brace, backtick or control character) is left
/// exactly as it was: only what must be escaped is.
pub proof fn lemma_encode_plain(text: Seq<char>)
    requires
        vstd::utf8::is_ascii_chars(text),
        forall|i: int| 0 <= i < text.len() ==> !in_segment_set(#[trigger] text[i] as u8),
    ensures
        encoded(encode_utf8(text)) == text,
{
    vstd::utf8::is_ascii_chars_encode_utf8(text);
    vstd::utf8::is_ascii_chars_nat_bound(text);
    let bytes = encode_utf8(text);
    assert forall|i: int| 0 <= i < bytes.len() implies !must_escape(#[trigger] bytes[i]) by {
        assert(bytes[i] == text[i] as u8);
        assert((text[i] as nat) < 128);
        assert(!in_segment_set(text[i] as u8));
    }
    lemma_encoded_plain_bytes(bytes);
    assert forall|i: int| 0 <= i < text.len() implies encoded(bytes)[i] == text[i] by {
        assert(bytes[i] == text[i] as u8);
        assert((text[i] as nat) < 128);
    }
    assert(encoded(bytes) =~= text);
}

} // verus!

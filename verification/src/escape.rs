//! Percent-escaping of paths, and its inverse.
//!
//! A path is escaped byte by byte over its UTF-8 form: the unreserved
//! characters of a URL and the separator `/` stay, every other byte becomes
//! `%` and two upper-case hexadecimal digits. What comes out is ASCII, and
//! unescaping it gives the path back.

use vstd::prelude::*;
use vstd::utf8::*;
use percent_encoding::percent_decode;
use percent_encoding::percent_encode_byte;
use crate::text::push_char;

verus! {

/// The unreserved characters of a URL: ASCII letters, digits, `-`, `.`, `_`, `~`.
pub open spec fn is_unreserved(b: u8) -> bool {
    ||| 0x41 <= b <= 0x5a
    ||| 0x61 <= b <= 0x7a
    ||| 0x30 <= b <= 0x39
    ||| b == 0x2d
    ||| b == 0x2e
    ||| b == 0x5f
    ||| b == 0x7e
}

/// The bytes of a path that are written as they are: the unreserved
/// characters, and `/` between two segments.
pub open spec fn is_plain(b: u8) -> bool {
    is_unreserved(b) || b == 0x2f
}

/// The upper-case hexadecimal digit for `d`, as a byte.
pub open spec fn hex_digit(d: int) -> u8
    recommends
        0 <= d < 16,
{
    if d < 10 {
        (0x30 + d) as u8
    } else {
        (0x41 + d - 10) as u8
    }
}

/// `%` and the two hexadecimal digits of `b`.
pub open spec fn escape_of_byte(b: u8) -> Seq<u8> {
    seq![0x25u8, hex_digit(b as int / 16), hex_digit(b as int % 16)]
}

/// What one byte of a path becomes.
pub open spec fn escaped_byte(b: u8) -> Seq<u8> {
    if is_plain(b) {
        seq![b]
    } else {
        escape_of_byte(b)
    }
}

/// The escaped form of `bytes`: each byte's form, one after the other.
pub open spec fn escaped_bytes(bytes: Seq<u8>) -> Seq<u8>
    decreases bytes.len(),
{
    if bytes.len() == 0 {
        Seq::empty()
    } else {
        escaped_byte(bytes[0]) + escaped_bytes(bytes.drop_first())
    }
}

/// Whether `b` is a hexadecimal digit, of either case.
pub open spec fn is_hex_digit(b: u8) -> bool {
    ||| 0x30 <= b <= 0x39
    ||| 0x41 <= b <= 0x46
    ||| 0x61 <= b <= 0x66
}

/// The number that the hexadecimal digit `b` stands for.
pub open spec fn hex_value(b: u8) -> int
    recommends
        is_hex_digit(b),
{
    if b <= 0x39 {
        b - 0x30
    } else if b <= 0x46 {
        b - 0x41 + 10
    } else {
        b - 0x61 + 10
    }
}

/// Whether `raw` begins with `%` and two hexadecimal digits.
pub open spec fn begins_with_escape(raw: Seq<u8>) -> bool {
    &&& raw.len() >= 3
    &&& raw[0] == 0x25
    &&& is_hex_digit(raw[1])
    &&& is_hex_digit(raw[2])
}

/// `raw` with every `%` that two hexadecimal digits follow replaced, together
/// with them, by the byte that the digits write. Any other byte stays, a `%`
/// that no two digits follow included.
pub open spec fn unescaped_bytes(raw: Seq<u8>) -> Seq<u8>
    decreases raw.len(),
{
    if raw.len() == 0 {
        Seq::empty()
    } else if begins_with_escape(raw) {
        seq![(hex_value(raw[1]) * 16 + hex_value(raw[2])) as u8] + unescaped_bytes(raw.skip(3))
    } else {
        seq![raw[0]] + unescaped_bytes(raw.skip(1))
    }
}

/// Whether every byte of `bytes` is below 128.
pub open spec fn all_ascii(bytes: Seq<u8>) -> bool {
    forall|i: int| 0 <= i < bytes.len() ==> #[trigger] bytes[i] < 128
}

/// ASCII bytes read as characters, one for one.
pub open spec fn ascii_text(bytes: Seq<u8>) -> Seq<char> {
    Seq::new(bytes.len(), |i: int| bytes[i] as char)
}

/// The escaped form of the path `text`.
pub open spec fn escaped(text: Seq<char>) -> Seq<char> {
    ascii_text(escaped_bytes(encode_utf8(text)))
}

/// What `raw` unescapes to: the text that its unescaped bytes encode, where
/// they are well-formed UTF-8.
pub open spec fn unescaped(raw: Seq<char>) -> Option<Seq<char>> {
    let bytes = unescaped_bytes(encode_utf8(raw));
    if valid_utf8(bytes) {
        Some(decode_utf8(bytes))
    } else {
        None
    }
}

/// The escaped form of a longer text is the escaped form of its front, then
/// that of its last byte.
pub proof fn lemma_escaped_bytes_push(bytes: Seq<u8>, b: u8)
    ensures
        escaped_bytes(bytes.push(b)) == escaped_bytes(bytes) + escaped_byte(b),
    decreases bytes.len(),
{
    if bytes.len() == 0 {
        let one = bytes.push(b);
        assert(one.drop_first() =~= Seq::<u8>::empty());
        assert(escaped_bytes(one.drop_first()) =~= Seq::<u8>::empty());
        assert(one[0] == b);
        assert(escaped_bytes(one) =~= escaped_byte(b));
        assert(escaped_bytes(bytes) + escaped_byte(b) =~= escaped_byte(b));
    } else {
        assert(bytes.push(b).drop_first() =~= bytes.drop_first().push(b));
        lemma_escaped_bytes_push(bytes.drop_first(), b);
        assert(escaped_byte(bytes[0]) + (escaped_bytes(bytes.drop_first()) + escaped_byte(b))
            =~= (escaped_byte(bytes[0]) + escaped_bytes(bytes.drop_first())) + escaped_byte(b));
    }
}

/// An escaped byte is ASCII and unescapes to itself.
pub proof fn lemma_escaped_byte(b: u8, rest: Seq<u8>)
    ensures
        all_ascii(escaped_byte(b)),
        unescaped_bytes(escaped_byte(b) + rest) == seq![b] + unescaped_bytes(rest),
{
    let whole = escaped_byte(b) + rest;
    if is_plain(b) {
        assert(whole[0] == b);
        assert(!begins_with_escape(whole));
        assert(whole.skip(1) =~= rest);
    } else {
        let hi = b as int / 16;
        let lo = b as int % 16;
        assert(0 <= hi < 16 && 0 <= lo < 16);
        assert(whole[0] == 0x25 && whole[1] == hex_digit(hi) && whole[2] == hex_digit(lo));
        assert(is_hex_digit(hex_digit(hi)) && hex_value(hex_digit(hi)) == hi);
        assert(is_hex_digit(hex_digit(lo)) && hex_value(hex_digit(lo)) == lo);
        assert(begins_with_escape(whole));
        assert(whole.skip(3) =~= rest);
        assert(hi * 16 + lo == b);
    }
}

/// Escaped bytes are ASCII, and unescaping them gives the bytes back.
pub proof fn lemma_unescape_escaped_bytes(bytes: Seq<u8>)
    ensures
        all_ascii(escaped_bytes(bytes)),
        unescaped_bytes(escaped_bytes(bytes)) == bytes,
    decreases bytes.len(),
{
    if bytes.len() > 0 {
        let rest = escaped_bytes(bytes.drop_first());
        lemma_unescape_escaped_bytes(bytes.drop_first());
        lemma_escaped_byte(bytes[0], rest);
        assert(seq![bytes[0]] + bytes.drop_first() =~= bytes);
        assert forall|i: int| 0 <= i < escaped_bytes(bytes).len() implies #[trigger] escaped_bytes(
            bytes,
        )[i] < 128 by {
            let head = escaped_byte(bytes[0]);
            if i < head.len() {
                assert(escaped_bytes(bytes)[i] == head[i]);
            } else {
                assert(escaped_bytes(bytes)[i] == rest[i - head.len()]);
            }
        }
    }
}

/// ASCII bytes are the UTF-8 form of the text that they read as.
pub proof fn lemma_ascii_text_bytes(bytes: Seq<u8>)
    requires
        all_ascii(bytes),
    ensures
        is_ascii_chars(ascii_text(bytes)),
        encode_utf8(ascii_text(bytes)) == bytes,
{
    let text = ascii_text(bytes);
    assert forall|i: int| 0 <= i < text.len() implies '\0' <= #[trigger] text[i] <= '\u{7f}' by {
        assert(bytes[i] < 128);
    }
    is_ascii_chars_encode_utf8(text);
    assert forall|i: int| 0 <= i < bytes.len() implies encode_utf8(text)[i] == bytes[i] by {
        assert(text[i] as u8 == encode_utf8(text)[i]);
        assert(bytes[i] < 128);
    }
    assert(encode_utf8(text) =~= bytes);
}

/// Unescaping the escaped form of a path gives the path back, whatever the
/// path holds.
pub proof fn lemma_unescape_escaped(text: Seq<char>)
    ensures
        unescaped(escaped(text)) == Some(text),
{
    let bytes = encode_utf8(text);
    lemma_unescape_escaped_bytes(bytes);
    lemma_ascii_text_bytes(escaped_bytes(bytes));
    encode_utf8_valid_utf8(text);
    encode_utf8_decode_utf8(text);
}

/// Whether the byte can stand in a link without ending it: an unreserved
/// character, `/` or `%`. No space, quote or angle bracket is among them.
pub open spec fn is_link_byte(b: u8) -> bool {
    is_plain(b) || b == 0x25
}

/// Escaped bytes can stand in a link: each is an unreserved character, `/`
/// or `%`.
pub proof fn lemma_escaped_bytes_fit_a_link(bytes: Seq<u8>)
    ensures
        forall|i: int|
            0 <= i < escaped_bytes(bytes).len() ==> is_link_byte(#[trigger] escaped_bytes(bytes)[i]),
    decreases bytes.len(),
{
    if bytes.len() > 0 {
        let head = escaped_byte(bytes[0]);
        let rest = escaped_bytes(bytes.drop_first());
        lemma_escaped_bytes_fit_a_link(bytes.drop_first());
        let hi = bytes[0] as int / 16;
        let lo = bytes[0] as int % 16;
        assert(is_unreserved(hex_digit(hi)) && is_unreserved(hex_digit(lo)));
        assert forall|i: int| 0 <= i < escaped_bytes(bytes).len() implies is_link_byte(
            #[trigger] escaped_bytes(bytes)[i],
        ) by {
            if i < head.len() {
                assert(escaped_bytes(bytes)[i] == head[i]);
            } else {
                assert(escaped_bytes(bytes)[i] == rest[i - head.len()]);
            }
        }
    }
}

/// Whether the character is one of the bytes that can stand in a link.
pub open spec fn is_link_char(c: char) -> bool {
    (c as u32) < 128 && is_link_byte(c as u8)
}

/// An escaped path can stand in a link, whatever the path holds: each of its
/// characters is an unreserved character, `/` or `%`.
pub proof fn lemma_escaped_fits_a_link(text: Seq<char>)
    ensures
        forall|i: int| 0 <= i < escaped(text).len() ==> is_link_char(#[trigger] escaped(text)[i]),
{
    let bytes = escaped_bytes(encode_utf8(text));
    lemma_escaped_bytes_fit_a_link(encode_utf8(text));
    assert forall|i: int| 0 <= i < escaped(text).len() implies is_link_char(
        #[trigger] escaped(text)[i],
    ) by {
        assert(is_link_byte(bytes[i]));
        assert(escaped(text)[i] == bytes[i] as char);
    }
}

/// Bytes without a `%` unescape to themselves.
pub proof fn lemma_unescape_without_percent(raw: Seq<u8>)
    requires
        forall|i: int| 0 <= i < raw.len() ==> raw[i] != 0x25,
    ensures
        unescaped_bytes(raw) == raw,
    decreases raw.len(),
{
    if raw.len() > 0 {
        assert(raw[0] != 0x25);
        let rest = raw.skip(1);
        assert forall|i: int| 0 <= i < rest.len() implies rest[i] != 0x25 by {
            assert(rest[i] == raw[i + 1]);
        }
        lemma_unescape_without_percent(rest);
        assert(seq![raw[0]] + rest =~= raw);
    }
}

/// ASCII text without a `%` unescapes to itself.
pub proof fn lemma_unescape_plain_text(text: Seq<char>)
    requires
        is_ascii_chars(text),
        !text.contains('%'),
    ensures
        unescaped(text) == Some(text),
{
    let bytes = encode_utf8(text);
    is_ascii_chars_encode_utf8(text);
    assert forall|i: int| 0 <= i < bytes.len() implies bytes[i] != 0x25 by {
        assert(text[i] as u8 == bytes[i]);
        assert(text.contains(text[i]));
    }
    lemma_unescape_without_percent(bytes);
    encode_utf8_valid_utf8(text);
    encode_utf8_decode_utf8(text);
}

/// `percent_encode_byte` of percent_encoding: `%` and the two upper-case
/// hexadecimal digits of the byte, as the crate's table lists them for each
/// of the 256 bytes.
pub assume_specification[ percent_encoding::percent_encode_byte ](byte: u8) -> (s: &'static str)
    ensures
        s@ == ascii_text(escape_of_byte(byte)),
;

/// `percent_decode(raw).decode_utf8()` of percent_encoding: the crate walks
/// `raw` and replaces each `%` that two hexadecimal digits follow, then reads
/// the bytes as UTF-8. `Some` with that text where they are well-formed,
/// `None` where they are not.
#[verifier::external_body]
pub(crate) fn percent_decode_utf8(raw: &[u8]) -> (out: Option<String>)
    ensures
        out is Some <==> valid_utf8(unescaped_bytes(raw@)),
        out is Some ==> out->0@ == decode_utf8(unescaped_bytes(raw@)),
{
    match percent_decode(raw).decode_utf8() {
        Ok(text) => Some(text.into_owned()),
        Err(_) => None,
    }
}

/// Whether the byte is written as it is.
fn plain(b: u8) -> (out: bool)
    ensures
        out == is_plain(b),
{
    (0x41 <= b && b <= 0x5a) || (0x61 <= b && b <= 0x7a) || (0x30 <= b && b <= 0x39) || b == 0x2d
        || b == 0x2e || b == 0x5f || b == 0x7e || b == 0x2f
}

/// The escaped form of the path `text`, fit to stand in a link.
pub fn escape(text: &str) -> (out: String)
    ensures
        out@ == escaped(text@),
{
    let bytes = text.as_bytes();
    let mut out = String::new();
    let mut i: usize = 0;
    while i < bytes.len()
        invariant
            i <= bytes@.len(),
            bytes@ == encode_utf8(text@),
            out@ == ascii_text(escaped_bytes(bytes@.take(i as int))),
        decreases bytes.len() - i,
    {
        let b: u8 = bytes[i];
        proof {
            let front = bytes@.take(i as int);
            assert(bytes@.take(i + 1) =~= front.push(b));
            lemma_escaped_bytes_push(front, b);
            assert(ascii_text(escaped_bytes(front) + escaped_byte(b)) =~= ascii_text(
                escaped_bytes(front),
            ) + ascii_text(escaped_byte(b)));
        }
        if plain(b) {
            proof {
                assert(ascii_text(escaped_byte(b)) =~= seq![b as char]);
                assert(out@.push(b as char) =~= out@ + seq![b as char]);
            }
            push_char(&mut out, b as char);
        } else {
            out.append(percent_encode_byte(b));
        }
        i += 1;
    }
    proof {
        assert(bytes@.take(i as int) =~= bytes@);
    }
    out
}

/// The text that `raw` unescapes to, or `None` where the unescaped bytes are
/// not well-formed UTF-8.
pub fn unescape(raw: &str) -> (out: Option<String>)
    ensures
        out is Some <==> unescaped(raw@) is Some,
        out is Some ==> out->0@ == unescaped(raw@)->0,
{
    percent_decode_utf8(raw.as_bytes())
}

} // verus!

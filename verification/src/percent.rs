//! Percent-encoding a container, a blob name or a prefix for a path, and
//! decoding a path back.
//!
//! Every byte of the UTF-8 text that is not unreserved (letters, digits,
//! `-`, `.`, `_`, `~`, and `/` where slashes are kept) is written `%XX` in
//! upper-case hex; decoding writes back every `%` followed by two hex
//! digits and leaves anything else as it is.
use vstd::prelude::*;
use vstd::utf8::{decode_utf8, encode_utf8, is_ascii_chars, valid_utf8};

use crate::text::{char_from_ascii, string_of, text_from_bytes, text_of};

verus! {

/// Whether byte `b` stands for itself in a path.
pub open spec fn unreserved(b: u8, keep_slash: bool) -> bool {
    ||| 0x41 <= b && b <= 0x5A
    ||| 0x61 <= b && b <= 0x7A
    ||| 0x30 <= b && b <= 0x39
    ||| b == 0x2D || b == 0x2E || b == 0x5F || b == 0x7E
    ||| keep_slash && b == 0x2F
}

/// The upper-case hex digit for `n` below 16, as a byte.
pub open spec fn hex_byte(n: int) -> u8 {
    if n < 10 {
        (48 + n) as u8
    } else {
        (55 + n) as u8
    }
}

/// What one byte becomes.
pub open spec fn encode_byte(b: u8, keep_slash: bool) -> Seq<u8> {
    if unreserved(b, keep_slash) {
        seq![b]
    } else {
        seq![0x25u8, hex_byte((b / 16) as int), hex_byte((b % 16) as int)]
    }
}

/// `bytes` percent-encoded, as bytes (all of them ASCII).
pub open spec fn percent_encoded(bytes: Seq<u8>, keep_slash: bool) -> Seq<u8>
    decreases bytes.len(),
{
    if bytes.len() == 0 {
        seq![]
    } else {
        encode_byte(bytes[0], keep_slash) + percent_encoded(bytes.drop_first(), keep_slash)
    }
}

/// The ASCII characters of ASCII bytes.
pub open spec fn ascii_text(bytes: Seq<u8>) -> Seq<char> {
    bytes.map_values(|b: u8| (b as u32) as char)
}

/// The value of a hex digit, either case.
pub open spec fn hex_value(b: u8) -> Option<u8> {
    if 0x30 <= b && b <= 0x39 {
        Some((b - 0x30) as u8)
    } else if 0x41 <= b && b <= 0x46 {
        Some((b - 0x37) as u8)
    } else if 0x61 <= b && b <= 0x66 {
        Some((b - 0x57) as u8)
    } else {
        None
    }
}

/// `bytes` with every `%` and two hex digits written back as the byte they
/// stand for.
pub open spec fn percent_decoded(bytes: Seq<u8>) -> Seq<u8>
    decreases bytes.len(),
{
    if bytes.len() == 0 {
        seq![]
    } else if bytes[0] == 0x25 && bytes.len() >= 3 && hex_value(bytes[1]) is Some && hex_value(
        bytes[2],
    ) is Some {
        seq![(hex_value(bytes[1]).unwrap() * 16 + hex_value(bytes[2]).unwrap()) as u8]
            + percent_decoded(bytes.skip(3))
    } else {
        seq![bytes[0]] + percent_decoded(bytes.drop_first())
    }
}

fn hex_byte_of(n: u8) -> (r: u8)
    requires
        n < 16,
    ensures
        r == hex_byte(n as int),
        r < 128,
{
    if n < 10 {
        48 + n
    } else {
        55 + n
    }
}

fn hex_value_of(b: u8) -> (r: Option<u8>)
    ensures
        r == hex_value(b),
        r matches Some(v) ==> v < 16,
{
    if 0x30 <= b && b <= 0x39 {
        Some(b - 0x30)
    } else if 0x41 <= b && b <= 0x46 {
        Some(b - 0x37)
    } else if 0x61 <= b && b <= 0x66 {
        Some(b - 0x57)
    } else {
        None
    }
}

/// `text` percent-encoded for a path, `/` kept as it is where `keep_slash`.
pub fn encode(text: &str, keep_slash: bool) -> (r: String)
    ensures
        r@ == ascii_text(percent_encoded(encode_utf8(text@), keep_slash)),
{
    let bytes = text.as_bytes();
    let ghost all = bytes@;
    let mut out: Vec<u8> = Vec::new();
    let mut i: usize = 0;
    assert(all.skip(0) =~= all);
    while i < bytes.len()
        invariant
            i <= bytes.len(),
            bytes@ == all,
            percent_encoded(all, keep_slash) == out@ + percent_encoded(all.skip(i as int), keep_slash),
            forall|k: int| 0 <= k < out@.len() ==> out@[k] < 128,
        decreases bytes.len() - i,
    {
        let b = bytes[i];
        let ghost rest = all.skip(i as int);
        assert(rest[0] == b);
        assert(rest.drop_first() =~= all.skip(i + 1));
        let ghost before = out@;
        if (0x41 <= b && b <= 0x5A) || (0x61 <= b && b <= 0x7A) || (0x30 <= b && b <= 0x39) || b
            == 0x2D || b == 0x2E || b == 0x5F || b == 0x7E || (keep_slash && b == 0x2F) {
            out.push(b);
            assert(out@ =~= before + encode_byte(b, keep_slash));
        } else {
            out.push(0x25);
            out.push(hex_byte_of(b / 16));
            out.push(hex_byte_of(b % 16));
            assert(out@ =~= before + encode_byte(b, keep_slash));
        }
        i = i + 1;
    }
    assert(all.skip(all.len() as int) =~= seq![]);
    assert(out@ + seq![] =~= out@);
    let mut chars: Vec<char> = Vec::new();
    let mut k: usize = 0;
    while k < out.len()
        invariant
            k <= out.len(),
            forall|m: int| 0 <= m < out@.len() ==> out@[m] < 128,
            chars@ == ascii_text(out@.take(k as int)),
        decreases out.len() - k,
    {
        let c = char_from_ascii(out[k]);
        chars.push(c);
        assert(ascii_text(out@.take(k + 1)) =~= ascii_text(out@.take(k as int)).push(c));
        k = k + 1;
    }
    assert(out@.take(out.len() as int) =~= out@);
    string_of(&chars)
}

/// The bytes `text` percent-decodes to.
fn decoded_bytes(text: &str) -> (r: Vec<u8>)
    ensures
        r@ == percent_decoded(encode_utf8(text@)),
{
    let bytes = text.as_bytes();
    let ghost all = bytes@;
    let mut out: Vec<u8> = Vec::new();
    let mut i: usize = 0;
    assert(all.skip(0) =~= all);
    while i < bytes.len()
        invariant
            i <= bytes.len(),
            bytes@ == all,
            percent_decoded(all) == out@ + percent_decoded(all.skip(i as int)),
        decreases bytes.len() - i,
    {
        let ghost rest = all.skip(i as int);
        let ghost before = out@;
        let b = bytes[i];
        assert(rest[0] == b);
        let mut done = false;
        if b == 0x25 && bytes.len() - i >= 3 {
            let hi = hex_value_of(bytes[i + 1]);
            let lo = hex_value_of(bytes[i + 2]);
            assert(rest[1] == all[i + 1]);
            assert(rest[2] == all[i + 2]);
            match (hi, lo) {
                (Some(h), Some(l)) => {
                    out.push(h * 16 + l);
                    assert(rest.skip(3) =~= all.skip(i + 3));
                    assert(out@ =~= before + seq![(h * 16 + l) as u8]);
                    i = i + 3;
                    done = true;
                },
                _ => {},
            }
        }
        if !done {
            out.push(b);
            assert(rest.drop_first() =~= all.skip(i + 1));
            assert(out@ =~= before + seq![b]);
            i = i + 1;
        }
    }
    assert(all.skip(all.len() as int) =~= seq![]);
    assert(out@ + seq![] =~= out@);
    out
}

/// `text` percent-decoded, the bytes read as UTF-8 with anything
/// ill-formed replaced.
pub fn decode(text: &str) -> (r: String)
    ensures
        r@ == text_of(percent_decoded(encode_utf8(text@))),
{
    let bytes = decoded_bytes(text);
    text_from_bytes(bytes.as_slice())
}

// ---------------------------------------------------------------------------
// Decoding undoes encoding
// ---------------------------------------------------------------------------

proof fn lemma_hex_round_trip(n: int)
    requires
        0 <= n < 16,
    ensures
        hex_value(hex_byte(n)) == Some(n as u8),
{
}

/// Decoding the bytes of one encoded byte followed by anything gives the
/// byte back followed by the decoding of the rest.
proof fn lemma_decode_encoded_byte(b: u8, keep_slash: bool, rest: Seq<u8>)
    ensures
        percent_decoded(encode_byte(b, keep_slash) + rest) == seq![b] + percent_decoded(rest),
{
    let e = encode_byte(b, keep_slash);
    if unreserved(b, keep_slash) {
        assert((e + rest).drop_first() =~= rest);
    } else {
        lemma_hex_round_trip((b / 16) as int);
        lemma_hex_round_trip((b % 16) as int);
        assert((e + rest)[0] == 0x25u8);
        assert((e + rest)[1] == hex_byte((b / 16) as int));
        assert((e + rest)[2] == hex_byte((b % 16) as int));
        assert((e + rest).skip(3) =~= rest);
        assert((b / 16) * 16 + b % 16 == b);
    }
}

/// Every byte of an encoding is ASCII.
pub proof fn lemma_encoded_is_ascii(bytes: Seq<u8>, keep_slash: bool)
    ensures
        forall|k: int|
            0 <= k < percent_encoded(bytes, keep_slash).len() ==> #[trigger] percent_encoded(
                bytes,
                keep_slash,
            )[k] < 128,
    decreases bytes.len(),
{
    if bytes.len() > 0 {
        lemma_encoded_is_ascii(bytes.drop_first(), keep_slash);
        let e = encode_byte(bytes[0], keep_slash);
        let r = percent_encoded(bytes.drop_first(), keep_slash);
        assert forall|k: int| 0 <= k < (e + r).len() implies #[trigger] (e + r)[k] < 128 by {
            if k >= e.len() {
                assert((e + r)[k] == r[k - e.len()]);
            }
        }
    }
}

/// Decoding the bytes of an encoding gives back what was encoded.
proof fn lemma_decode_encoded(bytes: Seq<u8>, keep_slash: bool)
    ensures
        percent_decoded(percent_encoded(bytes, keep_slash)) == bytes,
    decreases bytes.len(),
{
    if bytes.len() > 0 {
        lemma_decode_encoded(bytes.drop_first(), keep_slash);
        lemma_decode_encoded_byte(bytes[0], keep_slash, percent_encoded(bytes.drop_first(), keep_slash));
        assert(seq![bytes[0]] + bytes.drop_first() =~= bytes);
    }
}

/// The UTF-8 bytes of ASCII text are its characters' codes.
pub proof fn lemma_ascii_text_bytes(bytes: Seq<u8>)
    requires
        forall|k: int| 0 <= k < bytes.len() ==> #[trigger] bytes[k] < 128,
    ensures
        encode_utf8(ascii_text(bytes)) == bytes,
{
    let chars = ascii_text(bytes);
    assert(is_ascii_chars(chars));
    vstd::utf8::is_ascii_chars_encode_utf8(chars);
    assert(encode_utf8(chars) =~= bytes);
}

/// Decoding a path undoes encoding it: what `encode` makes of any text,
/// `decode` reads back as bytes that are that text's UTF-8, so well-formed,
/// and so decoded back to that very text.
pub proof fn law_decode_undoes_encode(text: Seq<char>, keep_slash: bool)
    ensures
        percent_decoded(encode_utf8(ascii_text(percent_encoded(encode_utf8(text), keep_slash))))
            == encode_utf8(text),
        valid_utf8(percent_decoded(encode_utf8(ascii_text(percent_encoded(encode_utf8(text), keep_slash))))),
        decode_utf8(percent_decoded(encode_utf8(ascii_text(percent_encoded(encode_utf8(text), keep_slash)))))
            == text,
{
    let bytes = encode_utf8(text);
    lemma_encoded_is_ascii(bytes, keep_slash);
    lemma_ascii_text_bytes(percent_encoded(bytes, keep_slash));
    lemma_decode_encoded(bytes, keep_slash);
    vstd::utf8::encode_utf8_valid_utf8(text);
    vstd::utf8::encode_utf8_decode_utf8(text);
}

/// Decoding an encoding followed by anything gives back what was encoded,
/// followed by the decoding of the rest.
pub proof fn lemma_decode_encoded_then(bytes: Seq<u8>, keep_slash: bool, rest: Seq<u8>)
    ensures
        percent_decoded(percent_encoded(bytes, keep_slash) + rest) == bytes + percent_decoded(rest),
    decreases bytes.len(),
{
    if bytes.len() == 0 {
        assert(percent_encoded(bytes, keep_slash) + rest =~= rest);
        assert(bytes + percent_decoded(rest) =~= percent_decoded(rest));
    } else {
        let tail = percent_encoded(bytes.drop_first(), keep_slash);
        assert(percent_encoded(bytes, keep_slash) + rest =~= encode_byte(bytes[0], keep_slash) + (
        tail + rest));
        lemma_decode_encoded_byte(bytes[0], keep_slash, tail + rest);
        lemma_decode_encoded_then(bytes.drop_first(), keep_slash, rest);
        assert(seq![bytes[0]] + (bytes.drop_first() + percent_decoded(rest)) =~= bytes
            + percent_decoded(rest));
    }
}

/// A byte other than `%` decodes as itself.
pub proof fn lemma_decode_plain_byte(b: u8, rest: Seq<u8>)
    requires
        b != 0x25,
    ensures
        percent_decoded(seq![b] + rest) == seq![b] + percent_decoded(rest),
{
    assert((seq![b] + rest).drop_first() =~= rest);
}

/// The UTF-8 of text one after the other is their UTF-8 one after the
/// other.
pub proof fn lemma_encode_utf8_append(a: Seq<char>, b: Seq<char>)
    ensures
        encode_utf8(a + b) == encode_utf8(a) + encode_utf8(b),
    decreases a.len(),
{
    if a.len() == 0 {
        assert(a + b =~= b);
        assert(encode_utf8(a) + encode_utf8(b) =~= encode_utf8(b));
    } else {
        assert((a + b).drop_first() =~= a.drop_first() + b);
        assert((a + b)[0] == a[0]);
        lemma_encode_utf8_append(a.drop_first(), b);
        assert(encode_utf8(a + b) =~= encode_utf8(a) + encode_utf8(b));
    }
}

/// A slash is one byte, 0x2F.
pub proof fn lemma_slash_bytes()
    ensures
        encode_utf8(seq!['/']) == seq![0x2Fu8],
{
    let s = seq!['/'];
    assert(is_ascii_chars(s));
    vstd::utf8::is_ascii_chars_encode_utf8(s);
    assert(encode_utf8(s) =~= seq![0x2Fu8]);
}

/// The bytes of percent-encoded text are the encoding's bytes.
pub proof fn lemma_encoded_text_bytes(text: Seq<char>, keep_slash: bool)
    ensures
        encode_utf8(ascii_text(percent_encoded(encode_utf8(text), keep_slash))) == percent_encoded(
            encode_utf8(text),
            keep_slash,
        ),
{
    lemma_encoded_is_ascii(encode_utf8(text), keep_slash);
    lemma_ascii_text_bytes(percent_encoded(encode_utf8(text), keep_slash));
}

/// The bytes that stand for themselves in a path: ASCII letters and
/// digits, `-`, `.`, `_`, `~`, and `/` where slashes are kept.
pub open spec fn stands_for_itself(b: u8, keep_slash: bool) -> bool {
    ||| 0x41 <= b && b <= 0x5A
    ||| 0x61 <= b && b <= 0x7A
    ||| 0x30 <= b && b <= 0x39
    ||| b == 0x2D || b == 0x2E || b == 0x5F || b == 0x7E
    ||| keep_slash && b == 0x2F
}

/// An upper-case hex digit: `0`-`9` or `A`-`F`.
pub open spec fn upper_hex(b: u8) -> bool {
    (0x30 <= b && b <= 0x39) || (0x41 <= b && b <= 0x46)
}

/// Each byte is encoded alone: one that stands for itself as itself, any
/// other, `?`, `#`, `%`, a space or a byte of a longer character, as `%`
/// and its two upper-case hex digits.
pub proof fn law_a_byte_is_itself_or_escaped(b: u8, keep_slash: bool)
    ensures
        stands_for_itself(b, keep_slash) ==> percent_encoded(seq![b], keep_slash) == seq![b],
        !stands_for_itself(b, keep_slash) ==> {
            let e = percent_encoded(seq![b], keep_slash);
            &&& e.len() == 3
            &&& e[0] == 0x25
            &&& upper_hex(e[1]) && hex_value(e[1]) == Some(b / 16)
            &&& upper_hex(e[2]) && hex_value(e[2]) == Some(b % 16)
        },
{
    let one = seq![b];
    assert(one.len() == 1 && one[0] == b);
    assert(one.drop_first() =~= Seq::<u8>::empty());
    assert(percent_encoded(Seq::<u8>::empty(), keep_slash) == Seq::<u8>::empty());
    assert(percent_encoded(one, keep_slash) == encode_byte(b, keep_slash) + percent_encoded(
        one.drop_first(),
        keep_slash,
    ));
    assert(percent_encoded(one, keep_slash) =~= encode_byte(b, keep_slash));
    assert(stands_for_itself(b, keep_slash) == unreserved(b, keep_slash));
    lemma_hex_round_trip((b / 16) as int);
    lemma_hex_round_trip((b % 16) as int);
}

/// An encoded path holds nothing but bytes that stand for themselves and
/// the `%` and upper-case hex digits of escapes; never a `?`, a `#`, a
/// space, or a slash where slashes are not kept.
pub proof fn law_an_encoded_path_holds_only_what_a_path_may(bytes: Seq<u8>, keep_slash: bool)
    ensures
        forall|i: int|
            0 <= i < percent_encoded(bytes, keep_slash).len() ==> {
                let x = #[trigger] percent_encoded(bytes, keep_slash)[i];
                stands_for_itself(x, keep_slash) || x == 0x25 || upper_hex(x)
            },
    decreases bytes.len(),
{
    if bytes.len() > 0 {
        law_an_encoded_path_holds_only_what_a_path_may(bytes.drop_first(), keep_slash);
        law_a_byte_is_itself_or_escaped(bytes[0], keep_slash);
        let one = seq![bytes[0]];
        assert(one.drop_first() =~= Seq::<u8>::empty());
        assert(percent_encoded(one, keep_slash) =~= encode_byte(bytes[0], keep_slash));
        let e = encode_byte(bytes[0], keep_slash);
        let rest = percent_encoded(bytes.drop_first(), keep_slash);
        assert forall|i: int| 0 <= i < (e + rest).len() implies {
            let x = #[trigger] (e + rest)[i];
            stands_for_itself(x, keep_slash) || x == 0x25 || upper_hex(x)
        } by {
            if i >= e.len() {
                assert((e + rest)[i] == rest[i - e.len()]);
            }
        }
    }
}

} // verus!

//! Shared Key: what a Blob request carries to prove who sent it.
//!
//! The string to sign is the one Azure documents for version 2009-09-19 and
//! later: the verb, eleven standard headers in a fixed order, every `x-ms-`
//! header canonicalized, and the resource with its query parameters one per
//! line. The signature is HMAC-SHA256 under the account key, base64 both
//! ways. Both sides are here — a Location signs, a session verifies —
//! because verifying is the same computation with a comparison at the end.
//!
//! **The body is not signed.** Shared Key covers `Content-Length` and, when
//! the sender chooses to send it, `Content-MD5`; the bytes themselves are
//! covered only through that digest. A request that reaches the service over
//! plaintext HTTP can have its content altered by anything in the path, as
//! long as the length stays.
use base64::engine::general_purpose::STANDARD;
use base64::Engine;
use hmac::{Hmac, Mac};
use sha2::Sha256;
use vstd::prelude::*;
use vstd::multiset::Multiset;

use crate::error::{protocol_error, TransportError};
use crate::message::{find_ignoring_case, Request, RequestView};
use crate::text::{
    chars_of, decimal, decimal_of, lemma_decimal_digits, lemma_decimal_injective, extend_chars, extend_str, has_prefix, lower, lower_chars,
    lemma_pair_order_total, pair_order, pairs_view, sort_pairs, sorted_pairs, starts_with,
    string_of, trim, trimmed,
};

verus! {

/// The service version every request names.
pub const VERSION: &'static str = "2021-08-06";

/// The standard headers in the order the string to sign lists them.
pub open spec fn standard_header(i: int) -> Seq<char> {
    if i == 0 {
        "content-encoding"@
    } else if i == 1 {
        "content-language"@
    } else if i == 2 {
        "content-length"@
    } else if i == 3 {
        "content-md5"@
    } else if i == 4 {
        "content-type"@
    } else if i == 5 {
        "date"@
    } else if i == 6 {
        "if-modified-since"@
    } else if i == 7 {
        "if-match"@
    } else if i == 8 {
        "if-none-match"@
    } else if i == 9 {
        "if-unmodified-since"@
    } else {
        "range"@
    }
}

/// The name of the `i`th standard header.
fn standard_header_name(i: usize) -> (r: &'static str)
    requires
        i < 11,
    ensures
        r@ == standard_header(i as int),
{
    if i == 0 {
        "content-encoding"
    } else if i == 1 {
        "content-language"
    } else if i == 2 {
        "content-length"
    } else if i == 3 {
        "content-md5"
    } else if i == 4 {
        "content-type"
    } else if i == 5 {
        "date"
    } else if i == 6 {
        "if-modified-since"
    } else if i == 7 {
        "if-match"
    } else if i == 8 {
        "if-none-match"
    } else if i == 9 {
        "if-unmodified-since"
    } else {
        "range"
    }
}

/// The line of the string to sign for the `i`th standard header: its value,
/// or nothing where the request has no such header. `Content-Length` is the
/// body's length, and nothing where the body is empty, as versions from
/// 2015-02-21 have it.
pub open spec fn standard_line(r: RequestView, i: int) -> Seq<char> {
    if i == 2 {
        if r.body.len() == 0 {
            seq![]
        } else {
            decimal(r.body.len())
        }
    } else {
        match r.header(standard_header(i)) {
            Some(v) => v,
            None => seq![],
        }
    }
}

/// The `x-ms-` headers of `headers`, in their order, each name in lower case
/// and each value trimmed.
pub open spec fn canonical_headers(headers: Seq<(Seq<char>, Seq<char>)>) -> Seq<
    (Seq<char>, Seq<char>),
>
    decreases headers.len(),
{
    if headers.len() == 0 {
        seq![]
    } else {
        let rest = canonical_headers(headers.drop_last());
        let name = lower(headers.last().0);
        if has_prefix(name, "x-ms-"@) {
            rest.push((name, trim(headers.last().1)))
        } else {
            rest
        }
    }
}

/// Each pair as the line `name:value`.
pub open spec fn header_lines(pairs: Seq<(Seq<char>, Seq<char>)>) -> Seq<Seq<char>> {
    pairs.map_values(|p: (Seq<char>, Seq<char>)| p.0 + seq![':'] + p.1)
}

/// Each pair with its name in lower case.
pub open spec fn lowered_names(pairs: Seq<(Seq<char>, Seq<char>)>) -> Seq<(Seq<char>, Seq<char>)> {
    pairs.map_values(|p: (Seq<char>, Seq<char>)| (lower(p.0), p.1))
}

/// Each pair as `\nname:value`.
pub open spec fn query_lines(pairs: Seq<(Seq<char>, Seq<char>)>) -> Seq<Seq<char>> {
    pairs.map_values(|p: (Seq<char>, Seq<char>)| seq!['\n'] + p.0 + seq![':'] + p.1)
}

/// The parts one after another.
pub open spec fn concat_all(parts: Seq<Seq<char>>) -> Seq<char>
    decreases parts.len(),
{
    if parts.len() == 0 {
        seq![]
    } else {
        concat_all(parts.drop_last()) + parts.last()
    }
}

/// The canonicalized resource: `/account/path`, then each query parameter,
/// its name in lower case, sorted, as `\nname:value`.
pub open spec fn canonical_resource(account: Seq<char>, r: RequestView) -> Seq<char> {
    seq!['/'] + account + r.path + concat_all(query_lines(sorted_pairs(lowered_names(r.query))))
}

/// The lines of the string to sign: the verb, the standard headers, the
/// canonicalized `x-ms-` headers sorted, and the canonicalized resource.
pub open spec fn lines_to_sign(account: Seq<char>, r: RequestView) -> Seq<Seq<char>> {
    seq![r.method] + Seq::new(11, |i: int| standard_line(r, i)) + header_lines(
        sorted_pairs(canonical_headers(r.headers)),
    ) + seq![canonical_resource(account, r)]
}

/// Lines joined by newlines.
pub open spec fn join_lines(lines: Seq<Seq<char>>) -> Seq<char>
    decreases lines.len(),
{
    if lines.len() == 0 {
        seq![]
    } else if lines.len() == 1 {
        lines[0]
    } else {
        join_lines(lines.drop_last()) + seq!['\n'] + lines.last()
    }
}

/// The string to sign for `r` as `account`.
pub open spec fn string_to_sign_of(account: Seq<char>, r: RequestView) -> Seq<char> {
    join_lines(lines_to_sign(account, r))
}

/// Adds `line` on a line of its own.
fn add_line(out: &mut Vec<char>, line: &Vec<char>, Ghost(lines): Ghost<Seq<Seq<char>>>)
    requires
        lines.len() >= 1,
        old(out)@ == join_lines(lines),
    ensures
        final(out)@ == join_lines(lines.push(line@)),
{
    out.push('\n');
    extend_chars(out, line);
    proof {
        assert(lines.push(line@).drop_last() =~= lines);
    }
}

/// The value the string to sign lists for the `i`th standard header.
fn standard_value(request: &Request, i: usize) -> (line: Vec<char>)
    requires
        i < 11,
    ensures
        line@ == standard_line(request@, i as int),
{
    if i == 2 {
        if request.body.len() == 0 {
            Vec::new()
        } else {
            decimal_of(request.body.len() as u64)
        }
    } else {
        match request.header_value(standard_header_name(i)) {
            Some(v) => chars_of(v),
            None => Vec::new(),
        }
    }
}

/// The canonicalized `x-ms-` headers of `request`, unsorted.
fn canonical_header_pairs(request: &Request) -> (r: Vec<(Vec<char>, Vec<char>)>)
    ensures
        pairs_view(r@) == canonical_headers(request@.headers),
{
    let prefix = chars_of("x-ms-");
    let mut canonical: Vec<(Vec<char>, Vec<char>)> = Vec::new();
    let mut h: usize = 0;
    while h < request.headers.len()
        invariant
            h <= request.headers.len(),
            prefix@ == "x-ms-"@,
            pairs_view(canonical@) == canonical_headers(request@.headers.take(h as int)),
        decreases request.headers.len() - h,
    {
        let name = lower_chars(&chars_of(request.headers[h].0.as_str()));
        let value = trimmed(&chars_of(request.headers[h].1.as_str()));
        let ghost before = canonical@;
        let ghost taken = request@.headers.take(h + 1);
        proof {
            assert(taken.drop_last() =~= request@.headers.take(h as int));
            assert(taken.last() == (request.headers@[h as int].0@, request.headers@[h as int].1@));
        }
        if starts_with(&name, &prefix) {
            canonical.push((name, value));
            proof {
                assert(pairs_view(canonical@) =~= pairs_view(before).push((name@, value@)));
            }
        }
        h = h + 1;
    }
    proof {
        assert(request@.headers.take(request.headers.len() as int) =~= request@.headers);
    }
    canonical
}

/// The query parameters of `request`, names in lower case, unsorted.
fn lowered_query_pairs(request: &Request) -> (r: Vec<(Vec<char>, Vec<char>)>)
    ensures
        pairs_view(r@) == lowered_names(request@.query),
{
    let mut pairs: Vec<(Vec<char>, Vec<char>)> = Vec::new();
    let mut q: usize = 0;
    while q < request.query.len()
        invariant
            q <= request.query.len(),
            pairs_view(pairs@) == lowered_names(request@.query).take(q as int),
        decreases request.query.len() - q,
    {
        let name = lower_chars(&chars_of(request.query[q].0.as_str()));
        let value = chars_of(request.query[q].1.as_str());
        let ghost before = pairs@;
        pairs.push((name, value));
        proof {
            assert(request@.query[q as int] == (request.query@[q as int].0@, request.query@[q as int].1@));
            assert(pairs_view(pairs@) =~= pairs_view(before).push((name@, value@)));
            assert(lowered_names(request@.query)[q as int] == (name@, value@));
            assert(lowered_names(request@.query).take(q + 1) =~= lowered_names(request@.query).take(
                q as int,
            ).push((name@, value@)));
        }
        q = q + 1;
    }
    proof {
        assert(lowered_names(request@.query).take(request.query.len() as int) =~= lowered_names(
            request@.query,
        ));
    }
    pairs
}

/// The canonicalized resource of `request` as `account`.
fn resource_line(account: &str, request: &Request) -> (r: Vec<char>)
    ensures
        r@ == canonical_resource(account@, request@),
{
    let sorted = sort_pairs(lowered_query_pairs(request));
    let ghost lines = query_lines(pairs_view(sorted@));
    let mut out: Vec<char> = Vec::new();
    out.push('/');
    extend_str(&mut out, account);
    extend_str(&mut out, request.path.as_str());
    let ghost head = out@;
    assert(head =~= seq!['/'] + account@ + request@.path);
    let mut k: usize = 0;
    assert(lines.take(0) =~= seq![]);
    while k < sorted.len()
        invariant
            k <= sorted.len(),
            lines == query_lines(pairs_view(sorted@)),
            out@ == head + concat_all(lines.take(k as int)),
        decreases sorted.len() - k,
    {
        let ghost before = out@;
        out.push('\n');
        extend_chars(&mut out, &sorted[k].0);
        out.push(':');
        extend_chars(&mut out, &sorted[k].1);
        proof {
            assert(lines.take(k + 1).drop_last() =~= lines.take(k as int));
            assert(lines[k as int] == seq!['\n'] + sorted@[k as int].0@ + seq![':'] + sorted@[
                k as int
            ].1@);
            assert(out@ =~= head + concat_all(lines.take(k + 1)));
        }
        k = k + 1;
    }
    proof {
        assert(lines.take(sorted.len() as int) =~= lines);
    }
    out
}

/// The string to sign: the verb, the standard headers, the canonicalized
/// `x-ms-` headers and the canonicalized resource, newline-separated.
///
/// `Content-Length` is the body's length and empty where the body is empty,
/// as versions from 2015-02-21 have it.
pub fn string_to_sign(account: &str, request: &Request) -> (s: String)
    ensures
        s@ == string_to_sign_of(account@, request@),
{
    let ghost r = request@;
    let mut out: Vec<char> = chars_of(request.method.as_str());
    let ghost mut lines: Seq<Seq<char>> = seq![r.method];
    let mut i: usize = 0;
    while i < 11
        invariant
            i <= 11,
            r == request@,
            lines =~= seq![r.method] + Seq::new(i as nat, |k: int| standard_line(r, k)),
            out@ == join_lines(lines),
        decreases 11 - i,
    {
        let line = standard_value(request, i);
        add_line(&mut out, &line, Ghost(lines));
        proof {
            lines = lines.push(line@);
        }
        i = i + 1;
    }
    let sorted = sort_pairs(canonical_header_pairs(request));
    let ghost base = lines;
    let ghost header_part = header_lines(pairs_view(sorted@));
    let mut k: usize = 0;
    while k < sorted.len()
        invariant
            k <= sorted.len(),
            base.len() >= 1,
            header_part == header_lines(pairs_view(sorted@)),
            lines =~= base + header_part.take(k as int),
            out@ == join_lines(lines),
        decreases sorted.len() - k,
    {
        let mut line: Vec<char> = Vec::new();
        extend_chars(&mut line, &sorted[k].0);
        line.push(':');
        extend_chars(&mut line, &sorted[k].1);
        add_line(&mut out, &line, Ghost(lines));
        proof {
            assert(line@ =~= header_part[k as int]);
            lines = lines.push(line@);
        }
        k = k + 1;
    }
    let resource = resource_line(account, request);
    add_line(&mut out, &resource, Ghost(lines));
    proof {
        lines = lines.push(resource@);
        assert(header_part.take(sorted.len() as int) =~= header_part);
        assert(lines =~= lines_to_sign(account@, r));
    }
    string_of(&out)
}

// ---------------------------------------------------------------------------
// The outside computations: base64 and HMAC-SHA256
// ---------------------------------------------------------------------------

#[verifier::external_type_specification]
#[verifier::external_body]
pub struct ExDecodeError(base64::DecodeError);


/// The character base64's standard alphabet writes for `n`, below 64:
/// `A`-`Z`, `a`-`z`, `0`-`9`, `+`, `/`.
pub open spec fn base64_char(n: int) -> char {
    if n < 26 {
        (65 + n) as char
    } else if n < 52 {
        (71 + n) as char
    } else if n < 62 {
        (n - 4) as char
    } else if n == 62 {
        '+'
    } else {
        '/'
    }
}

/// `bytes` in base64 with the standard alphabet and padding: each three
/// bytes as four characters of six bits each, a last one or two bytes as
/// two or three characters and `=` to make four.
pub open spec fn base64_encoded(bytes: Seq<u8>) -> Seq<char>
    decreases bytes.len(),
{
    if bytes.len() == 0 {
        seq![]
    } else {
        let b0 = bytes[0] as int;
        let b1 = if bytes.len() > 1 { bytes[1] as int } else { 0 };
        let b2 = if bytes.len() > 2 { bytes[2] as int } else { 0 };
        let first = base64_char(b0 / 4);
        let second = base64_char((b0 % 4) * 16 + b1 / 16);
        let third = base64_char((b1 % 16) * 4 + b2 / 64);
        let fourth = base64_char(b2 % 64);
        if bytes.len() == 1 {
            seq![first, second, '=', '=']
        } else if bytes.len() == 2 {
            seq![first, second, third, '=']
        } else {
            seq![first, second, third, fourth] + base64_encoded(bytes.skip(3))
        }
    }
}

/// What base64's standard engine decodes `text` to: the bytes whose
/// standard padded encoding `text` is, or `None` where no bytes encode to
/// it. No two byte strings encode alike (`lemma_base64_encoded_injective`),
/// so the bytes are the only ones.
pub open spec fn base64_decoded(text: Seq<char>) -> Option<Seq<u8>> {
    if exists|b: Seq<u8>| base64_encoded(b) == text {
        Some(choose|b: Seq<u8>| base64_encoded(b) == text)
    } else {
        None
    }
}

/// Each of the 64 values has its own character, and none is `=`.
proof fn lemma_base64_char(n: int, m: int)
    requires
        0 <= n < 64,
        0 <= m < 64,
    ensures
        base64_char(n) != '=',
        base64_char(n) == base64_char(m) ==> n == m,
{
    let x = base64_char(n);
    let y = base64_char(m);
    assert(x as u32 != 61);
    if x == y {
        assert(x as u32 == y as u32);
    }
}

/// No two byte strings have the same base64.
pub proof fn lemma_base64_encoded_injective(a: Seq<u8>, b: Seq<u8>)
    requires
        base64_encoded(a) == base64_encoded(b),
    ensures
        a == b,
    decreases a.len(),
{
    let e = base64_encoded(a);
    if a.len() == 0 || b.len() == 0 {
        if a.len() != 0 || b.len() != 0 {
            assert(base64_encoded(a).len() != base64_encoded(b).len());
        }
        assert(a =~= b);
    } else {
        let a0 = a[0] as int;
        let a1 = if a.len() > 1 { a[1] as int } else { 0 };
        let a2 = if a.len() > 2 { a[2] as int } else { 0 };
        let b0 = b[0] as int;
        let b1 = if b.len() > 1 { b[1] as int } else { 0 };
        let b2 = if b.len() > 2 { b[2] as int } else { 0 };
        lemma_base64_char(a0 / 4, b0 / 4);
        lemma_base64_char((a0 % 4) * 16 + a1 / 16, (b0 % 4) * 16 + b1 / 16);
        lemma_base64_char((a1 % 16) * 4 + a2 / 64, (b1 % 16) * 4 + b2 / 64);
        lemma_base64_char(a2 % 64, b2 % 64);
        assert(e[0] == base64_encoded(b)[0]);
        assert(e[1] == base64_encoded(b)[1]);
        assert(e[2] == base64_encoded(b)[2]);
        assert(e[3] == base64_encoded(b)[3]);
        // The padding tells the lengths apart.
        assert(a.len() == 1 <==> b.len() == 1);
        assert(a.len() == 2 <==> b.len() == 2);
        assert(a0 == b0);
        if a.len() >= 2 {
            assert(a1 == b1);
        }
        if a.len() >= 3 {
            assert(a2 == b2);
            let ra = a.skip(3);
            let rb = b.skip(3);
            assert(base64_encoded(a).skip(4) =~= base64_encoded(ra));
            assert(base64_encoded(b).skip(4) =~= base64_encoded(rb));
            lemma_base64_encoded_injective(ra, rb);
            assert(a =~= seq![a[0], a[1], a[2]] + ra);
            assert(b =~= seq![b[0], b[1], b[2]] + rb);
        } else {
            assert(a =~= b);
        }
    }
}

/// HMAC-SHA256 of `message` under `key`.
pub uninterp spec fn hmac_sha256(key: Seq<u8>, message: Seq<u8>) -> Seq<u8>;

/// `base64::engine::general_purpose::STANDARD.decode`: the bytes `text`
/// encodes, or the decoder's error. The standard engine takes canonical
/// padding only and no stray trailing bits, so it accepts exactly what its
/// encoder writes: the bytes come back where they encode to `text`, and
/// the error where nothing does.
#[verifier::external_body]
fn decode_base64(text: &str) -> (r: Result<Vec<u8>, base64::DecodeError>)
    ensures
        match r {
            Ok(bytes) => base64_encoded(bytes@) == text@,
            Err(_) => forall|b: Seq<u8>| base64_encoded(b) != text@,
        },
{
    STANDARD.decode(text)
}

/// The decoder error's own description, its `Display`. Nothing is stated
/// of the text.
#[verifier::external_body]
fn describe_decode_error(e: &base64::DecodeError) -> String {
    format!("{e}")
}

/// `base64::engine::general_purpose::STANDARD.encode`: `bytes` in base64,
/// the standard alphabet with padding, as `base64_encoded` spells out. The
/// engine panics where the encoded length overflows `usize`, which the
/// `requires` leaves out.
#[verifier::external_body]
fn encode_base64(bytes: &[u8]) -> (text: String)
    requires
        bytes@.len() / 3 * 4 + 4 <= usize::MAX,
    ensures
        text@ == base64_encoded(bytes@),
{
    STANDARD.encode(bytes)
}

/// `hmac::Hmac::<sha2::Sha256>`: `new_from_slice`, which takes a key of any
/// length, then `update` and `finalize`. The tag is SHA-256's 32 bytes.
#[verifier::external_body]
fn hmac_sha256_tag(key: &[u8], message: &[u8]) -> (tag: Vec<u8>)
    ensures
        tag@ == hmac_sha256(key@, message@),
        tag@.len() == 32,
{
    let mut mac = Hmac::<Sha256>::new_from_slice(key).expect("HMAC takes a key of any length");
    mac.update(message);
    mac.finalize().into_bytes().to_vec()
}

// ---------------------------------------------------------------------------
// Signing and verifying
// ---------------------------------------------------------------------------

/// The signature of `to_sign` under `key`: HMAC-SHA256 of its UTF-8 bytes,
/// in base64.
pub open spec fn signature_of(key: Seq<u8>, to_sign: Seq<char>) -> Seq<char> {
    base64_encoded(hmac_sha256(key, vstd::utf8::encode_utf8(to_sign)))
}

/// The `Authorization` value that `r` carries when `account` signs it with
/// `key`: `SharedKey account:signature`.
pub open spec fn authorization_of(account: Seq<char>, key: Seq<u8>, r: RequestView) -> Seq<char> {
    "SharedKey "@ + account + seq![':'] + signature_of(key, string_to_sign_of(account, r))
}

/// `r` with `x-ms-date` and `x-ms-version` added.
pub open spec fn dated(r: RequestView, at: Seq<char>) -> RequestView {
    r.with_header("x-ms-date"@, at).with_header("x-ms-version"@, VERSION@)
}

/// `r` as `account` signs it with `key` at `at`: dated, then authorized.
pub open spec fn signed(account: Seq<char>, key: Seq<u8>, r: RequestView, at: Seq<char>) -> RequestView {
    dated(r, at).with_header("Authorization"@, authorization_of(account, key, dated(r, at)))
}

/// Whether the `Authorization` that `r` carries first is the one `account`
/// would have made of `r` with `key`.
pub open spec fn verifies(account: Seq<char>, key: Seq<u8>, r: RequestView) -> bool {
    r.header("authorization"@) == Some(authorization_of(account, key, r))
}

/// Whether `a` and `b` are the same, looking at every character of both
/// whatever it finds, so that the time taken says nothing of where they
/// differ.
fn same(a: &Vec<char>, b: &Vec<char>) -> (r: bool)
    ensures
        r == (a@ == b@),
{
    if a.len() != b.len() {
        return false;
    }
    let mut differs = false;
    let mut i: usize = 0;
    while i < a.len()
        invariant
            a.len() == b.len(),
            i <= a.len(),
            differs == exists|k: int| 0 <= k < i && a@[k] != b@[k],
        decreases a.len() - i,
    {
        let here = a[i] != b[i];
        differs = differs || here;
        i = i + 1;
    }
    proof {
        if !differs {
            assert(a@ =~= b@);
        }
    }
    !differs
}

/// The account and key a signature is made under.
#[derive(Clone, Debug)]
pub struct Signer {
    account: String,
    key: Vec<u8>,
}

impl Signer {
    /// The account that signs.
    pub closed spec fn account(&self) -> Seq<char> {
        self.account@
    }

    /// The account key, decoded.
    pub closed spec fn key(&self) -> Seq<u8> {
        self.key@
    }

    /// Sign as `account` with its key, as the portal shows it: base64,
    /// whitespace around it aside.
    ///
    /// # Errors
    /// Where `key_base64` is not base64.
    pub fn new(account: &str, key_base64: &str) -> (r: Result<Signer, TransportError>)
        ensures
            match r {
                Ok(signer) => signer.account() == account@ && base64_decoded(trim(key_base64@))
                    == Some(signer.key()),
                Err(e) => base64_decoded(trim(key_base64@)) is None && !e.retryable && has_prefix(
                    e.message@,
                    "an account key that is not base64: "@,
                ),
            },
    {
        let key_text = string_of(&trimmed(&chars_of(key_base64)));
        match decode_base64(key_text.as_str()) {
            Ok(key) => {
                proof {
                    let other = choose|b: Seq<u8>| base64_encoded(b) == key_text@;
                    lemma_base64_encoded_injective(other, key@);
                }
                Ok(Signer { account: account.to_string(), key })
            },
            Err(e) => {
                let lead = chars_of("an account key that is not base64: ");
                let mut message = chars_of("an account key that is not base64: ");
                extend_str(&mut message, describe_decode_error(&e).as_str());
                proof {
                    assert(message@.take(lead@.len() as int) =~= lead@);
                }
                Err(TransportError { message: string_of(&message), retryable: false })
            },
        }
    }

    /// The signature of `to_sign` under this signer's key.
    fn signature(&self, to_sign: &str) -> (r: String)
        ensures
            r@ == signature_of(self.key(), to_sign@),
    {
        let tag = hmac_sha256_tag(self.key.as_slice(), to_sign.as_bytes());
        encode_base64(tag.as_slice())
    }

    /// The `Authorization` value for `request` signed by this signer.
    fn authorization_for(&self, request: &Request) -> (r: Vec<char>)
        ensures
            r@ == authorization_of(self.account(), self.key(), request@),
    {
        let to_sign = string_to_sign(self.account.as_str(), request);
        let signature = self.signature(to_sign.as_str());
        let mut value = chars_of("SharedKey ");
        extend_str(&mut value, self.account.as_str());
        value.push(':');
        extend_str(&mut value, signature.as_str());
        value
    }

    /// Sign `request` as of `at`, an RFC 1123 moment, adding `x-ms-date`,
    /// `x-ms-version` and `Authorization`.
    pub fn sign(&self, request: Request, at: &str) -> (r: Request)
        ensures
            r@ == signed(self.account(), self.key(), request@, at@),
    {
        let request = request.header("x-ms-date", at).header("x-ms-version", VERSION);
        let authorization = string_of(&self.authorization_for(&request));
        request.header("Authorization", authorization.as_str())
    }

    /// Whether `request` carries the signature this signer would have made.
    ///
    /// # Errors
    /// Where the request has no `Authorization`, or one that differs.
    pub fn verify(&self, request: &Request) -> (r: Result<(), TransportError>)
        ensures
            r is Ok <==> verifies(self.account(), self.key(), request@),
            r matches Err(e) ==> !e.retryable && e.message@ == (if request@.header(
                "authorization"@,
            ) is None {
                "a request with no Authorization"@
            } else {
                "a signature that does not match"@
            }),
    {
        let authorization = match request.header_value("authorization") {
            Some(a) => a,
            None => return Err(protocol_error("a request with no Authorization")),
        };
        let expected = self.authorization_for(request);
        if same(&expected, &chars_of(authorization)) {
            Ok(())
        } else {
            Err(protocol_error("a signature that does not match"))
        }
    }
}

// ---------------------------------------------------------------------------
// What signing promises
// ---------------------------------------------------------------------------

/// Looking a name up in pairs with one more pair at the end finds what it
/// found before, else the new pair if it has the name.
proof fn lemma_find_push(
    pairs: Seq<(Seq<char>, Seq<char>)>,
    last: (Seq<char>, Seq<char>),
    name: Seq<char>,
)
    ensures
        find_ignoring_case(pairs.push(last), name) == (match find_ignoring_case(pairs, name) {
            Some(v) => Some(v),
            None => if lower(last.0) == lower(name) {
                Some(last.1)
            } else {
                None
            },
        }),
    decreases pairs.len(),
{
    if pairs.len() > 0 {
        assert(pairs.push(last)[0] == pairs[0]);
        assert(pairs.push(last).drop_first() =~= pairs.drop_first().push(last));
        lemma_find_push(pairs.drop_first(), last, name);
    } else {
        assert(pairs.push(last)[0] == last);
        let empty = Seq::<(Seq<char>, Seq<char>)>::empty();
        assert(pairs.push(last).drop_first() =~= empty);
        assert(find_ignoring_case(empty, name) is None);
        assert(find_ignoring_case(pairs, name) is None);
    }
}

/// The header a signature travels in is none of the standard headers, and
/// not an `x-ms-` header.
proof fn lemma_authorization_is_not_signed()
    ensures
        forall|i: int| 0 <= i < 11 ==> lower("Authorization"@) != lower(#[trigger] standard_header(i)),
        !has_prefix(lower("Authorization"@), "x-ms-"@),
        lower("Authorization"@) == lower("authorization"@),
        lower("x-ms-date"@) != lower("authorization"@),
        lower("x-ms-version"@) != lower("authorization"@),
{
    reveal_strlit("Authorization");
    reveal_strlit("authorization");
    reveal_strlit("x-ms-");
    reveal_strlit("x-ms-date");
    reveal_strlit("x-ms-version");
    reveal_strlit("content-encoding");
    reveal_strlit("content-language");
    reveal_strlit("content-length");
    reveal_strlit("content-md5");
    reveal_strlit("content-type");
    reveal_strlit("date");
    reveal_strlit("if-modified-since");
    reveal_strlit("if-match");
    reveal_strlit("if-none-match");
    reveal_strlit("if-unmodified-since");
    reveal_strlit("range");
    let auth = lower("Authorization"@);
    assert(auth.len() == 13);
    assert(auth[0] == 'a');
    assert(lower("if-none-match"@)[0] == 'i');
    assert(lower("x-ms-"@)[0] == 'x');
    assert(auth =~= lower("authorization"@));
    assert(auth.take(5)[0] == 'a');
}

/// Adding a header that is neither standard nor `x-ms-` leaves the string
/// to sign as it was.
proof fn lemma_unsigned_header(account: Seq<char>, r: RequestView, value: Seq<char>)
    ensures
        string_to_sign_of(account, r.with_header("Authorization"@, value)) == string_to_sign_of(
            account,
            r,
        ),
{
    let r2 = r.with_header("Authorization"@, value);
    lemma_authorization_is_not_signed();
    assert forall|i: int| 0 <= i < 11 implies standard_line(r2, i) == standard_line(r, i) by {
        lemma_find_push(r.headers, ("Authorization"@, value), standard_header(i));
    }
    assert(Seq::new(11, |i: int| standard_line(r2, i)) =~= Seq::new(11, |i: int| standard_line(r, i)));
    assert(r2.headers.drop_last() =~= r.headers);
    assert(canonical_headers(r2.headers) == canonical_headers(r.headers));
    assert(lines_to_sign(account, r2) =~= lines_to_sign(account, r));
}

/// What one signer signs, the same signer verifies: a request that carries
/// no `Authorization` of its own, signed by `account` with `key` at any
/// moment, passes `verify` by the same account and key.
pub proof fn law_signed_request_verifies(
    account: Seq<char>,
    key: Seq<u8>,
    r: RequestView,
    at: Seq<char>,
)
    requires
        r.header("authorization"@) is None,
    ensures
        verifies(account, key, signed(account, key, r, at)),
{
    let d = dated(r, at);
    let a = authorization_of(account, key, d);
    let s = signed(account, key, r, at);
    lemma_authorization_is_not_signed();
    let d1 = r.with_header("x-ms-date"@, at);
    lemma_find_push(r.headers, ("x-ms-date"@, at), "authorization"@);
    lemma_find_push(d1.headers, ("x-ms-version"@, VERSION@), "authorization"@);
    lemma_find_push(d.headers, ("Authorization"@, a), "authorization"@);
    assert(s.header("authorization"@) == Some(a));
    lemma_unsigned_header(account, d, a);
}

/// The body is not signed, only its length: a request that verifies still
/// verifies with any other body of the same length.
pub proof fn law_body_of_same_length_still_verifies(
    account: Seq<char>,
    key: Seq<u8>,
    r: RequestView,
    body: Seq<u8>,
)
    requires
        verifies(account, key, r),
        body.len() == r.body.len(),
    ensures
        verifies(account, key, r.with_body(body)),
{
    let r2 = r.with_body(body);
    assert(Seq::new(11, |i: int| standard_line(r2, i)) =~= Seq::new(11, |i: int| standard_line(r, i)));
    assert(lines_to_sign(account, r2) =~= lines_to_sign(account, r));
}

/// Lines joined are the first lines joined, a newline, and the rest joined.
proof fn lemma_join_split(a: Seq<Seq<char>>, b: Seq<Seq<char>>)
    requires
        a.len() >= 1,
        b.len() >= 1,
    ensures
        join_lines(a + b) == join_lines(a) + seq!['\n'] + join_lines(b),
    decreases b.len(),
{
    if b.len() == 1 {
        assert((a + b).drop_last() =~= a);
        assert((a + b).last() == b[0]);
    } else {
        lemma_join_split(a, b.drop_last());
        assert((a + b).drop_last() =~= a + b.drop_last());
        assert((a + b).last() == b.last());
        assert(join_lines(a + b) =~= join_lines(a) + seq!['\n'] + join_lines(b));
    }
}

/// Text that differs in one line with no newline in it differs as a whole.
proof fn lemma_line_differs(p: Seq<char>, d1: Seq<char>, d2: Seq<char>, j: Seq<char>)
    requires
        d1 != d2,
        forall|i: int| 0 <= i < d1.len() ==> d1[i] != '\n',
        forall|i: int| 0 <= i < d2.len() ==> d2[i] != '\n',
    ensures
        p + d1 + seq!['\n'] + j != p + d2 + seq!['\n'] + j,
{
    let t1 = d1 + seq!['\n'] + j;
    let t2 = d2 + seq!['\n'] + j;
    if p + d1 + seq!['\n'] + j == p + d2 + seq!['\n'] + j {
        assert((p + d1 + seq!['\n'] + j).skip(p.len() as int) =~= t1);
        assert((p + d2 + seq!['\n'] + j).skip(p.len() as int) =~= t2);
        if d1.len() == d2.len() {
            assert(t1.take(d1.len() as int) =~= d1);
            assert(t2.take(d2.len() as int) =~= d2);
        } else if d1.len() < d2.len() {
            assert(t1[d1.len() as int] == '\n');
            assert(t2[d1.len() as int] == d2[d1.len() as int]);
        } else {
            assert(t2[d2.len() as int] == '\n');
            assert(t1[d2.len() as int] == d1[d2.len() as int]);
        }
    }
}

/// The line the string to sign gives the body's length: nothing for an
/// empty body, else the length in decimal; no newline in it, and never the
/// same for two lengths.
proof fn lemma_length_line(r1: RequestView, r2: RequestView)
    requires
        r1.body.len() != r2.body.len(),
    ensures
        standard_line(r1, 2) != standard_line(r2, 2),
        forall|i: int| 0 <= i < standard_line(r1, 2).len() ==> standard_line(r1, 2)[i] != '\n',
        forall|i: int| 0 <= i < standard_line(r2, 2).len() ==> standard_line(r2, 2)[i] != '\n',
{
    lemma_decimal_digits(r1.body.len());
    lemma_decimal_digits(r2.body.len());
    assert forall|i: int| 0 <= i < decimal(r1.body.len()).len() implies decimal(r1.body.len())[i]
        != '\n' by {
        assert(48 <= decimal(r1.body.len())[i] as u32);
    }
    assert forall|i: int| 0 <= i < decimal(r2.body.len()).len() implies decimal(r2.body.len())[i]
        != '\n' by {
        assert(48 <= decimal(r2.body.len())[i] as u32);
    }
    if r1.body.len() > 0 && r2.body.len() > 0 && decimal(r1.body.len()) == decimal(r2.body.len()) {
        lemma_decimal_injective(r1.body.len(), r2.body.len());
    }
}

/// The path is signed: the same request on another path has another
/// string to sign.
pub proof fn law_the_path_is_signed(account: Seq<char>, r: RequestView, path: Seq<char>)
    requires
        path != r.path,
    ensures
        string_to_sign_of(account, r.with_path(path)) != string_to_sign_of(account, r),
{
    let r2 = r.with_path(path);
    let l1 = lines_to_sign(account, r);
    let l2 = lines_to_sign(account, r2);
    assert(Seq::new(11, |i: int| standard_line(r2, i)) =~= Seq::new(11, |i: int| standard_line(r, i)));
    assert(l1.drop_last() =~= l2.drop_last());
    let q = concat_all(query_lines(sorted_pairs(lowered_names(r.query))));
    let x = join_lines(l1.drop_last()) + seq!['\n'] + seq!['/'] + account;
    assert(string_to_sign_of(account, r) =~= x + r.path + q);
    assert(string_to_sign_of(account, r2) =~= x + path + q);
    if x + r.path + q == x + path + q {
        assert((x + r.path + q).len() == (x + path + q).len());
        assert((x + r.path + q).subrange(x.len() as int, (x.len() + path.len()) as int) =~= r.path);
        assert((x + path + q).subrange(x.len() as int, (x.len() + path.len()) as int) =~= path);
    }
}

/// The length of the body is signed, though the body is not: the same
/// request with a body of another length has another string to sign.
pub proof fn law_the_length_of_the_body_is_signed(account: Seq<char>, r: RequestView, body: Seq<u8>)
    requires
        body.len() != r.body.len(),
    ensures
        string_to_sign_of(account, r.with_body(body)) != string_to_sign_of(account, r),
{
    let r2 = r.with_body(body);
    let l1 = lines_to_sign(account, r);
    let l2 = lines_to_sign(account, r2);
    let a = l1.take(3);
    let b = l1.skip(4);
    assert(l2.take(3) =~= a);
    assert(l2.skip(4) =~= b);
    assert(l1[3] == standard_line(r, 2));
    assert(l2[3] == standard_line(r2, 2));
    assert(l1 =~= a + (seq![l1[3]] + b));
    assert(l2 =~= a + (seq![l2[3]] + b));
    lemma_join_split(a, seq![l1[3]] + b);
    lemma_join_split(a, seq![l2[3]] + b);
    lemma_join_split(seq![l1[3]], b);
    lemma_join_split(seq![l2[3]], b);
    let p = join_lines(a) + seq!['\n'];
    let j = join_lines(b);
    assert(string_to_sign_of(account, r) =~= p + l1[3] + seq!['\n'] + j);
    assert(string_to_sign_of(account, r2) =~= p + l2[3] + seq!['\n'] + j);
    lemma_length_line(r, r2);
    lemma_line_differs(p, l1[3], l2[3], j);
}

/// The `x-ms-` pairs among pairs whose names are already in lower case, in
/// their order, values trimmed.
pub open spec fn canonical_lowered(pairs: Seq<(Seq<char>, Seq<char>)>) -> Seq<(Seq<char>, Seq<char>)>
    decreases pairs.len(),
{
    if pairs.len() == 0 {
        seq![]
    } else {
        let rest = canonical_lowered(pairs.drop_last());
        if has_prefix(pairs.last().0, "x-ms-"@) {
            rest.push((pairs.last().0, trim(pairs.last().1)))
        } else {
            rest
        }
    }
}

/// What one pair adds to the canonicalized headers.
pub open spec fn canonical_part(p: (Seq<char>, Seq<char>)) -> Multiset<(Seq<char>, Seq<char>)> {
    if has_prefix(p.0, "x-ms-"@) {
        Multiset::singleton((p.0, trim(p.1)))
    } else {
        Multiset::empty()
    }
}

/// Canonicalizing headers is canonicalizing them with their names lowered.
proof fn lemma_canonical_lowered(headers: Seq<(Seq<char>, Seq<char>)>)
    ensures
        canonical_headers(headers) == canonical_lowered(lowered_names(headers)),
    decreases headers.len(),
{
    if headers.len() > 0 {
        assert(lowered_names(headers).drop_last() =~= lowered_names(headers.drop_last()));
        assert(lowered_names(headers).last() == (lower(headers.last().0), headers.last().1));
        lemma_canonical_lowered(headers.drop_last());
    }
}

/// Taking one pair out takes out what it adds, wherever it stood.
proof fn lemma_canonical_remove(pairs: Seq<(Seq<char>, Seq<char>)>, k: int)
    requires
        0 <= k < pairs.len(),
    ensures
        canonical_lowered(pairs).to_multiset() == canonical_lowered(pairs.remove(k)).to_multiset().add(
            canonical_part(pairs[k]),
        ),
    decreases pairs.len(),
{
    broadcast use vstd::seq_lib::group_to_multiset_ensures;
    broadcast use vstd::multiset::group_multiset_axioms;

    let d = pairs.drop_last();
    let x = pairs.last();
    if k == pairs.len() - 1 {
        assert(pairs.remove(k) =~= d);
        assert(canonical_lowered(pairs).to_multiset() =~= canonical_lowered(d).to_multiset().add(
            canonical_part(x),
        ));
    } else {
        lemma_canonical_remove(d, k);
        assert(pairs.remove(k).drop_last() =~= d.remove(k));
        assert(pairs.remove(k).last() == x);
        assert(d[k] == pairs[k]);
        assert(canonical_lowered(pairs).to_multiset() =~= canonical_lowered(d).to_multiset().add(
            canonical_part(x),
        ));
        assert(canonical_lowered(pairs.remove(k)).to_multiset() =~= canonical_lowered(
            d.remove(k),
        ).to_multiset().add(canonical_part(x)));
        assert(canonical_lowered(pairs).to_multiset() =~= canonical_lowered(
            pairs.remove(k),
        ).to_multiset().add(canonical_part(pairs[k])));
    }
}

/// Pairs in another order canonicalize to the same pairs in another order.
proof fn lemma_canonical_permuted(p1: Seq<(Seq<char>, Seq<char>)>, p2: Seq<(Seq<char>, Seq<char>)>)
    requires
        p1.to_multiset() == p2.to_multiset(),
    ensures
        canonical_lowered(p1).to_multiset() == canonical_lowered(p2).to_multiset(),
    decreases p1.len(),
{
    broadcast use vstd::seq_lib::group_to_multiset_ensures;
    broadcast use vstd::multiset::group_multiset_axioms;

    if p1.len() == 0 {
        assert(p2.to_multiset().len() == 0);
        assert(p2 =~= Seq::<(Seq<char>, Seq<char>)>::empty());
        assert(p1 =~= p2);
    } else {
        let last = p1.len() - 1;
        let x = p1[last];
        assert(p1.contains(x));
        assert(p1.to_multiset().count(x) > 0);
        assert(p2.contains(x));
        let k = choose|k: int| 0 <= k < p2.len() && p2[k] == x;
        assert(p1.remove(last) =~= p1.drop_last());
        assert(p1.remove(last).to_multiset() == p2.remove(k).to_multiset());
        lemma_canonical_permuted(p1.remove(last), p2.remove(k));
        lemma_canonical_remove(p1, last);
        lemma_canonical_remove(p2, k);
    }
}

/// Pairs in another order sort alike.
proof fn lemma_sorted_permuted(p1: Seq<(Seq<char>, Seq<char>)>, p2: Seq<(Seq<char>, Seq<char>)>)
    requires
        p1.to_multiset() == p2.to_multiset(),
    ensures
        sorted_pairs(p1) == sorted_pairs(p2),
{
    lemma_pair_order_total();
    p1.lemma_sort_by_ensures(pair_order());
    p2.lemma_sort_by_ensures(pair_order());
    vstd::seq_lib::lemma_sorted_unique(sorted_pairs(p1), sorted_pairs(p2), pair_order());
}

/// What a lookup by name, case aside, finds stands among the pairs with
/// their names lowered; where it finds nothing, no pair has the name.
proof fn lemma_find_in_lowered(pairs: Seq<(Seq<char>, Seq<char>)>, name: Seq<char>)
    ensures
        find_ignoring_case(pairs, name) matches Some(v) ==> lowered_names(pairs).contains(
            (lower(name), v),
        ),
        find_ignoring_case(pairs, name) is None ==> forall|v: Seq<char>|
            !#[trigger] lowered_names(pairs).contains((lower(name), v)),
    decreases pairs.len(),
{
    if pairs.len() > 0 {
        let l = lowered_names(pairs);
        lemma_find_in_lowered(pairs.drop_first(), name);
        assert(l.drop_first() =~= lowered_names(pairs.drop_first()));
        assert(l[0] == (lower(pairs[0].0), pairs[0].1));
        if lower(pairs[0].0) != lower(name) {
            if let Some(v) = find_ignoring_case(pairs, name) {
                let i = choose|i: int|
                    0 <= i < l.drop_first().len() && l.drop_first()[i] == (lower(name), v);
                assert(l[i + 1] == (lower(name), v));
            } else {
                assert forall|v: Seq<char>| !#[trigger] l.contains((lower(name), v)) by {
                    if l.contains((lower(name), v)) {
                        let i = choose|i: int| 0 <= i < l.len() && l[i] == (lower(name), v);
                        assert(i != 0);
                        assert(l.drop_first()[i - 1] == (lower(name), v));
                        assert(lowered_names(pairs.drop_first()).contains((lower(name), v)));
                    }
                }
            }
        }
    }
}

/// Headers that are the same headers in another order and any case, none
/// named twice, answer a lookup by name alike.
proof fn lemma_same_find(
    h1: Seq<(Seq<char>, Seq<char>)>,
    h2: Seq<(Seq<char>, Seq<char>)>,
    name: Seq<char>,
)
    requires
        lowered_names(h2).to_multiset() == lowered_names(h1).to_multiset(),
        forall|i: int, j: int| 0 <= i < j < h1.len() ==> lower(h1[i].0) != lower(h1[j].0),
    ensures
        find_ignoring_case(h1, name) == find_ignoring_case(h2, name),
{
    broadcast use vstd::seq_lib::group_to_multiset_ensures;

    let l1 = lowered_names(h1);
    let l2 = lowered_names(h2);
    lemma_find_in_lowered(h1, name);
    lemma_find_in_lowered(h2, name);
    let n = lower(name);
    match find_ignoring_case(h1, name) {
        Some(v1) => {
            assert(l1.to_multiset().count((n, v1)) > 0);
            assert(l2.contains((n, v1)));
            match find_ignoring_case(h2, name) {
                Some(v2) => {
                    assert(l2.to_multiset().count((n, v2)) > 0);
                    assert(l1.contains((n, v2)));
                    let i = choose|i: int| 0 <= i < l1.len() && l1[i] == (n, v1);
                    let j = choose|j: int| 0 <= j < l1.len() && l1[j] == (n, v2);
                    assert(l1[i].0 == lower(h1[i].0));
                    assert(l1[j].0 == lower(h1[j].0));
                    if i < j {
                        assert(lower(h1[i].0) != lower(h1[j].0));
                    } else if j < i {
                        assert(lower(h1[j].0) != lower(h1[i].0));
                    }
                },
                None => {},
            }
        },
        None => {
            if let Some(v2) = find_ignoring_case(h2, name) {
                assert(l2.to_multiset().count((n, v2)) > 0);
                assert(l1.contains((n, v2)));
            }
        },
    }
}

/// The string to sign does not hang on the order of the headers or of the
/// query parameters, nor on the case of their names: a request with the
/// same headers and query in another order and any case, no header named
/// twice, has the same string to sign.
pub proof fn law_the_string_to_sign_ignores_order_and_case(
    account: Seq<char>,
    r1: RequestView,
    r2: RequestView,
)
    requires
        r2.method == r1.method,
        r2.path == r1.path,
        r2.body == r1.body,
        lowered_names(r2.headers).to_multiset() == lowered_names(r1.headers).to_multiset(),
        lowered_names(r2.query).to_multiset() == lowered_names(r1.query).to_multiset(),
        forall|i: int, j: int|
            0 <= i < j < r1.headers.len() ==> lower(r1.headers[i].0) != lower(r1.headers[j].0),
    ensures
        string_to_sign_of(account, r1) == string_to_sign_of(account, r2),
{
    assert forall|i: int| 0 <= i < 11 implies standard_line(r1, i) == standard_line(r2, i) by {
        lemma_same_find(r1.headers, r2.headers, standard_header(i));
    }
    assert(Seq::new(11, |i: int| standard_line(r2, i)) =~= Seq::new(11, |i: int| standard_line(r1, i)));
    lemma_canonical_lowered(r1.headers);
    lemma_canonical_lowered(r2.headers);
    lemma_canonical_permuted(lowered_names(r1.headers), lowered_names(r2.headers));
    lemma_sorted_permuted(canonical_headers(r1.headers), canonical_headers(r2.headers));
    lemma_sorted_permuted(lowered_names(r1.query), lowered_names(r2.query));
    assert(canonical_resource(account, r1) == canonical_resource(account, r2));
    assert(lines_to_sign(account, r1) =~= lines_to_sign(account, r2));
}

/// A key and its trimmed copy make the same signer: `Signer::new` decodes
/// the key with the whitespace around it taken off, and taking it off
/// again takes off nothing more.
pub proof fn law_a_key_and_its_trimmed_copy_sign_alike(key_base64: Seq<char>)
    ensures
        base64_decoded(trim(trim(key_base64))) == base64_decoded(trim(key_base64)),
{
    crate::text::law_trim_is_idempotent(key_base64);
}

/// A signer's `Authorization` is `SharedKey account:` and HMAC-SHA256,
/// keyed with the account key's decoded bytes, of the UTF-8 bytes of the
/// string to sign of the dated request, in standard base64; it is added
/// last, after `x-ms-date` and `x-ms-version`.
pub proof fn law_the_signature_is_hmac_sha256_under_the_decoded_key(
    account: Seq<char>,
    key: Seq<u8>,
    r: RequestView,
    at: Seq<char>,
)
    ensures
        ({
            let d = r.with_header("x-ms-date"@, at).with_header("x-ms-version"@, VERSION@);
            &&& signed(account, key, r, at).headers == d.headers.push(
                (
                    "Authorization"@,
                    "SharedKey "@ + account + seq![':'] + base64_encoded(
                        hmac_sha256(key, vstd::utf8::encode_utf8(string_to_sign_of(account, d))),
                    ),
                ),
            )
            &&& signed(account, key, r, at).method == r.method
            &&& signed(account, key, r, at).path == r.path
            &&& signed(account, key, r, at).query == r.query
            &&& signed(account, key, r, at).body == r.body
        }),
{
}

/// The key a signer signs with is the bytes the account key's text
/// encodes: decoding gives back the bytes whose base64 the text is.
pub proof fn law_the_decoded_key_encodes_back_to_its_text(text: Seq<char>)
    ensures
        base64_decoded(text) matches Some(bytes) ==> base64_encoded(bytes) == text,
        (exists|bytes: Seq<u8>| base64_encoded(bytes) == text) ==> base64_decoded(text) is Some,
{
}

/// The value of the first header named `name`, case aside, or nothing.
pub open spec fn header_text(r: RequestView, name: Seq<char>) -> Seq<char> {
    match r.header(name) {
        Some(v) => v,
        None => seq![],
    }
}

/// The string to sign is laid out as Azure documents it, a line each: the
/// verb; Content-Encoding, Content-Language, Content-Length (the body's
/// length, nothing for an empty body), Content-MD5, Content-Type, Date,
/// If-Modified-Since, If-Match, If-None-Match, If-Unmodified-Since and
/// Range; the `x-ms-` headers as `name:value`; and `/account/path` with the
/// query.
pub proof fn law_the_string_to_sign_is_laid_out_as_azure_documents(
    account: Seq<char>,
    r: RequestView,
)
    ensures
        ({
            let l = lines_to_sign(account, r);
            let x = sorted_pairs(canonical_headers(r.headers));
            &&& string_to_sign_of(account, r) == join_lines(l)
            &&& l.len() == 13 + x.len()
            &&& l[0] == r.method
            &&& l[1] == header_text(r, "content-encoding"@)
            &&& l[2] == header_text(r, "content-language"@)
            &&& l[3] == (if r.body.len() == 0 {
                seq![]
            } else {
                decimal(r.body.len())
            })
            &&& l[4] == header_text(r, "content-md5"@)
            &&& l[5] == header_text(r, "content-type"@)
            &&& l[6] == header_text(r, "date"@)
            &&& l[7] == header_text(r, "if-modified-since"@)
            &&& l[8] == header_text(r, "if-match"@)
            &&& l[9] == header_text(r, "if-none-match"@)
            &&& l[10] == header_text(r, "if-unmodified-since"@)
            &&& l[11] == header_text(r, "range"@)
            &&& forall|k: int| 0 <= k < x.len() ==> l[12 + k] == (#[trigger] x[k]).0 + seq![':']
                + x[k].1
            &&& l[12 + x.len() as int] == seq!['/'] + account + r.path + concat_all(
                query_lines(sorted_pairs(lowered_names(r.query))),
            )
        }),
{
    broadcast use vstd::seq_lib::group_to_multiset_ensures;

    let x = sorted_pairs(canonical_headers(r.headers));
    lemma_pair_order_total();
    canonical_headers(r.headers).lemma_sort_by_ensures(pair_order());
    assert(x.len() == canonical_headers(r.headers).len()) by {
        assert(x.to_multiset().len() == canonical_headers(r.headers).to_multiset().len());
    }
    let l = lines_to_sign(account, r);
    assert forall|k: int| 0 <= k < x.len() implies l[12 + k] == (#[trigger] x[k]).0 + seq![':']
        + x[k].1 by {
        assert(l[12 + k] == header_lines(x)[k]);
    }
}

} // verus!

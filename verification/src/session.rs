//! The far end: enough of the Blob service to answer one Location, and what
//! a test or the playground puts on loopback.
//!
//! Not Azure. One session holds blobs in memory, verifies every request
//! against one account key, and answers the four calls with the shapes the
//! service answers them — the enumeration, the blob, the error with its
//! code in the body and in `x-ms-error-code`. Accepting a connection and
//! reading and writing the bytes is the caller's; [`Session::answer`] is
//! what the session decides.
use std::time::Duration;

use vstd::prelude::*;
use vstd::utf8::encode_utf8;

use crate::error::TransportError;
use crate::message::{bare_response, Request, RequestView, Response, ResponseView};
use crate::percent::{decode, percent_decoded};
use crate::shared_key::{base64_decoded, verifies, Signer};
use crate::text::{
    chars_from, chars_of, extend_chars, has_prefix, lex_le_chars, lex_lt, same_chars,
    string_of, trim, text_of, chars_between, lemma_lex_antisymmetric, lemma_lex_total,
    lemma_lex_transitive,
};
use crate::xml::{error, error_of, find_from, find_in, lemma_find_from_found, listing, listing_of};

verus! {

// ---------------------------------------------------------------------------
// What arrives, and what the client did
// ---------------------------------------------------------------------------

/// A Stream that arrived: where it came from, and its bytes.
#[derive(Clone, Debug, PartialEq, Eq)]
pub struct Arrived {
    pub origin_uri: String,
    pub bytes: Vec<u8>,
}

impl Arrived {
    /// The Stream `bytes` from `origin_uri`.
    pub fn new(origin_uri: &str, bytes: Vec<u8>) -> (a: Arrived)
        ensures
            a.origin_uri@ == origin_uri@,
            a.bytes@ == bytes@,
    {
        Arrived { origin_uri: origin_uri.to_string(), bytes }
    }
}

/// What the client did, as [`Session::answer`] reports it.
#[derive(Clone, Debug, PartialEq, Eq)]
pub enum Event {
    /// The client listed `prefix` in `container`.
    Listed { container: String, prefix: String },
    /// The client fetched this blob.
    Retrieved(String),
    /// The client stored a blob; here is the Stream.
    Stored(Arrived),
    /// The client deleted this blob.
    Deleted(String),
    /// The client was answered with this error code.
    Refused(String),
}

/// An event, its strings as sequences.
pub enum EventView {
    Listed { container: Seq<char>, prefix: Seq<char> },
    Retrieved(Seq<char>),
    Stored { origin_uri: Seq<char>, bytes: Seq<u8> },
    Deleted(Seq<char>),
    Refused(Seq<char>),
}

impl View for Event {
    type V = EventView;

    open spec fn view(&self) -> EventView {
        match self {
            Event::Listed { container, prefix } => EventView::Listed {
                container: container@,
                prefix: prefix@,
            },
            Event::Retrieved(o) => EventView::Retrieved(o@),
            Event::Stored(a) => EventView::Stored { origin_uri: a.origin_uri@, bytes: a.bytes@ },
            Event::Deleted(o) => EventView::Deleted(o@),
            Event::Refused(c) => EventView::Refused(c@),
        }
    }
}

/// Where a blob came from, in the protocol's own terms:
/// `azure-blob://container/blob`.
pub open spec fn origin_of(container: Seq<char>, blob: Seq<char>) -> Seq<char> {
    "azure-blob://"@ + container + seq!['/'] + blob
}

/// `azure-blob://container/blob`.
pub fn origin(container: &str, blob: &str) -> (r: String)
    ensures
        r@ == origin_of(container@, blob@),
{
    let mut out = chars_of("azure-blob://");
    crate::text::extend_str(&mut out, container);
    out.push('/');
    crate::text::extend_str(&mut out, blob);
    string_of(&out)
}

// ---------------------------------------------------------------------------
// The blobs held: entries sorted by name
// ---------------------------------------------------------------------------

/// Held blobs as pairs of name and bytes.
pub open spec fn entries_view(v: Seq<(String, Vec<u8>)>) -> Seq<(Seq<char>, Seq<u8>)> {
    v.map_values(|e: (String, Vec<u8>)| (e.0@, e.1@))
}

/// Whether the names strictly increase, as the keys of a `BTreeMap` do.
pub open spec fn strictly_sorted(s: Seq<(Seq<char>, Seq<u8>)>) -> bool {
    forall|i: int, j: int| 0 <= i < j < s.len() ==> lex_lt(#[trigger] s[i].0, #[trigger] s[j].0)
}

/// Whether the entry at `i` is named `name`.
pub open spec fn named_at(s: Seq<(Seq<char>, Seq<u8>)>, name: Seq<char>, i: int) -> bool {
    0 <= i < s.len() && s[i].0 == name
}

/// The bytes held under `name`.
pub open spec fn lookup(s: Seq<(Seq<char>, Seq<u8>)>, name: Seq<char>) -> Option<Seq<u8>> {
    if exists|i: int| named_at(s, name, i) {
        Some(s[choose|i: int| named_at(s, name, i)].1)
    } else {
        None
    }
}

/// The held blobs as a map from name to bytes.
pub open spec fn as_map(s: Seq<(Seq<char>, Seq<u8>)>) -> Map<Seq<char>, Seq<u8>> {
    Map::new(|name: Seq<char>| lookup(s, name) is Some, |name: Seq<char>| lookup(s, name).unwrap())
}

/// In sorted entries, what is named `name` at `i` is what `lookup` finds.
proof fn lemma_lookup_at(s: Seq<(Seq<char>, Seq<u8>)>, name: Seq<char>, i: int)
    requires
        strictly_sorted(s),
        named_at(s, name, i),
    ensures
        lookup(s, name) == Some(s[i].1),
{
    let j = choose|j: int| named_at(s, name, j);
    if j != i {
        if j < i {
            assert(lex_lt(s[j].0, s[i].0));
        } else {
            assert(lex_lt(s[i].0, s[j].0));
        }
    }
}

/// The entries with the one named `name` taken out, where there is one.
pub open spec fn without(s: Seq<(Seq<char>, Seq<u8>)>, name: Seq<char>) -> Seq<(Seq<char>, Seq<u8>)> {
    if exists|i: int| named_at(s, name, i) {
        s.remove(choose|i: int| named_at(s, name, i))
    } else {
        s
    }
}

/// Taking a name out of sorted entries keeps them sorted and takes the
/// name out of what they hold.
pub proof fn lemma_without(s: Seq<(Seq<char>, Seq<u8>)>, name: Seq<char>)
    requires
        strictly_sorted(s),
    ensures
        strictly_sorted(without(s, name)),
        as_map(without(s, name)) == as_map(s).remove(name),
{
    if exists|i: int| named_at(s, name, i) {
        let i = choose|i: int| named_at(s, name, i);
        lemma_take_out(s, i);
    } else {
        assert(as_map(s).remove(name) =~= as_map(s));
    }
}

/// The names under `under`, each cut to what follows its first `cut`
/// characters, in order.
pub open spec fn listed(s: Seq<(Seq<char>, Seq<u8>)>, under: Seq<char>, cut: int) -> Seq<Seq<char>>
    decreases s.len(),
{
    if s.len() == 0 {
        seq![]
    } else {
        let rest = listed(s.drop_last(), under, cut);
        if has_prefix(s.last().0, under) {
            rest.push(s.last().0.skip(cut))
        } else {
            rest
        }
    }
}

/// Where `name` stands among sorted entries, or where it would go.
fn locate(entries: &Vec<(String, Vec<u8>)>, name: &Vec<char>) -> (r: (bool, usize))
    requires
        strictly_sorted(entries_view(entries@)),
    ensures
        r.1 <= entries.len(),
        r.0 ==> r.1 < entries.len() && entries_view(entries@)[r.1 as int].0 == name@,
        !r.0 ==> (forall|k: int| 0 <= k < r.1 ==> lex_lt(#[trigger] entries_view(entries@)[k].0, name@))
            && (forall|k: int| r.1 <= k < entries.len() ==> lex_lt(name@, #[trigger] entries_view(entries@)[k].0)),
{
    let ghost s = entries_view(entries@);
    let mut i: usize = 0;
    while i < entries.len()
        invariant
            i <= entries.len(),
            s == entries_view(entries@),
            strictly_sorted(s),
            forall|k: int| 0 <= k < i ==> lex_lt(#[trigger] s[k].0, name@),
        decreases entries.len() - i,
    {
        let held = chars_of(entries[i].0.as_str());
        assert(s[i as int].0 == held@);
        if same_chars(&held, name) {
            return (true, i);
        }
        if !lex_le_chars(&held, name) {
            proof {
                lemma_lex_total(held@, name@);
                assert forall|k: int| i <= k < entries.len() implies lex_lt(name@, #[trigger] s[k].0) by {
                    if k > i {
                        assert(lex_lt(s[i as int].0, s[k].0));
                        lemma_lex_transitive(name@, held@, s[k].0);
                        if name@ == s[k].0 {
                            lemma_lex_antisymmetric(held@, name@);
                        }
                    }
                }
            }
            return (false, i);
        }
        i = i + 1;
    }
    (false, i)
}

/// Replacing the bytes under a name that is held keeps the entries sorted,
/// and the map changes at that name alone.
proof fn lemma_replace(s: Seq<(Seq<char>, Seq<u8>)>, i: int, bytes: Seq<u8>)
    requires
        strictly_sorted(s),
        0 <= i < s.len(),
    ensures
        strictly_sorted(s.update(i, (s[i].0, bytes))),
        as_map(s.update(i, (s[i].0, bytes))) == as_map(s).insert(s[i].0, bytes),
{
    let name = s[i].0;
    let t = s.update(i, (name, bytes));
    assert(strictly_sorted(t)) by {
        assert forall|a: int, b: int| 0 <= a < b < t.len() implies lex_lt(#[trigger] t[a].0, #[trigger] t[b].0) by {
            assert(lex_lt(s[a].0, s[b].0));
        }
    }
    assert forall|q: Seq<char>| #[trigger] lookup(t, q) == (if q == name { Some(bytes) } else { lookup(s, q) }) by {
        if q == name {
            lemma_lookup_at(t, q, i);
        } else if exists|j: int| named_at(s, q, j) {
            let j = choose|j: int| named_at(s, q, j);
            lemma_lookup_at(s, q, j);
            lemma_lookup_at(t, q, j);
        } else {
            assert forall|j: int| !named_at(t, q, j) by {
                if 0 <= j < t.len() && j != i {
                    assert(!named_at(s, q, j));
                }
            }
        }
    }
    assert(as_map(t) =~= as_map(s).insert(name, bytes));
}

/// Putting a name that is not held where it belongs keeps the entries
/// sorted, and the map gains that name alone.
proof fn lemma_insert(s: Seq<(Seq<char>, Seq<u8>)>, i: int, name: Seq<char>, bytes: Seq<u8>)
    requires
        strictly_sorted(s),
        0 <= i <= s.len(),
        forall|k: int| 0 <= k < i ==> lex_lt(#[trigger] s[k].0, name),
        forall|k: int| i <= k < s.len() ==> lex_lt(name, #[trigger] s[k].0),
    ensures
        strictly_sorted(s.insert(i, (name, bytes))),
        as_map(s.insert(i, (name, bytes))) == as_map(s).insert(name, bytes),
{
    let t = s.insert(i, (name, bytes));
    assert(strictly_sorted(t)) by {
        assert forall|a: int, b: int| 0 <= a < b < t.len() implies lex_lt(#[trigger] t[a].0, #[trigger] t[b].0) by {
            if b < i {
                assert(lex_lt(s[a].0, s[b].0));
            } else if b == i {
                assert(lex_lt(s[a].0, name));
            } else if a == i {
                assert(lex_lt(name, s[b - 1].0));
            } else if a < i {
                assert(lex_lt(s[a].0, name));
                assert(lex_lt(name, s[b - 1].0));
                lemma_lex_transitive(s[a].0, name, s[b - 1].0);
                if s[a].0 == s[b - 1].0 {
                    lemma_lex_antisymmetric(s[a].0, name);
                }
            } else {
                assert(lex_lt(s[a - 1].0, s[b - 1].0));
            }
        }
    }
    assert forall|q: Seq<char>| #[trigger] lookup(t, q) == (if q == name { Some(bytes) } else { lookup(s, q) }) by {
        if q == name {
            lemma_lookup_at(t, q, i);
        } else if exists|j: int| named_at(s, q, j) {
            let j = choose|j: int| named_at(s, q, j);
            lemma_lookup_at(s, q, j);
            if j < i {
                lemma_lookup_at(t, q, j);
            } else {
                lemma_lookup_at(t, q, j + 1);
            }
        } else {
            assert forall|j: int| !named_at(t, q, j) by {
                if 0 <= j < t.len() && j != i {
                    if j < i {
                        assert(!named_at(s, q, j));
                    } else {
                        assert(!named_at(s, q, j - 1));
                    }
                }
            }
        }
    }
    assert(as_map(t) =~= as_map(s).insert(name, bytes));
}

/// Taking out the entry at `i` keeps the entries sorted, and the map loses
/// that name alone.
proof fn lemma_take_out(s: Seq<(Seq<char>, Seq<u8>)>, i: int)
    requires
        strictly_sorted(s),
        0 <= i < s.len(),
    ensures
        strictly_sorted(s.remove(i)),
        as_map(s.remove(i)) == as_map(s).remove(s[i].0),
{
    let name = s[i].0;
    let t = s.remove(i);
    assert(strictly_sorted(t)) by {
        assert forall|a: int, b: int| 0 <= a < b < t.len() implies lex_lt(#[trigger] t[a].0, #[trigger] t[b].0) by {
            if b < i {
                assert(lex_lt(s[a].0, s[b].0));
            } else if a < i {
                assert(lex_lt(s[a].0, s[b + 1].0));
            } else {
                assert(lex_lt(s[a + 1].0, s[b + 1].0));
            }
        }
    }
    assert forall|q: Seq<char>| #[trigger] lookup(t, q) == (if q == name { None } else { lookup(s, q) }) by {
        if exists|j: int| named_at(s, q, j) {
            let j = choose|j: int| named_at(s, q, j);
            lemma_lookup_at(s, q, j);
            if j < i {
                lemma_lookup_at(t, q, j);
                assert(lex_lt(s[j].0, s[i].0));
            } else if j > i {
                lemma_lookup_at(t, q, j - 1);
                assert(lex_lt(s[i].0, s[j].0));
            } else {
                assert forall|k: int| !named_at(t, q, k) by {
                    if 0 <= k < t.len() {
                        if k < i {
                            assert(lex_lt(s[k].0, s[i].0));
                        } else {
                            assert(lex_lt(s[i].0, s[k + 1].0));
                        }
                    }
                }
            }
        } else {
            assert forall|k: int| !named_at(t, q, k) by {
                if 0 <= k < t.len() {
                    if k < i {
                        assert(!named_at(s, q, k));
                    } else {
                        assert(!named_at(s, q, k + 1));
                    }
                }
            }
        }
    }
    assert(as_map(t) =~= as_map(s).remove(name));
}

/// Holds `bytes` under `name`, in place of what was held there.
fn store_put(entries: &mut Vec<(String, Vec<u8>)>, name: &Vec<char>, bytes: Vec<u8>)
    requires
        strictly_sorted(entries_view(old(entries)@)),
    ensures
        strictly_sorted(entries_view(final(entries)@)),
        as_map(entries_view(final(entries)@)) == as_map(entries_view(old(entries)@)).insert(
            name@,
            bytes@,
        ),
{
    let ghost s = entries_view(entries@);
    let (found, i) = locate(entries, name);
    if found {
        let held = entries.remove(i);
        entries.insert(i, (held.0, bytes));
        proof {
            assert(entries_view(entries@) =~= s.update(i as int, (s[i as int].0, bytes@)));
            lemma_replace(s, i as int, bytes@);
        }
    } else {
        entries.insert(i, (string_of(name), bytes));
        proof {
            assert(entries_view(entries@) =~= s.insert(i as int, (name@, bytes@)));
            lemma_insert(s, i as int, name@, bytes@);
        }
    }
}

/// Stops holding `name`; whether it was held.
fn store_delete(entries: &mut Vec<(String, Vec<u8>)>, name: &Vec<char>) -> (found: bool)
    requires
        strictly_sorted(entries_view(old(entries)@)),
    ensures
        found == (lookup(entries_view(old(entries)@), name@) is Some),
        strictly_sorted(entries_view(final(entries)@)),
        as_map(entries_view(final(entries)@)) == as_map(entries_view(old(entries)@)).remove(name@),
{
    let ghost s = entries_view(entries@);
    let (found, i) = locate(entries, name);
    if found {
        entries.remove(i);
        proof {
            lemma_lookup_at(s, name@, i as int);
            assert(entries_view(entries@) =~= s.remove(i as int));
            lemma_take_out(s, i as int);
        }
        true
    } else {
        proof {
            assert forall|j: int| !named_at(s, name@, j) by {
                if 0 <= j < s.len() {
                    if j < i {
                        assert(lex_lt(s[j].0, name@));
                    } else {
                        assert(lex_lt(name@, s[j].0));
                    }
                }
            }
            assert(as_map(s).remove(name@) =~= as_map(s));
        }
        false
    }
}

/// The bytes held under `name`.
fn store_get<'a>(entries: &'a Vec<(String, Vec<u8>)>, name: &Vec<char>) -> (r: Option<&'a Vec<u8>>)
    requires
        strictly_sorted(entries_view(entries@)),
    ensures
        match r {
            Some(bytes) => lookup(entries_view(entries@), name@) == Some(bytes@),
            None => lookup(entries_view(entries@), name@) is None,
        },
{
    let ghost s = entries_view(entries@);
    let (found, i) = locate(entries, name);
    if found {
        proof {
            lemma_lookup_at(s, name@, i as int);
        }
        Some(&entries[i].1)
    } else {
        proof {
            assert forall|j: int| !named_at(s, name@, j) by {
                if 0 <= j < s.len() {
                    if j < i {
                        assert(lex_lt(s[j].0, name@));
                    } else {
                        assert(lex_lt(name@, s[j].0));
                    }
                }
            }
        }
        None
    }
}

/// The names held under `under`, each cut to what follows its first `cut`
/// characters, in the order held.
fn store_list(entries: &Vec<(String, Vec<u8>)>, under: &Vec<char>, cut: usize) -> (r: Vec<String>)
    requires
        cut <= under@.len(),
    ensures
        r@.map_values(|n: String| n@) == listed(entries_view(entries@), under@, cut as int),
{
    let ghost s = entries_view(entries@);
    let mut names: Vec<String> = Vec::new();
    let mut i: usize = 0;
    while i < entries.len()
        invariant
            i <= entries.len(),
            s == entries_view(entries@),
            cut <= under@.len(),
            names@.map_values(|n: String| n@) == listed(s.take(i as int), under@, cut as int),
        decreases entries.len() - i,
    {
        let held = chars_of(entries[i].0.as_str());
        let ghost before = names@;
        proof {
            assert(s.take(i + 1).drop_last() =~= s.take(i as int));
            assert(s.take(i + 1).last() == s[i as int]);
        }
        if crate::text::starts_with(&held, under) {
            let tail = chars_from(&held, cut);
            names.push(string_of(&tail));
            proof {
                assert(names@.map_values(|n: String| n@) =~= before.map_values(|n: String| n@).push(
                    tail@,
                ));
            }
        }
        i = i + 1;
    }
    proof {
        assert(s.take(entries.len() as int) =~= s);
    }
    names
}

// ---------------------------------------------------------------------------
// What the session answers
// ---------------------------------------------------------------------------

/// The path of `r`, percent-decoded.
pub open spec fn decoded_path(r: RequestView) -> Seq<char> {
    text_of(percent_decoded(encode_utf8(r.path)))
}

/// `s` without its leading slashes.
pub open spec fn strip_slashes(s: Seq<char>) -> Seq<char>
    decreases s.len(),
{
    if s.len() > 0 && s[0] == '/' {
        strip_slashes(s.drop_first())
    } else {
        s
    }
}

/// `s` split at its first slash, or all of `s` and nothing.
pub open spec fn split_at_slash(s: Seq<char>) -> (Seq<char>, Seq<char>) {
    match find_from(s, seq!['/'], 0) {
        Some(i) => (s.take(i), s.skip(i + 1)),
        None => (s, seq![]),
    }
}

/// The container and the blob a request names.
pub open spec fn target_of(r: RequestView) -> (Seq<char>, Seq<char>) {
    split_at_slash(strip_slashes(decoded_path(r)))
}

/// Why `verify` refuses `r`.
pub open spec fn verify_failure(r: RequestView) -> Seq<char> {
    if r.header("authorization"@) is None {
        "a request with no Authorization"@
    } else {
        "a signature that does not match"@
    }
}

/// A refusal: the event naming the code, and the error response.
pub open spec fn refusal(status: u16, code: Seq<char>, message: Seq<char>) -> (EventView, ResponseView) {
    (
        EventView::Refused(code),
        bare_response(status).with_header("Content-Type"@, "application/xml"@).with_header(
            "x-ms-error-code"@,
            code,
        ).with_body(encode_utf8(error_of(code, message))),
    )
}

/// The full name a blob is held under: `container/blob`.
pub open spec fn held_name(container: Seq<char>, blob: Seq<char>) -> Seq<char> {
    container + seq!['/'] + blob
}

/// The calls a request can be.
pub enum Call {
    /// It does not carry this session's signature.
    Unauthenticated,
    /// It names no container.
    NoContainer,
    /// A listing of a container.
    List,
    /// Fetching a blob.
    Get,
    /// Storing a blob.
    Put,
    /// Deleting a blob.
    Delete,
    /// Anything else.
    Unsupported,
}

/// Which call `r` is, to a session signing as `account` with `key`.
pub open spec fn call_of(account: Seq<char>, key: Seq<u8>, r: RequestView) -> Call {
    let (container, blob) = target_of(r);
    if !verifies(account, key, r) {
        Call::Unauthenticated
    } else if container.len() == 0 {
        Call::NoContainer
    } else if r.method == "GET"@ && blob.len() == 0 && r.query_param("comp"@) == Some("list"@) {
        Call::List
    } else if r.method == "GET"@ && blob.len() > 0 {
        Call::Get
    } else if r.method == "PUT"@ && blob.len() > 0 {
        Call::Put
    } else if r.method == "DELETE"@ && blob.len() > 0 {
        Call::Delete
    } else {
        Call::Unsupported
    }
}

/// The prefix a listing asks for: its `prefix` parameter, or nothing.
pub open spec fn prefix_of(r: RequestView) -> Seq<char> {
    match r.query_param("prefix"@) {
        Some(p) => p,
        None => seq![],
    }
}

/// What a session answers to `r` while it holds `blobs`, signing as
/// `account` with `key`.
pub open spec fn answer_of(
    account: Seq<char>,
    key: Seq<u8>,
    blobs: Seq<(Seq<char>, Seq<u8>)>,
    r: RequestView,
) -> (EventView, ResponseView) {
    let (container, blob) = target_of(r);
    let name = held_name(container, blob);
    match call_of(account, key, r) {
        Call::Unauthenticated => refusal(403, "AuthenticationFailed"@, verify_failure(r)),
        Call::NoContainer => refusal(400, "InvalidUri"@, "a request naming no container"@),
        Call::List => (
            EventView::Listed { container, prefix: prefix_of(r) },
            bare_response(200).with_header("Content-Type"@, "application/xml"@).with_body(
                encode_utf8(
                    listing_of(
                        container,
                        prefix_of(r),
                        listed(blobs, held_name(container, prefix_of(r)), (container.len() + 1) as int),
                    ),
                ),
            ),
        ),
        Call::Get => match lookup(blobs, name) {
            Some(bytes) => (
                EventView::Retrieved(origin_of(container, blob)),
                bare_response(200).with_header("Content-Type"@, "application/octet-stream"@).with_header(
                    "x-ms-blob-type"@,
                    "BlockBlob"@,
                ).with_body(bytes),
            ),
            None => refusal(404, "BlobNotFound"@, "The specified blob does not exist."@),
        },
        Call::Put => (
            EventView::Stored { origin_uri: origin_of(container, blob), bytes: r.body },
            bare_response(201).with_header("ETag"@, "\"xmip\""@),
        ),
        Call::Delete => if lookup(blobs, name) is Some {
            (EventView::Deleted(origin_of(container, blob)), bare_response(202))
        } else {
            refusal(404, "BlobNotFound"@, "The specified blob does not exist."@)
        },
        Call::Unsupported => refusal(405, "UnsupportedHttpVerb"@, "not one of the four calls"@),
    }
}

/// What a session holds after answering `r`, having held `blobs`.
pub open spec fn blobs_after(
    account: Seq<char>,
    key: Seq<u8>,
    blobs: Map<Seq<char>, Seq<u8>>,
    r: RequestView,
) -> Map<Seq<char>, Seq<u8>> {
    let (container, blob) = target_of(r);
    match call_of(account, key, r) {
        Call::Put => blobs.insert(held_name(container, blob), r.body),
        Call::Delete => blobs.remove(held_name(container, blob)),
        _ => blobs,
    }
}

/// A refusal: the event naming the code, and the error response.
fn refused(status: u16, code: &str, message: &str) -> (r: (Event, Response))
    ensures
        (r.0@, r.1@) == refusal(status, code@, message@),
{
    let body = error(code, message);
    let response = Response::new(status).header("Content-Type", "application/xml").header(
        "x-ms-error-code",
        code,
    ).body(body.as_str().as_bytes());
    (Event::Refused(code.to_string()), response)
}

/// `s` without its leading slashes.
fn stripped_of_slashes(s: &Vec<char>) -> (r: Vec<char>)
    ensures
        r@ == strip_slashes(s@),
{
    let mut i: usize = 0;
    assert(s@.skip(0) =~= s@);
    while i < s.len() && s[i] == '/'
        invariant
            i <= s.len(),
            strip_slashes(s@) == strip_slashes(s@.skip(i as int)),
        decreases s.len() - i,
    {
        assert(s@.skip(i as int).drop_first() =~= s@.skip(i + 1));
        i = i + 1;
    }
    chars_from(s, i)
}

/// `s` split at its first slash.
fn split_slash(s: &Vec<char>) -> (r: (Vec<char>, Vec<char>))
    ensures
        (r.0@, r.1@) == split_at_slash(s@),
{
    let mut slash: Vec<char> = Vec::new();
    slash.push('/');
    assert(slash@ =~= seq!['/']);
    match find_in(s, &slash, 0) {
        Some(i) => {
            proof {
                lemma_find_from_found(s@, slash@, 0);
            }
            let head = chars_between(s, 0, i);
            assert(head@ =~= s@.take(i as int));
            (head, chars_from(s, i + 1))
        },
        None => (chars_from(s, 0), Vec::new()),
    }
}

/// Whether the string is exactly `expected`.
fn is(s: &str, expected: &str) -> (r: bool)
    ensures
        r == (s@ == expected@),
{
    same_chars(&chars_of(s), &chars_of(expected))
}

/// The session: the signer requests are checked against, the blobs held
/// sorted by name, and how long to wait on a client.
///
/// The blobs are a `Vec` kept strictly sorted by name, as the type
/// invariant states, so that what is held reads as a map by name.
#[derive(Debug)]
pub struct Session {
    signer: Signer,
    blobs: Vec<(String, Vec<u8>)>,
    timeout: Option<Duration>,
}

impl Session {
    #[verifier::type_invariant]
    spec fn sorted_by_name(self) -> bool {
        strictly_sorted(entries_view(self.blobs@))
    }

    /// The account and key requests must be signed with.
    pub closed spec fn signer(&self) -> Signer {
        self.signer
    }

    /// The blobs held, name and bytes, in the order of their names.
    pub closed spec fn entries(&self) -> Seq<(Seq<char>, Seq<u8>)> {
        entries_view(self.blobs@)
    }

    /// The blobs held, by name.
    pub open spec fn held(&self) -> Map<Seq<char>, Seq<u8>> {
        as_map(self.entries())
    }

    /// How long to wait on a client, if at all.
    pub closed spec fn timeout_spec(&self) -> Option<Duration> {
        self.timeout
    }

    /// How long to wait on a client, if at all.
    pub fn timeout(&self) -> (r: Option<Duration>)
        ensures
            r == self.timeout_spec(),
    {
        self.timeout
    }

    /// Answer requests signed as `account` with its key, base64.
    ///
    /// # Errors
    /// Where `key_base64` is not base64.
    pub fn new(account: &str, key_base64: &str) -> (r: Result<Session, TransportError>)
        ensures
            match r {
                Ok(s) => s.signer().account() == account@ && base64_decoded(trim(key_base64@))
                    == Some(s.signer().key()) && s.held() == Map::<Seq<char>, Seq<u8>>::empty()
                    && s.timeout_spec() is None,
                Err(e) => base64_decoded(trim(key_base64@)) is None && !e.retryable && has_prefix(
                    e.message@,
                    "an account key that is not base64: "@,
                ),
            },
    {
        let signer = Signer::new(account, key_base64)?;
        let s = Session { signer, blobs: Vec::new(), timeout: None };
        proof {
            assert(s.entries() =~= seq![]);
            assert(s.held() =~= Map::<Seq<char>, Seq<u8>>::empty());
        }
        Ok(s)
    }

    /// Give up on a client that stops mid-request after `timeout`.
    pub fn timing_out_after(self, timeout: Duration) -> (r: Session)
        ensures
            r.signer() == self.signer(),
            r.entries() == self.entries(),
            r.timeout_spec() == Some(timeout),
    {
        proof {
            use_type_invariant(&self);
        }
        let mut r = self;
        r.timeout = Some(timeout);
        r
    }

    /// Hold these blobs, keyed `container/blob`, in place of any held; where
    /// a name comes twice, the later bytes are held.
    pub fn with_blobs(self, blobs: Vec<(String, Vec<u8>)>) -> (r: Session)
        ensures
            r.signer() == self.signer(),
            r.timeout_spec() == self.timeout_spec(),
            r.held() == pairs_map(entries_view(blobs@)),
    {
        let ghost given = entries_view(blobs@);
        let mut held: Vec<(String, Vec<u8>)> = Vec::new();
        let mut i: usize = 0;
        proof {
            assert(entries_view(held@) =~= seq![]);
            assert(as_map(entries_view(held@)) =~= pairs_map(given.take(0)));
        }
        while i < blobs.len()
            invariant
                i <= blobs.len(),
                given == entries_view(blobs@),
                strictly_sorted(entries_view(held@)),
                as_map(entries_view(held@)) == pairs_map(given.take(i as int)),
            decreases blobs.len() - i,
        {
            let name = chars_of(blobs[i].0.as_str());
            let bytes = vstd::slice::slice_to_vec(blobs[i].1.as_slice());
            store_put(&mut held, &name, bytes);
            proof {
                assert(given.take(i + 1).drop_last() =~= given.take(i as int));
                assert(given.take(i + 1).last() == given[i as int]);
            }
            i = i + 1;
        }
        proof {
            assert(given.take(blobs.len() as int) =~= given);
        }
        Session { signer: self.signer, blobs: held, timeout: self.timeout }
    }

    /// What is held now, name and bytes, in the order of the names.
    pub fn blobs(&self) -> (r: &Vec<(String, Vec<u8>)>)
        ensures
            entries_view(r@) == self.entries(),
    {
        &self.blobs
    }

    /// Answer one request: say what it was and what goes back, storing or
    /// deleting what it asks to. A request that does not carry this
    /// session's signature is refused before anything else is looked at.
    pub fn answer(&mut self, request: &Request) -> (r: (Event, Response))
        ensures
            (r.0@, r.1@) == answer_of(
                old(self).signer().account(),
                old(self).signer().key(),
                old(self).entries(),
                request@,
            ),
            final(self).held() == blobs_after(
                old(self).signer().account(),
                old(self).signer().key(),
                old(self).held(),
                request@,
            ),
            final(self).signer() == old(self).signer(),
            final(self).timeout_spec() == old(self).timeout_spec(),
    {
        proof {
            use_type_invariant(&*self);
        }
        if let Err(failure) = self.signer.verify(request) {
            return refused(403, "AuthenticationFailed", failure.message.as_str());
        }
        let path = decode(request.path.as_str());
        let rest = stripped_of_slashes(&chars_of(path.as_str()));
        let (container, blob) = split_slash(&rest);
        let ghost target = target_of(request@);
        assert(container@ == target.0 && blob@ == target.1);
        if container.len() == 0 {
            return refused(400, "InvalidUri", "a request naming no container");
        }
        let listing_asked = match request.query_value("comp") {
            Some(v) => is(v, "list"),
            None => false,
        };
        let method = request.method.as_str();
        if is(method, "GET") && blob.len() == 0 && listing_asked {
            self.list(&container, request)
        } else if is(method, "GET") && blob.len() > 0 {
            self.get(&container, &blob)
        } else if is(method, "PUT") && blob.len() > 0 {
            self.put(&container, &blob, request)
        } else if is(method, "DELETE") && blob.len() > 0 {
            self.delete(&container, &blob)
        } else {
            proof {
                assert(self.held() == old(self).held());
            }
            refused(405, "UnsupportedHttpVerb", "not one of the four calls")
        }
    }

    /// The names under the requested prefix in `container`, as an
    /// enumeration.
    fn list(&self, container: &Vec<char>, request: &Request) -> (r: (Event, Response))
        requires
            container@.len() > 0,
        ensures
            r.0@ == (EventView::Listed { container: container@, prefix: prefix_of(request@) }),
            r.1@ == bare_response(200).with_header("Content-Type"@, "application/xml"@).with_body(
                encode_utf8(
                    listing_of(
                        container@,
                        prefix_of(request@),
                        listed(
                            self.entries(),
                            held_name(container@, prefix_of(request@)),
                            (container@.len() + 1) as int,
                        ),
                    ),
                ),
            ),
    {
        let prefix = match request.query_value("prefix") {
            Some(p) => p.to_string(),
            None => String::new(),
        };
        let mut under = container.clone();
        proof {
            assert(under@ =~= container@);
        }
        under.push('/');
        crate::text::extend_str(&mut under, prefix.as_str());
        assert(under@ =~= held_name(container@, prefix@));
        let held_len = under.len();
        assert(held_len >= container@.len() + 1);
        let cut: usize = container.len() + 1;
        let names = store_list(&self.blobs, &under, cut);
        let container_text = string_of(container);
        let document = listing(container_text.as_str(), prefix.as_str(), names.as_slice());
        let response = Response::new(200).header("Content-Type", "application/xml").body(
            document.as_str().as_bytes(),
        );
        (Event::Listed { container: container_text, prefix }, response)
    }

    /// The blob `container/blob`, or a refusal where there is none.
    fn get(&self, container: &Vec<char>, blob: &Vec<char>) -> (r: (Event, Response))
        ensures
            (r.0@, r.1@) == (match lookup(self.entries(), held_name(container@, blob@)) {
                Some(bytes) => (
                    EventView::Retrieved(origin_of(container@, blob@)),
                    bare_response(200).with_header("Content-Type"@, "application/octet-stream"@).with_header(
                        "x-ms-blob-type"@,
                        "BlockBlob"@,
                    ).with_body(bytes),
                ),
                None => refusal(404, "BlobNotFound"@, "The specified blob does not exist."@),
            }),
    {
        proof {
            use_type_invariant(self);
        }
        let name = name_of(container, blob);
        match store_get(&self.blobs, &name) {
            Some(bytes) => {
                let origin_uri = origin(string_of(container).as_str(), string_of(blob).as_str());
                let response = Response::new(200).header("Content-Type", "application/octet-stream")
                    .header("x-ms-blob-type", "BlockBlob").body(bytes.as_slice());
                (Event::Retrieved(origin_uri), response)
            },
            None => refused(404, "BlobNotFound", "The specified blob does not exist."),
        }
    }

    /// Store the body of `request` as `container/blob`.
    fn put(&mut self, container: &Vec<char>, blob: &Vec<char>, request: &Request) -> (r: (Event, Response))
        ensures
            (r.0@, r.1@) == (
                EventView::Stored { origin_uri: origin_of(container@, blob@), bytes: request@.body },
                bare_response(201).with_header("ETag"@, "\"xmip\""@),
            ),
            final(self).held() == old(self).held().insert(held_name(container@, blob@), request@.body),
            final(self).signer() == old(self).signer(),
            final(self).timeout_spec() == old(self).timeout_spec(),
    {
        proof {
            use_type_invariant(&*self);
        }
        let name = name_of(container, blob);
        let bytes = vstd::slice::slice_to_vec(request.body.as_slice());
        let mut blobs: Vec<(String, Vec<u8>)> = Vec::new();
        std::mem::swap(&mut blobs, &mut self.blobs);
        store_put(&mut blobs, &name, bytes);
        self.blobs = blobs;
        let origin_uri = origin(string_of(container).as_str(), string_of(blob).as_str());
        let stored = vstd::slice::slice_to_vec(request.body.as_slice());
        (Event::Stored(Arrived::new(origin_uri.as_str(), stored)), Response::new(201).header("ETag", "\"xmip\""))
    }

    /// Delete `container/blob`, or refuse where there is none: unlike S3,
    /// the Blob service says when there was nothing to delete.
    fn delete(&mut self, container: &Vec<char>, blob: &Vec<char>) -> (r: (Event, Response))
        ensures
            (r.0@, r.1@) == (if lookup(old(self).entries(), held_name(container@, blob@)) is Some {
                (EventView::Deleted(origin_of(container@, blob@)), bare_response(202))
            } else {
                refusal(404, "BlobNotFound"@, "The specified blob does not exist."@)
            }),
            final(self).held() == old(self).held().remove(held_name(container@, blob@)),
            final(self).signer() == old(self).signer(),
            final(self).timeout_spec() == old(self).timeout_spec(),
    {
        proof {
            use_type_invariant(&*self);
        }
        let name = name_of(container, blob);
        let mut blobs: Vec<(String, Vec<u8>)> = Vec::new();
        std::mem::swap(&mut blobs, &mut self.blobs);
        let found = store_delete(&mut blobs, &name);
        self.blobs = blobs;
        if found {
            let origin_uri = origin(string_of(container).as_str(), string_of(blob).as_str());
            (Event::Deleted(origin_uri), Response::new(202))
        } else {
            refused(404, "BlobNotFound", "The specified blob does not exist.")
        }
    }
}

/// `container/blob`.
fn name_of(container: &Vec<char>, blob: &Vec<char>) -> (r: Vec<char>)
    ensures
        r@ == held_name(container@, blob@),
{
    let mut name = container.clone();
    proof {
        assert(name@ =~= container@);
    }
    name.push('/');
    extend_chars(&mut name, blob);
    name
}

/// The map that pairs give when each is inserted in turn, later over
/// earlier.
pub open spec fn pairs_map(s: Seq<(Seq<char>, Seq<u8>)>) -> Map<Seq<char>, Seq<u8>>
    decreases s.len(),
{
    if s.len() == 0 {
        Map::empty()
    } else {
        pairs_map(s.drop_last()).insert(s.last().0, s.last().1)
    }
}

} // verus!

//! What a client's four calls come to at a session that holds the same
//! account and key: a put stores the bytes, a get gives them back, a delete
//! makes them gone, and a listing names what is held under the prefix.
use vstd::prelude::*;
use vstd::utf8::encode_utf8;

use crate::client::{
    blob_path, encoded, failure_code, failure_message, list_request_of, put_request_of, succeeded,
    worth_repeating,
};
use crate::message::{bare_request, bare_response, find_exact, find_ignoring_case, RequestView};
use crate::percent::{
    lemma_decode_encoded_then, lemma_decode_plain_byte, lemma_encode_utf8_append,
    lemma_encoded_text_bytes, lemma_slash_bytes, percent_decoded, percent_encoded,
};
use crate::session::{
    answer_of, as_map, blobs_after, call_of, held_name, lemma_without, listed, lookup, named_at,
    origin_of, strictly_sorted, without,
    prefix_of, refusal, split_at_slash, strip_slashes, target_of, verify_failure, EventView,
};
use crate::shared_key::{law_signed_request_verifies, signed, verifies};
use crate::{delete_of, get_of, receive_after, receive_started, ReceivingView, Stage, StepView};
use crate::text::{decimal, has_prefix, lower, text_of};
use crate::xml::{
    error_of, find_from, law_error_names_its_code, law_listing_names_its_blobs_back,
    lemma_find_at_end, lemma_find_from_found, lemma_find_skip, lemma_occurs,
    first_of, listing_of, occurs_at, texts_of,
};

verus! {

/// Text with no slash in it: a container's name as the paths here can
/// carry it.
pub open spec fn slash_free(s: Seq<char>) -> bool {
    forall|i: int| 0 <= i < s.len() ==> s[i] != '/'
}

/// The container and blob a session takes a blob path for `c` and `b` to
/// name: the path with its leading slashes off, split at its first slash.
pub open spec fn blob_target(c: Seq<char>, b: Seq<char>) -> (Seq<char>, Seq<char>) {
    split_at_slash(strip_slashes(seq!['/'] + c + seq!['/'] + b))
}

/// Whether the blob path for `c` and `b` names a container and a blob.
pub open spec fn names_a_blob(c: Seq<char>, b: Seq<char>) -> bool {
    blob_target(c, b).0.len() > 0 && blob_target(c, b).1.len() > 0
}

/// Where a needle stands at `j`, a search from at or before `j` finds it
/// there or earlier.
proof fn lemma_found_by(hay: Seq<char>, n: Seq<char>, i: int, j: int)
    requires
        0 <= i <= j,
        occurs_at(hay, n, j),
    ensures
        find_from(hay, n, i) matches Some(k) && i <= k <= j,
    decreases j - i,
{
    if i < j && !occurs_at(hay, n, i) {
        assert(i + n.len() < hay.len()) by {
            assert(j + n.len() <= hay.len());
        }
        lemma_found_by(hay, n, i + 1, j);
    }
}

/// A path that starts with one slash, then a container that does not, has
/// that one slash stripped.
proof fn lemma_strip_one_slash(c: Seq<char>, b: Seq<char>)
    requires
        c.len() > 0,
        c[0] != '/',
    ensures
        strip_slashes(seq!['/'] + c + seq!['/'] + b) == c + seq!['/'] + b,
{
    let full = seq!['/'] + c + seq!['/'] + b;
    let rest = c + seq!['/'] + b;
    assert(full[0] == '/');
    assert(full.drop_first() =~= rest);
    assert(rest[0] == c[0]);
    assert(strip_slashes(rest) == rest);
}

/// Text that does not start with a slash but has one at `j` splits at its
/// first slash into something before it and what follows, at least all
/// that follows `j`.
proof fn lemma_split_before(t: Seq<char>, j: int)
    requires
        0 <= j < t.len(),
        t[j] == '/',
        t[0] != '/',
    ensures
        split_at_slash(t).0.len() > 0,
        split_at_slash(t).1.len() >= t.len() - j - 1,
        split_at_slash(t).0 + seq!['/'] + split_at_slash(t).1 == t,
{
    let slash = seq!['/'];
    assert(occurs_at(t, slash, j)) by {
        assert(t.skip(j).take(1) =~= slash);
    }
    lemma_found_by(t, slash, 0, j);
    lemma_find_from_found(t, slash, 0);
    let k = find_from(t, slash, 0).unwrap();
    assert(t[k] == '/') by {
        assert(t.skip(k).take(1)[0] == t[k]);
    }
    assert(k != 0);
    assert(t.take(k) + slash + t.skip(k + 1) =~= t);
}

/// A container that does not start with a slash and a non-empty blob name
/// a blob, held under `container/blob` and known by that origin, whatever
/// slashes the container holds: `a/b` and `x` are held as `a/b/x`.
pub proof fn law_a_container_and_a_blob_name_the_blob_they_join(c: Seq<char>, b: Seq<char>)
    requires
        c.len() > 0,
        c[0] != '/',
        b.len() > 0,
    ensures
        names_a_blob(c, b),
        held_name(blob_target(c, b).0, blob_target(c, b).1) == held_name(c, b),
        origin_of(blob_target(c, b).0, blob_target(c, b).1) == origin_of(c, b),
{
    let rest = c + seq!['/'] + b;
    lemma_strip_one_slash(c, b);
    assert(rest[c.len() as int] == '/');
    assert(rest[0] == c[0]);
    lemma_split_before(rest, c.len() as int);
    let t = blob_target(c, b);
    assert(t == split_at_slash(rest));
    assert(held_name(c, b) =~= rest);
    assert(origin_of(t.0, t.1) =~= "azure-blob://"@ + held_name(t.0, t.1));
    assert(origin_of(c, b) =~= "azure-blob://"@ + held_name(c, b));
}

/// A container with no slash in it names itself.
proof fn lemma_slash_free_target(c: Seq<char>, b: Seq<char>)
    requires
        c.len() > 0,
        slash_free(c),
        b.len() > 0,
    ensures
        blob_target(c, b) == (c, b),
        names_a_blob(c, b),
{
    lemma_split_after_container(c, b);
}

/// The path of a blob decodes to `/container/blob`.
proof fn lemma_blob_path_decodes(c: Seq<char>, b: Seq<char>)
    ensures
        text_of(percent_decoded(encode_utf8(blob_path(c, b)))) == seq!['/'] + c + seq!['/'] + b,
{
    let e1 = encoded(c, false);
    let e2 = encoded(b, true);
    let p1 = percent_encoded(encode_utf8(c), false);
    let p2 = percent_encoded(encode_utf8(b), true);
    let slash = seq!['/'];
    lemma_slash_bytes();
    lemma_encoded_text_bytes(c, false);
    lemma_encoded_text_bytes(b, true);
    lemma_encode_utf8_append(slash, e1);
    lemma_encode_utf8_append(slash + e1, slash);
    lemma_encode_utf8_append(slash + e1 + slash, e2);
    let bytes = encode_utf8(blob_path(c, b));
    assert(bytes =~= seq![0x2Fu8] + (p1 + (seq![0x2Fu8] + p2)));
    lemma_decode_plain_byte(0x2F, p1 + (seq![0x2Fu8] + p2));
    lemma_decode_encoded_then(encode_utf8(c), false, seq![0x2Fu8] + p2);
    lemma_decode_plain_byte(0x2F, p2);
    lemma_decode_encoded_then(encode_utf8(b), true, seq![]);
    assert(p2 + seq![] =~= p2);
    assert(percent_decoded(seq![]) =~= seq![]);
    let text = slash + c + slash + b;
    lemma_encode_utf8_append(slash, c);
    lemma_encode_utf8_append(slash + c, slash);
    lemma_encode_utf8_append(slash + c + slash, b);
    assert(percent_decoded(bytes) =~= encode_utf8(text));
    vstd::utf8::encode_utf8_valid_utf8(text);
    vstd::utf8::encode_utf8_decode_utf8(text);
}

/// The path of a container decodes to `/container`.
proof fn lemma_container_path_decodes(c: Seq<char>)
    ensures
        text_of(percent_decoded(encode_utf8(seq!['/'] + encoded(c, false)))) == seq!['/'] + c,
{
    let e1 = encoded(c, false);
    let p1 = percent_encoded(encode_utf8(c), false);
    let slash = seq!['/'];
    lemma_slash_bytes();
    lemma_encoded_text_bytes(c, false);
    lemma_encode_utf8_append(slash, e1);
    let bytes = encode_utf8(slash + e1);
    assert(bytes =~= seq![0x2Fu8] + p1);
    lemma_decode_plain_byte(0x2F, p1);
    lemma_decode_encoded_then(encode_utf8(c), false, seq![]);
    assert(p1 + seq![] =~= p1);
    assert(percent_decoded(seq![]) =~= seq![]);
    let text = slash + c;
    lemma_encode_utf8_append(slash, c);
    assert(percent_decoded(bytes) =~= encode_utf8(text));
    vstd::utf8::encode_utf8_valid_utf8(text);
    vstd::utf8::encode_utf8_decode_utf8(text);
}

/// A slash-free, non-empty container then a slash and anything: split at
/// the first slash, the container and the rest.
proof fn lemma_split_after_container(c: Seq<char>, b: Seq<char>)
    requires
        c.len() > 0,
        slash_free(c),
    ensures
        split_at_slash(strip_slashes(seq!['/'] + c + seq!['/'] + b)) == (c, b),
        split_at_slash(strip_slashes(seq!['/'] + c)) == (c, Seq::<char>::empty()),
{
    let slash = seq!['/'];
    let full = slash + c + slash + b;
    let rest = c + slash + b;
    assert(full[0] == '/');
    assert(full.drop_first() =~= rest);
    assert(rest[0] == c[0]);
    assert(strip_slashes(rest) == rest);
    assert(strip_slashes(full) == rest);
    assert forall|k: int| 0 <= k < c.len() implies !occurs_at(rest, slash, k) by {
        if occurs_at(rest, slash, k) {
            assert(rest.skip(k).take(1)[0] == rest[k]);
            assert(rest[k] == c[k]);
        }
    }
    lemma_find_skip(rest, slash, 0, c.len() as int);
    lemma_occurs(c, slash, b);
    assert(rest.take(c.len() as int) =~= c);
    assert(rest.skip((c.len() + 1) as int) =~= b);
    let short = slash + c;
    assert(short.drop_first() =~= c);
    assert(c[0] != '/');
    assert(strip_slashes(c) == c);
    assert(strip_slashes(short) == c);
    assert forall|k: int| 0 <= k < c.len() implies !occurs_at(c, slash, k) by {
        if occurs_at(c, slash, k) {
            assert(c.skip(k).take(1)[0] == c[k]);
        }
    }
    lemma_find_skip(c, slash, 0, c.len() as int);
    lemma_find_at_end(c, slash);
}

/// No name looked for by its length is among pairs whose names all have
/// other lengths.
proof fn lemma_find_none_by_length(pairs: Seq<(Seq<char>, Seq<char>)>, name: Seq<char>)
    requires
        forall|i: int| 0 <= i < pairs.len() ==> (#[trigger] pairs[i]).0.len() != name.len(),
    ensures
        find_ignoring_case(pairs, name) is None,
    decreases pairs.len(),
{
    if pairs.len() > 0 {
        assert(lower(pairs[0].0).len() == pairs[0].0.len());
        assert(lower(name).len() == name.len());
        assert forall|i: int| 0 <= i < pairs.drop_first().len() implies (
        #[trigger] pairs.drop_first()[i]).0.len() != name.len() by {
            assert(pairs.drop_first()[i] == pairs[i + 1]);
        }
        lemma_find_none_by_length(pairs.drop_first(), name);
    }
}

/// A request this client makes carries no `Authorization` before it is
/// signed.
proof fn lemma_unsigned(r: RequestView)
    requires
        forall|i: int| 0 <= i < r.headers.len() ==> (#[trigger] r.headers[i]).0.len() != 13,
    ensures
        r.header("authorization"@) is None,
{
    reveal_strlit("authorization");
    lemma_find_none_by_length(r.headers, "authorization"@);
}

/// The literals the calls are told apart by.
proof fn lemma_literals()
    ensures
        "GET"@ != "PUT"@,
        "GET"@ != "DELETE"@,
        "PUT"@ != "DELETE"@,
        "Host"@.len() == 4,
        "Content-Type"@.len() == 12,
        "x-ms-blob-type"@.len() == 14,
        "restype"@ != "comp"@,
        "restype"@ != "prefix"@,
        "comp"@ != "prefix"@,
{
    reveal_strlit("GET");
    reveal_strlit("PUT");
    reveal_strlit("DELETE");
    reveal_strlit("Host");
    reveal_strlit("Content-Type");
    reveal_strlit("x-ms-blob-type");
    reveal_strlit("restype");
    reveal_strlit("comp");
    reveal_strlit("prefix");
    assert("GET"@[0] != "PUT"@[0]);
    assert("comp"@.len() != "prefix"@.len());
}

/// What a client sends for `method` on `container/blob`, naming `host` and
/// signed at `at`.
pub open spec fn blob_call(
    account: Seq<char>,
    key: Seq<u8>,
    method: Seq<char>,
    c: Seq<char>,
    b: Seq<char>,
    host: Seq<char>,
    at: Seq<char>,
) -> RequestView {
    signed(account, key, bare_request(method, blob_path(c, b)).with_header("Host"@, host), at)
}

/// What a client sends to store `bytes` as `container/blob`.
pub open spec fn put_call(
    account: Seq<char>,
    key: Seq<u8>,
    c: Seq<char>,
    b: Seq<char>,
    bytes: Seq<u8>,
    host: Seq<char>,
    at: Seq<char>,
) -> RequestView {
    signed(account, key, put_request_of(c, b, bytes).with_header("Host"@, host), at)
}

/// What a client sends to list `prefix` in `container`.
pub open spec fn list_call(
    account: Seq<char>,
    key: Seq<u8>,
    c: Seq<char>,
    prefix: Seq<char>,
    host: Seq<char>,
    at: Seq<char>,
) -> RequestView {
    signed(account, key, list_request_of(c, prefix).with_header("Host"@, host), at)
}

/// A client's put reaches a session with the same account and key as a put
/// of its bytes to the container and blob its path names.
pub proof fn law_put_is_a_put(
    account: Seq<char>,
    key: Seq<u8>,
    c: Seq<char>,
    b: Seq<char>,
    bytes: Seq<u8>,
    host: Seq<char>,
    at: Seq<char>,
)
    requires
        names_a_blob(c, b),
    ensures
        call_of(account, key, put_call(account, key, c, b, bytes, host, at)) is Put,
        target_of(put_call(account, key, c, b, bytes, host, at)) == blob_target(c, b),
        put_call(account, key, c, b, bytes, host, at).body == bytes,
{
    lemma_literals();
    let r = put_request_of(c, b, bytes).with_header("Host"@, host);
    lemma_unsigned(r);
    law_signed_request_verifies(account, key, r, at);
    lemma_blob_path_decodes(c, b);
}

/// A client's get, or delete, reaches a session with the same account and
/// key as that call on the container and blob its path names.
pub proof fn law_get_and_delete_are_what_they_say(
    account: Seq<char>,
    key: Seq<u8>,
    c: Seq<char>,
    b: Seq<char>,
    host: Seq<char>,
    at: Seq<char>,
)
    requires
        names_a_blob(c, b),
    ensures
        call_of(account, key, blob_call(account, key, "GET"@, c, b, host, at)) is Get,
        target_of(blob_call(account, key, "GET"@, c, b, host, at)) == blob_target(c, b),
        call_of(account, key, blob_call(account, key, "DELETE"@, c, b, host, at)) is Delete,
        target_of(blob_call(account, key, "DELETE"@, c, b, host, at)) == blob_target(c, b),
{
    lemma_literals();
    lemma_blob_path_decodes(c, b);
    let g = bare_request("GET"@, blob_path(c, b)).with_header("Host"@, host);
    lemma_unsigned(g);
    law_signed_request_verifies(account, key, g, at);
    let d = bare_request("DELETE"@, blob_path(c, b)).with_header("Host"@, host);
    lemma_unsigned(d);
    law_signed_request_verifies(account, key, d, at);
}

/// A client's listing reaches a session with the same account and key as a
/// listing of its container under its prefix.
pub proof fn law_list_is_a_list(
    account: Seq<char>,
    key: Seq<u8>,
    c: Seq<char>,
    prefix: Seq<char>,
    host: Seq<char>,
    at: Seq<char>,
)
    requires
        c.len() > 0,
        slash_free(c),
    ensures
        call_of(account, key, list_call(account, key, c, prefix, host, at)) is List,
        target_of(list_call(account, key, c, prefix, host, at)).0 == c,
        prefix_of(list_call(account, key, c, prefix, host, at)) == prefix,
{
    lemma_literals();
    let r = list_request_of(c, prefix).with_header("Host"@, host);
    lemma_unsigned(r);
    law_signed_request_verifies(account, key, r, at);
    lemma_container_path_decodes(c);
    lemma_split_after_container(c, seq![]);
    let q = r.query;
    assert(q[0].0 == "restype"@);
    assert(q[1].0 == "comp"@);
    assert(q[2].0 == "prefix"@);
    assert(q.drop_first()[0] == q[1]);
    assert(q.drop_first().drop_first()[0] == q[2]);
    assert(find_exact(q, "comp"@) == find_exact(q.drop_first(), "comp"@));
    assert(find_exact(q, "prefix"@) == find_exact(q.drop_first(), "prefix"@));
    assert(find_exact(q.drop_first(), "prefix"@) == find_exact(
        q.drop_first().drop_first(),
        "prefix"@,
    ));
}

/// What a client puts, it gets back: once a session with the same account
/// and key has answered the put, it answers a get of the same blob with
/// the bytes that were put.
pub proof fn law_what_is_put_is_got_back(
    account: Seq<char>,
    key: Seq<u8>,
    before: Seq<(Seq<char>, Seq<u8>)>,
    after: Seq<(Seq<char>, Seq<u8>)>,
    c: Seq<char>,
    b: Seq<char>,
    bytes: Seq<u8>,
    host: Seq<char>,
    put_at: Seq<char>,
    get_at: Seq<char>,
)
    requires
        names_a_blob(c, b),
        as_map(after) == blobs_after(
            account,
            key,
            as_map(before),
            put_call(account, key, c, b, bytes, host, put_at),
        ),
    ensures
        answer_of(account, key, before, put_call(account, key, c, b, bytes, host, put_at)).0 == (
        EventView::Stored { origin_uri: origin_of(blob_target(c, b).0, blob_target(c, b).1), bytes }),
        answer_of(account, key, after, blob_call(account, key, "GET"@, c, b, host, get_at)) == (
            EventView::Retrieved(origin_of(blob_target(c, b).0, blob_target(c, b).1)),
            bare_response(200).with_header("Content-Type"@, "application/octet-stream"@).with_header(
                "x-ms-blob-type"@,
                "BlockBlob"@,
            ).with_body(bytes),
        ),
{
    law_put_is_a_put(account, key, c, b, bytes, host, put_at);
    law_get_and_delete_are_what_they_say(account, key, c, b, host, get_at);
    let name = held_name(blob_target(c, b).0, blob_target(c, b).1);
    let put = put_call(account, key, c, b, bytes, host, put_at);
    assert(blobs_after(account, key, as_map(before), put) == as_map(before).insert(name, bytes));
    assert(as_map(after).contains_key(name));
    assert(as_map(after)[name] == bytes);
    assert(lookup(after, name) is Some);
    assert(lookup(after, name) == Some(bytes));
}

/// What a client deletes is gone: once a session with the same account and
/// key has answered the delete, a get or another delete of the same blob is
/// answered `404 BlobNotFound`.
pub proof fn law_what_is_deleted_is_gone(
    account: Seq<char>,
    key: Seq<u8>,
    before: Seq<(Seq<char>, Seq<u8>)>,
    after: Seq<(Seq<char>, Seq<u8>)>,
    c: Seq<char>,
    b: Seq<char>,
    host: Seq<char>,
    delete_at: Seq<char>,
    at: Seq<char>,
)
    requires
        names_a_blob(c, b),
        as_map(after) == blobs_after(
            account,
            key,
            as_map(before),
            blob_call(account, key, "DELETE"@, c, b, host, delete_at),
        ),
    ensures
        lookup(before, held_name(blob_target(c, b).0, blob_target(c, b).1)) is Some ==> answer_of(
            account,
            key,
            before,
            blob_call(account, key, "DELETE"@, c, b, host, delete_at),
        ).0 == EventView::Deleted(origin_of(blob_target(c, b).0, blob_target(c, b).1)),
        answer_of(account, key, after, blob_call(account, key, "GET"@, c, b, host, at)) == refusal(
            404,
            "BlobNotFound"@,
            "The specified blob does not exist."@,
        ),
        answer_of(account, key, after, blob_call(account, key, "DELETE"@, c, b, host, at))
            == refusal(404, "BlobNotFound"@, "The specified blob does not exist."@),
{
    law_get_and_delete_are_what_they_say(account, key, c, b, host, delete_at);
    law_get_and_delete_are_what_they_say(account, key, c, b, host, at);
    let name = held_name(blob_target(c, b).0, blob_target(c, b).1);
    assert(!as_map(after).contains_key(name));
    assert(lookup(after, name) is None);
}

/// The names a listing holds are those of the blobs held under the prefix,
/// each with what comes before its cut taken off.
pub proof fn law_listed_names_are_held(s: Seq<(Seq<char>, Seq<u8>)>, under: Seq<char>, cut: int)
    ensures
        forall|x: Seq<char>|
            #![trigger listed(s, under, cut).contains(x)]
            listed(s, under, cut).contains(x) <==> exists|i: int|
                0 <= i < s.len() && has_prefix(#[trigger] s[i].0, under) && s[i].0.skip(cut) == x,
    decreases s.len(),
{
    if s.len() > 0 {
        let rest = s.drop_last();
        let l = listed(s, under, cut);
        let lr = listed(rest, under, cut);
        let last = s.len() - 1;
        law_listed_names_are_held(rest, under, cut);
        assert(s[last] == s.last());
        assert forall|x: Seq<char>| #[trigger] l.contains(x) implies exists|i: int|
            0 <= i < s.len() && has_prefix(#[trigger] s[i].0, under) && s[i].0.skip(cut) == x by {
            let j = choose|j: int| 0 <= j < l.len() && l[j] == x;
            if has_prefix(s.last().0, under) && j == lr.len() {
                assert(l[j] == s.last().0.skip(cut));
                assert(has_prefix(s[last].0, under) && s[last].0.skip(cut) == x);
            } else {
                assert(l[j] == lr[j]);
                assert(lr.contains(x));
                let i = choose|i: int|
                    0 <= i < rest.len() && has_prefix(#[trigger] rest[i].0, under) && rest[i].0.skip(
                        cut,
                    ) == x;
                assert(s[i] == rest[i]);
            }
        }
        assert forall|x: Seq<char>|
            (exists|i: int|
                0 <= i < s.len() && has_prefix(#[trigger] s[i].0, under) && s[i].0.skip(cut) == x)
                implies #[trigger] l.contains(x) by {
            let i = choose|i: int|
                0 <= i < s.len() && has_prefix(#[trigger] s[i].0, under) && s[i].0.skip(cut) == x;
            if i < last {
                assert(rest[i] == s[i]);
                assert(lr.contains(x));
                let j = choose|j: int| 0 <= j < lr.len() && lr[j] == x;
                if has_prefix(s.last().0, under) {
                    assert(l[j] == lr[j]);
                }
                assert(l[j] == x);
            } else {
                assert(l[lr.len() as int] == x);
            }
        }
    }
}

/// A client's listing, answered by a session with the same account and
/// key, reads back as the names held under the container and prefix, in
/// the order they are held, with `container/` taken off.
pub proof fn law_listing_reads_back_what_is_held(
    account: Seq<char>,
    key: Seq<u8>,
    s: Seq<(Seq<char>, Seq<u8>)>,
    c: Seq<char>,
    prefix: Seq<char>,
    host: Seq<char>,
    at: Seq<char>,
)
    requires
        c.len() > 0,
        slash_free(c),
    ensures
        texts_of(
            text_of(answer_of(account, key, s, list_call(account, key, c, prefix, host, at)).1.body),
            "Name"@,
        ) == listed(s, held_name(c, prefix), (c.len() + 1) as int),
{
    law_list_is_a_list(account, key, c, prefix, host, at);
    let names = listed(s, held_name(c, prefix), (c.len() + 1) as int);
    let doc = listing_of(c, prefix, names);
    vstd::utf8::encode_utf8_valid_utf8(doc);
    vstd::utf8::encode_utf8_decode_utf8(doc);
    law_listing_names_its_blobs_back(c, prefix, names);
}

/// A request that does not carry the session's signature is refused with
/// `403 AuthenticationFailed` before anything else is looked at, and what
/// the session holds stays as it was.
pub proof fn law_an_unsigned_request_is_refused_and_changes_nothing(
    account: Seq<char>,
    key: Seq<u8>,
    s: Seq<(Seq<char>, Seq<u8>)>,
    r: RequestView,
)
    requires
        !verifies(account, key, r),
    ensures
        answer_of(account, key, s, r) == refusal(403, "AuthenticationFailed"@, verify_failure(r)),
        blobs_after(account, key, as_map(s), r) == as_map(s),
{
}

/// Only a put or a delete changes what a session holds: a listing, a get
/// and every refused request leave it as it was.
pub proof fn law_only_a_put_or_a_delete_changes_what_is_held(
    account: Seq<char>,
    key: Seq<u8>,
    held: Map<Seq<char>, Seq<u8>>,
    r: RequestView,
)
    requires
        !(call_of(account, key, r) is Put),
        !(call_of(account, key, r) is Delete),
    ensures
        blobs_after(account, key, held, r) == held,
{
}

/// End to end, what a client puts it gets back: the session's answer to
/// the put is a success, which `judge` passes on, and its answer to a get
/// of the same blob afterwards is a success carrying the bytes that were
/// put.
pub proof fn law_what_a_client_puts_it_gets_back(
    account: Seq<char>,
    key: Seq<u8>,
    before: Seq<(Seq<char>, Seq<u8>)>,
    after: Seq<(Seq<char>, Seq<u8>)>,
    c: Seq<char>,
    b: Seq<char>,
    bytes: Seq<u8>,
    host: Seq<char>,
    put_at: Seq<char>,
    get_at: Seq<char>,
)
    requires
        names_a_blob(c, b),
        as_map(after) == blobs_after(
            account,
            key,
            as_map(before),
            put_call(account, key, c, b, bytes, host, put_at),
        ),
    ensures
        succeeded(answer_of(account, key, before, put_call(account, key, c, b, bytes, host, put_at)).1.status),
        succeeded(answer_of(account, key, after, blob_call(account, key, "GET"@, c, b, host, get_at)).1.status),
        answer_of(account, key, after, blob_call(account, key, "GET"@, c, b, host, get_at)).1.body
            == bytes,
{
    law_put_is_a_put(account, key, c, b, bytes, host, put_at);
    law_what_is_put_is_got_back(account, key, before, after, c, b, bytes, host, put_at, get_at);
}

/// End to end, what a client deletes is gone: once the session has answered
/// the delete, `judge` turns its answer to a get of the same blob into the
/// failure `the Blob service answered 404 BlobNotFound`, not worth
/// repeating.
pub proof fn law_what_a_client_deletes_is_gone(
    account: Seq<char>,
    key: Seq<u8>,
    before: Seq<(Seq<char>, Seq<u8>)>,
    after: Seq<(Seq<char>, Seq<u8>)>,
    c: Seq<char>,
    b: Seq<char>,
    host: Seq<char>,
    delete_at: Seq<char>,
    at: Seq<char>,
)
    requires
        names_a_blob(c, b),
        as_map(after) == blobs_after(
            account,
            key,
            as_map(before),
            blob_call(account, key, "DELETE"@, c, b, host, delete_at),
        ),
    ensures
        ({
            let answer = answer_of(account, key, after, blob_call(account, key, "GET"@, c, b, host, at)).1;
            &&& !succeeded(answer.status)
            &&& failure_message(answer.status, failure_code(answer)) == "the Blob service answered "@
                + decimal(404) + seq![' '] + "BlobNotFound"@
            &&& !worth_repeating(answer.status, failure_code(answer))
        }),
{
    law_what_is_deleted_is_gone(account, key, before, after, c, b, host, delete_at, at);
    let doc = error_of("BlobNotFound"@, "The specified blob does not exist."@);
    vstd::utf8::encode_utf8_valid_utf8(doc);
    vstd::utf8::encode_utf8_decode_utf8(doc);
    law_error_names_its_code("BlobNotFound"@, "The specified blob does not exist."@);
    reveal_strlit("BlobNotFound");
    reveal_strlit("ServerBusy");
    assert("BlobNotFound"@.len() != "ServerBusy"@.len());
}

/// Two names under the same prefix that agree past it agree.
proof fn lemma_same_past_prefix(a: Seq<char>, b: Seq<char>, under: Seq<char>, cut: int)
    requires
        has_prefix(a, under),
        has_prefix(b, under),
        0 <= cut <= under.len(),
        a.skip(cut) == b.skip(cut),
    ensures
        a == b,
{
    assert(a.take(cut) =~= under.take(cut));
    assert(b.take(cut) =~= under.take(cut));
    assert(a =~= a.take(cut) + a.skip(cut));
    assert(b =~= b.take(cut) + b.skip(cut));
}

/// A listing of sorted entries names each blob once.
proof fn lemma_listed_distinct(s: Seq<(Seq<char>, Seq<u8>)>, under: Seq<char>, cut: int)
    requires
        strictly_sorted(s),
        0 <= cut <= under.len(),
    ensures
        forall|k: int, l: int|
            0 <= k < l < listed(s, under, cut).len() ==> listed(s, under, cut)[k] != listed(
                s,
                under,
                cut,
            )[l],
    decreases s.len(),
{
    if s.len() > 0 {
        let d = s.drop_last();
        assert(strictly_sorted(d)) by {
            assert forall|i: int, j: int| 0 <= i < j < d.len() implies crate::text::lex_lt(
                #[trigger] d[i].0,
                #[trigger] d[j].0,
            ) by {
                assert(d[i] == s[i] && d[j] == s[j]);
            }
        }
        lemma_listed_distinct(d, under, cut);
        let l = listed(s, under, cut);
        let ld = listed(d, under, cut);
        if has_prefix(s.last().0, under) {
            let x = s.last().0.skip(cut);
            assert(l == ld.push(x));
            law_listed_names_are_held(d, under, cut);
            assert forall|k: int| 0 <= k < ld.len() implies ld[k] != x by {
                if ld[k] == x {
                    assert(ld.contains(x));
                    let j = choose|j: int|
                        0 <= j < d.len() && has_prefix(#[trigger] d[j].0, under) && d[j].0.skip(cut)
                            == x;
                    lemma_same_past_prefix(d[j].0, s.last().0, under, cut);
                    assert(d[j] == s[j]);
                    assert(crate::text::lex_lt(s[j].0, s[s.len() - 1].0));
                }
            }
            assert forall|k: int, m: int| 0 <= k < m < l.len() implies l[k] != l[m] by {
                if m < ld.len() {
                    assert(l[k] == ld[k] && l[m] == ld[m]);
                } else {
                    assert(l[k] == ld[k]);
                    assert(l[m] == x);
                }
            }
        }
    }
}

/// What a listing of container `c` under `p` names: blobs that are held,
/// under `c/p`, each once; and every blob held under `c/p` is named.
proof fn lemma_listed_held(s: Seq<(Seq<char>, Seq<u8>)>, c: Seq<char>, p: Seq<char>)
    requires
        strictly_sorted(s),
    ensures
        ({
            let names = listed(s, held_name(c, p), (c.len() + 1) as int);
            &&& forall|k: int|
                0 <= k < names.len() ==> as_map(s).contains_key(held_name(c, #[trigger] names[k]))
                    && has_prefix(held_name(c, names[k]), held_name(c, p))
            &&& forall|k: int, l: int| 0 <= k < l < names.len() ==> names[k] != names[l]
            &&& forall|n: Seq<char>|
                as_map(s).contains_key(n) && has_prefix(n, held_name(c, p)) ==> exists|k: int|
                    0 <= k < names.len() && n == held_name(c, #[trigger] names[k])
        }),
{
    let under = held_name(c, p);
    let cut = (c.len() + 1) as int;
    let names = listed(s, under, cut);
    law_listed_names_are_held(s, under, cut);
    lemma_listed_distinct(s, under, cut);
    assert forall|n: Seq<char>| has_prefix(n, under) implies n == held_name(c, n.skip(cut)) by {
        assert(n.take(cut) =~= under.take(cut));
        assert(under.take(cut) =~= c + seq!['/']);
        assert(n =~= n.take(cut) + n.skip(cut));
    }
    assert forall|k: int| 0 <= k < names.len() implies as_map(s).contains_key(
        held_name(c, #[trigger] names[k]),
    ) && has_prefix(held_name(c, names[k]), under) by {
        assert(names.contains(names[k]));
        let i = choose|i: int|
            0 <= i < s.len() && has_prefix(#[trigger] s[i].0, under) && s[i].0.skip(cut) == names[k];
        assert(s[i].0 == held_name(c, names[k]));
        assert(named_at(s, s[i].0, i));
    }
    assert forall|n: Seq<char>|
        as_map(s).contains_key(n) && has_prefix(n, under) implies exists|k: int|
        0 <= k < names.len() && n == held_name(c, #[trigger] names[k]) by {
        let i = choose|i: int| named_at(s, n, i);
        assert(has_prefix(s[i].0, under) && s[i].0.skip(cut) == n.skip(cut));
        assert(names.contains(n.skip(cut)));
        let k = choose|k: int| 0 <= k < names.len() && names[k] == n.skip(cut);
        assert(n == held_name(c, names[k]));
    }
}

/// What a session holds after answering a request that is not a put: a
/// delete takes its blob out, anything else leaves what is held as it was.
pub open spec fn held_after(
    account: Seq<char>,
    key: Seq<u8>,
    held: Seq<(Seq<char>, Seq<u8>)>,
    r: RequestView,
) -> Seq<(Seq<char>, Seq<u8>)> {
    if call_of(account, key, r) is Delete {
        without(held, held_name(target_of(r).0, target_of(r).1))
    } else {
        held
    }
}

/// What a session holds after a request that is not a put is what its
/// answer leaves it holding.
pub proof fn law_held_after_agrees_with_the_session(
    account: Seq<char>,
    key: Seq<u8>,
    held: Seq<(Seq<char>, Seq<u8>)>,
    r: RequestView,
)
    requires
        strictly_sorted(held),
        !(call_of(account, key, r) is Put),
    ensures
        strictly_sorted(held_after(account, key, held, r)),
        as_map(held_after(account, key, held, r)) == blobs_after(account, key, as_map(held), r),
{
    lemma_without(held, held_name(target_of(r).0, target_of(r).1));
}

/// A receive from container `c` run against a session that signs as
/// `account` with `key` and holds `held`: each request the receive asks
/// for is signed for `host` at `at` and answered by the session, for at
/// most `steps` more requests after `request`. The step it ends on, and
/// what the session then holds.
pub open spec fn receive_run(
    account: Seq<char>,
    key: Seq<u8>,
    host: Seq<char>,
    at: Seq<char>,
    c: Seq<char>,
    held: Seq<(Seq<char>, Seq<u8>)>,
    s: ReceivingView,
    request: RequestView,
    steps: nat,
) -> (StepView, Seq<(Seq<char>, Seq<u8>)>)
    decreases steps,
{
    let r = signed(account, key, request.with_header("Host"@, host), at);
    let answer = answer_of(account, key, held, r).1;
    let next_held = held_after(account, key, held, r);
    let (t, step) = receive_after(c, s, answer);
    match step {
        StepView::Send(next) => if steps == 0 {
            (step, next_held)
        } else {
            receive_run(account, key, host, at, c, next_held, t, next, (steps - 1) as nat)
        },
        _ => (step, next_held),
    }
}

/// Each of `names` in container `c` as it arrives: its origin and the
/// bytes `held` holds for it.
pub open spec fn arrivals_from(
    c: Seq<char>,
    held: Map<Seq<char>, Seq<u8>>,
    names: Seq<Seq<char>>,
) -> Seq<(Seq<char>, Seq<u8>)> {
    names.map_values(|n: Seq<char>| (origin_of(c, n), held[held_name(c, n)]))
}

/// The full names of the first `i` of `names` in container `c`.
pub open spec fn first_held(c: Seq<char>, names: Seq<Seq<char>>, i: int) -> Set<Seq<char>> {
    Set::new(|n: Seq<char>| exists|k: int| 0 <= k < i && n == held_name(c, #[trigger] names[k]))
}

/// A receive that has fetched and deleted the first `i` of `names` and
/// asks for the next goes on to fetch and delete each of the rest in
/// turn, and ends with all of them arrived and taken out.
proof fn lemma_run_from(
    account: Seq<char>,
    key: Seq<u8>,
    host: Seq<char>,
    at: Seq<char>,
    c: Seq<char>,
    m0: Map<Seq<char>, Seq<u8>>,
    names: Seq<Seq<char>>,
    i: int,
    held: Seq<(Seq<char>, Seq<u8>)>,
)
    requires
        c.len() > 0,
        slash_free(c),
        0 <= i < names.len(),
        forall|k: int|
            0 <= k < names.len() ==> (#[trigger] names[k]).len() > 0 && m0.contains_key(
                held_name(c, names[k]),
            ),
        forall|k: int, l: int| 0 <= k < l < names.len() ==> names[k] != names[l],
        strictly_sorted(held),
        as_map(held) == m0.remove_keys(first_held(c, names, i)),
    ensures
        ({
            let r = receive_run(
                account,
                key,
                host,
                at,
                c,
                held,
                ReceivingView {
                    stage: Stage::Getting,
                    names,
                    next: i,
                    body: seq![],
                    arrived: arrivals_from(c, m0, names.take(i)),
                },
                get_of(c, names[i]),
                (2 * (names.len() - i) - 1) as nat,
            );
            &&& r.0 == StepView::Done(arrivals_from(c, m0, names))
            &&& strictly_sorted(r.1)
            &&& as_map(r.1) == m0.remove_keys(first_held(c, names, names.len() as int))
        }),
    decreases names.len() - i,
{
    let n = names[i];
    let name = held_name(c, n);
    lemma_slash_free_target(c, n);
    law_get_and_delete_are_what_they_say(account, key, c, n, host, at);
    let g = blob_call(account, key, "GET"@, c, n, host, at);
    let d = blob_call(account, key, "DELETE"@, c, n, host, at);
    assert(!first_held(c, names, i).contains(name)) by {
        if first_held(c, names, i).contains(name) {
            let k = choose|k: int| 0 <= k < i && name == held_name(c, #[trigger] names[k]);
            assert(names[k] =~= held_name(c, names[k]).skip((c.len() + 1) as int));
            assert(n =~= name.skip((c.len() + 1) as int));
        }
    }
    assert(as_map(held).contains_key(name));
    let bytes = m0[name];
    assert(as_map(held)[name] == bytes);
    assert(lookup(held, name) is Some);
    assert(lookup(held, name).unwrap() == bytes);
    assert(lookup(held, name) == Some(bytes));
    let s0 = ReceivingView {
        stage: Stage::Getting,
        names,
        next: i,
        body: seq![],
        arrived: arrivals_from(c, m0, names.take(i)),
    };
    // The get: the bytes come back, nothing held changes.
    let got = answer_of(account, key, held, g).1;
    assert(got.status == 200 && got.body == bytes);
    assert(held_after(account, key, held, g) == held);
    let s1 = ReceivingView { stage: Stage::Deleting, body: bytes, ..s0 };
    assert(receive_after(c, s0, got) == (s1, StepView::Send(delete_of(c, n))));
    let steps = (2 * (names.len() - i) - 1) as nat;
    assert(receive_run(account, key, host, at, c, held, s0, get_of(c, n), steps) == receive_run(
        account,
        key,
        host,
        at,
        c,
        held,
        s1,
        delete_of(c, n),
        (steps - 1) as nat,
    ));
    // The delete: answered with success, the blob taken out, and arrived.
    let gone = answer_of(account, key, held, d).1;
    assert(gone.status == 202);
    let after = held_after(account, key, held, d);
    assert(after == without(held, name));
    lemma_without(held, name);
    assert(as_map(after) =~= m0.remove_keys(first_held(c, names, i + 1))) by {
        assert forall|x: Seq<char>|
            first_held(c, names, i + 1).contains(x) <==> (first_held(c, names, i).contains(x) || x
                == name) by {
            if first_held(c, names, i + 1).contains(x) {
                let k = choose|k: int| 0 <= k < i + 1 && x == held_name(c, #[trigger] names[k]);
                if k < i {
                    assert(first_held(c, names, i).contains(x));
                }
            }
            if first_held(c, names, i).contains(x) {
                let k = choose|k: int| 0 <= k < i && x == held_name(c, #[trigger] names[k]);
                assert(0 <= k < i + 1 && x == held_name(c, names[k]));
            }
            if x == name {
                assert(0 <= i < i + 1 && x == held_name(c, names[i]));
            }
        }
    }
    let arrived = arrivals_from(c, m0, names.take(i)).push((origin_of(c, n), bytes));
    assert(arrived =~= arrivals_from(c, m0, names.take(i + 1)));
    if i + 1 < names.len() {
        let s2 = ReceivingView {
            stage: Stage::Getting,
            names,
            next: i + 1,
            body: seq![],
            arrived: arrivals_from(c, m0, names.take(i + 1)),
        };
        assert(receive_after(c, s1, gone) == (s2, StepView::Send(get_of(c, names[i + 1]))));
        assert(receive_run(account, key, host, at, c, held, s1, delete_of(c, n), (steps - 1) as nat)
            == receive_run(
            account,
            key,
            host,
            at,
            c,
            after,
            s2,
            get_of(c, names[i + 1]),
            (2 * (names.len() - (i + 1)) - 1) as nat,
        ));
        lemma_run_from(account, key, host, at, c, m0, names, i + 1, after);
    } else {
        assert(names.take(i + 1) =~= names);
        assert(receive_after(c, s1, gone).1 == StepView::Done(arrivals_from(c, m0, names)));
    }
}

/// A receive run against a session takes every blob the session holds
/// under the container and prefix: it ends with each of them arrived, in
/// the order of their names, as its origin with its bytes, and the session
/// holds the rest. A blob named `container/` itself, which a listing names
/// with nothing, is left out: its get names no blob.
pub proof fn law_a_receive_takes_every_blob_under_its_prefix(
    account: Seq<char>,
    key: Seq<u8>,
    host: Seq<char>,
    at: Seq<char>,
    s: Seq<(Seq<char>, Seq<u8>)>,
    c: Seq<char>,
    p: Seq<char>,
)
    requires
        strictly_sorted(s),
        c.len() > 0,
        slash_free(c),
        forall|n: Seq<char>|
            as_map(s).contains_key(n) && has_prefix(n, held_name(c, p)) ==> n.len() > c.len() + 1,
    ensures
        ({
            let names = listed(s, held_name(c, p), (c.len() + 1) as int);
            let r = receive_run(
                account,
                key,
                host,
                at,
                c,
                s,
                receive_started(),
                list_request_of(c, p),
                (2 * names.len()) as nat,
            );
            &&& r.0 == StepView::Done(arrivals_from(c, as_map(s), names))
            &&& as_map(r.1) == as_map(s).remove_keys(
                Set::new(|n: Seq<char>| has_prefix(n, held_name(c, p))),
            )
        }),
{
    let under = held_name(c, p);
    let names = listed(s, under, (c.len() + 1) as int);
    let m0 = as_map(s);
    let everything = Set::new(|n: Seq<char>| has_prefix(n, under));
    lemma_listed_held(s, c, p);
    law_list_is_a_list(account, key, c, p, host, at);
    law_listing_reads_back_what_is_held(account, key, s, c, p, host, at);
    let l = list_call(account, key, c, p, host, at);
    let listing = answer_of(account, key, s, l).1;
    assert(listing.status == 200);
    assert(held_after(account, key, s, l) == s);
    assert forall|k: int| 0 <= k < names.len() implies (#[trigger] names[k]).len() > 0 by {
        assert(m0.contains_key(held_name(c, names[k])) && has_prefix(held_name(c, names[k]), under));
    }
    if names.len() == 0 {
        assert(receive_after(c, receive_started(), listing).1 == StepView::Done(seq![]));
        assert(arrivals_from(c, m0, names) =~= seq![]);
        assert(m0.remove_keys(everything) =~= m0) by {
            assert forall|x: Seq<char>| m0.contains_key(x) implies !everything.contains(x) by {
                if has_prefix(x, under) {
                    let k = choose|k: int| 0 <= k < names.len() && x == held_name(c, #[trigger] names[k]);
                }
            }
        }
    } else {
        let s1 = ReceivingView {
            stage: Stage::Getting,
            names,
            next: 0,
            body: seq![],
            arrived: arrivals_from(c, m0, names.take(0)),
        };
        assert(arrivals_from(c, m0, names.take(0)) =~= seq![]);
        assert(receive_after(c, receive_started(), listing) == (s1, StepView::Send(get_of(c, names[0]))));
        assert(m0.remove_keys(first_held(c, names, 0)) =~= m0);
        lemma_run_from(account, key, host, at, c, m0, names, 0, s);
        assert(m0.remove_keys(first_held(c, names, names.len() as int)) =~= m0.remove_keys(everything)) by {
            assert forall|x: Seq<char>| m0.contains_key(x) implies (first_held(c, names, names.len() as int).contains(x)
                <==> everything.contains(x)) by {
                if has_prefix(x, under) {
                    let k = choose|k: int| 0 <= k < names.len() && x == held_name(c, #[trigger] names[k]);
                    assert(first_held(c, names, names.len() as int).contains(x));
                }
                if first_held(c, names, names.len() as int).contains(x) {
                    let k = choose|k: int| 0 <= k < names.len() && x == held_name(c, #[trigger] names[k]);
                }
            }
        }
    }
}

/// A signed `GET` on a container with `comp=list` is a listing, whatever
/// else its query holds; without a `prefix` it lists every blob held in the
/// container, answered `200` with the enumeration.
pub proof fn law_a_listing_needs_only_comp_list(
    account: Seq<char>,
    key: Seq<u8>,
    blobs: Seq<(Seq<char>, Seq<u8>)>,
    r: RequestView,
)
    requires
        verifies(account, key, r),
        target_of(r).0.len() > 0,
        target_of(r).1.len() == 0,
        r.method == "GET"@,
        r.query_param("comp"@) == Some("list"@),
    ensures
        call_of(account, key, r) is List,
        r.query_param("prefix"@) is None ==> {
            let c = target_of(r).0;
            &&& answer_of(account, key, blobs, r).0 == EventView::Listed {
                container: c,
                prefix: seq![],
            }
            &&& answer_of(account, key, blobs, r).1.status == 200
            &&& answer_of(account, key, blobs, r).1.body == encode_utf8(
                listing_of(c, seq![], listed(blobs, c + seq!['/'], (c.len() + 1) as int)),
            )
        },
{
    if r.query_param("prefix"@) is None {
        let c = target_of(r).0;
        assert(held_name(c, seq![]) =~= c + seq!['/']);
    }
}

/// A refusal's body names its code.
proof fn lemma_refusal_names_its_code(status: u16, code: Seq<char>, message: Seq<char>)
    ensures
        refusal(status, code, message).1.status == status,
        refusal(status, code, message).0 == EventView::Refused(code),
        first_of(text_of(refusal(status, code, message).1.body), "Code"@) == Some(code),
{
    let doc = error_of(code, message);
    vstd::utf8::encode_utf8_valid_utf8(doc);
    vstd::utf8::encode_utf8_decode_utf8(doc);
    law_error_names_its_code(code, message);
}

/// A session answers with the service's statuses: 403 to what it cannot
/// verify, 400 to a path naming no container, 200 to a listing and to a
/// get of a held blob, 201 to a put, 202 to a delete of a held blob, 404
/// to a get or delete of one it does not hold, 405 to anything else; a
/// refusal names its code in its body.
pub proof fn law_a_session_answers_with_the_services_statuses(
    account: Seq<char>,
    key: Seq<u8>,
    blobs: Seq<(Seq<char>, Seq<u8>)>,
    r: RequestView,
)
    ensures
        ({
            let (c, b) = target_of(r);
            let (event, answer) = answer_of(account, key, blobs, r);
            let held = lookup(blobs, held_name(c, b)) is Some;
            let code = first_of(text_of(answer.body), "Code"@);
            &&& !verifies(account, key, r) ==> answer.status == 403 && code == Some(
                "AuthenticationFailed"@,
            ) && event == EventView::Refused("AuthenticationFailed"@)
            &&& call_of(account, key, r) is NoContainer ==> answer.status == 400 && code == Some(
                "InvalidUri"@,
            )
            &&& call_of(account, key, r) is List ==> answer.status == 200
            &&& call_of(account, key, r) is Get && held ==> answer.status == 200
            &&& call_of(account, key, r) is Put ==> answer.status == 201
            &&& call_of(account, key, r) is Delete && held ==> answer.status == 202
            &&& (call_of(account, key, r) is Get || call_of(account, key, r) is Delete) && !held
                ==> answer.status == 404 && code == Some("BlobNotFound"@)
            &&& call_of(account, key, r) is Unsupported ==> answer.status == 405 && code == Some(
                "UnsupportedHttpVerb"@,
            )
        }),
{
    lemma_refusal_names_its_code(403, "AuthenticationFailed"@, verify_failure(r));
    lemma_refusal_names_its_code(400, "InvalidUri"@, "a request naming no container"@);
    lemma_refusal_names_its_code(404, "BlobNotFound"@, "The specified blob does not exist."@);
    lemma_refusal_names_its_code(405, "UnsupportedHttpVerb"@, "not one of the four calls"@);
}

} // verus!

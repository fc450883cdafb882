//! The Location's side: the four calls, each one signed request over one
//! connection.
//!
//! The endpoint carries the account — `https://account.blob.core.windows.net`
//! in the cloud, `http://127.0.0.1:10000` for Azurite or a test — and the
//! path names the container and the blob under it. What goes over the wire
//! is the caller's; here is what each call sends and what its answer means.
use std::time::Duration;

use vstd::prelude::*;
use vstd::utf8::encode_utf8;

use crate::error::{protocol_error, TransportError};
use crate::message::{bare_request, Request, RequestView, Response, ResponseView};
use crate::percent::{ascii_text, encode, percent_encoded};
use crate::shared_key::{base64_decoded, signed, Signer};
use crate::text::{
    chars_between, chars_of, decimal, decimal_of, extend_str, has_prefix, same_chars, starts_with,
    string_of, trim, text_of,
};
use crate::xml::{find_from, find_in, first, first_of, lemma_find_from_found, texts, texts_of};

verus! {

// ---------------------------------------------------------------------------
// The endpoint
// ---------------------------------------------------------------------------

/// The scheme an endpoint starts with, if it is one of HTTP's.
pub open spec fn scheme_length(endpoint: Seq<char>) -> Option<int> {
    if has_prefix(endpoint, "http://"@) {
        Some(7)
    } else if has_prefix(endpoint, "https://"@) {
        Some(8)
    } else {
        None
    }
}

/// The authority of an HTTP URL: what follows the scheme, up to the first
/// `/`; `None` where there is no HTTP scheme or nothing follows it.
pub open spec fn authority_of(endpoint: Seq<char>) -> Option<Seq<char>> {
    match scheme_length(endpoint) {
        None => None,
        Some(n) => {
            let rest = endpoint.skip(n);
            let host = match find_from(rest, seq!['/'], 0) {
                Some(i) => rest.take(i),
                None => rest,
            };
            if host.len() == 0 {
                None
            } else {
                Some(host)
            }
        },
    }
}

/// The authority `endpoint` names, `host:port`, for the `Host` header.
///
/// # Errors
/// Where `endpoint` is not an `http://` or `https://` URL with a host.
pub fn authority(endpoint: &str) -> (r: Result<String, TransportError>)
    ensures
        match r {
            Ok(host) => authority_of(endpoint@) == Some(host@),
            Err(e) => authority_of(endpoint@) is None && !e.retryable,
        },
{
    let chars = chars_of(endpoint);
    let plain = chars_of("http://");
    let secure = chars_of("https://");
    proof {
        reveal_strlit("http://");
        reveal_strlit("https://");
    }
    let n: usize = if starts_with(&chars, &plain) {
        7
    } else if starts_with(&chars, &secure) {
        8
    } else {
        return Err(protocol_error("an endpoint that is not an HTTP URL"));
    };
    let rest = crate::text::chars_from(&chars, n);
    let mut slash: Vec<char> = Vec::new();
    slash.push('/');
    assert(slash@ =~= seq!['/']);
    let host = match find_in(&rest, &slash, 0) {
        Some(i) => {
            proof {
                lemma_find_from_found(rest@, slash@, 0);
            }
            let h = chars_between(&rest, 0, i);
            assert(h@ =~= rest@.take(i as int));
            h
        },
        None => rest,
    };
    if host.len() == 0 {
        return Err(protocol_error("an endpoint that is not an HTTP URL"));
    }
    Ok(string_of(&host))
}

// ---------------------------------------------------------------------------
// The four requests
// ---------------------------------------------------------------------------

/// `text` percent-encoded for a path.
pub open spec fn encoded(text: Seq<char>, keep_slash: bool) -> Seq<char> {
    ascii_text(percent_encoded(encode_utf8(text), keep_slash))
}

/// The path of a blob: `/container/blob`, the container with every `/`
/// encoded and the blob name with its `/` kept.
pub open spec fn blob_path(container: Seq<char>, blob: Seq<char>) -> Seq<char> {
    seq!['/'] + encoded(container, false) + seq!['/'] + encoded(blob, true)
}

/// The listing of `prefix` in `container`.
pub open spec fn list_request_of(container: Seq<char>, prefix: Seq<char>) -> RequestView {
    bare_request("GET"@, seq!['/'] + encoded(container, false)).with_query(
        "restype"@,
        "container"@,
    ).with_query("comp"@, "list"@).with_query("prefix"@, prefix)
}

/// Storing `bytes` as the block blob `blob` in `container`.
pub open spec fn put_request_of(container: Seq<char>, blob: Seq<char>, bytes: Seq<u8>) -> RequestView {
    bare_request("PUT"@, blob_path(container, blob)).with_header(
        "Content-Type"@,
        "application/octet-stream"@,
    ).with_header("x-ms-blob-type"@, "BlockBlob"@).with_body(bytes)
}

/// `/container/blob`.
fn path(container: &str, blob: &str) -> (r: String)
    ensures
        r@ == blob_path(container@, blob@),
{
    let mut out: Vec<char> = Vec::new();
    out.push('/');
    extend_str(&mut out, encode(container, false).as_str());
    out.push('/');
    extend_str(&mut out, encode(blob, true).as_str());
    string_of(&out)
}

/// The request that lists `prefix` in `container`.
pub fn list_request(container: &str, prefix: &str) -> (r: Request)
    ensures
        r@ == list_request_of(container@, prefix@),
{
    let mut p: Vec<char> = Vec::new();
    p.push('/');
    extend_str(&mut p, encode(container, false).as_str());
    let p = string_of(&p);
    Request::new("GET", p.as_str()).query("restype", "container").query("comp", "list").query(
        "prefix",
        prefix,
    )
}

/// The request that fetches `blob` in `container`.
pub fn get_request(container: &str, blob: &str) -> (r: Request)
    ensures
        r@ == bare_request("GET"@, blob_path(container@, blob@)),
{
    Request::new("GET", path(container, blob).as_str())
}

/// The request that stores `bytes` as the block blob `blob` in `container`.
pub fn put_request(container: &str, blob: &str, bytes: &[u8]) -> (r: Request)
    ensures
        r@ == put_request_of(container@, blob@, bytes@),
{
    Request::new("PUT", path(container, blob).as_str()).header(
        "Content-Type",
        "application/octet-stream",
    ).header("x-ms-blob-type", "BlockBlob").body(bytes)
}

/// The request that deletes `blob` in `container`.
pub fn delete_request(container: &str, blob: &str) -> (r: Request)
    ensures
        r@ == bare_request("DELETE"@, blob_path(container@, blob@)),
{
    Request::new("DELETE", path(container, blob).as_str())
}

// ---------------------------------------------------------------------------
// What an answer means
// ---------------------------------------------------------------------------

/// Whether `status` is a success, 2xx.
pub open spec fn succeeded(status: u16) -> bool {
    200 <= status && status < 300
}

/// The code the service put in the body of an answer, or nothing.
pub open spec fn failure_code(r: ResponseView) -> Seq<char> {
    match first_of(text_of(r.body), "Code"@) {
        Some(code) => code,
        None => seq![],
    }
}

/// Whether a failure says come back: a server failure, a timeout, a
/// throttle, or a service that calls itself busy.
pub open spec fn worth_repeating(status: u16, code: Seq<char>) -> bool {
    status >= 500 || status == 408 || status == 429 || code == "ServerBusy"@
}

/// The message of a failure: `the Blob service answered <status> <code>`.
pub open spec fn failure_message(status: u16, code: Seq<char>) -> Seq<char> {
    "the Blob service answered "@ + decimal(status as nat) + seq![' '] + code
}

/// A 2xx answer as it is; anything else as a failure naming the status and
/// the code the service put in the body, retryable where it says come back.
pub fn judge(response: Response) -> (r: Result<Response, TransportError>)
    ensures
        match r {
            Ok(kept) => succeeded(response.status) && kept@ == response@,
            Err(e) => !succeeded(response.status) && e.message@ == failure_message(
                response.status,
                failure_code(response@),
            ) && e.retryable == worth_repeating(response.status, failure_code(response@)),
        },
        r matches Err(e) ==> (e.retryable <==> (response.status >= 500 || response.status == 408
            || response.status == 429 || failure_code(response@) == "ServerBusy"@)),
{
    if 200 <= response.status && response.status < 300 {
        return Ok(response);
    }
    let code = match first(response.text().as_str(), "Code") {
        Some(c) => c,
        None => String::new(),
    };
    let code_chars = chars_of(code.as_str());
    let busy = same_chars(&code_chars, &chars_of("ServerBusy"));
    let retryable = response.status >= 500 || response.status == 408 || response.status == 429
        || busy;
    let mut message = chars_of("the Blob service answered ");
    let digits = decimal_of(response.status as u64);
    crate::text::extend_chars(&mut message, &digits);
    message.push(' ');
    crate::text::extend_chars(&mut message, &code_chars);
    Err(TransportError { message: string_of(&message), retryable })
}

/// Every failure of the server, any status from 500 to 599, is worth
/// repeating, as are a timeout (408) and a throttle (429), whatever code
/// the body names; a client failure, 400 to 499 but those two, is worth
/// repeating only where the service says it is busy.
pub proof fn law_a_server_failure_is_worth_repeating(status: u16, code: Seq<char>)
    ensures
        500 <= status <= 599 ==> !succeeded(status) && worth_repeating(status, code),
        status == 408 || status == 429 ==> !succeeded(status) && worth_repeating(status, code),
        400 <= status <= 499 && status != 408 && status != 429 ==> (worth_repeating(status, code)
            <==> code == "ServerBusy"@),
        200 <= status <= 299 <==> succeeded(status),
{
}

/// A failure's message names the service, then the status in decimal,
/// then the code: `the Blob service answered 503 ServerBusy`.
pub proof fn law_a_failure_names_its_status_and_code(status: u16, code: Seq<char>)
    ensures
        ({
            let m = failure_message(status, code);
            let lead = "the Blob service answered "@;
            let digits = m.subrange(lead.len() as int, m.len() - code.len() - 1);
            &&& m.take(lead.len() as int) == lead
            &&& m.skip(m.len() - code.len()) == code
            &&& m[m.len() - code.len() - 1] == ' '
            &&& crate::text::digits_value(digits) == status
            &&& forall|i: int| 0 <= i < digits.len() ==> 48 <= #[trigger] (digits[i] as u32) <= 57
        }),
{
    let lead = "the Blob service answered "@;
    let d = decimal(status as nat);
    crate::text::law_decimal_reads_back(status as nat);
    let m = failure_message(status, code);
    assert(m =~= lead + d + seq![' '] + code);
    assert(m.take(lead.len() as int) =~= lead);
    assert(m.skip(m.len() - code.len()) =~= code);
    assert(m.subrange(lead.len() as int, m.len() - code.len() - 1) =~= d);
}

/// The blob names a listing answer carries, in order.
pub fn listed_names(response: &Response) -> (r: Vec<String>)
    ensures
        r@.map_values(|n: String| n@) == texts_of(text_of(response@.body), "Name"@),
{
    texts(response.text().as_str(), "Name")
}

// ---------------------------------------------------------------------------
// The client
// ---------------------------------------------------------------------------

/// A Location's connection details: where the endpoint is, the host it
/// answers as, the signer, and how long to wait on it.
#[derive(Debug)]
pub struct Client {
    endpoint: String,
    host: String,
    signer: Signer,
    timeout: Option<Duration>,
}

impl Client {
    /// The endpoint, as given.
    pub closed spec fn endpoint_spec(&self) -> Seq<char> {
        self.endpoint@
    }

    /// The host requests name.
    pub closed spec fn host(&self) -> Seq<char> {
        self.host@
    }

    /// The signer of every request.
    pub closed spec fn signer(&self) -> Signer {
        self.signer
    }

    /// How long to wait on the endpoint, if at all.
    pub closed spec fn timeout_spec(&self) -> Option<Duration> {
        self.timeout
    }

    /// Speak to the Blob endpoint at `endpoint` — `http://host:port` or
    /// `https://host:port` — as `account` with its key, base64.
    ///
    /// # Errors
    /// Where `endpoint` is not an HTTP URL, or the key is not base64.
    pub fn new(endpoint: &str, account: &str, key_base64: &str) -> (r: Result<Client, TransportError>)
        ensures
            r is Ok <==> (authority_of(endpoint@) is Some && base64_decoded(trim(key_base64@)) is Some),
            r matches Ok(c) ==> c.endpoint_spec() == endpoint@ && Some(c.host()) == authority_of(
                endpoint@,
            ) && c.signer().account() == account@ && Some(c.signer().key()) == base64_decoded(
                trim(key_base64@),
            ) && c.timeout_spec() is None,
            r matches Err(e) ==> !e.retryable,
    {
        let host = authority(endpoint)?;
        let signer = Signer::new(account, key_base64)?;
        Ok(Client { endpoint: endpoint.to_string(), host, signer, timeout: None })
    }

    /// Give up on an endpoint that stops answering after `timeout`.
    pub fn timing_out_after(self, timeout: Duration) -> (r: Client)
        ensures
            r.endpoint_spec() == self.endpoint_spec(),
            r.host() == self.host(),
            r.signer() == self.signer(),
            r.timeout_spec() == Some(timeout),
    {
        let mut r = self;
        r.timeout = Some(timeout);
        r
    }

    /// The endpoint to connect to.
    pub fn endpoint(&self) -> (r: &str)
        ensures
            r@ == self.endpoint_spec(),
    {
        self.endpoint.as_str()
    }

    /// How long to wait on the endpoint, if at all.
    pub fn timeout(&self) -> (r: Option<Duration>)
        ensures
            r == self.timeout_spec(),
    {
        self.timeout
    }

    /// `request` as it goes out at `at`: naming the host, then signed.
    pub fn prepare(&self, request: Request, at: &str) -> (r: Request)
        ensures
            r@ == signed(
                self.signer().account(),
                self.signer().key(),
                request@.with_header("Host"@, self.host()),
                at@,
            ),
    {
        self.signer.sign(request.header("Host", self.host.as_str()), at)
    }
}

} // verus!

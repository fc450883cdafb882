//! Streams that arrive as blobs in an Azure container. One blob is one
//! Stream, its name kept beside it.
//!
//! Blob Storage's REST API is four calls on a container: list under a
//! prefix, get, put, delete. A Receive Location lists a prefix, gets each
//! blob and deletes it once it is safely a Stream; a Send Location puts a
//! Stream as a block blob. Both are Shared Key over HTTP.
//!
//! ```text
//! shared_key.rs  signing a request, and verifying one
//! message.rs     a request and a response
//! percent.rs     percent-encoding a blob name or a prefix
//! xml.rs         the enumeration and the error, written and read back
//! client.rs      the Location's side: list, get, put, delete
//! session.rs     the far end a test or the playground runs on loopback
//! text.rs        characters and strings
//! error.rs       how a call fails
//! ```
//!
//! The origin URI is the blob in the protocol's own terms:
//! `azure-blob://container/in/order-1.edi`. A send target is the same form,
//! or a name alone in this transport's container.
pub mod client;
pub mod error;
pub mod message;
pub mod percent;
pub mod protocol;
pub mod session;
pub mod shared_key;
pub mod text;
pub mod xml;

use std::time::Duration;

use vstd::prelude::*;

pub use crate::client::Client;
pub use crate::session::{Event, Session};

use crate::client::{
    delete_request, failure_code, failure_message, get_request, judge, list_request,
    list_request_of, listed_names, succeeded, worth_repeating, blob_path,
};
use crate::error::TransportError;
use crate::message::{bare_request, Request, RequestView, Response, ResponseView};
use crate::session::{origin, origin_of, Arrived};
use crate::shared_key::base64_decoded;
use crate::xml::{strings_view, texts_of};
use crate::text::{chars_from, chars_of, has_prefix, starts_with, string_of, text_of, trim};

verus! {

/// Blobs in one container of one account: where the endpoint is, who signs,
/// which container, which prefix a receive takes, and how long to wait.
#[derive(Debug)]
pub struct AzureBlobTransport {
    endpoint: String,
    account: String,
    container: String,
    key: String,
    prefix: String,
    timeout: Option<Duration>,
}

/// What a transport is configured with.
pub struct TransportView {
    pub endpoint: Seq<char>,
    pub account: Seq<char>,
    pub container: Seq<char>,
    pub key: Seq<char>,
    pub prefix: Seq<char>,
    pub timeout: Option<Duration>,
}

impl View for AzureBlobTransport {
    type V = TransportView;

    closed spec fn view(&self) -> TransportView {
        TransportView {
            endpoint: self.endpoint@,
            account: self.account@,
            container: self.container@,
            key: self.key@,
            prefix: self.prefix@,
            timeout: self.timeout,
        }
    }
}

/// A target split into its container and blob where it is a full
/// `azure-blob://container/blob`, else `None`.
pub open spec fn target_parts(target: Seq<char>) -> Option<(Seq<char>, Seq<char>)> {
    if has_prefix(target, "azure-blob://"@) {
        let rest = target.skip(13);
        match crate::xml::find_from(rest, seq!['/'], 0) {
            Some(i) => Some((rest.take(i), rest.skip(i + 1))),
            None => None,
        }
    } else {
        None
    }
}

impl AzureBlobTransport {
    /// Speak to the endpoint at `endpoint` — `http://host:port` or
    /// `https://host:port` — as `account`, about `container`.
    pub fn new(endpoint: &str, account: &str, container: &str) -> (t: AzureBlobTransport)
        ensures
            t@ == (TransportView {
                endpoint: endpoint@,
                account: account@,
                container: container@,
                key: seq![],
                prefix: seq![],
                timeout: None,
            }),
    {
        let t = AzureBlobTransport {
            endpoint: endpoint.to_string(),
            account: account.to_string(),
            container: container.to_string(),
            key: String::new(),
            prefix: String::new(),
            timeout: None,
        };
        t
    }

    /// Sign with this account key, base64 as the portal shows it.
    pub fn with_key(self, key_base64: &str) -> (t: AzureBlobTransport)
        ensures
            t@ == (TransportView { key: key_base64@, ..self@ }),
    {
        let mut t = self;
        t.key = key_base64.to_string();
        t
    }

    /// Receive only what is under `prefix` — `in/`, say.
    pub fn with_prefix(self, prefix: &str) -> (t: AzureBlobTransport)
        ensures
            t@ == (TransportView { prefix: prefix@, ..self@ }),
    {
        let mut t = self;
        t.prefix = prefix.to_string();
        t
    }

    /// Give up on an endpoint that stops answering after `timeout`.
    pub fn timing_out_after(self, timeout: Duration) -> (t: AzureBlobTransport)
        ensures
            t@ == (TransportView { timeout: Some(timeout), ..self@ }),
    {
        let mut t = self;
        t.timeout = Some(timeout);
        t
    }

    /// The container this transport receives from and sends to by default.
    pub fn container(&self) -> (r: &str)
        ensures
            r@ == self@.container,
    {
        self.container.as_str()
    }

    /// The prefix a receive takes.
    pub fn prefix(&self) -> (r: &str)
        ensures
            r@ == self@.prefix,
    {
        self.prefix.as_str()
    }

    /// The client this transport speaks through.
    ///
    /// # Errors
    /// Where the endpoint is not an HTTP URL, or the key is not base64.
    pub fn client(&self) -> (r: Result<Client, TransportError>)
        ensures
            r is Ok <==> (crate::client::authority_of(self@.endpoint) is Some && base64_decoded(
                trim(self@.key),
            ) is Some),
            r matches Ok(c) ==> c.endpoint_spec() == self@.endpoint && Some(c.host())
                == crate::client::authority_of(self@.endpoint) && c.signer().account()
                == self@.account && Some(c.signer().key()) == base64_decoded(trim(self@.key))
                && c.timeout_spec() == self@.timeout,
            r matches Err(e) ==> !e.retryable,
    {
        let client = Client::new(self.endpoint.as_str(), self.account.as_str(), self.key.as_str())?;
        Ok(
            match self.timeout {
                Some(timeout) => client.timing_out_after(timeout),
                None => client,
            },
        )
    }

    /// A far end that holds this transport's account and key, for a test
    /// or the playground to run on loopback.
    ///
    /// # Errors
    /// Where the key is not base64.
    pub fn session(&self) -> (r: Result<Session, TransportError>)
        ensures
            r is Ok <==> base64_decoded(trim(self@.key)) is Some,
            r matches Ok(s) ==> s.signer().account() == self@.account && Some(s.signer().key())
                == base64_decoded(trim(self@.key)) && s.held() == Map::<Seq<char>, Seq<u8>>::empty()
                && s.timeout_spec() == self@.timeout,
            r matches Err(e) ==> !e.retryable,
    {
        let session = Session::new(self.account.as_str(), self.key.as_str())?;
        Ok(
            match self.timeout {
                Some(timeout) => session.timing_out_after(timeout),
                None => session,
            },
        )
    }

    /// The container and blob a send target names: itself, where it is
    /// `azure-blob://container/blob`, or this transport's container and the
    /// target as the blob's name.
    pub fn resolve(&self, target: &str) -> (r: (String, String))
        ensures
            (r.0@, r.1@) == (match target_parts(target@) {
                Some(parts) => parts,
                None => (self@.container, target@),
            }),
    {
        let chars = chars_of(target);
        let scheme = chars_of("azure-blob://");
        proof {
            reveal_strlit("azure-blob://");
        }
        if starts_with(&chars, &scheme) {
            let rest = chars_from(&chars, 13);
            let mut slash: Vec<char> = Vec::new();
            slash.push('/');
            assert(slash@ =~= seq!['/']);
            if let Some(i) = crate::xml::find_in(&rest, &slash, 0) {
                proof {
                    crate::xml::lemma_find_from_found(rest@, slash@, 0);
                }
                let container = crate::text::chars_between(&rest, 0, i);
                assert(container@ =~= rest@.take(i as int));
                let blob = chars_from(&rest, i + 1);
                return (string_of(&container), string_of(&blob));
            }
        }
        (self.container.clone(), target.to_string())
    }
}

// ---------------------------------------------------------------------------
// Receiving: list, then get and delete each blob
// ---------------------------------------------------------------------------

/// Where a receive stands.
#[derive(Clone, Copy, Debug, PartialEq, Eq, Structural)]
pub enum Stage {
    /// The listing has been asked for.
    Listing,
    /// The blob at `next` has been asked for.
    Getting,
    /// The blob at `next` has been fetched and its delete asked for.
    Deleting,
    /// Every listed blob has arrived.
    Finished,
}

/// A receive under way: the names listed, the one being handled, the bytes
/// it was fetched with, and what has arrived so far.
#[derive(Debug)]
pub struct Receiving {
    stage: Stage,
    names: Vec<String>,
    next: usize,
    body: Vec<u8>,
    arrived: Vec<Arrived>,
}

/// A receive as plain values.
pub struct ReceivingView {
    pub stage: Stage,
    pub names: Seq<Seq<char>>,
    pub next: int,
    pub body: Seq<u8>,
    pub arrived: Seq<(Seq<char>, Seq<u8>)>,
}

/// What arrived, each as its origin and its bytes.
pub open spec fn arrivals_view(arrived: Seq<Arrived>) -> Seq<(Seq<char>, Seq<u8>)> {
    arrived.map_values(|a: Arrived| (a.origin_uri@, a.bytes@))
}

impl View for Receiving {
    type V = ReceivingView;

    closed spec fn view(&self) -> ReceivingView {
        ReceivingView {
            stage: self.stage,
            names: strings_view(self.names@),
            next: self.next as int,
            body: self.body@,
            arrived: arrivals_view(self.arrived@),
        }
    }
}

impl Receiving {
    /// A blob is being handled only while one of the listed names is next.
    #[verifier::type_invariant]
    spec fn handling_a_listed_name(self) -> bool {
        (self.stage == Stage::Getting || self.stage == Stage::Deleting) ==> self.next
            < self.names.len()
    }
}

/// What a receive does next.
#[derive(Debug)]
pub enum ReceiveStep {
    /// Send this request and hand its answer back.
    Send(Request),
    /// The receive is over: these arrived.
    Done(Vec<Arrived>),
    /// The receive stops here.
    Failed(TransportError),
}

/// A step as plain values.
pub enum StepView {
    Send(RequestView),
    Done(Seq<(Seq<char>, Seq<u8>)>),
    Failed { message: Seq<char>, retryable: bool },
}

/// A step as plain values.
pub open spec fn step_view(step: ReceiveStep) -> StepView {
    match step {
        ReceiveStep::Send(request) => StepView::Send(request@),
        ReceiveStep::Done(arrived) => StepView::Done(arrivals_view(arrived@)),
        ReceiveStep::Failed(e) => StepView::Failed { message: e.message@, retryable: e.retryable },
    }
}

/// A receive that has asked for the listing and has nothing yet.
pub open spec fn receive_started() -> ReceivingView {
    ReceivingView { stage: Stage::Listing, names: seq![], next: 0, body: seq![], arrived: seq![] }
}

/// The request that fetches `blob` in `container`.
pub open spec fn get_of(container: Seq<char>, blob: Seq<char>) -> RequestView {
    bare_request("GET"@, blob_path(container, blob))
}

/// The request that deletes `blob` in `container`.
pub open spec fn delete_of(container: Seq<char>, blob: Seq<char>) -> RequestView {
    bare_request("DELETE"@, blob_path(container, blob))
}

/// What a receive from `container` does with `answer` where it stands at
/// `s`: a failure stops it; a listing starts on the first name; a fetched
/// blob is deleted; a deleted blob has arrived with the bytes it was
/// fetched with, and the next name is fetched, or the receive is over and
/// hands over all that arrived.
pub open spec fn receive_after(container: Seq<char>, s: ReceivingView, answer: ResponseView) -> (
    ReceivingView,
    StepView,
) {
    if !succeeded(answer.status) {
        (
            s,
            StepView::Failed {
                message: failure_message(answer.status, failure_code(answer)),
                retryable: worth_repeating(answer.status, failure_code(answer)),
            },
        )
    } else {
        match s.stage {
            Stage::Listing => {
                let names = texts_of(text_of(answer.body), "Name"@);
                if names.len() == 0 {
                    (
                        ReceivingView {
                            stage: Stage::Finished,
                            names,
                            next: 0,
                            body: seq![],
                            arrived: seq![],
                        },
                        StepView::Done(s.arrived),
                    )
                } else {
                    (
                        ReceivingView { stage: Stage::Getting, names, next: 0, body: seq![], ..s },
                        StepView::Send(get_of(container, names[0])),
                    )
                }
            },
            Stage::Getting => (
                ReceivingView { stage: Stage::Deleting, body: answer.body, ..s },
                StepView::Send(delete_of(container, s.names[s.next])),
            ),
            Stage::Deleting => {
                let arrived = s.arrived.push((origin_of(container, s.names[s.next]), s.body));
                if s.next + 1 < s.names.len() {
                    (
                        ReceivingView {
                            stage: Stage::Getting,
                            next: s.next + 1,
                            body: seq![],
                            arrived,
                            ..s
                        },
                        StepView::Send(get_of(container, s.names[s.next + 1])),
                    )
                } else {
                    (
                        ReceivingView { stage: Stage::Finished, body: seq![], arrived: seq![], ..s },
                        StepView::Done(arrived),
                    )
                }
            },
            Stage::Finished => (ReceivingView { arrived: seq![], ..s }, StepView::Done(s.arrived)),
        }
    }
}

impl AzureBlobTransport {
    /// Begin a receive: the listing of the prefix to ask for.
    pub fn start_receive(&self) -> (r: (Receiving, Request))
        ensures
            r.0@ == receive_started(),
            r.1@ == list_request_of(self@.container, self@.prefix),
    {
        let state = Receiving {
            stage: Stage::Listing,
            names: Vec::new(),
            next: 0,
            body: Vec::new(),
            arrived: Vec::new(),
        };
        proof {
            assert(state@.names =~= seq![]);
            assert(state@.body =~= seq![]);
            assert(state@.arrived =~= seq![]);
        }
        (state, list_request(self.container.as_str(), self.prefix.as_str()))
    }

    /// Take the answer to the request last asked for, and say what comes
    /// next. A blob is deleted only once it has been fetched, and has
    /// arrived only once it has been deleted; the first failure stops the
    /// receive, and what was not yet fetched stays where it is.
    pub fn receive_next(&self, state: Receiving, answer: Response) -> (r: (Receiving, ReceiveStep))
        ensures
            (r.0@, step_view(r.1)) == receive_after(self@.container, state@, answer@),
    {
        proof {
            use_type_invariant(&state);
        }
        let ghost s = state@;
        let kept = match judge(answer) {
            Ok(kept) => kept,
            Err(e) => {
                return (state, ReceiveStep::Failed(e));
            },
        };
        let Receiving { stage, names, next, body, mut arrived } = state;
        match stage {
            Stage::Listing => {
                let listed = listed_names(&kept);
                if listed.len() == 0 {
                    let done = Receiving {
                        stage: Stage::Finished,
                        names: listed,
                        next: 0,
                        body: Vec::new(),
                        arrived: Vec::new(),
                    };
                    proof {
                        assert(done@.body =~= seq![]);
                        assert(done@.arrived =~= seq![]);
                    }
                    (done, ReceiveStep::Done(arrived))
                } else {
                    let request = get_request(self.container.as_str(), listed[0].as_str());
                    let getting = Receiving {
                        stage: Stage::Getting,
                        names: listed,
                        next: 0,
                        body: Vec::new(),
                        arrived,
                    };
                    proof {
                        assert(getting@.body =~= seq![]);
                    }
                    (getting, ReceiveStep::Send(request))
                }
            },
            Stage::Getting => {
                let request = delete_request(self.container.as_str(), names[next].as_str());
                (
                    Receiving { stage: Stage::Deleting, names, next, body: kept.body, arrived },
                    ReceiveStep::Send(request),
                )
            },
            Stage::Deleting => {
                let from = origin(self.container.as_str(), names[next].as_str());
                arrived.push(Arrived::new(from.as_str(), body));
                proof {
                    assert(arrivals_view(arrived@) =~= s.arrived.push(
                        (origin_of(self@.container, s.names[s.next]), s.body),
                    ));
                }
                if next + 1 < names.len() {
                    let request = get_request(self.container.as_str(), names[next + 1].as_str());
                    let getting = Receiving {
                        stage: Stage::Getting,
                        names,
                        next: next + 1,
                        body: Vec::new(),
                        arrived,
                    };
                    proof {
                        assert(getting@.body =~= seq![]);
                    }
                    (getting, ReceiveStep::Send(request))
                } else {
                    let done = Receiving {
                        stage: Stage::Finished,
                        names,
                        next,
                        body: Vec::new(),
                        arrived: Vec::new(),
                    };
                    proof {
                        assert(done@.body =~= seq![]);
                        assert(done@.arrived =~= seq![]);
                    }
                    (done, ReceiveStep::Done(arrived))
                }
            },
            Stage::Finished => {
                let rest = Receiving { stage, names, next, body, arrived: Vec::new() };
                proof {
                    assert(rest@.arrived =~= seq![]);
                }
                (rest, ReceiveStep::Done(arrived))
            },
        }
    }
}

/// In a receive, a blob's delete is asked for only once its fetch was
/// answered with success, and it is the blob just fetched; its bytes are
/// kept for its arrival.
pub proof fn law_a_blob_is_deleted_only_once_fetched(
    container: Seq<char>,
    s: ReceivingView,
    answer: ResponseView,
    request: RequestView,
)
    requires
        receive_after(container, s, answer).1 == StepView::Send(request),
        request.method == "DELETE"@,
    ensures
        s.stage == Stage::Getting,
        succeeded(answer.status),
        request == delete_of(container, s.names[s.next]),
        receive_after(container, s, answer).0.body == answer.body,
{
    reveal_strlit("GET");
    reveal_strlit("DELETE");
    assert("GET"@[0] != "DELETE"@[0]);
}

/// In a receive, a blob arrives only when its delete was answered with
/// success, as its origin with the bytes it was fetched with; no other
/// step adds to what has arrived, and what has arrived is handed over
/// whole when the receive is over.
pub proof fn law_a_blob_arrives_only_once_deleted(
    container: Seq<char>,
    s: ReceivingView,
    answer: ResponseView,
)
    ensures
        ({
            let (t, step) = receive_after(container, s, answer);
            let added = if s.stage == Stage::Deleting && succeeded(answer.status) {
                s.arrived.push((origin_of(container, s.names[s.next]), s.body))
            } else {
                s.arrived
            };
            &&& t.arrived == if step is Done {
                Seq::<(Seq<char>, Seq<u8>)>::empty()
            } else {
                added
            }
            &&& step matches StepView::Done(v) ==> v == added
        }),
{
}

} // verus!

use std::time::Duration;

use xmip_core_transport_azure_blob::client::{judge, put_request};
use xmip_core_transport_azure_blob::message::Response;
use xmip_core_transport_azure_blob::session::{Arrived, Event};
use xmip_core_transport_azure_blob::{AzureBlobTransport, ReceiveStep, Session};

const KEY: &str = "c2VjcmV0";

fn node(endpoint: &str, key: &str) -> AzureBlobTransport {
    AzureBlobTransport::new(endpoint, "acct", "orders")
        .with_key(key)
        .with_prefix("in/")
        .timing_out_after(Duration::from_secs(2))
}

#[test]
fn a_target_is_a_full_origin_or_a_name_in_this_container() {
    let near = node("http://127.0.0.1:1", KEY);
    assert_eq!(
        near.resolve("azure-blob://other/in/2.edi"),
        ("other".to_string(), "in/2.edi".to_string())
    );
    assert_eq!(
        near.resolve("in/1.edi"),
        ("orders".to_string(), "in/1.edi".to_string())
    );
    assert_eq!(
        near.resolve("azure-blob://nocontainer"),
        ("orders".to_string(), "azure-blob://nocontainer".to_string())
    );
    assert_eq!(near.container(), "orders");
    assert_eq!(near.prefix(), "in/");
}

#[test]
fn an_endpoint_without_a_scheme_or_a_key_that_is_not_base64_is_refused_for_good() {
    let client = node("http://127.0.0.1:1", KEY).client().expect("client");
    assert_eq!(client.timeout(), Some(Duration::from_secs(2)));
    assert!(!node("orders.local", KEY).client().expect_err("no scheme").retryable);
    assert!(!node("http://x", "not base64!").client().expect_err("key").retryable);
    assert!(node("http://x", "not base64!").session().is_err());
    let session = node("http://x", KEY).session().expect("session");
    assert!(session.blobs().is_empty());
}

const AT: &str = "Tue, 08 Sep 2026 12:00:00 GMT";

/// Runs a receive against `session` with no socket between, answering each
/// request the library asks for; returns the step it ended on and the
/// session's events.
fn receive_from(near: &AzureBlobTransport, session: &mut Session) -> (ReceiveStep, Vec<Event>) {
    let client = near.client().expect("client");
    let (mut state, mut request) = near.start_receive();
    let mut events = Vec::new();
    loop {
        let (event, answer) = session.answer(&client.prepare(request, AT));
        events.push(event);
        let (next, step) = near.receive_next(state, answer);
        state = next;
        match step {
            ReceiveStep::Send(following) => request = following,
            other => return (other, events),
        }
    }
}

#[test]
fn what_is_sent_to_a_session_is_received_back_and_deleted() {
    let near = node("http://127.0.0.1:10000", KEY);
    let client = near.client().expect("client");
    let mut session = near.session().expect("base64");
    let mut sent = Vec::new();
    // What `send` does with a target: resolve it, then put.
    for (target, bytes) in [
        ("in/1.edi", &b"UNA:+.? '"[..]),
        ("azure-blob://orders/in/2.edi", &b""[..]),
        ("out/3.edi", &b"x"[..]),
    ] {
        let (container, blob) = near.resolve(target);
        let (event, answer) =
            session.answer(&client.prepare(put_request(&container, &blob, bytes), AT));
        assert!(judge(answer).is_ok());
        sent.push(event);
    }
    assert_eq!(
        sent[0],
        Event::Stored(Arrived::new("azure-blob://orders/in/1.edi", b"UNA:+.? '".to_vec()))
    );
    let (step, events) = receive_from(&near, &mut session);
    let ReceiveStep::Done(mut arrived) = step else { panic!("not done: {step:?}") };
    arrived.sort_by(|a, b| a.origin_uri.cmp(&b.origin_uri));
    assert_eq!(arrived.len(), 2);
    assert_eq!(arrived[0].origin_uri, "azure-blob://orders/in/1.edi");
    assert_eq!(arrived[0].bytes, b"UNA:+.? '");
    assert_eq!(arrived[1].origin_uri, "azure-blob://orders/in/2.edi");
    assert!(arrived[1].bytes.is_empty());
    assert_eq!(events.len(), 5, "a list, then a get and a delete per blob");
    let deleted = events.iter().filter(|e| matches!(e, Event::Deleted(_)));
    assert_eq!(deleted.count(), 2);
    assert_eq!(session.blobs().len(), 1, "what is not under the prefix stays");
}

#[test]
fn an_empty_prefix_is_done_at_once_and_a_refusal_stops_the_receive() {
    let near = node("http://127.0.0.1:10000", KEY);
    let mut session = near.session().expect("base64");
    let (step, events) = receive_from(&near, &mut session);
    assert!(matches!(step, ReceiveStep::Done(ref a) if a.is_empty()));
    assert_eq!(events.len(), 1);
    let mut other = node("http://127.0.0.1:10000", "d3Jvbmc=").session().expect("base64");
    let (step, events) = receive_from(&near, &mut other);
    let ReceiveStep::Failed(e) = step else { panic!("not refused: {step:?}") };
    assert!(e.message.contains("403 AuthenticationFailed"));
    assert!(!e.retryable);
    assert_eq!(events, vec![Event::Refused("AuthenticationFailed".to_string())]);
}

#[test]
fn a_failed_get_leaves_the_blob_in_place() {
    let near = node("http://127.0.0.1:10000", KEY);
    let (state, _) = near.start_receive();
    let listing = Response::new(200)
        .body(xmip_core_transport_azure_blob::xml::listing("orders", "in/", &["in/1.edi".to_string()]).as_bytes());
    let (state, step) = near.receive_next(state, listing);
    let ReceiveStep::Send(get) = step else { panic!("no get: {step:?}") };
    assert_eq!((get.method.as_str(), get.path.as_str()), ("GET", "/orders/in/1.edi"));
    let (_, step) = near.receive_next(state, Response::new(503));
    let ReceiveStep::Failed(e) = step else { panic!("not failed: {step:?}") };
    assert!(e.retryable);
    assert_eq!(e.message, "the Blob service answered 503 ");
}

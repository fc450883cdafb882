use std::time::Duration;

use xmip_core_transport_azure_blob::client::{
    authority, delete_request, get_request, judge, list_request, listed_names, put_request,
    Client,
};
use xmip_core_transport_azure_blob::message::Response;
use xmip_core_transport_azure_blob::session::{Event, Session};
use xmip_core_transport_azure_blob::xml;

const KEY: &str = "c2VjcmV0";
const AT: &str = "Tue, 08 Sep 2026 12:00:00 GMT";

#[test]
fn a_server_failure_is_worth_repeating_and_a_client_one_is_not() {
    assert!(judge(Response::new(503)).expect_err("server").retryable);
    assert!(judge(Response::new(429)).expect_err("throttled").retryable);
    let busy = Response::new(400).body(xml::error("ServerBusy", "").as_bytes());
    assert!(judge(busy).expect_err("busy").retryable);
    assert!(!judge(Response::new(403)).expect_err("forbidden").retryable);
    assert!(Client::new("orders.local", "acct", KEY).is_err());
    assert!(Client::new("http://orders.local", "acct", "not base64!").is_err());
}

#[test]
fn a_failure_names_the_status_and_the_code() {
    let missing = Response::new(404).body(xml::error("BlobNotFound", "gone").as_bytes());
    let failure = judge(missing).expect_err("missing");
    assert_eq!(failure.message, "the Blob service answered 404 BlobNotFound");
    assert!(!failure.retryable);
    let failure = judge(Response::new(408)).expect_err("timeout");
    assert_eq!(failure.message, "the Blob service answered 408 ");
    assert!(failure.retryable);
    let fine = judge(Response::new(204)).expect("a success");
    assert_eq!(fine.status, 204);
    assert!(judge(Response::new(300)).is_err());
    assert!(judge(Response::new(199)).is_err());
}

#[test]
fn an_endpoint_is_its_authority() {
    assert_eq!(authority("http://127.0.0.1:10000").expect("http"), "127.0.0.1:10000");
    assert_eq!(
        authority("https://acct.blob.core.windows.net/").expect("https"),
        "acct.blob.core.windows.net"
    );
    assert!(authority("orders.local").is_err());
    assert!(authority("http://").is_err());
    assert!(authority("ftp://x").is_err());
}

#[test]
fn the_four_requests_name_what_they_call() {
    let list = list_request("my box", "in/");
    assert_eq!(list.method, "GET");
    assert_eq!(list.path, "/my%20box");
    assert_eq!(list.query_value("comp"), Some("list"));
    assert_eq!(list.query_value("restype"), Some("container"));
    assert_eq!(list.query_value("prefix"), Some("in/"));
    let get = get_request("orders", "in/a b.edi");
    assert_eq!(get.path, "/orders/in/a%20b.edi");
    let put = put_request("orders", "in/ä.edi", b"UNA");
    assert_eq!(put.method, "PUT");
    assert_eq!(put.path, "/orders/in/%C3%A4.edi");
    assert_eq!(put.body, b"UNA");
    assert_eq!(put.header_value("x-ms-blob-type"), Some("BlockBlob"));
    let delete = delete_request("a/b", "c");
    assert_eq!(delete.method, "DELETE");
    assert_eq!(delete.path, "/a%2Fb/c");
}

/// The four calls, each prepared by a client and answered by a session,
/// with no socket between them.
#[test]
fn the_four_calls_prepared_by_a_client_are_answered_by_a_session() {
    let client = Client::new("http://127.0.0.1:10000", "acct", KEY)
        .expect("endpoint")
        .timing_out_after(Duration::from_secs(2));
    assert_eq!(client.timeout(), Some(Duration::from_secs(2)));
    assert_eq!(client.endpoint(), "http://127.0.0.1:10000");
    let mut session = Session::new("acct", KEY).expect("base64");
    let mut call = |request| {
        let (event, response) = session.answer(&client.prepare(request, AT));
        (event, judge(response))
    };
    assert!(call(put_request("orders", "in/a b.edi", b"UNA")).1.is_ok());
    assert!(call(put_request("orders", "out/c.edi", b"UNB")).1.is_ok());
    let (event, listed) = call(list_request("orders", "in/"));
    assert!(matches!(&event, Event::Listed { prefix, .. } if prefix == "in/"));
    assert_eq!(listed_names(&listed.expect("listed")), vec!["in/a b.edi".to_string()]);
    let (event, got) = call(get_request("orders", "in/a b.edi"));
    assert_eq!(got.expect("got").body, b"UNA");
    let origin = "azure-blob://orders/in/a b.edi".to_string();
    assert_eq!(event, Event::Retrieved(origin.clone()));
    let (event, deleted) = call(delete_request("orders", "in/a b.edi"));
    assert!(deleted.is_ok());
    assert_eq!(event, Event::Deleted(origin));
    let (event, missing) = call(get_request("orders", "in/a b.edi"));
    let missing = missing.expect_err("gone");
    assert!(missing.message.contains("404 BlobNotFound"), "{missing:?}");
    assert!(!missing.retryable);
    assert_eq!(event, Event::Refused("BlobNotFound".to_string()));
    assert_eq!(session.blobs().len(), 1);
}

/// A container with a slash in it: its blob is held under the full name and
/// comes back, and once deleted is gone.
#[test]
fn a_container_with_a_slash_round_trips() {
    let client = Client::new("http://127.0.0.1:10000", "acct", KEY).expect("endpoint");
    let mut session = Session::new("acct", KEY).expect("base64");
    let mut call = |request| judge(session.answer(&client.prepare(request, AT)).1);
    assert!(call(put_request("a/b", "x", b"UNA")).is_ok());
    assert_eq!(call(get_request("a/b", "x")).expect("got").body, b"UNA");
    assert!(call(delete_request("a/b", "x")).is_ok());
    let missing = call(get_request("a/b", "x")).expect_err("gone");
    assert!(missing.message.contains("404 BlobNotFound"));
    assert!(!missing.retryable);
    assert!(session.blobs().is_empty());
}

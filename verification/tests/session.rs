use xmip_core_transport_azure_blob::message::Request;
use xmip_core_transport_azure_blob::session::{origin, Arrived, Event, Session};
use xmip_core_transport_azure_blob::shared_key::Signer;

const KEY: &str = "c2VjcmV0";
const AT: &str = "Tue, 08 Sep 2026 12:00:00 GMT";

fn signed(request: Request) -> Request {
    Signer::new("acct", KEY)
        .expect("base64")
        .sign(request.header("Host", "blob.local"), AT)
}

fn listing(prefix: &str) -> Request {
    Request::new("GET", "/c")
        .query("restype", "container")
        .query("comp", "list")
        .query("prefix", prefix)
}

#[test]
fn a_session_answers_in_azures_shapes_and_refuses_a_bad_signature() {
    let mut session = Session::new("acct", KEY).expect("base64");
    let (event, response) = session.answer(&signed(Request::new("PUT", "/c/b").body(b"x")));
    assert_eq!(response.status, 201);
    assert_eq!(
        event,
        Event::Stored(Arrived::new("azure-blob://c/b", b"x".to_vec()))
    );
    let (_, response) = session.answer(&signed(listing("b")));
    assert!(response.text().contains("<Name>b</Name>"));
    let (_, response) = session.answer(&signed(listing("z")));
    assert!(!response.text().contains("<Name>"));
    let (event, response) = session.answer(&signed(Request::new("DELETE", "/c/b")));
    assert_eq!(
        (event, response.status),
        (Event::Deleted("azure-blob://c/b".to_string()), 202)
    );
    assert!(session.blobs().is_empty());
    let (event, response) = session.answer(&signed(Request::new("DELETE", "/c/b")));
    assert_eq!(event, Event::Refused("BlobNotFound".to_string()));
    assert_eq!(
        response.header_value("x-ms-error-code"),
        Some("BlobNotFound")
    );
    let other = Signer::new("acct", "d3Jvbmc=")
        .expect("base64")
        .sign(Request::new("GET", "/c/b").header("Host", "blob.local"), AT);
    let (event, response) = session.answer(&other);
    assert_eq!(event, Event::Refused("AuthenticationFailed".to_string()));
    assert_eq!(response.status, 403);
    let (_, response) = session.answer(&signed(Request::new("GET", "/")));
    assert_eq!(response.status, 400);
    let (_, response) = session.answer(&signed(Request::new("GET", "/c")));
    assert_eq!(
        response.status, 405,
        "a container GET that is not a listing"
    );
}

#[test]
fn what_is_put_is_got_back_and_a_second_put_replaces_it() {
    let mut session = Session::new("acct", KEY).expect("base64");
    session.answer(&signed(Request::new("PUT", "/c/in/a").body(b"one")));
    session.answer(&signed(Request::new("PUT", "/c/in/a").body(b"two")));
    let (event, response) = session.answer(&signed(Request::new("GET", "/c/in/a")));
    assert_eq!(event, Event::Retrieved("azure-blob://c/in/a".to_string()));
    assert_eq!(response.status, 200);
    assert_eq!(response.body, b"two");
    assert_eq!(response.header_value("x-ms-blob-type"), Some("BlockBlob"));
    assert_eq!(session.blobs().len(), 1);
    assert_eq!(session.blobs()[0], ("c/in/a".to_string(), b"two".to_vec()));
    let (event, response) = session.answer(&signed(Request::new("GET", "/c/in/b")));
    assert_eq!(event, Event::Refused("BlobNotFound".to_string()));
    assert_eq!(response.status, 404);
}

#[test]
fn a_listing_names_what_is_under_the_prefix_in_name_order() {
    let mut session = Session::new("acct", KEY).expect("base64");
    for name in ["/c/in/2", "/c/out/1", "/c/in/1", "/d/in/3"] {
        session.answer(&signed(Request::new("PUT", name).body(b"")));
    }
    let (event, response) = session.answer(&signed(listing("in/")));
    assert_eq!(
        event,
        Event::Listed {
            container: "c".to_string(),
            prefix: "in/".to_string()
        }
    );
    assert_eq!(response.status, 200);
    assert_eq!(response.header_value("content-type"), Some("application/xml"));
    let names = xmip_core_transport_azure_blob::xml::texts(&response.text(), "Name");
    assert_eq!(names, vec!["in/1".to_string(), "in/2".to_string()]);
    let names: Vec<&str> = session.blobs().iter().map(|(n, _)| n.as_str()).collect();
    assert_eq!(names, vec!["c/in/1", "c/in/2", "c/out/1", "d/in/3"]);
}

#[test]
fn a_percent_encoded_path_names_the_decoded_blob_and_leading_slashes_do_not_count() {
    let mut session = Session::new("acct", KEY).expect("base64");
    let (event, _) = session.answer(&signed(Request::new("PUT", "//c/in%2Fa%20b.edi").body(b"z")));
    assert_eq!(
        event,
        Event::Stored(Arrived::new("azure-blob://c/in/a b.edi", b"z".to_vec()))
    );
    assert_eq!(session.blobs()[0].0, "c/in/a b.edi");
}

#[test]
fn an_unsigned_request_is_refused_with_the_reason_in_the_body() {
    let mut session = Session::new("acct", KEY).expect("base64");
    let (event, response) = session.answer(&Request::new("GET", "/c/b"));
    assert_eq!(event, Event::Refused("AuthenticationFailed".to_string()));
    assert_eq!(response.status, 403);
    assert!(response.text().contains("a request with no Authorization"));
    let (_, response) = session.answer(&signed(Request::new("POST", "/c/b")));
    assert_eq!(response.status, 405);
    assert!(response.text().contains("<Code>UnsupportedHttpVerb</Code>"));
}

#[test]
fn blobs_given_are_held_sorted_and_the_later_of_two_wins() {
    let session = Session::new("acct", KEY).expect("base64").with_blobs(vec![
        ("c/b".to_string(), b"1".to_vec()),
        ("c/a".to_string(), b"2".to_vec()),
        ("c/b".to_string(), b"3".to_vec()),
    ]);
    assert_eq!(
        session.blobs(),
        &vec![
            ("c/a".to_string(), b"2".to_vec()),
            ("c/b".to_string(), b"3".to_vec())
        ]
    );
    assert!(Session::new("acct", "not base64!").is_err());
}

#[test]
fn an_origin_is_the_blob_in_the_protocols_own_terms() {
    assert_eq!(origin("orders", "in/1.edi"), "azure-blob://orders/in/1.edi");
}

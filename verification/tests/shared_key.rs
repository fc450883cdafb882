use xmip_core_transport_azure_blob::message::Request;
use xmip_core_transport_azure_blob::shared_key::{string_to_sign, Signer, VERSION};

const KEY: &str = "c2VjcmV0";
const AT: &str = "Tue, 08 Sep 2026 12:00:00 GMT";

#[test]
fn the_string_to_sign_is_laid_out_as_azure_documents_it() {
    let request = Request::new("GET", "/orders")
        .query("restype", "container")
        .query("comp", "list")
        .query("prefix", "in/")
        .header("Host", "blob.local")
        .header("x-ms-version", VERSION)
        .header("x-ms-date", AT);
    assert_eq!(
        string_to_sign("acct", &request),
        format!(
            "GET\n\n\n\n\n\n\n\n\n\n\n\nx-ms-date:{AT}\nx-ms-version:{VERSION}\n\
             /acct/orders\ncomp:list\nprefix:in/\nrestype:container"
        )
    );
    let put = Request::new("PUT", "/orders/in%2F1.edi")
        .header("Content-Type", "application/octet-stream")
        .header("x-ms-blob-type", "BlockBlob")
        .body(b"UNA");
    let to_sign = string_to_sign("acct", &put);
    let lines: Vec<&str> = to_sign.split('\n').collect();
    assert_eq!(lines[3], "3", "content-length is the body's length");
    assert_eq!(lines[5], "application/octet-stream");
    assert_eq!(lines[12], "x-ms-blob-type:BlockBlob");
    assert_eq!(lines[13], "/acct/orders/in%2F1.edi");
}

#[test]
fn a_signature_verifies_and_a_tampered_request_or_another_key_does_not() {
    let signer = Signer::new("acct", KEY).expect("base64");
    let sent = signer.sign(
        Request::new("PUT", "/orders/in/1.edi")
            .header("Host", "blob.local")
            .body(b"UNA"),
        AT,
    );
    assert!(sent.header_value("x-ms-version").is_some());
    assert!(sent
        .header_value("authorization")
        .expect("signed")
        .starts_with("SharedKey acct:"));
    signer.verify(&sent).expect("verifies");
    let mut tampered = sent.clone();
    tampered.body = b"UNB".to_vec();
    signer.verify(&tampered).expect(
        "Shared Key signs Content-Length, not the bytes: a same-length \
         body still verifies, which is the scheme, not a defect here",
    );
    let mut tampered = sent.clone();
    tampered.body = b"UNA and more".to_vec();
    assert!(signer.verify(&tampered).is_err(), "the length is signed");
    let mut tampered = sent.clone();
    tampered.path = "/orders/in/2.edi".to_string();
    assert!(signer.verify(&tampered).is_err());
    let other = Signer::new("acct", "d3Jvbmc=").expect("base64");
    assert!(other.verify(&sent).is_err());
    assert!(signer.verify(&Request::new("GET", "/")).is_err());
    assert!(Signer::new("acct", "not base64!").is_err());
}

#[test]
fn standard_headers_are_found_whatever_their_case_and_x_ms_values_are_trimmed() {
    let request = Request::new("PUT", "/c/b")
        .header("CONTENT-TYPE", "text/plain")
        .header("X-MS-Meta-Name", "  spaced\t")
        .header("x-ms-a", "1")
        .query("B", "2")
        .query("a", "1");
    assert_eq!(
        string_to_sign("acct", &request),
        "PUT\n\n\n\n\ntext/plain\n\n\n\n\n\n\nx-ms-a:1\nx-ms-meta-name:spaced\n/acct/c/b\na:1\nb:2"
    );
}

#[test]
fn a_body_of_ten_bytes_is_signed_as_length_ten() {
    let request = Request::new("PUT", "/c/b").body(b"0123456789");
    let to_sign = string_to_sign("a", &request);
    let lines: Vec<&str> = to_sign.split('\n').collect();
    assert_eq!(lines[3], "10");
}

#[test]
fn the_authorization_a_signer_adds_is_what_it_verifies() {
    let signer = Signer::new("acct", "  c2VjcmV0\n").expect("trimmed base64");
    let sent = signer.sign(Request::new("GET", "/c/b"), AT);
    assert_eq!(sent.headers.len(), 3);
    assert_eq!(sent.headers[0], ("x-ms-date".to_string(), AT.to_string()));
    assert_eq!(sent.headers[1], ("x-ms-version".to_string(), VERSION.to_string()));
    assert_eq!(sent.headers[2].0, "Authorization");
    let value = &sent.headers[2].1;
    // "SharedKey acct:" then 44 characters of base64 for 32 bytes of HMAC.
    assert_eq!(value.len(), "SharedKey acct:".len() + 44);
    let again = signer.sign(Request::new("GET", "/c/b"), AT);
    assert_eq!(again.headers[2].1, *value);
    let other_moment = signer.sign(Request::new("GET", "/c/b"), "Wed, 09 Sep 2026 12:00:00 GMT");
    assert_ne!(other_moment.headers[2].1, *value);
    let unsigned = Request::new("GET", "/c/b").header("Authorization", "SharedKey acct:AAAA");
    let err = signer.verify(&unsigned).expect_err("wrong signature");
    assert_eq!(err.message, "a signature that does not match");
    assert!(!err.retryable);
    let err = signer.verify(&Request::new("GET", "/")).expect_err("none");
    assert_eq!(err.message, "a request with no Authorization");
    let err = Signer::new("acct", "not base64!").expect_err("refused");
    assert!(err.message.starts_with("an account key that is not base64: "));
}

#[test]
fn the_signature_is_hmac_sha256_of_the_string_to_sign_in_base64() {
    // HMAC-SHA256 under the key "secret" of the string to sign of a bare GET
    // of "/" as account "a": that string is "GET" and eleven empty lines,
    // then the date and version headers and the resource.
    let signer = Signer::new("a", KEY).expect("base64");
    let sent = signer.sign(Request::new("GET", "/"), AT);
    let value = sent.header_value("authorization").expect("signed");
    assert!(value.starts_with("SharedKey a:"));
    assert!(value.ends_with('='));
    assert_ne!(value, "SharedKey a:");
}

#[test]
fn the_path_and_the_length_of_the_body_are_in_the_string_to_sign() {
    let put = Request::new("PUT", "/orders/in/1.edi").header("Host", "blob.local").body(b"UNA");
    let to_sign = string_to_sign("acct", &put);
    let mut elsewhere = put.clone();
    elsewhere.path = "/orders/in/2.edi".to_string();
    assert_ne!(string_to_sign("acct", &elsewhere), to_sign);
    let mut longer = put.clone();
    longer.body = b"UNA and more".to_vec();
    assert_ne!(string_to_sign("acct", &longer), to_sign);
    let mut empty = put.clone();
    empty.body = Vec::new();
    assert_ne!(string_to_sign("acct", &empty), to_sign);
    let mut same_length = put.clone();
    same_length.body = b"UNB".to_vec();
    assert_eq!(string_to_sign("acct", &same_length), to_sign);
}

#[test]
fn the_string_to_sign_ignores_the_order_and_case_of_headers_and_query() {
    let one = Request::new("GET", "/orders")
        .query("restype", "container")
        .query("Comp", "list")
        .header("Host", "blob.local")
        .header("x-ms-version", VERSION)
        .header("X-MS-Date", AT)
        .header("Content-Type", "text/plain");
    let two = Request::new("GET", "/orders")
        .query("comp", "list")
        .query("restype", "container")
        .header("content-type", "text/plain")
        .header("x-ms-date", AT)
        .header("HOST", "blob.local")
        .header("X-Ms-Version", VERSION);
    assert_eq!(string_to_sign("acct", &one), string_to_sign("acct", &two));
}

#[test]
fn a_key_and_its_trimmed_copy_sign_alike_and_a_key_that_is_not_base64_is_refused() {
    let padded = Signer::new("acct", "  c2VjcmV0\n").expect("base64");
    let trimmed = Signer::new("acct", KEY).expect("base64");
    let request = Request::new("GET", "/c/b").header("Host", "blob.local");
    let one = padded.sign(request.clone(), AT);
    let two = trimmed.sign(request, AT);
    assert_eq!(one.header_value("authorization"), two.header_value("authorization"));
    let refused = Signer::new("acct", "not base64!").expect_err("refused");
    assert!(refused.message.starts_with("an account key that is not base64: "));
    assert!(!refused.retryable);
    assert!(Signer::new("acct", "c2VjcmV").is_err(), "no canonical padding");
}

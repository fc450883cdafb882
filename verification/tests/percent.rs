use xmip_core_transport_azure_blob::percent::{decode, encode};

#[test]
fn unreserved_characters_stand_and_the_rest_are_escaped_in_upper_case_hex() {
    assert_eq!(encode("in/a b.edi", true), "in/a%20b.edi");
    assert_eq!(encode("in/a b.edi", false), "in%2Fa%20b.edi");
    assert_eq!(encode("A-z_0.9~", false), "A-z_0.9~");
    assert_eq!(encode("ä", true), "%C3%A4");
    assert_eq!(encode("", true), "");
}

#[test]
fn decoding_undoes_encoding() {
    for text in ["in/a b.edi", "ä/ö ü", "100% sure?", "", "/", "a+b=c&d"] {
        assert_eq!(decode(&encode(text, true)), text);
        assert_eq!(decode(&encode(text, false)), text);
    }
}

#[test]
fn a_stray_percent_is_kept_and_hex_is_read_in_either_case() {
    assert_eq!(decode("%2f%2F"), "//");
    assert_eq!(decode("100%"), "100%");
    assert_eq!(decode("%zz"), "%zz");
    assert_eq!(decode("a+b"), "a+b");
}

#[test]
fn bytes_that_are_not_utf8_decode_to_the_replacement_character() {
    assert_eq!(decode("a%FFb"), "a\u{FFFD}b");
    let response = xmip_core_transport_azure_blob::message::Response::new(200).body(&[0x55, 0xC3]);
    assert_eq!(response.text(), "U\u{FFFD}");
}

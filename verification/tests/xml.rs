use xmip_core_transport_azure_blob::xml::{error, first, listing, texts};

#[test]
fn a_listing_names_its_blobs_back_with_entities_intact() {
    let blobs = vec!["in/a&b.edi".to_string(), "in/<c>.edi".to_string()];
    let xml = listing("orders", "in/", &blobs);
    assert!(xml.contains("<Name>in/a&amp;b.edi</Name>"));
    assert_eq!(texts(&xml, "Name"), blobs);
    assert_eq!(first(&xml, "Prefix").as_deref(), Some("in/"));
    assert!(texts(&xml, "Absent").is_empty());
    assert!(texts("<Name>unclosed", "Name").is_empty());
}

#[test]
fn an_error_names_its_code() {
    let xml = error("AuthenticationFailed", "Server failed to authenticate");
    assert_eq!(first(&xml, "Code").as_deref(), Some("AuthenticationFailed"));
    assert_eq!(first(&xml, "Absent"), None);
}

#[test]
fn a_listing_is_written_exactly_so() {
    let xml = listing("o\"c", "p'", &["x>y".to_string()]);
    assert_eq!(
        xml,
        "<?xml version=\"1.0\" encoding=\"utf-8\"?><EnumerationResults ContainerName=\"o&quot;c\">\
         <Prefix>p&apos;</Prefix><Blobs><Blob><Name>x&gt;y</Name><Properties /></Blob></Blobs>\
         <NextMarker /></EnumerationResults>"
    );
    let empty = listing("c", "", &[]);
    assert!(texts(&empty, "Name").is_empty());
    assert_eq!(first(&empty, "Prefix").as_deref(), Some(""));
}

#[test]
fn an_error_is_written_exactly_so_and_reads_back() {
    let xml = error("A&B", "x<y");
    assert_eq!(
        xml,
        "<?xml version=\"1.0\" encoding=\"utf-8\"?><Error><Code>A&amp;B</Code>\
         <Message>x&lt;y</Message></Error>"
    );
    assert_eq!(first(&xml, "Code").as_deref(), Some("A&B"));
    assert_eq!(first(&xml, "Message").as_deref(), Some("x<y"));
}

#[test]
fn texts_are_found_in_order_and_an_unknown_entity_is_left_alone() {
    let doc = "<a><Name>one</Name><Name>t&amp;w&unknown;o</Name><Name>three";
    assert_eq!(texts(doc, "Name"), vec!["one".to_string(), "t&w&unknown;o".to_string()]);
    assert_eq!(first(doc, "Name").as_deref(), Some("one"));
    assert_eq!(texts("<Names>x</Names><Name>y</Name>", "Name"), vec!["y".to_string()]);
}

#[test]
fn a_listing_names_its_prefix_back() {
    let doc = listing("orders", "in/<&>", &["in/a".to_string()]);
    assert_eq!(first(&doc, "Prefix"), Some("in/<&>".to_string()));
    assert_eq!(first(&listing("orders", "", &[]), "Prefix"), Some(String::new()));
}

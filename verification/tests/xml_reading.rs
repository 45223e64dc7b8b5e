use ooxmlsdk::elements::{expect_event_start, read_element_text, skip_element};
use ooxmlsdk::error::SdkError;
use ooxmlsdk::namespaces::{get_element_namespace, update_namespace_map, NamespaceMap};
use ooxmlsdk::reader::{from_str_inner, SliceReader, XmlEventKind, XmlTag};

fn next_start(reader: &mut SliceReader) -> XmlTag {
    loop {
        match reader.next().unwrap().kind {
            XmlEventKind::Start(t) | XmlEventKind::Empty(t) => return t,
            XmlEventKind::Eof => panic!("no start tag"),
            _ => {}
        }
    }
}

#[test]
fn reader_yields_events_in_order() {
    let mut reader = from_str_inner("<?xml version=\"1.0\"?><a x=\"1\">t&amp;<b/></a>");
    assert!(matches!(reader.next().unwrap().kind, XmlEventKind::Decl));
    match reader.next().unwrap().kind {
        XmlEventKind::Start(t) => {
            assert_eq!(t.name, b"a");
            assert_eq!(t.attributes.len(), 1);
            let attr = t.attributes[0].as_ref().unwrap();
            assert_eq!(attr.key, b"x");
            assert_eq!(attr.value, b"1");
        }
        _ => panic!("expected a start tag"),
    }
    assert!(matches!(reader.next().unwrap().kind, XmlEventKind::Text(t) if t == b"t"));
    assert!(matches!(reader.next().unwrap().kind, XmlEventKind::GeneralRef(r) if r == b"amp"));
    assert!(matches!(reader.next().unwrap().kind, XmlEventKind::Empty(t) if t.name == b"b"));
    assert!(matches!(reader.next().unwrap().kind, XmlEventKind::End(n) if n == b"a"));
    assert!(matches!(reader.next().unwrap().kind, XmlEventKind::Eof));
    assert!(matches!(reader.next().unwrap().kind, XmlEventKind::Eof));
}

#[test]
fn end_names_need_not_match() {
    let mut reader = from_str_inner("<a></b>");
    assert!(matches!(reader.next().unwrap().kind, XmlEventKind::Start(_)));
    assert!(matches!(reader.next().unwrap().kind, XmlEventKind::End(n) if n == b"b"));
}

#[test]
fn repeated_attribute_only_fails_when_checked() {
    let mut reader = from_str_inner("<a k=\"1\" k=\"2\"/>");
    let tag = next_start(&mut reader);
    assert!(tag.attributes.iter().all(|a| a.is_ok()));
    assert!(tag.checked_attributes.iter().any(|a| a.is_err()));
}

#[test]
fn namespace_declarations_are_bound() {
    let mut reader = from_str_inner(
        "<r xmlns=\"urn:default\" xmlns:p=\"urn:a&amp;b\" other=\"x\"><p:c/><d/><q:e/></r>",
    );
    let root = next_start(&mut reader);
    let mut map = NamespaceMap::new();
    update_namespace_map(&reader, &root, &mut map).unwrap();
    assert_eq!(map.len(), 2);
    assert_eq!(map.get(&String::new()).unwrap(), "urn:default");
    assert_eq!(map.get(&"p".to_string()).unwrap(), "urn:a&b");

    let prefixed = next_start(&mut reader);
    assert_eq!(get_element_namespace(&prefixed, &map).unwrap(), "urn:a&b");
    let plain = next_start(&mut reader);
    assert_eq!(get_element_namespace(&plain, &map).unwrap(), "urn:default");
    let unknown = next_start(&mut reader);
    match get_element_namespace(&unknown, &map) {
        Err(SdkError::CommonError(text)) => assert_eq!(text, "Unknown prefix: {ns}"),
        other => panic!("unexpected {other:?}"),
    }
    assert_eq!(get_element_namespace(&plain, &NamespaceMap::new()).unwrap(), "");
}

#[test]
fn bad_namespace_value_is_an_error() {
    let mut reader = from_str_inner("<r xmlns:p=\"a&unknown;b\"/>");
    let root = next_start(&mut reader);
    let mut map = NamespaceMap::new();
    assert!(matches!(update_namespace_map(&reader, &root, &mut map), Err(SdkError::QuickXmlError(_))));
    assert_eq!(map.len(), 0);
}

#[test]
fn malformed_attribute_is_an_error() {
    let mut reader = from_str_inner("<r xmlns:a=\"1\" b c=\"2\"/>");
    let root = next_start(&mut reader);
    let mut map = NamespaceMap::new();
    assert!(matches!(update_namespace_map(&reader, &root, &mut map), Err(SdkError::AttrError(_))));
    assert_eq!(map.get(&"a".to_string()).unwrap(), "1");
}

#[test]
fn element_text_resolves_predefined_entities() {
    let mut reader = from_str_inner("<t>a &lt;b&gt; &amp; &quot;c&quot; &apos;d&apos;</t>");
    let start = next_start(&mut reader);
    let text = read_element_text(&mut reader, &start).unwrap();
    assert_eq!(text.as_deref(), Some("a <b> & \"c\" 'd'"));
    assert!(matches!(reader.next().unwrap().kind, XmlEventKind::Eof));
}

#[test]
fn element_text_drops_other_references() {
    let mut reader = from_str_inner("<t>x&#38;y&nbsp;z</t>");
    let start = next_start(&mut reader);
    assert_eq!(read_element_text(&mut reader, &start).unwrap().as_deref(), Some("xyz"));
}

#[test]
fn element_without_text_has_none() {
    let mut reader = from_str_inner("<t></t>");
    let start = next_start(&mut reader);
    assert_eq!(read_element_text(&mut reader, &start).unwrap(), None);
}

#[test]
fn element_text_refuses_nested_elements() {
    let mut reader = from_str_inner("<t>a<b/></t>");
    let start = next_start(&mut reader);
    match read_element_text(&mut reader, &start) {
        Err(SdkError::CommonError(text)) => assert!(text.starts_with("Unexpected event: Empty(")),
        other => panic!("unexpected {other:?}"),
    }
}

#[test]
fn element_text_refuses_end_of_file() {
    let mut reader = from_str_inner("<t>abc");
    let start = next_start(&mut reader);
    match read_element_text(&mut reader, &start) {
        Err(SdkError::CommonError(text)) => assert_eq!(text, "Unexpected end of file"),
        other => panic!("unexpected {other:?}"),
    }
}

#[test]
fn skip_element_reads_to_matching_end() {
    let mut reader = from_str_inner("<a><b><c/><d>x</d></b><e/></a><after/>");
    let start = next_start(&mut reader);
    assert_eq!(start.name, b"a");
    skip_element(&mut reader).unwrap();
    let next = next_start(&mut reader);
    assert_eq!(next.name, b"after");
}

#[test]
fn skip_element_refuses_end_of_file() {
    let mut reader = from_str_inner("<a><b></b>");
    next_start(&mut reader);
    match skip_element(&mut reader) {
        Err(SdkError::CommonError(text)) => assert_eq!(text, "Unexpected end of file"),
        other => panic!("unexpected {other:?}"),
    }
}

#[test]
fn expect_event_start_checks_the_local_name() {
    let mut reader = from_str_inner("<!-- c --><x:root xmlns:x=\"urn:x\"/>");
    let mut map = NamespaceMap::new();
    let (tag, empty) = expect_event_start(&mut reader, None, b"root", &mut map).unwrap();
    assert!(empty);
    assert_eq!(tag.name, b"x:root");
    assert_eq!(map.get(&"x".to_string()).unwrap(), "urn:x");

    let mut reader = from_str_inner("<x:other/>");
    let mut map = NamespaceMap::new();
    match expect_event_start(&mut reader, None, b"root", &mut map) {
        Err(SdkError::MismatchError { expected, found }) => {
            assert_eq!(expected, "root");
            assert_eq!(found, "x:other");
        }
        other => panic!("unexpected {other:?}"),
    }

    let mut reader = from_str_inner("<?xml version=\"1.0\"?>");
    let mut map = NamespaceMap::new();
    match expect_event_start(&mut reader, None, b"root", &mut map) {
        Err(SdkError::CommonError(text)) => assert_eq!(text, "Unexpected end of file"),
        other => panic!("unexpected {other:?}"),
    }
}

#[test]
fn expect_event_start_takes_a_given_tag_as_is() {
    let mut reader = from_str_inner("<other/>");
    let tag = next_start(&mut reader);
    let mut map = NamespaceMap::new();
    let mut fresh = from_str_inner("");
    let (back, empty) = expect_event_start(&mut fresh, Some((tag, false)), b"root", &mut map).unwrap();
    assert_eq!(back.name, b"other");
    assert!(!empty);
    assert_eq!(map.len(), 0);
}

#[test]
fn invalid_text_is_an_encoding_error() {
    let bytes = [b'<', b't', b'>', 0xff, b'<', b'/', b't', b'>'];
    let mut reader = ooxmlsdk::reader::from_bytes_inner(&bytes);
    let start = next_start(&mut reader);
    assert!(matches!(read_element_text(&mut reader, &start), Err(SdkError::QuickEncodingError(_))));
}

use ooxmlsdk::error::SdkError;
use ooxmlsdk::namespaces::NamespaceMap;
use ooxmlsdk::text::parse_bool_bytes;

#[test]
fn true_spellings() {
    for b in ["true", "1", "True", "TRUE", "t", "Yes", "YES", "yes", "y"] {
        assert!(matches!(parse_bool_bytes(b.as_bytes()), Ok(true)), "{b}");
    }
}

#[test]
fn false_spellings_and_empty() {
    for b in ["false", "0", "False", "FALSE", "f", "No", "NO", "no", "n", ""] {
        assert!(matches!(parse_bool_bytes(b.as_bytes()), Ok(false)), "{b}");
    }
}

#[test]
fn other_values_are_refused_with_their_text() {
    match parse_bool_bytes(b"maybe") {
        Err(SdkError::CommonError(text)) => assert_eq!(text, "maybe"),
        other => panic!("unexpected {other:?}"),
    }
    match parse_bool_bytes(b"tRUE") {
        Err(SdkError::CommonError(text)) => assert_eq!(text, "tRUE"),
        other => panic!("unexpected {other:?}"),
    }
    match parse_bool_bytes(b" true") {
        Err(SdkError::CommonError(text)) => assert_eq!(text, " true"),
        other => panic!("unexpected {other:?}"),
    }
}

#[test]
fn invalid_utf8_is_reported_lossily() {
    match parse_bool_bytes(&[0x79, 0xff]) {
        Err(SdkError::CommonError(text)) => assert_eq!(text, "y\u{fffd}"),
        other => panic!("unexpected {other:?}"),
    }
}

#[test]
fn namespace_map_insert_and_get() {
    let mut map = NamespaceMap::new();
    assert_eq!(map.len(), 0);
    map.insert("cp".to_string(), "urn:one".to_string());
    map.insert("dc".to_string(), "urn:two".to_string());
    assert_eq!(map.get(&"cp".to_string()).map(|s| s.as_str()), Some("urn:one"));
    assert_eq!(map.get(&"dc".to_string()).map(|s| s.as_str()), Some("urn:two"));
    assert_eq!(map.get(&"x".to_string()), None);
    map.insert("cp".to_string(), "urn:three".to_string());
    assert_eq!(map.len(), 2);
    assert_eq!(map.get(&"cp".to_string()).map(|s| s.as_str()), Some("urn:three"));
    let (k, v) = map.entry(0);
    assert_eq!((k.as_str(), v.as_str()), ("cp", "urn:three"));
    let copy = map.clone();
    assert_eq!(copy.len(), 2);
    assert_eq!(copy.entry(1).1.as_str(), "urn:two");
}

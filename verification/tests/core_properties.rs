use ooxmlsdk::core_properties::CoreProperties;
use ooxmlsdk::error::SdkError;
use ooxmlsdk::namespaces::NamespaceMap;
use ooxmlsdk::reader::from_str_inner;

const CP: &str = "http://schemas.openxmlformats.org/package/2006/metadata/core-properties";

const CORE_XML: &str = "<?xml version=\"1.0\" encoding=\"UTF-8\" standalone=\"yes\"?>\r\n\
    <cp:coreProperties xmlns:cp=\"http://schemas.openxmlformats.org/package/2006/metadata/core-properties\" \
    xmlns:dc=\"http://purl.org/dc/elements/1.1/\" xmlns:dcterms=\"http://purl.org/dc/terms/\" \
    xmlns:dcmitype=\"http://purl.org/dc/dcmitype/\" xmlns:xsi=\"http://www.w3.org/2001/XMLSchema-instance\">\
    <dc:title>Q1 &amp; Q2</dc:title><dc:subject></dc:subject><dc:creator>Ann</dc:creator>\
    <cp:keywords/><cp:lastModifiedBy>Bob</cp:lastModifiedBy><cp:revision>3</cp:revision>\
    <dcterms:created xsi:type=\"dcterms:W3CDTF\">2024-01-02T03:04:05Z</dcterms:created>\
    <dcterms:modified xsi:type=\"dcterms:W3CDTF\">2024-02-03T04:05:06Z</dcterms:modified>\
    </cp:coreProperties>";

#[test]
fn reads_a_typical_part() {
    let props = CoreProperties::from_str(CORE_XML).unwrap();
    assert_eq!(props.xmlns, None);
    assert_eq!(props.mc_ignorable, None);
    assert_eq!(props.title.as_deref(), Some("Q1 & Q2"));
    assert_eq!(props.subject, None);
    assert_eq!(props.creator.as_deref(), Some("Ann"));
    assert_eq!(props.keywords, None);
    assert_eq!(props.last_modified_by.as_deref(), Some("Bob"));
    assert_eq!(props.revision.as_deref(), Some("3"));
    assert_eq!(props.created.as_deref(), Some("2024-01-02T03:04:05Z"));
    assert_eq!(props.modified.as_deref(), Some("2024-02-03T04:05:06Z"));
    assert_eq!(props.category, None);
    assert_eq!(props.xmlns_map.len(), 5);
    let (k, v) = props.xmlns_map.entry(0);
    assert_eq!((k.as_str(), v.as_str()), ("cp", CP));
    let (k, v) = props.xmlns_map.entry(4);
    assert_eq!((k.as_str(), v.as_str()), ("xsi", "http://www.w3.org/2001/XMLSchema-instance"));
}

#[test]
fn from_reader_and_parse_agree_with_from_str() {
    let a = CoreProperties::from_reader(CORE_XML.as_bytes()).unwrap();
    let b: CoreProperties = CORE_XML.parse().unwrap();
    assert_eq!(a.title, b.title);
    assert_eq!(a.to_xml().unwrap(), b.to_xml().unwrap());
}

#[test]
fn writes_the_part() {
    let props = CoreProperties::from_str(CORE_XML).unwrap();
    let expected = "<?xml version=\"1.0\" encoding=\"UTF-8\" standalone=\"yes\"?>\r\n\
    <cp:coreProperties xmlns:cp=\"http://schemas.openxmlformats.org/package/2006/metadata/core-properties\" \
    xmlns:dc=\"http://purl.org/dc/elements/1.1/\" xmlns:dcterms=\"http://purl.org/dc/terms/\" \
    xmlns:dcmitype=\"http://purl.org/dc/dcmitype/\" xmlns:xsi=\"http://www.w3.org/2001/XMLSchema-instance\">\
    <dcterms:created xsi:type=\"dcterms:W3CDTF\">2024-01-02T03:04:05Z</dcterms:created>\
    <dc:creator>Ann</dc:creator><cp:lastModifiedBy>Bob</cp:lastModifiedBy>\
    <dcterms:modified xsi:type=\"dcterms:W3CDTF\">2024-02-03T04:05:06Z</dcterms:modified>\
    <cp:revision>3</cp:revision><dc:title>Q1 &amp; Q2</dc:title></cp:coreProperties>";
    assert_eq!(props.to_xml().unwrap(), expected);
    let reread = CoreProperties::from_str(&props.to_xml().unwrap()).unwrap();
    assert_eq!(reread.to_xml().unwrap(), expected);
}

#[test]
fn writes_escaped_values_and_default_namespace() {
    let mut props = CoreProperties::default();
    props.xmlns = Some(CP.to_string());
    props.description = Some("a<b>\"c\"&'d'".to_string());
    props.mc_ignorable = Some("x".to_string());
    assert_eq!(
        props.to_xml().unwrap(),
        "<?xml version=\"1.0\" encoding=\"UTF-8\" standalone=\"yes\"?>\r\n\
    <coreProperties xmlns=\"http://schemas.openxmlformats.org/package/2006/metadata/core-properties\" \
    mc:Ignorable=\"x\"><dc:description>a&lt;b&gt;&quot;c&quot;&amp;&apos;d&apos;</dc:description>\
    </coreProperties>"
    );
    props.xmlns = Some("urn:other".to_string());
    assert!(props.to_xml().unwrap().contains("<cp:coreProperties xmlns=\"urn:other\" mc:Ignorable=\"x\">"));
}

#[test]
fn to_string_inner_names_the_root_as_asked() {
    let props = CoreProperties::default();
    let header = "<?xml version=\"1.0\" encoding=\"UTF-8\" standalone=\"yes\"?>\r\n";
    assert_eq!(props.to_string_inner(false).unwrap(), format!("{header}<coreProperties></coreProperties>"));
    assert_eq!(props.to_string_inner(true).unwrap(), format!("{header}<cp:coreProperties></cp:coreProperties>"));
    let mut map = NamespaceMap::new();
    map.insert("dc".to_string(), "urn:dc".to_string());
    let mut props = CoreProperties::default();
    props.xmlns_map = map;
    assert_eq!(
        props.to_string_inner(true).unwrap(),
        format!("{header}<cp:coreProperties xmlns:dc=\"urn:dc\"></cp:coreProperties>")
    );
}

#[test]
fn reads_root_attributes() {
    let xml = "<coreProperties xmlns=\"http://schemas.openxmlformats.org/package/2006/metadata/core-properties\" xmlns:mc=\"urn:mc\" mc:Ignorable=\"a &amp; b\"><category>c</category></coreProperties>";
    let props = CoreProperties::from_str(xml).unwrap();
    assert_eq!(props.xmlns.as_deref(), Some(CP));
    assert_eq!(props.mc_ignorable.as_deref(), Some("a & b"));
    assert_eq!(props.category.as_deref(), Some("c"));
    assert_eq!(props.xmlns_map.get(&String::new()).unwrap(), CP);
}

#[test]
fn empty_root_has_no_properties() {
    let props = CoreProperties::from_str("<cp:coreProperties xmlns:cp=\"urn:x\"/>").unwrap();
    assert_eq!(props.title, None);
    assert_eq!(props.xmlns_map.len(), 1);
}

#[test]
fn later_value_wins_and_empty_element_clears() {
    let xml = "<cp:coreProperties xmlns:cp=\"http://schemas.openxmlformats.org/package/2006/metadata/core-properties\"><cp:version>1</cp:version><cp:version>2</cp:version><cp:category>x</cp:category><cp:category></cp:category></cp:coreProperties>";
    let props = CoreProperties::from_str(xml).unwrap();
    assert_eq!(props.version.as_deref(), Some("2"));
    assert_eq!(props.category, None);
}

#[test]
fn unknown_child_is_an_error() {
    let xml = "<cp:coreProperties xmlns:cp=\"http://schemas.openxmlformats.org/package/2006/metadata/core-properties\"><cp:title>t</cp:title></cp:coreProperties>";
    match CoreProperties::from_str(xml) {
        Err(SdkError::CommonError(text)) => assert_eq!(text, "coreProperties"),
        other => panic!("unexpected {other:?}"),
    }
}

#[test]
fn unknown_prefix_is_an_error() {
    match CoreProperties::from_str("<coreProperties><zz:title>t</zz:title></coreProperties>") {
        Err(SdkError::CommonError(text)) => assert_eq!(text, "Unknown prefix: {ns}"),
        other => panic!("unexpected {other:?}"),
    }
}

#[test]
fn wrong_root_is_a_mismatch() {
    match CoreProperties::from_str("<cp:properties xmlns:cp=\"urn:x\"/>") {
        Err(SdkError::MismatchError { expected, found }) => {
            assert_eq!(expected, "coreProperties");
            assert_eq!(found, "cp:properties");
        }
        other => panic!("unexpected {other:?}"),
    }
}

#[test]
fn truncated_part_is_an_error() {
    match CoreProperties::from_str("<coreProperties>") {
        Err(SdkError::CommonError(text)) => assert_eq!(text, "Unexpected end of file"),
        other => panic!("unexpected {other:?}"),
    }
    match CoreProperties::from_str("") {
        Err(SdkError::CommonError(text)) => assert_eq!(text, "Unexpected end of file"),
        other => panic!("unexpected {other:?}"),
    }
}

#[test]
fn repeated_root_attribute_is_an_error() {
    assert!(matches!(
        CoreProperties::from_str("<coreProperties a=\"1\" a=\"2\"/>"),
        Err(SdkError::AttrError(_))
    ));
}

#[test]
fn reads_after_a_given_start_tag() {
    let mut reader = from_str_inner("<other><dc:creator>me</dc:creator></coreProperties>");
    let tag = match reader.next().unwrap().kind {
        ooxmlsdk::reader::XmlEventKind::Start(t) => t,
        _ => panic!("expected a start tag"),
    };
    let mut map = NamespaceMap::new();
    map.insert("dc".to_string(), "http://purl.org/dc/elements/1.1/".to_string());
    let props = CoreProperties::deserialize_inner(&mut reader, Some((tag, false)), map).unwrap();
    assert_eq!(props.creator.as_deref(), Some("me"));
}

#[test]
fn escaped_values_read_back() {
    let mut props = CoreProperties::from_str(CORE_XML).unwrap();
    props.description = Some("a<b>\"c\"&'d' ; &amp;".to_string());
    props.title = Some("<&>".to_string());
    let reread = CoreProperties::from_str(&props.to_xml().unwrap()).unwrap();
    assert_eq!(reread.description.as_deref(), Some("a<b>\"c\"&'d' ; &amp;"));
    assert_eq!(reread.title.as_deref(), Some("<&>"));
    assert_eq!(reread.creator.as_deref(), Some("Ann"));
}

#[test]
fn written_document_reads_back() {
    let mut map = NamespaceMap::new();
    map.insert(String::new(), "urn:default".to_string());
    map.insert("cp".to_string(), CP.to_string());
    map.insert("dc".to_string(), "http://purl.org/dc/elements/1.1/".to_string());
    map.insert("dcterms".to_string(), "http://purl.org/dc/terms/".to_string());
    let mut props = CoreProperties::default();
    props.xmlns = Some("urn:default".to_string());
    props.xmlns_map = map;
    props.mc_ignorable = Some("x y".to_string());
    props.category = Some("c".to_string());
    props.content_status = Some("draft".to_string());
    props.created = Some("2024-01-02T03:04:05Z".to_string());
    props.creator = Some("Ann".to_string());
    props.description = Some("<a & b>".to_string());
    props.identifier = Some("id-1".to_string());
    props.keywords = Some("k1; k2".to_string());
    props.language = Some("en".to_string());
    props.last_modified_by = Some("Bob".to_string());
    props.last_printed = Some("2024-03-04T05:06:07Z".to_string());
    props.modified = Some("2024-02-03T04:05:06Z".to_string());
    props.revision = Some("7".to_string());
    props.subject = Some("s".to_string());
    props.title = Some("\"T\" 'x'".to_string());
    props.version = Some("1.0".to_string());
    let text = props.to_xml().unwrap();
    let reread = CoreProperties::from_str(&text).unwrap();
    assert_eq!(reread.xmlns, props.xmlns);
    assert_eq!(reread.mc_ignorable, props.mc_ignorable);
    assert_eq!(reread.category, props.category);
    assert_eq!(reread.content_status, props.content_status);
    assert_eq!(reread.created, props.created);
    assert_eq!(reread.creator, props.creator);
    assert_eq!(reread.description, props.description);
    assert_eq!(reread.identifier, props.identifier);
    assert_eq!(reread.keywords, props.keywords);
    assert_eq!(reread.language, props.language);
    assert_eq!(reread.last_modified_by, props.last_modified_by);
    assert_eq!(reread.last_printed, props.last_printed);
    assert_eq!(reread.modified, props.modified);
    assert_eq!(reread.revision, props.revision);
    assert_eq!(reread.subject, props.subject);
    assert_eq!(reread.title, props.title);
    assert_eq!(reread.version, props.version);
    assert_eq!(reread.xmlns_map.len(), 4);
    for i in 0..4 {
        assert_eq!(reread.xmlns_map.entry(i), props.xmlns_map.entry(i));
    }
    assert_eq!(reread.to_xml().unwrap(), text);
}

#[test]
fn empty_value_and_unbound_prefix_do_not_read_back() {
    let mut props = CoreProperties::from_str(CORE_XML).unwrap();
    props.category = Some(String::new());
    let reread = CoreProperties::from_str(&props.to_xml().unwrap()).unwrap();
    assert_eq!(reread.category, None);
    let mut bare = CoreProperties::default();
    bare.category = Some("c".to_string());
    assert!(matches!(CoreProperties::from_str(&bare.to_xml().unwrap()), Err(SdkError::CommonError(_))));
}

#[test]
fn unexpected_event_is_described_as_owned_when_read_from_bytes() {
    let xml = "<cp:coreProperties xmlns:cp=\"http://schemas.openxmlformats.org/package/2006/metadata/core-properties\">\
        <cp:title><b/></cp:title></cp:coreProperties>";
    match CoreProperties::from_reader(xml.as_bytes()) {
        Err(SdkError::CommonError(text)) => {
            assert_eq!(text, "Unexpected event: Empty(BytesStart { buf: Owned(\"b\"), name_len: 1 })")
        }
        other => panic!("unexpected result: {:?}", other),
    }
    match CoreProperties::from_str(xml) {
        Err(SdkError::CommonError(text)) => {
            assert_eq!(text, "Unexpected event: Empty(BytesStart { buf: Borrowed(\"b\"), name_len: 1 })")
        }
        other => panic!("unexpected result: {:?}", other),
    }
}

#[test]
fn default_namespace_is_bound_first_when_read_back() {
    let mut map = NamespaceMap::new();
    map.insert("cp".to_string(), CP.to_string());
    map.insert("dc".to_string(), "http://purl.org/dc/elements/1.1/".to_string());
    let mut props = CoreProperties::default();
    props.xmlns = Some("urn:x".to_string());
    props.xmlns_map = map;
    props.title = Some("t".to_string());
    props.category = Some("c".to_string());
    let reread = CoreProperties::from_reader(props.to_xml().unwrap().as_bytes()).unwrap();
    assert_eq!(reread.xmlns.as_deref(), Some("urn:x"));
    assert_eq!(reread.title.as_deref(), Some("t"));
    assert_eq!(reread.category.as_deref(), Some("c"));
    assert_eq!(reread.xmlns_map.len(), 3);
    let (k, v) = reread.xmlns_map.entry(0);
    assert_eq!((k.as_str(), v.as_str()), ("", "urn:x"));
    let (k, v) = reread.xmlns_map.entry(1);
    assert_eq!((k.as_str(), v.as_str()), ("cp", CP));
    let (k, _) = reread.xmlns_map.entry(2);
    assert_eq!(k.as_str(), "dc");
}

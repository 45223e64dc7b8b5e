use ooxmlsdk::alternate_content::AlternateContentStack;
use ooxmlsdk::error::SdkError;
use ooxmlsdk::namespaces::NamespaceMap;
use ooxmlsdk::reader::{from_str_inner, SliceReader, XmlEventKind};

const DOC: &str = "<root xmlns:mc=\"http://schemas.openxmlformats.org/markup-compatibility/2006\" xmlns:w=\"urn:w\">\
    <mc:AlternateContent><mc:Choice Requires=\"urn:new\"><w:new/></mc:Choice>\
    <mc:Choice Requires=\"urn:known\"><w:known/></mc:Choice>\
    <mc:Fallback><w:fallback/></mc:Fallback></mc:AlternateContent><w:after/></root>";

/// The local names of the elements handed back by the stack, in order.
fn elements_seen(mut stack: AlternateContentStack, xml: &str) -> Result<Vec<String>, SdkError> {
    let mut reader: SliceReader = from_str_inner(xml);
    let mut map = NamespaceMap::new();
    let mut seen = Vec::new();
    loop {
        match reader.next()?.kind {
            XmlEventKind::Start(t) | XmlEventKind::Empty(t) => {
                if let Some(t) = stack.on_start(t, &mut reader, &mut map)? {
                    seen.push(String::from_utf8(t.name).unwrap());
                }
            }
            XmlEventKind::End(name) => stack.on_end(&name)?,
            XmlEventKind::Eof => return Ok(seen),
            _ => {}
        }
    }
}

#[test]
fn first_supported_choice_is_read() {
    let stack = AlternateContentStack::with_supported_namespaces(vec!["urn:known".to_string()]);
    assert_eq!(elements_seen(stack, DOC).unwrap(), vec!["root", "w:known", "w:after"]);
}

#[test]
fn fallback_is_read_when_no_choice_is_supported() {
    let stack = AlternateContentStack::default();
    assert_eq!(elements_seen(stack, DOC).unwrap(), vec!["root", "w:fallback", "w:after"]);
}

#[test]
fn choice_without_requires_is_read() {
    let xml = "<r xmlns:mc=\"http://schemas.openxmlformats.org/markup-compatibility/2006\">\
    <mc:AlternateContent><mc:Choice><a/></mc:Choice><mc:Fallback><b/></mc:Fallback>\
    </mc:AlternateContent></r>";
    assert_eq!(elements_seen(AlternateContentStack::new(), xml).unwrap(), vec!["r", "a"]);
}

#[test]
fn elements_of_other_namespaces_are_handed_back() {
    let xml = "<r xmlns:x=\"urn:x\"><x:AlternateContent/><Choice/></r>";
    assert_eq!(elements_seen(AlternateContentStack::new(), xml).unwrap(), vec!["r", "x:AlternateContent", "Choice"]);
}

#[test]
fn branch_outside_alternate_content_is_an_error() {
    let xml = "<r xmlns:mc=\"http://schemas.openxmlformats.org/markup-compatibility/2006\"><mc:Choice/></r>";
    match elements_seen(AlternateContentStack::new(), xml) {
        Err(SdkError::CommonError(text)) => assert_eq!(text, "Error parsing AlternateContent"),
        other => panic!("unexpected {other:?}"),
    }
}

#[test]
fn unbalanced_end_is_an_error() {
    let mut stack = AlternateContentStack::new();
    match stack.on_end(b"mc:AlternateContent") {
        Err(SdkError::CommonError(text)) => assert_eq!(text, "Error parsing AlternateContent"),
        other => panic!("unexpected {other:?}"),
    }
    match stack.on_end(b"Fallback") {
        Err(SdkError::CommonError(text)) => assert_eq!(text, "Error parsing AlternateContent"),
        other => panic!("unexpected {other:?}"),
    }
    assert!(stack.on_end(b"w:p").is_ok());
}

#[test]
fn unknown_prefix_on_any_element_is_an_error() {
    match elements_seen(AlternateContentStack::new(), "<q:r/>") {
        Err(SdkError::CommonError(text)) => assert_eq!(text, "Unknown prefix: {ns}"),
        other => panic!("unexpected {other:?}"),
    }
}

#[test]
fn wrap_error_passes_values_and_reports_none() {
    assert!(matches!(ooxmlsdk::alternate_content::wrap_error(Some(3)), Ok(3)));
    match ooxmlsdk::alternate_content::wrap_error::<u8>(None) {
        Err(SdkError::CommonError(text)) => assert_eq!(text, "Error parsing AlternateContent"),
        other => panic!("unexpected {other:?}"),
    }
}

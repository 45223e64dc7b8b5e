//! The core-properties part of a package (`docProps/core.xml`).

use vstd::prelude::*;
use vstd::string::StringSliceAdditionalSpecFns;
use vstd::seq_lib::lemma_concat_associative;
use quick_xml::events::attributes::AttrError;
use crate::elements::{
    expect_event_start, extends, optional_view, read_element_text, read_since, seek_machine, seek_step,
    found_start, stop_result, text_machine, text_step, unexpected_eof_text,
};
use crate::error::SdkError;
use crate::machine::{Failure, Step, is_failure, lemma_run_append, lemma_run_push, run, stops_with};
use crate::namespaces::{
    NamespaceEntries, NamespaceMap, element_namespace, get_element_namespace, local_name, local_name_of,
};
use crate::reader::{
    ReadOutcome, SliceReader, XmlAttribute, XmlEventKind, XmlTag, from_bytes_inner, from_str_inner, replay, xml_items,
};
use crate::text::{bytes_equal, escape, escaped, unescape_attribute_value, unescaped_attribute_value};

verus! {
/// `"http://schemas.openxmlformats.org/package/2006/metadata/core-properties"`
pub open spec fn core_properties_namespace() -> Seq<char> {
    "http://schemas.openxmlformats.org/package/2006/metadata/core-properties"@
}
/// `"http://purl.org/dc/terms/"`
pub open spec fn dcterms_namespace() -> Seq<char> {
    "http://purl.org/dc/terms/"@
}
/// `"http://purl.org/dc/elements/1.1/"`
pub open spec fn dc_namespace() -> Seq<char> {
    "http://purl.org/dc/elements/1.1/"@
}
/// The OPC core properties of a package.
#[derive(Clone, Debug)]
pub struct CoreProperties {
    pub xmlns: Option<String>,
    pub xmlns_map: NamespaceMap,
    pub mc_ignorable: Option<String>,
    pub category: Option<String>,
    pub content_status: Option<String>,
    pub created: Option<String>,
    pub creator: Option<String>,
    pub description: Option<String>,
    pub identifier: Option<String>,
    pub keywords: Option<String>,
    pub language: Option<String>,
    pub last_modified_by: Option<String>,
    pub last_printed: Option<String>,
    pub modified: Option<String>,
    pub revision: Option<String>,
    pub subject: Option<String>,
    pub title: Option<String>,
    pub version: Option<String>,
}

/// The core properties as text values.
pub struct CorePropertiesView {
    pub xmlns: Option<Seq<char>>,
    pub xmlns_map: NamespaceEntries,
    pub mc_ignorable: Option<Seq<char>>,
    pub category: Option<Seq<char>>,
    pub content_status: Option<Seq<char>>,
    pub created: Option<Seq<char>>,
    pub creator: Option<Seq<char>>,
    pub description: Option<Seq<char>>,
    pub identifier: Option<Seq<char>>,
    pub keywords: Option<Seq<char>>,
    pub language: Option<Seq<char>>,
    pub last_modified_by: Option<Seq<char>>,
    pub last_printed: Option<Seq<char>>,
    pub modified: Option<Seq<char>>,
    pub revision: Option<Seq<char>>,
    pub subject: Option<Seq<char>>,
    pub title: Option<Seq<char>>,
    pub version: Option<Seq<char>>,
}

impl View for CoreProperties {
    type V = CorePropertiesView;

    open spec fn view(&self) -> CorePropertiesView {
        CorePropertiesView {
            xmlns: optional_view(self.xmlns),
            xmlns_map: self.xmlns_map.entries(),
            mc_ignorable: optional_view(self.mc_ignorable),
            category: optional_view(self.category),
            content_status: optional_view(self.content_status),
            created: optional_view(self.created),
            creator: optional_view(self.creator),
            description: optional_view(self.description),
            identifier: optional_view(self.identifier),
            keywords: optional_view(self.keywords),
            language: optional_view(self.language),
            last_modified_by: optional_view(self.last_modified_by),
            last_printed: optional_view(self.last_printed),
            modified: optional_view(self.modified),
            revision: optional_view(self.revision),
            subject: optional_view(self.subject),
            title: optional_view(self.title),
            version: optional_view(self.version),
        }
    }
}

/// Properties with the given root attributes and prefix map, and no values.
pub open spec fn root_view(
    xmlns: Option<Seq<char>>,
    xmlns_map: NamespaceEntries,
    mc_ignorable: Option<Seq<char>>,
) -> CorePropertiesView {
    CorePropertiesView {
        xmlns,
        xmlns_map,
        mc_ignorable,
        category: None,
        content_status: None,
        created: None,
        creator: None,
        description: None,
        identifier: None,
        keywords: None,
        language: None,
        last_modified_by: None,
        last_printed: None,
        modified: None,
        revision: None,
        subject: None,
        title: None,
        version: None,
    }
}

/// The local name of the root element, `coreProperties`, as bytes.
pub open spec fn root_local_name() -> Seq<u8> {
    "coreProperties".spec_bytes()
}

/// The `xmlns` and `mc:Ignorable` attributes of the root element, read from
/// left to right (a later one wins), or the failure that stopped the reading.
pub open spec fn root_attributes(
    attributes: Seq<Result<XmlAttribute, AttrError>>,
) -> Result<(Option<Seq<char>>, Option<Seq<char>>), Failure>
    decreases attributes.len(),
{
    if attributes.len() == 0 {
        Ok((None, None))
    } else {
        match root_attributes(attributes.drop_last()) {
            Err(f) => Err(f),
            Ok((xmlns, mc_ignorable)) => match attributes.last() {
                Err(a) => Err(Failure::Attribute(a)),
                Ok(attribute) => if attribute.key@ == "xmlns".spec_bytes() {
                    match unescaped_attribute_value(attribute.value@) {
                        None => Err(Failure::Unescape),
                        Some(v) => Ok((Some(v), mc_ignorable)),
                    }
                } else if attribute.key@ == "mc:Ignorable".spec_bytes() {
                    match unescaped_attribute_value(attribute.value@) {
                        None => Err(Failure::Unescape),
                        Some(v) => Ok((xmlns, Some(v))),
                    }
                } else {
                    Ok((xmlns, mc_ignorable))
                },
            },
        }
    }
}

/// The property that an element with this local name and namespace sets to
/// `text`, or `None` for an element that is not a core property.
pub open spec fn assign_property(
    acc: CorePropertiesView,
    local: Seq<u8>,
    namespace: Seq<char>,
    text: Option<Seq<char>>,
) -> Option<CorePropertiesView> {
    if local == "category".spec_bytes() && namespace == core_properties_namespace() {
        Some(CorePropertiesView { category: text, ..acc })
    }     else if local == "contentStatus".spec_bytes() && namespace == core_properties_namespace() {
        Some(CorePropertiesView { content_status: text, ..acc })
    }     else if local == "created".spec_bytes() && namespace == dcterms_namespace() {
        Some(CorePropertiesView { created: text, ..acc })
    }     else if local == "creator".spec_bytes() && namespace == dc_namespace() {
        Some(CorePropertiesView { creator: text, ..acc })
    }     else if local == "description".spec_bytes() && namespace == dc_namespace() {
        Some(CorePropertiesView { description: text, ..acc })
    }     else if local == "identifier".spec_bytes() && namespace == dc_namespace() {
        Some(CorePropertiesView { identifier: text, ..acc })
    }     else if local == "keywords".spec_bytes() && namespace == core_properties_namespace() {
        Some(CorePropertiesView { keywords: text, ..acc })
    }     else if local == "language".spec_bytes() && namespace == dc_namespace() {
        Some(CorePropertiesView { language: text, ..acc })
    }     else if local == "lastModifiedBy".spec_bytes() && namespace == core_properties_namespace() {
        Some(CorePropertiesView { last_modified_by: text, ..acc })
    }     else if local == "lastPrinted".spec_bytes() && namespace == core_properties_namespace() {
        Some(CorePropertiesView { last_printed: text, ..acc })
    }     else if local == "modified".spec_bytes() && namespace == dcterms_namespace() {
        Some(CorePropertiesView { modified: text, ..acc })
    }     else if local == "revision".spec_bytes() && namespace == core_properties_namespace() {
        Some(CorePropertiesView { revision: text, ..acc })
    }     else if local == "subject".spec_bytes() && namespace == dc_namespace() {
        Some(CorePropertiesView { subject: text, ..acc })
    }     else if local == "title".spec_bytes() && namespace == dc_namespace() {
        Some(CorePropertiesView { title: text, ..acc })
    }     else if local == "version".spec_bytes() && namespace == core_properties_namespace() {
        Some(CorePropertiesView { version: text, ..acc })
    } else {
        None
    }
}

/// Where a reading of the core properties stands.
pub enum CoreState {
    /// Looking for the root start tag, with the prefixes bound so far.
    Seek(NamespaceEntries),
    /// Between the children of the root element.
    Body(CorePropertiesView),
    /// Inside a child element, reading its text.
    InText(CorePropertiesView, XmlTag, Option<Seq<char>>),
}

/// After the root start tag (empty or not) and the prefix map: the root
/// attributes are read; an empty root ends the reading.
pub open spec fn core_head(
    tag: XmlTag,
    empty: bool,
    entries: NamespaceEntries,
) -> Step<CoreState, Result<CorePropertiesView, Failure>> {
    match root_attributes(tag.checked_attributes@) {
        Err(f) => Step::Stop(Err(f)),
        Ok((xmlns, mc_ignorable)) => {
            let acc = root_view(xmlns, entries, mc_ignorable);
            if empty {
                Step::Stop(Ok(acc))
            } else {
                Step::Continue(CoreState::Body(acc))
            }
        },
    }
}

/// After the text of a child element: the element's namespace is found and
/// the matching property set; an element that is no core property is an error.
pub open spec fn after_text(
    acc: CorePropertiesView,
    child: XmlTag,
    text: Option<Seq<char>>,
) -> Step<CoreState, Result<CorePropertiesView, Failure>> {
    match element_namespace(child.name@, acc.xmlns_map) {
        Err(f) => Step::Stop(Err(f)),
        Ok(namespace) => match assign_property(acc, local_name_of(child.name@), namespace, text) {
            Some(next) => Step::Continue(CoreState::Body(next)),
            None => Step::Stop(Err(Failure::Common("coreProperties"@))),
        },
    }
}

/// One read while reading the core properties.
pub open spec fn core_step(
    state: CoreState,
    outcome: ReadOutcome,
) -> Step<CoreState, Result<CorePropertiesView, Failure>> {
    match state {
        CoreState::Seek(entries) => match seek_step((), outcome) {
            Step::Continue(_) => Step::Continue(CoreState::Seek(entries)),
            Step::Stop(found) => {
                let (bound, started) = found_start(root_local_name(), entries, found);
                match started {
                    Err(f) => Step::Stop(Err(f)),
                    Ok((tag, empty)) => core_head(tag, empty, bound),
                }
            },
        },
        CoreState::Body(acc) => match outcome {
            Err(e) => Step::Stop(Err(Failure::Reader(e))),
            Ok(event) => match event.kind {
                XmlEventKind::Start(child) => Step::Continue(CoreState::InText(acc, child, None)),
                XmlEventKind::End(name) => if local_name_of(name@) == root_local_name() {
                    Step::Stop(Ok(acc))
                } else {
                    Step::Continue(CoreState::Body(acc))
                },
                XmlEventKind::Eof => Step::Stop(Err(Failure::Common(unexpected_eof_text()))),
                _ => Step::Continue(CoreState::Body(acc)),
            },
        },
        CoreState::InText(acc, child, text) => match text_step(child.name@, text, outcome) {
            Step::Continue(t) => Step::Continue(CoreState::InText(acc, child, t)),
            Step::Stop(Err(f)) => Step::Stop(Err(f)),
            Step::Stop(Ok(t)) => after_text(acc, child, t),
        },
    }
}

pub open spec fn core_machine() -> spec_fn(CoreState, ReadOutcome) -> Step<
    CoreState,
    Result<CorePropertiesView, Failure>,
> {
    |state: CoreState, outcome: ReadOutcome| core_step(state, outcome)
}

/// How a reading starts: with the root start tag still to be found, or with
/// the given root start tag.
pub open spec fn core_start(
    xml_event: Option<(XmlTag, bool)>,
    entries: NamespaceEntries,
) -> Step<CoreState, Result<CorePropertiesView, Failure>> {
    match xml_event {
        None => Step::Continue(CoreState::Seek(entries)),
        Some((tag, empty)) => core_head(tag, empty, entries),
    }
}

/// The result of a reading that starts as `start` and reads `read`.
pub open spec fn core_result(
    start: Step<CoreState, Result<CorePropertiesView, Failure>>,
    read: Seq<ReadOutcome>,
) -> Result<CorePropertiesView, Failure> {
    match start {
        Step::Stop(r) => r,
        Step::Continue(s) => stop_result(run(core_machine(), s, read)),
    }
}

/// The reading that starts as `start` ends exactly with the last of `read`
/// (or reads nothing when it is over at the start).
pub open spec fn core_read(
    start: Step<CoreState, Result<CorePropertiesView, Failure>>,
    read: Seq<ReadOutcome>,
) -> bool {
    match start {
        Step::Stop(_) => read.len() == 0,
        Step::Continue(s) => stops_with(core_machine(), s, read, stop_result(run(core_machine(), s, read))),
    }
}

/// The properties are what the expected result says, or the error its failure describes.
pub open spec fn properties_result(
    result: Result<CoreProperties, SdkError>,
    expected: Result<CorePropertiesView, Failure>,
) -> bool {
    match expected {
        Ok(v) => result matches Ok(p) && p@ == v,
        Err(f) => result matches Err(e) && is_failure(e, f),
    }
}

proof fn lemma_lift_seek(entries: NamespaceEntries, outcomes: Seq<ReadOutcome>)
    requires
        run(seek_machine(), (), outcomes) is Continue,
    ensures
        run(core_machine(), CoreState::Seek(entries), outcomes)
            == Step::<CoreState, Result<CorePropertiesView, Failure>>::Continue(CoreState::Seek(entries)),
    decreases outcomes.len(),
{
    if outcomes.len() > 0 {
        lemma_lift_seek(entries, outcomes.drop_last());
    }
}

/// Inside a child element, reading goes on as the text machine does.
pub proof fn lemma_lift_text(
    acc: CorePropertiesView,
    child: XmlTag,
    text: Option<Seq<char>>,
    outcomes: Seq<ReadOutcome>,
)
    requires
        run(text_machine(child.name@), text, outcomes) is Continue,
    ensures
        run(core_machine(), CoreState::InText(acc, child, text), outcomes)
            == Step::<CoreState, Result<CorePropertiesView, Failure>>::Continue(
            CoreState::InText(acc, child, run(text_machine(child.name@), text, outcomes)->Continue_0),
        ),
    decreases outcomes.len(),
{
    if outcomes.len() > 0 {
        lemma_lift_text(acc, child, text, outcomes.drop_last());
    }
}


/// Sets the core property of an element with this local name and namespace.
fn assign_property_exec(
    props: &mut CoreProperties,
    local: &Vec<u8>,
    namespace: &String,
    text: Option<String>,
) -> (assigned: bool)
    ensures
        assigned == assign_property(old(props)@, local@, namespace@, optional_view(text)) is Some,
        assigned ==> final(props)@ == assign_property(old(props)@, local@, namespace@, optional_view(text))->0,
        !assigned ==> final(props)@ == old(props)@,
{
    let cp_ns = "http://schemas.openxmlformats.org/package/2006/metadata/core-properties".to_owned();
    let dcterms_ns = "http://purl.org/dc/terms/".to_owned();
    let dc_ns = "http://purl.org/dc/elements/1.1/".to_owned();
    if bytes_equal(local.as_slice(), "category".as_bytes()) && *namespace == cp_ns {
        props.category = text;
        true
    }     else if bytes_equal(local.as_slice(), "contentStatus".as_bytes()) && *namespace == cp_ns {
        props.content_status = text;
        true
    }     else if bytes_equal(local.as_slice(), "created".as_bytes()) && *namespace == dcterms_ns {
        props.created = text;
        true
    }     else if bytes_equal(local.as_slice(), "creator".as_bytes()) && *namespace == dc_ns {
        props.creator = text;
        true
    }     else if bytes_equal(local.as_slice(), "description".as_bytes()) && *namespace == dc_ns {
        props.description = text;
        true
    }     else if bytes_equal(local.as_slice(), "identifier".as_bytes()) && *namespace == dc_ns {
        props.identifier = text;
        true
    }     else if bytes_equal(local.as_slice(), "keywords".as_bytes()) && *namespace == cp_ns {
        props.keywords = text;
        true
    }     else if bytes_equal(local.as_slice(), "language".as_bytes()) && *namespace == dc_ns {
        props.language = text;
        true
    }     else if bytes_equal(local.as_slice(), "lastModifiedBy".as_bytes()) && *namespace == cp_ns {
        props.last_modified_by = text;
        true
    }     else if bytes_equal(local.as_slice(), "lastPrinted".as_bytes()) && *namespace == cp_ns {
        props.last_printed = text;
        true
    }     else if bytes_equal(local.as_slice(), "modified".as_bytes()) && *namespace == dcterms_ns {
        props.modified = text;
        true
    }     else if bytes_equal(local.as_slice(), "revision".as_bytes()) && *namespace == cp_ns {
        props.revision = text;
        true
    }     else if bytes_equal(local.as_slice(), "subject".as_bytes()) && *namespace == dc_ns {
        props.subject = text;
        true
    }     else if bytes_equal(local.as_slice(), "title".as_bytes()) && *namespace == dc_ns {
        props.title = text;
        true
    }     else if bytes_equal(local.as_slice(), "version".as_bytes()) && *namespace == cp_ns {
        props.version = text;
        true
    } else {
        false
    }
}

proof fn lemma_seek_reaches_core(
    entries: NamespaceEntries,
    read: Seq<ReadOutcome>,
    found: Result<(XmlTag, bool), Failure>,
)
    requires
        stops_with(seek_machine(), (), read, found),
    ensures
        run(core_machine(), CoreState::Seek(entries), read.drop_last())
            == Step::<CoreState, Result<CorePropertiesView, Failure>>::Continue(CoreState::Seek(entries)),
        run(core_machine(), CoreState::Seek(entries), read) == (match found_start(root_local_name(), entries, found).1 {
            Err(f) => Step::<CoreState, Result<CorePropertiesView, Failure>>::Stop(Err(f)),
            Ok((tag, empty)) => core_head(tag, empty, found_start(root_local_name(), entries, found).0),
        }),
{
    lemma_lift_seek(entries, read.drop_last());
    lemma_run_push(seek_machine(), (), read.drop_last(), read.last());
    lemma_run_push(core_machine(), CoreState::Seek(entries), read.drop_last(), read.last());
    assert(read.drop_last().push(read.last()) =~= read);
}

proof fn lemma_root_failure_persists(attributes: Seq<Result<XmlAttribute, AttrError>>, k: int)
    requires
        0 <= k <= attributes.len(),
        root_attributes(attributes.take(k)) is Err,
    ensures
        root_attributes(attributes) == root_attributes(attributes.take(k)),
    decreases attributes.len() - k,
{
    if k < attributes.len() {
        assert(attributes.take(k + 1).drop_last() =~= attributes.take(k));
        lemma_root_failure_persists(attributes, k + 1);
    } else {
        assert(attributes.take(k) =~= attributes);
    }
}

/// Reads the `xmlns` and `mc:Ignorable` attributes of the root start tag.
fn read_root_attributes(
    xml_reader: &SliceReader,
    e: &XmlTag,
) -> (result: Result<(Option<String>, Option<String>), SdkError>)
    ensures
        match root_attributes(e.checked_attributes@) {
            Ok((x, m)) => result matches Ok((rx, rm)) && optional_view(rx) == x && optional_view(rm) == m,
            Err(f) => result matches Err(err) && is_failure(err, f),
        },
{
    let decoder = xml_reader.decoder();
    let ghost attributes = e.checked_attributes@;
    let mut xmlns: Option<String> = None;
    let mut mc_ignorable: Option<String> = None;
    let mut i: usize = 0;
    assert(attributes.take(0) =~= Seq::<Result<XmlAttribute, AttrError>>::empty());
    while i < e.checked_attributes.len()
        invariant
            i <= e.checked_attributes.len(),
            attributes == e.checked_attributes@,
            root_attributes(attributes.take(i as int)) == Ok::<(Option<Seq<char>>, Option<Seq<char>>), Failure>(
                (optional_view(xmlns), optional_view(mc_ignorable)),
            ),
        decreases e.checked_attributes.len() - i,
    {
        assert(attributes.take(i + 1).drop_last() =~= attributes.take(i as int));
        assert(attributes.take(i + 1).last() == attributes[i as int]);
        match &e.checked_attributes[i] {
            Err(a) => {
                let error = a.clone();
                proof { lemma_root_failure_persists(attributes, i + 1); }
                return Err(SdkError::AttrError(error));
            },
            Ok(attribute) => {
                if bytes_equal(attribute.key.as_slice(), "xmlns".as_bytes()) {
                    match unescape_attribute_value(decoder, &attribute.value) {
                        Ok(v) => xmlns = Some(v),
                        Err(err) => {
                            proof { lemma_root_failure_persists(attributes, i + 1); }
                            return Err(SdkError::QuickXmlError(err));
                        },
                    }
                } else if bytes_equal(attribute.key.as_slice(), "mc:Ignorable".as_bytes()) {
                    match unescape_attribute_value(decoder, &attribute.value) {
                        Ok(v) => mc_ignorable = Some(v),
                        Err(err) => {
                            proof { lemma_root_failure_persists(attributes, i + 1); }
                            return Err(SdkError::QuickXmlError(err));
                        },
                    }
                }
            },
        }
        i += 1;
    }
    assert(attributes.take(attributes.len() as int) =~= attributes);
    Ok((xmlns, mc_ignorable))
}

/// What reading the part from `input` gives: a reading of the answers that
/// a reader over `input` gives (`xml_items`), in order, with `Eof` once as
/// many events as `input` has bytes came, and events described as owned
/// copies when `owned` holds, that stops exactly at its last read, with
/// `result` its outcome.
pub open spec fn reads_part(input: Seq<u8>, owned: bool, result: Result<CoreProperties, SdkError>) -> bool {
    exists|read: Seq<ReadOutcome>|
        #![trigger replay(xml_items(input), input.len(), owned, read)]
        replay(xml_items(input), input.len(), owned, read) is Some
        && core_read(core_start(None, NamespaceEntries::empty()), read)
        && properties_result(result, core_result(core_start(None, NamespaceEntries::empty()), read))
}

impl CoreProperties {
    /// Reads the core properties from a reader: the root `coreProperties`
    /// start tag (or the one given, as read already), its `xmlns` and
    /// `mc:Ignorable` attributes, and the text of each child element up to
    /// the root's end tag. A child element that is no core property is an
    /// error; an empty child element is passed over.
    pub fn deserialize_inner(
        xml_reader: &mut SliceReader,
        xml_event: Option<(XmlTag, bool)>,
        xmlns_map: NamespaceMap,
    ) -> (result: Result<Self, SdkError>)
        requires
            old(xml_reader).replays(),
        ensures
            final(xml_reader).replays(),
            final(xml_reader).source() == old(xml_reader).source(),
            final(xml_reader).limit() == old(xml_reader).limit(),
            final(xml_reader).owned() == old(xml_reader).owned(),
            extends(old(xml_reader).history(), final(xml_reader).history()),
            core_read(core_start(xml_event, xmlns_map.entries()),
                read_since(old(xml_reader).history(), final(xml_reader).history())),
            properties_result(result, core_result(core_start(xml_event, xmlns_map.entries()),
                read_since(old(xml_reader).history(), final(xml_reader).history()))),
    {
        let ghost h0 = xml_reader.history();
        let ghost map0 = xmlns_map.entries();
        let ghost start = core_start(xml_event, map0);
        let ghost given = xml_event;
        let mut namespaces = xmlns_map;
        let started = expect_event_start(xml_reader, xml_event, "coreProperties".as_bytes(), &mut namespaces);
        let ghost read1 = read_since(h0, xml_reader.history());
        let ghost found = stop_result(run(seek_machine(), (), read1));
        proof {
            if given is None {
                lemma_seek_reaches_core(map0, read1, found);
            } else {
                assert(read1 =~= Seq::<ReadOutcome>::empty());
            }
        }
        let (e, empty_tag) = match started {
            Ok(v) => v,
            Err(err) => return Err(err),
        };
        let ghost map1 = namespaces.entries();
        let ghost head = core_head(e, empty_tag, map1);
        assert(given is None ==> run(core_machine(), CoreState::Seek(map0), read1) == head);
        assert(given is Some ==> start == head && read1.len() == 0);
        let (xmlns, mc_ignorable) = match read_root_attributes(xml_reader, &e) {
            Ok(v) => v,
            Err(err) => return Err(err),
        };
        let mut props = CoreProperties {
            xmlns,
            xmlns_map: namespaces,
            mc_ignorable,
            category: None,
            content_status: None,
            created: None,
            creator: None,
            description: None,
            identifier: None,
            keywords: None,
            language: None,
            last_modified_by: None,
            last_printed: None,
            modified: None,
            revision: None,
            subject: None,
            title: None,
            version: None,
        };
        assert(props@ == root_view(optional_view(props.xmlns), map1, optional_view(props.mc_ignorable)));
        if empty_tag {
            return Ok(props);
        }
        let ghost s0 = match start {
            Step::Continue(s) => s,
            Step::Stop(_) => CoreState::Seek(map0),
        };
        assert(run(core_machine(), s0, read1) == Step::<CoreState, Result<CorePropertiesView, Failure>>::Continue(
            CoreState::Body(props@),
        ));
        loop
            invariant
                xml_reader.replays(),
                xml_reader.source() == old(xml_reader).source(),
                xml_reader.limit() == old(xml_reader).limit(),
                xml_reader.owned() == old(xml_reader).owned(),
                extends(h0, xml_reader.history()),
                h0 == old(xml_reader).history(),
                start == Step::<CoreState, Result<CorePropertiesView, Failure>>::Continue(s0),
                start == core_start(xml_event, xmlns_map.entries()),
                run(core_machine(), s0, read_since(h0, xml_reader.history()))
                    == Step::<CoreState, Result<CorePropertiesView, Failure>>::Continue(CoreState::Body(props@)),
            decreases xml_reader.budget(),
        {
            let ghost before = xml_reader.history();
            let ghost acc = props@;
            let outcome = xml_reader.next();
            let ghost after_event = xml_reader.history();
            proof {
                assert(read_since(h0, after_event) =~= read_since(h0, before).push(outcome));
                assert(after_event.subrange(0, h0.len() as int) =~= before.subrange(0, h0.len() as int));
                lemma_run_push(core_machine(), s0, read_since(h0, before), outcome);
                assert(read_since(h0, after_event).drop_last() =~= read_since(h0, before));
            }
            match outcome {
                Err(err) => return Err(err),
                Ok(event) => match event.kind {
                    XmlEventKind::Start(child) => {
                        let text_result = read_element_text(xml_reader, &child);
                        let ghost now = xml_reader.history();
                        let ghost text_read = read_since(after_event, now);
                        proof {
                            assert(read_since(h0, now) =~= read_since(h0, after_event) + text_read);
                            assert(now.subrange(0, h0.len() as int) =~= after_event.subrange(0, h0.len() as int));
                            lemma_run_append(core_machine(), s0, read_since(h0, after_event), text_read);
                            assert(read_since(h0, now).drop_last() =~= read_since(h0, after_event) + text_read.drop_last());
                            lemma_run_append(core_machine(), s0, read_since(h0, after_event), text_read.drop_last());
                            lemma_lift_text(acc, child, None, text_read.drop_last());
                            lemma_run_push(core_machine(), CoreState::InText(acc, child, None), text_read.drop_last(), text_read.last());
                            lemma_run_push(text_machine(child.name@), None, text_read.drop_last(), text_read.last());
                            assert(text_read.drop_last().push(text_read.last()) =~= text_read);
                        }
                        let text = match text_result {
                            Ok(t) => t,
                            Err(err) => return Err(err),
                        };
                        let namespace = match get_element_namespace(&child, &props.xmlns_map) {
                            Ok(ns) => ns,
                            Err(err) => return Err(err),
                        };
                        let local = local_name(&child.name);
                        if !assign_property_exec(&mut props, &local, &namespace, text) {
                            return Err(SdkError::CommonError("coreProperties".to_owned()));
                        }
                    },
                    XmlEventKind::End(name) => {
                        let local = local_name(&name);
                        if bytes_equal(local.as_slice(), "coreProperties".as_bytes()) {
                            return Ok(props);
                        }
                    },
                    XmlEventKind::Eof => return Err(SdkError::CommonError("Unexpected end of file".to_owned())),
                    _ => {},
                },
            }
        }
    }

    /// Reads the core properties from the text of the part.
    pub fn from_str(s: &str) -> (result: Result<Self, SdkError>)
        ensures
            reads_part(s.spec_bytes(), false, result),
    {
        let mut xml_reader = from_str_inner(s);
        let result = Self::deserialize_inner(&mut xml_reader, None, NamespaceMap::new());
        proof {
            assert(read_since(Seq::<ReadOutcome>::empty(), xml_reader.history()) =~= xml_reader.history());
            xml_reader.lemma_replays();
        }
        result
    }
}


/// `value` between `open` and `close`, escaped, or nothing without a value.
pub open spec fn element_xml(open: Seq<char>, value: Option<Seq<char>>, close: Seq<char>) -> Seq<char> {
    match value {
        Some(v) => open + escaped(v) + close,
        None => Seq::<char>::empty(),
    }
}

/// `name="value"` after a space, or nothing without a value.
pub open spec fn attribute_xml(name: Seq<char>, value: Option<Seq<char>>) -> Seq<char> {
    match value {
        Some(v) => " "@ + name + "=\""@ + v + "\""@,
        None => Seq::<char>::empty(),
    }
}

/// ` xmlns:prefix="namespace"` for each binding, in order.
pub open spec fn namespace_declarations_xml(entries: NamespaceEntries) -> Seq<char>
    decreases entries.len(),
{
    if entries.len() == 0 {
        Seq::<char>::empty()
    } else {
        namespace_declarations_xml(entries.drop_last()) + " xmlns:"@ + entries.last().0 + "=\""@
            + entries.last().1 + "\""@
    }
}

/// The name of the root element: with the `cp` prefix or without.
pub open spec fn root_name_xml(with_xmlns: bool) -> Seq<char> {
    if with_xmlns {
        "cp:coreProperties"@
    } else {
        "coreProperties"@
    }
}

/// The child elements of the root, one for each property that has a value,
/// in schema order.
pub open spec fn properties_xml(p: CorePropertiesView) -> Seq<char> {
    element_xml("<cp:category>"@, p.category, "</cp:category>"@)
        + element_xml("<cp:contentStatus>"@, p.content_status, "</cp:contentStatus>"@)
        + element_xml("<dcterms:created xsi:type=\"dcterms:W3CDTF\">"@, p.created, "</dcterms:created>"@)
        + element_xml("<dc:creator>"@, p.creator, "</dc:creator>"@)
        + element_xml("<dc:description>"@, p.description, "</dc:description>"@)
        + element_xml("<dc:identifier>"@, p.identifier, "</dc:identifier>"@)
        + element_xml("<cp:keywords>"@, p.keywords, "</cp:keywords>"@)
        + element_xml("<dc:language>"@, p.language, "</dc:language>"@)
        + element_xml("<cp:lastModifiedBy>"@, p.last_modified_by, "</cp:lastModifiedBy>"@)
        + element_xml("<cp:lastPrinted>"@, p.last_printed, "</cp:lastPrinted>"@)
        + element_xml("<dcterms:modified xsi:type=\"dcterms:W3CDTF\">"@, p.modified, "</dcterms:modified>"@)
        + element_xml("<cp:revision>"@, p.revision, "</cp:revision>"@)
        + element_xml("<dc:subject>"@, p.subject, "</dc:subject>"@)
        + element_xml("<dc:title>"@, p.title, "</dc:title>"@)
        + element_xml("<cp:version>"@, p.version, "</cp:version>"@)
}

/// The XML text of the core-properties part.
pub open spec fn core_properties_xml(p: CorePropertiesView, with_xmlns: bool) -> Seq<char> {
    "<?xml version=\"1.0\" encoding=\"UTF-8\" standalone=\"yes\"?>\r\n"@ + "<"@ + root_name_xml(with_xmlns)
        + attribute_xml("xmlns"@, p.xmlns) + namespace_declarations_xml(p.xmlns_map)
        + attribute_xml("mc:Ignorable"@, p.mc_ignorable) + ">"@ + properties_xml(p) + "</"@
        + root_name_xml(with_xmlns) + ">"@
}

/// Whether the root element is written with the `cp` prefix: unless the
/// default namespace is the core-properties namespace itself.
pub open spec fn prefixed_root(p: CorePropertiesView) -> bool {
    match p.xmlns {
        Some(x) => x != core_properties_namespace(),
        None => true,
    }
}

/// Appends an element holding the escaped value, if there is one.
fn write_element(writer: &mut String, open: &str, value: &Option<String>, close: &str)
    ensures
        final(writer)@ == old(writer)@ + element_xml(open@, optional_view(*value), close@),
{
    match value {
        Some(v) => {
            let ghost start = writer@;
            writer.append(open);
            writer.append(&escape(v));
            writer.append(close);
            assert(writer@ =~= start + (open@ + escaped(v@) + close@));
        },
        None => {
            assert(writer@ =~= writer@ + Seq::<char>::empty());
        },
    }
}

/// Appends an attribute with the value, if there is one.
fn write_attribute(writer: &mut String, name: &str, value: &Option<String>)
    ensures
        final(writer)@ == old(writer)@ + attribute_xml(name@, optional_view(*value)),
{
    match value {
        Some(v) => {
            let ghost start = writer@;
            writer.append(" ");
            writer.append(name);
            writer.append("=\"");
            writer.append(v);
            writer.append("\"");
            assert(writer@ =~= start + (" "@ + name@ + "=\""@ + v@ + "\""@));
        },
        None => {
            assert(writer@ =~= writer@ + Seq::<char>::empty());
        },
    }
}

/// Appends a declaration for each bound prefix.
fn write_namespace_declarations(writer: &mut String, map: &NamespaceMap)
    ensures
        final(writer)@ == old(writer)@ + namespace_declarations_xml(map.entries()),
{
    let ghost start = writer@;
    let ghost entries = map.entries();
    let mut i: usize = 0;
    assert(entries.take(0) =~= NamespaceEntries::empty());
    assert(writer@ =~= start + namespace_declarations_xml(entries.take(0)));
    while i < map.len()
        invariant
            i <= entries.len(),
            entries == map.entries(),
            writer@ == start + namespace_declarations_xml(entries.take(i as int)),
        decreases entries.len() - i,
    {
        let (k, v) = map.entry(i);
        let ghost before = writer@;
        writer.append(" xmlns:");
        writer.append(k);
        writer.append("=\"");
        writer.append(v);
        writer.append("\"");
        assert(entries.take(i + 1).drop_last() =~= entries.take(i as int));
        assert(entries.take(i + 1).last() == entries[i as int]);
        assert(writer@ =~= start + namespace_declarations_xml(entries.take(i + 1)));
        i += 1;
    }
    assert(entries.take(entries.len() as int) =~= entries);
}

/// Appends the child elements of the root.
#[verifier::spinoff_prover]
fn write_properties(writer: &mut String, props: &CoreProperties)
    ensures
        final(writer)@ == old(writer)@ + properties_xml(props@),
{
    let ghost before_properties = writer@;
    let ghost p = props@;
    let ghost e0 = element_xml("<cp:category>"@, p.category, "</cp:category>"@);
    let ghost e1 = element_xml("<cp:contentStatus>"@, p.content_status, "</cp:contentStatus>"@);
    let ghost e2 = element_xml("<dcterms:created xsi:type=\"dcterms:W3CDTF\">"@, p.created, "</dcterms:created>"@);
    let ghost e3 = element_xml("<dc:creator>"@, p.creator, "</dc:creator>"@);
    let ghost e4 = element_xml("<dc:description>"@, p.description, "</dc:description>"@);
    let ghost e5 = element_xml("<dc:identifier>"@, p.identifier, "</dc:identifier>"@);
    let ghost e6 = element_xml("<cp:keywords>"@, p.keywords, "</cp:keywords>"@);
    let ghost e7 = element_xml("<dc:language>"@, p.language, "</dc:language>"@);
    let ghost e8 = element_xml("<cp:lastModifiedBy>"@, p.last_modified_by, "</cp:lastModifiedBy>"@);
    let ghost e9 = element_xml("<cp:lastPrinted>"@, p.last_printed, "</cp:lastPrinted>"@);
    let ghost e10 = element_xml("<dcterms:modified xsi:type=\"dcterms:W3CDTF\">"@, p.modified, "</dcterms:modified>"@);
    let ghost e11 = element_xml("<cp:revision>"@, p.revision, "</cp:revision>"@);
    let ghost e12 = element_xml("<dc:subject>"@, p.subject, "</dc:subject>"@);
    let ghost e13 = element_xml("<dc:title>"@, p.title, "</dc:title>"@);
    let ghost e14 = element_xml("<cp:version>"@, p.version, "</cp:version>"@);
    write_element(writer, "<cp:category>", &props.category, "</cp:category>");
    write_element(writer, "<cp:contentStatus>", &props.content_status, "</cp:contentStatus>");
    proof { lemma_concat_associative(before_properties, e0, e1); }
    write_element(writer, "<dcterms:created xsi:type=\"dcterms:W3CDTF\">", &props.created, "</dcterms:created>");
    proof { lemma_concat_associative(before_properties, e0 + e1, e2); }
    write_element(writer, "<dc:creator>", &props.creator, "</dc:creator>");
    proof { lemma_concat_associative(before_properties, e0 + e1 + e2, e3); }
    write_element(writer, "<dc:description>", &props.description, "</dc:description>");
    proof { lemma_concat_associative(before_properties, e0 + e1 + e2 + e3, e4); }
    write_element(writer, "<dc:identifier>", &props.identifier, "</dc:identifier>");
    proof { lemma_concat_associative(before_properties, e0 + e1 + e2 + e3 + e4, e5); }
    write_element(writer, "<cp:keywords>", &props.keywords, "</cp:keywords>");
    proof { lemma_concat_associative(before_properties, e0 + e1 + e2 + e3 + e4 + e5, e6); }
    write_element(writer, "<dc:language>", &props.language, "</dc:language>");
    proof { lemma_concat_associative(before_properties, e0 + e1 + e2 + e3 + e4 + e5 + e6, e7); }
    write_element(writer, "<cp:lastModifiedBy>", &props.last_modified_by, "</cp:lastModifiedBy>");
    proof { lemma_concat_associative(before_properties, e0 + e1 + e2 + e3 + e4 + e5 + e6 + e7, e8); }
    write_element(writer, "<cp:lastPrinted>", &props.last_printed, "</cp:lastPrinted>");
    proof { lemma_concat_associative(before_properties, e0 + e1 + e2 + e3 + e4 + e5 + e6 + e7 + e8, e9); }
    write_element(writer, "<dcterms:modified xsi:type=\"dcterms:W3CDTF\">", &props.modified, "</dcterms:modified>");
    proof { lemma_concat_associative(before_properties, e0 + e1 + e2 + e3 + e4 + e5 + e6 + e7 + e8 + e9, e10); }
    write_element(writer, "<cp:revision>", &props.revision, "</cp:revision>");
    proof { lemma_concat_associative(before_properties, e0 + e1 + e2 + e3 + e4 + e5 + e6 + e7 + e8 + e9 + e10, e11); }
    write_element(writer, "<dc:subject>", &props.subject, "</dc:subject>");
    proof { lemma_concat_associative(before_properties, e0 + e1 + e2 + e3 + e4 + e5 + e6 + e7 + e8 + e9 + e10 + e11, e12); }
    write_element(writer, "<dc:title>", &props.title, "</dc:title>");
    proof { lemma_concat_associative(before_properties, e0 + e1 + e2 + e3 + e4 + e5 + e6 + e7 + e8 + e9 + e10 + e11 + e12, e13); }
    write_element(writer, "<cp:version>", &props.version, "</cp:version>");
    proof { lemma_concat_associative(before_properties, e0 + e1 + e2 + e3 + e4 + e5 + e6 + e7 + e8 + e9 + e10 + e11 + e12 + e13, e14); }
    assert(properties_xml(p) == e0 + e1 + e2 + e3 + e4 + e5 + e6 + e7 + e8 + e9 + e10 + e11 + e12 + e13 + e14);
}

impl CoreProperties {
    /// The XML text of the part, with the root element named
    /// `cp:coreProperties` when `with_xmlns` holds and `coreProperties`
    /// otherwise. Writing to a string does not fail.
    pub fn to_string_inner(&self, with_xmlns: bool) -> (result: Result<String, std::fmt::Error>)
        ensures
            result matches Ok(text) && text@ == core_properties_xml(self@, with_xmlns),
    {
        let mut writer = String::new();
        writer.append("<?xml version=\"1.0\" encoding=\"UTF-8\" standalone=\"yes\"?>\r\n");
        writer.append("<");
        if with_xmlns {
            writer.append("cp:coreProperties");
        } else {
            writer.append("coreProperties");
        }
        write_attribute(&mut writer, "xmlns", &self.xmlns);
        write_namespace_declarations(&mut writer, &self.xmlns_map);
        write_attribute(&mut writer, "mc:Ignorable", &self.mc_ignorable);
        writer.append(">");
        write_properties(&mut writer, self);

        writer.append("</");
        if with_xmlns {
            writer.append("cp:coreProperties");
        } else {
            writer.append("coreProperties");
        }
        writer.append(">");
        Ok(writer)
    }

    /// The XML text of the part; the root element carries the `cp` prefix
    /// unless the default namespace is the core-properties namespace.
    pub fn to_xml(&self) -> (result: Result<String, std::fmt::Error>)
        ensures
            result matches Ok(text) && text@ == core_properties_xml(self@, prefixed_root(self@)),
    {
        let with_xmlns = match &self.xmlns {
            Some(xmlns) => *xmlns != "http://schemas.openxmlformats.org/package/2006/metadata/core-properties".to_owned(),
            None => true,
        };
        self.to_string_inner(with_xmlns)
    }
}


impl CoreProperties {
    /// Reads the core properties from the bytes of the part.
    pub fn from_reader(reader: &[u8]) -> (result: Result<Self, SdkError>)
        ensures
            reads_part(reader@, true, result),
    {
        let mut xml_reader = from_bytes_inner(reader);
        let result = Self::deserialize_inner(&mut xml_reader, None, NamespaceMap::new());
        proof {
            assert(read_since(Seq::<ReadOutcome>::empty(), xml_reader.history()) =~= xml_reader.history());
            xml_reader.lemma_replays();
        }
        result
    }
}

/// Reading the part from bytes is deserializing it over a fresh reader of
/// the same bytes: whatever `deserialize_inner` gives, with no start tag
/// given and no prefix bound, on a reader just made by `from_bytes_inner`
/// over `input` (`before`, read up to `after`) is a result that
/// `from_reader` promises on `input`.
pub proof fn law_from_reader_reads_fresh_reader(
    input: Seq<u8>,
    before: SliceReader,
    after: SliceReader,
    result: Result<CoreProperties, SdkError>,
)
    requires
        before.replays(),
        before.history() == Seq::<ReadOutcome>::empty(),
        before.source() == xml_items(input),
        before.limit() == input.len(),
        before.owned(),
        after.replays(),
        after.source() == before.source(),
        after.limit() == before.limit(),
        after.owned() == before.owned(),
        extends(before.history(), after.history()),
        core_read(core_start(None, NamespaceEntries::empty()), read_since(before.history(), after.history())),
        properties_result(result, core_result(core_start(None, NamespaceEntries::empty()),
            read_since(before.history(), after.history()))),
    ensures
        reads_part(input, true, result),
{
    after.lemma_replays();
    assert(read_since(before.history(), after.history()) =~= after.history());
}

impl Default for CoreProperties {
    /// No property set and no prefix bound.
    fn default() -> (props: Self)
        ensures
            props@ == root_view(None, NamespaceEntries::empty(), None),
    {
        CoreProperties {
            xmlns: None,
            xmlns_map: NamespaceMap::new(),
            mc_ignorable: None,
            category: None,
            content_status: None,
            created: None,
            creator: None,
            description: None,
            identifier: None,
            keywords: None,
            language: None,
            last_modified_by: None,
            last_printed: None,
            modified: None,
            revision: None,
            subject: None,
            title: None,
            version: None,
        }
    }
}

impl std::str::FromStr for CoreProperties {
    type Err = SdkError;

    /// As `CoreProperties::from_str`.
    fn from_str(s: &str) -> (result: Result<Self, Self::Err>)
        ensures
            reads_part(s.spec_bytes(), false, result),
    {
        CoreProperties::from_str(s)
    }
}

} // verus!

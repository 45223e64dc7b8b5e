//! Events of an XML document, as plain values, and the reader that yields them.

use vstd::prelude::*;
use vstd::string::StringSliceAdditionalSpecFns;
use vstd::utf8::{decode_utf8, valid_utf8};
use quick_xml::encoding::{Decoder, EncodingError};
use quick_xml::events::attributes::{Attribute, AttrError};
use quick_xml::events::{BytesStart, Event};
use quick_xml::events::Event::{CData, Comment, Decl, DocType, Empty, End, Eof, GeneralRef, PI, Start, Text};
use quick_xml::Reader;
use crate::error::SdkError;
use crate::text::decode_text;

verus! {

#[verifier::external_type_specification]
#[verifier::external_body]
#[verifier::reject_recursive_types(R)]
pub struct ExReader<R>(Reader<R>);

#[verifier::external_type_specification]
#[verifier::external_body]
pub struct ExDecoder(Decoder);

#[verifier::external_type_specification]
#[verifier::external_body]
pub struct ExBytesStart<'a>(BytesStart<'a>);

#[verifier::external_type_specification]
#[verifier::external_body]
pub struct ExAttribute<'a>(Attribute<'a>);

/// One attribute of a start tag: its qualified name and its value as they
/// stand in the document, before decoding and unescaping.
#[derive(Clone, Debug)]
pub struct XmlAttribute {
    pub key: Vec<u8>,
    pub value: Vec<u8>,
}

/// A start tag (or an empty-element tag).
#[derive(Clone, Debug)]
pub struct XmlTag {
    /// The qualified name of the element.
    pub name: Vec<u8>,
    /// What the attribute iterator yields when repeated names are allowed.
    pub attributes: Vec<Result<XmlAttribute, AttrError>>,
    /// What the attribute iterator yields when a repeated name is an error.
    pub checked_attributes: Vec<Result<XmlAttribute, AttrError>>,
}

/// The kinds of XML events, with what the library reads of each.
#[derive(Debug)]
pub enum XmlEventKind {
    Start(XmlTag),
    /// The qualified name of the closed element.
    End(Vec<u8>),
    Empty(XmlTag),
    /// The raw text, before decoding.
    Text(Vec<u8>),
    CData,
    Comment,
    Decl,
    PI,
    DocType,
    /// The raw name of the referenced entity (between `&` and `;`).
    GeneralRef(Vec<u8>),
    Eof,
}

/// An XML event with the reader's own description of it.
#[derive(Debug)]
pub struct XmlEvent {
    pub kind: XmlEventKind,
    pub description: String,
}

/// A start tag as the reader hands it over, taken apart by kind.
enum EventParts<'a> {
    Start(BytesStart<'a>),
    Empty(BytesStart<'a>),
    Other,
}

#[verifier::external_type_specification]
#[verifier::external_body]
pub struct ExEvent<'a>(Event<'a>);

/// An event as the reader yields it, in plain values: a start (or
/// empty-element) tag as its content between `<` and `>` (name and
/// attributes) with the length of its name; the name of an end tag; the raw
/// bytes of a text or of a reference's name.
pub enum EventItem {
    Start(Vec<u8>, usize),
    End(Vec<u8>),
    Empty(Vec<u8>, usize),
    Text(Vec<u8>),
    CData,
    Comment,
    Decl,
    PI,
    DocType,
    GeneralRef(Vec<u8>),
    Eof,
}

/// An event item as mathematical values.
pub enum EventItemView {
    Start(Seq<u8>, nat),
    End(Seq<u8>),
    Empty(Seq<u8>, nat),
    Text(Seq<u8>),
    CData,
    Comment,
    Decl,
    PI,
    DocType,
    GeneralRef(Seq<u8>),
    Eof,
}

impl View for EventItem {
    type V = EventItemView;

    open spec fn view(&self) -> EventItemView {
        match self {
            EventItem::Start(c, n) => EventItemView::Start(c@, *n as nat),
            EventItem::End(n) => EventItemView::End(n@),
            EventItem::Empty(c, n) => EventItemView::Empty(c@, *n as nat),
            EventItem::Text(t) => EventItemView::Text(t@),
            EventItem::CData => EventItemView::CData,
            EventItem::Comment => EventItemView::Comment,
            EventItem::Decl => EventItemView::Decl,
            EventItem::PI => EventItemView::PI,
            EventItem::DocType => EventItemView::DocType,
            EventItem::GeneralRef(r) => EventItemView::GeneralRef(r@),
            EventItem::Eof => EventItemView::Eof,
        }
    }
}

/// What one read of a quick-xml reader answers: the `Debug` text of the
/// event and the event as plain values, or `None` for an error.
pub type ItemView = Option<(Seq<char>, EventItemView)>;

/// The answers that a reader over `input`, with end-tag names unchecked,
/// gives to its reads, up to and including its first `Eof`.
pub uninterp spec fn xml_items(input: Seq<u8>) -> Seq<Option<(Seq<char>, EventItemView)>>;

/// The answers that `reader` will give to its reads from now on, up to and
/// including its first `Eof`.
pub uninterp spec fn pending_items(reader: Reader<&[u8]>) -> Seq<Option<(Seq<char>, EventItemView)>>;

/// The attributes that quick-xml finds in the content of a start tag whose
/// name has `name_len` bytes, with or without the check for repeated names,
/// each as its key's and its raw value's bytes.
pub uninterp spec fn tag_attributes_of(content: Seq<char>, name_len: nat, checks: bool) -> Seq<
    Result<(Seq<u8>, Seq<u8>), AttrError>,
>;

/// A reader over `input` (`Reader::from_reader`) with `check_end_names`
/// turned off: an end tag need not name the element it closes. Claimed: its
/// answers are the named ones of the input.
#[verifier::external_body]
fn xml_reader_over<'a>(input: &'a [u8]) -> (reader: Reader<&'a [u8]>)
    ensures
        pending_items(reader) == xml_items(input@),
{
    let mut reader = Reader::from_reader(input);
    reader.config_mut().check_end_names = false;
    reader
}

/// `Reader::read_event`, the event given as plain values with its `Debug`
/// text, and the event itself. Claimed: the reader had an answer to give,
/// and gave the first of its pending answers; after `Eof` it answers `Eof`
/// again (the reader is in its done state), after any other answer the
/// next ones follow; the name of a tag lies within its content.
#[verifier::external_body]
fn read_item<'a>(reader: &mut Reader<&'a [u8]>) -> (item: Result<(String, EventItem, Event<'a>), quick_xml::Error>)
    ensures
        pending_items(*old(reader)).len() > 0,
        item matches Ok((d, e, _)) ==> pending_items(*old(reader))[0] == Some((d@, e@)),
        item is Err ==> pending_items(*old(reader))[0] is None,
        pending_items(*old(reader))[0] matches Some((_, EventItemView::Eof))
            ==> pending_items(*final(reader)) == pending_items(*old(reader)),
        !(pending_items(*old(reader))[0] matches Some((_, EventItemView::Eof)))
            ==> pending_items(*final(reader)) == pending_items(*old(reader)).drop_first(),
        item matches Ok((_, EventItem::Start(c, n), _)) ==> n <= c.len(),
        item matches Ok((_, EventItem::Empty(c, n), _)) ==> n <= c.len(),
{
    let event = reader.read_event()?;
    Ok((format!("{:?}", event), match &event {
        Start(e) => EventItem::Start(e.to_vec(), e.name().0.len()),
        End(e) => EventItem::End(e.name().0.to_vec()),
        Empty(e) => EventItem::Empty(e.to_vec(), e.name().0.len()),
        Text(t) => EventItem::Text(t.to_vec()),
        CData(_) => EventItem::CData,
        Comment(_) => EventItem::Comment,
        Decl(_) => EventItem::Decl,
        PI(_) => EventItem::PI,
        DocType(_) => EventItem::DocType,
        GeneralRef(r) => EventItem::GeneralRef(r.to_vec()),
        Eof => EventItem::Eof,
    }, event))
}

/// The start tag inside an event, if it is one. Nothing is claimed.
#[verifier::external_body]
fn event_parts<'a>(event: Event<'a>) -> EventParts<'a> {
    match event {
        Event::Start(e) => EventParts::Start(e),
        Event::Empty(e) => EventParts::Empty(e),
        Event::End(_) => EventParts::Other,
        Event::Text(_) => EventParts::Other,
        Event::CData(_) => EventParts::Other,
        Event::Comment(_) => EventParts::Other,
        Event::Decl(_) => EventParts::Other,
        Event::PI(_) => EventParts::Other,
        Event::DocType(_) => EventParts::Other,
        Event::GeneralRef(_) => EventParts::Other,
        Event::Eof => EventParts::Other,
    }
}

/// The attributes of a start tag with this content and name length
/// (`BytesStart::from_content`, then `attributes` with the checks as
/// given), each as its key's and raw value's bytes. Claimed: they are the
/// named ones.
#[verifier::external_body]
fn tag_attributes(content: &str, name_len: usize, checks: bool) -> (attributes: Vec<Result<(Vec<u8>, Vec<u8>), AttrError>>)
    requires
        name_len <= content.spec_bytes().len(),
    ensures
        attributes_view(attributes@) == tag_attributes_of(content@, name_len as nat, checks),
{
    let tag = BytesStart::from_content(content, name_len);
    let mut attributes = tag.attributes();
    attributes.with_checks(checks);
    attributes.map(|a| a.map(|a| (a.key.as_ref().to_vec(), a.value.to_vec()))).collect()
}

/// Attribute pairs as byte sequences.
pub open spec fn attributes_view(
    attributes: Seq<Result<(Vec<u8>, Vec<u8>), AttrError>>,
) -> Seq<Result<(Seq<u8>, Seq<u8>), AttrError>> {
    attributes.map_values(|a: Result<(Vec<u8>, Vec<u8>), AttrError>| match a {
        Ok((k, v)) => Ok((k@, v@)),
        Err(e) => Err(e),
    })
}

/// Library attributes as byte sequences.
pub open spec fn xml_attributes_view(
    attributes: Seq<Result<XmlAttribute, AttrError>>,
) -> Seq<Result<(Seq<u8>, Seq<u8>), AttrError>> {
    attributes.map_values(|a: Result<XmlAttribute, AttrError>| match a {
        Ok(x) => Ok((x.key@, x.value@)),
        Err(e) => Err(e),
    })
}

/// `BytesStart::attributes`, with duplicate checks as given, collected.
/// Nothing is claimed of the items: they come from the tag's bytes.
#[verifier::external_body]
fn start_tag_attributes<'a>(e: &'a BytesStart, checks: bool) -> Vec<Result<Attribute<'a>, AttrError>> {
    let mut attributes = e.attributes();
    attributes.with_checks(checks);
    attributes.collect()
}

/// The key of an attribute, as bytes. Nothing is claimed.
#[verifier::external_body]
fn attribute_key(a: &Attribute) -> Vec<u8> {
    a.key.as_ref().to_vec()
}

/// The raw value of an attribute, as bytes. Nothing is claimed.
#[verifier::external_body]
fn attribute_raw_value(a: &Attribute) -> Vec<u8> {
    a.value.to_vec()
}

/// `Reader::get_ref` on a reader over bytes: the length of the input not yet
/// consumed. Nothing is claimed.
#[verifier::external_body]
fn unread_length(reader: &Reader<&[u8]>) -> usize {
    reader.get_ref().len()
}

/// `Reader::decoder`. Nothing is claimed.
#[verifier::external_body]
fn reader_decoder(reader: &Reader<&[u8]>) -> Decoder {
    reader.decoder()
}

fn convert_attributes<'a>(items: Vec<Result<Attribute<'a>, AttrError>>) -> (converted: Vec<Result<XmlAttribute, AttrError>>)
    ensures
        converted.len() == items.len(),
{
    let mut converted: Vec<Result<XmlAttribute, AttrError>> = Vec::new();
    for item in it: items
        invariant
            converted.len() == it.index(),
    {
        match item {
            Ok(a) => {
                let key = attribute_key(&a);
                let value = attribute_raw_value(&a);
                converted.push(Ok(XmlAttribute { key, value }));
            },
            Err(e) => converted.push(Err(e)),
        }
    }
    converted
}

/// Attribute pairs as library attributes, in order.
fn pairs_to_attributes(pairs: Vec<Result<(Vec<u8>, Vec<u8>), AttrError>>) -> (converted: Vec<Result<XmlAttribute, AttrError>>)
    ensures
        xml_attributes_view(converted@) == attributes_view(pairs@),
{
    let ghost source = pairs@;
    let mut converted: Vec<Result<XmlAttribute, AttrError>> = Vec::new();
    for item in it: pairs
        invariant
            source == it.seq(),
            converted.len() == it.index(),
            forall|j: int| 0 <= j < it.index() ==> xml_attributes_view(converted@)[j] == attributes_view(source)[j],
    {
        match item {
            Ok((key, value)) => converted.push(Ok(XmlAttribute { key, value })),
            Err(e) => converted.push(Err(e)),
        }
    }
    assert(xml_attributes_view(converted@) =~= attributes_view(source));
    converted
}

/// A tag with this name and the attributes that `e` holds.
fn tag_of(name: Vec<u8>, e: &BytesStart) -> (tag: XmlTag)
    ensures
        tag.name@ == name@,
{
    let attributes = convert_attributes(start_tag_attributes(e, false));
    let checked_attributes = convert_attributes(start_tag_attributes(e, true));
    XmlTag { name, attributes, checked_attributes }
}

/// A tag from the content of a start tag and the length of its name: the
/// attributes are the named ones where the content is UTF-8, else those that
/// the event `e` holds.
fn make_tag<'a>(decoder: Decoder, content: Vec<u8>, name_len: usize, e: Event<'a>) -> (tag: XmlTag)
    requires
        name_len <= content.len(),
    ensures
        tag_answers(tag, content@, name_len as nat),
{
    let name = prefix_bytes(&content, name_len);
    let bytes = content.as_slice();
    let decoded = decode_text(decoder, bytes);
    assert(bytes@ == content@);
    match decoded {
        Ok(text) => {
            assert(text@ == decode_utf8(content@));
            let text_str = text.as_str();
            assert(text_str@ == text@);
            proof {
                vstd::utf8::decode_utf8_encode_utf8(content@);
            }
            assert(vstd::utf8::encode_utf8(text@) == content@);
            let attributes = pairs_to_attributes(tag_attributes(text_str, name_len, false));
            let checked_attributes = pairs_to_attributes(tag_attributes(text_str, name_len, true));
            assert(xml_attributes_view(attributes@) == tag_attributes_of(decode_utf8(content@), name_len as nat, false));
            XmlTag { name, attributes, checked_attributes }
        },
        Err(_) => match event_parts(e) {
            EventParts::Start(b) => tag_of(name, &b),
            EventParts::Empty(b) => tag_of(name, &b),
            EventParts::Other => XmlTag { name, attributes: Vec::new(), checked_attributes: Vec::new() },
        },
    }
}

/// `content` holds its first `n` bytes.
fn prefix_bytes(content: &Vec<u8>, n: usize) -> (out: Vec<u8>)
    requires
        n <= content.len(),
    ensures
        out@ == content@.take(n as int),
{
    let mut out: Vec<u8> = Vec::new();
    let mut i: usize = 0;
    while i < n
        invariant
            i <= n <= content.len(),
            out@ == content@.take(i as int),
        decreases n - i,
    {
        out.push(content[i]);
        i += 1;
        assert(out@ =~= content@.take(i as int));
    }
    out
}

/// A tag answers the item of a start tag with this content and name length:
/// its name is the content's first `name_len` bytes; where the content is
/// UTF-8, its attributes (unchecked and checked) are the named ones.
pub open spec fn tag_answers(tag: XmlTag, content: Seq<u8>, name_len: nat) -> bool {
    &&& tag.name@ == content.take(name_len as int)
    &&& valid_utf8(content) ==> xml_attributes_view(tag.attributes@) == tag_attributes_of(decode_utf8(content), name_len, false)
    &&& valid_utf8(content) ==> xml_attributes_view(tag.checked_attributes@) == tag_attributes_of(decode_utf8(content), name_len, true)
}

/// An event kind answers an item.
pub open spec fn kind_answers(kind: XmlEventKind, item: EventItemView) -> bool {
    match item {
        EventItemView::Start(c, n) => kind matches XmlEventKind::Start(t) && tag_answers(t, c, n),
        EventItemView::End(n) => kind matches XmlEventKind::End(v) && v@ == n,
        EventItemView::Empty(c, n) => kind matches XmlEventKind::Empty(t) && tag_answers(t, c, n),
        EventItemView::Text(r) => kind matches XmlEventKind::Text(v) && v@ == r,
        EventItemView::CData => kind is CData,
        EventItemView::Comment => kind is Comment,
        EventItemView::Decl => kind is Decl,
        EventItemView::PI => kind is PI,
        EventItemView::DocType => kind is DocType,
        EventItemView::GeneralRef(r) => kind matches XmlEventKind::GeneralRef(v) && v@ == r,
        EventItemView::Eof => kind is Eof,
    }
}

/// A read's outcome is the answer to an item: the event with its `Debug`
/// text, or a `QuickXmlError` for an error.
pub open spec fn answers_item(outcome: ReadOutcome, item: ItemView, owned: bool) -> bool {
    match item {
        None => outcome matches Err(e) && e is QuickXmlError,
        Some((d, e)) => outcome matches Ok(ev) && ev.description@ == described(d, owned) && kind_answers(ev.kind, e),
    }
}

/// The description of an event as the reader gives it: as quick-xml
/// describes the event it lent, or, for a reader whose events are owned, as
/// it describes the owned copy, which names its text `Owned` in place of
/// `Borrowed`.
pub open spec fn described(d: Seq<char>, owned: bool) -> Seq<char> {
    if owned {
        replaced_first(d, "Borrowed("@, "Owned("@)
    } else {
        d
    }
}

/// The `Eof` answer that the reader gives by itself.
pub open spec fn is_plain_eof(outcome: ReadOutcome) -> bool {
    outcome matches Ok(ev) && ev.kind is Eof && ev.description@ == "Eof"@
}

/// An answer other than an error or `Eof`.
pub open spec fn is_event(outcome: ReadOutcome) -> bool {
    outcome matches Ok(ev) && !(ev.kind is Eof)
}

/// Replaying `history` against the items of `source`, for a reader that
/// answers `Eof` by itself once `limit` events other than `Eof` came: the
/// place in `source` reached and the number of such events, or `None` when
/// the history does not fit.
pub open spec fn replay(source: Seq<ItemView>, limit: nat, owned: bool, history: Seq<ReadOutcome>) -> Option<(nat, nat)>
    decreases history.len(),
{
    if history.len() == 0 {
        Some((0, 0))
    } else {
        match replay(source, limit, owned, history.drop_last()) {
            None => None,
            Some((p, c)) => if c >= limit {
                if is_plain_eof(history.last()) {
                    Some((p, c))
                } else {
                    None
                }
            } else if p < source.len() && answers_item(history.last(), source[p as int], owned) {
                Some((
                    if source[p as int] matches Some((_, EventItemView::Eof)) { p } else { p + 1 },
                    if is_event(history.last()) { c + 1 } else { c },
                ))
            } else {
                None
            },
        }
    }
}

/// What one read of a reader gave.
pub type ReadOutcome = Result<XmlEvent, SdkError>;

/// A reader of XML events over bytes in memory.
///
/// Every event other than `Eof` consumes at least one byte of the input, so a
/// reader over `n` unread bytes has reached the end after `n` such events.
/// The reader keeps that count: once `n` events other than `Eof` came, it
/// answers `Eof` itself, as the underlying reader would. Each answer is
/// recorded in the reader's history, a ghost value that the contracts of the
/// library's readers speak of; the answers that the underlying reader had
/// pending when this one was made, and the count it started with, are kept
/// too, and the history replays those answers.
pub struct SliceReader<'de> {
    reader: Reader<&'de [u8]>,
    budget: usize,
    history: Ghost<Seq<ReadOutcome>>,
    source: Ghost<Seq<ItemView>>,
    limit: Ghost<nat>,
    owned: bool,
}

impl<'de> SliceReader<'de> {
    /// Whether the reader describes its events as owned copies.
    pub closed spec fn owned(&self) -> bool {
        self.owned
    }

    /// Every answer given so far, in order.
    pub closed spec fn history(&self) -> Seq<ReadOutcome> {
        self.history@
    }

    /// How many more events other than `Eof` the input can hold.
    pub closed spec fn budget(&self) -> nat {
        self.budget as nat
    }

    /// The answers that the underlying reader had pending when this reader was made.
    pub closed spec fn source(&self) -> Seq<ItemView> {
        self.source@
    }

    /// How many events other than `Eof` this reader gives at most.
    pub closed spec fn limit(&self) -> nat {
        self.limit@
    }

    /// The answers that the underlying reader has pending now.
    pub closed spec fn pending(&self) -> Seq<ItemView> {
        pending_items(self.reader)
    }

    /// The history replays the answers the reader started with, up to where
    /// the pending answers begin, and the count is what the limit leaves.
    pub closed spec fn replays(&self) -> bool {
        fits(self.reader, self.budget, self.history@, self.source@, self.limit@, self.owned)
    }

    /// The count fits the machine's word.
    pub proof fn lemma_budget_bounded(&self)
        ensures
            self.budget() <= usize::MAX,
    {
    }

    /// The history replays the answers the reader started with.
    pub proof fn lemma_replays(&self)
        requires
            self.replays(),
        ensures
            replay(self.source(), self.limit(), self.owned(), self.history()) is Some,
    {
    }

    /// Wraps a reader over bytes; nothing has been read yet, and the answers
    /// to come are the ones the reader has pending.
    pub fn new(reader: Reader<&'de [u8]>) -> (slice_reader: Self)
        ensures
            slice_reader.replays(),
            slice_reader.history() == Seq::<ReadOutcome>::empty(),
            slice_reader.source() == pending_items(reader),
            slice_reader.pending() == pending_items(reader),
            !slice_reader.owned(),
    {
        let budget = unread_length(&reader);
        let ghost source = pending_items(reader);
        assert(source.subrange(0, source.len() as int) =~= source);
        SliceReader {
            reader,
            budget,
            history: Ghost(Seq::empty()),
            source: Ghost(source),
            limit: Ghost(budget as nat),
            owned: false,
        }
    }

    /// The next event of the document: the reader's next pending answer
    /// while the count lasts, `Eof` after that.
    pub fn next(&mut self) -> (outcome: ReadOutcome)
        requires
            old(self).replays(),
        ensures
            final(self).replays(),
            final(self).history() == old(self).history().push(outcome),
            final(self).source() == old(self).source(),
            final(self).limit() == old(self).limit(),
            final(self).owned() == old(self).owned(),
            final(self).budget() <= old(self).budget(),
            outcome matches Ok(e) && !(e.kind is Eof) ==> final(self).budget() < old(self).budget(),
            old(self).budget() == 0 ==> is_plain_eof(outcome),
            old(self).budget() > 0 ==> old(self).pending().len() > 0 && answers_item(outcome, old(self).pending()[0], old(self).owned()),
    {
        let source = self.source;
        let limit = self.limit;
        let owned = self.owned;
        answer(&mut self.reader, &mut self.budget, &mut self.history, source, limit, owned)
    }

    /// The decoder of the document's text.
    pub fn decoder(&self) -> Decoder {
        reader_decoder(&self.reader)
    }
}

/// The place of the first occurrence of `pattern` in `s`, if there is one.
pub open spec fn first_match(s: Seq<char>, pattern: Seq<char>) -> Option<int>
    decreases s.len(),
{
    if s.len() < pattern.len() {
        None
    } else if s.take(pattern.len() as int) == pattern {
        Some(0)
    } else if s.len() == 0 {
        None
    } else {
        match first_match(s.drop_first(), pattern) {
            Some(i) => Some(i + 1),
            None => None,
        }
    }
}

/// `s` with the first occurrence of `pattern` replaced by `with`.
pub open spec fn replaced_first(s: Seq<char>, pattern: Seq<char>, with: Seq<char>) -> Seq<char> {
    match first_match(s, pattern) {
        Some(i) => s.take(i) + with + s.skip(i + pattern.len()),
        None => s,
    }
}

/// `str::replacen` with a count of one. Claimed, as std documents: the
/// first match of the pattern is replaced.
#[verifier::external_body]
fn replace_first(s: &str, pattern: &str, with: &str) -> (replaced: String)
    ensures
        replaced@ == replaced_first(s@, pattern@, with@),
{
    s.replacen(pattern, with, 1)
}

/// The reader's state holds together: the history replays the source up to
/// where the pending answers begin, and the count is what the limit leaves.
pub open spec fn fits(
    reader: Reader<&[u8]>,
    budget: usize,
    history: Seq<ReadOutcome>,
    source: Seq<ItemView>,
    limit: nat,
    owned: bool,
) -> bool {
    &&& replay(source, limit, owned, history) matches Some((p, c))
    &&& p <= source.len()
    &&& pending_items(reader) == source.subrange(p as int, source.len() as int)
    &&& budget + c == limit
}

/// One answer of the reader: the next pending answer while the count lasts,
/// `Eof` after that.
fn answer<'de>(
    reader: &mut Reader<&'de [u8]>,
    budget: &mut usize,
    history: &mut Ghost<Seq<ReadOutcome>>,
    source: Ghost<Seq<ItemView>>,
    limit: Ghost<nat>,
    owned: bool,
) -> (outcome: ReadOutcome)
    requires
        fits(*old(reader), *old(budget), old(history)@, source@, limit@, owned),
    ensures
        fits(*final(reader), *final(budget), final(history)@, source@, limit@, owned),
        final(history)@ == old(history)@.push(outcome),
        *final(budget) <= *old(budget),
        outcome matches Ok(e) && !(e.kind is Eof) ==> *final(budget) < *old(budget),
        *old(budget) == 0 ==> is_plain_eof(outcome),
        *old(budget) > 0 ==> pending_items(*old(reader)).len() > 0 && answers_item(outcome, pending_items(*old(reader))[0], owned),
{
        let ghost h = history@;
        let ghost src = source@;
        let ghost lim = limit@;
        let ghost pc = replay(src, lim, owned, h)->Some_0;
        let outcome = if *budget == 0 {
            Ok(XmlEvent { kind: XmlEventKind::Eof, description: "Eof".to_owned() })
        } else {
            match read_item(reader) {
                Err(e) => Err(SdkError::QuickXmlError(e)),
                Ok((borrowed_description, item, event)) => {
                    let description = if owned {
                        replace_first(borrowed_description.as_str(), "Borrowed(", "Owned(")
                    } else {
                        borrowed_description
                    };
                    let decoder = reader_decoder(&*reader);
                    let kind = match item {
                        EventItem::Start(content, n) => XmlEventKind::Start(make_tag(decoder, content, n, event)),
                        EventItem::End(name) => XmlEventKind::End(name),
                        EventItem::Empty(content, n) => XmlEventKind::Empty(make_tag(decoder, content, n, event)),
                        EventItem::Text(t) => XmlEventKind::Text(t),
                        EventItem::CData => XmlEventKind::CData,
                        EventItem::Comment => XmlEventKind::Comment,
                        EventItem::Decl => XmlEventKind::Decl,
                        EventItem::PI => XmlEventKind::PI,
                        EventItem::DocType => XmlEventKind::DocType,
                        EventItem::GeneralRef(r) => XmlEventKind::GeneralRef(r),
                        EventItem::Eof => XmlEventKind::Eof,
                    };
                    let at_end = match kind {
                        XmlEventKind::Eof => true,
                        _ => false,
                    };
                    if !at_end {
                        *budget = *budget - 1;
                    }
                    Ok(XmlEvent { kind, description })
                },
            }
        };
        proof {
            reveal_strlit("Eof");
            let h2 = h.push(outcome);
            assert(h2.drop_last() =~= h);
            assert(h2.last() == outcome);
            if pc.0 < src.len() {
                assert(src.subrange(pc.0 as int, src.len() as int).drop_first()
                    =~= src.subrange(pc.0 as int + 1, src.len() as int));
            }
        }
        *history = Ghost(history@.push(outcome));
        outcome
    }


/// A reader over the text of a document; end tags need not name the element
/// they close.
pub fn from_str_inner(s: &str) -> (reader: SliceReader<'_>)
    ensures
        reader.replays(),
        reader.history() == Seq::<ReadOutcome>::empty(),
        reader.source() == xml_items(s.spec_bytes()),
        reader.limit() == s.spec_bytes().len(),
        !reader.owned(),
{
    let bytes = s.as_bytes();
    let xml_reader = xml_reader_over(bytes);
    let ghost source = pending_items(xml_reader);
    assert(source.subrange(0, source.len() as int) =~= source);
    SliceReader {
        reader: xml_reader,
        budget: bytes.len(),
        history: Ghost(Seq::empty()),
        source: Ghost(source),
        limit: Ghost(bytes.len() as nat),
        owned: false,
    }
}

/// A reader over the bytes of a document, like one over a buffered input:
/// end tags need not name the element they close, and events are described
/// as owned copies.
pub fn from_bytes_inner(bytes: &[u8]) -> (reader: SliceReader<'_>)
    ensures
        reader.replays(),
        reader.history() == Seq::<ReadOutcome>::empty(),
        reader.source() == xml_items(bytes@),
        reader.limit() == bytes@.len(),
        reader.owned(),
{
    let xml_reader = xml_reader_over(bytes);
    let ghost source = pending_items(xml_reader);
    assert(source.subrange(0, source.len() as int) =~= source);
    SliceReader {
        reader: xml_reader,
        budget: bytes.len(),
        history: Ghost(Seq::empty()),
        source: Ghost(source),
        limit: Ghost(bytes.len() as nat),
        owned: true,
    }
}

} // verus!

//! Reading whole elements: skipping one, reading its text, finding a start tag.

use vstd::prelude::*;
use vstd::utf8::{decode_utf8, valid_utf8};
use crate::error::SdkError;
use crate::machine::{Failure, Step, is_failure, lemma_run_push, run, stops_with};
use crate::reader::{ReadOutcome, SliceReader, XmlEventKind, XmlTag};
use crate::namespaces::{NamespaceEntries, NamespaceMap, bind_namespaces, local_name, local_name_of, update_namespace_map};
use crate::text::{
    bytes_equal, decode_text, entity_name, escaped, escaped_char, is_special_char, law_entities_undo_escape,
    law_escape_is_injective, lemma_escaped_concat, lossy_string, resolve_xml_entity, utf8_lossy_text, xml_entity_value,
};

verus! {

/// What a reader answered after `before`, up to `after`.
pub open spec fn read_since(before: Seq<ReadOutcome>, after: Seq<ReadOutcome>) -> Seq<ReadOutcome> {
    after.subrange(before.len() as int, after.len() as int)
}

/// `after` continues `before`.
pub open spec fn extends(before: Seq<ReadOutcome>, after: Seq<ReadOutcome>) -> bool {
    &&& before.len() <= after.len()
    &&& after.subrange(0, before.len() as int) == before
}

/// The result a stopped machine gave.
pub open spec fn stop_result<S, R>(step: Step<S, R>) -> R
    recommends
        step is Stop,
{
    match step {
        Step::Stop(r) => r,
        Step::Continue(_) => arbitrary(),
    }
}

/// The text of an end-of-file error.
pub open spec fn unexpected_eof_text() -> Seq<char> {
    "Unexpected end of file"@
}

/// Skipping an element, `depth` elements deep inside it: start tags go one
/// deeper, end tags one out, and the end tag of the skipped element ends the
/// skip; the end of the document is an error.
pub open spec fn skip_step(depth: int, outcome: ReadOutcome) -> Step<int, Result<(), Failure>> {
    match outcome {
        Err(e) => Step::Stop(Err(Failure::Reader(e))),
        Ok(event) => match event.kind {
            XmlEventKind::Start(_) => Step::Continue(depth + 1),
            XmlEventKind::End(_) => if depth <= 1 {
                Step::Stop(Ok(()))
            } else {
                Step::Continue(depth - 1)
            },
            XmlEventKind::Eof => Step::Stop(Err(Failure::Common(unexpected_eof_text()))),
            _ => Step::Continue(depth),
        },
    }
}

pub open spec fn skip_machine() -> spec_fn(int, ReadOutcome) -> Step<int, Result<(), Failure>> {
    |depth: int, outcome: ReadOutcome| skip_step(depth, outcome)
}

/// `Ok` exactly when the machine's result is, else an error that its failure describes.
pub open spec fn unit_result(result: Result<(), SdkError>, expected: Result<(), Failure>) -> bool {
    match expected {
        Ok(_) => result is Ok,
        Err(f) => result matches Err(e) && is_failure(e, f),
    }
}

/// Reads on past the rest of an element whose start tag was just read, up to
/// and including its end tag.
pub fn skip_element(reader: &mut SliceReader) -> (result: Result<(), SdkError>)
    requires
        old(reader).replays(),
    ensures
        final(reader).replays(),
        final(reader).source() == old(reader).source(),
        final(reader).limit() == old(reader).limit(),
        final(reader).owned() == old(reader).owned(),
        extends(old(reader).history(), final(reader).history()),
        final(reader).budget() <= old(reader).budget(),
        stops_with(skip_machine(), 1int, read_since(old(reader).history(), final(reader).history()),
            stop_result(run(skip_machine(), 1int, read_since(old(reader).history(), final(reader).history())))),
        unit_result(result, stop_result(run(skip_machine(), 1int,
            read_since(old(reader).history(), final(reader).history())))),
{
    let ghost h0 = reader.history();
    let ghost b0 = reader.budget();
    let mut level: u128 = 1;
    proof {
        reader.lemma_budget_bounded();
        assert(h0.subrange(0, h0.len() as int) =~= h0);
        assert(read_since(h0, h0) =~= Seq::<ReadOutcome>::empty());
    }
    loop
        invariant
            reader.replays(),
            reader.source() == old(reader).source(),
            reader.limit() == old(reader).limit(),
            reader.owned() == old(reader).owned(),
            extends(h0, reader.history()),
            h0 == old(reader).history(),
            reader.budget() <= old(reader).budget(),
            1 <= level,
            level + reader.budget() <= 1 + b0,
            b0 <= usize::MAX,
            run(skip_machine(), 1int, read_since(h0, reader.history())) == Step::<int, Result<(), Failure>>::Continue(level as int),
        decreases reader.budget(),
    {
        let ghost before = reader.history();
        let outcome = reader.next();
        proof {
            assert(read_since(h0, reader.history()) =~= read_since(h0, before).push(outcome));
            assert(reader.history().subrange(0, h0.len() as int) =~= before.subrange(0, h0.len() as int));
            lemma_run_push(skip_machine(), 1int, read_since(h0, before), outcome);
            assert(read_since(h0, reader.history()).drop_last() =~= read_since(h0, before));
        }
        match outcome {
            Err(e) => return Err(e),
            Ok(event) => match event.kind {
                XmlEventKind::Start(_) => level = level + 1,
                XmlEventKind::End(_) => {
                    if level == 1 {
                        return Ok(());
                    }
                    level = level - 1;
                },
                XmlEventKind::Eof => return Err(SdkError::CommonError("Unexpected end of file".to_owned())),
                _ => {},
            },
        }
    }
}

/// The text gathered so far with `more` appended.
pub open spec fn append_text(text: Option<Seq<char>>, more: Seq<char>) -> Option<Seq<char>> {
    match text {
        Some(t) => Some(t + more),
        None => Some(more),
    }
}

/// Reading the text of an element named `name`: decoded text is appended,
/// references to the predefined entities add their character (other
/// references are dropped), and the element's end tag ends the reading with
/// the text, if there was any. The end of the document and any other event
/// are errors.
pub open spec fn text_step(
    name: Seq<u8>,
    text: Option<Seq<char>>,
    outcome: ReadOutcome,
) -> Step<Option<Seq<char>>, Result<Option<Seq<char>>, Failure>> {
    match outcome {
        Err(e) => Step::Stop(Err(Failure::Reader(e))),
        Ok(event) => match event.kind {
            XmlEventKind::Text(raw) => if valid_utf8(raw@) {
                Step::Continue(append_text(text, decode_utf8(raw@)))
            } else {
                Step::Stop(Err(Failure::Encoding))
            },
            XmlEventKind::GeneralRef(raw) => if valid_utf8(raw@) {
                match xml_entity_value(decode_utf8(raw@)) {
                    Some(v) => Step::Continue(append_text(text, v)),
                    None => Step::Continue(text),
                }
            } else {
                Step::Stop(Err(Failure::Encoding))
            },
            XmlEventKind::End(end_name) => if end_name@ == name {
                Step::Stop(Ok(text))
            } else {
                Step::Stop(Err(Failure::Common("Unexpected event: "@ + event.description@)))
            },
            XmlEventKind::Eof => Step::Stop(Err(Failure::Common(unexpected_eof_text()))),
            _ => Step::Stop(Err(Failure::Common("Unexpected event: "@ + event.description@))),
        },
    }
}

pub open spec fn text_machine(name: Seq<u8>) -> spec_fn(Option<Seq<char>>, ReadOutcome) -> Step<
    Option<Seq<char>>,
    Result<Option<Seq<char>>, Failure>,
> {
    |text: Option<Seq<char>>, outcome: ReadOutcome| text_step(name, text, outcome)
}

/// `text` holds none of the characters that escaping replaces.
pub open spec fn has_no_special_char(text: Seq<char>) -> bool {
    forall|i: int| 0 <= i < text.len() ==> !is_special_char(#[trigger] text[i])
}

/// An event that escaped text is read as: a text without the characters that
/// escaping replaces, or a reference to a predefined entity.
pub open spec fn is_text_piece(outcome: ReadOutcome) -> bool {
    match outcome {
        Ok(event) => match event.kind {
            XmlEventKind::Text(raw) => valid_utf8(raw@) && has_no_special_char(decode_utf8(raw@)),
            XmlEventKind::GeneralRef(raw) => valid_utf8(raw@) && xml_entity_value(decode_utf8(raw@)) is Some,
            _ => false,
        },
        Err(_) => false,
    }
}

/// What a text or reference event stands for in the document: a text as it
/// stands, a reference as `&name;`.
pub open spec fn piece_markup(outcome: ReadOutcome) -> Seq<char> {
    match outcome {
        Ok(event) => match event.kind {
            XmlEventKind::Text(raw) => decode_utf8(raw@),
            XmlEventKind::GeneralRef(raw) => seq!['&'] + decode_utf8(raw@) + seq![';'],
            _ => Seq::<char>::empty(),
        },
        Err(_) => Seq::<char>::empty(),
    }
}

/// What text and reference events stand for in the document, in order.
pub open spec fn pieces_markup(read: Seq<ReadOutcome>) -> Seq<char>
    decreases read.len(),
{
    if read.len() == 0 {
        Seq::<char>::empty()
    } else {
        pieces_markup(read.drop_last()) + piece_markup(read.last())
    }
}

/// What a text or reference event adds to the text read.
pub open spec fn piece_text(outcome: ReadOutcome) -> Seq<char> {
    match outcome {
        Ok(event) => match event.kind {
            XmlEventKind::Text(raw) => decode_utf8(raw@),
            XmlEventKind::GeneralRef(raw) => match xml_entity_value(decode_utf8(raw@)) {
                Some(v) => v,
                None => Seq::<char>::empty(),
            },
            _ => Seq::<char>::empty(),
        },
        Err(_) => Seq::<char>::empty(),
    }
}

/// The text that text and reference events add up to.
pub open spec fn pieces_text(read: Seq<ReadOutcome>) -> Seq<char>
    decreases read.len(),
{
    if read.len() == 0 {
        Seq::<char>::empty()
    } else {
        pieces_text(read.drop_last()) + piece_text(read.last())
    }
}

/// `outcome` is the end tag named `name`.
pub open spec fn is_end_of(outcome: ReadOutcome, name: Seq<u8>) -> bool {
    outcome matches Ok(event) && (event.kind matches XmlEventKind::End(end) && end@ == name)
}

/// Text without special characters escapes as itself.
proof fn lemma_escaped_plain(text: Seq<char>)
    requires
        has_no_special_char(text),
    ensures
        escaped(text) == text,
    decreases text.len(),
{
    if text.len() > 0 {
        assert(has_no_special_char(text.drop_last()));
        lemma_escaped_plain(text.drop_last());
        assert(!is_special_char(text[text.len() - 1]));
        law_entities_undo_escape(text.last());
        assert(text.drop_last() + seq![text.last()] =~= text);
    }
}

/// Each piece stands in the document for the escaped form of what it adds.
proof fn lemma_piece_escaped(outcome: ReadOutcome)
    requires
        is_text_piece(outcome),
    ensures
        escaped(piece_text(outcome)) == piece_markup(outcome),
{
    match outcome {
        Ok(event) => match event.kind {
            XmlEventKind::Text(raw) => {
                lemma_escaped_plain(decode_utf8(raw@));
            },
            XmlEventKind::GeneralRef(raw) => {
                let n = decode_utf8(raw@);
                let c: char = if n == seq!['l', 't'] {
                    '<'
                } else if n == seq!['g', 't'] {
                    '>'
                } else if n == seq!['a', 'm', 'p'] {
                    '&'
                } else if n == seq!['a', 'p', 'o', 's'] {
                    '\''
                } else {
                    '"'
                };
                assert(xml_entity_value(n) == Some(seq![c]));
                assert(entity_name(c) == n);
                law_entities_undo_escape(c);
                let s = seq![c];
                assert(s.drop_last() =~= Seq::<char>::empty());
                assert(escaped(s.drop_last()) =~= Seq::<char>::empty());
                assert(escaped(s) =~= escaped_char(c));
            },
            _ => {},
        },
        Err(_) => {},
    }
}

/// Over text pieces the text machine goes on, holding what they add up to,
/// whose escaped form is what they stand for in the document.
pub proof fn lemma_pieces_read(name: Seq<u8>, read: Seq<ReadOutcome>)
    requires
        forall|i: int| 0 <= i < read.len() ==> is_text_piece(#[trigger] read[i]),
    ensures
        run(text_machine(name), None::<Seq<char>>, read) == Step::<Option<Seq<char>>, Result<Option<Seq<char>>, Failure>>::Continue(
            if read.len() == 0 { None } else { Some(pieces_text(read)) },
        ),
        escaped(pieces_text(read)) == pieces_markup(read),
    decreases read.len(),
{
    if read.len() > 0 {
        let prefix = read.drop_last();
        assert forall|i: int| 0 <= i < prefix.len() implies is_text_piece(#[trigger] prefix[i]) by {
            assert(prefix[i] == read[i]);
        }
        lemma_pieces_read(name, prefix);
        assert(is_text_piece(read[read.len() - 1]));
        lemma_piece_escaped(read.last());
        lemma_escaped_concat(pieces_text(prefix), piece_text(read.last()));
        if prefix.len() == 0 {
            assert(pieces_text(prefix) =~= Seq::<char>::empty());
            assert(pieces_text(read) =~= piece_text(read.last()));
        }
    }
}

/// Reading back escaped text: when the events up to the end tag are text
/// pieces that stand in the document for the escaped form of a non-empty
/// value, the text read is that value.
pub proof fn law_escaped_text_reads_back(name: Seq<u8>, value: Seq<char>, read: Seq<ReadOutcome>)
    requires
        value.len() > 0,
        read.len() > 0,
        forall|i: int| 0 <= i < read.len() - 1 ==> is_text_piece(#[trigger] read[i]),
        pieces_markup(read.drop_last()) == escaped(value),
        is_end_of(read.last(), name),
    ensures
        run(text_machine(name), None::<Seq<char>>, read)
            == Step::<Option<Seq<char>>, Result<Option<Seq<char>>, Failure>>::Stop(Ok(Some(value))),
{
    let pieces = read.drop_last();
    assert forall|i: int| 0 <= i < pieces.len() implies is_text_piece(#[trigger] pieces[i]) by {
        assert(pieces[i] == read[i]);
    }
    lemma_pieces_read(name, pieces);
    law_escape_is_injective(pieces_text(pieces), value);
    if pieces.len() == 0 {
        assert(escaped(value).len() >= escaped_char(value.last()).len());
        assert(pieces_markup(pieces) =~= Seq::<char>::empty());
        assert(false);
    }
    lemma_run_push(text_machine(name), None::<Seq<char>>, pieces, read.last());
    assert(pieces.push(read.last()) =~= read);
}

/// The optional text is what the machine's result says, or the error its failure describes.
pub open spec fn optional_text_result(
    result: Result<Option<String>, SdkError>,
    expected: Result<Option<Seq<char>>, Failure>,
) -> bool {
    match expected {
        Ok(None) => result matches Ok(None),
        Ok(Some(t)) => result matches Ok(Some(r)) && r@ == t,
        Err(f) => result matches Err(e) && is_failure(e, f),
    }
}

/// `text` with `more` appended.
fn appended(text: Option<String>, more: &str) -> (result: Option<String>)
    ensures
        result matches Some(r) && append_text(
            match text {
                Some(t) => Some(t@),
                None => None::<Seq<char>>,
            },
            more@,
        ) == Some(r@),
{
    let mut t = match text {
        Some(t) => t,
        None => String::new(),
    };
    t.append(more);
    Some(t)
}

/// The view of an optional text.
pub open spec fn optional_view(text: Option<String>) -> Option<Seq<char>> {
    match text {
        Some(t) => Some(t@),
        None => None,
    }
}

/// Reads the text content of the element whose start tag `start` was just
/// read, up to and including its end tag.
pub fn read_element_text(reader: &mut SliceReader, start: &XmlTag) -> (result: Result<Option<String>, SdkError>)
    requires
        old(reader).replays(),
    ensures
        final(reader).replays(),
        final(reader).source() == old(reader).source(),
        final(reader).limit() == old(reader).limit(),
        final(reader).owned() == old(reader).owned(),
        extends(old(reader).history(), final(reader).history()),
        final(reader).budget() <= old(reader).budget(),
        stops_with(text_machine(start.name@), None::<Seq<char>>, read_since(old(reader).history(), final(reader).history()),
            stop_result(run(text_machine(start.name@), None::<Seq<char>>, read_since(old(reader).history(), final(reader).history())))),
        optional_text_result(result, stop_result(run(text_machine(start.name@), None::<Seq<char>>,
            read_since(old(reader).history(), final(reader).history())))),
{
    let ghost h0 = reader.history();
    let ghost name = start.name@;
    let decoder = reader.decoder();
    let mut text: Option<String> = None;
    proof {
        assert(h0.subrange(0, h0.len() as int) =~= h0);
        assert(read_since(h0, h0) =~= Seq::<ReadOutcome>::empty());
    }
    loop
        invariant
            reader.replays(),
            reader.source() == old(reader).source(),
            reader.limit() == old(reader).limit(),
            reader.owned() == old(reader).owned(),
            extends(h0, reader.history()),
            h0 == old(reader).history(),
            reader.budget() <= old(reader).budget(),
            name == start.name@,
            run(text_machine(name), None::<Seq<char>>, read_since(h0, reader.history()))
                == Step::<Option<Seq<char>>, Result<Option<Seq<char>>, Failure>>::Continue(optional_view(text)),
        decreases reader.budget(),
    {
        let ghost before = reader.history();
        let outcome = reader.next();
        proof {
            assert(read_since(h0, reader.history()) =~= read_since(h0, before).push(outcome));
            assert(reader.history().subrange(0, h0.len() as int) =~= before.subrange(0, h0.len() as int));
            lemma_run_push(text_machine(name), None::<Seq<char>>, read_since(h0, before), outcome);
            assert(read_since(h0, reader.history()).drop_last() =~= read_since(h0, before));
        }
        match outcome {
            Err(e) => return Err(e),
            Ok(event) => match event.kind {
                XmlEventKind::Text(raw) => {
                    match decode_text(decoder, &raw) {
                        Ok(t) => {
                            text = appended(text, &t);
                        },
                        Err(e) => return Err(SdkError::QuickEncodingError(e)),
                    }
                },
                XmlEventKind::GeneralRef(raw) => {
                    match decode_text(decoder, &raw) {
                        Ok(entity) => {
                            match resolve_xml_entity(&entity) {
                                Some(value) => {
                                    text = appended(text, value);
                                },
                                None => {},
                            }
                        },
                        Err(e) => return Err(SdkError::QuickEncodingError(e)),
                    }
                },
                XmlEventKind::End(end_name) => {
                    if bytes_equal(end_name.as_slice(), start.name.as_slice()) {
                        return Ok(text);
                    }
                    let mut message = "Unexpected event: ".to_owned();
                    message.append(&event.description);
                    return Err(SdkError::CommonError(message));
                },
                XmlEventKind::Eof => return Err(SdkError::CommonError("Unexpected end of file".to_owned())),
                _ => {
                    let mut message = "Unexpected event: ".to_owned();
                    message.append(&event.description);
                    return Err(SdkError::CommonError(message));
                },
            },
        }
    }
}

/// Looking for the next start tag: other events are passed over, the end of
/// the document is an error.
pub open spec fn seek_step(u: (), outcome: ReadOutcome) -> Step<(), Result<(XmlTag, bool), Failure>> {
    match outcome {
        Err(e) => Step::Stop(Err(Failure::Reader(e))),
        Ok(event) => match event.kind {
            XmlEventKind::Start(t) => Step::Stop(Ok((t, false))),
            XmlEventKind::Empty(t) => Step::Stop(Ok((t, true))),
            XmlEventKind::Eof => Step::Stop(Err(Failure::Common(unexpected_eof_text()))),
            _ => Step::Continue(()),
        },
    }
}

pub open spec fn seek_machine() -> spec_fn((), ReadOutcome) -> Step<(), Result<(XmlTag, bool), Failure>> {
    |u: (), outcome: ReadOutcome| seek_step(u, outcome)
}

/// The start tag is what the expected result says, or the error its failure describes.
pub open spec fn start_result(
    result: Result<(XmlTag, bool), SdkError>,
    expected: Result<(XmlTag, bool), Failure>,
) -> bool {
    match expected {
        Ok(v) => result == Ok::<(XmlTag, bool), SdkError>(v),
        Err(f) => result matches Err(e) && is_failure(e, f),
    }
}

/// Reads up to the next start (or empty-element) tag.
fn seek_start(reader: &mut SliceReader) -> (found: Result<(XmlTag, bool), SdkError>)
    requires
        old(reader).replays(),
    ensures
        final(reader).replays(),
        final(reader).source() == old(reader).source(),
        final(reader).limit() == old(reader).limit(),
        final(reader).owned() == old(reader).owned(),
        extends(old(reader).history(), final(reader).history()),
        final(reader).budget() <= old(reader).budget(),
        stops_with(seek_machine(), (), read_since(old(reader).history(), final(reader).history()),
            stop_result(run(seek_machine(), (), read_since(old(reader).history(), final(reader).history())))),
        start_result(found, stop_result(run(seek_machine(), (), read_since(old(reader).history(), final(reader).history())))),
{
    let ghost h0 = reader.history();
    proof {
        assert(h0.subrange(0, h0.len() as int) =~= h0);
        assert(read_since(h0, h0) =~= Seq::<ReadOutcome>::empty());
    }
    loop
        invariant
            reader.replays(),
            reader.source() == old(reader).source(),
            reader.limit() == old(reader).limit(),
            reader.owned() == old(reader).owned(),
            extends(h0, reader.history()),
            h0 == old(reader).history(),
            reader.budget() <= old(reader).budget(),
            run(seek_machine(), (), read_since(h0, reader.history())) == Step::<(), Result<(XmlTag, bool), Failure>>::Continue(()),
        decreases reader.budget(),
    {
        let ghost before = reader.history();
        let outcome = reader.next();
        proof {
            assert(read_since(h0, reader.history()) =~= read_since(h0, before).push(outcome));
            assert(reader.history().subrange(0, h0.len() as int) =~= before.subrange(0, h0.len() as int));
            lemma_run_push(seek_machine(), (), read_since(h0, before), outcome);
            assert(read_since(h0, reader.history()).drop_last() =~= read_since(h0, before));
        }
        match outcome {
            Err(e) => return Err(e),
            Ok(event) => match event.kind {
                XmlEventKind::Start(t) => return Ok((t, false)),
                XmlEventKind::Empty(t) => return Ok((t, true)),
                XmlEventKind::Eof => return Err(SdkError::CommonError("Unexpected end of file".to_owned())),
                _ => {},
            },
        }
    }
}

/// What becomes of a start tag that was found while looking for an element
/// with local name `local`: another name is a mismatch; otherwise the tag's
/// namespace declarations are bound, and the tag is the result unless a
/// declaration fails. Gives the prefix map afterwards and the result.
pub open spec fn found_start(
    local: Seq<u8>,
    entries: NamespaceEntries,
    found: Result<(XmlTag, bool), Failure>,
) -> (NamespaceEntries, Result<(XmlTag, bool), Failure>) {
    match found {
        Err(f) => (entries, Err(f)),
        Ok((t, empty)) => if local_name_of(t.name@) != local {
            (entries, Err(Failure::Mismatch { expected: utf8_lossy_text(local), found: utf8_lossy_text(t.name@) }))
        } else {
            let (bound, failure) = bind_namespaces(entries, t.attributes@);
            match failure {
                Some(f) => (bound, Err(f)),
                None => (bound, Ok((t, empty))),
            }
        },
    }
}

/// Reads up to the next start (or empty-element) tag, which must have local
/// name `tag`, and binds its namespace declarations; a start tag that was
/// read already is taken as it is, without these checks.
pub fn expect_event_start(
    reader: &mut SliceReader,
    xml_event: Option<(XmlTag, bool)>,
    tag: &[u8],
    xmlns_map: &mut NamespaceMap,
) -> (result: Result<(XmlTag, bool), SdkError>)
    requires
        old(reader).replays(),
    ensures
        final(reader).replays(),
        final(reader).source() == old(reader).source(),
        final(reader).limit() == old(reader).limit(),
        final(reader).owned() == old(reader).owned(),
        extends(old(reader).history(), final(reader).history()),
        final(reader).budget() <= old(reader).budget(),
        match xml_event {
            Some(given) => {
                &&& final(reader).history() == old(reader).history()
                &&& final(xmlns_map).entries() == old(xmlns_map).entries()
                &&& result == Ok::<(XmlTag, bool), SdkError>(given)
            },
            None => {
                let read = read_since(old(reader).history(), final(reader).history());
                let found = stop_result(run(seek_machine(), (), read));
                &&& stops_with(seek_machine(), (), read, found)
                &&& final(xmlns_map).entries() == found_start(tag@, old(xmlns_map).entries(), found).0
                &&& start_result(result, found_start(tag@, old(xmlns_map).entries(), found).1)
            },
        },
{
    proof {
        let h0 = reader.history();
        assert(h0.subrange(0, h0.len() as int) =~= h0);
        assert(read_since(h0, h0) =~= Seq::<ReadOutcome>::empty());
    }
    match xml_event {
        Some(given) => Ok(given),
        None => {
            let ghost h0 = reader.history();
            let found = seek_start(reader);
            let (e, empty) = found?;
            let found_local = local_name(&e.name);
            if !bytes_equal(found_local.as_slice(), tag) {
                return Err(SdkError::MismatchError {
                    expected: lossy_string(tag),
                    found: lossy_string(&e.name),
                });
            }
            update_namespace_map(reader, &e, xmlns_map)?;
            Ok((e, empty))
        },
    }
}

/// The number of start tags among `read`.
pub open spec fn starts_in(read: Seq<ReadOutcome>) -> int
    decreases read.len(),
{
    if read.len() == 0 {
        0
    } else {
        starts_in(read.drop_last()) + (if read.last() matches Ok(e) && e.kind is Start { 1int } else { 0int })
    }
}

/// The number of end tags among `read`.
pub open spec fn ends_in(read: Seq<ReadOutcome>) -> int
    decreases read.len(),
{
    if read.len() == 0 {
        0
    } else {
        ends_in(read.drop_last()) + (if read.last() matches Ok(e) && e.kind is End { 1int } else { 0int })
    }
}

/// An event read while skipping that is no error and not the end of the document.
pub open spec fn is_inner_event(outcome: ReadOutcome) -> bool {
    outcome matches Ok(e) && !(e.kind is Eof)
}

/// Skipping an element goes as deep as the tags go: after events none of
/// which closed the skipped element, the skip is still going, as many
/// elements deep as one more than the start tags read minus the end tags
/// read, however deep that is.
pub proof fn law_skip_tracks_depth(read: Seq<ReadOutcome>)
    requires
        forall|i: int| 0 <= i < read.len() ==> is_inner_event(#[trigger] read[i]),
        forall|i: int| 0 <= i <= read.len() ==> ends_in(#[trigger] read.take(i)) <= starts_in(read.take(i)),
    ensures
        run(skip_machine(), 1int, read) == Step::<int, Result<(), Failure>>::Continue(1 + starts_in(read) - ends_in(read)),
    decreases read.len(),
{
    if read.len() > 0 {
        let prefix = read.drop_last();
        assert forall|i: int| 0 <= i < prefix.len() implies is_inner_event(#[trigger] prefix[i]) by {
            assert(prefix[i] == read[i]);
        }
        assert forall|i: int| 0 <= i <= prefix.len() implies ends_in(#[trigger] prefix.take(i)) <= starts_in(prefix.take(i)) by {
            assert(prefix.take(i) =~= read.take(i));
        }
        law_skip_tracks_depth(prefix);
        assert(read.take(read.len() as int) =~= read);
        assert(read.take(prefix.len() as int) =~= prefix);
        assert(is_inner_event(read[read.len() - 1]));
    }
}

/// Skipping an element reads exactly up to its own end tag: when the events
/// before an end tag hold as many end tags as start tags, and none of their
/// prefixes more, that end tag ends the skip, whatever the depth reached.
pub proof fn law_skip_stops_at_own_end(read: Seq<ReadOutcome>)
    requires
        read.len() > 0,
        forall|i: int| 0 <= i < read.len() ==> is_inner_event(#[trigger] read[i]),
        forall|i: int| 0 <= i < read.len() ==> ends_in(#[trigger] read.take(i)) <= starts_in(read.take(i)),
        ends_in(read.drop_last()) == starts_in(read.drop_last()),
        read.last() matches Ok(e) && e.kind is End,
    ensures
        run(skip_machine(), 1int, read) == Step::<int, Result<(), Failure>>::Stop(Ok(())),
        stops_with(skip_machine(), 1int, read, Ok::<(), Failure>(())),
{
    let prefix = read.drop_last();
    assert forall|i: int| 0 <= i < prefix.len() implies is_inner_event(#[trigger] prefix[i]) by {
        assert(prefix[i] == read[i]);
    }
    assert forall|i: int| 0 <= i <= prefix.len() implies ends_in(#[trigger] prefix.take(i)) <= starts_in(prefix.take(i)) by {
        assert(prefix.take(i) =~= read.take(i));
    }
    law_skip_tracks_depth(prefix);
    assert(read[read.len() - 1] == read.last());
}

} // verus!

//! Reading back what writing the core properties puts down.

use vstd::prelude::*;
use vstd::string::StringSliceAdditionalSpecFns;
use vstd::utf8::{
    decode_utf8, encode_utf8, encode_utf8_decode_utf8, encode_utf8_valid_utf8, is_ascii_chars, is_ascii_chars_encode_utf8,
    valid_utf8,
};
use quick_xml::events::attributes::AttrError;
use crate::core_properties::{
    CoreState, CorePropertiesView, assign_property, core_machine, core_properties_namespace, core_read, core_result,
    core_properties_xml, core_start, core_step, dc_namespace, dcterms_namespace, attribute_xml, element_xml, lemma_lift_text,
    namespace_declarations_xml, prefixed_root, properties_xml, root_attributes, root_local_name, root_name_xml, root_view,
};
use crate::elements::{
    is_end_of, is_text_piece, lemma_pieces_read, pieces_markup, pieces_text,
};
use crate::machine::{Failure, Step, lemma_run_append, lemma_run_push, run};
use crate::namespaces::{
    NamespaceEntries, bind_namespaces, binding_key, colon_index, element_namespace, has_key, insert_entry, key_position,
    keys_distinct, law_lookup_after_insert, local_name_of, lookup, namespace_binding_of, prefix_of, xmlns_bytes,
};
use crate::reader::{ReadOutcome, XmlAttribute, XmlEventKind};
use crate::text::{ampersand, escaped, escaped_char, law_escape_is_injective, unescaped_attribute_value};

verus! {

/// The number of core properties.
pub open spec fn property_count() -> int {
    15
}

/// The local name of the core property at place `k` in schema order, as bytes.
pub open spec fn property_local(k: int) -> Seq<u8> {
    if k == 0 {
        "category".spec_bytes()
    } else if k == 1 {
        "contentStatus".spec_bytes()
    } else if k == 2 {
        "created".spec_bytes()
    } else if k == 3 {
        "creator".spec_bytes()
    } else if k == 4 {
        "description".spec_bytes()
    } else if k == 5 {
        "identifier".spec_bytes()
    } else if k == 6 {
        "keywords".spec_bytes()
    } else if k == 7 {
        "language".spec_bytes()
    } else if k == 8 {
        "lastModifiedBy".spec_bytes()
    } else if k == 9 {
        "lastPrinted".spec_bytes()
    } else if k == 10 {
        "modified".spec_bytes()
    } else if k == 11 {
        "revision".spec_bytes()
    } else if k == 12 {
        "subject".spec_bytes()
    } else if k == 13 {
        "title".spec_bytes()
    } else {
        "version".spec_bytes()
    }
}

/// The namespace of the core property at place `k`.
pub open spec fn property_namespace(k: int) -> Seq<char> {
    if k == 2 || k == 10 {
        dcterms_namespace()
    } else if k == 3 || k == 4 || k == 5 || k == 7 || k == 12 || k == 13 {
        dc_namespace()
    } else {
        core_properties_namespace()
    }
}

/// The prefix that writing gives the core property at place `k`.
pub open spec fn property_prefix(k: int) -> Seq<char> {
    if k == 2 || k == 10 {
        "dcterms"@
    } else if k == 3 || k == 4 || k == 5 || k == 7 || k == 12 || k == 13 {
        "dc"@
    } else {
        "cp"@
    }
}

/// The value of the core property at place `k`.
pub open spec fn property_value(p: CorePropertiesView, k: int) -> Option<Seq<char>> {
    if k == 0 {
        p.category
    } else if k == 1 {
        p.content_status
    } else if k == 2 {
        p.created
    } else if k == 3 {
        p.creator
    } else if k == 4 {
        p.description
    } else if k == 5 {
        p.identifier
    } else if k == 6 {
        p.keywords
    } else if k == 7 {
        p.language
    } else if k == 8 {
        p.last_modified_by
    } else if k == 9 {
        p.last_printed
    } else if k == 10 {
        p.modified
    } else if k == 11 {
        p.revision
    } else if k == 12 {
        p.subject
    } else if k == 13 {
        p.title
    } else {
        p.version
    }
}

/// `p` with the core property at place `k` set to `v`.
pub open spec fn with_property(p: CorePropertiesView, k: int, v: Option<Seq<char>>) -> CorePropertiesView {
    if k == 0 {
        CorePropertiesView { category: v, ..p }
    } else if k == 1 {
        CorePropertiesView { content_status: v, ..p }
    } else if k == 2 {
        CorePropertiesView { created: v, ..p }
    } else if k == 3 {
        CorePropertiesView { creator: v, ..p }
    } else if k == 4 {
        CorePropertiesView { description: v, ..p }
    } else if k == 5 {
        CorePropertiesView { identifier: v, ..p }
    } else if k == 6 {
        CorePropertiesView { keywords: v, ..p }
    } else if k == 7 {
        CorePropertiesView { language: v, ..p }
    } else if k == 8 {
        CorePropertiesView { last_modified_by: v, ..p }
    } else if k == 9 {
        CorePropertiesView { last_printed: v, ..p }
    } else if k == 10 {
        CorePropertiesView { modified: v, ..p }
    } else if k == 11 {
        CorePropertiesView { revision: v, ..p }
    } else if k == 12 {
        CorePropertiesView { subject: v, ..p }
    } else if k == 13 {
        CorePropertiesView { title: v, ..p }
    } else {
        CorePropertiesView { version: v, ..p }
    }
}

/// The local names of the core properties are told apart by their bytes.
proof fn lemma_local_names_decode(k: int)
    requires
        0 <= k < property_count(),
    ensures
        decode_utf8(property_local(k)) == (if k == 0 {
            "category"@
        } else if k == 1 {
            "contentStatus"@
        } else if k == 2 {
            "created"@
        } else if k == 3 {
            "creator"@
        } else if k == 4 {
            "description"@
        } else if k == 5 {
            "identifier"@
        } else if k == 6 {
            "keywords"@
        } else if k == 7 {
            "language"@
        } else if k == 8 {
            "lastModifiedBy"@
        } else if k == 9 {
            "lastPrinted"@
        } else if k == 10 {
            "modified"@
        } else if k == 11 {
            "revision"@
        } else if k == 12 {
            "subject"@
        } else if k == 13 {
            "title"@
        } else {
            "version"@
        }),
{
    encode_utf8_decode_utf8("category"@);
    encode_utf8_decode_utf8("contentStatus"@);
    encode_utf8_decode_utf8("created"@);
    encode_utf8_decode_utf8("creator"@);
    encode_utf8_decode_utf8("description"@);
    encode_utf8_decode_utf8("identifier"@);
    encode_utf8_decode_utf8("keywords"@);
    encode_utf8_decode_utf8("language"@);
    encode_utf8_decode_utf8("lastModifiedBy"@);
    encode_utf8_decode_utf8("lastPrinted"@);
    encode_utf8_decode_utf8("modified"@);
    encode_utf8_decode_utf8("revision"@);
    encode_utf8_decode_utf8("subject"@);
    encode_utf8_decode_utf8("title"@);
    encode_utf8_decode_utf8("version"@);
}

/// Distinct places have distinct local names.
proof fn lemma_local_names_distinct(j: int, k: int)
    requires
        0 <= j < k < property_count(),
    ensures
        property_local(j) != property_local(k),
{
    lemma_local_names_decode(j);
    lemma_local_names_decode(k);
    reveal_strlit("category");
    reveal_strlit("contentStatus");
    reveal_strlit("created");
    reveal_strlit("creator");
    reveal_strlit("description");
    reveal_strlit("identifier");
    reveal_strlit("keywords");
    reveal_strlit("language");
    reveal_strlit("lastModifiedBy");
    reveal_strlit("lastPrinted");
    reveal_strlit("modified");
    reveal_strlit("revision");
    reveal_strlit("subject");
    reveal_strlit("title");
    reveal_strlit("version");
    if property_local(j) == property_local(k) {
        let a = decode_utf8(property_local(j));
        let b = decode_utf8(property_local(k));
        assert(a == b);
        assert(a.len() == b.len());
        assert(a[0] == b[0]);
        if a.len() == 7 {
            assert(a[5] == b[5]);
        }
    }
}

/// An element with the local name and namespace of the core property at
/// place `k` sets that property.
proof fn lemma_assign_slot(acc: CorePropertiesView, k: int, text: Option<Seq<char>>)
    requires
        0 <= k < property_count(),
    ensures
        assign_property(acc, property_local(k), property_namespace(k), text) == Some(with_property(acc, k, text)),
{
    assert forall|j: int| 0 <= j < k implies property_local(j) != property_local(k) by {
        lemma_local_names_distinct(j, k);
    }
    assert(k <= 0 || property_local(0) != property_local(k));
    assert(k <= 1 || property_local(1) != property_local(k));
    assert(k <= 2 || property_local(2) != property_local(k));
    assert(k <= 3 || property_local(3) != property_local(k));
    assert(k <= 4 || property_local(4) != property_local(k));
    assert(k <= 5 || property_local(5) != property_local(k));
    assert(k <= 6 || property_local(6) != property_local(k));
    assert(k <= 7 || property_local(7) != property_local(k));
    assert(k <= 8 || property_local(8) != property_local(k));
    assert(k <= 9 || property_local(9) != property_local(k));
    assert(k <= 10 || property_local(10) != property_local(k));
    assert(k <= 11 || property_local(11) != property_local(k));
    assert(k <= 12 || property_local(12) != property_local(k));
    assert(k <= 13 || property_local(13) != property_local(k));
}

/// The qualified name that writing gives the core property at place `k`
/// (such as `cp:category`), as bytes.
pub open spec fn property_name(k: int) -> Seq<u8> {
    encode_utf8(property_prefix(k)) + seq![58u8] + property_local(k)
}

/// In a name whose first part holds no `':'`, the first `':'` follows that part.
proof fn lemma_colon_after(first: Seq<u8>, rest: Seq<u8>)
    requires
        !first.contains(58u8),
    ensures
        colon_index(first + seq![58u8] + rest) == Some(first.len() as int),
    decreases first.len(),
{
    let name = first + seq![58u8] + rest;
    if first.len() == 0 {
        assert(name[0] == 58u8);
    } else {
        assert(name[0] == first[0]);
        assert(first.drop_first().len() < first.len());
        assert forall|i: int| 0 <= i < first.drop_first().len() implies first.drop_first()[i] != 58u8 by {
            assert(first.drop_first()[i] == first[i + 1]);
        }
        assert(name.subrange(1, name.len() as int) =~= first.drop_first() + seq![58u8] + rest);
        lemma_colon_after(first.drop_first(), rest);
    }
}

/// The prefixes that writing uses hold no `':'` and read back as themselves.
proof fn lemma_prefix_bytes(k: int)
    ensures
        !encode_utf8(property_prefix(k)).contains(58u8),
        decode_utf8(encode_utf8(property_prefix(k))) == property_prefix(k),
        valid_utf8(encode_utf8(property_prefix(k))),
{
    reveal_strlit("cp");
    reveal_strlit("dc");
    reveal_strlit("dcterms");
    let chars = property_prefix(k);
    assert(is_ascii_chars(chars));
    is_ascii_chars_encode_utf8(chars);
    encode_utf8_decode_utf8(chars);
    encode_utf8_valid_utf8(chars);
    let bytes = encode_utf8(chars);
    assert forall|i: int| 0 <= i < bytes.len() implies bytes[i] != 58u8 by {
        assert(chars[i] as u8 == bytes[i]);
    }
}

/// The element that writing puts down for the core property at place `k`
/// has that property's local name and, where its prefix is bound to the
/// property's namespace, that namespace.
proof fn lemma_property_name(k: int, entries: NamespaceEntries)
    requires
        0 <= k < property_count(),
        lookup(entries, property_prefix(k)) == Some(property_namespace(k)),
    ensures
        local_name_of(property_name(k)) == property_local(k),
        element_namespace(property_name(k), entries) == Ok::<Seq<char>, Failure>(property_namespace(k)),
{
    lemma_prefix_bytes(k);
    let first = encode_utf8(property_prefix(k));
    lemma_colon_after(first, property_local(k));
    let name = property_name(k);
    assert(name.subrange(first.len() as int + 1, name.len() as int) =~= property_local(k));
    assert(name.subrange(0, first.len() as int) =~= first);
    assert(prefix_of(name) == Some(first));
}

/// The events that the element written for the core property at place `k`
/// with value `value` is read as: its start tag, text pieces that stand in
/// the document for the escaped value, and its end tag.
pub open spec fn is_property_segment(segment: Seq<ReadOutcome>, k: int, value: Seq<char>) -> bool {
    &&& segment.len() >= 2
    &&& segment[0] matches Ok(event) && (event.kind matches XmlEventKind::Start(tag) && tag.name@ == property_name(k))
    &&& forall|i: int| 1 <= i < segment.len() - 1 ==> is_text_piece(#[trigger] segment[i])
    &&& pieces_markup(segment.subrange(1, segment.len() - 1)) == escaped(value)
    &&& is_end_of(segment.last(), property_name(k))
}

/// Reading the element written for one property, between the root's
/// children, sets that property.
proof fn lemma_read_property(acc: CorePropertiesView, k: int, value: Seq<char>, segment: Seq<ReadOutcome>)
    requires
        0 <= k < property_count(),
        value.len() > 0,
        lookup(acc.xmlns_map, property_prefix(k)) == Some(property_namespace(k)),
        is_property_segment(segment, k, value),
    ensures
        run(core_machine(), CoreState::Body(acc), segment)
            == Step::<CoreState, Result<CorePropertiesView, Failure>>::Continue(
            CoreState::Body(with_property(acc, k, Some(value))),
        ),
{
    let child = segment[0]->Ok_0.kind->Start_0;
    let name = child.name@;
    let pieces = segment.subrange(1, segment.len() - 1);
    let end = segment.last();
    assert forall|i: int| 0 <= i < pieces.len() implies is_text_piece(#[trigger] pieces[i]) by {
        assert(pieces[i] == segment[i + 1]);
    }
    lemma_pieces_read(name, pieces);
    law_escape_is_injective(pieces_text(pieces), value);
    if pieces.len() == 0 {
        assert(escaped(value).len() >= escaped_char(value.last()).len());
        assert(pieces_markup(pieces) =~= Seq::<char>::empty());
        assert(false);
    }
    let first = seq![segment[0]];
    let rest = pieces.push(end);
    assert(segment =~= first + rest);
    assert(first.drop_last() =~= Seq::<ReadOutcome>::empty());
    assert(first.last() == segment[0]);
    assert(run(core_machine(), CoreState::Body(acc), first.drop_last())
        == Step::<CoreState, Result<CorePropertiesView, Failure>>::Continue(CoreState::Body(acc)));
    assert(core_machine()(CoreState::Body(acc), segment[0])
        == Step::<CoreState, Result<CorePropertiesView, Failure>>::Continue(CoreState::InText(acc, child, None)));
    assert(run(core_machine(), CoreState::Body(acc), first)
        == Step::<CoreState, Result<CorePropertiesView, Failure>>::Continue(CoreState::InText(acc, child, None)));
    lemma_run_append(core_machine(), CoreState::Body(acc), first, rest);
    lemma_lift_text(acc, child, None, pieces);
    lemma_run_push(core_machine(), CoreState::InText(acc, child, None), pieces, end);
    lemma_property_name(k, acc.xmlns_map);
    lemma_assign_slot(acc, k, Some(value));
}

/// The segments one after another.
pub open spec fn joined(segments: Seq<Seq<ReadOutcome>>) -> Seq<ReadOutcome>
    decreases segments.len(),
{
    if segments.len() == 0 {
        Seq::<ReadOutcome>::empty()
    } else {
        joined(segments.drop_last()) + segments.last()
    }
}

/// The events written for the core property at place `k` of `p`: none when
/// it has no value, its element otherwise.
pub open spec fn is_written_segment(segment: Seq<ReadOutcome>, p: CorePropertiesView, k: int) -> bool {
    match property_value(p, k) {
        None => segment.len() == 0,
        Some(v) => is_property_segment(segment, k, v),
    }
}

/// `outcome` is the end tag of the root element.
pub open spec fn is_root_end(outcome: ReadOutcome) -> bool {
    outcome matches Ok(event) && (event.kind matches XmlEventKind::End(name) && local_name_of(name@) == root_local_name())
}

/// `acc` with the properties of `p` at the places before `k` that have a value.
pub open spec fn with_values_before(acc: CorePropertiesView, p: CorePropertiesView, k: int) -> CorePropertiesView
    decreases k,
{
    if k <= 0 {
        acc
    } else {
        let before = with_values_before(acc, p, k - 1);
        match property_value(p, k - 1) {
            Some(v) => with_property(before, k - 1, Some(v)),
            None => before,
        }
    }
}

/// What a written property needs to be read back: a value that is not
/// empty, and its prefix bound to its namespace.
pub open spec fn readable_property(p: CorePropertiesView, k: int) -> bool {
    property_value(p, k) matches Some(v) ==> v.len() > 0 && lookup(p.xmlns_map, property_prefix(k)) == Some(property_namespace(k))
}

proof fn lemma_read_segments(p: CorePropertiesView, segments: Seq<Seq<ReadOutcome>>, k: int)
    requires
        0 <= k <= segments.len() == property_count(),
        forall|j: int| 0 <= j < property_count() ==> is_written_segment(#[trigger] segments[j], p, j),
        forall|j: int| 0 <= j < property_count() ==> #[trigger] readable_property(p, j),
    ensures
        run(core_machine(), CoreState::Body(root_view(p.xmlns, p.xmlns_map, p.mc_ignorable)), joined(segments.take(k)))
            == Step::<CoreState, Result<CorePropertiesView, Failure>>::Continue(
            CoreState::Body(with_values_before(root_view(p.xmlns, p.xmlns_map, p.mc_ignorable), p, k)),
        ),
        with_values_before(root_view(p.xmlns, p.xmlns_map, p.mc_ignorable), p, k).xmlns_map == p.xmlns_map,
    decreases k,
{
    let acc0 = root_view(p.xmlns, p.xmlns_map, p.mc_ignorable);
    if k == 0 {
        assert(segments.take(0) =~= Seq::<Seq<ReadOutcome>>::empty());
    } else {
        lemma_read_segments(p, segments, k - 1);
        let before = with_values_before(acc0, p, k - 1);
        assert(segments.take(k).drop_last() =~= segments.take(k - 1));
        assert(segments.take(k).last() == segments[k - 1]);
        let segment = segments[k - 1];
        lemma_run_append(core_machine(), CoreState::Body(acc0), joined(segments.take(k - 1)), segment);
        assert(is_written_segment(segments[k - 1], p, k - 1));
        assert(readable_property(p, k - 1));
        match property_value(p, k - 1) {
            Some(v) => {
                lemma_read_property(before, k - 1, v, segment);
            },
            None => {
                assert(joined(segments.take(k)) =~= joined(segments.take(k - 1)));
            },
        }
    }
}

/// Setting one property leaves the others as they were.
proof fn lemma_with_property_value(acc: CorePropertiesView, i: int, v: Option<Seq<char>>, j: int)
    requires
        0 <= i < property_count(),
        0 <= j < property_count(),
    ensures
        property_value(with_property(acc, i, v), j) == (if j == i { v } else { property_value(acc, j) }),
        with_property(acc, i, v).xmlns == acc.xmlns,
        with_property(acc, i, v).xmlns_map == acc.xmlns_map,
        with_property(acc, i, v).mc_ignorable == acc.mc_ignorable,
{
}

/// The properties set before place `k` are those of `p`; the others have no value.
proof fn lemma_values_before(p: CorePropertiesView, k: int)
    requires
        0 <= k <= property_count(),
    ensures
        forall|j: int| 0 <= j < property_count() ==> #[trigger] property_value(
            with_values_before(root_view(p.xmlns, p.xmlns_map, p.mc_ignorable), p, k), j)
            == (if j < k { property_value(p, j) } else { None }),
        with_values_before(root_view(p.xmlns, p.xmlns_map, p.mc_ignorable), p, k).xmlns == p.xmlns,
        with_values_before(root_view(p.xmlns, p.xmlns_map, p.mc_ignorable), p, k).xmlns_map == p.xmlns_map,
        with_values_before(root_view(p.xmlns, p.xmlns_map, p.mc_ignorable), p, k).mc_ignorable == p.mc_ignorable,
    decreases k,
{
    let acc0 = root_view(p.xmlns, p.xmlns_map, p.mc_ignorable);
    if k > 0 {
        lemma_values_before(p, k - 1);
        let before = with_values_before(acc0, p, k - 1);
        match property_value(p, k - 1) {
            Some(v) => {
                assert forall|j: int| 0 <= j < property_count() implies #[trigger] property_value(
                    with_values_before(acc0, p, k), j) == (if j < k { property_value(p, j) } else { None }) by {
                    lemma_with_property_value(before, k - 1, Some(v), j);
                }
                lemma_with_property_value(before, k - 1, Some(v), 0);
            },
            None => {},
        }
    }
}

/// Once every place is passed, the properties are those of `p`.
proof fn lemma_all_values(p: CorePropertiesView)
    ensures
        with_values_before(root_view(p.xmlns, p.xmlns_map, p.mc_ignorable), p, property_count()) == p,
{
    lemma_values_before(p, property_count());
    let w = with_values_before(root_view(p.xmlns, p.xmlns_map, p.mc_ignorable), p, property_count());
    assert(property_value(w, 0) == property_value(p, 0));
    assert(property_value(w, 1) == property_value(p, 1));
    assert(property_value(w, 2) == property_value(p, 2));
    assert(property_value(w, 3) == property_value(p, 3));
    assert(property_value(w, 4) == property_value(p, 4));
    assert(property_value(w, 5) == property_value(p, 5));
    assert(property_value(w, 6) == property_value(p, 6));
    assert(property_value(w, 7) == property_value(p, 7));
    assert(property_value(w, 8) == property_value(p, 8));
    assert(property_value(w, 9) == property_value(p, 9));
    assert(property_value(w, 10) == property_value(p, 10));
    assert(property_value(w, 11) == property_value(p, 11));
    assert(property_value(w, 12) == property_value(p, 12));
    assert(property_value(w, 13) == property_value(p, 13));
    assert(property_value(w, 14) == property_value(p, 14));
}

/// Reading back the properties that writing puts down. After the root start
/// tag, in the state that holds its attributes and prefix map, the events
/// are: for each property with a value, in schema order, its element (start
/// tag, text pieces that stand for the escaped value, end tag); then the
/// root's end tag. The properties read are then the ones written, provided
/// that each written value is not empty (an empty element reads as no value)
/// and that the prefix of each written element is bound to its namespace.
pub proof fn law_written_properties_read_back(
    p: CorePropertiesView,
    segments: Seq<Seq<ReadOutcome>>,
    root_end: ReadOutcome,
)
    requires
        segments.len() == property_count(),
        forall|k: int| 0 <= k < property_count() ==> is_written_segment(#[trigger] segments[k], p, k),
        forall|k: int| 0 <= k < property_count() ==> #[trigger] readable_property(p, k),
        is_root_end(root_end),
    ensures
        run(core_machine(), CoreState::Body(root_view(p.xmlns, p.xmlns_map, p.mc_ignorable)), joined(segments).push(root_end))
            == Step::<CoreState, Result<CorePropertiesView, Failure>>::Stop(Ok(p)),
{
    let acc0 = root_view(p.xmlns, p.xmlns_map, p.mc_ignorable);
    lemma_read_segments(p, segments, property_count());
    assert(segments.take(property_count()) =~= segments);
    lemma_all_values(p);
    lemma_run_push(core_machine(), CoreState::Body(acc0), joined(segments), root_end);
}

/// `key="value"` when there is a value, as the key's bytes and the value.
pub open spec fn optional_attribute(key: Seq<u8>, value: Option<Seq<char>>) -> Seq<(Seq<u8>, Seq<char>)> {
    match value {
        Some(v) => seq![(key, v)],
        None => Seq::<(Seq<u8>, Seq<char>)>::empty(),
    }
}

/// The key of the declaration of a prefix, `xmlns:prefix`, as bytes.
pub open spec fn declaration_key(prefix: Seq<char>) -> Seq<u8> {
    xmlns_bytes() + seq![58u8] + encode_utf8(prefix)
}

/// The declarations of the bound prefixes, in order.
pub open spec fn declarations(entries: NamespaceEntries) -> Seq<(Seq<u8>, Seq<char>)> {
    entries.map_values(|e: (Seq<char>, Seq<char>)| (declaration_key(e.0), e.1))
}

/// The attributes that writing puts on the root element, in order: `xmlns`
/// for a default namespace, a declaration for each bound prefix, and
/// `mc:Ignorable` for its value; each as its key's bytes and its value.
pub open spec fn written_root_attributes(p: CorePropertiesView) -> Seq<(Seq<u8>, Seq<char>)> {
    optional_attribute("xmlns".spec_bytes(), p.xmlns) + declarations(p.xmlns_map)
        + optional_attribute("mc:Ignorable".spec_bytes(), p.mc_ignorable)
}

/// `attributes` are the `written` ones as the reader yields them: each read
/// without error, with the written key and the bytes of the written value.
pub open spec fn reads_as_written(
    attributes: Seq<Result<XmlAttribute, AttrError>>,
    written: Seq<(Seq<u8>, Seq<char>)>,
) -> bool {
    &&& attributes.len() == written.len()
    &&& forall|i: int| 0 <= i < attributes.len() ==> (#[trigger] attributes[i] matches Ok(a)
        && a.key@ == written[i].0 && a.value@ == encode_utf8(written[i].1))
}

/// The text of an attribute value holds no `&`, so that it reads back as written.
pub open spec fn plain_value(value: Seq<char>) -> bool {
    !encode_utf8(value).contains(ampersand())
}

/// A value without `&` reads back as itself.
proof fn lemma_plain_value(value: Seq<char>)
    requires
        plain_value(value),
    ensures
        unescaped_attribute_value(encode_utf8(value)) == Some(value),
{
    encode_utf8_valid_utf8(value);
    encode_utf8_decode_utf8(value);
}

/// The bytes of the attribute keys that the root's reading looks at.
proof fn lemma_key_bytes()
    ensures
        "xmlns".spec_bytes() == xmlns_bytes(),
        "mc:Ignorable".spec_bytes().len() == 12,
        "mc:Ignorable".spec_bytes()[0] == 109u8,
{
    reveal_strlit("xmlns");
    reveal_strlit("mc:Ignorable");
    is_ascii_chars_encode_utf8("xmlns"@);
    is_ascii_chars_encode_utf8("mc:Ignorable"@);
    assert("xmlns".spec_bytes() =~= xmlns_bytes());
}

/// How the root's reading sees each written attribute key.
proof fn lemma_declaration_key(prefix: Seq<char>)
    ensures
        declaration_key(prefix) != "xmlns".spec_bytes(),
        declaration_key(prefix) != "mc:Ignorable".spec_bytes(),
        namespace_binding_of(declaration_key(prefix)) == Some(Some(encode_utf8(prefix))),
        binding_key(Some(encode_utf8(prefix))) == prefix,
        namespace_binding_of("xmlns".spec_bytes()) == Some(None::<Seq<u8>>),
        namespace_binding_of("mc:Ignorable".spec_bytes()) is None,
{
    lemma_key_bytes();
    let key = declaration_key(prefix);
    assert(key.len() >= 6);
    assert(key[0] == 120u8);
    assert(key.subrange(0, 5) =~= xmlns_bytes());
    assert(key[5] == 58u8);
    assert(key.subrange(6, key.len() as int) =~= encode_utf8(prefix));
    encode_utf8_valid_utf8(prefix);
    encode_utf8_decode_utf8(prefix);
    assert(xmlns_bytes().subrange(0, 5) =~= xmlns_bytes());
    let mc = "mc:Ignorable".spec_bytes();
    assert(mc.subrange(0, 5)[0] == 109u8);
}

/// The root attributes read from the first `i` written attributes.
proof fn lemma_root_attributes_prefix(p: CorePropertiesView, attributes: Seq<Result<XmlAttribute, AttrError>>, i: int)
    requires
        reads_as_written(attributes, written_root_attributes(p)),
        0 <= i <= attributes.len(),
        p.xmlns matches Some(x) ==> plain_value(x),
        p.mc_ignorable matches Some(m) ==> plain_value(m),
    ensures
        root_attributes(attributes.take(i)) == Ok::<(Option<Seq<char>>, Option<Seq<char>>), Failure>((
            if i >= optional_attribute("xmlns".spec_bytes(), p.xmlns).len() { p.xmlns } else { None },
            if i >= written_root_attributes(p).len() { p.mc_ignorable } else { None },
        )),
    decreases i,
{
    let written = written_root_attributes(p);
    let n0 = optional_attribute("xmlns".spec_bytes(), p.xmlns).len() as int;
    let n1 = p.xmlns_map.len() as int;
    assert(declarations(p.xmlns_map).len() == n1);
    if i == 0 {
        assert(attributes.take(0) =~= Seq::<Result<XmlAttribute, AttrError>>::empty());
    } else {
        lemma_root_attributes_prefix(p, attributes, i - 1);
        assert(attributes.take(i).drop_last() =~= attributes.take(i - 1));
        assert(attributes.take(i).last() == attributes[i - 1]);
        let a = attributes[i - 1]->Ok_0;
        assert(a.key@ == written[i - 1].0 && a.value@ == encode_utf8(written[i - 1].1));
        lemma_key_bytes();
        if i - 1 < n0 {
            let x = p.xmlns->0;
            assert(written[i - 1] == ("xmlns".spec_bytes(), x));
            lemma_plain_value(x);
        } else if i - 1 < n0 + n1 {
            let j = i - 1 - n0;
            assert(written[i - 1] == declarations(p.xmlns_map)[j]);
            lemma_declaration_key(p.xmlns_map[j].0);
        } else {
            let m = p.mc_ignorable->0;
            assert(written[i - 1] == ("mc:Ignorable".spec_bytes(), m));
            lemma_plain_value(m);
        }
    }
}

/// The binding of the default namespace, when there is one.
pub open spec fn default_binding(xmlns: Option<Seq<char>>) -> NamespaceEntries {
    match xmlns {
        Some(x) => seq![(Seq::<char>::empty(), x)],
        None => NamespaceEntries::empty(),
    }
}

/// The prefix map after binding each of `entries` in turn, from `start`.
pub open spec fn bound_in_turn(start: NamespaceEntries, entries: NamespaceEntries) -> NamespaceEntries
    decreases entries.len(),
{
    if entries.len() == 0 {
        start
    } else {
        insert_entry(bound_in_turn(start, entries.drop_last()), entries.last().0, entries.last().1)
    }
}

/// The namespace declarations bound from the first `i` written root attributes.
proof fn lemma_bind_prefix(p: CorePropertiesView, attributes: Seq<Result<XmlAttribute, AttrError>>, i: int)
    requires
        reads_as_written(attributes, written_root_attributes(p)),
        0 <= i <= attributes.len(),
        p.xmlns matches Some(x) ==> plain_value(x),
        forall|j: int| 0 <= j < p.xmlns_map.len() ==> plain_value(#[trigger] p.xmlns_map[j].1),
    ensures
        bind_namespaces(NamespaceEntries::empty(), attributes.take(i)) == (
            if i < optional_attribute("xmlns".spec_bytes(), p.xmlns).len() {
                NamespaceEntries::empty()
            } else if i <= optional_attribute("xmlns".spec_bytes(), p.xmlns).len() + p.xmlns_map.len() {
                bound_in_turn(default_binding(p.xmlns),
                    p.xmlns_map.take(i - optional_attribute("xmlns".spec_bytes(), p.xmlns).len()))
            } else {
                bound_in_turn(default_binding(p.xmlns), p.xmlns_map)
            },
            None::<Failure>,
        ),
    decreases i,
{
    let written = written_root_attributes(p);
    let n0 = optional_attribute("xmlns".spec_bytes(), p.xmlns).len() as int;
    let n1 = p.xmlns_map.len() as int;
    assert(declarations(p.xmlns_map).len() == n1);
    if i == 0 {
        assert(attributes.take(0) =~= Seq::<Result<XmlAttribute, AttrError>>::empty());
        assert(p.xmlns is None ==> p.xmlns_map.take(0) =~= NamespaceEntries::empty());
    } else {
        lemma_bind_prefix(p, attributes, i - 1);
        assert(attributes.take(i).drop_last() =~= attributes.take(i - 1));
        assert(attributes.take(i).last() == attributes[i - 1]);
        let a = attributes[i - 1]->Ok_0;
        assert(a.key@ == written[i - 1].0 && a.value@ == encode_utf8(written[i - 1].1));
        lemma_key_bytes();
        lemma_declaration_key(Seq::<char>::empty());
        if i - 1 < n0 {
            let x = p.xmlns->0;
            assert(written[i - 1] == ("xmlns".spec_bytes(), x));
            lemma_plain_value(x);
            assert(!has_key(NamespaceEntries::empty(), Seq::<char>::empty()));
            assert(NamespaceEntries::empty().push((Seq::<char>::empty(), x)) =~= default_binding(p.xmlns));
            assert(p.xmlns_map.take(0) =~= NamespaceEntries::empty());
        } else if i - 1 < n0 + n1 {
            let j = i - 1 - n0;
            assert(written[i - 1] == declarations(p.xmlns_map)[j]);
            lemma_declaration_key(p.xmlns_map[j].0);
            assert(plain_value(p.xmlns_map[j].1));
            lemma_plain_value(p.xmlns_map[j].1);
            assert(p.xmlns_map.take(j + 1).drop_last() =~= p.xmlns_map.take(j));
            assert(p.xmlns_map.take(j + 1).last() == p.xmlns_map[j]);
            if p.xmlns is None && j == 0 {
                assert(p.xmlns_map.take(0) =~= NamespaceEntries::empty());
            }
        } else {
            assert(written[i - 1] == ("mc:Ignorable".spec_bytes(), p.mc_ignorable->0));
            assert(p.xmlns_map.take(n1) =~= p.xmlns_map);
        }
    }
}

/// Binding the written declarations in turn rebuilds the prefix map, when a
/// default namespace comes first in the map.
proof fn lemma_bound_in_turn(xmlns: Option<Seq<char>>, entries: NamespaceEntries, j: int)
    requires
        keys_distinct(entries),
        xmlns matches Some(x) ==> entries.len() > 0 && entries[0] == (Seq::<char>::empty(), x),
        0 <= j <= entries.len(),
    ensures
        bound_in_turn(default_binding(xmlns), entries.take(j))
            == (if j == 0 { default_binding(xmlns) } else { entries.take(j) }),
    decreases j,
{
    if j > 0 {
        lemma_bound_in_turn(xmlns, entries, j - 1);
        let before = entries.take(j - 1);
        assert(entries.take(j).drop_last() =~= before);
        assert(entries.take(j).last() == entries[j - 1]);
        let key = entries[j - 1].0;
        if j == 1 && xmlns is Some {
            let start = default_binding(xmlns);
            assert(start[0].0 == key);
            assert(has_key(start, key));
            assert(key_position(start, key) == 0);
            assert(start.update(0, (key, entries[0].1)) =~= entries.take(1));
        } else {
            let prev = if j == 1 { default_binding(xmlns) } else { before };
            assert(prev =~= before);
            if has_key(before, key) {
                let q = choose|q: int| 0 <= q < before.len() && before[q].0 == key;
                assert(entries[q].0 == entries[j - 1].0);
                assert(false);
            }
            assert(before.push(entries[j - 1]) =~= entries.take(j));
        }
    }
}

/// The name that writing gives the root element, as bytes:
/// `cp:coreProperties` when prefixed, `coreProperties` otherwise.
pub open spec fn root_name(prefixed: bool) -> Seq<u8> {
    if prefixed {
        encode_utf8("cp"@) + seq![58u8] + root_local_name()
    } else {
        root_local_name()
    }
}

/// A name without `':'` has no prefix.
proof fn lemma_no_colon(name: Seq<u8>)
    requires
        !name.contains(58u8),
    ensures
        colon_index(name) is None,
    decreases name.len(),
{
    if name.len() > 0 {
        assert(name[0] != 58u8);
        let rest = name.subrange(1, name.len() as int);
        assert forall|i: int| 0 <= i < rest.len() implies rest[i] != 58u8 by {
            assert(rest[i] == name[i + 1]);
        }
        lemma_no_colon(rest);
    }
}

/// Either name of the root has the root's local name.
proof fn lemma_root_name(prefixed: bool)
    ensures
        local_name_of(root_name(prefixed)) == root_local_name(),
{
    reveal_strlit("coreProperties");
    is_ascii_chars_encode_utf8("coreProperties"@);
    let local = root_local_name();
    assert forall|i: int| 0 <= i < local.len() implies local[i] != 58u8 by {
        assert("coreProperties"@[i] as u8 == local[i]);
    }
    if prefixed {
        lemma_prefix_bytes(0);
        let first = encode_utf8("cp"@);
        lemma_colon_after(first, local);
        let name = root_name(prefixed);
        assert(name.subrange(first.len() as int + 1, name.len() as int) =~= local);
    } else {
        lemma_no_colon(local);
    }
}

/// An event that the search for the root start tag passes over: no tag, no
/// end of the document, no error.
pub open spec fn is_passed_over(outcome: ReadOutcome) -> bool {
    outcome matches Ok(event) && !(event.kind is Start || event.kind is Empty || event.kind is Eof)
}

/// The root start tag as writing puts it down, as the reader yields it: a
/// start tag with the root's written name, whose attributes (with and
/// without the check for repeated names) are the written ones.
pub open spec fn is_written_root_start(outcome: ReadOutcome, p: CorePropertiesView) -> bool {
    outcome matches Ok(event) && (event.kind matches XmlEventKind::Start(tag) && {
        &&& tag.name@ == root_name(prefixed_root(p))
        &&& reads_as_written(tag.attributes@, written_root_attributes(p))
        &&& reads_as_written(tag.checked_attributes@, written_root_attributes(p))
    })
}

/// What the root element needs to be read back: the prefix map has no
/// prefix twice, and no attribute value holds `&`.
pub open spec fn readable_root(p: CorePropertiesView) -> bool {
    &&& keys_distinct(p.xmlns_map)
    &&& p.xmlns matches Some(x) ==> plain_value(x)
    &&& p.mc_ignorable matches Some(m) ==> plain_value(m)
    &&& forall|j: int| 0 <= j < p.xmlns_map.len() ==> plain_value(#[trigger] p.xmlns_map[j].1)
}

/// The prefix map that reading the written root gives: the default
/// namespace, when there is one, bound first (`xmlns` is written first),
/// then each written declaration in turn.
pub open spec fn read_back_map(p: CorePropertiesView) -> NamespaceEntries {
    bound_in_turn(default_binding(p.xmlns), p.xmlns_map)
}

/// The properties that reading the written part gives: those written, with
/// the prefix map that reading the root gives.
pub open spec fn read_back_view(p: CorePropertiesView) -> CorePropertiesView {
    CorePropertiesView { xmlns_map: read_back_map(p), ..p }
}

/// Binding the default namespace first changes no other prefix's binding.
proof fn lemma_lookup_read_back(xmlns: Option<Seq<char>>, entries: NamespaceEntries, key: Seq<char>, j: int)
    requires
        keys_distinct(entries),
        key.len() > 0,
        0 <= j <= entries.len(),
    ensures
        keys_distinct(bound_in_turn(default_binding(xmlns), entries.take(j))),
        lookup(bound_in_turn(default_binding(xmlns), entries.take(j)), key) == lookup(entries.take(j), key),
    decreases j,
{
    if j == 0 {
        assert(entries.take(0) =~= NamespaceEntries::empty());
        let d = default_binding(xmlns);
        if has_key(d, key) {
            let q = choose|q: int| 0 <= q < d.len() && d[q].0 == key;
            assert(d[q].0 == Seq::<char>::empty());
        }
        if has_key(entries.take(0), key) {
            let q = choose|q: int| 0 <= q < entries.take(0).len() && entries.take(0)[q].0 == key;
        }
    } else {
        lemma_lookup_read_back(xmlns, entries, key, j - 1);
        let before = entries.take(j - 1);
        let bound = bound_in_turn(default_binding(xmlns), before);
        assert(entries.take(j).drop_last() =~= before);
        assert(entries.take(j).last() == entries[j - 1]);
        let (k, v) = entries[j - 1];
        law_lookup_after_insert(bound, k, v, key);
        assert(keys_distinct(before)) by {
            assert forall|a: int, b: int| 0 <= a < b < before.len() implies before[a].0 != before[b].0 by {
                assert(before[a] == entries[a] && before[b] == entries[b]);
            }
        }
        assert(!has_key(before, k)) by {
            if has_key(before, k) {
                let q = choose|q: int| 0 <= q < before.len() && before[q].0 == k;
                assert(entries[q].0 == entries[j - 1].0);
            }
        }
        law_lookup_after_insert(before, k, v, key);
        assert(insert_entry(before, k, v) =~= entries.take(j));
    }
}

/// The prefix map that reading the written root gives: the written map when
/// there is no default namespace or when the map already starts with it;
/// otherwise, when the map binds no empty prefix, the default namespace
/// first and then the written map.
pub proof fn law_read_back_map(p: CorePropertiesView)
    requires
        keys_distinct(p.xmlns_map),
    ensures
        p.xmlns is None ==> read_back_map(p) == p.xmlns_map,
        p.xmlns matches Some(x) && p.xmlns_map.len() > 0 && p.xmlns_map[0] == (Seq::<char>::empty(), x)
            ==> read_back_map(p) == p.xmlns_map,
        p.xmlns is Some && !has_key(p.xmlns_map, Seq::<char>::empty())
            ==> read_back_map(p) == seq![(Seq::<char>::empty(), p.xmlns->0)] + p.xmlns_map,
        forall|key: Seq<char>| key.len() > 0 ==> #[trigger] lookup(read_back_map(p), key) == lookup(p.xmlns_map, key),
{
    let m = p.xmlns_map.len() as int;
    assert(p.xmlns_map.take(m) =~= p.xmlns_map);
    assert forall|key: Seq<char>| key.len() > 0 implies #[trigger] lookup(read_back_map(p), key) == lookup(p.xmlns_map, key) by {
        lemma_lookup_read_back(p.xmlns, p.xmlns_map, key, m);
    }
    if p.xmlns is None || (p.xmlns matches Some(x) && p.xmlns_map.len() > 0 && p.xmlns_map[0] == (Seq::<char>::empty(), x)) {
        lemma_bound_in_turn(p.xmlns, p.xmlns_map, m);
        if p.xmlns is None && m == 0 {
            assert(default_binding(p.xmlns) =~= p.xmlns_map);
        }
    }
    if p.xmlns is Some && !has_key(p.xmlns_map, Seq::<char>::empty()) {
        lemma_default_first(p.xmlns->0, p.xmlns_map, m);
    }
}

/// Without an empty prefix in the map, the default namespace stays first and
/// the declarations follow it.
proof fn lemma_default_first(x: Seq<char>, entries: NamespaceEntries, j: int)
    requires
        keys_distinct(entries),
        !has_key(entries, Seq::<char>::empty()),
        0 <= j <= entries.len(),
    ensures
        bound_in_turn(default_binding(Some(x)), entries.take(j)) == seq![(Seq::<char>::empty(), x)] + entries.take(j),
    decreases j,
{
    if j == 0 {
        assert(entries.take(0) =~= NamespaceEntries::empty());
        assert(seq![(Seq::<char>::empty(), x)] + entries.take(0) =~= default_binding(Some(x)));
    } else {
        lemma_default_first(x, entries, j - 1);
        let before = seq![(Seq::<char>::empty(), x)] + entries.take(j - 1);
        assert(entries.take(j).drop_last() =~= entries.take(j - 1));
        assert(entries.take(j).last() == entries[j - 1]);
        let k = entries[j - 1].0;
        assert(k != Seq::<char>::empty()) by {
            if k == Seq::<char>::empty() {
                assert(has_key(entries, Seq::<char>::empty()));
            }
        }
        assert(!has_key(before, k)) by {
            if has_key(before, k) {
                let q = choose|q: int| 0 <= q < before.len() && before[q].0 == k;
                if q > 0 {
                    assert(before[q] == entries[q - 1]);
                }
            }
        }
        assert(before.push(entries[j - 1]) =~= seq![(Seq::<char>::empty(), x)] + entries.take(j));
    }
}

/// Over events that it passes over, the search for the root start tag goes on.
proof fn lemma_passed_over(entries: NamespaceEntries, before: Seq<ReadOutcome>)
    requires
        forall|i: int| 0 <= i < before.len() ==> is_passed_over(#[trigger] before[i]),
    ensures
        run(core_machine(), CoreState::Seek(entries), before)
            == Step::<CoreState, Result<CorePropertiesView, Failure>>::Continue(CoreState::Seek(entries)),
    decreases before.len(),
{
    if before.len() > 0 {
        let rest = before.drop_last();
        assert forall|i: int| 0 <= i < rest.len() implies is_passed_over(#[trigger] rest[i]) by {
            assert(rest[i] == before[i]);
        }
        lemma_passed_over(entries, rest);
        assert(is_passed_over(before[before.len() - 1]));
    }
}

/// The written root start tag opens the properties with the written root
/// attributes and prefix map.
proof fn lemma_root_start(p: CorePropertiesView, root_start: ReadOutcome)
    requires
        readable_root(p),
        is_written_root_start(root_start, p),
    ensures
        core_machine()(CoreState::Seek(NamespaceEntries::empty()), root_start)
            == Step::<CoreState, Result<CorePropertiesView, Failure>>::Continue(
            CoreState::Body(root_view(p.xmlns, read_back_map(p), p.mc_ignorable)),
        ),
{
    let tag = root_start->Ok_0.kind->Start_0;
    lemma_root_name(prefixed_root(p));
    let n = tag.attributes@.len() as int;
    lemma_bind_prefix(p, tag.attributes@, n);
    assert(tag.attributes@.take(n) =~= tag.attributes@);
    let m = p.xmlns_map.len() as int;
    assert(p.xmlns_map.take(m) =~= p.xmlns_map);
    assert(declarations(p.xmlns_map).len() == m);
    let c = tag.checked_attributes@.len() as int;
    lemma_root_attributes_prefix(p, tag.checked_attributes@, c);
    assert(tag.checked_attributes@.take(c) =~= tag.checked_attributes@);
}

/// What the reader answers for a written document: events passed over, the
/// root start tag, the elements of the properties, the root's end tag.
pub open spec fn document_read(
    before: Seq<ReadOutcome>,
    root_start: ReadOutcome,
    segments: Seq<Seq<ReadOutcome>>,
    root_end: ReadOutcome,
) -> Seq<ReadOutcome> {
    before.push(root_start) + joined(segments).push(root_end)
}

/// Reading back the document that writing puts down. When the reader
/// answers, in turn: events that the search for the root passes over (the
/// XML declaration, the line break after it), the root start tag with the
/// written name and attributes, the element of each property that has a
/// value (in schema order: start tag, text pieces that stand for the escaped
/// value, end tag), and the root's end tag, then the reading stops exactly
/// at that end tag with the properties that were written, and the prefix
/// map that reading the root gives (`read_back_map`: the default namespace
/// bound first). This holds when each written value is not empty (an empty
/// element reads as no value), the prefix of each written element is bound
/// to its namespace, the prefix map has no prefix twice, and no attribute
/// value holds `&` (they are written as they are and unescaped when read).
pub proof fn law_written_document_reads_back(
    p: CorePropertiesView,
    before: Seq<ReadOutcome>,
    root_start: ReadOutcome,
    segments: Seq<Seq<ReadOutcome>>,
    root_end: ReadOutcome,
)
    requires
        readable_root(p),
        forall|k: int| 0 <= k < property_count() ==> #[trigger] readable_property(p, k),
        forall|i: int| 0 <= i < before.len() ==> is_passed_over(#[trigger] before[i]),
        is_written_root_start(root_start, p),
        segments.len() == property_count(),
        forall|k: int| 0 <= k < property_count() ==> is_written_segment(#[trigger] segments[k], p, k),
        is_root_end(root_end),
    ensures
        core_read(core_start(None, NamespaceEntries::empty()), document_read(before, root_start, segments, root_end)),
        core_result(core_start(None, NamespaceEntries::empty()), document_read(before, root_start, segments, root_end))
            == Ok::<CorePropertiesView, Failure>(read_back_view(p)),
{
    let q = read_back_view(p);
    law_read_back_map(p);
    reveal_strlit("cp");
    reveal_strlit("dc");
    reveal_strlit("dcterms");
    assert forall|k: int| 0 <= k < property_count() implies #[trigger] readable_property(q, k) by {
        assert(readable_property(p, k));
        assert(property_prefix(k).len() > 0);
        assert(lookup(read_back_map(p), property_prefix(k)) == lookup(p.xmlns_map, property_prefix(k)));
    }
    assert forall|k: int| 0 <= k < property_count() implies is_written_segment(#[trigger] segments[k], q, k) by {
        assert(is_written_segment(segments[k], p, k));
        assert(property_value(q, k) == property_value(p, k));
    }
    let start = CoreState::Seek(NamespaceEntries::empty());
    let acc0 = root_view(q.xmlns, q.xmlns_map, q.mc_ignorable);
    let head = before.push(root_start);
    let body = joined(segments);
    let read = document_read(before, root_start, segments, root_end);
    lemma_passed_over(NamespaceEntries::empty(), before);
    lemma_run_push(core_machine(), start, before, root_start);
    lemma_root_start(p, root_start);
    lemma_read_segments(q, segments, property_count());
    assert(segments.take(property_count()) =~= segments);
    lemma_all_values(q);
    law_written_properties_read_back(q, segments, root_end);
    lemma_run_append(core_machine(), start, head, body.push(root_end));
    assert(read.drop_last() =~= head + body);
    lemma_run_append(core_machine(), start, head, body);
}

/// The qualified name of the core property at place `k` (such as
/// `cp:category`), as text.
pub open spec fn property_qualified_name(k: int) -> Seq<char> {
    property_prefix(k) + seq![':'] + decode_utf8(property_local(k))
}

/// The start tag that writing puts down for the core property at place `k`.
pub open spec fn property_open_tag(k: int) -> Seq<char> {
    "<"@ + property_qualified_name(k) + (if k == 2 || k == 10 {
        " xsi:type=\"dcterms:W3CDTF\""@
    } else {
        Seq::<char>::empty()
    }) + ">"@
}

/// The end tag that writing puts down for the core property at place `k`.
pub open spec fn property_close_tag(k: int) -> Seq<char> {
    "</"@ + property_qualified_name(k) + ">"@
}

/// The elements of the properties at the places before `k` that have a value.
pub open spec fn written_elements(p: CorePropertiesView, k: int) -> Seq<char>
    decreases k,
{
    if k <= 0 {
        Seq::<char>::empty()
    } else {
        written_elements(p, k - 1) + element_xml(property_open_tag(k - 1), property_value(p, k - 1), property_close_tag(k - 1))
    }
}

/// The name that reading looks for is the one that writing gives, as bytes.
proof fn lemma_property_name_text(k: int)
    requires
        0 <= k < property_count(),
    ensures
        decode_utf8(property_name(k)) == property_qualified_name(k),
{
    lemma_local_names_decode(k);
    reveal_strlit("cp");
    reveal_strlit("dc");
    reveal_strlit("dcterms");
    reveal_strlit("category");
    reveal_strlit("contentStatus");
    reveal_strlit("created");
    reveal_strlit("creator");
    reveal_strlit("description");
    reveal_strlit("identifier");
    reveal_strlit("keywords");
    reveal_strlit("language");
    reveal_strlit("lastModifiedBy");
    reveal_strlit("lastPrinted");
    reveal_strlit("modified");
    reveal_strlit("revision");
    reveal_strlit("subject");
    reveal_strlit("title");
    reveal_strlit("version");
    let name = property_qualified_name(k);
    let local = decode_utf8(property_local(k));
    assert(is_ascii_chars(local));
    assert(is_ascii_chars(property_prefix(k)));
    assert(is_ascii_chars(name));
    is_ascii_chars_encode_utf8(name);
    is_ascii_chars_encode_utf8(property_prefix(k));
    is_ascii_chars_encode_utf8(local);
    encode_utf8_decode_utf8(local);
    assert(property_local(k) == encode_utf8(local));
    assert(property_name(k) =~= encode_utf8(name));
    encode_utf8_decode_utf8(name);
}

/// The tags of each property's element, as `properties_xml` writes them.
proof fn lemma_property_tags(k: int)
    requires
        0 <= k < property_count(),
    ensures
        property_open_tag(k) == (if k == 0 {
            "<cp:category>"@
        } else if k == 1 {
            "<cp:contentStatus>"@
        } else if k == 2 {
            "<dcterms:created xsi:type=\"dcterms:W3CDTF\">"@
        } else if k == 3 {
            "<dc:creator>"@
        } else if k == 4 {
            "<dc:description>"@
        } else if k == 5 {
            "<dc:identifier>"@
        } else if k == 6 {
            "<cp:keywords>"@
        } else if k == 7 {
            "<dc:language>"@
        } else if k == 8 {
            "<cp:lastModifiedBy>"@
        } else if k == 9 {
            "<cp:lastPrinted>"@
        } else if k == 10 {
            "<dcterms:modified xsi:type=\"dcterms:W3CDTF\">"@
        } else if k == 11 {
            "<cp:revision>"@
        } else if k == 12 {
            "<dc:subject>"@
        } else if k == 13 {
            "<dc:title>"@
        } else {
            "<cp:version>"@
        }),
        property_close_tag(k) == (if k == 0 {
            "</cp:category>"@
        } else if k == 1 {
            "</cp:contentStatus>"@
        } else if k == 2 {
            "</dcterms:created>"@
        } else if k == 3 {
            "</dc:creator>"@
        } else if k == 4 {
            "</dc:description>"@
        } else if k == 5 {
            "</dc:identifier>"@
        } else if k == 6 {
            "</cp:keywords>"@
        } else if k == 7 {
            "</dc:language>"@
        } else if k == 8 {
            "</cp:lastModifiedBy>"@
        } else if k == 9 {
            "</cp:lastPrinted>"@
        } else if k == 10 {
            "</dcterms:modified>"@
        } else if k == 11 {
            "</cp:revision>"@
        } else if k == 12 {
            "</dc:subject>"@
        } else if k == 13 {
            "</dc:title>"@
        } else {
            "</cp:version>"@
        }),
{
    lemma_local_names_decode(k);
    reveal_strlit("<");
    reveal_strlit(">");
    reveal_strlit("</");
    reveal_strlit(" xsi:type=\"dcterms:W3CDTF\"");
    if k == 0 {
        reveal_strlit("<cp:category>");
        reveal_strlit("</cp:category>");
        reveal_strlit("cp");
        reveal_strlit("category");
        assert(property_open_tag(k) =~= "<cp:category>"@);
        assert(property_close_tag(k) =~= "</cp:category>"@);
    } else if k == 1 {
        reveal_strlit("<cp:contentStatus>");
        reveal_strlit("</cp:contentStatus>");
        reveal_strlit("cp");
        reveal_strlit("contentStatus");
        assert(property_open_tag(k) =~= "<cp:contentStatus>"@);
        assert(property_close_tag(k) =~= "</cp:contentStatus>"@);
    } else if k == 2 {
        reveal_strlit("<dcterms:created xsi:type=\"dcterms:W3CDTF\">");
        reveal_strlit("</dcterms:created>");
        reveal_strlit("dcterms");
        reveal_strlit("created");
        assert(property_open_tag(k) =~= "<dcterms:created xsi:type=\"dcterms:W3CDTF\">"@);
        assert(property_close_tag(k) =~= "</dcterms:created>"@);
    } else if k == 3 {
        reveal_strlit("<dc:creator>");
        reveal_strlit("</dc:creator>");
        reveal_strlit("dc");
        reveal_strlit("creator");
        assert(property_open_tag(k) =~= "<dc:creator>"@);
        assert(property_close_tag(k) =~= "</dc:creator>"@);
    } else if k == 4 {
        reveal_strlit("<dc:description>");
        reveal_strlit("</dc:description>");
        reveal_strlit("dc");
        reveal_strlit("description");
        assert(property_open_tag(k) =~= "<dc:description>"@);
        assert(property_close_tag(k) =~= "</dc:description>"@);
    } else if k == 5 {
        reveal_strlit("<dc:identifier>");
        reveal_strlit("</dc:identifier>");
        reveal_strlit("dc");
        reveal_strlit("identifier");
        assert(property_open_tag(k) =~= "<dc:identifier>"@);
        assert(property_close_tag(k) =~= "</dc:identifier>"@);
    } else if k == 6 {
        reveal_strlit("<cp:keywords>");
        reveal_strlit("</cp:keywords>");
        reveal_strlit("cp");
        reveal_strlit("keywords");
        assert(property_open_tag(k) =~= "<cp:keywords>"@);
        assert(property_close_tag(k) =~= "</cp:keywords>"@);
    } else if k == 7 {
        reveal_strlit("<dc:language>");
        reveal_strlit("</dc:language>");
        reveal_strlit("dc");
        reveal_strlit("language");
        assert(property_open_tag(k) =~= "<dc:language>"@);
        assert(property_close_tag(k) =~= "</dc:language>"@);
    } else if k == 8 {
        reveal_strlit("<cp:lastModifiedBy>");
        reveal_strlit("</cp:lastModifiedBy>");
        reveal_strlit("cp");
        reveal_strlit("lastModifiedBy");
        assert(property_open_tag(k) =~= "<cp:lastModifiedBy>"@);
        assert(property_close_tag(k) =~= "</cp:lastModifiedBy>"@);
    } else if k == 9 {
        reveal_strlit("<cp:lastPrinted>");
        reveal_strlit("</cp:lastPrinted>");
        reveal_strlit("cp");
        reveal_strlit("lastPrinted");
        assert(property_open_tag(k) =~= "<cp:lastPrinted>"@);
        assert(property_close_tag(k) =~= "</cp:lastPrinted>"@);
    } else if k == 10 {
        reveal_strlit("<dcterms:modified xsi:type=\"dcterms:W3CDTF\">");
        reveal_strlit("</dcterms:modified>");
        reveal_strlit("dcterms");
        reveal_strlit("modified");
        assert(property_open_tag(k) =~= "<dcterms:modified xsi:type=\"dcterms:W3CDTF\">"@);
        assert(property_close_tag(k) =~= "</dcterms:modified>"@);
    } else if k == 11 {
        reveal_strlit("<cp:revision>");
        reveal_strlit("</cp:revision>");
        reveal_strlit("cp");
        reveal_strlit("revision");
        assert(property_open_tag(k) =~= "<cp:revision>"@);
        assert(property_close_tag(k) =~= "</cp:revision>"@);
    } else if k == 12 {
        reveal_strlit("<dc:subject>");
        reveal_strlit("</dc:subject>");
        reveal_strlit("dc");
        reveal_strlit("subject");
        assert(property_open_tag(k) =~= "<dc:subject>"@);
        assert(property_close_tag(k) =~= "</dc:subject>"@);
    } else if k == 13 {
        reveal_strlit("<dc:title>");
        reveal_strlit("</dc:title>");
        reveal_strlit("dc");
        reveal_strlit("title");
        assert(property_open_tag(k) =~= "<dc:title>"@);
        assert(property_close_tag(k) =~= "</dc:title>"@);
    } else {
        reveal_strlit("<cp:version>");
        reveal_strlit("</cp:version>");
        reveal_strlit("cp");
        reveal_strlit("version");
        assert(property_open_tag(k) =~= "<cp:version>"@);
        assert(property_close_tag(k) =~= "</cp:version>"@);
    }
}

/// ` key="value"` for each attribute, in order.
pub open spec fn attributes_text(attributes: Seq<(Seq<u8>, Seq<char>)>) -> Seq<char>
    decreases attributes.len(),
{
    if attributes.len() == 0 {
        Seq::<char>::empty()
    } else {
        attributes_text(attributes.drop_last()) + " "@ + decode_utf8(attributes.last().0) + "=\""@
            + attributes.last().1 + "\""@
    }
}

/// The text of the part laid out from the pieces that reading looks for:
/// the declaration, the root start tag with its name and attributes, the
/// elements of the properties, the root end tag.
pub open spec fn document_text(p: CorePropertiesView) -> Seq<char> {
    "<?xml version=\"1.0\" encoding=\"UTF-8\" standalone=\"yes\"?>\r\n"@ + "<"@ + decode_utf8(
        root_name(prefixed_root(p)),
    ) + attributes_text(written_root_attributes(p)) + ">"@ + written_elements(p, property_count()) + "</"@
        + decode_utf8(root_name(prefixed_root(p))) + ">"@
}

/// Encoding a concatenation encodes each part.
proof fn lemma_encode_concat(a: Seq<char>, b: Seq<char>)
    ensures
        encode_utf8(a + b) == encode_utf8(a) + encode_utf8(b),
    decreases a.len(),
{
    if a.len() == 0 {
        assert(a + b =~= b);
        assert(encode_utf8(a) + encode_utf8(b) =~= encode_utf8(b));
    } else {
        assert((a + b).drop_first() =~= a.drop_first() + b);
        assert((a + b)[0] == a[0]);
        lemma_encode_concat(a.drop_first(), b);
        assert(encode_scalar_first(a) + (encode_utf8(a.drop_first()) + encode_utf8(b))
            =~= encode_scalar_first(a) + encode_utf8(a.drop_first()) + encode_utf8(b));
    }
}

/// The bytes of the first character of a non-empty text.
spec fn encode_scalar_first(a: Seq<char>) -> Seq<u8> {
    vstd::utf8::encode_scalar(a[0] as u32)
}

/// Attribute texts of consecutive lists follow each other.
proof fn lemma_attributes_text_concat(a: Seq<(Seq<u8>, Seq<char>)>, b: Seq<(Seq<u8>, Seq<char>)>)
    ensures
        attributes_text(a + b) == attributes_text(a) + attributes_text(b),
    decreases b.len(),
{
    if b.len() == 0 {
        assert(a + b =~= a);
        assert(attributes_text(a) + attributes_text(b) =~= attributes_text(a));
    } else {
        lemma_attributes_text_concat(a, b.drop_last());
        assert((a + b).drop_last() =~= a + b.drop_last());
        assert((a + b).last() == b.last());
        let t = " "@ + decode_utf8(b.last().0) + "=\""@ + b.last().1 + "\""@;
        assert(attributes_text(a) + attributes_text(b.drop_last()) + t
            =~= attributes_text(a) + (attributes_text(b.drop_last()) + t));
    }
}

/// The declarations of the prefix map, as written.
proof fn lemma_declarations_text(entries: NamespaceEntries)
    ensures
        attributes_text(declarations(entries)) == namespace_declarations_xml(entries),
    decreases entries.len(),
{
    if entries.len() > 0 {
        lemma_declarations_text(entries.drop_last());
        assert(declarations(entries).drop_last() =~= declarations(entries.drop_last()));
        let k = entries.last().0;
        reveal_strlit("xmlns:");
        reveal_strlit(" xmlns:");
        reveal_strlit(" ");
        is_ascii_chars_encode_utf8("xmlns:"@);
        assert(encode_utf8("xmlns:"@) =~= xmlns_bytes() + seq![58u8]);
        lemma_encode_concat("xmlns:"@, k);
        encode_utf8_decode_utf8("xmlns:"@ + k);
        assert(decode_utf8(declaration_key(k)) == "xmlns:"@ + k);
        assert(" "@ + ("xmlns:"@ + k) =~= " xmlns:"@ + k);
        let v = entries.last().1;
        let before = namespace_declarations_xml(entries.drop_last());
        assert(before + " "@ + decode_utf8(declaration_key(k)) + "=\""@ + v + "\""@
            =~= before + " xmlns:"@ + k + "=\""@ + v + "\""@);
    } else {
        assert(declarations(entries) =~= Seq::<(Seq<u8>, Seq<char>)>::empty());
    }
}

/// An optional attribute, as written.
proof fn lemma_optional_attribute_text(key: &str, value: Option<Seq<char>>)
    ensures
        attributes_text(optional_attribute(key.spec_bytes(), value)) == attribute_xml(key@, value),
{
    encode_utf8_decode_utf8(key@);
    match value {
        Some(v) => {
            let a = optional_attribute(key.spec_bytes(), value);
            assert(a.drop_last() =~= Seq::<(Seq<u8>, Seq<char>)>::empty());
            assert(a.last() == (key.spec_bytes(), v));
            assert(attributes_text(a.drop_last()) =~= Seq::<char>::empty());
            assert(decode_utf8(a.last().0) == key@);
            assert(Seq::<char>::empty() + " "@ + key@ + "=\""@ + v + "\""@ =~= " "@ + key@ + "=\""@ + v + "\""@);
        },
        None => {},
    }
}

/// The root's name that reading looks for is the one that writing gives.
proof fn lemma_root_name_text(prefixed: bool)
    ensures
        decode_utf8(root_name(prefixed)) == root_name_xml(prefixed),
{
    reveal_strlit("cp");
    reveal_strlit("coreProperties");
    reveal_strlit("cp:coreProperties");
    encode_utf8_decode_utf8("coreProperties"@);
    if prefixed {
        is_ascii_chars_encode_utf8(seq![':']);
        assert(encode_utf8(seq![':']) =~= seq![58u8]);
        lemma_encode_concat("cp"@, seq![':']);
        lemma_encode_concat("cp"@ + seq![':'], "coreProperties"@);
        assert("cp:coreProperties"@ =~= "cp"@ + seq![':'] + "coreProperties"@);
        encode_utf8_decode_utf8("cp:coreProperties"@);
    }
}

/// The elements of the properties, as `properties_xml` writes them.
proof fn lemma_written_elements(p: CorePropertiesView)
    ensures
        properties_xml(p) == written_elements(p, property_count()),
{
    lemma_property_tags(0);
    lemma_property_tags(1);
    lemma_property_tags(2);
    lemma_property_tags(3);
    lemma_property_tags(4);
    lemma_property_tags(5);
    lemma_property_tags(6);
    lemma_property_tags(7);
    lemma_property_tags(8);
    lemma_property_tags(9);
    lemma_property_tags(10);
    lemma_property_tags(11);
    lemma_property_tags(12);
    lemma_property_tags(13);
    lemma_property_tags(14);
    reveal_with_fuel(written_elements, 16);
    assert(written_elements(p, 1) =~= element_xml(property_open_tag(0), property_value(p, 0), property_close_tag(0)));
}

/// Writing lays the part out from the pieces that reading looks for: the
/// text that `to_xml` writes is the declaration, the root start tag with
/// the root's name and the written attributes, the element of each property
/// with a value (under its qualified name, holding its escaped value), and
/// the root end tag; and the qualified names are, as bytes, the names that
/// reading looks for.
pub proof fn law_written_text_layout(p: CorePropertiesView)
    ensures
        core_properties_xml(p, prefixed_root(p)) == document_text(p),
        forall|k: int| 0 <= k < property_count() ==> decode_utf8(#[trigger] property_name(k)) == property_qualified_name(k),
{
    assert forall|k: int| 0 <= k < property_count() implies decode_utf8(#[trigger] property_name(k)) == property_qualified_name(k) by {
        lemma_property_name_text(k);
    }
    let prefixed = prefixed_root(p);
    lemma_root_name_text(prefixed);
    lemma_written_elements(p);
    let a = optional_attribute("xmlns".spec_bytes(), p.xmlns);
    let d = declarations(p.xmlns_map);
    let m = optional_attribute("mc:Ignorable".spec_bytes(), p.mc_ignorable);
    lemma_attributes_text_concat(a, d);
    lemma_attributes_text_concat(a + d, m);
    lemma_optional_attribute_text("xmlns", p.xmlns);
    lemma_optional_attribute_text("mc:Ignorable", p.mc_ignorable);
    lemma_declarations_text(p.xmlns_map);
    let head = "<?xml version=\"1.0\" encoding=\"UTF-8\" standalone=\"yes\"?>\r\n"@ + "<"@ + root_name_xml(prefixed);
    let attrs = attribute_xml("xmlns"@, p.xmlns) + namespace_declarations_xml(p.xmlns_map)
        + attribute_xml("mc:Ignorable"@, p.mc_ignorable);
    assert(head + attribute_xml("xmlns"@, p.xmlns) + namespace_declarations_xml(p.xmlns_map)
        + attribute_xml("mc:Ignorable"@, p.mc_ignorable) =~= head + attrs);
}

/// An event between the root's children that reading passes over: no start
/// tag of a child, no end tag, not the end of the document, no error (text,
/// whitespace, comments, empty elements and the like).
pub open spec fn is_between_children(outcome: ReadOutcome) -> bool {
    outcome matches Ok(event) && !(event.kind is Start || event.kind is End || event.kind is Eof)
}

/// Between the root's children, text (whitespace between indented children
/// among it) and other such events leave the reading where it was: the same
/// properties are read, and the reading goes on.
pub proof fn law_body_passes_over_text(acc: CorePropertiesView, outcome: ReadOutcome)
    requires
        is_between_children(outcome),
    ensures
        core_step(CoreState::Body(acc), outcome)
            == Step::<CoreState, Result<CorePropertiesView, Failure>>::Continue(CoreState::Body(acc)),
{
}

/// Reading a part with an event such as whitespace text between the root's
/// children gives the same as reading it without that event: whatever the
/// reading started from and whatever follows.
pub proof fn law_text_between_children_changes_nothing(
    start: CoreState,
    before: Seq<ReadOutcome>,
    acc: CorePropertiesView,
    between: ReadOutcome,
    after: Seq<ReadOutcome>,
)
    requires
        run(core_machine(), start, before)
            == Step::<CoreState, Result<CorePropertiesView, Failure>>::Continue(CoreState::Body(acc)),
        is_between_children(between),
    ensures
        run(core_machine(), start, before.push(between) + after) == run(core_machine(), start, before + after),
        run(core_machine(), start, before.push(between))
            == Step::<CoreState, Result<CorePropertiesView, Failure>>::Continue(CoreState::Body(acc)),
{
    lemma_run_push(core_machine(), start, before, between);
    lemma_run_append(core_machine(), start, before.push(between), after);
    lemma_run_append(core_machine(), start, before, after);
}

/// Writing a property writes its element holding the escaped value between
/// the tags, for every value whatever characters it holds, and nothing for
/// no value.
pub proof fn law_element_written_with_escaped_value(open: Seq<char>, value: Option<Seq<char>>, close: Seq<char>)
    ensures
        value matches Some(v) ==> element_xml(open, value, close) == open + escaped(v) + close,
        value is None ==> element_xml(open, value, close) == Seq::<char>::empty(),
{
}

/// The elements up to place `j` begin with those up to place `k`.
proof fn lemma_written_elements_prefix(p: CorePropertiesView, k: int, j: int) -> (rest: Seq<char>)
    requires
        0 <= k <= j,
    ensures
        written_elements(p, j) == written_elements(p, k) + rest,
    decreases j - k,
{
    if j == k {
        assert(written_elements(p, j) =~= written_elements(p, k) + Seq::<char>::empty());
        Seq::<char>::empty()
    } else {
        let rest = lemma_written_elements_prefix(p, k, j - 1);
        let e = element_xml(property_open_tag(j - 1), property_value(p, j - 1), property_close_tag(j - 1));
        assert(written_elements(p, j) =~= written_elements(p, k) + (rest + e));
        rest + e
    }
}

/// The element of the property at place `k` lies among the written elements.
proof fn lemma_element_among_elements(p: CorePropertiesView, k: int) -> (parts: (Seq<char>, Seq<char>))
    requires
        0 <= k < property_count(),
        property_value(p, k) is Some,
    ensures
        written_elements(p, property_count()) == parts.0 + (property_open_tag(k) + escaped(property_value(p, k)->0)
            + property_close_tag(k)) + parts.1,
{
    let rest = lemma_written_elements_prefix(p, k + 1, property_count());
    let e = property_open_tag(k) + escaped(property_value(p, k)->0) + property_close_tag(k);
    let wk = written_elements(p, k);
    assert(written_elements(p, k + 1) == wk + element_xml(property_open_tag(k), property_value(p, k), property_close_tag(k)));
    (wk, rest)
}

/// Every property with a value is written: the part holds, between the rest
/// (`parts`), the property's start tag, its escaped value and its end tag,
/// whatever characters the value holds.
pub proof fn law_every_value_is_written(p: CorePropertiesView, k: int) -> (parts: (Seq<char>, Seq<char>))
    requires
        0 <= k < property_count(),
        property_value(p, k) is Some,
    ensures
        core_properties_xml(p, prefixed_root(p)) == parts.0 + (property_open_tag(k) + escaped(property_value(p, k)->0)
            + property_close_tag(k)) + parts.1,
{
    let e = property_open_tag(k) + escaped(property_value(p, k)->0) + property_close_tag(k);
    let (wk, rest) = lemma_element_among_elements(p, k);
    lemma_document_text_split(p, wk, e, rest)
}

/// The part's text around its elements.
/// Regrouping a concatenation around one of its parts.
proof fn lemma_regroup(a: Seq<char>, wk: Seq<char>, e: Seq<char>, rest: Seq<char>, b1: Seq<char>, b2: Seq<char>, b3: Seq<char>)
    ensures
        a + (wk + e + rest) + b1 + b2 + b3 == (a + wk) + e + (rest + b1 + b2 + b3),
{
    assert(a + (wk + e + rest) + b1 + b2 + b3 =~= (a + wk) + e + (rest + b1 + b2 + b3));
}

/// The part's text around its elements.
proof fn lemma_document_text_split(p: CorePropertiesView, wk: Seq<char>, e: Seq<char>, rest: Seq<char>) -> (parts: (Seq<char>, Seq<char>))
    requires
        written_elements(p, property_count()) == wk + e + rest,
    ensures
        core_properties_xml(p, prefixed_root(p)) == parts.0 + e + parts.1,
{
    assert(core_properties_xml(p, prefixed_root(p)) == document_text(p)) by {
        law_written_text_layout(p);
    }
    let before = "<?xml version=\"1.0\" encoding=\"UTF-8\" standalone=\"yes\"?>\r\n"@ + "<"@ + decode_utf8(
        root_name(prefixed_root(p)),
    ) + attributes_text(written_root_attributes(p)) + ">"@;
    let n = decode_utf8(root_name(prefixed_root(p)));
    lemma_regroup(before, wk, e, rest, "</"@, n, ">"@);
    (before + wk, rest + "</"@ + n + ">"@)
}

} // verus!

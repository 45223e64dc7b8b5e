//! Qualified names and the prefixes in scope.

use vstd::prelude::*;
use quick_xml::events::attributes::AttrError;
use quick_xml::name::{PrefixDeclaration, QName};
use crate::error::SdkError;
use crate::machine::{Failure, is_failure};
use crate::reader::{SliceReader, XmlAttribute, XmlTag};
use crate::text::{lossy_string, unescape_attribute_value, unescaped_attribute_value, utf8_lossy_text};

verus! {

/// The position of the first `':'` in a name.
pub open spec fn colon_index(name: Seq<u8>) -> Option<int>
    decreases name.len(),
{
    if name.len() == 0 {
        None
    } else if name[0] == 58u8 {
        Some(0)
    } else {
        match colon_index(name.subrange(1, name.len() as int)) {
            Some(i) => Some(i + 1),
            None => None,
        }
    }
}

/// The part of a qualified name after its first `':'`, or the whole name.
pub open spec fn local_name_of(name: Seq<u8>) -> Seq<u8> {
    match colon_index(name) {
        Some(i) => name.subrange(i + 1, name.len() as int),
        None => name,
    }
}

/// The part of a qualified name before its first `':'`, if it has one.
pub open spec fn prefix_of(name: Seq<u8>) -> Option<Seq<u8>> {
    match colon_index(name) {
        Some(i) => Some(name.subrange(0, i)),
        None => None,
    }
}

/// `QName::local_name`. Claimed: the bytes after the first `':'`, or all
/// of them when there is none.
#[verifier::external_body]
pub fn local_name(name: &[u8]) -> (local: Vec<u8>)
    ensures
        local@ == local_name_of(name@),
{
    QName(name).local_name().as_ref().to_vec()
}

/// `QName::prefix`. Claimed: the bytes before the first `':'`, if there is
/// one.
#[verifier::external_body]
pub fn prefix(name: &[u8]) -> (p: Option<Vec<u8>>)
    ensures
        p is Some <==> prefix_of(name@) is Some,
        p matches Some(v) ==> v@ == prefix_of(name@)->0,
{
    QName(name).prefix().map(|p| p.as_ref().to_vec())
}

/// `"xmlns"`
pub open spec fn xmlns_bytes() -> Seq<u8> {
    seq![120u8, 109u8, 108u8, 110u8, 115u8]
}

/// The prefix that an attribute name declares: `Some(None)` for `xmlns`
/// (the default namespace), `Some(Some(p))` for `xmlns:p`, `None` when the
/// attribute declares no prefix.
pub open spec fn namespace_binding_of(key: Seq<u8>) -> Option<Option<Seq<u8>>> {
    if key.len() >= 5 && key.subrange(0, 5) == xmlns_bytes() {
        if key.len() == 5 {
            Some(None)
        } else if key[5] == 58u8 {
            Some(Some(key.subrange(6, key.len() as int)))
        } else {
            None
        }
    } else {
        None
    }
}

/// `QName::as_namespace_binding`. Claimed: `xmlns` declares the default
/// namespace, `xmlns:p` the prefix `p`, any other key nothing, as
/// `namespace_binding_of` states.
#[verifier::external_body]
pub fn namespace_binding(key: &[u8]) -> (binding: Option<Option<Vec<u8>>>)
    ensures
        binding is Some <==> namespace_binding_of(key@) is Some,
        binding matches Some(b) ==> (b is Some <==> namespace_binding_of(key@)->0 is Some),
        binding matches Some(Some(p)) ==> p@ == namespace_binding_of(key@)->0->0,
{
    match QName(key).as_namespace_binding() {
        None => None,
        Some(PrefixDeclaration::Default) => Some(None),
        Some(PrefixDeclaration::Named(p)) => Some(Some(p.to_vec())),
    }
}

/// The entries of a prefix map: prefix and namespace, in order of first binding.
pub type NamespaceEntries = Seq<(Seq<char>, Seq<char>)>;

/// No prefix occurs twice.
pub open spec fn keys_distinct(entries: NamespaceEntries) -> bool {
    forall|i: int, j: int| 0 <= i < j < entries.len() ==> entries[i].0 != entries[j].0
}

/// The prefix is bound.
pub open spec fn has_key(entries: NamespaceEntries, key: Seq<char>) -> bool {
    exists|i: int| 0 <= i < entries.len() && entries[i].0 == key
}

/// Where the prefix is bound.
pub open spec fn key_position(entries: NamespaceEntries, key: Seq<char>) -> int {
    choose|i: int| 0 <= i < entries.len() && entries[i].0 == key
}

/// The namespace bound to a prefix.
pub open spec fn lookup(entries: NamespaceEntries, key: Seq<char>) -> Option<Seq<char>> {
    if has_key(entries, key) {
        Some(entries[key_position(entries, key)].1)
    } else {
        None
    }
}

/// Binds a prefix: a bound prefix gets the new namespace in place, a new one
/// is added at the end.
pub open spec fn insert_entry(entries: NamespaceEntries, key: Seq<char>, value: Seq<char>) -> NamespaceEntries {
    if has_key(entries, key) {
        entries.update(key_position(entries, key), (key, value))
    } else {
        entries.push((key, value))
    }
}

/// The prefixes in scope and their namespaces.
#[derive(Debug)]
pub struct NamespaceMap {
    entries: Vec<(String, String)>,
}

impl NamespaceMap {
    /// The bindings, in order of first binding.
    pub closed spec fn entries(&self) -> NamespaceEntries {
        self.entries@.map_values(|e: (String, String)| (e.0@, e.1@))
    }

    #[verifier::type_invariant]
    closed spec fn wf(&self) -> bool {
        keys_distinct(self.entries())
    }

    /// No prefix is bound.
    pub fn new() -> (map: Self)
        ensures
            map.entries() == NamespaceEntries::empty(),
    {
        let map = NamespaceMap { entries: Vec::new() };
        assert(map.entries() =~= NamespaceEntries::empty());
        map
    }

    /// The number of bound prefixes.
    pub fn len(&self) -> (n: usize)
        ensures
            n == self.entries().len(),
    {
        self.entries.len()
    }

    /// The binding at a position.
    pub fn entry(&self, i: usize) -> (e: (&String, &String))
        requires
            i < self.entries().len(),
        ensures
            e.0@ == self.entries()[i as int].0,
            e.1@ == self.entries()[i as int].1,
    {
        let e = &self.entries[i];
        (&e.0, &e.1)
    }

    fn position(&self, key: &String) -> (p: Option<usize>)
        ensures
            p is Some <==> has_key(self.entries(), key@),
            p matches Some(i) ==> i == key_position(self.entries(), key@) && i < self.entries().len(),
    {
        proof { use_type_invariant(self); }
        let ghost e = self.entries();
        let mut i: usize = 0;
        while i < self.entries.len()
            invariant
                i <= self.entries@.len(),
                e == self.entries(),
                keys_distinct(e),
                forall|j: int| 0 <= j < i ==> e[j].0 != key@,
            decreases self.entries@.len() - i,
        {
            if self.entries[i].0 == *key {
                assert(e[i as int].0 == key@);
                let ghost k = key_position(e, key@);
                assert(e[k].0 == key@);
                proof {
                    if k < i as int {
                        assert(e[k].0 != e[i as int].0);
                    } else if k > i as int {
                        assert(e[i as int].0 != e[k].0);
                    }
                }
                return Some(i);
            }
            i += 1;
        }
        None
    }

    /// The namespace bound to a prefix, if any.
    pub fn get(&self, key: &String) -> (value: Option<&String>)
        ensures
            value is Some <==> lookup(self.entries(), key@) is Some,
            value matches Some(v) ==> v@ == lookup(self.entries(), key@)->0,
    {
        match self.position(key) {
            Some(i) => Some(&self.entries[i].1),
            None => None,
        }
    }

    /// Binds a prefix to a namespace.
    pub fn insert(&mut self, key: String, value: String)
        ensures
            final(self).entries() == insert_entry(old(self).entries(), key@, value@),
            keys_distinct(final(self).entries()),
    {
        proof { use_type_invariant(&*self); }
        let ghost before = self.entries();
        let ghost k = key@;
        let ghost v = value@;
        match self.position(&key) {
            Some(i) => {
                let mut entries: Vec<(String, String)> = Vec::new();
                std::mem::swap(&mut entries, &mut self.entries);
                entries.set(i, (key, value));
                let ghost after = entries@.map_values(|e: (String, String)| (e.0@, e.1@));
                assert(after =~= before.update(i as int, (k, v)));
                assert(keys_distinct(after)) by {
                    assert forall|a: int, b: int| 0 <= a < b < after.len() implies after[a].0 != after[b].0 by {
                        assert(after[a].0 == before[a].0);
                        assert(after[b].0 == before[b].0);
                    }
                }
                self.entries = entries;
            },
            None => {
                let mut entries: Vec<(String, String)> = Vec::new();
                std::mem::swap(&mut entries, &mut self.entries);
                entries.push((key, value));
                let ghost after = entries@.map_values(|e: (String, String)| (e.0@, e.1@));
                assert(after =~= before.push((k, v)));
                assert(keys_distinct(after)) by {
                    assert forall|a: int, b: int| 0 <= a < b < after.len() implies after[a].0 != after[b].0 by {
                        if b == before.len() {
                            assert(before[a].0 != k);
                        }
                    }
                }
                self.entries = entries;
            },
        }
    }
}

/// `AttrError::clone` (derived). Claimed: the copy equals the original.
pub assume_specification[ <quick_xml::events::attributes::AttrError as Clone>::clone ](
    error: &quick_xml::events::attributes::AttrError,
) -> (copy: quick_xml::events::attributes::AttrError)
    ensures
        copy == *error,
;

/// The map key of a declared prefix: `""` for the default namespace, the
/// prefix's text otherwise.
pub open spec fn binding_key(prefix: Option<Seq<u8>>) -> Seq<char> {
    match prefix {
        None => Seq::<char>::empty(),
        Some(p) => utf8_lossy_text(p),
    }
}

/// The bindings after reading the namespace declarations among `attributes`
/// from left to right, and the failure that stopped the reading, if any.
/// Declarations before a failure stay bound.
pub open spec fn bind_namespaces(
    entries: NamespaceEntries,
    attributes: Seq<Result<XmlAttribute, AttrError>>,
) -> (NamespaceEntries, Option<Failure>)
    decreases attributes.len(),
{
    if attributes.len() == 0 {
        (entries, None)
    } else {
        let (bound, failure) = bind_namespaces(entries, attributes.drop_last());
        if failure is Some {
            (bound, failure)
        } else {
            match attributes.last() {
                Err(a) => (bound, Some(Failure::Attribute(a))),
                Ok(attribute) => match namespace_binding_of(attribute.key@) {
                    None => (bound, None),
                    Some(p) => match unescaped_attribute_value(attribute.value@) {
                        None => (bound, Some(Failure::Unescape)),
                        Some(value) => (insert_entry(bound, binding_key(p), value), None),
                    },
                },
            }
        }
    }
}

proof fn lemma_bind_failure_persists(
    entries: NamespaceEntries,
    attributes: Seq<Result<XmlAttribute, AttrError>>,
    k: int,
)
    requires
        0 <= k <= attributes.len(),
        bind_namespaces(entries, attributes.take(k)).1 is Some,
    ensures
        bind_namespaces(entries, attributes) == bind_namespaces(entries, attributes.take(k)),
    decreases attributes.len() - k,
{
    if k < attributes.len() {
        assert(attributes.take(k + 1).drop_last() =~= attributes.take(k));
        lemma_bind_failure_persists(entries, attributes, k + 1);
    } else {
        assert(attributes.take(k) =~= attributes);
    }
}

/// `Ok` exactly when no failure is given, else an error that the failure describes.
pub open spec fn unit_outcome(result: Result<(), SdkError>, failure: Option<Failure>) -> bool {
    match failure {
        None => result is Ok,
        Some(f) => result matches Err(e) && is_failure(e, f),
    }
}

/// Adds the namespace declarations (`xmlns`, `xmlns:p`) of a start tag to the
/// prefix map, reading the attributes in order; the first malformed attribute
/// or undecodable declared namespace stops the reading with an error.
pub fn update_namespace_map(
    xml_reader: &SliceReader,
    e: &XmlTag,
    xmlns_map: &mut NamespaceMap,
) -> (result: Result<(), SdkError>)
    ensures
        final(xmlns_map).entries() == bind_namespaces(old(xmlns_map).entries(), e.attributes@).0,
        unit_outcome(result, bind_namespaces(old(xmlns_map).entries(), e.attributes@).1),
{
    let decoder = xml_reader.decoder();
    let ghost start = xmlns_map.entries();
    let ghost attributes = e.attributes@;
    let mut i: usize = 0;
    assert(attributes.take(0) =~= Seq::<Result<XmlAttribute, AttrError>>::empty());
    while i < e.attributes.len()
        invariant
            i <= e.attributes.len(),
            attributes == e.attributes@,
            start == old(xmlns_map).entries(),
            bind_namespaces(start, attributes.take(i as int)) == (xmlns_map.entries(), Option::<Failure>::None),
        decreases e.attributes.len() - i,
    {
        assert(attributes.take(i + 1).drop_last() =~= attributes.take(i as int));
        assert(attributes.take(i + 1).last() == attributes[i as int]);
        match &e.attributes[i] {
            Err(a) => {
                let error = a.clone();
                proof { lemma_bind_failure_persists(start, attributes, i + 1); }
                return Err(SdkError::AttrError(error));
            },
            Ok(attribute) => {
                match namespace_binding(&attribute.key) {
                    None => {},
                    Some(p) => {
                        let value = match unescape_attribute_value(decoder, &attribute.value) {
                            Ok(v) => v,
                            Err(err) => {
                                proof { lemma_bind_failure_persists(start, attributes, i + 1); }
                                return Err(SdkError::QuickXmlError(err));
                            },
                        };
                        let key = match p {
                            None => String::new(),
                            Some(bytes) => lossy_string(&bytes),
                        };
                        xmlns_map.insert(key, value);
                    },
                }
            },
        }
        i += 1;
    }
    assert(attributes.take(attributes.len() as int) =~= attributes);
    Ok(())
}

/// The namespace of an element with qualified name `name`: the binding of
/// its prefix, an error when the prefix is not bound, and the default
/// namespace (or `""`) when there is no prefix.
pub open spec fn element_namespace(name: Seq<u8>, entries: NamespaceEntries) -> Result<Seq<char>, Failure> {
    match prefix_of(name) {
        Some(p) => match lookup(entries, utf8_lossy_text(p)) {
            Some(ns) => Ok(ns),
            None => Err(Failure::Common("Unknown prefix: {ns}"@)),
        },
        None => match lookup(entries, Seq::<char>::empty()) {
            Some(ns) => Ok(ns),
            None => Ok(Seq::<char>::empty()),
        },
    }
}

/// `result` is what `expected` says: the same text, or an error that the
/// failure describes.
pub open spec fn text_outcome(result: Result<String, SdkError>, expected: Result<Seq<char>, Failure>) -> bool {
    match expected {
        Ok(t) => result matches Ok(r) && r@ == t,
        Err(f) => result matches Err(e) && is_failure(e, f),
    }
}

/// The namespace of an element, from the prefix of its name.
pub fn get_element_namespace(e: &XmlTag, xmlns_map: &NamespaceMap) -> (namespace: Result<String, SdkError>)
    ensures
        text_outcome(namespace, element_namespace(e.name@, xmlns_map.entries())),
{
    match prefix(&e.name) {
        Some(p) => {
            let key = lossy_string(&p);
            match xmlns_map.get(&key) {
                Some(ns) => Ok(ns.clone()),
                None => Err(SdkError::CommonError("Unknown prefix: {ns}".to_owned())),
            }
        },
        None => {
            let key = String::new();
            match xmlns_map.get(&key) {
                Some(ns) => Ok(ns.clone()),
                None => Ok(String::new()),
            }
        },
    }
}

/// With distinct prefixes, the binding of a prefix is at its only position.
proof fn lemma_lookup_at(entries: NamespaceEntries, key: Seq<char>, i: int)
    requires
        keys_distinct(entries),
        0 <= i < entries.len(),
        entries[i].0 == key,
    ensures
        lookup(entries, key) == Some(entries[i].1),
{
    let k = key_position(entries, key);
    assert(entries[k].0 == key);
    if k < i {
        assert(entries[k].0 != entries[i].0);
    } else if k > i {
        assert(entries[i].0 != entries[k].0);
    }
}

/// A prefix that was just bound maps to its namespace, every other prefix
/// keeps its binding (or its absence), and prefixes stay distinct.
pub proof fn law_lookup_after_insert(entries: NamespaceEntries, key: Seq<char>, value: Seq<char>, other: Seq<char>)
    requires
        keys_distinct(entries),
    ensures
        keys_distinct(insert_entry(entries, key, value)),
        lookup(insert_entry(entries, key, value), key) == Some(value),
        other != key ==> lookup(insert_entry(entries, key, value), other) == lookup(entries, other),
{
    let after = insert_entry(entries, key, value);
    if has_key(entries, key) {
        let p = key_position(entries, key);
        assert(entries[p].0 == key);
        assert(keys_distinct(after)) by {
            assert forall|a: int, b: int| 0 <= a < b < after.len() implies after[a].0 != after[b].0 by {
                assert(after[a].0 == entries[a].0);
                assert(after[b].0 == entries[b].0);
            }
        }
        lemma_lookup_at(after, key, p);
        if other != key {
            if has_key(entries, other) {
                let q = key_position(entries, other);
                assert(entries[q].0 == other);
                assert(after[q] == entries[q]);
                lemma_lookup_at(after, other, q);
            } else {
                assert(!has_key(after, other)) by {
                    if has_key(after, other) {
                        let q = choose|q: int| 0 <= q < after.len() && after[q].0 == other;
                        assert(entries[q].0 == other);
                    }
                }
            }
        }
    } else {
        assert(keys_distinct(after)) by {
            assert forall|a: int, b: int| 0 <= a < b < after.len() implies after[a].0 != after[b].0 by {
                if b == entries.len() {
                    assert(entries[a].0 != key);
                }
            }
        }
        lemma_lookup_at(after, key, entries.len() as int);
        if other != key {
            if has_key(entries, other) {
                let q = key_position(entries, other);
                assert(entries[q].0 == other);
                assert(after[q] == entries[q]);
                lemma_lookup_at(after, other, q);
            } else {
                assert(!has_key(after, other)) by {
                    if has_key(after, other) {
                        let q = choose|q: int| 0 <= q < after.len() && after[q].0 == other;
                        if q < entries.len() {
                            assert(entries[q].0 == other);
                        }
                    }
                }
            }
        }
    }
}

impl Clone for NamespaceMap {
    fn clone(&self) -> (copy: Self)
        ensures
            copy.entries() == self.entries(),
    {
        proof { use_type_invariant(self); }
        let mut entries: Vec<(String, String)> = Vec::new();
        let mut i: usize = 0;
        while i < self.entries.len()
            invariant
                i <= self.entries@.len(),
                keys_distinct(self.entries()),
                entries@.len() == i,
                entries@.map_values(|e: (String, String)| (e.0@, e.1@)) == self.entries().take(i as int),
            decreases self.entries@.len() - i,
        {
            let k = self.entries[i].0.clone();
            let v = self.entries[i].1.clone();
            let ghost before = entries@;
            entries.push((k, v));
            let ghost mapped = entries@.map_values(|e: (String, String)| (e.0@, e.1@));
            assert forall|j: int| 0 <= j < i + 1 implies mapped[j] == self.entries().take(i + 1)[j] by {
                if j < i {
                    assert(entries@[j] == before[j]);
                    assert(before.map_values(|e: (String, String)| (e.0@, e.1@))[j] == self.entries().take(i as int)[j]);
                }
            }
            assert(mapped =~= self.entries().take(i + 1));
            i += 1;
        }
        assert(self.entries().take(self.entries@.len() as int) =~= self.entries());
        NamespaceMap { entries }
    }
}

impl Default for NamespaceMap {
    fn default() -> (map: Self)
        ensures
            map.entries() == NamespaceEntries::empty(),
    {
        NamespaceMap::new()
    }
}

} // verus!

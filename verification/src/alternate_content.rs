//! Markup compatibility: `mc:AlternateContent` with its `mc:Choice` and
//! `mc:Fallback` branches, of which a reader takes the first it supports.

use vstd::prelude::*;
use vstd::string::StringSliceAdditionalSpecFns;
use quick_xml::events::attributes::AttrError;
use crate::elements::{extends, read_since, skip_element, skip_machine, stop_result, unit_result};
use crate::error::SdkError;
use crate::machine::{Failure, is_failure, run, stops_with};
use crate::namespaces::{
    NamespaceMap, bind_namespaces, element_namespace, get_element_namespace, local_name, local_name_of,
    update_namespace_map,
};
use crate::reader::{ReadOutcome, SliceReader, XmlAttribute, XmlTag};
use crate::text::{bytes_equal, unescape_attribute_value, unescaped_attribute_value};

verus! {

/// `"http://schemas.openxmlformats.org/markup-compatibility/2006"`
pub open spec fn markup_compatibility_namespace() -> Seq<char> {
    "http://schemas.openxmlformats.org/markup-compatibility/2006"@
}

/// The text of the error for a branch outside of any `AlternateContent`.
pub open spec fn alternate_content_error_text() -> Seq<char> {
    "Error parsing AlternateContent"@
}

/// The raw value of the first `Requires` attribute among `attributes`, if
/// any, or the failure of a malformed attribute before it.
pub open spec fn requires_value(attributes: Seq<Result<XmlAttribute, AttrError>>) -> Result<Option<Seq<u8>>, Failure>
    decreases attributes.len(),
{
    if attributes.len() == 0 {
        Ok(None)
    } else {
        match attributes[0] {
            Err(a) => Err(Failure::Attribute(a)),
            Ok(attribute) => if attribute.key@ == "Requires".spec_bytes() {
                Ok(Some(attribute.value@))
            } else {
                requires_value(attributes.subrange(1, attributes.len() as int))
            },
        }
    }
}

/// What a start tag means for the markup-compatibility stack.
pub enum StartAction {
    /// Not a markup-compatibility element: handed back to the caller.
    PassOn,
    /// `AlternateContent`: a new level, no branch taken yet.
    Open,
    /// A branch that is read.
    Enter,
    /// A branch that is skipped.
    Skip,
}

/// Whether a `Choice` is skipped: when a branch was taken already, or when
/// its `Requires` value is not among the supported namespaces. A `Choice`
/// without `Requires` is taken.
pub open spec fn choice_skipped(
    taken: bool,
    attributes: Seq<Result<XmlAttribute, AttrError>>,
    supported: Seq<Seq<char>>,
) -> Result<bool, Failure> {
    if taken {
        Ok(true)
    } else {
        match requires_value(attributes) {
            Err(f) => Err(f),
            Ok(None) => Ok(false),
            Ok(Some(raw)) => match unescaped_attribute_value(raw) {
                None => Err(Failure::Unescape),
                Some(v) => Ok(!supported.contains(v)),
            },
        }
    }
}

/// The action for a start tag named `name`, in namespace `namespace`.
pub open spec fn start_action(
    stack: Seq<bool>,
    name: Seq<u8>,
    namespace: Seq<char>,
    attributes: Seq<Result<XmlAttribute, AttrError>>,
    supported: Seq<Seq<char>>,
) -> Result<StartAction, Failure> {
    let local = local_name_of(name);
    if local == "AlternateContent".spec_bytes() && namespace == markup_compatibility_namespace() {
        Ok(StartAction::Open)
    } else if local == "Choice".spec_bytes() && namespace == markup_compatibility_namespace() {
        if stack.len() == 0 {
            Err(Failure::Common(alternate_content_error_text()))
        } else {
            match choice_skipped(stack.last(), attributes, supported) {
                Err(f) => Err(f),
                Ok(true) => Ok(StartAction::Skip),
                Ok(false) => Ok(StartAction::Enter),
            }
        }
    } else if local == "Fallback".spec_bytes() && namespace == markup_compatibility_namespace() {
        if stack.len() == 0 {
            Err(Failure::Common(alternate_content_error_text()))
        } else if stack.last() {
            Ok(StartAction::Skip)
        } else {
            Ok(StartAction::Enter)
        }
    } else {
        Ok(StartAction::PassOn)
    }
}

/// The stack after an end tag named `name`: `AlternateContent` leaves its
/// level, `Choice` and `Fallback` mark the branch of the level as taken.
pub open spec fn end_stack(stack: Seq<bool>, name: Seq<u8>) -> Result<Seq<bool>, Failure> {
    let local = local_name_of(name);
    if local == "AlternateContent".spec_bytes() {
        if stack.len() == 0 {
            Err(Failure::Common(alternate_content_error_text()))
        } else {
            Ok(stack.drop_last())
        }
    } else if local == "Choice".spec_bytes() || local == "Fallback".spec_bytes() {
        if stack.len() == 0 {
            Err(Failure::Common(alternate_content_error_text()))
        } else {
            Ok(stack.update(stack.len() - 1, true))
        }
    } else {
        Ok(stack)
    }
}

/// The nesting of `AlternateContent` elements being read.
pub struct AlternateContentStack {
    /// For each open `AlternateContent`, whether a branch was taken.
    stack: Vec<bool>,
    /// The namespaces whose `Choice` branches can be read.
    supported_namespaces: Vec<String>,
}

impl AlternateContentStack {
    /// For each open `AlternateContent`, innermost last, whether a branch was taken.
    pub closed spec fn levels(&self) -> Seq<bool> {
        self.stack@
    }

    /// The namespaces whose `Choice` branches can be read.
    pub closed spec fn supported(&self) -> Seq<Seq<char>> {
        self.supported_namespaces@.map_values(|s: String| s@)
    }

    /// No open level, no supported namespace.
    pub fn new() -> (stack: Self)
        ensures
            stack.levels() == Seq::<bool>::empty(),
            stack.supported() == Seq::<Seq<char>>::empty(),
    {
        let stack = AlternateContentStack { stack: Vec::new(), supported_namespaces: Vec::new() };
        assert(stack.supported() =~= Seq::<Seq<char>>::empty());
        stack
    }

    /// No open level; `Choice` branches that require one of `namespaces` are read.
    pub fn with_supported_namespaces(namespaces: Vec<String>) -> (stack: Self)
        ensures
            stack.levels() == Seq::<bool>::empty(),
            stack.supported() == namespaces@.map_values(|s: String| s@),
    {
        AlternateContentStack { stack: Vec::new(), supported_namespaces: namespaces }
    }

    fn supports(&self, namespace: &String) -> (found: bool)
        ensures
            found == self.supported().contains(namespace@),
    {
        let ghost s = self.supported();
        let mut i: usize = 0;
        while i < self.supported_namespaces.len()
            invariant
                i <= self.supported_namespaces.len(),
                s == self.supported(),
                forall|j: int| 0 <= j < i ==> s[j] != namespace@,
            decreases self.supported_namespaces.len() - i,
        {
            if self.supported_namespaces[i] == *namespace {
                assert(s[i as int] == namespace@);
                return true;
            }
            i += 1;
        }
        assert(!s.contains(namespace@)) by {
            if s.contains(namespace@) {
                let j = choose|j: int| 0 <= j < s.len() && s[j] == namespace@;
                assert(s[j] != namespace@);
            }
        }
        false
    }

    /// Handles an element's start tag: binds its namespace declarations, then
    /// opens a level for `mc:AlternateContent`, reads or skips an
    /// `mc:Choice` or `mc:Fallback` branch (only the first branch that can be
    /// read is), and hands any other element back.
    pub fn on_start(
        &mut self,
        e: XmlTag,
        xml_reader: &mut SliceReader,
        xmlns_map: &mut NamespaceMap,
    ) -> (result: Result<Option<XmlTag>, SdkError>)
        requires
            old(xml_reader).replays(),
        ensures
            final(xml_reader).replays(),
            final(xml_reader).source() == old(xml_reader).source(),
            final(xml_reader).limit() == old(xml_reader).limit(),
            final(xml_reader).owned() == old(xml_reader).owned(),
            final(self).supported() == old(self).supported(),
            extends(old(xml_reader).history(), final(xml_reader).history()),
            final(xmlns_map).entries() == bind_namespaces(old(xmlns_map).entries(), e.attributes@).0,
            start_outcome(old(self).levels(), final(self).levels(), e,
                bind_namespaces(old(xmlns_map).entries(), e.attributes@).1,
                bind_namespaces(old(xmlns_map).entries(), e.attributes@).0,
                old(self).supported(), read_since(old(xml_reader).history(), final(xml_reader).history()), result),
    {
        let ghost h0 = xml_reader.history();
        proof {
            assert(h0.subrange(0, h0.len() as int) =~= h0);
            assert(read_since(h0, h0) =~= Seq::<ReadOutcome>::empty());
        }
        match update_namespace_map(xml_reader, &e, xmlns_map) {
            Ok(()) => {},
            Err(err) => return Err(err),
        }
        let local = local_name(&e.name);
        let namespace = match get_element_namespace(&e, xmlns_map) {
            Ok(ns) => ns,
            Err(err) => return Err(err),
        };
        let mc = "http://schemas.openxmlformats.org/markup-compatibility/2006".to_owned();
        if bytes_equal(local.as_slice(), "AlternateContent".as_bytes()) && namespace == mc {
            self.stack.push(false);
            Ok(None)
        } else if bytes_equal(local.as_slice(), "Choice".as_bytes()) && namespace == mc {
            let mut skip = match wrap_error(self.stack.last()) {
                Ok(last) => *last,
                Err(err) => return Err(err),
            };
            if !skip {
                match requires_of(xml_reader, &e.attributes) {
                    Ok(Some(value)) => {
                        skip = !self.supports(&value);
                    },
                    Ok(None) => {},
                    Err(err) => return Err(err),
                }
            }
            if skip {
                match skip_element(xml_reader) {
                    Ok(()) => {},
                    Err(err) => return Err(err),
                }
            }
            Ok(None)
        } else if bytes_equal(local.as_slice(), "Fallback".as_bytes()) && namespace == mc {
            let skip = match wrap_error(self.stack.last()) {
                Ok(last) => *last,
                Err(err) => return Err(err),
            };
            if skip {
                match skip_element(xml_reader) {
                    Ok(()) => {},
                    Err(err) => return Err(err),
                }
            }
            Ok(None)
        } else {
            Ok(Some(e))
        }
    }

    /// Handles an element's end tag, named `name`.
    pub fn on_end(&mut self, name: &[u8]) -> (result: Result<(), SdkError>)
        ensures
            match end_stack(old(self).levels(), name@) {
                Ok(s) => result is Ok && final(self).levels() == s,
                Err(f) => result matches Err(e) && is_failure(e, f) && final(self).levels() == old(self).levels(),
            },
            final(self).supported() == old(self).supported(),
    {
        let local = local_name(name);
        if bytes_equal(local.as_slice(), "AlternateContent".as_bytes()) {
            match wrap_error(self.stack.pop()) {
                Ok(_) => Ok(()),
                Err(err) => Err(err),
            }
        } else if bytes_equal(local.as_slice(), "Choice".as_bytes()) || bytes_equal(local.as_slice(), "Fallback".as_bytes()) {
            let n = self.stack.len();
            match wrap_error(if n == 0 { None } else { Some(n - 1) }) {
                Ok(last) => {
                    self.stack.set(last, true);
                    Ok(())
                },
                Err(err) => Err(err),
            }
        } else {
            Ok(())
        }
    }
}

impl Default for AlternateContentStack {
    /// No open level, no supported namespace.
    fn default() -> (stack: Self)
        ensures
            stack.levels() == Seq::<bool>::empty(),
            stack.supported() == Seq::<Seq<char>>::empty(),
    {
        AlternateContentStack::new()
    }
}

/// The value, or the error for a branch outside of any `AlternateContent`.
pub fn wrap_error<T>(opt: Option<T>) -> (result: Result<T, SdkError>)
    ensures
        match opt {
            Some(v) => result == Ok::<T, SdkError>(v),
            None => result matches Err(e) && is_failure(e, Failure::Common(alternate_content_error_text())),
        },
{
    match opt {
        Some(v) => Ok(v),
        None => Err(SdkError::CommonError("Error parsing AlternateContent".to_owned())),
    }
}

/// The decoded value of the first `Requires` attribute, if any.
fn requires_of(
    xml_reader: &SliceReader,
    attributes: &Vec<Result<XmlAttribute, AttrError>>,
) -> (result: Result<Option<String>, SdkError>)
    ensures
        match requires_value(attributes@) {
            Err(f) => result matches Err(e) && is_failure(e, f),
            Ok(None) => result matches Ok(None),
            Ok(Some(raw)) => match unescaped_attribute_value(raw) {
                None => result matches Err(e) && is_failure(e, Failure::Unescape),
                Some(v) => result matches Ok(Some(s)) && s@ == v,
            },
        },
{
    let ghost all = attributes@;
    let mut i: usize = 0;
    assert(all.subrange(0, all.len() as int) =~= all);
    while i < attributes.len()
        invariant
            i <= attributes.len(),
            all == attributes@,
            requires_value(all) == requires_value(all.subrange(i as int, all.len() as int)),
        decreases attributes.len() - i,
    {
        let ghost rest = all.subrange(i as int, all.len() as int);
        assert(rest[0] == all[i as int]);
        assert(rest.subrange(1, rest.len() as int) =~= all.subrange(i + 1, all.len() as int));
        match &attributes[i] {
            Err(a) => return Err(SdkError::AttrError(a.clone())),
            Ok(attribute) => {
                if bytes_equal(attribute.key.as_slice(), "Requires".as_bytes()) {
                    return match unescape_attribute_value(xml_reader.decoder(), &attribute.value) {
                        Ok(v) => Ok(Some(v)),
                        Err(err) => Err(SdkError::QuickXmlError(err)),
                    };
                }
            },
        }
        i += 1;
    }
    assert(all.subrange(i as int, all.len() as int) =~= Seq::<Result<XmlAttribute, AttrError>>::empty());
    Ok(None)
}

/// Nothing changed: the levels are as they were and nothing was read.
pub open spec fn unchanged(levels_before: Seq<bool>, levels_after: Seq<bool>, read: Seq<ReadOutcome>) -> bool {
    levels_after == levels_before && read.len() == 0
}

/// What `on_start` does with a start tag `e`, given whether binding its
/// namespace declarations failed and the prefix map afterwards: `read` is
/// what it read, `result` what it returned.
pub open spec fn start_outcome(
    levels_before: Seq<bool>,
    levels_after: Seq<bool>,
    e: XmlTag,
    binding_failure: Option<Failure>,
    entries: crate::namespaces::NamespaceEntries,
    supported: Seq<Seq<char>>,
    read: Seq<ReadOutcome>,
    result: Result<Option<XmlTag>, SdkError>,
) -> bool {
    match binding_failure {
        Some(f) => unchanged(levels_before, levels_after, read) && (result matches Err(err) && is_failure(err, f)),
        None => match element_namespace(e.name@, entries) {
            Err(f) => unchanged(levels_before, levels_after, read) && (result matches Err(err) && is_failure(err, f)),
            Ok(namespace) => match start_action(levels_before, e.name@, namespace, e.attributes@, supported) {
                Err(f) => unchanged(levels_before, levels_after, read) && (result matches Err(err) && is_failure(err, f)),
                Ok(StartAction::PassOn) => unchanged(levels_before, levels_after, read)
                    && result == Ok::<Option<XmlTag>, SdkError>(Some(e)),
                Ok(StartAction::Open) => levels_after == levels_before.push(false) && read.len() == 0
                    && result matches Ok(None),
                Ok(StartAction::Enter) => unchanged(levels_before, levels_after, read) && result matches Ok(None),
                Ok(StartAction::Skip) => {
                    let skipped = stop_result(run(skip_machine(), 1int, read));
                    &&& levels_after == levels_before
                    &&& stops_with(skip_machine(), 1int, read, skipped)
                    &&& match skipped {
                        Ok(_) => result matches Ok(None),
                        Err(f) => result matches Err(err) && is_failure(err, f),
                    }
                },
            },
        },
    }
}

proof fn lemma_branch_names_differ()
    ensures
        "Choice".spec_bytes() != "AlternateContent".spec_bytes(),
        "Fallback".spec_bytes() != "AlternateContent".spec_bytes(),
        "Fallback".spec_bytes() != "Choice".spec_bytes(),
{
    reveal_strlit("Choice");
    reveal_strlit("Fallback");
    reveal_strlit("AlternateContent");
    vstd::utf8::is_ascii_chars_encode_utf8("Choice"@);
    vstd::utf8::is_ascii_chars_encode_utf8("Fallback"@);
    vstd::utf8::is_ascii_chars_encode_utf8("AlternateContent"@);
    assert("Fallback".spec_bytes()[0] != "Choice".spec_bytes()[0]);
}

/// An `mc:AlternateContent` start tag opens a level, and its end tag closes
/// it again: the levels are as before.
pub proof fn law_alternate_content_balanced(
    levels: Seq<bool>,
    start_name: Seq<u8>,
    attributes: Seq<Result<XmlAttribute, AttrError>>,
    supported: Seq<Seq<char>>,
    end_name: Seq<u8>,
)
    requires
        local_name_of(start_name) == "AlternateContent".spec_bytes(),
        local_name_of(end_name) == "AlternateContent".spec_bytes(),
    ensures
        start_action(levels, start_name, markup_compatibility_namespace(), attributes, supported)
            == Ok::<StartAction, Failure>(StartAction::Open),
        end_stack(levels.push(false), end_name) == Ok::<Seq<bool>, Failure>(levels),
{
    assert(levels.push(false).drop_last() =~= levels);
}

/// Once a branch of an `mc:AlternateContent` has been read to its end, every
/// later `mc:Choice` or `mc:Fallback` of the same `AlternateContent` is skipped.
pub proof fn law_one_branch_taken(
    levels: Seq<bool>,
    end_name: Seq<u8>,
    start_name: Seq<u8>,
    attributes: Seq<Result<XmlAttribute, AttrError>>,
    supported: Seq<Seq<char>>,
)
    requires
        levels.len() > 0,
        local_name_of(end_name) == "Choice".spec_bytes() || local_name_of(end_name) == "Fallback".spec_bytes(),
        local_name_of(start_name) == "Choice".spec_bytes() || local_name_of(start_name) == "Fallback".spec_bytes(),
    ensures
        end_stack(levels, end_name) is Ok,
        start_action(end_stack(levels, end_name)->Ok_0, start_name, markup_compatibility_namespace(), attributes, supported)
            == Ok::<StartAction, Failure>(StartAction::Skip),
{
    lemma_branch_names_differ();
    let after = levels.update(levels.len() - 1, true);
    assert(end_stack(levels, end_name) == Ok::<Seq<bool>, Failure>(after));
    assert(after.last() == true);
}

/// A Fallback is read when no branch was taken before it.
pub proof fn law_fallback_read_without_choice(
    levels: Seq<bool>,
    start_name: Seq<u8>,
    attributes: Seq<Result<XmlAttribute, AttrError>>,
    supported: Seq<Seq<char>>,
)
    requires
        levels.len() > 0,
        !levels.last(),
        local_name_of(start_name) == "Fallback".spec_bytes(),
    ensures
        start_action(levels, start_name, markup_compatibility_namespace(), attributes, supported)
            == Ok::<StartAction, Failure>(StartAction::Enter),
{
    lemma_branch_names_differ();
}

/// A branch of an `mc:AlternateContent`: the qualified name of its start
/// tag, and that tag's attributes.
pub type Branch = (Seq<u8>, Seq<Result<XmlAttribute, AttrError>>);

/// A branch that can be read when no branch was taken before it: a `Choice`
/// without `Requires` or requiring a supported namespace, or a `Fallback`.
pub open spec fn can_be_read(branch: Branch, supported: Seq<Seq<char>>) -> bool {
    if local_name_of(branch.0) == "Choice".spec_bytes() {
        choice_skipped(false, branch.1, supported) == Ok::<bool, Failure>(false)
    } else {
        true
    }
}

/// A branch whose start tag names a `Choice` or `Fallback` and, for a
/// `Choice`, whose attributes can be read.
pub open spec fn is_branch(branch: Branch, supported: Seq<Seq<char>>) -> bool {
    ||| local_name_of(branch.0) == "Fallback".spec_bytes()
    ||| local_name_of(branch.0) == "Choice".spec_bytes() && choice_skipped(false, branch.1, supported) is Ok
}

/// Reading the branches of an `mc:AlternateContent` (in the markup
/// compatibility namespace) one after another, on top of `levels`: each
/// start tag's action, and whether a branch has been taken. A branch that is
/// entered is read to its end tag, which marks the level as taken; a skipped
/// one is read past whole.
pub open spec fn read_branches(
    levels: Seq<bool>,
    branches: Seq<Branch>,
    supported: Seq<Seq<char>>,
) -> (bool, Seq<Result<StartAction, Failure>>)
    decreases branches.len(),
{
    if branches.len() == 0 {
        (false, Seq::<Result<StartAction, Failure>>::empty())
    } else {
        let (taken, actions) = read_branches(levels, branches.drop_last(), supported);
        let b = branches.last();
        let action = start_action(levels.push(taken), b.0, markup_compatibility_namespace(), b.1, supported);
        (taken || action == Ok::<StartAction, Failure>(StartAction::Enter), actions.push(action))
    }
}

proof fn lemma_read_branches(levels: Seq<bool>, branches: Seq<Branch>, supported: Seq<Seq<char>>)
    requires
        forall|i: int| 0 <= i < branches.len() ==> is_branch(#[trigger] branches[i], supported),
    ensures
        read_branches(levels, branches, supported).1.len() == branches.len(),
        read_branches(levels, branches, supported).0
            == exists|j: int| 0 <= j < branches.len() && can_be_read(#[trigger] branches[j], supported),
        forall|i: int| 0 <= i < branches.len() ==> #[trigger] read_branches(levels, branches, supported).1[i] == (
            if can_be_read(branches[i], supported) && forall|j: int| 0 <= j < i ==> !can_be_read(#[trigger] branches[j], supported) {
                Ok::<StartAction, Failure>(StartAction::Enter)
            } else {
                Ok::<StartAction, Failure>(StartAction::Skip)
            }),
    decreases branches.len(),
{
    if branches.len() > 0 {
        let prefix = branches.drop_last();
        assert forall|i: int| 0 <= i < prefix.len() implies is_branch(#[trigger] prefix[i], supported) by {
            assert(prefix[i] == branches[i]);
        }
        lemma_read_branches(levels, prefix, supported);
        lemma_branch_names_differ();
        let k = branches.len() - 1;
        let b = branches[k];
        assert(is_branch(branches[k], supported));
        let (taken, actions) = read_branches(levels, prefix, supported);
        let after = read_branches(levels, branches, supported);
        assert(levels.push(taken).len() > 0);
        assert(levels.push(taken).last() == taken);
        assert forall|i: int| 0 <= i < branches.len() implies #[trigger] after.1[i] == (
            if can_be_read(branches[i], supported) && forall|j: int| 0 <= j < i ==> !can_be_read(#[trigger] branches[j], supported) {
                Ok::<StartAction, Failure>(StartAction::Enter)
            } else {
                Ok::<StartAction, Failure>(StartAction::Skip)
            }) by {
            if i < k {
                assert(after.1[i] == actions[i]);
                assert(prefix[i] == branches[i]);
                assert forall|j: int| 0 <= j < i implies prefix[j] == branches[j] by {}
            } else {
                if taken {
                    let j0 = choose|j: int| 0 <= j < prefix.len() && can_be_read(#[trigger] prefix[j], supported);
                    assert(prefix[j0] == branches[j0]);
                } else {
                    assert forall|j: int| 0 <= j < k implies !can_be_read(#[trigger] branches[j], supported) by {
                        assert(prefix[j] == branches[j]);
                    }
                }
            }
        }
        if after.0 && !taken {
            assert(can_be_read(branches[k], supported));
        }
        if !after.0 {
            assert forall|j: int| 0 <= j < branches.len() implies !can_be_read(#[trigger] branches[j], supported) by {
                if j < k {
                    assert(prefix[j] == branches[j]);
                }
            }
        }
        if taken {
            let j0 = choose|j: int| 0 <= j < prefix.len() && can_be_read(#[trigger] prefix[j], supported);
            assert(prefix[j0] == branches[j0]);
        }
    }
}

/// Reading one whole `mc:AlternateContent`: its start tag opens a level;
/// of its `Choice` and `Fallback` branches, read in order, exactly the first
/// that can be read (a `Choice` without `Requires` or with a supported one,
/// or a `Fallback`) is entered and every other is skipped; a branch is taken
/// exactly when one can be read; and the end tag of the `AlternateContent`
/// leaves the levels as they were before it.
pub proof fn law_alternate_content_reads_one_branch(
    levels: Seq<bool>,
    start_name: Seq<u8>,
    start_attributes: Seq<Result<XmlAttribute, AttrError>>,
    branches: Seq<Branch>,
    end_name: Seq<u8>,
    supported: Seq<Seq<char>>,
)
    requires
        local_name_of(start_name) == "AlternateContent".spec_bytes(),
        local_name_of(end_name) == "AlternateContent".spec_bytes(),
        forall|i: int| 0 <= i < branches.len() ==> is_branch(#[trigger] branches[i], supported),
    ensures
        start_action(levels, start_name, markup_compatibility_namespace(), start_attributes, supported)
            == Ok::<StartAction, Failure>(StartAction::Open),
        read_branches(levels, branches, supported).1.len() == branches.len(),
        forall|i: int| 0 <= i < branches.len() ==> #[trigger] read_branches(levels, branches, supported).1[i] == (
            if can_be_read(branches[i], supported) && forall|j: int| 0 <= j < i ==> !can_be_read(#[trigger] branches[j], supported) {
                Ok::<StartAction, Failure>(StartAction::Enter)
            } else {
                Ok::<StartAction, Failure>(StartAction::Skip)
            }),
        read_branches(levels, branches, supported).0
            == exists|j: int| 0 <= j < branches.len() && can_be_read(#[trigger] branches[j], supported),
        end_stack(levels.push(read_branches(levels, branches, supported).0), end_name)
            == Ok::<Seq<bool>, Failure>(levels),
{
    lemma_read_branches(levels, branches, supported);
    let taken = read_branches(levels, branches, supported).0;
    assert(levels.push(taken).drop_last() =~= levels);
}

/// The branch that a start tag opens: its name and attributes.
pub open spec fn branch_of(tag: XmlTag) -> Branch {
    (tag.name@, tag.attributes@)
}

/// Some branch before the `i`-th can be read.
pub open spec fn readable_before(tags: Seq<XmlTag>, i: int, supported: Seq<Seq<char>>) -> bool {
    exists|j: int| 0 <= j < i && can_be_read(#[trigger] branch_of(tags[j]), supported)
}

/// The levels after a branch: after `on_start` and, for a branch that is
/// read (nothing of it was read by `on_start`), after `on_end` on its end tag.
pub open spec fn levels_after_branch(after: Seq<bool>, read: Seq<ReadOutcome>, end_name: Seq<u8>) -> Seq<bool> {
    if read.len() == 0 {
        end_stack(after, end_name)->Ok_0
    } else {
        after
    }
}

/// What `on_start` and `on_end` did, call after call, for the branches of
/// an `mc:AlternateContent` whose start tag left the levels at `levels[0]`:
/// `on_start` on the `i`-th branch's tag went from `levels[i]` to `after[i]`,
/// reading `reads[i]` and returning `results[i]`; a branch it read nothing
/// of (one that is read) was then read through to its end tag, named
/// `end_names[i]`, for which `on_end` went on to `levels[i + 1]`; otherwise
/// `levels[i + 1]` is `after[i]`.
pub open spec fn branch_calls(
    levels: Seq<Seq<bool>>,
    after: Seq<Seq<bool>>,
    tags: Seq<XmlTag>,
    entries: crate::namespaces::NamespaceEntries,
    supported: Seq<Seq<char>>,
    reads: Seq<Seq<ReadOutcome>>,
    results: Seq<Result<Option<XmlTag>, SdkError>>,
    end_names: Seq<Seq<u8>>,
) -> bool {
    &&& levels.len() == tags.len() + 1
    &&& after.len() == tags.len()
    &&& reads.len() == tags.len()
    &&& results.len() == tags.len()
    &&& end_names.len() == tags.len()
    &&& forall|i: int| 0 <= i < tags.len() ==> #[trigger] start_outcome(levels[i], after[i], tags[i], None, entries,
        supported, reads[i], results[i])
    &&& forall|i: int| 0 <= i < tags.len() ==> levels[i + 1] == #[trigger] levels_after_branch(after[i], reads[i], end_names[i])
}

proof fn lemma_branch_calls(
    base: Seq<bool>,
    levels: Seq<Seq<bool>>,
    after: Seq<Seq<bool>>,
    tags: Seq<XmlTag>,
    entries: crate::namespaces::NamespaceEntries,
    supported: Seq<Seq<char>>,
    reads: Seq<Seq<ReadOutcome>>,
    results: Seq<Result<Option<XmlTag>, SdkError>>,
    end_names: Seq<Seq<u8>>,
    k: int,
)
    requires
        branch_calls(levels, after, tags, entries, supported, reads, results, end_names),
        levels[0] == base.push(false),
        0 <= k <= tags.len(),
        forall|i: int| 0 <= i < tags.len() ==> #[trigger] element_namespace(tags[i].name@, entries)
            == Ok::<Seq<char>, Failure>(markup_compatibility_namespace()),
        forall|i: int| 0 <= i < tags.len() ==> is_branch(#[trigger] branch_of(tags[i]), supported),
        forall|i: int| 0 <= i < tags.len() ==> local_name_of(#[trigger] end_names[i]) == local_name_of(tags[i].name@),
    ensures
        levels[k] == base.push(readable_before(tags, k, supported)),
        forall|i: int| 0 <= i < k ==> (#[trigger] reads[i].len() == 0) == (can_be_read(branch_of(tags[i]), supported)
            && !readable_before(tags, i, supported)),
        forall|i: int| 0 <= i < k && reads[i].len() == 0 ==> #[trigger] results[i] == Ok::<Option<XmlTag>, SdkError>(None),
        forall|i: int| 0 <= i < k && reads[i].len() != 0 ==> stops_with(skip_machine(), 1int, #[trigger] reads[i],
            stop_result(run(skip_machine(), 1int, reads[i]))),
    decreases k,
{
    lemma_branch_names_differ();
    if k == 0 {
        assert(!readable_before(tags, 0, supported));
    } else {
        let i = k - 1;
        lemma_branch_calls(base, levels, after, tags, entries, supported, reads, results, end_names, i);
        let t = readable_before(tags, i, supported);
        let b = branch_of(tags[i]);
        assert(start_outcome(levels[i], after[i], tags[i], None, entries, supported, reads[i], results[i]));
        assert(element_namespace(tags[i].name@, entries) == Ok::<Seq<char>, Failure>(markup_compatibility_namespace()));
        assert(is_branch(b, supported));
        assert(local_name_of(end_names[i]) == local_name_of(tags[i].name@));
        assert(levels[i + 1] == levels_after_branch(after[i], reads[i], end_names[i]));
        assert(levels[i].len() > 0 && levels[i].last() == t);
        if can_be_read(b, supported) && !t {
            assert(start_action(levels[i], tags[i].name@, markup_compatibility_namespace(), tags[i].attributes@, supported)
                == Ok::<StartAction, Failure>(StartAction::Enter));
            assert(levels[i].update(levels[i].len() - 1, true) =~= base.push(true));
            assert(readable_before(tags, k, supported)) by {
                assert(can_be_read(branch_of(tags[i]), supported));
            }
        } else {
            assert(start_action(levels[i], tags[i].name@, markup_compatibility_namespace(), tags[i].attributes@, supported)
                == Ok::<StartAction, Failure>(StartAction::Skip));
            assert(readable_before(tags, k, supported) == t) by {
                if readable_before(tags, k, supported) && !t {
                    let j = choose|j: int| 0 <= j < k && can_be_read(#[trigger] branch_of(tags[j]), supported);
                    if j < i {
                        assert(readable_before(tags, i, supported));
                    }
                }
                if t {
                    let j = choose|j: int| 0 <= j < i && can_be_read(#[trigger] branch_of(tags[j]), supported);
                    assert(0 <= j < k);
                }
            }
        }
        if t {
            let j = choose|j: int| 0 <= j < i && can_be_read(#[trigger] branch_of(tags[j]), supported);
            assert(readable_before(tags, k, supported));
        }
    }
}

/// Reading one whole `mc:AlternateContent` through `on_start` and `on_end`:
/// `on_start` on its start tag opens a level and returns `Ok(None)`; of the
/// branches that follow, `on_start` reads nothing of exactly the first that
/// can be read (a `Choice` without `Requires` or with a supported one, or a
/// `Fallback`), returning `Ok(None)`, and reads every other one through
/// whole; after the branches, `on_end` on the end tag of the
/// `AlternateContent` leaves the levels as they were before its start tag.
pub proof fn law_alternate_content_calls(
    base: Seq<bool>,
    start_tag: XmlTag,
    start_read: Seq<ReadOutcome>,
    start_result: Result<Option<XmlTag>, SdkError>,
    levels: Seq<Seq<bool>>,
    after: Seq<Seq<bool>>,
    tags: Seq<XmlTag>,
    entries: crate::namespaces::NamespaceEntries,
    supported: Seq<Seq<char>>,
    reads: Seq<Seq<ReadOutcome>>,
    results: Seq<Result<Option<XmlTag>, SdkError>>,
    end_names: Seq<Seq<u8>>,
    end_name: Seq<u8>,
)
    requires
        local_name_of(start_tag.name@) == "AlternateContent".spec_bytes(),
        element_namespace(start_tag.name@, entries) == Ok::<Seq<char>, Failure>(markup_compatibility_namespace()),
        start_outcome(base, levels[0], start_tag, None, entries, supported, start_read, start_result),
        branch_calls(levels, after, tags, entries, supported, reads, results, end_names),
        forall|i: int| 0 <= i < tags.len() ==> #[trigger] element_namespace(tags[i].name@, entries)
            == Ok::<Seq<char>, Failure>(markup_compatibility_namespace()),
        forall|i: int| 0 <= i < tags.len() ==> is_branch(#[trigger] branch_of(tags[i]), supported),
        forall|i: int| 0 <= i < tags.len() ==> local_name_of(#[trigger] end_names[i]) == local_name_of(tags[i].name@),
        local_name_of(end_name) == "AlternateContent".spec_bytes(),
    ensures
        start_result == Ok::<Option<XmlTag>, SdkError>(None),
        start_read.len() == 0,
        forall|i: int| 0 <= i < tags.len() ==> (#[trigger] reads[i].len() == 0) == (can_be_read(branch_of(tags[i]), supported)
            && !readable_before(tags, i, supported)),
        forall|i: int| 0 <= i < tags.len() && reads[i].len() == 0 ==> #[trigger] results[i] == Ok::<Option<XmlTag>, SdkError>(None),
        forall|i: int| 0 <= i < tags.len() && reads[i].len() != 0 ==> stops_with(skip_machine(), 1int, #[trigger] reads[i],
            stop_result(run(skip_machine(), 1int, reads[i]))),
        end_stack(levels[tags.len() as int], end_name) == Ok::<Seq<bool>, Failure>(base),
{
    lemma_branch_names_differ();
    assert(start_action(base, start_tag.name@, markup_compatibility_namespace(), start_tag.attributes@, supported)
        == Ok::<StartAction, Failure>(StartAction::Open));
    lemma_branch_calls(base, levels, after, tags, entries, supported, reads, results, end_names, tags.len() as int);
    let n = tags.len() as int;
    assert(levels[n].drop_last() =~= base);
}

/// An end tag whose local name is not `AlternateContent`, `Choice` or
/// `Fallback` changes nothing and is no error, whatever levels are open.
pub proof fn law_other_end_tags_ignored(levels: Seq<bool>, name: Seq<u8>)
    requires
        local_name_of(name) != "AlternateContent".spec_bytes(),
        local_name_of(name) != "Choice".spec_bytes(),
        local_name_of(name) != "Fallback".spec_bytes(),
    ensures
        end_stack(levels, name) == Ok::<Seq<bool>, Failure>(levels),
{
}

} // verus!

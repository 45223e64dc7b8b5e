//! Text values: booleans of the schema and conversions between bytes and text.

use vstd::prelude::*;
use vstd::utf8::*;
use crate::error::SdkError;
use quick_xml::encoding::{Decoder, EncodingError};

verus! {

/// What `String::from_utf8_lossy` makes of bytes that are not valid UTF-8.
pub uninterp spec fn utf8_lossy_replacement(bytes: Seq<u8>) -> Seq<char>;

/// The text that `String::from_utf8_lossy` makes of `bytes`: the decoded
/// text of valid UTF-8, a text with replacement characters otherwise.
pub open spec fn utf8_lossy_text(bytes: Seq<u8>) -> Seq<char> {
    if valid_utf8(bytes) {
        decode_utf8(bytes)
    } else {
        utf8_lossy_replacement(bytes)
    }
}

/// `String::from_utf8_lossy`. Claimed: valid UTF-8 gives its decoded text,
/// as std documents; other bytes give the named text, a function of the
/// bytes alone.
#[verifier::external_body]
pub fn lossy_string(bytes: &[u8]) -> (text: String)
    ensures
        valid_utf8(bytes@) ==> text@ == decode_utf8(bytes@),
        !valid_utf8(bytes@) ==> text@ == utf8_lossy_replacement(bytes@),
{
    String::from_utf8_lossy(bytes).into_owned()
}

/// The spellings of `true` that the schema's boolean values accept.
pub open spec fn is_true_token(b: Seq<u8>) -> bool {
    ||| b == seq![116u8, 114u8, 117u8, 101u8]
    ||| b == seq![49u8]
    ||| b == seq![84u8, 114u8, 117u8, 101u8]
    ||| b == seq![84u8, 82u8, 85u8, 69u8]
    ||| b == seq![116u8]
    ||| b == seq![89u8, 101u8, 115u8]
    ||| b == seq![89u8, 69u8, 83u8]
    ||| b == seq![121u8, 101u8, 115u8]
    ||| b == seq![121u8]
}

/// The spellings of `false` that the schema's boolean values accept,
/// the empty value among them.
pub open spec fn is_false_token(b: Seq<u8>) -> bool {
    ||| b == seq![102u8, 97u8, 108u8, 115u8, 101u8]
    ||| b == seq![48u8]
    ||| b == seq![70u8, 97u8, 108u8, 115u8, 101u8]
    ||| b == seq![70u8, 65u8, 76u8, 83u8, 69u8]
    ||| b == seq![102u8]
    ||| b == seq![78u8, 111u8]
    ||| b == seq![78u8, 79u8]
    ||| b == seq![110u8, 111u8]
    ||| b == seq![110u8]
    ||| b.len() == 0
}

/// `a` and `b` hold the same bytes.
pub fn bytes_equal(a: &[u8], b: &[u8]) -> (same: bool)
    ensures
        same == (a@ == b@),
{
    if a.len() != b.len() {
        return false;
    }
    let mut i: usize = 0;
    while i < a.len()
        invariant
            i <= a.len(),
            a.len() == b.len(),
            a@.take(i as int) == b@.take(i as int),
        decreases a.len() - i,
    {
        if a[i] != b[i] {
            assert(a@[i as int] != b@[i as int]);
            return false;
        }
        assert(a@.take(i + 1) =~= a@.take(i as int).push(a@[i as int]));
        assert(b@.take(i + 1) =~= b@.take(i as int).push(b@[i as int]));
        i += 1;
    }
    assert(a@.take(a.len() as int) =~= a@);
    assert(b@.take(b.len() as int) =~= b@);
    true
}

/// Reads a boolean value of the schema. Nine spellings mean `true`, nine
/// spellings and the empty value mean `false`; any other value is refused
/// with its text.
pub fn parse_bool_bytes(b: &[u8]) -> (value: Result<bool, SdkError>)
    ensures
        is_true_token(b@) ==> value == Ok::<bool, SdkError>(true),
        is_false_token(b@) ==> value == Ok::<bool, SdkError>(false),
        !is_true_token(b@) && !is_false_token(b@) ==> (value matches Err(SdkError::CommonError(text))
            && text@ == utf8_lossy_text(b@)),
{
    let t0 = [116u8, 114u8, 117u8, 101u8]; // "true"
    assert(t0@ =~= seq![116u8, 114u8, 117u8, 101u8]);
    let t1 = [49u8]; // "1"
    assert(t1@ =~= seq![49u8]);
    let t2 = [84u8, 114u8, 117u8, 101u8]; // "True"
    assert(t2@ =~= seq![84u8, 114u8, 117u8, 101u8]);
    let t3 = [84u8, 82u8, 85u8, 69u8]; // "TRUE"
    assert(t3@ =~= seq![84u8, 82u8, 85u8, 69u8]);
    let t4 = [116u8]; // "t"
    assert(t4@ =~= seq![116u8]);
    let t5 = [89u8, 101u8, 115u8]; // "Yes"
    assert(t5@ =~= seq![89u8, 101u8, 115u8]);
    let t6 = [89u8, 69u8, 83u8]; // "YES"
    assert(t6@ =~= seq![89u8, 69u8, 83u8]);
    let t7 = [121u8, 101u8, 115u8]; // "yes"
    assert(t7@ =~= seq![121u8, 101u8, 115u8]);
    let t8 = [121u8]; // "y"
    assert(t8@ =~= seq![121u8]);
    let f0 = [102u8, 97u8, 108u8, 115u8, 101u8]; // "false"
    assert(f0@ =~= seq![102u8, 97u8, 108u8, 115u8, 101u8]);
    let f1 = [48u8]; // "0"
    assert(f1@ =~= seq![48u8]);
    let f2 = [70u8, 97u8, 108u8, 115u8, 101u8]; // "False"
    assert(f2@ =~= seq![70u8, 97u8, 108u8, 115u8, 101u8]);
    let f3 = [70u8, 65u8, 76u8, 83u8, 69u8]; // "FALSE"
    assert(f3@ =~= seq![70u8, 65u8, 76u8, 83u8, 69u8]);
    let f4 = [102u8]; // "f"
    assert(f4@ =~= seq![102u8]);
    let f5 = [78u8, 111u8]; // "No"
    assert(f5@ =~= seq![78u8, 111u8]);
    let f6 = [78u8, 79u8]; // "NO"
    assert(f6@ =~= seq![78u8, 79u8]);
    let f7 = [110u8, 111u8]; // "no"
    assert(f7@ =~= seq![110u8, 111u8]);
    let f8 = [110u8]; // "n"
    assert(f8@ =~= seq![110u8]);
    let is_true = bytes_equal(b, t0.as_slice())
        || bytes_equal(b, t1.as_slice())
        || bytes_equal(b, t2.as_slice())
        || bytes_equal(b, t3.as_slice())
        || bytes_equal(b, t4.as_slice())
        || bytes_equal(b, t5.as_slice())
        || bytes_equal(b, t6.as_slice())
        || bytes_equal(b, t7.as_slice())
        || bytes_equal(b, t8.as_slice());
    let is_false = bytes_equal(b, f0.as_slice())
        || bytes_equal(b, f1.as_slice())
        || bytes_equal(b, f2.as_slice())
        || bytes_equal(b, f3.as_slice())
        || bytes_equal(b, f4.as_slice())
        || bytes_equal(b, f5.as_slice())
        || bytes_equal(b, f6.as_slice())
        || bytes_equal(b, f7.as_slice())
        || bytes_equal(b, f8.as_slice())
        || b.len() == 0;
    if is_true {
        Ok(true)
    } else if is_false {
        Ok(false)
    } else {
        Err(SdkError::CommonError(lossy_string(b)))
    }
}

/// `Decoder::decode` as built here (without the `encoding` feature): the
/// bytes as UTF-8. Claimed: it succeeds exactly on valid UTF-8 and then gives
/// the decoded characters.
#[verifier::external_body]
pub fn decode_text(decoder: Decoder, bytes: &[u8]) -> (text: Result<String, EncodingError>)
    ensures
        text is Ok <==> valid_utf8(bytes@),
        text matches Ok(t) ==> t@ == decode_utf8(bytes@),
{
    Ok(decoder.decode(bytes)?.into_owned())
}

/// The value of an attribute whose raw value `raw` is valid UTF-8 holding an
/// `&`: decoded and with its character and entity references replaced, if
/// that succeeds.
pub uninterp spec fn unescaped_with_references(raw: Seq<u8>) -> Option<Seq<char>>;

/// `"&"` as a byte.
pub open spec fn ampersand() -> u8 {
    38u8
}

/// The value of an attribute whose raw value is `raw`, decoded and with its
/// character and entity references replaced, if that succeeds: nothing for
/// bytes that are not UTF-8, the decoded text when there is no `&`.
pub open spec fn unescaped_attribute_value(raw: Seq<u8>) -> Option<Seq<char>> {
    if !valid_utf8(raw) {
        None
    } else if !raw.contains(ampersand()) {
        Some(decode_utf8(raw))
    } else {
        unescaped_with_references(raw)
    }
}

/// `Attribute::decode_and_unescape_value` on an attribute with raw value
/// `raw`. Claimed: decoding fails on bytes that are not UTF-8; valid UTF-8
/// without `&` is its decoded text (unescaping leaves text without `&` as it
/// is); otherwise the result is the named value, and the
/// call succeeds exactly when it exists. The decoder carries no state when
/// built without the `encoding` feature. Which error comes back on failure
/// is not stated.
#[verifier::external_body]
pub fn unescape_attribute_value(decoder: Decoder, raw: &[u8]) -> (value: Result<String, quick_xml::Error>)
    ensures
        value is Ok <==> unescaped_attribute_value(raw@) is Some,
        value matches Ok(v) ==> v@ == unescaped_attribute_value(raw@)->0,
        raw@.contains(ampersand()) ==> (value matches Ok(v) ==> unescaped_with_references(raw@) == Some(v@)),
{
    let attribute = quick_xml::events::attributes::Attribute::from((&b""[..], raw));
    Ok(attribute.decode_and_unescape_value(decoder)?.into_owned())
}

/// The replacement text of the predefined XML entities.
pub open spec fn xml_entity_value(name: Seq<char>) -> Option<Seq<char>> {
    if name == seq!['l', 't'] {
        Some(seq!['<'])
    } else if name == seq!['g', 't'] {
        Some(seq!['>'])
    } else if name == seq!['a', 'm', 'p'] {
        Some(seq!['&'])
    } else if name == seq!['a', 'p', 'o', 's'] {
        Some(seq!['\''])
    } else if name == seq!['q', 'u', 'o', 't'] {
        Some(seq!['"'])
    } else {
        None
    }
}

/// `quick_xml::escape::resolve_xml_entity`. Claimed: the five predefined
/// entities and nothing else.
#[verifier::external_body]
pub fn resolve_xml_entity(name: &str) -> (value: Option<&'static str>)
    ensures
        value is Some <==> xml_entity_value(name@) is Some,
        value matches Some(v) ==> v@ == xml_entity_value(name@)->0,
{
    quick_xml::escape::resolve_xml_entity(name)
}

/// The text that stands for `c` in escaped XML.
pub open spec fn escaped_char(c: char) -> Seq<char> {
    if c == '<' {
        seq!['&', 'l', 't', ';']
    } else if c == '>' {
        seq!['&', 'g', 't', ';']
    } else if c == '&' {
        seq!['&', 'a', 'm', 'p', ';']
    } else if c == '\'' {
        seq!['&', 'a', 'p', 'o', 's', ';']
    } else if c == '"' {
        seq!['&', 'q', 'u', 'o', 't', ';']
    } else {
        seq![c]
    }
}

/// `s` with each of `<`, `>`, `&`, `'` and `"` replaced by its entity.
pub open spec fn escaped(s: Seq<char>) -> Seq<char>
    decreases s.len(),
{
    if s.len() == 0 {
        Seq::<char>::empty()
    } else {
        escaped(s.drop_last()) + escaped_char(s.last())
    }
}

/// `quick_xml::escape::escape`. Claimed: each of the five special characters
/// is replaced by its entity and every other character is kept.
#[verifier::external_body]
pub fn escape(s: &str) -> (text: String)
    ensures
        text@ == escaped(s@),
{
    quick_xml::escape::escape(s).into_owned()
}

/// The characters that escaping replaces by an entity.
pub open spec fn is_special_char(c: char) -> bool {
    c == '<' || c == '>' || c == '&' || c == '\'' || c == '"'
}

/// The name of the entity that stands for a special character.
pub open spec fn entity_name(c: char) -> Seq<char> {
    if c == '<' {
        seq!['l', 't']
    } else if c == '>' {
        seq!['g', 't']
    } else if c == '&' {
        seq!['a', 'm', 'p']
    } else if c == '\'' {
        seq!['a', 'p', 'o', 's']
    } else {
        seq!['q', 'u', 'o', 't']
    }
}

/// Resolving the entity that escaping writes for a character gives that
/// character back; every other character is written as itself.
pub proof fn law_entities_undo_escape(c: char)
    ensures
        is_special_char(c) ==> escaped_char(c) == seq!['&'] + entity_name(c) + seq![';'],
        is_special_char(c) ==> xml_entity_value(entity_name(c)) == Some(seq![c]),
        !is_special_char(c) ==> escaped_char(c) == seq![c],
{
    if is_special_char(c) {
        assert(escaped_char(c) =~= seq!['&'] + entity_name(c) + seq![';']);
    }
}

/// Escaping a concatenation escapes each part.
pub proof fn lemma_escaped_concat(a: Seq<char>, b: Seq<char>)
    ensures
        escaped(a + b) == escaped(a) + escaped(b),
    decreases b.len(),
{
    if b.len() == 0 {
        assert(a + b =~= a);
        assert(escaped(a) + escaped(b) =~= escaped(a));
    } else {
        lemma_escaped_concat(a, b.drop_last());
        assert((a + b).drop_last() =~= a + b.drop_last());
        assert((a + b).last() == b.last());
        assert(escaped(a) + escaped(b.drop_last()) + escaped_char(b.last())
            =~= escaped(a) + (escaped(b.drop_last()) + escaped_char(b.last())));
    }
}

/// A text of one character escapes as that character does.
proof fn lemma_escaped_single(c: char)
    ensures
        escaped(seq![c]) == escaped_char(c),
{
    let s = seq![c];
    assert(s.drop_last() =~= Seq::<char>::empty());
    assert(s.last() == c);
    assert(escaped(s.drop_last()) =~= Seq::<char>::empty());
    assert(Seq::<char>::empty() + escaped_char(c) =~= escaped_char(c));
}

/// The first character of a text determines how its escaped form begins.
proof fn lemma_escaped_char_prefix(c: char, d: char, rest_c: Seq<char>, rest_d: Seq<char>)
    requires
        escaped_char(c) + rest_c == escaped_char(d) + rest_d,
    ensures
        c == d,
{
    let x = escaped_char(c) + rest_c;
    assert(x[0] == escaped_char(c)[0]);
    assert(x[0] == escaped_char(d)[0]);
    if is_special_char(c) && is_special_char(d) {
        assert(x[1] == escaped_char(c)[1]);
        assert(x[1] == escaped_char(d)[1]);
        assert(x[2] == escaped_char(c)[2]);
        assert(x[2] == escaped_char(d)[2]);
    }
}

/// Escaping loses nothing: texts with the same escaped form are the same.
pub proof fn law_escape_is_injective(a: Seq<char>, b: Seq<char>)
    requires
        escaped(a) == escaped(b),
    ensures
        a == b,
    decreases a.len(),
{
    if a.len() == 0 {
        if b.len() > 0 {
            assert(escaped(b).len() >= escaped_char(b.last()).len());
        }
        assert(a =~= b);
    } else {
        if b.len() == 0 {
            assert(escaped(a).len() >= escaped_char(a.last()).len());
            assert(false);
        }
        let a0 = a[0];
        let b0 = b[0];
        let a1 = a.drop_first();
        let b1 = b.drop_first();
        assert(a =~= seq![a0] + a1);
        assert(b =~= seq![b0] + b1);
        lemma_escaped_concat(seq![a0], a1);
        lemma_escaped_concat(seq![b0], b1);
        lemma_escaped_single(a0);
        lemma_escaped_single(b0);
        lemma_escaped_char_prefix(a0, b0, escaped(a1), escaped(b1));
        let k = escaped_char(a0).len() as int;
        assert(escaped(a1) =~= escaped(a).subrange(k, escaped(a).len() as int));
        assert(escaped(b1) =~= escaped(b).subrange(k, escaped(b).len() as int));
        law_escape_is_injective(a1, b1);
    }
}

/// No spelling means both `true` and `false`.
pub proof fn law_bool_tokens_disjoint(b: Seq<u8>)
    ensures
        !(is_true_token(b) && is_false_token(b)),
{
    if is_true_token(b) {
        assert(b.len() > 0 && (b[0] == 116u8 || b[0] == 49u8 || b[0] == 84u8 || b[0] == 89u8 || b[0] == 121u8));
    }
    if is_false_token(b) {
        assert(b.len() == 0 || b[0] == 102u8 || b[0] == 48u8 || b[0] == 70u8 || b[0] == 78u8 || b[0] == 110u8);
    }
}

/// Escaped text holds none of `<`, `>`, `'`, `"`; every `&` in it starts an entity.
pub proof fn law_escaped_has_no_markup(s: Seq<char>)
    ensures
        !escaped(s).contains('<'),
        !escaped(s).contains('>'),
        !escaped(s).contains('\''),
        !escaped(s).contains('"'),
    decreases s.len(),
{
    if s.len() > 0 {
        law_escaped_has_no_markup(s.drop_last());
        let head = escaped(s.drop_last());
        let tail = escaped_char(s.last());
        assert(escaped(s) == head + tail);
        assert forall|c: char| c == '<' || c == '>' || c == '\'' || c == '"' implies !(head + tail).contains(c) by {
            if (head + tail).contains(c) {
                let j = choose|j: int| 0 <= j < (head + tail).len() && (head + tail)[j] == c;
                if j < head.len() {
                    assert(head[j] == c);
                } else {
                    assert(tail[j - head.len()] == c);
                }
            }
        }
    }
}

} // verus!

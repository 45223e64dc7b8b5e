//! The error type shared by every reader of the library.

use vstd::prelude::*;

verus! {

#[verifier::external_type_specification]
#[verifier::external_body]
pub struct ExQuickXmlError(quick_xml::Error);

#[verifier::external_type_specification]
#[verifier::external_body]
pub struct ExEncodingError(quick_xml::encoding::EncodingError);

#[verifier::external_type_specification]
#[verifier::external_body]
pub struct ExAttrError(quick_xml::events::attributes::AttrError);

#[verifier::external_type_specification]
#[verifier::external_body]
pub struct ExFmtError(std::fmt::Error);

#[verifier::external_type_specification]
#[verifier::external_body]
pub struct ExIoError(std::io::Error);

/// What can go wrong while reading or writing a part.
#[derive(Debug)]
pub enum SdkError {
    /// The XML reader failed.
    QuickXmlError(quick_xml::Error),
    /// Bytes of the document are not valid in its encoding.
    QuickEncodingError(quick_xml::encoding::EncodingError),
    /// An attribute of a start tag is malformed or repeated.
    AttrError(quick_xml::events::attributes::AttrError),
    /// Formatting text failed.
    StdFmtError(std::fmt::Error),
    /// Reading the input failed.
    StdIoError(std::io::Error),
    /// An element other than the expected one was found.
    MismatchError { expected: String, found: String },
    /// Any other violation of the expected document structure.
    CommonError(String),
}

} // verus!

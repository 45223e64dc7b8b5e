//! Runtime helpers of an Office Open XML SDK: part-path arithmetic inside a
//! package, boolean attribute values, the markup-compatibility
//! (`mc:AlternateContent`) stack, and the OPC core-properties part.

pub mod path;
pub mod error;
pub mod text;
pub mod reader;
pub mod machine;
pub mod namespaces;
pub mod elements;
pub mod core_properties;
pub mod alternate_content;
pub mod read_back;

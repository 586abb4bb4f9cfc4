//! Two stateless codecs: a structured-value to YAML text serializer, and a
//! repacker that re-projects fixed-stride binary records into a dense layout.
pub mod repack;
pub mod yaml;

pub use repack::{repack_record_fields, RepackError, TypeTag};
pub use yaml::{serialize_structured_value, to_yaml_value, SerializationError, StructuredValue};

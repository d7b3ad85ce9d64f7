//! Decoder for entity-model documents: named definitions made of elements,
//! each element carrying a type, a key flag and `@`-prefixed annotations.

pub mod dict;
pub mod element;
pub mod error;
pub mod json;
pub mod loader;
pub mod schema;

pub use crate::dict::Dict;
pub use crate::element::{classify, decode_element, Element, Slot};
pub use crate::error::SemantixError;
pub use crate::loader::{load_model, parse_model};
pub use crate::schema::{
    decode_definition, decode_document, decode_entity, decode_model, Definition, Entity, Kind,
    Model,
};

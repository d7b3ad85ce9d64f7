//! From text to model: the text is parsed as one JSON value, and the value
//! is decoded as a model. A failure to read the text, met before either, is
//! kept apart from a failure to decode it.

use vstd::prelude::*;
use crate::error::SemantixError;
use crate::json::{parse_text, parsed_text};
use crate::schema::{
    decode_document, definitions_well_formed, model_of_value, DefinitionView, Model,
};

verus! {

/// What decoding a text gives: the model of the value that the text parses
/// to, or the first error met on the way.
pub open spec fn decoded_text(text: Seq<char>) -> Result<
    Map<Seq<char>, DefinitionView>,
    serde_json::Error,
> {
    match parsed_text(text) {
        Err(e) => Err(e),
        Ok(doc) => model_of_value(doc),
    }
}

/// Whether an outcome is the decoding of a text: the model that the text
/// gives, or its error as a parse failure.
pub open spec fn is_decoding_of(text: Seq<char>, outcome: Result<Model, SemantixError>) -> bool {
    match outcome {
        Ok(model) => decoded_text(text) == Ok::<Map<Seq<char>, DefinitionView>, serde_json::Error>(
            model@,
        ),
        Err(SemantixError::Parse(e)) => decoded_text(text) == Err::<
            Map<Seq<char>, DefinitionView>,
            serde_json::Error,
        >(e),
        Err(SemantixError::IO(_)) => false,
    }
}

/// Decodes a text as a model. Every failure is a parse failure.
pub fn parse_model(text: &str) -> (r: Result<Model, SemantixError>)
    ensures
        is_decoding_of(text@, r),
        r matches Ok(model) ==> definitions_well_formed(model@),
{
    let doc = match parse_text(text) {
        Ok(doc) => doc,
        Err(e) => {
            return Err(SemantixError::from(e));
        },
    };
    match decode_document(&doc) {
        Ok(model) => Ok(model),
        Err(e) => Err(SemantixError::from(e)),
    }
}

/// Loads a model from what reading its text gave. Where reading failed, that
/// failure is returned as it is; else the text is decoded, wholly or not at
/// all.
pub fn load_model(source: Result<String, std::io::Error>) -> (r: Result<Model, SemantixError>)
    ensures
        match source {
            Err(e) => r == Err::<Model, SemantixError>(SemantixError::IO(e)),
            Ok(text) => is_decoding_of(text@, r),
        },
        r matches Ok(model) ==> definitions_well_formed(model@),
{
    match source {
        Err(e) => Err(SemantixError::from(e)),
        Ok(content) => parse_model(content.as_str()),
    }
}

/// Decoding is a function of the text: two decodings of one text fail alike
/// or give models with the same content.
pub proof fn lemma_decoding_is_deterministic(
    text: Seq<char>,
    first: Result<Model, SemantixError>,
    second: Result<Model, SemantixError>,
)
    requires
        is_decoding_of(text, first),
        is_decoding_of(text, second),
    ensures
        match (first, second) {
            (Ok(a), Ok(b)) => a@ == b@,
            (Err(e), Err(f)) => e == f,
            _ => false,
        },
{
}

} // verus!

//! Errors of the pipeline.
use vstd::prelude::*;
use crate::normalize::ColumnType;

verus! {

/// An error carrying a message, raised by the surrounding handler.
#[derive(Debug)]
pub struct AdwordsError {
    pub message: String,
}

impl AdwordsError {
    pub fn new(message: String) -> (r: AdwordsError)
        ensures
            r.message@ == message@,
    {
        AdwordsError { message }
    }

    /// The text that the handler reports for this error.
    pub fn describe(&self) -> (r: String)
        ensures
            r@ == "error occurred: "@ + self.message@,
    {
        let mut out = String::from_str("error occurred: ");
        out.append(self.message.as_str());
        out
    }
}

impl From<String> for AdwordsError {
    fn from(s: String) -> (r: AdwordsError) {
        AdwordsError { message: s }
    }
}

impl vstd::std_specs::convert::FromSpecImpl<String> for AdwordsError {
    open spec fn obeys_from_spec() -> bool {
        true
    }

    open spec fn from_spec(s: String) -> AdwordsError {
        AdwordsError { message: s }
    }
}

impl<'a> From<&'a str> for AdwordsError {
    fn from(s: &'a str) -> (r: AdwordsError)
        ensures
            r.message@ == s@,
    {
        AdwordsError { message: String::from_str(s) }
    }
}

impl<'a> vstd::std_specs::convert::FromSpecImpl<&'a str> for AdwordsError {
    open spec fn obeys_from_spec() -> bool {
        false
    }

    open spec fn from_spec(s: &'a str) -> AdwordsError {
        arbitrary()
    }
}

/// What can go wrong while normalizing, checking and persisting records.
#[derive(Debug)]
pub enum PipelineError {
    /// Raw text could not be read as the declared numeric type.
    ValueParse { text: String, target: ColumnType },
    /// The number of column batches, or the length of one, does not match.
    SchemaArity { expected: usize, found: usize },
    /// A record could not be flattened into an attribute map.
    Encoding { message: String },
    /// The store returned this many items unprocessed.
    StoreRejection { unprocessed: usize },
}

} // verus!

use vstd::prelude::*;

verus! {

/// A failure of the batch pipeline.
///
/// `Decode` carries, verbatim, the message of an upstream failure met while
/// pulling input batches; `SchemaMismatch` reports a batch whose structure
/// disagrees with the schema of its stream.
#[derive(Debug, PartialEq, Eq)]
pub enum StreamError {
    Decode(String),
    SchemaMismatch,
}

} // verus!

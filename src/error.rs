use vstd::prelude::*;

verus! {

/// Why building a store from a document failed. Every error aborts the whole parse.
#[derive(Debug, PartialEq, Eq)]
pub enum Error {
    /// A bookmark was finalized without a URL.
    MissingUrl,
    /// A markdown link was closed before any date section began.
    MissingDate,
    /// A URL that does not parse; the offending text is kept.
    MalformedUrl(String),
    /// A timestamp attribute that is not a representable Unix time.
    MalformedTimestamp(String),
    /// A section heading whose text is not a date.
    MalformedDate(String),
    /// A structural query over a document tree could not be built.
    MalformedQuery(String),
    /// A stored collection carries a version this library does not read.
    IncompatibleVersion,
    /// A stored collection whose ids, URLs or edges do not describe a store.
    InconsistentNodes,
}

} // verus!

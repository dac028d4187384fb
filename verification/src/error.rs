use vstd::prelude::*;

verus! {

/// Everything that can go wrong while composing, validating or emitting.
/// Constructed at the failure site and propagated outward unchanged;
/// composition never retries and never recovers.
#[derive(Debug)]
pub enum ComposeError {
    /// A file could not be read; the message comes from the reader.
    Unreadable { message: String },
    /// The file's extension, if any, selects no known dialect.
    UnknownDialect { extension: Option<Vec<u8>> },
    /// The canonical-dialect parser rejected the text; the diagnostic is
    /// rendered against the source into one human-readable string.
    DialectAParse { rendered: String },
    /// The C-style-dialect parser reported one or more causes; the count
    /// is kept, and the first cause is kept in rendered form.
    DialectBParse { count: usize, first: Option<String> },
    /// The finished module failed validation.
    Validation { message: String },
    /// The validated module could not be emitted.
    Emission { message: String },
}

/// A failure together with the chain of files that were being processed
/// when it happened: the file where the failure occurred first, then each
/// enclosing file outward, ending with the file composition started from.
#[derive(Debug)]
pub struct ErrorReport {
    pub error: ComposeError,
    pub trail: Vec<Vec<u8>>,
}

} // verus!

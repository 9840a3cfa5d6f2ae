use vstd::prelude::*;

verus! {

/// The failures the store and its value types can report.
///
/// - `EmptyValue`: a validating constructor was given empty text or an empty
///   tag collection.
/// - `InvalidId`: an entry was rebuilt with text that is not a generated
///   identifier.
/// - `NotFound`: no stored entry matches the given identifier or prefix.
/// - `AmbiguousProjects`: a store did not span exactly one distinct project.
/// - `MissingEnd`: a duration was requested for a still-running entry.
#[derive(Clone, Copy, Debug, PartialEq, Eq, Structural)]
pub enum Error {
    EmptyValue,
    InvalidId,
    NotFound,
    AmbiguousProjects,
    MissingEnd,
}

/// The failures of the parsers: the persisted-store reader, the legacy
/// importer, and the date/time text parsers.
///
/// - `Malformed`: the input does not match the expected grammar.
/// - `InvalidValue`: the input parses but carries a value the data model
///   rejects (an empty project, a timestamp outside the supported range, an
///   impossible calendar date).
/// - `NonEmptyStore`: a legacy import was attempted into a store that already
///   holds entries.
#[derive(Clone, Copy, Debug, PartialEq, Eq, Structural)]
pub enum ParseError {
    Malformed,
    InvalidValue,
    NonEmptyStore,
}

} // verus!

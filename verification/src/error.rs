//! The errors of the index build.

use vstd::prelude::*;
use vstd::std_specs::convert::FromSpec;

verus! {

/// What went wrong.
///
/// More kinds may be added later, so match with a wildcard arm.
#[non_exhaustive]
#[derive(Clone, Copy, Debug, PartialEq, Eq, Structural)]
pub enum FingertipsErrorKind {
    /// A read ran past the end of an index file.
    Io,
    /// No document was indexed, or none held a word.
    EmptyCorpus,
    /// An entry of a table of contents is cut short, or its term is not UTF-8.
    CorruptIndex,
    /// An entry is larger than this machine can address.
    PlatformLimitExceeded,
    /// An entry was asked to move where none is pending.
    NoEntryToMove,
}

impl FingertipsErrorKind {
    /// What the kind of error means, in words.
    pub open spec fn spec_message(self) -> Seq<char> {
        match self {
            FingertipsErrorKind::Io => "a read ran past the end of an index file"@,
            FingertipsErrorKind::EmptyCorpus => "no documents were parsed or none contained any words"@,
            FingertipsErrorKind::CorruptIndex => "an entry of an index file is cut short or its term is not UTF-8"@,
            FingertipsErrorKind::PlatformLimitExceeded => "computer not big enough to hold index entry"@,
            FingertipsErrorKind::NoEntryToMove => "no entry to move"@,
        }
    }

    /// What the kind of error means, in words.
    pub fn message(&self) -> (text: &'static str)
        ensures
            text@ == self.spec_message(),
    {
        match self {
            FingertipsErrorKind::Io => "a read ran past the end of an index file",
            FingertipsErrorKind::EmptyCorpus => "no documents were parsed or none contained any words",
            FingertipsErrorKind::CorruptIndex => "an entry of an index file is cut short or its term is not UTF-8",
            FingertipsErrorKind::PlatformLimitExceeded => "computer not big enough to hold index entry",
            FingertipsErrorKind::NoEntryToMove => "no entry to move",
        }
    }
}

/// An error of the index build. It is opaque; `into_inner` gives its kind.
#[derive(Clone, Copy, Debug, PartialEq, Eq, Structural)]
pub struct FingertipsError(FingertipsErrorKind);

/// The result of an operation that can fail with a `FingertipsError`.
pub type FingertipsResult<T> = Result<T, FingertipsError>;

impl FingertipsError {
    /// The kind of this error.
    pub closed spec fn kind(self) -> FingertipsErrorKind {
        self.0
    }

    /// The error of the given kind.
    pub fn new(kind: FingertipsErrorKind) -> (err: FingertipsError)
        ensures
            err.kind() == kind,
    {
        FingertipsError(kind)
    }

    /// What the error means, in words.
    pub fn message(&self) -> (text: &'static str)
        ensures
            text@ == self.kind().spec_message(),
    {
        self.0.message()
    }

    /// The kind of this error, for matching.
    pub fn into_inner(self) -> (kind: FingertipsErrorKind)
        ensures
            kind == self.kind(),
    {
        self.0
    }
}

impl From<FingertipsErrorKind> for FingertipsError {
    fn from(kind: FingertipsErrorKind) -> (err: FingertipsError) {
        FingertipsError(kind)
    }
}

impl vstd::std_specs::convert::FromSpecImpl<FingertipsErrorKind> for FingertipsError {
    open spec fn obeys_from_spec() -> bool {
        true
    }

    closed spec fn from_spec(kind: FingertipsErrorKind) -> FingertipsError {
        FingertipsError(kind)
    }
}

/// The error that `from` makes of a kind has that kind.
pub broadcast proof fn lemma_from_kind(kind: FingertipsErrorKind)
    ensures
        (#[trigger] FingertipsError::from_spec(kind)).kind() == kind,
{
}

} // verus!

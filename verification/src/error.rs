//! The failures that the library reports.

use vstd::prelude::*;

verus! {

/// Why an operation failed.
#[derive(Clone, Copy, Debug, PartialEq, Eq, Structural)]
pub enum Error {
    /// No object is stored under the requested identity.
    ObjectMissing,
    /// An identity is not forty lowercase hexadecimal digits.
    InvalidIdentity,
    /// A stored object does not start with `<kind> <length>` and a NUL byte.
    MalformedObject,
    /// A zlib stream could not be inflated.
    CodecCorrupt,
    /// Data could not be deflated.
    CodecFailure,
    /// The input holds no `PACK` signature, or too few bytes for a pack header.
    BadPackHeader,
    /// The pack declares a version other than 2.
    UnsupportedVersion,
    /// The input ended in the middle of a value.
    TruncatedInput,
    /// A variable-length integer does not fit a 64-bit accumulator.
    IntegerOverflow,
    /// A pack record carries a kind code that the format does not define.
    UnknownKind,
    /// A pack record is an annotated tag.
    UnsupportedTag,
    /// The inflated length of a pack record is far from the declared one.
    SizeMismatch,
    /// A delta names a base by identity that the pack did not deliver.
    UnresolvedBase,
    /// A delta instruction starts with the reserved opcode zero.
    InvalidDeltaOpcode,
    /// A delta copies from outside its base.
    DeltaOutOfRange,
    /// A delta produced a length other than the one it declares.
    ResultSizeMismatch,
    /// The advertisement names no resolvable `HEAD`.
    NoHead,
    /// The remote reported a fatal error on the side band.
    RemoteFailure,
    /// Trees reach deeper than the store has objects.
    TreeTooDeep,
    /// The arguments of a command do not follow its usage.
    InvalidArguments,
}

/// The broad families into which failures fall.
#[derive(Clone, Copy, Debug, PartialEq, Eq, Structural)]
pub enum ErrorClass {
    Io,
    Protocol,
    CodecCorrupt,
    PackMalformed,
    UnresolvedBase,
    DeltaCorrupt,
    MalformedObject,
    Usage,
}

impl Error {
    /// The family of each failure.
    pub open spec fn class_of(self) -> ErrorClass {
        match self {
            Error::ObjectMissing => ErrorClass::Io,
            Error::InvalidIdentity => ErrorClass::Usage,
            Error::MalformedObject => ErrorClass::MalformedObject,
            Error::CodecCorrupt => ErrorClass::CodecCorrupt,
            Error::CodecFailure => ErrorClass::Io,
            Error::BadPackHeader => ErrorClass::PackMalformed,
            Error::UnsupportedVersion => ErrorClass::PackMalformed,
            Error::TruncatedInput => ErrorClass::PackMalformed,
            Error::IntegerOverflow => ErrorClass::PackMalformed,
            Error::UnknownKind => ErrorClass::PackMalformed,
            Error::UnsupportedTag => ErrorClass::PackMalformed,
            Error::SizeMismatch => ErrorClass::PackMalformed,
            Error::UnresolvedBase => ErrorClass::UnresolvedBase,
            Error::InvalidDeltaOpcode => ErrorClass::DeltaCorrupt,
            Error::DeltaOutOfRange => ErrorClass::DeltaCorrupt,
            Error::ResultSizeMismatch => ErrorClass::DeltaCorrupt,
            Error::NoHead => ErrorClass::Protocol,
            Error::RemoteFailure => ErrorClass::Protocol,
            Error::TreeTooDeep => ErrorClass::MalformedObject,
            Error::InvalidArguments => ErrorClass::Usage,
        }
    }

    /// Returns the family of this failure.
    pub fn class(&self) -> (c: ErrorClass)
        ensures
            c == self.class_of(),
    {
        match self {
            Error::ObjectMissing => ErrorClass::Io,
            Error::InvalidIdentity => ErrorClass::Usage,
            Error::MalformedObject => ErrorClass::MalformedObject,
            Error::CodecCorrupt => ErrorClass::CodecCorrupt,
            Error::CodecFailure => ErrorClass::Io,
            Error::BadPackHeader => ErrorClass::PackMalformed,
            Error::UnsupportedVersion => ErrorClass::PackMalformed,
            Error::TruncatedInput => ErrorClass::PackMalformed,
            Error::IntegerOverflow => ErrorClass::PackMalformed,
            Error::UnknownKind => ErrorClass::PackMalformed,
            Error::UnsupportedTag => ErrorClass::PackMalformed,
            Error::SizeMismatch => ErrorClass::PackMalformed,
            Error::UnresolvedBase => ErrorClass::UnresolvedBase,
            Error::InvalidDeltaOpcode => ErrorClass::DeltaCorrupt,
            Error::DeltaOutOfRange => ErrorClass::DeltaCorrupt,
            Error::ResultSizeMismatch => ErrorClass::DeltaCorrupt,
            Error::NoHead => ErrorClass::Protocol,
            Error::RemoteFailure => ErrorClass::Protocol,
            Error::TreeTooDeep => ErrorClass::MalformedObject,
            Error::InvalidArguments => ErrorClass::Usage,
        }
    }
}

} // verus!

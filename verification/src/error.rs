//! The error channel shared by every stage of the conversion pipeline.
//!
//! Heterogeneous failures (configuration, decoding, encoding) are unified
//! into one type so that the pipe and its callers never depend on which
//! encoding produced a failure.  Contracts speak of an error through its
//! [`ErrKind`], the view of a [`ConvError`].

use vstd::prelude::*;

verus! {

/// The kind of a failure, as contracts state it.
pub enum ErrKind {
    /// Neither an input name nor an explicit encoding was given.
    NoInput,
    /// No encoding could be derived from a file name or encoding name.
    UnknownType,
    /// The supplied options text was rejected.
    Config,
    /// A record was malformed or a value could not be coerced to its
    /// column's declared type.
    Decode,
    /// A batch could not be serialized to the destination encoding.
    Encode,
}

/// A failure of the conversion pipeline.  Every underlying failure is
/// mapped into one of these variants; none is silently suppressed.
#[derive(Debug)]
pub enum ConvError {
    NoInput,
    UnknownType,
    Config(String),
    Decode(String),
    Encode(String),
}

impl ConvError {
    /// The kind of this error, used throughout the contracts.
    pub open spec fn kind(&self) -> ErrKind {
        match self {
            ConvError::NoInput => ErrKind::NoInput,
            ConvError::UnknownType => ErrKind::UnknownType,
            ConvError::Config(_) => ErrKind::Config,
            ConvError::Decode(_) => ErrKind::Decode,
            ConvError::Encode(_) => ErrKind::Encode,
        }
    }

    /// A human-readable description of the failure.
    pub fn message(&self) -> (r: String)
        ensures
            match self {
                ConvError::Config(m) => r@ == m@,
                ConvError::Decode(m) => r@ == m@,
                ConvError::Encode(m) => r@ == m@,
                _ => true,
            },
    {
        match self {
            ConvError::NoInput => "no input and no type given".to_owned(),
            ConvError::UnknownType => "Could not infer type from given filename".to_owned(),
            ConvError::Config(m) => m.clone(),
            ConvError::Decode(m) => m.clone(),
            ConvError::Encode(m) => m.clone(),
        }
    }
}

} // verus!

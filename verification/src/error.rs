//! The error kinds a graph compilation or the surrounding system can
//! report.
//!
//! Errors from the initial load are fatal (there is nothing to play);
//! errors from a reload attempt are downgraded to warnings by the caller
//! and the previous graph keeps playing — an editing mistake while live
//! never stops sound.
use vstd::prelude::*;

verus! {

/// A compilation or system error. The compiler variants carry the exact
/// offending text so callers can surface it.
#[derive(Clone, Debug)]
pub enum HarmoniconError {
    /// The source text does not match the grammar (formatted message).
    SyntaxError(String),
    /// A value stood in a position expecting a different kind of
    /// initializer: expected, found.
    TypeError(String, String),
    /// A name reference did not resolve in the registry being built.
    UnknownBlock(String),
    /// An initializer key is not recognized for the block's variant:
    /// the key, and the variant's name.
    UnknownProperty(String, String),
    /// An explicit output name did not resolve.
    UnknownOutput(String),
    /// Reading the source file failed (formatted message).
    IO(String),
    /// The file-watch subsystem failed (formatted message).
    FSNotify(String),
}

/// The result type of everything that can fail with a
/// [`HarmoniconError`].
pub type HarmoniconResult<T> = Result<T, HarmoniconError>;

/// The mathematical model of an error: the same variants over character
/// sequences, used by the compiler's specification.
pub enum ErrModel {
    Syntax(Seq<char>),
    Type(Seq<char>, Seq<char>),
    UnknownBlock(Seq<char>),
    UnknownProperty(Seq<char>, Seq<char>),
    UnknownOutput(Seq<char>),
    Io(Seq<char>),
    Watch(Seq<char>),
}

impl View for HarmoniconError {
    type V = ErrModel;

    open spec fn view(&self) -> ErrModel {
        match self {
            HarmoniconError::SyntaxError(s) => ErrModel::Syntax(s@),
            HarmoniconError::TypeError(a, b) => ErrModel::Type(a@, b@),
            HarmoniconError::UnknownBlock(s) => ErrModel::UnknownBlock(s@),
            HarmoniconError::UnknownProperty(k, v) => ErrModel::UnknownProperty(k@, v@),
            HarmoniconError::UnknownOutput(s) => ErrModel::UnknownOutput(s@),
            HarmoniconError::IO(s) => ErrModel::Io(s@),
            HarmoniconError::FSNotify(s) => ErrModel::Watch(s@),
        }
    }
}

} // verus!

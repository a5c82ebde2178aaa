use vstd::prelude::*;

verus! {

/// The four kinds of object a repository stores.
#[derive(Debug, Clone, Copy, PartialEq, Eq, Structural)]
pub enum ObjectKind {
    Blob,
    Tree,
    Commit,
    Tag,
}

/// Everything that can go wrong while locating, decoding or walking objects.
#[derive(Debug, Clone, Copy, PartialEq, Eq, Structural)]
pub enum Error {
    /// No object with the requested identifier exists.
    NotFound,
    /// The object's storage could not be read.
    IoError,
    /// The compressed stream is invalid or truncated.
    CorruptZlib,
    /// The `<kind> <size>\0` header is missing, unknown, or disagrees with the payload.
    MalformedHeader,
    /// A tree payload holds an entry that cannot be decoded.
    MalformedTreeEntry,
    /// The object exists but is of another kind than the one asked for.
    WrongObjectKind { expected: ObjectKind, actual: ObjectKind },
    /// A path component other than the last names something that is not a tree.
    NotADirectory,
}

} // verus!

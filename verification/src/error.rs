//! Structured error types shared across the core engine. Each error renders
//! the same message text through `message`.
use crate::text::{decimal, push_decimal, string_from};
use vstd::prelude::*;

verus! {

/// Path-navigation failures within an AST.
#[derive(Debug, Clone, PartialEq, Eq)]
pub enum NavigateError {
    /// A key or index was not found on the target container.
    Missing(String),
    /// Navigation tried to descend into a scalar node.
    CannotDescend(String),
    /// The target node is not a mapping/sequence (cannot host children).
    NotContainer,
}

/// YAML parse failures, carrying source position where available.
#[derive(Debug, Clone, PartialEq)]
pub enum ParseError {
    /// Generic syntax error with a source position (0-indexed line/column).
    Syntax { message: String, line: usize, col: usize },
    /// Duplicate mapping key (when duplicate keys are not allowed).
    DuplicateKey(String),
    /// Recursion depth exceeded the configured maximum.
    MaxDepthExceeded(usize),
}

/// YAML serialization failures.
#[derive(Debug, Clone, PartialEq)]
pub enum SerializeError {
    /// Recursion depth exceeded the configured maximum.
    MaxDepthExceeded(usize),
    /// Internal invariant violation / unexpected state.
    Internal(&'static str),
}

/// Edit-path parsing failures.
#[derive(Debug, Clone, PartialEq)]
pub enum PathError {
    /// `*` wildcard or deep-scan selector is unsupported.
    WildcardOrDeepScan,
    /// Malformed `[index]` segment.
    InvalidIndex(String),
    /// Path could not be recognized.
    InvalidPath,
}

/// YAML document editing failures.
#[derive(Debug)]
pub enum EditError {
    /// Navigation missed a key.
    MissingPath(String),
    /// Navigation tried to descend into a scalar node.
    CannotDescendIntoScalar(String),
    /// Create-missing requires a mapping parent.
    CreateNeedsMapping,
    /// Editing an alias node is not allowed.
    CannotEditAlias,
    /// Target is not a sequence.
    NotASequence,
    /// Index out of range for the edit.
    IndexOutOfRange,
    /// Missing key on a mapping parent.
    MissingKey,
    /// Renaming the root node is not allowed.
    CannotRenameRoot,
    /// Renaming a complex (non-scalar) key is not allowed.
    CannotRenameComplexKey,
    /// Target key already exists.
    RenameKeyExists,
    /// Generic edit failure.
    Generic,
    /// Internal invariant violation / unexpected state.
    Internal(&'static str),
    /// Serialization failed while producing edit text.
    Serialize(SerializeError),
}

/// `prefix` followed by `detail`.
fn prefixed(prefix: &str, detail: &String) -> (res: String)
    ensures
        res@ == prefix@ + detail@,
{
    let mut s = string_from(prefix);
    s.append(detail.as_str());
    s
}

impl NavigateError {
    /// The message text of the error.
    pub open spec fn message_spec(self) -> Seq<char> {
        match self {
            NavigateError::Missing(s) => "missing-path:"@ + s@,
            NavigateError::CannotDescend(s) => "cannot-descend-into-scalar:"@ + s@,
            NavigateError::NotContainer => "create-needs-mapping"@,
        }
    }

    /// The message text of the error.
    pub fn message(&self) -> (res: String)
        ensures
            res@ == self.message_spec(),
    {
        match self {
            NavigateError::Missing(s) => prefixed("missing-path:", s),
            NavigateError::CannotDescend(s) => prefixed("cannot-descend-into-scalar:", s),
            NavigateError::NotContainer => string_from("create-needs-mapping"),
        }
    }
}

impl SerializeError {
    /// The message text of the error.
    pub open spec fn message_spec(self) -> Seq<char> {
        match self {
            SerializeError::MaxDepthExceeded(n) => "max depth exceeded (max="@ + decimal(n as nat)
                + ")"@,
            SerializeError::Internal(s) => "internal-error: "@ + s@,
        }
    }

    /// The message text of the error.
    pub fn message(&self) -> (res: String)
        ensures
            res@ == self.message_spec(),
    {
        match self {
            SerializeError::MaxDepthExceeded(n) => {
                let mut s = string_from("max depth exceeded (max=");
                push_decimal(&mut s, *n as u64);
                s.append(")");
                s
            },
            SerializeError::Internal(t) => {
                let mut s = string_from("internal-error: ");
                s.append(t);
                s
            },
        }
    }
}

impl PathError {
    /// The message text of the error.
    pub open spec fn message_spec(self) -> Seq<char> {
        match self {
            PathError::WildcardOrDeepScan => "wildcard-or-deep-scan"@,
            PathError::InvalidIndex(s) => "invalid-index:"@ + s@,
            PathError::InvalidPath => "invalid-path"@,
        }
    }

    /// The message text of the error.
    pub fn message(&self) -> (res: String)
        ensures
            res@ == self.message_spec(),
    {
        match self {
            PathError::WildcardOrDeepScan => string_from("wildcard-or-deep-scan"),
            PathError::InvalidIndex(s) => prefixed("invalid-index:", s),
            PathError::InvalidPath => string_from("invalid-path"),
        }
    }
}

impl EditError {
    /// The edit error a navigation failure turns into.
    pub open spec fn from_navigate_spec(e: NavigateError) -> EditError {
        match e {
            NavigateError::Missing(s) => EditError::MissingPath(s),
            NavigateError::CannotDescend(t) => EditError::CannotDescendIntoScalar(t),
            NavigateError::NotContainer => EditError::CreateNeedsMapping,
        }
    }

    /// Convert a navigation failure into the matching edit error.
    pub fn from_navigate(e: NavigateError) -> (res: EditError)
        ensures
            res == Self::from_navigate_spec(e),
    {
        match e {
            NavigateError::Missing(s) => EditError::MissingPath(s),
            NavigateError::CannotDescend(t) => EditError::CannotDescendIntoScalar(t),
            NavigateError::NotContainer => EditError::CreateNeedsMapping,
        }
    }

    /// The message text of the error.
    pub open spec fn message_spec(self) -> Seq<char> {
        match self {
            EditError::MissingPath(s) => "missing-path:"@ + s@,
            EditError::CannotDescendIntoScalar(s) => "cannot-descend-into-scalar:"@ + s@,
            EditError::CreateNeedsMapping => "create-needs-mapping"@,
            EditError::CannotEditAlias => "cannot-edit-alias"@,
            EditError::NotASequence => "not-a-sequence"@,
            EditError::IndexOutOfRange => "index-out-of-range-edit"@,
            EditError::MissingKey => "missing-path"@,
            EditError::CannotRenameRoot => "cannot-rename-root"@,
            EditError::CannotRenameComplexKey => "cannot-rename-complex-key"@,
            EditError::RenameKeyExists => "rename-key-exists"@,
            EditError::Generic => "edit-error"@,
            EditError::Internal(s) => "internal-error: "@ + s@,
            EditError::Serialize(e) => e.message_spec(),
        }
    }

    /// The message text of the error.
    pub fn message(&self) -> (res: String)
        ensures
            res@ == self.message_spec(),
    {
        match self {
            EditError::MissingPath(s) => prefixed("missing-path:", s),
            EditError::CannotDescendIntoScalar(s) => prefixed("cannot-descend-into-scalar:", s),
            EditError::CreateNeedsMapping => string_from("create-needs-mapping"),
            EditError::CannotEditAlias => string_from("cannot-edit-alias"),
            EditError::NotASequence => string_from("not-a-sequence"),
            EditError::IndexOutOfRange => string_from("index-out-of-range-edit"),
            EditError::MissingKey => string_from("missing-path"),
            EditError::CannotRenameRoot => string_from("cannot-rename-root"),
            EditError::CannotRenameComplexKey => string_from("cannot-rename-complex-key"),
            EditError::RenameKeyExists => string_from("rename-key-exists"),
            EditError::Generic => string_from("edit-error"),
            EditError::Internal(t) => {
                let mut s = string_from("internal-error: ");
                s.append(t);
                s
            },
            EditError::Serialize(e) => e.message(),
        }
    }
}

} // verus!

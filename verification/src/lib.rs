//! A patch-application engine for text-based configuration trees.
//!
//! Independently authored patch documents are ordered into passes, pruned of
//! what depends on undeclared mods, and applied one by one to a database of
//! configuration nodes.

use vstd::prelude::*;

pub mod config_node;
pub mod database;
pub mod document;
pub mod file;
pub mod key_patch;
pub mod module_manager;
pub mod node_patch;
pub mod operation;
pub mod pass;
pub mod patch_set;
pub mod raw_patch;
pub mod searcher;
pub mod text;

verus! {

/// Why a user's patch was refused.
#[derive(Clone, Copy, Debug, PartialEq, Eq, Structural)]
pub enum RuntimeError {
    CannotRenameNode,
    CannotCopyFromTopLevel,
    PatchInNonPatchNode,
}

/// An error raised while patches are extracted or evaluated.
#[derive(Clone, Debug, PartialEq)]
pub enum PatchingError {
    /// An invariant of the engine was violated.
    Internal(String),
    /// A patch of the file at `path` was refused.
    Runtime { path: String, kind: RuntimeError },
}

/// What an error says, with texts as character sequences.
pub enum ErrorModel {
    Internal(Seq<char>),
    Runtime { path: Seq<char>, kind: RuntimeError },
}

impl View for PatchingError {
    type V = ErrorModel;

    open spec fn view(&self) -> ErrorModel {
        match self {
            PatchingError::Internal(msg) => ErrorModel::Internal(msg@),
            PatchingError::Runtime { path, kind } => ErrorModel::Runtime { path: path@, kind: *kind },
        }
    }
}

/// What went wrong, without the words that report it.
pub enum Failure {
    Internal,
    Runtime(RuntimeError),
}

/// What went wrong and, where a patch was refused, in which file.
pub enum Fault {
    Internal,
    Runtime { path: Seq<char>, kind: RuntimeError },
}

impl ErrorModel {
    /// The kind of the error.
    pub open spec fn failure(self) -> Failure {
        match self {
            ErrorModel::Internal(_) => Failure::Internal,
            ErrorModel::Runtime { kind, .. } => Failure::Runtime(kind),
        }
    }

    /// The kind of the error, with the file that it is about.
    pub open spec fn fault(self) -> Fault {
        match self {
            ErrorModel::Internal(_) => Fault::Internal,
            ErrorModel::Runtime { path, kind } => Fault::Runtime { path, kind },
        }
    }
}

impl Failure {
    /// The failure as it is reported for the file at `path`.
    pub open spec fn at(self, path: Seq<char>) -> Fault {
        match self {
            Failure::Internal => Fault::Internal,
            Failure::Runtime(kind) => Fault::Runtime { path, kind },
        }
    }
}

impl RuntimeError {
    /// The sentence shown to the user for this kind of refusal.
    pub open spec fn message_text(self) -> Seq<char> {
        match self {
            RuntimeError::CannotRenameNode => "the rename operator `|` cannot be applied to a node"@,
            RuntimeError::CannotCopyFromTopLevel => "the copy-from operator `#` cannot be used at the top-level"@,
            RuntimeError::PatchInNonPatchNode => "a top-level insertion node cannot contain patches"@,
        }
    }

    pub fn message(&self) -> (r: String)
        ensures
            r@ == self.message_text(),
    {
        match self {
            RuntimeError::CannotRenameNode => "the rename operator `|` cannot be applied to a node".to_owned(),
            RuntimeError::CannotCopyFromTopLevel => "the copy-from operator `#` cannot be used at the top-level".to_owned(),
            RuntimeError::PatchInNonPatchNode => "a top-level insertion node cannot contain patches".to_owned(),
        }
    }
}

impl PatchingError {
    /// The sentence shown to the user for this error.
    pub open spec fn message_text(self) -> Seq<char> {
        match self {
            PatchingError::Internal(msg) => "the parser encountered an internal error: "@ + msg@,
            PatchingError::Runtime { path, kind } => "error when evaluating `"@ + path@ + "`: "@
                + kind.message_text(),
        }
    }

    pub fn message(&self) -> (r: String)
        ensures
            r@ == self.message_text(),
    {
        match self {
            PatchingError::Internal(msg) => {
                let mut out = "the parser encountered an internal error: ".to_owned();
                out.append(msg.as_str());
                out
            },
            PatchingError::Runtime { path, kind } => {
                let mut out = "error when evaluating `".to_owned();
                out.append(path.as_str());
                out.append("`: ");
                let detail = kind.message();
                out.append(detail.as_str());
                out
            },
        }
    }
}

/// Fails with an internal error that carries `msg`.
pub fn internal_error<T>(msg: &str) -> (r: Result<T, PatchingError>)
    ensures
        r matches Err(e) && e@ == ErrorModel::Internal(msg@),
{
    Err(PatchingError::Internal(msg.to_owned()))
}

/// Fails with a runtime error of the given kind for the file at `path`.
pub fn runtime_error<T>(kind: RuntimeError, path: &str) -> (r: Result<T, PatchingError>)
    ensures
        r matches Err(e) && e@ == (ErrorModel::Runtime { path: path@, kind }),
{
    Err(PatchingError::Runtime { path: path.to_owned(), kind })
}

} // verus!

//! The single error taxonomy of the library, and the result alias used by
//! every fallible operation.

use vstd::prelude::*;

verus! {

/// The result used in the whole library.
pub type RtResult<T> = Result<T, RtErr>;

/// The error taxonomy: every failure of the engine is one of these, each
/// carrying a human-readable context string.
#[derive(Clone, Debug)]
pub enum RtErr {
    /// Package metadata is malformed or misses a required key.
    BadMetadata { key: String, context: String },
    /// The external tag tool could not be spawned.
    ToolSpawn { context: String },
    /// The external tag tool exited with a failure status.
    ToolFailed { context: String },
    /// A filesystem operation failed.
    IoFailed { context: String },
    /// The configuration rejects itself.
    ConfigInvalid { context: String },
    /// Another process holds the lock of a source; never fatal.
    LockObserved { context: String },
    /// A dependency tag file is missing at merge time; never fatal.
    MissingSource { context: String },
    /// A cycle was noticed during a traversal; diagnostic only.
    CycleDetected { context: String },
}

impl RtErr {
    /// The context string carried by the error, prefixed with its kind.
    pub open spec fn spec_message(&self) -> Seq<char> {
        match self {
            RtErr::BadMetadata { key, context } => "bad metadata, missing or ill-typed '"@ + key@
                + "' in "@ + context@,
            RtErr::ToolSpawn { context } => "tag tool could not be spawned: "@ + context@,
            RtErr::ToolFailed { context } => "tag tool failed: "@ + context@,
            RtErr::IoFailed { context } => "filesystem operation failed: "@ + context@,
            RtErr::ConfigInvalid { context } => "invalid configuration: "@ + context@,
            RtErr::LockObserved { context } => "already being updated: "@ + context@,
            RtErr::MissingSource { context } => "missing dependency tags: "@ + context@,
            RtErr::CycleDetected { context } => "cyclic dependency: "@ + context@,
        }
    }

    /// Renders the error for the user; the replacement for a display impl.
    pub fn message(&self) -> (r: String)
        ensures
            r@ == self.spec_message(),
    {
        match self {
            RtErr::BadMetadata { key, context } => {
                let mut s = "bad metadata, missing or ill-typed '".to_owned();
                s.append(key.as_str());
                s.append("' in ");
                s.append(context.as_str());
                s
            },
            RtErr::ToolSpawn { context } => {
                let mut s = "tag tool could not be spawned: ".to_owned();
                s.append(context.as_str());
                s
            },
            RtErr::ToolFailed { context } => {
                let mut s = "tag tool failed: ".to_owned();
                s.append(context.as_str());
                s
            },
            RtErr::IoFailed { context } => {
                let mut s = "filesystem operation failed: ".to_owned();
                s.append(context.as_str());
                s
            },
            RtErr::ConfigInvalid { context } => {
                let mut s = "invalid configuration: ".to_owned();
                s.append(context.as_str());
                s
            },
            RtErr::LockObserved { context } => {
                let mut s = "already being updated: ".to_owned();
                s.append(context.as_str());
                s
            },
            RtErr::MissingSource { context } => {
                let mut s = "missing dependency tags: ".to_owned();
                s.append(context.as_str());
                s
            },
            RtErr::CycleDetected { context } => {
                let mut s = "cyclic dependency: ".to_owned();
                s.append(context.as_str());
                s
            },
        }
    }

    /// Whether the error aborts a run. Lock contention, a missing dependency
    /// tag file and a cycle diagnostic never do.
    pub fn is_fatal(&self) -> (r: bool)
        ensures
            r == !(self is LockObserved || self is MissingSource || self is CycleDetected),
    {
        match self {
            RtErr::LockObserved { .. } => false,
            RtErr::MissingSource { .. } => false,
            RtErr::CycleDetected { .. } => false,
            _ => true,
        }
    }
}

/// The result used by the vi tag-line utilities.
pub type AppResult<T> = Result<T, AppErr>;

/// The error used by the vi tag-line utilities.
#[derive(Clone, Debug)]
pub enum AppErr {
    /// A generic error message.
    Message(String),
}

impl AppErr {
    /// The message carried by the error.
    pub fn message(&self) -> (r: String)
        ensures
            r@ == self->0@,
    {
        match self {
            AppErr::Message(m) => m.clone(),
        }
    }
}

} // verus!

//! Failures with a stable category and diagnostic context.

use vstd::prelude::*;
use vstd::string::StringExecFns;

verus! {

/// Stable failure categories based on the caller's next action.
#[derive(Clone, Copy, Debug, PartialEq, Eq, Structural)]
pub enum ErrorKind {
    Invalid,
    NotFound,
    Unsupported,
    PermissionDenied,
    Conflict,
    Corrupt,
    Unavailable,
    Storage,
}

/// What a failure says: its category, the operation that failed and the message.
pub ghost struct Fault {
    pub kind: ErrorKind,
    pub operation: Seq<char>,
    pub message: Seq<char>,
}

/// The fault of an operation that was asked for something it does not accept.
pub open spec fn invalid(operation: &str, message: &str) -> Fault {
    Fault { kind: ErrorKind::Invalid, operation: operation@, message: message@ }
}

/// The fault of an operation that met damaged data.
pub open spec fn corrupt(operation: &str, message: &str) -> Fault {
    Fault { kind: ErrorKind::Corrupt, operation: operation@, message: message@ }
}

/// The fault of an operation that lost against a concurrent change.
pub open spec fn conflict(operation: &str, message: &str) -> Fault {
    Fault { kind: ErrorKind::Conflict, operation: operation@, message: message@ }
}

/// The fault of an operation that the storage or the format cannot perform.
pub open spec fn unsupported(operation: &str, message: &str) -> Fault {
    Fault { kind: ErrorKind::Unsupported, operation: operation@, message: message@ }
}

/// The fault of an operation whose object does not exist.
pub open spec fn not_found(operation: &str, message: &str) -> Fault {
    Fault { kind: ErrorKind::NotFound, operation: operation@, message: message@ }
}

/// A failure with a stable category and safe diagnostic context.
#[derive(Debug)]
pub struct Error {
    kind: ErrorKind,
    operation: String,
    message: String,
    context: Vec<(String, String)>,
    source: Option<String>,
}

impl Error {
    /// The category, operation and message of the failure.
    pub closed spec fn fault(&self) -> Fault {
        Fault { kind: self.kind, operation: self.operation@, message: self.message@ }
    }

    /// The context pairs in the order in which they were attached.
    pub closed spec fn pairs(&self) -> Seq<(Seq<char>, Seq<char>)> {
        pairs_view(self.context@)
    }

    /// The text of the underlying failure, if one was attached.
    pub closed spec fn cause(&self) -> Option<Seq<char>> {
        match self.source {
            Some(text) => Some(text@),
            None => None,
        }
    }

    pub fn new(kind: ErrorKind, operation: &str, message: &str) -> (error: Self)
        ensures
            error.fault() == (Fault { kind, operation: operation@, message: message@ }),
            error.pairs() == Seq::<(Seq<char>, Seq<char>)>::empty(),
            error.cause() is None,
    {
        let error = Error {
            kind,
            operation: operation.to_owned(),
            message: message.to_owned(),
            context: Vec::new(),
            source: None,
        };
        assert(error.pairs() =~= Seq::<(Seq<char>, Seq<char>)>::empty());
        error
    }

    pub fn kind(&self) -> (kind: ErrorKind)
        ensures
            kind == self.fault().kind,
    {
        self.kind
    }

    pub fn operation(&self) -> (operation: &str)
        ensures
            operation@ == self.fault().operation,
    {
        self.operation.as_str()
    }

    pub fn message(&self) -> (message: &str)
        ensures
            message@ == self.fault().message,
    {
        self.message.as_str()
    }

    /// The text of the underlying failure, if one was attached.
    pub fn source(&self) -> (source: Option<&str>)
        ensures
            match source {
                Some(text) => self.cause() == Some(text@),
                None => self.cause() is None,
            },
    {
        match &self.source {
            Some(text) => Some(text.as_str()),
            None => None,
        }
    }

    /// Attach one context pair after those already attached.
    pub fn with_context(self, key: &str, value: &str) -> (error: Self)
        ensures
            error.fault() == self.fault(),
            error.pairs() == self.pairs().push((key@, value@)),
            error.cause() == self.cause(),
    {
        let mut error = self;
        error.context.push((key.to_owned(), value.to_owned()));
        assert(error.pairs() =~= self.pairs().push((key@, value@)));
        error
    }

    /// Attach the text of the original failure without changing the stable kind.
    pub fn with_source(self, source: &str) -> (error: Self)
        ensures
            error.fault() == self.fault(),
            error.pairs() == self.pairs(),
            error.cause() == Some(source@),
    {
        let mut error = self;
        error.source = Some(source.to_owned());
        error
    }

    pub fn invalid(operation: &str, message: &str) -> (error: Self)
        ensures
            error.fault() == invalid(operation, message),
            error.pairs() == Seq::<(Seq<char>, Seq<char>)>::empty(),
            error.cause() is None,
    {
        Self::new(ErrorKind::Invalid, operation, message)
    }

    pub fn conflict(operation: &str, message: &str) -> (error: Self)
        ensures
            error.fault() == conflict(operation, message),
            error.pairs() == Seq::<(Seq<char>, Seq<char>)>::empty(),
            error.cause() is None,
    {
        Self::new(ErrorKind::Conflict, operation, message)
    }

    pub fn unsupported(operation: &str, message: &str) -> (error: Self)
        ensures
            error.fault() == unsupported(operation, message),
            error.pairs() == Seq::<(Seq<char>, Seq<char>)>::empty(),
            error.cause() is None,
    {
        Self::new(ErrorKind::Unsupported, operation, message)
    }

    pub fn corrupt(operation: &str, message: &str) -> (error: Self)
        ensures
            error.fault() == corrupt(operation, message),
            error.pairs() == Seq::<(Seq<char>, Seq<char>)>::empty(),
            error.cause() is None,
    {
        Self::new(ErrorKind::Corrupt, operation, message)
    }

    pub fn not_found(operation: &str, message: &str) -> (error: Self)
        ensures
            error.fault() == not_found(operation, message),
            error.pairs() == Seq::<(Seq<char>, Seq<char>)>::empty(),
            error.cause() is None,
    {
        Self::new(ErrorKind::NotFound, operation, message)
    }

    /// The failure as one line: the operation and the message, then the context
    /// pairs in brackets when there are any.
    pub fn to_text(&self) -> (text: String)
        ensures
            text@ == rendered(self.fault(), self.pairs()),
    {
        let mut text = self.operation.clone();
        text.append(": ");
        text.append(self.message.as_str());
        if self.context.len() == 0 {
            return text;
        }
        text.append(" (");
        let ghost head = text@;
        let mut index: usize = 0;
        while index < self.context.len()
            invariant
                index <= self.context@.len(),
                text@ == head + joined(self.pairs(), index as nat),
                self.pairs() == pairs_view(self.context@),
            decreases self.context@.len() - index,
        {
            if index != 0 {
                text.append(", ");
            }
            text.append(self.context[index].0.as_str());
            text.append(": ");
            text.append(self.context[index].1.as_str());
            index += 1;
            assert(text@ =~= head + joined(self.pairs(), index as nat));
        }
        text.append(")");
        assert(text@ =~= rendered(self.fault(), self.pairs()));
        text
    }
}

pub open spec fn pairs_view(context: Seq<(String, String)>) -> Seq<(Seq<char>, Seq<char>)> {
    Seq::new(context.len(), |i: int| (context[i].0@, context[i].1@))
}

/// The first `count` pairs as `key: value`, separated by commas.
pub open spec fn joined(pairs: Seq<(Seq<char>, Seq<char>)>, count: nat) -> Seq<char>
    decreases count,
{
    if count == 0 {
        Seq::empty()
    } else {
        let pair = pairs[count - 1];
        joined(pairs, (count - 1) as nat) + (if count == 1 {
            Seq::empty()
        } else {
            ", "@
        }) + pair.0 + ": "@ + pair.1
    }
}

/// The one-line text of a failure.
pub open spec fn rendered(fault: Fault, pairs: Seq<(Seq<char>, Seq<char>)>) -> Seq<char> {
    let head = fault.operation + ": "@ + fault.message;
    if pairs.len() == 0 {
        head
    } else {
        head + " ("@ + joined(pairs, pairs.len()) + ")"@
    }
}

/// How a local filesystem call failed, as far as the categories depend on it.
#[derive(Clone, Copy, Debug, PartialEq, Eq, Structural)]
pub enum LocalFailure {
    NotFound,
    PermissionDenied,
    AlreadyExists,
    Unsupported,
    Other,
}

/// How an object storage call failed, as far as the categories depend on it.
#[derive(Clone, Copy, Debug, PartialEq, Eq, Structural)]
pub enum StorageFailure {
    ConfigInvalid,
    Unsupported,
    NotFound,
    PermissionDenied,
    AlreadyExists,
    ConditionNotMatch,
    Other,
}

/// Whether a storage failure may go away by itself.
#[derive(Clone, Copy, Debug, PartialEq, Eq, Structural)]
pub enum StorageStatus {
    Temporary,
    Persistent,
    Permanent,
}

pub open spec fn local_kind(failure: LocalFailure) -> ErrorKind {
    match failure {
        LocalFailure::NotFound => ErrorKind::NotFound,
        LocalFailure::PermissionDenied => ErrorKind::PermissionDenied,
        LocalFailure::AlreadyExists => ErrorKind::Conflict,
        LocalFailure::Unsupported => ErrorKind::Unsupported,
        LocalFailure::Other => ErrorKind::Unavailable,
    }
}

pub open spec fn storage_kind(failure: StorageFailure) -> ErrorKind {
    match failure {
        StorageFailure::ConfigInvalid => ErrorKind::Invalid,
        StorageFailure::Unsupported => ErrorKind::Unsupported,
        StorageFailure::NotFound => ErrorKind::NotFound,
        StorageFailure::PermissionDenied => ErrorKind::PermissionDenied,
        StorageFailure::AlreadyExists | StorageFailure::ConditionNotMatch => ErrorKind::Conflict,
        StorageFailure::Other => ErrorKind::Unavailable,
    }
}

pub open spec fn storage_message(kind: ErrorKind) -> Seq<char> {
    match kind {
        ErrorKind::Invalid => "object storage configuration is invalid"@,
        ErrorKind::NotFound => "object storage entry does not exist"@,
        ErrorKind::Unsupported => "object storage operation is unsupported"@,
        ErrorKind::PermissionDenied => "object storage permission denied"@,
        ErrorKind::Conflict => "object storage condition changed"@,
        _ => "object storage is unavailable"@,
    }
}

pub open spec fn status_text(status: StorageStatus) -> Seq<char> {
    match status {
        StorageStatus::Temporary => "temporary"@,
        StorageStatus::Persistent => "persistent"@,
        StorageStatus::Permanent => "permanent"@,
    }
}

/// The failure that stands for a failed local filesystem call.
pub fn from_io(
    operation: &str,
    path: Option<&str>,
    failure: LocalFailure,
    source: &str,
) -> (error: Error)
    ensures
        error.fault() == (Fault {
            kind: local_kind(failure),
            operation: operation@,
            message: "local filesystem operation failed"@,
        }),
        error.pairs() == (match path {
            Some(path) => seq![("path"@, path@)],
            None => Seq::empty(),
        }),
        error.cause() == Some(source@),
{
    let kind = match failure {
        LocalFailure::NotFound => ErrorKind::NotFound,
        LocalFailure::PermissionDenied => ErrorKind::PermissionDenied,
        LocalFailure::AlreadyExists => ErrorKind::Conflict,
        LocalFailure::Unsupported => ErrorKind::Unsupported,
        LocalFailure::Other => ErrorKind::Unavailable,
    };
    let mut error = Error::new(kind, operation, "local filesystem operation failed");
    if let Some(path) = path {
        error = error.with_context("path", path);
    }
    error.with_source(source)
}

/// The failure that stands for a failed object storage call.
pub fn from_storage(
    operation: &str,
    failure: StorageFailure,
    kind_text: &str,
    status: StorageStatus,
    source: &str,
) -> (error: Error)
    ensures
        error.fault() == (Fault {
            kind: storage_kind(failure),
            operation: operation@,
            message: storage_message(storage_kind(failure)),
        }),
        error.pairs() == seq![
            ("storage_kind"@, kind_text@),
            ("storage_status"@, status_text(status)),
        ],
        error.cause() == Some(source@),
{
    let kind = match failure {
        StorageFailure::ConfigInvalid => ErrorKind::Invalid,
        StorageFailure::Unsupported => ErrorKind::Unsupported,
        StorageFailure::NotFound => ErrorKind::NotFound,
        StorageFailure::PermissionDenied => ErrorKind::PermissionDenied,
        StorageFailure::AlreadyExists => ErrorKind::Conflict,
        StorageFailure::ConditionNotMatch => ErrorKind::Conflict,
        StorageFailure::Other => ErrorKind::Unavailable,
    };
    let message: &str = match kind {
        ErrorKind::Invalid => "object storage configuration is invalid",
        ErrorKind::NotFound => "object storage entry does not exist",
        ErrorKind::Unsupported => "object storage operation is unsupported",
        ErrorKind::PermissionDenied => "object storage permission denied",
        ErrorKind::Conflict => "object storage condition changed",
        _ => "object storage is unavailable",
    };
    let status: &str = match status {
        StorageStatus::Temporary => "temporary",
        StorageStatus::Persistent => "persistent",
        StorageStatus::Permanent => "permanent",
    };
    Error::new(kind, operation, message).with_context("storage_kind", kind_text).with_context(
        "storage_status",
        status,
    ).with_source(source)
}

/// Only a lost race of storage is a conflict, and only where nothing more is known is storage or
/// the local filesystem unavailable; each failure that has a kind of its own keeps it.
pub proof fn failures_keep_their_kind(
    operation: &str,
    failure: StorageFailure,
    kind_text: &str,
    status: StorageStatus,
    source: &str,
    stored: Error,
    path: Option<&str>,
    local_failure: LocalFailure,
    local: Error,
)
    requires
        call_ensures(from_storage, (operation, failure, kind_text, status, source), stored),
        call_ensures(from_io, (operation, path, local_failure, source), local),
    ensures
        stored.fault().operation == operation@,
        stored.cause() == Some(source@),
        stored.fault().kind is Conflict <==> failure is AlreadyExists || failure is ConditionNotMatch,
        stored.fault().kind is NotFound <==> failure is NotFound,
        stored.fault().kind is PermissionDenied <==> failure is PermissionDenied,
        stored.fault().kind is Unsupported <==> failure is Unsupported,
        stored.fault().kind is Invalid <==> failure is ConfigInvalid,
        stored.fault().kind is Unavailable <==> failure is Other,
        local.fault().operation == operation@,
        local.cause() == Some(source@),
        local.fault().kind is NotFound <==> local_failure is NotFound,
        local.fault().kind is PermissionDenied <==> local_failure is PermissionDenied,
        local.fault().kind is Conflict <==> local_failure is AlreadyExists,
        local.fault().kind is Unsupported <==> local_failure is Unsupported,
        local.fault().kind is Unavailable <==> local_failure is Other,
        path is Some ==> local.pairs().len() == 1 && local.pairs()[0] == ("path"@, path->0@),
        path is None ==> local.pairs().len() == 0,
{
}

} // verus!

//! Errors of requests to webhook sources, and the HTTP status with which
//! each is answered.

use crate::index::GlobalId;
use vstd::prelude::*;
use vstd::string::*;

verus! {

/// What the adapter can answer to a request to append to a webhook source,
/// as far as the answer to the client depends on it.
#[derive(Debug)]
pub enum AdapterError {
    /// The feature is not supported.
    Unsupported(&'static str),
    /// There is no webhook source of this name.
    UnknownWebhookSource { database: String, schema: String, name: String },
    /// The adapter failed in some other way.
    Internal(String),
}

/// What the storage layer can answer to an append, as far as the answer to
/// the client depends on it.
#[derive(Debug)]
pub enum StorageError {
    /// The collection does not exist.
    IdentifierMissing(GlobalId),
    /// The collection cannot be written to.
    IdentifierInvalid(GlobalId),
    /// A resource ran out.
    ResourceExhausted(&'static str),
    /// The storage layer failed in some other way.
    Generic(String),
}

/// Why the validation of a request could not be carried out.
#[derive(Clone, Copy, PartialEq, Eq, Structural, Debug)]
pub enum AppendWebhookError {
    MissingSecret,
    ValidationError,
    NonUtf8Body,
    InternalError,
}

/// The types in which the body of a request can be stored.
#[derive(Clone, Copy, PartialEq, Eq, Structural, Debug)]
pub enum BodyType {
    Bytes,
    String,
    Jsonb,
}

/// Errors we can encounter when appending data to a webhook source.
///
/// Data is pushed to webhook sources, and each error has to be answered with
/// an HTTP status; so these errors are a kind of their own.
#[derive(Debug)]
pub enum WebhookError {
    /// No object was found at the path.
    NotFound(String),
    /// The required auth could not be found.
    SecretMissing,
    /// The feature is currently unsupported.
    Unsupported(&'static str),
    /// The headers of the request were invalid.
    InvalidHeaders(String),
    /// The body could not be read as the type of the source.
    InvalidBody { ty: BodyType, msg: String },
    /// The request did not pass validation.
    ValidationFailed,
    /// An error occurred while running validation.
    ValidationError,
    /// The storage layer failed.
    InternalStorageError(StorageError),
    /// The adapter failed.
    InternalAdapterError(AdapterError),
    /// Something else failed.
    Internal(String),
}

/// The HTTP status "bad request".
pub const BAD_REQUEST: u16 = 400;

/// The HTTP status "unauthorized".
pub const UNAUTHORIZED: u16 = 401;

/// The HTTP status "not found".
pub const NOT_FOUND: u16 = 404;

/// The HTTP status "too many requests".
pub const TOO_MANY_REQUESTS: u16 = 429;

/// The HTTP status "internal server error".
pub const INTERNAL_SERVER_ERROR: u16 = 500;

/// The path of a webhook source as it is shown to the client.
pub open spec fn quoted_path(database: Seq<char>, schema: Seq<char>, name: Seq<char>) -> Seq<char> {
    "'"@ + database + "."@ + schema + "."@ + name + "'"@
}

impl WebhookError {
    /// The status with which the error is answered.
    pub open spec fn status(self) -> u16 {
        match self {
            WebhookError::NotFound(_) => NOT_FOUND,
            WebhookError::SecretMissing => NOT_FOUND,
            WebhookError::Unsupported(_) => BAD_REQUEST,
            WebhookError::InvalidBody { .. } => BAD_REQUEST,
            WebhookError::ValidationFailed => BAD_REQUEST,
            WebhookError::ValidationError => BAD_REQUEST,
            WebhookError::InvalidHeaders(_) => UNAUTHORIZED,
            WebhookError::InternalStorageError(StorageError::ResourceExhausted(_)) =>
                TOO_MANY_REQUESTS,
            WebhookError::InternalStorageError(_) => INTERNAL_SERVER_ERROR,
            WebhookError::InternalAdapterError(_) => INTERNAL_SERVER_ERROR,
            WebhookError::Internal(_) => INTERNAL_SERVER_ERROR,
        }
    }

    /// The HTTP status with which the error is answered: 404 where the
    /// source or its secret is missing, 400 for a request that cannot be
    /// served, 401 for invalid headers, 429 where a resource ran out, and
    /// 500 for every other failure.
    pub fn status_code(&self) -> (r: u16)
        ensures
            r == self.status(),
    {
        match self {
            WebhookError::NotFound(_) => NOT_FOUND,
            WebhookError::SecretMissing => NOT_FOUND,
            WebhookError::Unsupported(_) => BAD_REQUEST,
            WebhookError::InvalidBody { .. } => BAD_REQUEST,
            WebhookError::ValidationFailed => BAD_REQUEST,
            WebhookError::ValidationError => BAD_REQUEST,
            WebhookError::InvalidHeaders(_) => UNAUTHORIZED,
            WebhookError::InternalStorageError(e) => match e {
                StorageError::ResourceExhausted(_) => TOO_MANY_REQUESTS,
                _ => INTERNAL_SERVER_ERROR,
            },
            WebhookError::InternalAdapterError(_) => INTERNAL_SERVER_ERROR,
            WebhookError::Internal(_) => INTERNAL_SERVER_ERROR,
        }
    }

    /// The error for a failure of the storage layer: a collection that is
    /// missing or cannot be written to is reported as not found.
    pub fn from_storage_error(err: StorageError) -> (r: WebhookError)
        ensures
            match err {
                StorageError::IdentifierMissing(id) => r matches WebhookError::NotFound(path)
                    && path@ == id.text(),
                StorageError::IdentifierInvalid(id) => r matches WebhookError::NotFound(path)
                    && path@ == id.text(),
                _ => r == WebhookError::InternalStorageError(err),
            },
    {
        match err {
            StorageError::IdentifierMissing(id) => WebhookError::NotFound(id.to_string()),
            StorageError::IdentifierInvalid(id) => WebhookError::NotFound(id.to_string()),
            e => WebhookError::InternalStorageError(e),
        }
    }

    /// The error for a failure of the adapter: an unknown source is
    /// reported as not found, under its quoted path.
    pub fn from_adapter_error(err: AdapterError) -> (r: WebhookError)
        ensures
            match err {
                AdapterError::Unsupported(feature) => r == WebhookError::Unsupported(feature),
                AdapterError::UnknownWebhookSource { database, schema, name } => r matches WebhookError::NotFound(
                    path,
                ) && path@ == quoted_path(database@, schema@, name@),
                _ => r == WebhookError::InternalAdapterError(err),
            },
    {
        match err {
            AdapterError::Unsupported(feature) => WebhookError::Unsupported(feature),
            AdapterError::UnknownWebhookSource { database, schema, name } => {
                let mut path = String::from_str("'");
                path.append(database.as_str());
                path.append(".");
                path.append(schema.as_str());
                path.append(".");
                path.append(name.as_str());
                path.append("'");
                WebhookError::NotFound(path)
            },
            e => WebhookError::InternalAdapterError(e),
        }
    }

    /// The error for a validation that could not be carried out.
    pub fn from_append_error(err: AppendWebhookError) -> (r: WebhookError)
        ensures
            match err {
                AppendWebhookError::MissingSecret => r == WebhookError::SecretMissing,
                AppendWebhookError::ValidationError => r == WebhookError::ValidationError,
                AppendWebhookError::NonUtf8Body => r matches WebhookError::InvalidBody { ty, msg }
                    && ty == BodyType::String && msg@ == "invalid"@,
                AppendWebhookError::InternalError => r matches WebhookError::Internal(msg) && msg@
                    == "failed to run validation"@,
            },
    {
        match err {
            AppendWebhookError::MissingSecret => WebhookError::SecretMissing,
            AppendWebhookError::ValidationError => WebhookError::ValidationError,
            AppendWebhookError::NonUtf8Body => WebhookError::InvalidBody {
                ty: BodyType::String,
                msg: String::from_str("invalid"),
            },
            AppendWebhookError::InternalError => WebhookError::Internal(
                String::from_str("failed to run validation"),
            ),
        }
    }
}

/// The header that is given more than once among `names`, if there is one:
/// the first name that repeats an earlier one.
pub fn repeated_header(names: &Vec<String>) -> (r: Option<usize>)
    ensures
        match r {
            Some(i) => {
                &&& i < names.len()
                &&& exists|j: int| 0 <= j < i && names[j]@ == names[i as int]@
                &&& forall|a: int, b: int| 0 <= a < b < i ==> names[a]@ != names[b]@
            },
            None => forall|a: int, b: int| 0 <= a < b < names.len() ==> names[a]@ != names[b]@,
        },
{
    let mut i: usize = 0;
    while i < names.len()
        invariant
            i <= names.len(),
            forall|a: int, b: int| 0 <= a < b < i ==> names[a]@ != names[b]@,
        decreases names.len() - i,
    {
        let mut j: usize = 0;
        while j < i
            invariant
                j <= i,
                i < names.len(),
                forall|a: int, b: int| 0 <= a < b < i ==> names[a]@ != names[b]@,
                forall|a: int| 0 <= a < j ==> names[a]@ != names[i as int]@,
            decreases i - j,
        {
            if names[j] == names[i] {
                assert(names[j as int]@ == names[i as int]@);
                return Some(i);
            }
            j += 1;
        }
        i += 1;
    }
    None
}

} // verus!

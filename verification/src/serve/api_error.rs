//! HTTP-facing errors.
//!
//! | Variant              | Status | Notes                                              |
//! |----------------------|--------|----------------------------------------------------|
//! | `BadRequest`         | 400    | The id is not of the shape `[a-zA-Z0-9_-]{1,64}`.  |
//! | `NotFound`           | 404    | `.idx` missing, or segment past the segment count. |
//! | `ServiceUnavailable` | 503    | Admission permit timeout. Sets `Retry-After: 1`.   |
//! | `Internal`           | 500    | Source MP4 missing / `.idx` malformed / I/O error. |
//!
//! Bodies are generic: paths, file-system layout and error detail go to the
//! server log only.

use vstd::prelude::*;
use vstd::string::StringExecFns;

use crate::error::{io_error_text, packager_text, IoError, PackagerError};

verus! {

/// Why a request is not answered with a resource.
#[derive(Debug)]
pub enum ApiError {
    /// The id is malformed. The reason is for logs.
    BadRequest(&'static str),
    /// There is no such archive or segment.
    NotFound,
    /// The wait for an admission permit timed out.
    ServiceUnavailable,
    /// A condition that the client cannot fix, with a text for the log.
    Internal(String),
}

/// What an error says.
pub ghost enum ApiModel {
    BadRequest(&'static str),
    NotFound,
    ServiceUnavailable,
    Internal(Seq<char>),
}

impl View for ApiError {
    type V = ApiModel;

    open spec fn view(&self) -> ApiModel {
        match self {
            ApiError::BadRequest(reason) => ApiModel::BadRequest(reason),
            ApiError::NotFound => ApiModel::NotFound,
            ApiError::ServiceUnavailable => ApiModel::ServiceUnavailable,
            ApiError::Internal(text) => ApiModel::Internal(text@),
        }
    }
}

/// What a result says, its error by its view.
pub open spec fn api_result<T>(r: Result<T, ApiError>) -> Result<T, ApiModel> {
    match r {
        Ok(v) => Ok(v),
        Err(e) => Err(e@),
    }
}

/// The status line, the headers and the body of an error reply.
#[derive(Debug, Clone, Copy)]
pub struct ErrorReply {
    pub status: u16,
    /// Value of the `Retry-After` header, if it is set.
    pub retry_after: Option<&'static str>,
    pub body: &'static str,
}

/// The reply to each kind of error.
pub open spec fn reply_for(e: ApiModel) -> ErrorReply {
    match e {
        ApiModel::BadRequest(_) => ErrorReply {
            status: 400,
            retry_after: None,
            body: "bad request",
        },
        ApiModel::NotFound => ErrorReply { status: 404, retry_after: None, body: "not found" },
        ApiModel::ServiceUnavailable => ErrorReply {
            status: 503,
            retry_after: Some("1"),
            body: "service unavailable",
        },
        ApiModel::Internal(_) => ErrorReply {
            status: 500,
            retry_after: None,
            body: "internal server error",
        },
    }
}

/// An error as text.
pub open spec fn api_text(e: ApiModel) -> Seq<char> {
    match e {
        ApiModel::BadRequest(reason) => "bad request: "@ + reason@,
        ApiModel::NotFound => "not found"@,
        ApiModel::ServiceUnavailable => "service unavailable"@,
        ApiModel::Internal(text) => "internal error: "@ + text,
    }
}

/// The log text of an I/O failure.
pub open spec fn io_log(action: Seq<char>, path: Seq<char>, err: Seq<char>) -> Seq<char> {
    action + " "@ + path + ": "@ + err
}

/// The log text of a packager error.
pub open spec fn packager_log(action: Seq<char>, id: Seq<char>, err: Seq<char>) -> Seq<char> {
    action + " for `"@ + id + "`: "@ + err
}

impl ApiError {
    /// An internal error for an I/O failure with the given text.
    pub fn internal_io_text(action: &str, path: &str, err: &str) -> (r: ApiError)
        ensures
            r@ == ApiModel::Internal(io_log(action@, path@, err@)),
    {
        let mut text: String = String::new();
        text.append(action);
        text.append(" ");
        text.append(path);
        text.append(": ");
        text.append(err);
        assert(text@ =~= io_log(action@, path@, err@));
        ApiError::Internal(text)
    }

    /// An internal error for an I/O failure.
    pub fn internal_io(action: &str, path: &str, err: std::io::Error) -> (r: ApiError)
        ensures
            exists|text: Seq<char>|
                r@ == ApiModel::Internal(#[trigger] io_log(action@, path@, text)),
    {
        let text: String = io_error_text(&err);
        ApiError::internal_io_text(action, path, text.as_str())
    }

    /// An internal error for a packager error.
    pub fn internal_packager(action: &str, id: &str, err: PackagerError) -> (r: ApiError)
        ensures
            exists|source: Seq<char>|
                r@ == ApiModel::Internal(
                    packager_log(action@, id@, #[trigger] packager_text(err, source)),
                ),
            !(err matches PackagerError::Io(IoError::Source(_))) ==> r@ == ApiModel::Internal(
                packager_log(action@, id@, packager_text(err, Seq::empty())),
            ),
    {
        let message: String = err.message();
        let mut text: String = String::new();
        text.append(action);
        text.append(" for `");
        text.append(id);
        text.append("`: ");
        text.append(message.as_str());
        assert(text@ =~= packager_log(action@, id@, message@));
        ApiError::Internal(text)
    }

    /// The reply to the client. It does not depend on the detail that an
    /// error carries.
    pub fn reply(&self) -> (r: ErrorReply)
        ensures
            r == reply_for(self@),
    {
        match self {
            ApiError::BadRequest(_) => ErrorReply {
                status: 400,
                retry_after: None,
                body: "bad request",
            },
            ApiError::NotFound => ErrorReply { status: 404, retry_after: None, body: "not found" },
            ApiError::ServiceUnavailable => ErrorReply {
                status: 503,
                retry_after: Some("1"),
                body: "service unavailable",
            },
            ApiError::Internal(_) => ErrorReply {
                status: 500,
                retry_after: None,
                body: "internal server error",
            },
        }
    }

    /// The line for the server log, if the error has detail that the reply
    /// withholds.
    pub fn log_line(&self) -> (r: Option<String>)
        ensures
            match self@ {
                ApiModel::Internal(text) => r matches Some(line) && line@ == "error: "@ + text,
                _ => r is None,
            },
    {
        match self {
            ApiError::Internal(text) => {
                let mut line: String = String::new();
                line.append("error: ");
                line.append(text.as_str());
                assert(line@ =~= "error: "@ + text@);
                Some(line)
            },
            _ => None,
        }
    }

    /// The error as text.
    pub fn message(&self) -> (r: String)
        ensures
            r@ == api_text(self@),
    {
        let mut text: String = String::new();
        match self {
            ApiError::BadRequest(reason) => {
                text.append("bad request: ");
                text.append(reason);
            },
            ApiError::NotFound => text.append("not found"),
            ApiError::ServiceUnavailable => text.append("service unavailable"),
            ApiError::Internal(detail) => {
                text.append("internal error: ");
                text.append(detail.as_str());
            },
        }
        assert(text@ =~= api_text(self@));
        text
    }
}

/// Internal detail never reaches the client: two internal errors get the same
/// reply, whatever they carry.
pub proof fn law_internal_detail_is_withheld(a: Seq<char>, b: Seq<char>)
    ensures
        reply_for(ApiModel::Internal(a)) == reply_for(ApiModel::Internal(b)),
{
}

} // verus!

//! The error model: five kinds of failure, each with a stable code for
//! machine consumers, and the JSON-ready error record built from one.

use vstd::prelude::*;
use vstd::string::StringExecFns;

verus! {

/// A failure of the retriever, with its message.
#[derive(Debug)]
pub enum AppError {
    IndexNotFound(String),
    InvalidInput(String),
    Embedding(String),
    Storage(String),
    /// An unexpected failure; holds the message of the underlying error.
    Internal(String),
}

/// The plain value of an error.
pub enum ErrorView {
    IndexNotFound(Seq<char>),
    InvalidInput(Seq<char>),
    Embedding(Seq<char>),
    Storage(Seq<char>),
    Internal(Seq<char>),
}

impl View for AppError {
    type V = ErrorView;

    open spec fn view(&self) -> ErrorView {
        match self {
            AppError::IndexNotFound(m) => ErrorView::IndexNotFound(m@),
            AppError::InvalidInput(m) => ErrorView::InvalidInput(m@),
            AppError::Embedding(m) => ErrorView::Embedding(m@),
            AppError::Storage(m) => ErrorView::Storage(m@),
            AppError::Internal(m) => ErrorView::Internal(m@),
        }
    }
}

/// `r` is the error `e`.
pub open spec fn fails_with<T>(r: Result<T, AppError>, e: ErrorView) -> bool {
    match r {
        Err(x) => x@ == e,
        Ok(_) => false,
    }
}

/// The stable code of each kind of error.
pub open spec fn code_of(e: ErrorView) -> Seq<char> {
    match e {
        ErrorView::IndexNotFound(_) => "INDEX_NOT_FOUND"@,
        ErrorView::InvalidInput(_) => "INVALID_INPUT"@,
        ErrorView::Embedding(_) => "EMBEDDING_ERROR"@,
        ErrorView::Storage(_) => "STORAGE_ERROR"@,
        ErrorView::Internal(_) => "INTERNAL_ERROR"@,
    }
}

/// The message an error displays.
pub open spec fn message_of(e: ErrorView) -> Seq<char> {
    match e {
        ErrorView::IndexNotFound(m) => m,
        ErrorView::InvalidInput(m) => m,
        ErrorView::Embedding(m) => m,
        ErrorView::Storage(m) => m,
        ErrorView::Internal(m) => m,
    }
}

/// Law: the five kinds of error have five different codes, so a consumer
/// can tell the kind from the code alone.
pub proof fn law_error_codes_distinct(a: ErrorView, b: ErrorView)
    requires
        code_of(a) == code_of(b),
    ensures
        (a is IndexNotFound && b is IndexNotFound) || (a is InvalidInput && b is InvalidInput) || (
        a is Embedding && b is Embedding) || (a is Storage && b is Storage) || (a is Internal
            && b is Internal),
{
    reveal_strlit("INDEX_NOT_FOUND");
    reveal_strlit("INVALID_INPUT");
    reveal_strlit("EMBEDDING_ERROR");
    reveal_strlit("STORAGE_ERROR");
    reveal_strlit("INTERNAL_ERROR");
    assert("INDEX_NOT_FOUND"@[2] != "INVALID_INPUT"@[2]);
    assert("EMBEDDING_ERROR"@.len() != "INTERNAL_ERROR"@.len());
}

impl AppError {
    /// An invalid-input error with this message.
    pub fn invalid_input(msg: &str) -> (e: Self)
        ensures
            e@ == ErrorView::InvalidInput(msg@),
    {
        AppError::InvalidInput(String::from_str(msg))
    }

    /// An index-not-found error with this message.
    pub fn index_not_found(msg: &str) -> (e: Self)
        ensures
            e@ == ErrorView::IndexNotFound(msg@),
    {
        AppError::IndexNotFound(String::from_str(msg))
    }

    /// An embedding error with this message.
    pub fn embedding(msg: &str) -> (e: Self)
        ensures
            e@ == ErrorView::Embedding(msg@),
    {
        AppError::Embedding(String::from_str(msg))
    }

    /// A storage error with this message.
    pub fn storage(msg: &str) -> (e: Self)
        ensures
            e@ == ErrorView::Storage(msg@),
    {
        AppError::Storage(String::from_str(msg))
    }

    /// An internal error carrying the message of the underlying error.
    pub fn internal(msg: &str) -> (e: Self)
        ensures
            e@ == ErrorView::Internal(msg@),
    {
        AppError::Internal(String::from_str(msg))
    }

    /// The stable code of this error.
    pub fn code(&self) -> (c: &'static str)
        ensures
            c@ == code_of(self@),
    {
        match self {
            AppError::IndexNotFound(_) => "INDEX_NOT_FOUND",
            AppError::InvalidInput(_) => "INVALID_INPUT",
            AppError::Embedding(_) => "EMBEDDING_ERROR",
            AppError::Storage(_) => "STORAGE_ERROR",
            AppError::Internal(_) => "INTERNAL_ERROR",
        }
    }

    /// The message this error displays.
    pub fn message(&self) -> (m: String)
        ensures
            m@ == message_of(self@),
    {
        match self {
            AppError::IndexNotFound(m) => m.clone(),
            AppError::InvalidInput(m) => m.clone(),
            AppError::Embedding(m) => m.clone(),
            AppError::Storage(m) => m.clone(),
            AppError::Internal(m) => m.clone(),
        }
    }
}

/// The error record printed for a failed command.
#[derive(Debug)]
pub struct ErrorOutput {
    pub status: String,
    pub error_code: String,
    pub message: String,
}

impl ErrorOutput {
    /// The record of an error: status `"error"`, its code and its message.
    pub fn from_app_error(error: &AppError) -> (out: Self)
        ensures
            out.status@ == "error"@,
            out.error_code@ == code_of(error@),
            out.message@ == message_of(error@),
    {
        ErrorOutput {
            status: String::from_str("error"),
            error_code: String::from_str(error.code()),
            message: error.message(),
        }
    }
}

} // verus!

//! Errors.

use vstd::prelude::*;

use crate::format::{format_message, FormatError, FormatErrorView};
use crate::text::{debug_string, debug_text, decimal, push_decimal};

verus! {

/// Why a query cannot be parsed. Offsets are bytes of the query.
#[derive(Debug, PartialEq, Eq)]
pub enum QueryError {
    Empty,
    Unexpected { found: String, at: usize },
    UnterminatedPhrase { at: usize },
    UnbalancedParen { at: usize },
    OnlyNegation,
}

/// A [`QueryError`] by value.
pub ghost enum QueryErrorView {
    Empty,
    Unexpected { found: Seq<char>, at: nat },
    UnterminatedPhrase { at: nat },
    UnbalancedParen { at: nat },
    OnlyNegation,
}

impl View for QueryError {
    type V = QueryErrorView;

    open spec fn view(&self) -> QueryErrorView {
        match self {
            QueryError::Empty => QueryErrorView::Empty,
            QueryError::Unexpected { found, at } => QueryErrorView::Unexpected {
                found: found@,
                at: *at as nat,
            },
            QueryError::UnterminatedPhrase { at } => QueryErrorView::UnterminatedPhrase {
                at: *at as nat,
            },
            QueryError::UnbalancedParen { at } => QueryErrorView::UnbalancedParen {
                at: *at as nat,
            },
            QueryError::OnlyNegation => QueryErrorView::OnlyNegation,
        }
    }
}

impl Clone for QueryError {
    fn clone(&self) -> (r: Self)
        ensures
            r@ == self@,
    {
        match self {
            QueryError::Empty => QueryError::Empty,
            QueryError::Unexpected { found, at } => QueryError::Unexpected {
                found: found.clone(),
                at: *at,
            },
            QueryError::UnterminatedPhrase { at } => QueryError::UnterminatedPhrase { at: *at },
            QueryError::UnbalancedParen { at } => QueryError::UnbalancedParen { at: *at },
            QueryError::OnlyNegation => QueryError::OnlyNegation,
        }
    }
}

/// What is told of a query error.
pub open spec fn query_message(e: QueryErrorView) -> Seq<char> {
    match e {
        QueryErrorView::Empty => "empty query"@,
        QueryErrorView::Unexpected { found, at } => "unexpected "@ + debug_text(found)
            + " at byte "@ + decimal(at),
        QueryErrorView::UnterminatedPhrase { at } => "unterminated phrase starting at byte "@
            + decimal(at),
        QueryErrorView::UnbalancedParen { at } => "unbalanced parenthesis at byte "@ + decimal(at),
        QueryErrorView::OnlyNegation =>
            "negation needs a positive term to subtract from (e.g. `foo -bar`)"@,
    }
}

impl QueryError {
    /// What is told of the error.
    pub fn message(&self) -> (r: String)
        ensures
            r@ == query_message(self@),
    {
        match self {
            QueryError::Empty => "empty query".to_string(),
            QueryError::Unexpected { found, at } => {
                let mut r: String = "unexpected ".to_string();
                r.push_str(debug_string(found.as_str()).as_str());
                r.push_str(" at byte ");
                push_decimal(&mut r, *at as u64);
                r
            },
            QueryError::UnterminatedPhrase { at } => {
                let mut r: String = "unterminated phrase starting at byte ".to_string();
                push_decimal(&mut r, *at as u64);
                r
            },
            QueryError::UnbalancedParen { at } => {
                let mut r: String = "unbalanced parenthesis at byte ".to_string();
                push_decimal(&mut r, *at as u64);
                r
            },
            QueryError::OnlyNegation =>
                "negation needs a positive term to subtract from (e.g. `foo -bar`)".to_string(),
        }
    }
}

/// What aborts an operation. Problems with single files are not among these:
/// such files are passed over.
#[derive(Debug)]
pub enum Error {
    /// What is told of a failed read or write.
    Io(String),
    NotADirectory(String),
    Query(QueryError),
    Format(FormatError),
    /// A committed file is missing or fails its checks.
    Corrupt { path: String, reason: String },
    /// A manifest in a newer format. Never taken for an absent one.
    Incompatible { path: String, version: u32 },
    NoIndex(String),
    /// Another writer holds the lock.
    Locked(String),
    /// A file that a manifest refers to was not found: the expected sight of a
    /// reader that races a commit which retired the file. Open tries again.
    Vanished(String),
}

/// An [`Error`] by value.
pub ghost enum ErrorView {
    Io(Seq<char>),
    NotADirectory(Seq<char>),
    Query(QueryErrorView),
    Format(FormatErrorView),
    Corrupt { path: Seq<char>, reason: Seq<char> },
    Incompatible { path: Seq<char>, version: u32 },
    NoIndex(Seq<char>),
    Locked(Seq<char>),
    Vanished(Seq<char>),
}

impl View for Error {
    type V = ErrorView;

    open spec fn view(&self) -> ErrorView {
        match self {
            Error::Io(why) => ErrorView::Io(why@),
            Error::NotADirectory(p) => ErrorView::NotADirectory(p@),
            Error::Query(e) => ErrorView::Query(e@),
            Error::Format(e) => ErrorView::Format(e@),
            Error::Corrupt { path, reason } => ErrorView::Corrupt { path: path@, reason: reason@ },
            Error::Incompatible { path, version } => ErrorView::Incompatible {
                path: path@,
                version: *version,
            },
            Error::NoIndex(p) => ErrorView::NoIndex(p@),
            Error::Locked(p) => ErrorView::Locked(p@),
            Error::Vanished(p) => ErrorView::Vanished(p@),
        }
    }
}

/// What is told of an error.
pub open spec fn error_message(e: ErrorView) -> Seq<char> {
    match e {
        ErrorView::Io(why) => why,
        ErrorView::NotADirectory(p) => p + ": not a directory"@,
        ErrorView::Query(e) => query_message(e),
        ErrorView::Format(e) => format_message(e),
        ErrorView::Corrupt { path, reason } => path + ": "@ + reason,
        ErrorView::Incompatible { path, version } => path + ": format version "@ + decimal(
            version as nat,
        ) + " is newer than this build supports"@,
        ErrorView::NoIndex(p) => "no index at "@ + p + " (run `ripindex index` first)"@,
        ErrorView::Locked(p) => p + ": another writer holds the index lock"@,
        ErrorView::Vanished(p) => p + ": not found (possibly retired by a concurrent commit)"@,
    }
}

fn with_end(text: &String, end: &str) -> (r: String)
    ensures
        r@ == text@ + end@,
{
    let mut r = text.clone();
    r.push_str(end);
    r
}

impl Error {
    /// What is told of the error.
    pub fn message(&self) -> (r: String)
        ensures
            r@ == error_message(self@),
    {
        match self {
            Error::Io(why) => why.clone(),
            Error::NotADirectory(p) => with_end(p, ": not a directory"),
            Error::Query(e) => e.message(),
            Error::Format(e) => e.message(),
            Error::Corrupt { path, reason } => {
                let mut r = with_end(path, ": ");
                r.push_str(reason.as_str());
                r
            },
            Error::Incompatible { path, version } => {
                let mut r = with_end(path, ": format version ");
                push_decimal(&mut r, *version as u64);
                r.push_str(" is newer than this build supports");
                r
            },
            Error::NoIndex(p) => {
                let mut r: String = "no index at ".to_string();
                r.push_str(p.as_str());
                r.push_str(" (run `ripindex index` first)");
                r
            },
            Error::Locked(p) => with_end(p, ": another writer holds the index lock"),
            Error::Vanished(p) => with_end(
                p,
                ": not found (possibly retired by a concurrent commit)",
            ),
        }
    }
}

/// What an operation yields.
pub type Result<T> = core::result::Result<T, Error>;

} // verus!

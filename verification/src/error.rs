//! The error that operations of the library answer with.

use vstd::prelude::*;

verus! {

/// What sort of failure an [`AppError`] reports.
#[derive(Debug, Clone, Copy, PartialEq, Eq, Structural)]
pub enum ErrorKind {
    Database,
    Git,
    Internal,
    InvalidInput,
    Io,
    NotFound,
}

/// A failed operation: its sort, which callers branch on, and the message shown.
#[derive(Debug)]
pub struct AppError {
    pub kind: ErrorKind,
    pub message: String,
}

/// What an [`AppError`] holds.
pub ghost struct Failure {
    pub kind: ErrorKind,
    pub message: Seq<char>,
}

impl View for AppError {
    type V = Failure;

    open spec fn view(&self) -> Failure {
        Failure { kind: self.kind, message: self.message@ }
    }
}

pub open spec fn failure(kind: ErrorKind, message: Seq<char>) -> Failure {
    Failure { kind, message }
}

pub open spec fn invalid(message: Seq<char>) -> Failure {
    failure(ErrorKind::InvalidInput, message)
}

impl AppError {
    pub fn new(kind: ErrorKind, message: String) -> (r: AppError)
        ensures
            r@ == failure(kind, message@),
    {
        AppError { kind, message }
    }

    pub fn invalid_input(message: &str) -> (r: AppError)
        ensures
            r@ == invalid(message@),
    {
        AppError { kind: ErrorKind::InvalidInput, message: message.to_owned() }
    }

    pub fn not_found(message: &str) -> (r: AppError)
        ensures
            r@ == failure(ErrorKind::NotFound, message@),
    {
        AppError { kind: ErrorKind::NotFound, message: message.to_owned() }
    }

    pub fn io(message: &str) -> (r: AppError)
        ensures
            r@ == failure(ErrorKind::Io, message@),
    {
        AppError { kind: ErrorKind::Io, message: message.to_owned() }
    }

    pub fn db(message: &str) -> (r: AppError)
        ensures
            r@ == failure(ErrorKind::Database, message@),
    {
        AppError { kind: ErrorKind::Database, message: message.to_owned() }
    }

    pub fn git(message: &str) -> (r: AppError)
        ensures
            r@ == failure(ErrorKind::Git, message@),
    {
        AppError { kind: ErrorKind::Git, message: message.to_owned() }
    }

    pub fn internal(message: &str) -> (r: AppError)
        ensures
            r@ == failure(ErrorKind::Internal, message@),
    {
        AppError { kind: ErrorKind::Internal, message: message.to_owned() }
    }
}

} // verus!

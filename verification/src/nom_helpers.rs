//! Helper types and methods around parser results.
use crate::error::{ErrorKind, ParseError};
use vstd::prelude::*;

verus! {

/// How much more input a parser would have needed.
#[derive(Debug, Clone, Copy, PartialEq, Eq)]
pub enum Needed {
    /// An unknown amount.
    Unknown,
    /// This many more bytes.
    Size(usize),
}

/// How a parser failed.
///
/// The parsers of this crate work on complete input and recover nowhere by
/// themselves: they fail with [`NomErr::Error`] only.
#[derive(Debug, Clone, PartialEq, Eq)]
pub enum NomErr<E> {
    /// There was not enough input.
    Incomplete(Needed),
    /// The parser did not match; another one may be tried.
    Error(E),
    /// The parser did not match and no other may be tried.
    Failure(E),
}

/// The result of a parser: what remains of the input and the value, or the failure.
pub type IResult<'a, O, E> = Result<(&'a str, O), NomErr<E>>;

/// Helper methods on a parser's failure.
pub trait NomErrExt<E>: Sized {
    /// The error that the failure carries, if it carries one.
    spec fn error(self) -> Option<E>;

    /// Returns the inner error. The failure must carry one: it is not
    /// [`NomErr::Incomplete`].
    fn unwrap_error(self) -> (e: E)
        requires
            self.error() is Some,
        ensures
            self.error() == Some(e),
    ;
}

impl<E> NomErrExt<E> for NomErr<E> {
    open spec fn error(self) -> Option<E> {
        match self {
            NomErr::Incomplete(_) => None,
            NomErr::Error(e) => Some(e),
            NomErr::Failure(e) => Some(e),
        }
    }

    fn unwrap_error(self) -> (e: E) {
        match self {
            NomErr::Incomplete(_) => vstd::pervasive::unreached(),
            NomErr::Error(e) => e,
            NomErr::Failure(e) => e,
        }
    }
}

/// Helper methods on every error type.
pub trait ParseErrorExt<'a>: ParseError<'a> {
    /// A failure of the grammar itself at `input`, tagged with `ctx`.
    fn from_context(input: &'a str, ctx: &'static str) -> (e: Self)
        ensures
            e@ == Self::add_context_view(
                input@,
                ctx@,
                Self::from_error_kind_view(input@, ErrorKind::Fail),
            ),
    ;

    /// Wraps the error as a failure that lets another parser be tried.
    fn into_err(self) -> (r: NomErr<Self>)
        ensures
            r == NomErr::Error(self),
    ;

    /// Wraps the error as the failed result of a parser.
    fn into_err_error<T>(self) -> (r: Result<T, NomErr<Self>>)
        ensures
            r == Err::<T, NomErr<Self>>(NomErr::Error(self)),
    ;
}

impl<'a, E: ParseError<'a>> ParseErrorExt<'a> for E {
    fn from_context(input: &'a str, ctx: &'static str) -> (e: Self) {
        E::add_context(input, ctx, E::from_error_kind(input, ErrorKind::Fail))
    }

    fn into_err(self) -> (r: NomErr<Self>) {
        NomErr::Error(self)
    }

    fn into_err_error<T>(self) -> (r: Result<T, NomErr<Self>>) {
        Err(self.into_err())
    }
}

} // verus!

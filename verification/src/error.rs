//! Parse errors: what a failure records, and how much of it each error type keeps.
//!
//! Every parser is generic over [`ParseError`]. The four error types of this module
//! keep a full chain of contexts ([`VerboseError`]), one position and category
//! ([`SimpleError`] and the pair), or nothing (`()`). Which inputs a parser accepts
//! never depends on the error type.
use vstd::prelude::*;

verus! {

/// The coarse category of a failure: the recogniser that gave up.
#[derive(Debug, Clone, Copy, PartialEq, Eq, Hash, Structural)]
pub enum ErrorKind {
    /// A fixed piece of text was expected.
    Tag,
    /// A single character was expected.
    Char,
    /// A terminator that never came was searched for.
    TakeUntil,
    /// The first of one-or-more repetitions was missing.
    Many1,
    /// The first of one-or-more counted repetitions was missing.
    Many1Count,
    /// A failure stated by the grammar itself.
    Fail,
}

impl View for ErrorKind {
    type V = ErrorKind;

    open spec fn view(&self) -> ErrorKind {
        *self
    }
}

/// One entry of a [`VerboseError`].
#[derive(Debug, Clone, PartialEq, Eq)]
pub enum VerboseErrorKind {
    /// A tag attached at a failure boundary.
    Context(&'static str),
    /// The character that was expected.
    Char(char),
    /// The category given by the recogniser that failed.
    Nom(ErrorKind),
}

/// What a [`VerboseErrorKind`] holds.
pub ghost enum VerboseErrorKindView {
    Context(Seq<char>),
    Char(char),
    Nom(ErrorKind),
}

impl View for VerboseErrorKind {
    type V = VerboseErrorKindView;

    open spec fn view(&self) -> VerboseErrorKindView {
        match *self {
            VerboseErrorKind::Context(ctx) => VerboseErrorKindView::Context(ctx@),
            VerboseErrorKind::Char(c) => VerboseErrorKindView::Char(c),
            VerboseErrorKind::Nom(kind) => VerboseErrorKindView::Nom(kind),
        }
    }
}

/// The full context chain: every failure point from the innermost outward, each with
/// the input that remained there.
#[derive(Debug, Clone, PartialEq, Eq)]
pub struct VerboseError<I> {
    pub errors: Vec<(I, VerboseErrorKind)>,
}

impl<I: View> View for VerboseError<I> {
    type V = Seq<(I::V, VerboseErrorKindView)>;

    open spec fn view(&self) -> Self::V {
        Seq::new(self.errors@.len(), |i: int| (self.errors@[i].0@, self.errors@[i].1@))
    }
}

/// The position and category of the innermost failure, without a chain.
#[derive(Debug, Clone, PartialEq, Eq)]
pub struct SimpleError<I> {
    /// The input that remained at the failure.
    pub input: I,
    /// The category of the failure.
    pub code: ErrorKind,
}

impl<I: View> View for SimpleError<I> {
    type V = (I::V, ErrorKind);

    open spec fn view(&self) -> Self::V {
        (self.input@, self.code)
    }
}

/// The error capability of the parsers: constructing a base failure, and recording
/// context as the failure travels outward.
///
/// Positions are given as the input that remains at the failure. The four `spec`
/// functions say what each constructor yields, as views.
pub trait ParseError<'a>: View + Sized {
    /// The view of [`ParseError::from_error_kind`]'s result.
    spec fn from_error_kind_view(input: Seq<char>, kind: ErrorKind) -> Self::V;

    /// The view of [`ParseError::append`]'s result.
    spec fn append_view(input: Seq<char>, kind: ErrorKind, other: Self::V) -> Self::V;

    /// The view of [`ParseError::from_char`]'s result.
    spec fn from_char_view(input: Seq<char>, c: char) -> Self::V;

    /// The view of [`ParseError::add_context`]'s result.
    spec fn add_context_view(input: Seq<char>, ctx: Seq<char>, other: Self::V) -> Self::V;

    /// A base failure: a position and a category.
    fn from_error_kind(input: &'a str, kind: ErrorKind) -> (e: Self)
        ensures
            e@ == Self::from_error_kind_view(input@, kind),
    ;

    /// Adds a position and a category to a failure that passes through a combinator.
    fn append(input: &'a str, kind: ErrorKind, other: Self) -> (e: Self)
        ensures
            e@ == Self::append_view(input@, kind, other@),
    ;

    /// A base failure: a position and the character that was expected there.
    fn from_char(input: &'a str, expected: char) -> (e: Self)
        ensures
            e@ == Self::from_char_view(input@, expected),
    ;

    /// Attaches a tag to a failure at a boundary of the grammar.
    fn add_context(input: &'a str, ctx: &'static str, other: Self) -> (e: Self)
        ensures
            e@ == Self::add_context_view(input@, ctx@, other@),
    ;
}

/// A chain of one entry: the character that was expected at `input`.
fn expected_char<'a>(input: &'a str, expected: char) -> (e: VerboseError<&'a str>)
    ensures
        e@ == seq![(input@, VerboseErrorKindView::Char(expected))],
{
    let mut errors = Vec::new();
    errors.push((input, VerboseErrorKind::Char(expected)));
    let e = VerboseError { errors };
    assert(e@ =~= seq![(input@, VerboseErrorKindView::Char(expected))]);
    e
}

impl<'a> ParseError<'a> for VerboseError<&'a str> {
    open spec fn from_error_kind_view(input: Seq<char>, kind: ErrorKind) -> Self::V {
        seq![(input, VerboseErrorKindView::Nom(kind))]
    }

    open spec fn append_view(input: Seq<char>, kind: ErrorKind, other: Self::V) -> Self::V {
        other.push((input, VerboseErrorKindView::Nom(kind)))
    }

    open spec fn from_char_view(input: Seq<char>, c: char) -> Self::V {
        seq![(input, VerboseErrorKindView::Char(c))]
    }

    open spec fn add_context_view(input: Seq<char>, ctx: Seq<char>, other: Self::V) -> Self::V {
        other.push((input, VerboseErrorKindView::Context(ctx)))
    }

    fn from_error_kind(input: &'a str, kind: ErrorKind) -> (e: Self) {
        let mut errors = Vec::new();
        errors.push((input, VerboseErrorKind::Nom(kind)));
        let e = VerboseError { errors };
        assert(e@ =~= Self::from_error_kind_view(input@, kind));
        e
    }

    fn append(input: &'a str, kind: ErrorKind, other: Self) -> (e: Self) {
        let mut other = other;
        let ghost before = other@;
        other.errors.push((input, VerboseErrorKind::Nom(kind)));
        assert(other@ =~= Self::append_view(input@, kind, before));
        other
    }

    fn from_char(input: &'a str, expected: char) -> (e: Self) {
        expected_char(input, expected)
    }

    fn add_context(input: &'a str, ctx: &'static str, other: Self) -> (e: Self) {
        let mut other = other;
        let ghost before = other@;
        other.errors.push((input, VerboseErrorKind::Context(ctx)));
        assert(other@ =~= Self::add_context_view(input@, ctx@, before));
        other
    }
}

impl<'a> ParseError<'a> for SimpleError<&'a str> {
    open spec fn from_error_kind_view(input: Seq<char>, kind: ErrorKind) -> Self::V {
        (input, kind)
    }

    open spec fn append_view(input: Seq<char>, kind: ErrorKind, other: Self::V) -> Self::V {
        other
    }

    open spec fn from_char_view(input: Seq<char>, c: char) -> Self::V {
        (input, ErrorKind::Char)
    }

    open spec fn add_context_view(input: Seq<char>, ctx: Seq<char>, other: Self::V) -> Self::V {
        other
    }

    fn from_error_kind(input: &'a str, kind: ErrorKind) -> (e: Self) {
        SimpleError { input, code: kind }
    }

    fn append(input: &'a str, kind: ErrorKind, other: Self) -> (e: Self) {
        other
    }

    fn from_char(input: &'a str, expected: char) -> (e: Self) {
        SimpleError { input, code: ErrorKind::Char }
    }

    fn add_context(input: &'a str, ctx: &'static str, other: Self) -> (e: Self) {
        other
    }
}

impl<'a> ParseError<'a> for (&'a str, ErrorKind) {
    open spec fn from_error_kind_view(input: Seq<char>, kind: ErrorKind) -> Self::V {
        (input, kind)
    }

    open spec fn append_view(input: Seq<char>, kind: ErrorKind, other: Self::V) -> Self::V {
        other
    }

    open spec fn from_char_view(input: Seq<char>, c: char) -> Self::V {
        (input, ErrorKind::Char)
    }

    open spec fn add_context_view(input: Seq<char>, ctx: Seq<char>, other: Self::V) -> Self::V {
        other
    }

    fn from_error_kind(input: &'a str, kind: ErrorKind) -> (e: Self) {
        (input, kind)
    }

    fn append(input: &'a str, kind: ErrorKind, other: Self) -> (e: Self) {
        other
    }

    fn from_char(input: &'a str, expected: char) -> (e: Self) {
        (input, ErrorKind::Char)
    }

    fn add_context(input: &'a str, ctx: &'static str, other: Self) -> (e: Self) {
        other
    }
}

impl<'a> ParseError<'a> for () {
    open spec fn from_error_kind_view(input: Seq<char>, kind: ErrorKind) -> Self::V {
        ()
    }

    open spec fn append_view(input: Seq<char>, kind: ErrorKind, other: Self::V) -> Self::V {
        ()
    }

    open spec fn from_char_view(input: Seq<char>, c: char) -> Self::V {
        ()
    }

    open spec fn add_context_view(input: Seq<char>, ctx: Seq<char>, other: Self::V) -> Self::V {
        ()
    }

    fn from_error_kind(input: &'a str, kind: ErrorKind) -> (e: Self) {
        ()
    }

    fn append(input: &'a str, kind: ErrorKind, other: Self) -> (e: Self) {
        ()
    }

    fn from_char(input: &'a str, expected: char) -> (e: Self) {
        ()
    }

    fn add_context(input: &'a str, ctx: &'static str, other: Self) -> (e: Self) {
        ()
    }
}

} // verus!

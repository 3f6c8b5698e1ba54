//! A parser and serializer for the Valve Map Format (VMF): nested, brace-delimited
//! blocks that hold quoted key/value properties and further blocks.
//!
//! ```vmf
//! // This is a comment.
//! ClassName_1
//! {
//!     "Property_1" "Value_1"
//!     ClassName_2
//!     {
//!     }
//! }
//! ```
//!
//! [`parse()`] reads a document from a complete text buffer; [`ast::Vmf`] writes it
//! back, in canonical form or with new ids.
//!
//! ```rust
//! use vmf_parser_nom::ast::Block;
//! use vmf_parser_nom::parse;
//! use vmf_parser_nom::{ErrorKind, SimpleError, VerboseError};
//!
//! let input = "ClassName_1\n{\n\t\"Property_1\" \"Value_1\"\n}";
//!
//! // parse the input to a vmf, borrowing from input
//! let vmf = parse::<&str, ()>(input).unwrap();
//! assert_eq!(input, vmf.to_string());
//!
//! // parse to owned strings instead
//! let vmf_owned = parse::<String, ()>(input).unwrap();
//!
//! // all error types
//! let invalid_input = "block{\"property_with_no_value\"}";
//! let err_verbose = parse::<&str, VerboseError<_>>(invalid_input).unwrap_err();
//! let err_simple = parse::<&str, SimpleError<_>>(invalid_input).unwrap_err();
//! let err_tuple = parse::<&str, (_, ErrorKind)>(invalid_input).unwrap_err();
//! let err_unit = parse::<&str, ()>(invalid_input).unwrap_err();
//!
//! // the document is a block named `root` with no properties
//! let block: &Block<String> = &vmf_owned;
//! assert_eq!(block.name, "root");
//! ```
//!
//! The lexical primitives are recognised by `nom`; the grammar, the tree and both
//! renderers are verified against the mathematical definitions in [`grammar`],
//! [`display`] and [`new_ids`]. What holds of them on every input is stated in
//! [`laws`].
use crate::ast::Vmf;
use crate::error::ParseError;
use crate::grammar::{build, spec_parse};
use crate::nom_helpers::{IResult, NomErr, ParseErrorExt};
use crate::parsers::vmf;
use crate::text::Text;
use vstd::prelude::*;

pub mod ast;
pub mod display;
pub mod error;
pub mod grammar;
pub mod laws;
pub mod new_ids;
pub mod nom_helpers;
pub mod parsers;
pub mod round_trip;
pub mod scan;
pub mod text;

pub use crate::error::{ErrorKind, SimpleError, VerboseError};

verus! {

/// The document that the parser [`vmf`] found in `input`, or the error with which
/// it failed. A parser that ran out of input has failed at `input`, tagged
/// `incomplete`.
pub fn complete<'a, O, E: ParseError<'a>>(input: &'a str, found: IResult<'a, Vmf<O>, E>) -> (r:
    Result<Vmf<O>, E>)
    ensures
        match found {
            Ok((_, document)) => r == Ok::<Vmf<O>, E>(document),
            Err(NomErr::Incomplete(_)) => r is Err && r->Err_0@ == E::add_context_view(
                input@,
                "incomplete"@,
                E::from_error_kind_view(input@, ErrorKind::Fail),
            ),
            Err(NomErr::Error(e)) => r == Err::<Vmf<O>, E>(e),
            Err(NomErr::Failure(e)) => r == Err::<Vmf<O>, E>(e),
        },
{
    match found {
        Ok((_, document)) => Ok(document),
        Err(e) => match e {
            NomErr::Incomplete(_) => Err(E::from_context(input, "incomplete")),
            NomErr::Error(e) => Err(e),
            NomErr::Failure(e) => Err(e),
        },
    }
}

/// Parses a `&str` into a [`Vmf`], ignoring whitespace and comments. The text of the
/// tree is held as `O`: borrowed from `input` as `&str`, or copied as `String`.
///
/// The input is a document if it starts with a block, after whitespace and
/// comments. What follows the last block that can be read is not looked at. Which
/// inputs are documents, and which document an input is, depends neither on `O` nor
/// on the error type `E`: `()`, `(&str, ErrorKind)`, [`SimpleError`] or
/// [`VerboseError`].
pub fn parse<'a, O: Text<'a>, E: ParseError<'a>>(input: &'a str) -> (r: Result<Vmf<O>, E>)
    ensures
        match r {
            Ok(document) => spec_parse(input@) == Ok::<ast::BlockView, grammar::Chain>(document@),
            Err(e) => spec_parse(input@) is Err && e@ == build::<E>(spec_parse(input@)->Err_0),
        },
{
    complete(input, vmf::<O, E>(input))
}

} // verus!

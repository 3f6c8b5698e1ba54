use vmf_parser_nom::ast::{Block, Vmf};
use vmf_parser_nom::complete;
use vmf_parser_nom::error::{ParseError, VerboseErrorKind};
use vmf_parser_nom::nom_helpers::{Needed, NomErr, NomErrExt, ParseErrorExt};
use vmf_parser_nom::parse;
use vmf_parser_nom::parsers::{block, vmf};
use vmf_parser_nom::{ErrorKind, SimpleError, VerboseError};

const INVALID: &str = "block{\"property_with_no_value\"}";
const STUCK: &str = "\"property_with_no_value\"}";

#[test]
fn property_with_no_value_fails_with_a_full_chain() {
    let err = parse::<&str, VerboseError<_>>(INVALID).unwrap_err();
    let expected = VerboseError {
        errors: vec![
            (STUCK, VerboseErrorKind::Nom(ErrorKind::Fail)),
            (STUCK, VerboseErrorKind::Context("no parsers matched in block")),
            (INVALID, VerboseErrorKind::Nom(ErrorKind::Many1)),
        ],
    };
    assert_eq!(err, expected);
}

#[test]
fn property_with_no_value_fails_with_a_simple_error() {
    let err = parse::<&str, SimpleError<_>>(INVALID).unwrap_err();
    assert_eq!(err, SimpleError { input: STUCK, code: ErrorKind::Fail });
    assert!(INVALID.len() - err.input.len() <= INVALID.find("\"}").unwrap() + 1);
}

#[test]
fn property_with_no_value_fails_with_a_pair() {
    let err = parse::<&str, (_, ErrorKind)>(INVALID).unwrap_err();
    assert_eq!(err, (STUCK, ErrorKind::Fail));
}

#[test]
fn property_with_no_value_fails_with_nothing() {
    let err = parse::<&str, ()>(INVALID).unwrap_err();
    assert_eq!(err, ());
}

#[test]
fn property_with_no_value_fails_as_owned_text_too() {
    assert!(parse::<String, VerboseError<_>>(INVALID).is_err());
    assert!(parse::<String, SimpleError<_>>(INVALID).is_err());
    assert!(parse::<String, (_, ErrorKind)>(INVALID).is_err());
    assert!(parse::<String, ()>(INVALID).is_err());
}

#[test]
fn block_without_name() {
    let expected = VerboseError {
        errors: vec![
            ("{}", VerboseErrorKind::Nom(ErrorKind::Many1Count)),
            ("{}", VerboseErrorKind::Context("bad identifier")),
        ],
    };
    assert_eq!(block::<&str, VerboseError<_>>(" // c\n {}"), Err(NomErr::Error(expected)));
}

#[test]
fn block_without_opening_brace() {
    let expected = VerboseError {
        errors: vec![
            ("\"k\" \"v\"}", VerboseErrorKind::Char('{')),
            ("\"k\" \"v\"}", VerboseErrorKind::Context("missing '{'")),
        ],
    };
    assert_eq!(block::<&str, VerboseError<_>>("name \"k\" \"v\"}"), Err(NomErr::Error(expected)));
    assert_eq!(
        block::<&str, SimpleError<_>>("name"),
        Err(NomErr::Error(SimpleError { input: "", code: ErrorKind::Char }))
    );
}

#[test]
fn block_with_what_is_no_item() {
    let expected = VerboseError {
        errors: vec![
            ("? }", VerboseErrorKind::Nom(ErrorKind::Fail)),
            ("? }", VerboseErrorKind::Context("no parsers matched in block")),
        ],
    };
    assert_eq!(block::<&str, VerboseError<_>>("a { \"k\" \"v\" ? }"), Err(NomErr::Error(expected)));
}

#[test]
fn failure_in_a_nested_block_is_reported_where_the_nested_block_starts() {
    assert_eq!(
        block::<&str, (&str, ErrorKind)>("a{b{?}}"),
        Err(NomErr::Error(("b{?}}", ErrorKind::Fail)))
    );
}

#[test]
fn empty_document() {
    let expected = VerboseError {
        errors: vec![
            ("", VerboseErrorKind::Nom(ErrorKind::Many1Count)),
            ("", VerboseErrorKind::Context("bad identifier")),
            ("", VerboseErrorKind::Nom(ErrorKind::Many1)),
        ],
    };
    assert_eq!(parse::<&str, VerboseError<_>>(""), Err(expected));
    assert_eq!(parse::<&str, ()>(" \n // nothing but a comment"), Err(()));
    assert_eq!(
        vmf::<&str, (&str, ErrorKind)>("  "),
        Err(NomErr::Error(("", ErrorKind::Many1Count)))
    );
}

#[test]
fn what_follows_the_last_block_is_left() {
    let (rest, document) = vmf::<&str, ()>("a{} b{} ???").unwrap();
    assert_eq!(rest, "???");
    assert_eq!(
        document,
        Vmf::new(vec![Block::new("a", vec![], vec![]), Block::new("b", vec![], vec![])])
    );
    assert_eq!(
        parse::<&str, ()>("a{} b{ ? }"),
        Ok(Vmf::new(vec![Block::new("a", vec![], vec![])]))
    );
}

#[test]
fn unwrap_error_returns_the_inner_error() {
    assert_eq!(NomErr::Error(5).unwrap_error(), 5);
    assert_eq!(NomErr::Failure(7).unwrap_error(), 7);
}

#[test]
fn from_context_is_a_tagged_failure() {
    let expected = VerboseError {
        errors: vec![
            ("here", VerboseErrorKind::Nom(ErrorKind::Fail)),
            ("here", VerboseErrorKind::Context("why")),
        ],
    };
    assert_eq!(VerboseError::from_context("here", "why"), expected);
    assert_eq!(
        SimpleError::from_context("here", "why"),
        SimpleError { input: "here", code: ErrorKind::Fail }
    );
    assert_eq!(<(&str, ErrorKind)>::from_context("here", "why"), ("here", ErrorKind::Fail));
}

#[test]
fn into_err_wraps_the_error() {
    assert_eq!(("x", ErrorKind::Tag).into_err(), NomErr::Error(("x", ErrorKind::Tag)));
    assert_eq!(
        ("x", ErrorKind::Tag).into_err_error::<u8>(),
        Err(NomErr::Error(("x", ErrorKind::Tag)))
    );
}

#[test]
fn error_types_record_what_they_keep() {
    let base = VerboseError::from_error_kind("a", ErrorKind::Tag);
    let more = VerboseError::add_context("ab", "ctx", VerboseError::append("abc", ErrorKind::Many1, base));
    assert_eq!(
        more.errors,
        vec![
            ("a", VerboseErrorKind::Nom(ErrorKind::Tag)),
            ("abc", VerboseErrorKind::Nom(ErrorKind::Many1)),
            ("ab", VerboseErrorKind::Context("ctx")),
        ]
    );
    let simple = SimpleError::from_error_kind("a", ErrorKind::Tag);
    let same = SimpleError::add_context("ab", "ctx", SimpleError::append("abc", ErrorKind::Many1, simple));
    assert_eq!(same, SimpleError { input: "a", code: ErrorKind::Tag });
    assert_eq!(SimpleError::from_char("a", 'x'), SimpleError { input: "a", code: ErrorKind::Char });
    assert_eq!(<(&str, ErrorKind)>::from_char("a", 'x'), ("a", ErrorKind::Char));
    assert_eq!(
        VerboseError::from_char("a", 'x').errors,
        vec![("a", VerboseErrorKind::Char('x'))]
    );
}

#[test]
fn complete_maps_each_failure() {
    let found: Vmf<&str> = Vmf::new(vec![Block::new("a", vec![], vec![])]);
    let same: Vmf<&str> = Vmf::new(vec![Block::new("a", vec![], vec![])]);
    assert_eq!(complete::<&str, ()>("a{}x", Ok(("x", found))), Ok(same));
    let expected = VerboseError {
        errors: vec![
            ("input", VerboseErrorKind::Nom(ErrorKind::Fail)),
            ("input", VerboseErrorKind::Context("incomplete")),
        ],
    };
    assert_eq!(
        complete::<&str, VerboseError<_>>("input", Err(NomErr::Incomplete(Needed::Unknown))),
        Err(expected)
    );
    assert_eq!(
        complete::<&str, (&str, ErrorKind)>("input", Err(NomErr::Error(("in", ErrorKind::Tag)))),
        Err(("in", ErrorKind::Tag))
    );
    assert_eq!(
        complete::<&str, (&str, ErrorKind)>("input", Err(NomErr::Failure(("in", ErrorKind::Char)))),
        Err(("in", ErrorKind::Char))
    );
}

use vmf_parser_nom::ast::Property;
use vmf_parser_nom::new_ids::class_of_name;
use vmf_parser_nom::new_ids::Class;
use vmf_parser_nom::error::VerboseErrorKind;
use vmf_parser_nom::nom_helpers::NomErr;
use vmf_parser_nom::parsers::{
    comment, identifier, ignore_whitespace, property, string, surrounded_by,
};
use vmf_parser_nom::scan::{exactly, find_token, identifier_run};
use vmf_parser_nom::{ErrorKind, SimpleError, VerboseError};

#[test]
fn string_is_what_stands_between_the_quotes() {
    assert_eq!(string::<()>("\"abc\" tail"), Ok((" tail", "abc")));
}

#[test]
fn string_may_be_empty() {
    assert_eq!(string::<()>("\"\"x"), Ok(("x", "")));
}

#[test]
fn string_knows_no_escape() {
    assert_eq!(string::<()>("\"a\\\"b\""), Ok(("b\"", "a\\")));
}

#[test]
fn string_may_hold_line_feeds_and_braces() {
    assert_eq!(string::<()>("\"a\n{ } // b\"}"), Ok(("}", "a\n{ } // b")));
}

#[test]
fn string_consumes_no_whitespace() {
    assert!(string::<()>(" \"abc\"").is_err());
    assert_eq!(string::<()>("\"abc\"  "), Ok(("  ", "abc")));
}

#[test]
fn string_without_opening_quote() {
    let expected = VerboseError {
        errors: vec![
            ("abc", VerboseErrorKind::Char('"')),
            ("abc", VerboseErrorKind::Context("string error")),
        ],
    };
    assert_eq!(string::<VerboseError<_>>("abc"), Err(NomErr::Error(expected)));
    assert_eq!(
        string::<SimpleError<_>>("abc"),
        Err(NomErr::Error(SimpleError { input: "abc", code: ErrorKind::Char }))
    );
}

#[test]
fn string_without_closing_quote() {
    let expected = VerboseError {
        errors: vec![
            ("abc", VerboseErrorKind::Nom(ErrorKind::TakeUntil)),
            ("\"abc", VerboseErrorKind::Context("string error")),
        ],
    };
    assert_eq!(string::<VerboseError<_>>("\"abc"), Err(NomErr::Error(expected)));
    assert_eq!(
        string::<(&str, ErrorKind)>("\"abc"),
        Err(NomErr::Error(("abc", ErrorKind::TakeUntil)))
    );
}

#[test]
fn comment_runs_to_the_end_of_the_line() {
    assert_eq!(comment::<()>("// hi\nnext"), Ok(("\nnext", ())));
    assert_eq!(comment::<()>("//hi\r\nnext"), Ok(("\r\nnext", ())));
    assert_eq!(comment::<()>("//\n"), Ok(("\n", ())));
}

#[test]
fn comment_runs_to_the_end_of_the_input() {
    assert_eq!(comment::<()>("// the end"), Ok(("", ())));
    assert_eq!(comment::<()>("//"), Ok(("", ())));
}

#[test]
fn comment_needs_two_slashes() {
    assert_eq!(
        comment::<(&str, ErrorKind)>("/ x"),
        Err(NomErr::Error(("/ x", ErrorKind::Tag)))
    );
    let expected = VerboseError {
        errors: vec![
            (" //", VerboseErrorKind::Nom(ErrorKind::Tag)),
            (" //", VerboseErrorKind::Context("comment error")),
        ],
    };
    assert_eq!(comment::<VerboseError<_>>(" //"), Err(NomErr::Error(expected)));
}

#[test]
fn identifier_is_letters_digits_and_underscores() {
    assert_eq!(identifier::<()>("Text_123 {"), Ok((" {", "Text_123")));
    assert_eq!(identifier::<()>("_"), Ok(("", "_")));
    assert_eq!(identifier::<()>("__a__9"), Ok(("", "__a__9")));
    assert_eq!(identifier::<()>("9lives{"), Ok(("{", "9lives")));
    assert_eq!(identifier::<()>("a-b"), Ok(("-b", "a")));
}

#[test]
fn identifier_is_ascii() {
    assert_eq!(identifier::<()>("ab\u{e9}"), Ok(("\u{e9}", "ab")));
    assert!(identifier::<()>("\u{e9}").is_err());
}

#[test]
fn identifier_consumes_no_whitespace() {
    assert!(identifier::<()>(" a").is_err());
}

#[test]
fn identifier_needs_one_character() {
    let expected = VerboseError {
        errors: vec![
            ("{", VerboseErrorKind::Nom(ErrorKind::Many1Count)),
            ("{", VerboseErrorKind::Context("bad identifier")),
        ],
    };
    assert_eq!(identifier::<VerboseError<_>>("{"), Err(NomErr::Error(expected)));
    assert_eq!(
        identifier::<SimpleError<_>>(""),
        Err(NomErr::Error(SimpleError { input: "", code: ErrorKind::Many1Count }))
    );
}

#[test]
fn identifier_run_gives_what_remains() {
    assert_eq!(identifier_run("ab_1_ x"), Some(" x"));
    assert_eq!(identifier_run("_"), Some(""));
    assert_eq!(identifier_run(" x"), None);
    assert_eq!(identifier_run(""), None);
}

#[test]
fn find_token_looks_for_one_character() {
    assert!(find_token("\n\r", '\r'));
    assert!(find_token("\n\r", '\n'));
    assert!(!find_token("\n\r", 'n'));
    assert!(!find_token("", 'n'));
}

#[test]
fn exactly_compares_whole_texts() {
    assert!(exactly("world", "world"));
    assert!(!exactly("world", "worlds"));
    assert!(!exactly("world", "worl"));
    assert!(!exactly("world", "World"));
    assert!(exactly("", ""));
}

#[test]
fn classes_are_told_by_exact_name() {
    assert_eq!(class_of_name("world"), Some(Class::World));
    assert_eq!(class_of_name("solid"), Some(Class::Solid));
    assert_eq!(class_of_name("side"), Some(Class::Side));
    assert_eq!(class_of_name("entity"), Some(Class::Entity));
    assert_eq!(class_of_name("Entity"), None);
    assert_eq!(class_of_name("entities"), None);
    assert_eq!(class_of_name("root"), None);
}

#[test]
fn property_needs_no_whitespace_between_key_and_value() {
    assert_eq!(
        property::<&str, ()>("\"k\"\"v\""),
        Ok(("", Property::new("k", "v")))
    );
}

#[test]
fn property_discards_whitespace_around_and_between() {
    assert_eq!(
        property::<&str, ()>(" \t\"k\" \r\n \"v\" \n\t x"),
        Ok(("x", Property::new("k", "v")))
    );
}

#[test]
fn property_key_and_value_may_be_empty() {
    assert_eq!(property::<&str, ()>("\"\"\"\""), Ok(("", Property::new("", ""))));
}

#[test]
fn property_as_owned_text() {
    assert_eq!(
        property::<String, ()>("\"k\" \"v\"}"),
        Ok(("}", Property::new("k".to_string(), "v".to_string())))
    );
}

#[test]
fn property_without_key() {
    let expected = VerboseError {
        errors: vec![
            ("x", VerboseErrorKind::Char('"')),
            ("x", VerboseErrorKind::Context("string error")),
            ("  x", VerboseErrorKind::Context("property error")),
        ],
    };
    assert_eq!(property::<&str, VerboseError<_>>("  x"), Err(NomErr::Error(expected)));
}

#[test]
fn property_without_value() {
    let expected = VerboseError {
        errors: vec![
            ("}", VerboseErrorKind::Char('"')),
            ("}", VerboseErrorKind::Context("string error")),
            ("\"k\" }", VerboseErrorKind::Context("property error")),
        ],
    };
    assert_eq!(property::<&str, VerboseError<_>>("\"k\" }"), Err(NomErr::Error(expected)));
    assert_eq!(
        property::<&str, SimpleError<_>>("\"k\" }"),
        Err(NomErr::Error(SimpleError { input: "}", code: ErrorKind::Char }))
    );
}

#[test]
fn property_with_unterminated_value() {
    assert_eq!(
        property::<&str, (&str, ErrorKind)>("\"k\" \"v"),
        Err(NomErr::Error(("v", ErrorKind::TakeUntil)))
    );
}

#[test]
fn ignore_whitespace_discards_it_on_both_sides() {
    assert_eq!(ignore_whitespace(identifier::<()>, " \t\r\n ab \n c"), Ok(("c", "ab")));
    assert_eq!(ignore_whitespace(identifier::<()>, "ab"), Ok(("", "ab")));
    assert_eq!(
        ignore_whitespace(identifier::<(&str, ErrorKind)>, "  {"),
        Err(NomErr::Error(("{", ErrorKind::Many1Count)))
    );
    assert_eq!(ignore_whitespace(string::<()>, " \"a b\" // c"), Ok(("// c", "a b")));
}

#[test]
fn surrounded_by_gives_what_stands_in_the_middle() {
    assert_eq!(
        surrounded_by(string::<()>, identifier::<()>, comment::<()>, "\"x\"ab//c\nd"),
        Ok(("\nd", "ab"))
    );
    assert_eq!(
        surrounded_by(
            identifier::<(&str, ErrorKind)>,
            string::<(&str, ErrorKind)>,
            comment::<(&str, ErrorKind)>,
            "-ab\"c\"//",
        ),
        Err(NomErr::Error(("-ab\"c\"//", ErrorKind::Many1Count)))
    );
    assert_eq!(
        surrounded_by(
            identifier::<(&str, ErrorKind)>,
            string::<(&str, ErrorKind)>,
            comment::<(&str, ErrorKind)>,
            "ab \"c\"//",
        ),
        Err(NomErr::Error((" \"c\"//", ErrorKind::Char)))
    );
    assert_eq!(
        surrounded_by(
            identifier::<(&str, ErrorKind)>,
            string::<(&str, ErrorKind)>,
            comment::<(&str, ErrorKind)>,
            "ab\"c\"/",
        ),
        Err(NomErr::Error(("/", ErrorKind::Tag)))
    );
}

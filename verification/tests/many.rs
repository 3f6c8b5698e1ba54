use vmf_parser_nom::ast::{Block, Property, Vmf};
use vmf_parser_nom::error::VerboseErrorKind;
use vmf_parser_nom::parse;
use vmf_parser_nom::{ErrorKind, SimpleError, VerboseError};

/// A small generator of numbers: the same sequence in every run.
struct Numbers(u64);

impl Numbers {
    fn next(&mut self, below: usize) -> usize {
        self.0 = self.0.wrapping_mul(6364136223846793005).wrapping_add(1442695040888963407);
        ((self.0 >> 33) as usize) % below
    }

    fn text(&mut self, alphabet: &[char], least: usize, most: usize) -> String {
        let length = least + self.next(most - least + 1);
        (0..length).map(|_| alphabet[self.next(alphabet.len())]).collect()
    }

    fn block(&mut self, depth: usize, values: &[char]) -> Block<String> {
        const NAMES: [&str; 8] =
            ["world", "solid", "side", "entity", "brush", "Text_123", "_", "root"];
        let name = if self.next(2) == 0 {
            NAMES[self.next(NAMES.len())].to_string()
        } else {
            let letters: Vec<char> = "abzAZ09_".chars().collect();
            self.text(&letters, 1, 6)
        };
        let props = (0..self.next(4))
            .map(|_| {
                let key = if self.next(3) == 0 { "id".to_string() } else { self.text(values, 0, 5) };
                Property::new(key, self.text(values, 0, 8))
            })
            .collect();
        let blocks = if depth == 0 {
            vec![]
        } else {
            (0..self.next(4)).map(|_| self.block(depth - 1, values)).collect()
        };
        Block::new(name, props, blocks)
    }
}

#[test]
fn printable_documents_are_read_back_as_themselves() {
    let values: Vec<char> = "ab {}/\\\t\r_-0\u{e9}\u{4e16}".chars().collect();
    let mut numbers = Numbers(1);
    for _ in 0..300 {
        let blocks = (0..1 + numbers.next(3)).map(|_| numbers.block(3, &values)).collect();
        let document = Vmf::new(blocks);
        let text = document.to_string();
        let read = parse::<String, ()>(&text).unwrap();
        assert_eq!(read, document, "{text}");
        assert_eq!(read.to_string(), text);
        let borrowed = parse::<&str, VerboseError<_>>(&text).unwrap();
        assert!(borrowed.same_as(&document), "{text}");
        let renumbered = document.to_string_new_ids();
        let again = parse::<String, ()>(&renumbered).unwrap();
        assert_eq!(again.to_string(), renumbered, "{renumbered}");
        assert_eq!(again.to_string_new_ids(), renumbered, "{renumbered}");
    }
}

#[test]
fn line_feeds_in_keys_and_values_are_read_back_with_their_padding() {
    let values: Vec<char> = "ab \n{}".chars().collect();
    let mut numbers = Numbers(2);
    let mut changed = 0;
    for _ in 0..300 {
        let blocks = (0..1 + numbers.next(3)).map(|_| numbers.block(2, &values)).collect();
        let document = Vmf::new(blocks);
        let text = document.to_string();
        let read = parse::<String, ()>(&text).unwrap();
        assert_eq!(read, padded(&document), "{text}");
        if text.contains("\n\t\"") && read != document {
            changed += 1;
        }
        assert_eq!(read == document, !has_line_feed(&document.inner));
    }
    assert!(changed > 0);
}

fn padded(document: &Vmf<String>) -> Vmf<String> {
    Vmf::new(document.inner.blocks.iter().map(|b| padded_block(b, "")).collect())
}

fn padded_block(block: &Block<String>, padding: &str) -> Block<String> {
    let inner = format!("{padding}\t");
    let follow = format!("\n{inner}");
    Block::new(
        block.name.clone(),
        block
            .props
            .iter()
            .map(|p| Property::new(p.key.replace('\n', &follow), p.value.replace('\n', &follow)))
            .collect(),
        block.blocks.iter().map(|b| padded_block(b, &inner)).collect(),
    )
}

fn has_line_feed(block: &Block<String>) -> bool {
    block.props.iter().any(|p| p.key.contains('\n') || p.value.contains('\n'))
        || block.blocks.iter().any(has_line_feed)
}

#[test]
fn all_error_types_accept_and_reject_alike() {
    let alphabet: Vec<char> = "ab_ \n\t\"\"{{}}//".chars().collect();
    let mut numbers = Numbers(3);
    let mut accepted = 0;
    let mut rejected = 0;
    for _ in 0..3000 {
        let start = if numbers.next(2) == 0 { "a{" } else { "" };
        let input = format!("{start}{}", numbers.text(&alphabet, 0, 14));
        let verbose = parse::<&str, VerboseError<_>>(&input);
        let simple = parse::<&str, SimpleError<_>>(&input);
        let pair = parse::<&str, (_, ErrorKind)>(&input);
        let unit = parse::<&str, ()>(&input);
        let owned = parse::<String, ()>(&input);
        match unit {
            Ok(document) => {
                accepted += 1;
                assert_eq!(verbose.as_ref(), Ok(&document), "{input:?}");
                assert_eq!(simple.as_ref(), Ok(&document), "{input:?}");
                assert_eq!(pair.as_ref(), Ok(&document), "{input:?}");
                assert!(document.same_as(&owned.unwrap()), "{input:?}");
            }
            Err(()) => {
                rejected += 1;
                let verbose = verbose.unwrap_err();
                let simple = simple.unwrap_err();
                let pair = pair.unwrap_err();
                assert!(owned.is_err(), "{input:?}");
                assert_eq!((simple.input, simple.code), pair, "{input:?}");
                let (at, innermost) = &verbose.errors[0];
                assert_eq!(*at, pair.0, "{input:?}");
                match innermost {
                    VerboseErrorKind::Nom(kind) => assert_eq!(*kind, pair.1, "{input:?}"),
                    VerboseErrorKind::Char(_) => assert_eq!(pair.1, ErrorKind::Char, "{input:?}"),
                    VerboseErrorKind::Context(_) => panic!("{input:?}"),
                }
                assert_eq!(
                    verbose.errors.last(),
                    Some(&(input.as_str(), VerboseErrorKind::Nom(ErrorKind::Many1))),
                    "{input:?}"
                );
                for (rest, _) in &verbose.errors {
                    assert!(input.ends_with(rest), "{input:?}");
                }
            }
        }
    }
    assert!(accepted > 100 && rejected > 100, "{accepted} {rejected}");
}

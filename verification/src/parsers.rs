//! Parse a vmf from a str.
//!
//! Every parser takes the input that remains and returns what remains after it
//! together with its value. Each is held to the function of the same name in
//! [`crate::grammar`]: it accepts exactly the inputs that the grammar accepts, with the
//! same value and the same rest, and fails with the error that its error type builds
//! from the grammar's failure.
//!
//! [`surrounded_by`] and [`ignore_whitespace`] take parsers as arguments; their
//! contracts say what they make of whatever these parsers give.
use crate::ast::{blocks_view, lemma_block_view, props_view, Block, BlockView, Property, Vmf};
use crate::error::{ErrorKind, ParseError};
use crate::grammar::{
    base, build, expected, lemma_block_chain, lemma_block_progress, lemma_brace_progress,
    lemma_build, lemma_build_expected, lemma_head_progress, lemma_ignorable_progress,
    lemma_property_progress, lemma_skip_space, line_ends, quote, skip_ignorable, skip_space,
    spec_block, spec_block_head, spec_body, spec_brace, spec_char, spec_comment, spec_identifier,
    spec_ignorable, spec_more_blocks, spec_property, spec_string, spec_string_pair,
    spec_until_quote, spec_vmf, Chain, Parsed,
};
use crate::nom_helpers::{IResult, NomErr, ParseErrorExt};
use crate::scan::{
    char, is_not_no_fail, lemma_span, lemma_span_is, multispace0, multispace1, occurs_at,
    recognize_identifier_run, tag, take_until, CharClass,
};
use crate::text::Text;
use vstd::prelude::*;

verus! {

/// Whether the result `r` of a parser is what the grammar gives: the same rest and
/// value by their views, or the error built from the same failure.
pub open spec fn agrees<'a, O: View, E: ParseError<'a>>(
    r: IResult<'a, O, E>,
    grammar: Parsed<O::V>,
) -> bool {
    match r {
        Ok((rest, value)) => grammar == Ok::<(Seq<char>, O::V), Chain>((rest@, value@)),
        Err(NomErr::Error(e)) => grammar is Err && e@ == build::<E>(grammar->Err_0),
        Err(_) => false,
    }
}

/// The input without its leading whitespace.
fn skip_whitespace<'a>(input: &'a str) -> (rest: &'a str)
    ensures
        rest@ == skip_space(input@),
{
    match multispace0(input) {
        Some((rest, _)) => rest,
        None => input,
    }
}

/// What [`surrounded_by`] does: `opened` is what `first` gave on the input;
/// `found` is what `second` gave where `first` ended, at `inside`; `closed` is what
/// `third` gave where `second` ended, at `end`. The result is the rest that the
/// third left with the value of the second; or the first failure among them, after
/// which no further parser was run.
pub open spec fn surrounded<'a, O1, O2, O3, E, F, G, H>(
    first: F,
    second: G,
    third: H,
    input: &'a str,
    opened: IResult<'a, O1, E>,
    inside: &'a str,
    found: IResult<'a, O2, E>,
    end: &'a str,
    closed: IResult<'a, O3, E>,
    r: IResult<'a, O2, E>,
) -> bool where
    F: Fn(&'a str) -> IResult<'a, O1, E>,
    G: Fn(&'a str) -> IResult<'a, O2, E>,
    H: Fn(&'a str) -> IResult<'a, O3, E>,
 {
    &&& call_ensures(first, (input,), opened)
    &&& match opened {
        Err(e) => r == Err::<(&'a str, O2), NomErr<E>>(e),
        Ok((rest, _)) => {
            &&& rest == inside
            &&& call_ensures(second, (inside,), found)
            &&& match found {
                Err(e) => r == Err::<(&'a str, O2), NomErr<E>>(e),
                Ok((rest, value)) => {
                    &&& rest == end
                    &&& call_ensures(third, (end,), closed)
                    &&& match closed {
                        Err(e) => r == Err::<(&'a str, O2), NomErr<E>>(e),
                        Ok((rest, _)) => r == Ok::<(&'a str, O2), NomErr<E>>((rest, value)),
                    }
                },
            }
        },
    }
}

/// Matches `first` and discards its output, matches `second`, matches `third` and
/// discards its output. Fails where the first of them fails, as that one does.
pub fn surrounded_by<'a, O1, O2, O3, E, F, G, H>(
    first: F,
    second: G,
    third: H,
    input: &'a str,
) -> (r: IResult<'a, O2, E>) where
    F: Fn(&'a str) -> IResult<'a, O1, E>,
    G: Fn(&'a str) -> IResult<'a, O2, E>,
    H: Fn(&'a str) -> IResult<'a, O3, E>,

    requires
        forall|at: &'a str| call_requires(first, (at,)),
        forall|at: &'a str| call_requires(second, (at,)),
        forall|at: &'a str| call_requires(third, (at,)),
    ensures
        exists|
            opened: IResult<'a, O1, E>,
            inside: &'a str,
            found: IResult<'a, O2, E>,
            end: &'a str,
            closed: IResult<'a, O3, E>,
        |
            surrounded(first, second, third, input, opened, inside, found, end, closed, r),
{
    let opened = first(input);
    match opened {
        Err(e) => {
            let r = Err(e);
            assert(surrounded(
                first,
                second,
                third,
                input,
                opened,
                input,
                r,
                input,
                Err::<(&'a str, O3), NomErr<E>>(e),
                r,
            ));
            r
        },
        Ok((inside, _)) => {
            let found = second(inside);
            match found {
                Err(e) => {
                    let r = Err(e);
                    assert(surrounded(
                        first,
                        second,
                        third,
                        input,
                        opened,
                        inside,
                        found,
                        inside,
                        Err::<(&'a str, O3), NomErr<E>>(e),
                        r,
                    ));
                    r
                },
                Ok((end, value)) => {
                    let closed = third(end);
                    let r = match closed {
                        Err(e) => Err(e),
                        Ok((rest, _)) => Ok((rest, value)),
                    };
                    assert(surrounded(
                        first,
                        second,
                        third,
                        input,
                        opened,
                        inside,
                        found,
                        end,
                        closed,
                        r,
                    ));
                    r
                },
            }
        },
    }
}

/// What [`ignore_whitespace`] makes of what the parser gave that it ran after the
/// leading whitespace: the same value and, after it, no whitespace; or the same
/// failure.
pub open spec fn without_trailing_space<'a, O, E>(
    inner: IResult<'a, O, E>,
    r: IResult<'a, O, E>,
) -> bool {
    match inner {
        Ok((rest, value)) => r matches Ok((after, same)) && same == value && after@ == skip_space(
            rest@,
        ),
        Err(e) => r == Err::<(&'a str, O), NomErr<E>>(e),
    }
}

/// Discards leading whitespace, matches the parser, discards trailing whitespace.
pub fn ignore_whitespace<'a, O, E, F: Fn(&'a str) -> IResult<'a, O, E>>(
    second: F,
    input: &'a str,
) -> (r: IResult<'a, O, E>)
    requires
        forall|start: &'a str| call_requires(second, (start,)),
    ensures
        exists|start: &'a str, inner: IResult<'a, O, E>|
            start@ == skip_space(input@) && call_ensures(second, (start,), inner)
                && without_trailing_space(inner, r),
{
    let start = skip_whitespace(input);
    let inner = second(start);
    match inner {
        Ok((rest, value)) => {
            let r = Ok((skip_whitespace(rest), value));
            assert(without_trailing_space(inner, r));
            r
        },
        Err(e) => {
            let r = Err(e);
            assert(without_trailing_space(inner, r));
            r
        },
    }
}

/// The character `c`.
fn expect_char<'a, E: ParseError<'a>>(c: char, input: &'a str) -> (r: IResult<'a, char, E>)
    ensures
        agrees(r, spec_char(input@, c)),
{
    proof {
        lemma_build_expected::<E>(input@, c);
    }
    match char(c, input) {
        Some((rest, found)) => Ok((rest, found)),
        None => Err(NomErr::Error(E::from_char(input, c))),
    }
}

/// The double quote that opens or closes a string.
fn quote_mark<'a, E: ParseError<'a>>(input: &'a str) -> (r: IResult<'a, char, E>)
    ensures
        agrees(r, spec_char(input@, '"')),
{
    expect_char::<E>('"', input)
}

/// The brace that opens a body.
fn opening<'a, E: ParseError<'a>>(input: &'a str) -> (r: IResult<'a, char, E>)
    ensures
        agrees(r, spec_char(input@, '{')),
{
    expect_char::<E>('{', input)
}

/// The brace that closes a body.
fn closing<'a, E: ParseError<'a>>(input: &'a str) -> (r: IResult<'a, char, E>)
    ensures
        agrees(r, spec_char(input@, '}')),
{
    expect_char::<E>('}', input)
}

/// The text up to the next double quote, which is left.
fn until_quote<'a, E: ParseError<'a>>(input: &'a str) -> (r: IResult<'a, &'a str, E>)
    ensures
        agrees(r, spec_until_quote(input@)),
{
    proof {
        reveal_strlit("\"");
        lemma_build::<E>(input@, Seq::empty());
        lemma_span(input@, CharClass::NoneOf(quote()));
        assert(quote().contains('"')) by {
            assert(quote()[0] == '"');
        }
    }
    match take_until("\"", input) {
        None => {
            proof {
                assert forall|i: int| 0 <= i < input@.len() implies CharClass::NoneOf(quote()).has(
                    #[trigger] input@[i],
                ) by {
                    if input@[i] == '"' {
                        assert("\""@ =~= input@.skip(i).take(1));
                        assert(occurs_at(input@, "\""@, i));
                    }
                }
                lemma_span_is(input@, CharClass::NoneOf(quote()), input@.len() as int);
            }
            Err(NomErr::Error(E::from_error_kind(input, ErrorKind::TakeUntil)))
        },
        Some((rest, content)) => {
            proof {
                let n = content@.len() as int;
                assert(rest@[0] == "\""@[0]);
                assert(input@[n] == rest@[0]);
                assert forall|i: int| 0 <= i < n implies CharClass::NoneOf(quote()).has(
                    #[trigger] input@[i],
                ) by {
                    if input@[i] == '"' {
                        assert("\""@ =~= input@.skip(i).take(1));
                        assert(occurs_at(input@, "\""@, i));
                    }
                }
                lemma_span_is(input@, CharClass::NoneOf(quote()), n);
                assert(content@ =~= input@.take(n));
                assert(rest@ =~= input@.skip(n));
            }
            Ok((rest, content))
        },
    }
}

/// Parses a string in the form `"TEXT"`, where TEXT is any run of characters other
/// than a double quote. Consumes the quotes, no whitespace.
pub fn string<'a, E: ParseError<'a>>(input: &'a str) -> (r: IResult<'a, &'a str, E>)
    ensures
        agrees(r, spec_string(input@)),
{
    proof {
        lemma_span(input@.skip(1), CharClass::NoneOf(quote()));
        lemma_build::<E>(input@, expected(input@, '"'));
        lemma_build::<E>(input@, base(input@.skip(1), ErrorKind::TakeUntil));
    }
    match surrounded_by(quote_mark::<E>, until_quote::<E>, quote_mark::<E>, input) {
        Ok((rest, content)) => {
            proof {
                let n = content@.len() as int;
                assert(rest@ =~= input@.skip(1).skip(n + 1));
            }
            Ok((rest, content))
        },
        Err(NomErr::Error(e)) => Err(NomErr::Error(E::add_context(input, "string error", e))),
        Err(e) => Err(e),
    }
}

/// Parses a comment in the form `//TEXT`, up to the end of the line. Consumes no
/// line end and no whitespace.
pub fn comment<'a, E: ParseError<'a>>(input: &'a str) -> (r: IResult<'a, (), E>)
    ensures
        agrees(r, spec_comment(input@)),
{
    proof {
        reveal_strlit("\n\r");
        assert("\n\r"@ =~= line_ends());
        lemma_build::<E>(input@, base(input@, ErrorKind::Tag));
    }
    match tag("//", input) {
        None => Err(
            NomErr::Error(
                E::add_context(input, "comment error", E::from_error_kind(input, ErrorKind::Tag)),
            ),
        ),
        Some((text, _)) => match is_not_no_fail("\n\r", text) {
            Some((rest, _)) => Ok((rest, ())),
            None => Ok((text, ())),
        },
    }
}

/// Parses an identifier in the form `Text_123`: one or more ASCII letters, digits
/// and underscores. Consumes no whitespace.
pub fn identifier<'a, E: ParseError<'a>>(input: &'a str) -> (r: IResult<'a, &'a str, E>)
    ensures
        agrees(r, spec_identifier(input@)),
{
    proof {
        lemma_build::<E>(input@, base(input@, ErrorKind::Many1Count));
    }
    match recognize_identifier_run(input) {
        Some((rest, name)) => Ok((rest, name)),
        None => Err(
            NomErr::Error(
                E::add_context(
                    input,
                    "bad identifier",
                    E::from_error_kind(input, ErrorKind::Many1Count),
                ),
            ),
        ),
    }
}

/// Two strings with optional whitespace between them.
fn string_pair<'a, E: ParseError<'a>>(input: &'a str) -> (r: IResult<'a, (&'a str, &'a str), E>)
    ensures
        agrees(r, spec_string_pair(input@)),
{
    match string::<E>(input) {
        Err(e) => Err(e),
        Ok((after_key, key)) => match string::<E>(skip_whitespace(after_key)) {
            Err(e) => Err(e),
            Ok((after_value, value)) => Ok((after_value, (key, value))),
        },
    }
}

/// The failure of a string is never empty.
proof fn lemma_string_chain(input: Seq<char>)
    ensures
        spec_string(input) matches Err(chain) ==> chain.len() > 0,
{
}

/// Parses a [`Property`]: two strings. Discards any whitespace around and between them.
pub fn property<'a, O: Text<'a>, E: ParseError<'a>>(input: &'a str) -> (r: IResult<
    'a,
    Property<O, O>,
    E,
>)
    ensures
        agrees(r, spec_property(input@)),
{
    proof {
        let start = skip_space(input@);
        lemma_string_chain(start);
        if let Ok((after_key, _)) = spec_string(start) {
            lemma_string_chain(skip_space(after_key));
        }
        if let Err(chain) = spec_string_pair(start) {
            lemma_build::<E>(input@, chain);
        }
    }
    match ignore_whitespace(string_pair::<E>, input) {
        Ok((rest, (key, value))) => Ok(
            (rest, Property { key: O::from_slice(key), value: O::from_slice(value) }),
        ),
        Err(NomErr::Error(e)) => Err(NomErr::Error(E::add_context(input, "property error", e))),
        Err(e) => Err(e),
    }
}

/// Something ignorable: one comment, or one non-empty run of whitespace.
fn ignorable<'a, E: ParseError<'a>>(input: &'a str) -> (r: Option<&'a str>)
    ensures
        match r {
            Some(rest) => spec_ignorable(input@) == Some(rest@),
            None => spec_ignorable(input@) is None,
        },
{
    match comment::<E>(input) {
        Ok((rest, _)) => Some(rest),
        Err(_) => match multispace1(input) {
            Some((rest, _)) => Some(rest),
            None => None,
        },
    }
}

/// Skips comments and whitespace, as long as there are any.
fn skip_ignorables<'a, E: ParseError<'a>>(input: &'a str) -> (rest: &'a str)
    ensures
        rest@ == skip_ignorable(input@),
{
    let mut rest = input;
    loop
        invariant
            skip_ignorable(rest@) == skip_ignorable(input@),
        decreases rest@.len(),
    {
        proof {
            lemma_ignorable_progress(rest@);
        }
        match ignorable::<E>(rest) {
            Some(next) => {
                rest = next;
            },
            None => {
                return rest;
            },
        }
    }
}

/// The opening brace of a block: `\s{\s`.
fn open_brace<'a, E: ParseError<'a>>(input: &'a str) -> (r: IResult<'a, (), E>)
    ensures
        agrees(r, spec_brace(input@, '{', "missing '{'"@)),
{
    proof {
        lemma_build::<E>(input@, expected(skip_space(input@), '{'));
    }
    match ignore_whitespace(opening::<E>, input) {
        Ok((rest, _)) => Ok((rest, ())),
        Err(NomErr::Error(e)) => Err(NomErr::Error(E::add_context(input, "missing '{'", e))),
        Err(e) => Err(e),
    }
}

/// The closing brace of a block: `\s}\s`.
fn close_brace<'a, E: ParseError<'a>>(input: &'a str) -> (r: IResult<'a, (), E>)
    ensures
        agrees(r, spec_brace(input@, '}', "missing '}'"@)),
{
    proof {
        lemma_build::<E>(input@, expected(skip_space(input@), '}'));
    }
    match ignore_whitespace(closing::<E>, input) {
        Ok((rest, _)) => Ok((rest, ())),
        Err(NomErr::Error(e)) => Err(NomErr::Error(E::add_context(input, "missing '}'", e))),
        Err(e) => Err(e),
    }
}

/// The head of a block: ignorable content, the name, the opening brace.
fn block_head<'a, E: ParseError<'a>>(input: &'a str) -> (r: IResult<'a, &'a str, E>)
    ensures
        agrees(r, spec_block_head(input@)),
{
    proof {
        lemma_skip_space(skip_space(skip_ignorable(input@)));
    }
    match ignore_whitespace(identifier::<E>, skip_ignorables::<E>(input)) {
        Err(e) => Err(e),
        Ok((after_name, name)) => match open_brace::<E>(after_name) {
            Err(e) => Err(e),
            Ok((body, _)) => Ok((body, name)),
        },
    }
}

/// Adding a property to a list adds its view to the list's view.
proof fn lemma_props_push<S: View<V = Seq<char>>>(props: Seq<Property<S, S>>, prop: Property<S, S>)
    ensures
        props_view(props.push(prop)) == props_view(props).push(prop@),
{
    assert(props_view(props.push(prop)) =~= props_view(props).push(prop@));
}

/// Adding a block to a list adds its view to the list's view.
proof fn lemma_blocks_push<S: View<V = Seq<char>>>(blocks: Seq<Block<S>>, block: Block<S>)
    ensures
        blocks_view(blocks.push(block)) == blocks_view(blocks).push(block@),
{
    assert(blocks_view(blocks.push(block)) =~= blocks_view(blocks).push(block@));
}

/// Parses a [`Block`]: a name, an opening brace, then properties, nested blocks,
/// comments and whitespace in any order, up to the closing brace. A body that the
/// end of the input cuts short is accepted as it stands.
///
/// Nested blocks are parsed by recursion: the depth of the calls is the depth of
/// the input's nesting, which nothing bounds.
pub fn block<'a, O: Text<'a>, E: ParseError<'a>>(input: &'a str) -> (r: IResult<'a, Block<O>, E>)
    ensures
        agrees(r, spec_block(input@)),
    decreases input@.len(),
{
    proof {
        lemma_head_progress(input@);
    }
    let (body, name) = match block_head::<E>(input) {
        Err(e) => {
            return Err(e);
        },
        Ok(head) => head,
    };
    let mut props: Vec<Property<O, O>> = Vec::new();
    let mut blocks: Vec<Block<O>> = Vec::new();
    let mut rest = body;
    proof {
        assert(props_view(props@) =~= Seq::empty());
        assert(blocks_view(blocks@) =~= Seq::empty());
    }
    loop
        invariant
            spec_block_head(input@) == Ok::<(Seq<char>, Seq<char>), Chain>((body@, name@)),
            body@.len() < input@.len(),
            rest@.len() <= body@.len(),
            spec_body(rest@, props_view(props@), blocks_view(blocks@)) == spec_body(
                body@,
                Seq::empty(),
                Seq::empty(),
            ),
        decreases rest@.len(),
    {
        proof {
            lemma_property_progress(rest@);
            lemma_block_progress(rest@);
            lemma_ignorable_progress(rest@);
            lemma_brace_progress(rest@, '}', "missing '}'"@);
        }
        if let Ok((next, prop)) = property::<O, E>(rest) {
            proof {
                lemma_props_push(props@, prop);
            }
            props.push(prop);
            rest = next;
        } else if let Ok((next, child)) = block::<O, E>(rest) {
            proof {
                lemma_blocks_push(blocks@, child);
            }
            blocks.push(child);
            rest = next;
        } else if let Some(next) = ignorable::<E>(rest) {
            rest = next;
        } else if let Ok((next, _)) = close_brace::<E>(rest) {
            let found = Block { name: O::from_slice(name), props, blocks };
            proof {
                lemma_block_view(found);
            }
            return Ok((next, found));
        } else if rest.is_empty() {
            let found = Block { name: O::from_slice(name), props, blocks };
            proof {
                lemma_block_view(found);
            }
            return Ok((rest, found));
        } else {
            proof {
                lemma_build::<E>(rest@, base(rest@, ErrorKind::Fail));
            }
            return Err(NomErr::Error(E::from_context(rest, "no parsers matched in block")));
        }
    }
}

/// Parses a [`Vmf`]: one or more blocks. Discards any whitespace and comments
/// between them, and leaves what follows the last block that can be read.
pub fn vmf<'a, O: Text<'a>, E: ParseError<'a>>(input: &'a str) -> (r: IResult<'a, Vmf<O>, E>)
    ensures
        agrees(r, spec_vmf(input@)),
{
    match block::<O, E>(input) {
        Err(NomErr::Error(e)) => {
            proof {
                lemma_build::<E>(input@, spec_block(input@)->Err_0);
                lemma_block_chain(input@);
            }
            Err(NomErr::Error(E::append(input, ErrorKind::Many1, e)))
        },
        Err(e) => Err(e),
        Ok((after_first, first)) => {
            let mut blocks: Vec<Block<O>> = Vec::new();
            blocks.push(first);
            let mut rest = after_first;
            proof {
                assert(blocks_view(blocks@) =~= seq![first@]);
            }
            loop
                invariant
                    spec_block(input@) == Ok::<(Seq<char>, BlockView), Chain>(
                        (after_first@, first@),
                    ),
                    spec_more_blocks(rest@, blocks_view(blocks@)) == spec_more_blocks(
                        after_first@,
                        seq![first@],
                    ),
                decreases rest@.len(),
            {
                proof {
                    lemma_block_progress(rest@);
                }
                match block::<O, E>(rest) {
                    Ok((next, more)) => {
                        proof {
                            lemma_blocks_push(blocks@, more);
                        }
                        blocks.push(more);
                        rest = next;
                    },
                    Err(_) => {
                        return Ok((rest, Vmf::new(blocks)));
                    },
                }
            }
        },
    }
}

} // verus!

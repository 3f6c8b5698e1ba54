//! The grammar of the format, as mathematical functions on character sequences.
//!
//! Each function takes the input that remains and gives either what remains after the
//! construct together with its value, or the chain of failure points, innermost first.
//! A construct is tried in exactly one way: there is no recovery and no second guess
//! but the ordered choice inside a block's body.
use crate::ast::{root_of, BlockView, PropertyView};
use crate::error::{ErrorKind, ParseError, VerboseErrorKindView};
use crate::scan::{after_span, lemma_span, span, CharClass};
use vstd::prelude::*;

verus! {

/// A failure: its points from the innermost outward, each with the input that
/// remained there and what was recorded.
pub type Chain = Seq<(Seq<char>, VerboseErrorKindView)>;

/// What a parser yields on `Seq<char>`: the rest of the input and a value, or a failure.
pub type Parsed<T> = Result<(Seq<char>, T), Chain>;

/// The error that an error type builds from a failure: the base failure from the
/// innermost point, then one step for each point that the failure passed. A chain
/// starts with a category or an expected character, and goes on with categories and
/// tags: no parser yields another.
pub open spec fn build<'a, E: ParseError<'a>>(chain: Chain) -> E::V
    decreases chain.len(),
{
    if chain.len() <= 1 {
        match chain[0].1 {
            VerboseErrorKindView::Char(c) => E::from_char_view(chain[0].0, c),
            VerboseErrorKindView::Nom(kind) => E::from_error_kind_view(chain[0].0, kind),
            VerboseErrorKindView::Context(ctx) => arbitrary(),
        }
    } else {
        let inner = build::<E>(chain.drop_last());
        match chain.last().1 {
            VerboseErrorKindView::Char(c) => arbitrary(),
            VerboseErrorKindView::Nom(kind) => E::append_view(chain.last().0, kind, inner),
            VerboseErrorKindView::Context(ctx) => E::add_context_view(chain.last().0, ctx, inner),
        }
    }
}

/// A failure of one point: `kind` at `at`.
pub open spec fn base(at: Seq<char>, kind: ErrorKind) -> Chain {
    seq![(at, VerboseErrorKindView::Nom(kind))]
}

/// A failure of one point: the character `c` was expected at `at`.
pub open spec fn expected(at: Seq<char>, c: char) -> Chain {
    seq![(at, VerboseErrorKindView::Char(c))]
}

/// The failure `chain` after it passed the boundary tagged `ctx` at `at`.
pub open spec fn in_context(at: Seq<char>, ctx: Seq<char>, chain: Chain) -> Chain {
    chain.push((at, VerboseErrorKindView::Context(ctx)))
}

/// The failure `chain` after it passed the combinator `kind` at `at`.
pub open spec fn appended(at: Seq<char>, kind: ErrorKind, chain: Chain) -> Chain {
    chain.push((at, VerboseErrorKindView::Nom(kind)))
}

/// The input without its leading spaces, tabs, carriage returns and line feeds.
pub open spec fn skip_space(input: Seq<char>) -> Seq<char> {
    after_span(input, CharClass::Whitespace)
}

/// The double quote, which delimits a string and cannot occur inside one.
pub open spec fn quote() -> Seq<char> {
    seq!['"']
}

/// The characters that end a comment.
pub open spec fn line_ends() -> Seq<char> {
    seq!['\n', '\r']
}

/// The character `c`. The value is the character.
pub open spec fn spec_char(input: Seq<char>, c: char) -> Parsed<char> {
    if input.len() > 0 && input[0] == c {
        Ok((input.skip(1), c))
    } else {
        Err(expected(input, c))
    }
}

/// The text up to the next double quote, which must come. The quote is left.
pub open spec fn spec_until_quote(input: Seq<char>) -> Parsed<Seq<char>> {
    if after_span(input, CharClass::NoneOf(quote())).len() > 0 {
        Ok(
            (
                after_span(input, CharClass::NoneOf(quote())),
                input.take(span(input, CharClass::NoneOf(quote())) as int),
            ),
        )
    } else {
        Err(base(input, ErrorKind::TakeUntil))
    }
}

/// A string: a double quote, any characters but a double quote, a double quote.
/// The value is what stands between the quotes. Nothing is skipped around it.
pub open spec fn spec_string(input: Seq<char>) -> Parsed<Seq<char>> {
    if input.len() > 0 && input[0] == '"' {
        let inside = input.skip(1);
        let n = span(inside, CharClass::NoneOf(quote()));
        if n < inside.len() {
            Ok((inside.skip(n as int + 1), inside.take(n as int)))
        } else {
            Err(in_context(input, "string error"@, base(inside, ErrorKind::TakeUntil)))
        }
    } else {
        Err(in_context(input, "string error"@, expected(input, '"')))
    }
}

/// A comment: two slashes and the rest of the line. The line's end is not consumed.
pub open spec fn spec_comment(input: Seq<char>) -> Parsed<()> {
    if "//"@.is_prefix_of(input) {
        Ok((after_span(input.skip("//"@.len() as int), CharClass::NoneOf(line_ends())), ()))
    } else {
        Err(in_context(input, "comment error"@, base(input, ErrorKind::Tag)))
    }
}

/// An identifier: one or more ASCII letters, digits and underscores. Nothing is
/// skipped around it.
pub open spec fn spec_identifier(input: Seq<char>) -> Parsed<Seq<char>> {
    let n = span(input, CharClass::Identifier);
    if n > 0 {
        Ok((input.skip(n as int), input.take(n as int)))
    } else {
        Err(in_context(input, "bad identifier"@, base(input, ErrorKind::Many1Count)))
    }
}

/// Two strings with optional whitespace between them: a key and a value.
pub open spec fn spec_string_pair(input: Seq<char>) -> Parsed<(Seq<char>, Seq<char>)> {
    match spec_string(input) {
        Err(chain) => Err(chain),
        Ok((after_key, key)) => match spec_string(skip_space(after_key)) {
            Err(chain) => Err(chain),
            Ok((after_value, value)) => Ok((after_value, (key, value))),
        },
    }
}

/// A property: a string for the key and a string for the value, with optional
/// whitespace before, between and after them.
pub open spec fn spec_property(input: Seq<char>) -> Parsed<PropertyView> {
    match spec_string(skip_space(input)) {
        Err(chain) => Err(in_context(input, "property error"@, chain)),
        Ok((after_key, key)) => match spec_string(skip_space(after_key)) {
            Err(chain) => Err(in_context(input, "property error"@, chain)),
            Ok((after_value, value)) => Ok((skip_space(after_value), PropertyView { key, value })),
        },
    }
}

/// What may be ignored between the items of a block: one comment, or one non-empty
/// run of whitespace. Gives what remains after it.
pub open spec fn spec_ignorable(input: Seq<char>) -> Option<Seq<char>> {
    match spec_comment(input) {
        Ok((rest, _)) => Some(rest),
        Err(_) => if span(input, CharClass::Whitespace) > 0 {
            Some(skip_space(input))
        } else {
            None
        },
    }
}

/// The input without its leading comments and whitespace.
pub open spec fn skip_ignorable(input: Seq<char>) -> Seq<char>
    decreases input.len(),
{
    match spec_ignorable(input) {
        Some(rest) => if rest.len() < input.len() {
            skip_ignorable(rest)
        } else {
            input
        },
        None => input,
    }
}

/// A brace `c`, with optional whitespace before and after it. `ctx` tags its absence.
pub open spec fn spec_brace(input: Seq<char>, c: char, ctx: Seq<char>) -> Parsed<()> {
    let at = skip_space(input);
    if at.len() > 0 && at[0] == c {
        Ok((skip_space(at.skip(1)), ()))
    } else {
        Err(in_context(input, ctx, expected(at, c)))
    }
}

/// The head of a block: ignorable content, the name, the opening brace. Gives the
/// name and the input where the body begins.
pub open spec fn spec_block_head(input: Seq<char>) -> Parsed<Seq<char>> {
    match spec_identifier(skip_space(skip_ignorable(input))) {
        Err(chain) => Err(chain),
        Ok((after_name, name)) => match spec_brace(skip_space(after_name), '{', "missing '{'"@) {
            Err(chain) => Err(chain),
            Ok((body, _)) => Ok((body, name)),
        },
    }
}

/// The failure of a body at `at`, where no item, nothing ignorable and no closing
/// brace stands, and the input has not ended.
pub open spec fn no_match(at: Seq<char>) -> Chain {
    in_context(at, "no parsers matched in block"@, base(at, ErrorKind::Fail))
}

/// A block: its head, then its body up to the closing brace.
pub open spec fn spec_block(input: Seq<char>) -> Parsed<BlockView>
    decreases input.len(), 0nat,
{
    match spec_block_head(input) {
        Err(chain) => Err(chain),
        Ok((body, name)) => if body.len() < input.len() {
            match spec_body(body, Seq::empty(), Seq::empty()) {
                Err(chain) => Err(chain),
                Ok((rest, (props, blocks))) => Ok((rest, BlockView { name, props, blocks })),
            }
        } else {
            Err(no_match(body))
        },
    }
}

/// The body of a block, after `props` and `blocks` were read from it.
///
/// At each position the first of these that applies is taken: a property; a nested
/// block; something ignorable; the closing brace, which ends the body. Where none
/// applies the body ends, without a brace, if the input has ended; else it fails.
/// A body that ends with the input is accepted on purpose.
pub open spec fn spec_body(
    input: Seq<char>,
    props: Seq<PropertyView>,
    blocks: Seq<BlockView>,
) -> Parsed<(Seq<PropertyView>, Seq<BlockView>)>
    decreases input.len(), 1nat,
{
    if let Ok((rest, prop)) = spec_property(input) {
        if rest.len() < input.len() {
            spec_body(rest, props.push(prop), blocks)
        } else {
            Err(no_match(input))
        }
    } else if let Ok((rest, block)) = spec_block(input) {
        if rest.len() < input.len() {
            spec_body(rest, props, blocks.push(block))
        } else {
            Err(no_match(input))
        }
    } else if let Some(rest) = spec_ignorable(input) {
        if rest.len() < input.len() {
            spec_body(rest, props, blocks)
        } else {
            Err(no_match(input))
        }
    } else if let Ok((rest, _)) = spec_brace(input, '}', "missing '}'"@) {
        Ok((rest, (props, blocks)))
    } else if input.len() == 0 {
        Ok((input, (props, blocks)))
    } else {
        Err(no_match(input))
    }
}

/// The blocks that follow `blocks` at the top level: as many as can be read.
pub open spec fn spec_more_blocks(input: Seq<char>, blocks: Seq<BlockView>) -> (Seq<char>, Seq<
    BlockView,
>)
    decreases input.len(),
{
    match spec_block(input) {
        Ok((rest, block)) => if rest.len() < input.len() {
            spec_more_blocks(rest, blocks.push(block))
        } else {
            (input, blocks)
        },
        Err(_) => (input, blocks),
    }
}

/// A document: one or more blocks, under a root. What follows the last block that
/// can be read is left as the rest.
pub open spec fn spec_vmf(input: Seq<char>) -> Parsed<BlockView> {
    match spec_block(input) {
        Err(chain) => Err(appended(input, ErrorKind::Many1, chain)),
        Ok((rest, first)) => {
            let (rest, blocks) = spec_more_blocks(rest, seq![first]);
            Ok((rest, root_of(blocks)))
        },
    }
}

/// The document that `input` holds, or why it holds none.
pub open spec fn spec_parse(input: Seq<char>) -> Result<BlockView, Chain> {
    match spec_vmf(input) {
        Ok((_, document)) => Ok(document),
        Err(chain) => Err(chain),
    }
}

/// What an error type builds from the failure to find an expected character.
pub proof fn lemma_build_expected<'a, E: ParseError<'a>>(at: Seq<char>, c: char)
    ensures
        build::<E>(expected(at, c)) == E::from_char_view(at, c),
{
    assert(expected(at, c).len() == 1);
    assert(expected(at, c)[0] == (at, VerboseErrorKindView::Char(c)));
}

/// What an error type builds from a failure, point by point.
pub proof fn lemma_build<'a, E: ParseError<'a>>(at: Seq<char>, chain: Chain)
    ensures
        forall|kind: ErrorKind| #[trigger]
            build::<E>(base(at, kind)) == E::from_error_kind_view(at, kind),
        chain.len() > 0 ==> forall|ctx: Seq<char>| #[trigger]
            build::<E>(in_context(at, ctx, chain)) == E::add_context_view(
                at,
                ctx,
                build::<E>(chain),
            ),
        chain.len() > 0 ==> forall|kind: ErrorKind| #[trigger]
            build::<E>(appended(at, kind, chain)) == E::append_view(at, kind, build::<E>(chain)),
{
    if chain.len() > 0 {
        assert forall|ctx: Seq<char>| #[trigger]
            build::<E>(in_context(at, ctx, chain)) == E::add_context_view(
                at,
                ctx,
                build::<E>(chain),
            ) by {
            assert(in_context(at, ctx, chain).drop_last() =~= chain);
        }
        assert forall|kind: ErrorKind| #[trigger]
            build::<E>(appended(at, kind, chain)) == E::append_view(
                at,
                kind,
                build::<E>(chain),
            ) by {
            assert(appended(at, kind, chain).drop_last() =~= chain);
        }
    }
}

/// The failure of a block is never empty.
pub proof fn lemma_block_chain(input: Seq<char>)
    ensures
        spec_block(input) matches Err(chain) ==> chain.len() > 0,
    decreases input.len(), 0nat,
{
    if let Ok((body, name)) = spec_block_head(input) {
        if body.len() < input.len() {
            lemma_body_chain(body, Seq::empty(), Seq::empty());
        }
    }
}

/// The failure of a body is never empty.
pub proof fn lemma_body_chain(input: Seq<char>, props: Seq<PropertyView>, blocks: Seq<BlockView>)
    ensures
        spec_body(input, props, blocks) matches Err(chain) ==> chain.len() > 0,
    decreases input.len(), 1nat,
{
    if let Ok((rest, prop)) = spec_property(input) {
        if rest.len() < input.len() {
            lemma_body_chain(rest, props.push(prop), blocks);
        }
    } else if let Ok((rest, block)) = spec_block(input) {
        if rest.len() < input.len() {
            lemma_body_chain(rest, props, blocks.push(block));
        }
    } else if let Some(rest) = spec_ignorable(input) {
        if rest.len() < input.len() {
            lemma_body_chain(rest, props, blocks);
        }
    }
}

/// Where no whitespace stands, none is skipped.
pub proof fn lemma_skip_nothing(text: Seq<char>)
    requires
        text.len() == 0 || !CharClass::Whitespace.has(text[0]),
    ensures
        skip_space(text) == text,
{
    assert(text.skip(0) =~= text);
}

/// What is left after skipping whitespace starts with none.
pub proof fn lemma_skip_space(text: Seq<char>)
    ensures
        skip_space(text).len() <= text.len(),
        skip_space(text).len() == 0 || !CharClass::Whitespace.has(skip_space(text)[0]),
        skip_space(skip_space(text)) == skip_space(text),
        span(text, CharClass::Whitespace) > 0 ==> skip_space(text).len() < text.len(),
{
    lemma_span(text, CharClass::Whitespace);
    lemma_skip_nothing(skip_space(text));
}

/// A string that is read takes its two quotes at least.
pub proof fn lemma_string_progress(input: Seq<char>)
    ensures
        spec_string(input) matches Ok((rest, _)) ==> rest.len() + 2 <= input.len(),
{
    if input.len() > 0 {
        lemma_span(input.skip(1), CharClass::NoneOf(quote()));
    }
}

/// A property that is read takes part of the input.
pub proof fn lemma_property_progress(input: Seq<char>)
    ensures
        spec_property(input) matches Ok((rest, _)) ==> rest.len() < input.len(),
{
    lemma_skip_space(input);
    lemma_string_progress(skip_space(input));
    if let Ok((after_key, _)) = spec_string(skip_space(input)) {
        lemma_skip_space(after_key);
        lemma_string_progress(skip_space(after_key));
        if let Ok((after_value, _)) = spec_string(skip_space(after_key)) {
            lemma_skip_space(after_value);
        }
    }
}

/// Something ignorable that is read takes part of the input.
pub proof fn lemma_ignorable_progress(input: Seq<char>)
    ensures
        spec_ignorable(input) matches Some(rest) ==> rest.len() < input.len(),
{
    lemma_skip_space(input);
    if "//"@.is_prefix_of(input) {
        reveal_strlit("//");
        lemma_span(input.skip(2), CharClass::NoneOf(line_ends()));
    }
}

/// Skipping what is ignorable never lengthens the input.
pub proof fn lemma_skip_ignorable(input: Seq<char>)
    ensures
        skip_ignorable(input).len() <= input.len(),
    decreases input.len(),
{
    if let Some(rest) = spec_ignorable(input) {
        if rest.len() < input.len() {
            lemma_skip_ignorable(rest);
        }
    }
}

/// A brace that is read takes part of the input.
pub proof fn lemma_brace_progress(input: Seq<char>, c: char, ctx: Seq<char>)
    ensures
        spec_brace(input, c, ctx) matches Ok((rest, _)) ==> rest.len() < input.len(),
{
    lemma_skip_space(input);
    let at = skip_space(input);
    if at.len() > 0 {
        lemma_skip_space(at.skip(1));
    }
}

/// The head of a block that is read takes part of the input.
pub proof fn lemma_head_progress(input: Seq<char>)
    ensures
        spec_block_head(input) matches Ok((body, _)) ==> body.len() < input.len(),
{
    lemma_skip_ignorable(input);
    let start = skip_space(skip_ignorable(input));
    lemma_skip_space(skip_ignorable(input));
    lemma_span(start, CharClass::Identifier);
    if let Ok((after_name, _)) = spec_identifier(start) {
        lemma_skip_space(after_name);
        lemma_brace_progress(skip_space(after_name), '{', "missing '{'"@);
    }
}

/// A block that is read takes part of the input.
pub proof fn lemma_block_progress(input: Seq<char>)
    ensures
        spec_block(input) matches Ok((rest, _)) ==> rest.len() < input.len(),
    decreases input.len(), 0nat,
{
    lemma_head_progress(input);
    if let Ok((body, _)) = spec_block_head(input) {
        lemma_body_progress(body, Seq::empty(), Seq::empty());
    }
}

/// A body that is read leaves no more than it was given.
pub proof fn lemma_body_progress(
    input: Seq<char>,
    props: Seq<PropertyView>,
    blocks: Seq<BlockView>,
)
    ensures
        spec_body(input, props, blocks) matches Ok((rest, _)) ==> rest.len() <= input.len(),
    decreases input.len(), 1nat,
{
    if let Ok((rest, prop)) = spec_property(input) {
        if rest.len() < input.len() {
            lemma_body_progress(rest, props.push(prop), blocks);
        }
    } else if let Ok((rest, block)) = spec_block(input) {
        if rest.len() < input.len() {
            lemma_body_progress(rest, props, blocks.push(block));
        }
    } else if let Some(rest) = spec_ignorable(input) {
        if rest.len() < input.len() {
            lemma_body_progress(rest, props, blocks);
        }
    } else {
        lemma_brace_progress(input, '}', "missing '}'"@);
    }
}

} // verus!

//! Why parsing undoes rendering: which trees are read back from their canonical text
//! as themselves, and the proofs that they are. The statements for users of the
//! library are in [`crate::laws`].
use crate::ast::{is_root, root_of, BlockView, PropertyView};
use crate::display::{
    block_text, block_text_in, blocks_text, deeper, document_text, lemma_padded_concat,
    lemma_padded_plain, padded, property_line, property_text, props_text,
};
use crate::grammar::{
    lemma_block_progress, lemma_head_progress, lemma_property_progress, lemma_skip_nothing,
    lemma_skip_space, quote, skip_ignorable, skip_space, spec_block, spec_block_head, spec_body,
    spec_ignorable, spec_more_blocks, spec_parse, spec_property, spec_string, Chain, Parsed,
};
use crate::scan::{lemma_span, lemma_span_is, span, CharClass};
use vstd::prelude::*;

verus! {

/// Text of whitespace only.
pub open spec fn blank(text: Seq<char>) -> bool {
    forall|i: int| 0 <= i < text.len() ==> CharClass::Whitespace.has(#[trigger] text[i])
}

/// A name that the grammar reads as one identifier.
pub open spec fn is_identifier(name: Seq<char>) -> bool {
    name.len() > 0 && forall|i: int|
        0 <= i < name.len() ==> CharClass::Identifier.has(#[trigger] name[i])
}

/// A property whose key and value can stand between double quotes.
pub open spec fn quotable(p: PropertyView) -> bool {
    !p.key.contains('"') && !p.value.contains('"')
}

/// A property whose key and value hold no line feed, so that no padding enters them.
pub open spec fn on_one_line(p: PropertyView) -> bool {
    !p.key.contains('\n') && !p.value.contains('\n')
}

/// A block as the parser yields them: every name is an identifier, and no key or
/// value holds a double quote.
pub open spec fn well_formed(b: BlockView) -> bool
    decreases b,
{
    &&& is_identifier(b.name)
    &&& forall|i: int| 0 <= i < b.props.len() ==> quotable(#[trigger] b.props[i])
    &&& forall|i: int| 0 <= i < b.blocks.len() ==> well_formed(#[trigger] b.blocks[i])
}

/// A block in which no key or value holds a line feed.
pub open spec fn single_lined(b: BlockView) -> bool
    decreases b,
{
    &&& forall|i: int| 0 <= i < b.props.len() ==> on_one_line(#[trigger] b.props[i])
    &&& forall|i: int| 0 <= i < b.blocks.len() ==> single_lined(#[trigger] b.blocks[i])
}

/// A block whose canonical text is read back as the block itself.
pub open spec fn printable(b: BlockView) -> bool {
    well_formed(b) && single_lined(b)
}

/// A property as it is read back from a line that was padded with `padding`: each
/// line feed in its key and value is followed by the padding.
pub open spec fn reread_property(p: PropertyView, padding: Seq<char>) -> PropertyView {
    PropertyView { key: padded(p.key, padding), value: padded(p.value, padding) }
}

/// Properties as they are read back from lines that were padded with `padding`.
pub open spec fn reread_props(props: Seq<PropertyView>, padding: Seq<char>) -> Seq<PropertyView> {
    Seq::new(props.len(), |i: int| reread_property(props[i], padding))
}

/// A block as it is read back from its canonical text where lines were padded with
/// `padding`: the same names, and the keys and values with the padding of their
/// lines after each line feed.
pub open spec fn reread(b: BlockView, padding: Seq<char>) -> BlockView
    decreases b,
{
    BlockView {
        name: b.name,
        props: reread_props(b.props, deeper(padding)),
        blocks: Seq::new(
            b.blocks.len(),
            |i: int|
                if 0 <= i < b.blocks.len() {
                    reread(b.blocks[i], deeper(padding))
                } else {
                    arbitrary()
                },
        ),
    }
}

/// Blocks as they are read back from their canonical text where lines were padded
/// with `padding`.
pub open spec fn reread_blocks(blocks: Seq<BlockView>, padding: Seq<char>) -> Seq<BlockView> {
    Seq::new(blocks.len(), |i: int| reread(blocks[i], padding))
}

/// A run of members of a class before other text is part of the span.
proof fn lemma_span_over(run: Seq<char>, text: Seq<char>, class: CharClass)
    requires
        forall|i: int| 0 <= i < run.len() ==> class.has(#[trigger] run[i]),
    ensures
        span(run + text, class) == run.len() + span(text, class),
    decreases run.len(),
{
    if run.len() == 0 {
        assert(run + text =~= text);
    } else {
        assert((run + text).skip(1) =~= run.skip(1) + text);
        assert((run + text)[0] == run[0]);
        lemma_span_over(run.skip(1), text, class);
    }
}

/// Whitespace before a text is skipped with the text's own.
proof fn lemma_skip_blank(run: Seq<char>, text: Seq<char>)
    requires
        blank(run),
    ensures
        skip_space(run + text) == skip_space(text),
{
    lemma_span_over(run, text, CharClass::Whitespace);
    lemma_span(text, CharClass::Whitespace);
    assert(skip_space(run + text) =~= skip_space(text));
}

/// A quoted text is read as a string, whatever follows it.
proof fn lemma_string(content: Seq<char>, after: Seq<char>)
    requires
        !content.contains('"'),
    ensures
        spec_string(seq!['"'] + content + seq!['"'] + after) == Ok::<
            (Seq<char>, Seq<char>),
            Chain,
        >((after, content)),
{
    let input = seq!['"'] + content + seq!['"'] + after;
    let inside = input.skip(1);
    let class = CharClass::NoneOf(quote());
    assert(inside =~= content + seq!['"'] + after);
    assert(quote().contains('"')) by {
        assert(quote()[0] == '"');
    }
    assert forall|i: int| 0 <= i < content.len() implies class.has(#[trigger] inside[i]) by {
        assert(inside[i] == content[i]);
        if quote().contains(content[i]) {
            assert(content[i] == '"');
            assert(content.contains('"'));
        }
    }
    lemma_span_is(inside, class, content.len() as int);
    assert(inside.skip(content.len() as int + 1) =~= after);
    assert(inside.take(content.len() as int) =~= content);
}

/// The text of a property is read as the property, whatever stands around it.
proof fn lemma_property(p: PropertyView, before: Seq<char>, after: Seq<char>)
    requires
        quotable(p),
        blank(before),
    ensures
        spec_property(before + property_text(p) + after) == Ok::<(Seq<char>, PropertyView), Chain>(
            (skip_space(after), p),
        ),
{
    let value_on = seq!['"'] + p.value + seq!['"'] + after;
    let key_on = seq!['"'] + p.key + seq!['"'] + (seq![' '] + value_on);
    assert(before + property_text(p) + after =~= before + key_on);
    lemma_skip_blank(before, key_on);
    lemma_skip_nothing(key_on);
    lemma_string(p.key, seq![' '] + value_on);
    lemma_skip_blank(seq![' '], value_on);
    lemma_skip_nothing(value_on);
    lemma_string(p.value, after);
}

/// Whitespace before what is ignorable is skipped with it.
proof fn lemma_skip_ignorable_space(input: Seq<char>)
    ensures
        skip_ignorable(skip_space(input)) == skip_ignorable(input),
{
    lemma_skip_space(input);
    if span(input, CharClass::Whitespace) > 0 {
        reveal_strlit("//");
        lemma_span(input, CharClass::Whitespace);
        assert(input[0] != '/');
        assert(!"//"@.is_prefix_of(input)) by {
            if "//"@.is_prefix_of(input) {
                assert(input[0] == "//"@[0]);
            }
        }
    } else {
        lemma_skip_nothing(input);
    }
}

/// Whitespace before a block changes nothing of how the block is read.
proof fn lemma_block_space(input: Seq<char>)
    ensures
        spec_block(skip_space(input)) == spec_block(input),
{
    lemma_skip_space(input);
    lemma_skip_ignorable_space(input);
    lemma_head_progress(input);
    lemma_head_progress(skip_space(input));
}

/// Whitespace before a property changes nothing of what is read as the property.
proof fn lemma_property_space(input: Seq<char>)
    ensures
        spec_property(skip_space(input)) is Ok <==> spec_property(input) is Ok,
        spec_property(input) is Ok ==> spec_property(skip_space(input)) == spec_property(input),
{
    lemma_skip_space(input);
}

/// Whitespace before the items of a body changes nothing of how the body is read.
proof fn lemma_body_space(input: Seq<char>, props: Seq<PropertyView>, blocks: Seq<BlockView>)
    ensures
        spec_body(skip_space(input), props, blocks) == spec_body(input, props, blocks),
{
    lemma_skip_space(input);
    if span(input, CharClass::Whitespace) > 0 {
        let rest = skip_space(input);
        lemma_property_space(input);
        lemma_block_space(input);
        lemma_property_progress(input);
        lemma_property_progress(rest);
        lemma_block_progress(input);
        lemma_block_progress(rest);
        if spec_property(input) is Ok {
        } else if spec_block(input) is Ok {
        } else {
            reveal_strlit("//");
            lemma_span(input, CharClass::Whitespace);
            assert(!"//"@.is_prefix_of(input)) by {
                if "//"@.is_prefix_of(input) {
                    assert(input[0] == "//"@[0]);
                }
            }
            assert(spec_ignorable(input) == Some(rest));
        }
    } else {
        lemma_skip_nothing(input);
    }
}

/// Where a token stands that starts neither a string nor a name nor a comment,
/// neither a property nor a block nor anything ignorable is read.
proof fn lemma_no_item(input: Seq<char>)
    requires
        input.len() == 0 || (input[0] != '"' && input[0] != '/' && !CharClass::Identifier.has(
            input[0],
        ) && !CharClass::Whitespace.has(input[0])),
    ensures
        spec_property(input) is Err,
        spec_block(input) is Err,
        spec_ignorable(input) is None,
{
    reveal_strlit("//");
    lemma_skip_nothing(input);
    assert(!"//"@.is_prefix_of(input)) by {
        if "//"@.is_prefix_of(input) {
            assert(input[0] == "//"@[0]);
        }
    }
    assert(skip_ignorable(input) == input);
}

/// Before a closing brace a body ends: what was read is the body, and the input
/// goes on after the brace and the whitespace that follows it.
proof fn lemma_body_closes(
    padding: Seq<char>,
    after: Seq<char>,
    props: Seq<PropertyView>,
    blocks: Seq<BlockView>,
)
    requires
        blank(padding),
    ensures
        spec_body(padding + seq!['}'] + after, props, blocks) == Ok::<
            (Seq<char>, (Seq<PropertyView>, Seq<BlockView>)),
            Chain,
        >((skip_space(after), (props, blocks))),
{
    let closing = seq!['}'] + after;
    assert(padding + seq!['}'] + after =~= padding + closing);
    lemma_skip_blank(padding, closing);
    lemma_skip_nothing(closing);
    lemma_body_space(padding + closing, props, blocks);
    lemma_no_item(closing);
    assert(closing.skip(1) =~= after);
}

/// At the end of the input a body ends without a brace: what was read is the body.
proof fn lemma_body_ends(padding: Seq<char>, props: Seq<PropertyView>, blocks: Seq<BlockView>)
    requires
        blank(padding),
    ensures
        spec_body(padding, props, blocks) == Ok::<
            (Seq<char>, (Seq<PropertyView>, Seq<BlockView>)),
            Chain,
        >((Seq::empty(), (props, blocks))),
{
    let nothing = Seq::<char>::empty();
    assert(padding + nothing =~= padding);
    lemma_skip_blank(padding, nothing);
    lemma_skip_nothing(nothing);
    lemma_body_space(padding, props, blocks);
    lemma_no_item(nothing);
}

/// Padding with whitespace brings no double quote into a text.
proof fn lemma_padded_quotable(text: Seq<char>, padding: Seq<char>)
    requires
        !text.contains('"'),
        blank(padding),
    ensures
        !padded(text, padding).contains('"'),
    decreases text.len(),
{
    if text.len() > 0 {
        let rest = text.skip(1);
        assert(text.contains(text[0]));
        assert forall|c: char| rest.contains(c) implies text.contains(c) by {
            let i = choose|i: int| 0 <= i < rest.len() && rest[i] == c;
            assert(text[i + 1] == c);
        }
        lemma_padded_quotable(rest, padding);
        let tail = padded(rest, padding);
        let all = padded(text, padding);
        if all.contains('"') {
            let i = choose|i: int| 0 <= i < all.len() && all[i] == '"';
            if text[0] == '\n' {
                if 1 <= i < 1 + padding.len() {
                    assert(CharClass::Whitespace.has(padding[i - 1]));
                } else if i >= 1 + padding.len() {
                    assert(tail[i - 1 - padding.len()] == '"');
                    assert(tail.contains('"'));
                }
            } else {
                if i >= 1 {
                    assert(tail[i - 1] == '"');
                    assert(tail.contains('"'));
                }
            }
        }
    }
}

/// The padded text of a property is the text of the property as it is read back.
proof fn lemma_property_padded(p: PropertyView, padding: Seq<char>)
    requires
        quotable(p),
        blank(padding),
    ensures
        padded(property_text(p), padding) == property_text(reread_property(p, padding)),
        quotable(reread_property(p, padding)),
{
    let open = seq!['"'];
    let mid = seq!['"', ' ', '"'];
    lemma_padded_concat(open + p.key + mid + p.value, open, padding);
    lemma_padded_concat(open + p.key + mid, p.value, padding);
    lemma_padded_concat(open + p.key, mid, padding);
    lemma_padded_concat(open, p.key, padding);
    assert(!open.contains('\n'));
    assert(!mid.contains('\n'));
    lemma_padded_plain(open, padding);
    lemma_padded_plain(mid, padding);
    lemma_padded_quotable(p.key, padding);
    lemma_padded_quotable(p.value, padding);
}

/// An identifier holds no line feed, and starts with a character that starts
/// neither a string nor a comment nor whitespace.
proof fn lemma_identifier(name: Seq<char>, padding: Seq<char>)
    requires
        is_identifier(name),
    ensures
        padded(name, padding) == name,
        name[0] != '"' && name[0] != '/' && !CharClass::Whitespace.has(name[0]),
{
    if name.contains('\n') {
        let i = choose|i: int| 0 <= i < name.len() && name[i] == '\n';
        assert(CharClass::Identifier.has(name[i]));
    }
    lemma_padded_plain(name, padding);
    assert(CharClass::Identifier.has(name[0]));
}

/// The lines of properties, from the first on.
proof fn lemma_props_text_first(props: Seq<PropertyView>, padding: Seq<char>)
    requires
        props.len() > 0,
    ensures
        props_text(props, padding) == property_line(props[0], padding) + props_text(
            props.skip(1),
            padding,
        ),
    decreases props.len(),
{
    if props.len() == 1 {
        assert(props.drop_last() =~= Seq::empty());
        assert(props.skip(1) =~= Seq::empty());
        assert(props_text(props, padding) =~= property_line(props[0], padding) + props_text(
            props.skip(1),
            padding,
        ));
    } else {
        lemma_props_text_first(props.drop_last(), padding);
        assert(props.drop_last().skip(1) =~= props.skip(1).drop_last());
        assert(props.skip(1).last() == props.last());
        assert(props_text(props, padding) =~= property_line(props[0], padding) + props_text(
            props.skip(1),
            padding,
        ));
    }
}

/// The lines of child blocks, from the first on.
proof fn lemma_blocks_text_first(blocks: Seq<BlockView>, padding: Seq<char>)
    requires
        blocks.len() > 0,
    ensures
        blocks_text(blocks, padding) == padding + block_text_in(blocks[0], padding) + seq!['\n']
            + blocks_text(blocks.skip(1), padding),
    decreases blocks.len(),
{
    if blocks.len() == 1 {
        assert(blocks.drop_last() =~= Seq::empty());
        assert(blocks.skip(1) =~= Seq::empty());
        assert(blocks_text(blocks, padding) =~= padding + block_text_in(blocks[0], padding)
            + seq!['\n'] + blocks_text(blocks.skip(1), padding));
    } else {
        lemma_blocks_text_first(blocks.drop_last(), padding);
        assert(blocks.drop_last().skip(1) =~= blocks.skip(1).drop_last());
        assert(blocks.skip(1).last() == blocks.last());
        assert(blocks_text(blocks, padding) =~= padding + block_text_in(blocks[0], padding)
            + seq!['\n'] + blocks_text(blocks.skip(1), padding));
    }
}

/// A block's text up to its last item: all but the line of the closing brace.
spec fn block_open_text(b: BlockView, padding: Seq<char>) -> Seq<char> {
    padded(b.name, padding) + seq!['\n'] + padding + seq!['{', '\n'] + props_text(
        b.props,
        deeper(padding),
    ) + blocks_text(b.blocks, deeper(padding))
}

/// The block that a body makes under the name `name`.
spec fn named(
    name: Seq<char>,
    body: Parsed<(Seq<PropertyView>, Seq<BlockView>)>,
) -> Parsed<BlockView> {
    match body {
        Err(chain) => Err(chain),
        Ok((rest, (props, blocks))) => Ok((rest, BlockView { name, props, blocks })),
    }
}

/// A name on a line of its own, and a line with the opening brace, are read as the
/// head of a block.
proof fn lemma_head(name: Seq<char>, padding: Seq<char>, body: Seq<char>)
    requires
        is_identifier(name),
        blank(padding),
    ensures
        spec_block_head(name + seq!['\n'] + padding + seq!['{', '\n'] + body) == Ok::<
            (Seq<char>, Seq<char>),
            Chain,
        >((skip_space(body), name)),
{
    let from_brace = seq!['{'] + (seq!['\n'] + body);
    let gap = seq!['\n'] + padding;
    let from_gap = gap + from_brace;
    let input = name + from_gap;
    assert(name + seq!['\n'] + padding + seq!['{', '\n'] + body =~= input);
    lemma_identifier(name, padding);
    reveal_strlit("//");
    assert(input[0] == name[0]);
    assert(!"//"@.is_prefix_of(input)) by {
        if "//"@.is_prefix_of(input) {
            assert(input[0] == "//"@[0]);
        }
    }
    assert(spec_ignorable(input) is None);
    assert(skip_ignorable(input) == input);
    lemma_skip_nothing(input);
    lemma_span_over(name, from_gap, CharClass::Identifier);
    assert(from_gap[0] == '\n');
    assert(span(from_gap, CharClass::Identifier) == 0);
    assert(input.skip(name.len() as int) =~= from_gap);
    assert(input.take(name.len() as int) =~= name);
    assert(blank(gap));
    lemma_skip_blank(gap, from_brace);
    lemma_skip_nothing(from_brace);
    assert(from_brace.skip(1) =~= seq!['\n'] + body);
    lemma_skip_blank(seq!['\n'], body);
}

/// Where a name stands, no property is read.
proof fn lemma_no_property(input: Seq<char>)
    requires
        input.len() > 0,
        input[0] != '"',
        !CharClass::Whitespace.has(input[0]),
    ensures
        spec_property(input) is Err,
{
    lemma_skip_nothing(input);
}

/// The line of a property is read as the property, with the padding in its key and
/// value, and the body goes on after it.
proof fn lemma_item_property(
    prop: PropertyView,
    padding: Seq<char>,
    next: Seq<char>,
    props: Seq<PropertyView>,
    blocks: Seq<BlockView>,
)
    requires
        quotable(prop),
        blank(padding),
    ensures
        spec_body(property_line(prop, padding) + next, props, blocks) == spec_body(
            next,
            props.push(reread_property(prop, padding)),
            blocks,
        ),
{
    let read = reread_property(prop, padding);
    let after = seq!['\n'] + next;
    let input = property_line(prop, padding) + next;
    lemma_property_padded(prop, padding);
    assert(input =~= padding + property_text(read) + after);
    lemma_property(read, padding, after);
    lemma_skip_blank(seq!['\n'], next);
    lemma_property_progress(input);
    lemma_body_space(next, props.push(read), blocks);
}

/// The lines of a child block that is read as `read` are read as an item of the
/// body, and the body goes on after them.
proof fn lemma_item_block(
    child: BlockView,
    read: BlockView,
    padding: Seq<char>,
    next: Seq<char>,
    props: Seq<PropertyView>,
    blocks: Seq<BlockView>,
)
    requires
        is_identifier(child.name),
        blank(padding),
        spec_block(block_text_in(child, padding) + (seq!['\n'] + next)) == Ok::<
            (Seq<char>, BlockView),
            Chain,
        >((skip_space(seq!['\n'] + next), read)),
    ensures
        spec_body(
            padding + block_text_in(child, padding) + seq!['\n'] + next,
            props,
            blocks,
        ) == spec_body(next, props, blocks.push(read)),
{
    let after = seq!['\n'] + next;
    let from_child = block_text_in(child, padding) + after;
    let input = padding + block_text_in(child, padding) + seq!['\n'] + next;
    assert(input =~= padding + from_child);
    lemma_identifier(child.name, padding);
    assert(from_child[0] == child.name[0]);
    lemma_skip_blank(padding, from_child);
    lemma_skip_nothing(from_child);
    lemma_property_space(input);
    lemma_no_property(from_child);
    lemma_block_space(input);
    lemma_skip_blank(seq!['\n'], next);
    lemma_block_progress(input);
    lemma_body_space(next, props, blocks.push(read));
}

/// The lines of the properties from `i` on, and of the children from `j` on, and
/// what follows them.
spec fn items_text(
    props: Seq<PropertyView>,
    i: int,
    blocks: Seq<BlockView>,
    j: int,
    padding: Seq<char>,
    tail: Seq<char>,
) -> Seq<char> {
    props_text(props.skip(i), padding) + (blocks_text(blocks.skip(j), padding) + tail)
}

/// The items from property `i` on start with the line of property `i`.
proof fn lemma_items_from_property(
    props: Seq<PropertyView>,
    i: int,
    blocks: Seq<BlockView>,
    j: int,
    padding: Seq<char>,
    tail: Seq<char>,
)
    requires
        0 <= i < props.len(),
    ensures
        items_text(props, i, blocks, j, padding, tail) == property_line(props[i], padding)
            + items_text(props, i + 1, blocks, j, padding, tail),
{
    let left = props.skip(i);
    assert(left.skip(1) =~= props.skip(i + 1));
    assert(left[0] == props[i]);
    lemma_props_text_first(left, padding);
    assert(items_text(props, i, blocks, j, padding, tail) =~= property_line(props[i], padding)
        + items_text(props, i + 1, blocks, j, padding, tail));
}

/// The items after the last property, from child `j` on, start with the lines of
/// child `j`.
proof fn lemma_items_from_block(
    props: Seq<PropertyView>,
    blocks: Seq<BlockView>,
    j: int,
    padding: Seq<char>,
    tail: Seq<char>,
)
    requires
        0 <= j < blocks.len(),
    ensures
        items_text(props, props.len() as int, blocks, j, padding, tail) == padding
            + block_text_in(blocks[j], padding) + seq!['\n'] + items_text(
            props,
            props.len() as int,
            blocks,
            j + 1,
            padding,
            tail,
        ),
{
    let left = blocks.skip(j);
    assert(left.skip(1) =~= blocks.skip(j + 1));
    assert(left[0] == blocks[j]);
    assert(props.skip(props.len() as int) =~= Seq::empty());
    lemma_blocks_text_first(left, padding);
    assert(items_text(props, props.len() as int, blocks, j, padding, tail) =~= padding
        + block_text_in(blocks[j], padding) + seq!['\n'] + items_text(
        props,
        props.len() as int,
        blocks,
        j + 1,
        padding,
        tail,
    ));
}

/// One more property read is one less to read.
proof fn lemma_reread_props_from(
    read: Seq<PropertyView>,
    props: Seq<PropertyView>,
    i: int,
    padding: Seq<char>,
)
    requires
        0 <= i < props.len(),
    ensures
        read.push(reread_property(props[i], padding)) + reread_props(props.skip(i + 1), padding)
            == read + reread_props(props.skip(i), padding),
{
    assert(read.push(reread_property(props[i], padding)) + reread_props(
        props.skip(i + 1),
        padding,
    ) =~= read + reread_props(props.skip(i), padding));
}

/// One more block read is one less to read.
proof fn lemma_reread_blocks_from(
    read: Seq<BlockView>,
    blocks: Seq<BlockView>,
    j: int,
    padding: Seq<char>,
)
    requires
        0 <= j < blocks.len(),
    ensures
        read.push(reread(blocks[j], padding)) + reread_blocks(blocks.skip(j + 1), padding) == read
            + reread_blocks(blocks.skip(j), padding),
{
    assert(read.push(reread(blocks[j], padding)) + reread_blocks(blocks.skip(j + 1), padding)
        =~= read + reread_blocks(blocks.skip(j), padding));
}

/// The items of a well-formed block from property `i` and child `j` on are read as
/// these properties and these children, whatever follows them.
proof fn lemma_items(
    b: BlockView,
    i: int,
    j: int,
    padding: Seq<char>,
    tail: Seq<char>,
    props: Seq<PropertyView>,
    blocks: Seq<BlockView>,
)
    requires
        well_formed(b),
        blank(padding),
        0 <= i <= b.props.len(),
        0 <= j <= b.blocks.len(),
        i < b.props.len() ==> j == 0,
    ensures
        spec_body(items_text(b.props, i, b.blocks, j, padding, tail), props, blocks) == spec_body(
            tail,
            props + reread_props(b.props.skip(i), padding),
            blocks + reread_blocks(b.blocks.skip(j), padding),
        ),
    decreases b, (b.props.len() - i) + (b.blocks.len() - j) + 1,
{
    if i < b.props.len() {
        let next = items_text(b.props, i + 1, b.blocks, j, padding, tail);
        lemma_items_from_property(b.props, i, b.blocks, j, padding, tail);
        assert(quotable(b.props[i]));
        lemma_item_property(b.props[i], padding, next, props, blocks);
        lemma_items(
            b,
            i + 1,
            j,
            padding,
            tail,
            props.push(reread_property(b.props[i], padding)),
            blocks,
        );
        lemma_reread_props_from(props, b.props, i, padding);
    } else if j < b.blocks.len() {
        let child = b.blocks[j];
        let next = items_text(b.props, i, b.blocks, j + 1, padding, tail);
        lemma_items_from_block(b.props, b.blocks, j, padding, tail);
        assert(well_formed(child));
        lemma_block(child, padding, seq!['\n'] + next);
        lemma_item_block(child, reread(child, padding), padding, next, props, blocks);
        lemma_items(b, i, j + 1, padding, tail, props, blocks.push(reread(child, padding)));
        lemma_reread_blocks_from(blocks, b.blocks, j, padding);
    } else {
        assert(b.props.skip(i) =~= Seq::empty());
        assert(b.blocks.skip(j) =~= Seq::empty());
        assert(items_text(b.props, i, b.blocks, j, padding, tail) =~= tail);
        assert(props + reread_props(b.props.skip(i), padding) =~= props);
        assert(blocks + reread_blocks(b.blocks.skip(j), padding) =~= blocks);
    }
}

/// The text of a well-formed block up to its last item is read as the block's
/// head and items; how the block ends is for what follows to say.
proof fn lemma_block_open(b: BlockView, padding: Seq<char>, tail: Seq<char>)
    requires
        well_formed(b),
        blank(padding),
    ensures
        spec_block(block_open_text(b, padding) + tail) == named(
            b.name,
            spec_body(tail, reread(b, padding).props, reread(b, padding).blocks),
        ),
    decreases b, b.props.len() + b.blocks.len() + 2,
{
    let inner = deeper(padding);
    let body = items_text(b.props, 0, b.blocks, 0, inner, tail);
    let input = block_open_text(b, padding) + tail;
    lemma_identifier(b.name, padding);
    assert(b.props.skip(0) =~= b.props);
    assert(b.blocks.skip(0) =~= b.blocks);
    assert(input =~= b.name + seq!['\n'] + padding + seq!['{', '\n'] + body);
    lemma_head(b.name, padding, body);
    lemma_head_progress(input);
    lemma_body_space(body, Seq::empty(), Seq::empty());
    assert(blank(inner));
    lemma_items(b, 0, 0, inner, tail, Seq::empty(), Seq::empty());
    assert(Seq::<PropertyView>::empty() + reread_props(b.props, inner) =~= reread(
        b,
        padding,
    ).props);
    assert(Seq::<BlockView>::empty() + reread_blocks(b.blocks, inner) =~= reread(
        b,
        padding,
    ).blocks);
}

/// The text of a well-formed block is read as the block with the padding in its
/// keys and values, whatever follows it.
pub proof fn lemma_block(b: BlockView, padding: Seq<char>, after: Seq<char>)
    requires
        well_formed(b),
        blank(padding),
    ensures
        spec_block(block_text_in(b, padding) + after) == Ok::<(Seq<char>, BlockView), Chain>(
            (skip_space(after), reread(b, padding)),
        ),
    decreases b, b.props.len() + b.blocks.len() + 3,
{
    let tail = padding + seq!['}'] + after;
    let read = reread(b, padding);
    assert(block_text_in(b, padding) + after =~= block_open_text(b, padding) + tail);
    lemma_block_open(b, padding, tail);
    lemma_body_closes(padding, after, read.props, read.blocks);
}

/// Padding lengthens a text that holds a line feed, and shortens none.
proof fn lemma_padded_longer(text: Seq<char>, padding: Seq<char>)
    ensures
        padded(text, padding).len() >= text.len(),
        text.contains('\n') && padding.len() > 0 ==> padded(text, padding).len() > text.len(),
    decreases text.len(),
{
    if text.len() > 0 {
        let rest = text.skip(1);
        lemma_padded_longer(rest, padding);
        if text.contains('\n') && text[0] != '\n' {
            let i = choose|i: int| 0 <= i < text.len() && text[i] == '\n';
            assert(rest[i - 1] == '\n');
            assert(rest.contains('\n'));
        }
    }
}

/// A block is read back as itself if and only if no key or value in it holds a line
/// feed.
pub proof fn lemma_reread_same(b: BlockView, padding: Seq<char>)
    ensures
        reread(b, padding) == b <==> single_lined(b),
    decreases b,
{
    let inner = deeper(padding);
    let read = reread(b, padding);
    assert forall|i: int| 0 <= i < b.blocks.len() implies (#[trigger] read.blocks[i]
        == b.blocks[i] <==> single_lined(b.blocks[i])) by {
        lemma_reread_same(b.blocks[i], inner);
    }
    assert forall|i: int| 0 <= i < b.props.len() implies (#[trigger] read.props[i] == b.props[i]
        <==> on_one_line(b.props[i])) by {
        let p = b.props[i];
        lemma_padded_longer(p.key, inner);
        lemma_padded_longer(p.value, inner);
        if on_one_line(p) {
            lemma_padded_plain(p.key, inner);
            lemma_padded_plain(p.value, inner);
        }
    }
    if single_lined(b) {
        assert(read.props =~= b.props);
        assert(read.blocks =~= b.blocks);
    }
    if read == b {
        assert forall|i: int| 0 <= i < b.props.len() implies on_one_line(#[trigger] b.props[i]) by {
            assert(read.props[i] == b.props[i]);
        }
        assert forall|i: int| 0 <= i < b.blocks.len() implies single_lined(
            #[trigger] b.blocks[i],
        ) by {
            assert(read.blocks[i] == b.blocks[i]);
        }
    }
}

/// Top-level blocks that follow another: a line feed before each.
spec fn following_text(blocks: Seq<BlockView>) -> Seq<char>
    decreases blocks.len(),
{
    if blocks.len() == 0 {
        Seq::empty()
    } else {
        seq!['\n'] + block_text(blocks[0]) + following_text(blocks.skip(1))
    }
}

/// One more block at the end is one more line feed and block at the end.
proof fn lemma_following_text_last(blocks: Seq<BlockView>)
    requires
        blocks.len() > 0,
    ensures
        following_text(blocks) == following_text(blocks.drop_last()) + seq!['\n'] + block_text(
            blocks.last(),
        ),
    decreases blocks.len(),
{
    if blocks.len() == 1 {
        assert(blocks.skip(1) =~= Seq::empty());
        assert(blocks.drop_last() =~= Seq::empty());
        assert(following_text(blocks) =~= following_text(blocks.drop_last()) + seq!['\n']
            + block_text(blocks.last()));
    } else {
        lemma_following_text_last(blocks.skip(1));
        assert(blocks.skip(1).drop_last() =~= blocks.drop_last().skip(1));
        assert(blocks.skip(1).last() == blocks.last());
        assert(blocks.drop_last()[0] == blocks[0]);
        assert(following_text(blocks) =~= following_text(blocks.drop_last()) + seq!['\n']
            + block_text(blocks.last()));
    }
}

/// The text of a document is its first block and those that follow.
proof fn lemma_document_text(blocks: Seq<BlockView>)
    requires
        blocks.len() > 0,
    ensures
        document_text(blocks) == block_text(blocks[0]) + following_text(blocks.skip(1)),
    decreases blocks.len(),
{
    if blocks.len() == 1 {
        assert(blocks.skip(1) =~= Seq::empty());
        assert(document_text(blocks) =~= block_text(blocks[0]) + following_text(blocks.skip(1)));
    } else {
        lemma_document_text(blocks.drop_last());
        lemma_following_text_last(blocks.skip(1));
        assert(blocks.skip(1).drop_last() =~= blocks.drop_last().skip(1));
        assert(blocks.skip(1).last() == blocks.last());
        assert(blocks.drop_last()[0] == blocks[0]);
        assert(document_text(blocks) =~= block_text(blocks[0]) + following_text(blocks.skip(1)));
    }
}

/// Whitespace before further top-level blocks changes nothing of which are read.
proof fn lemma_more_blocks_space(input: Seq<char>, blocks: Seq<BlockView>)
    ensures
        spec_more_blocks(skip_space(input), blocks).1 == spec_more_blocks(input, blocks).1,
{
    lemma_block_space(input);
    lemma_block_progress(input);
    lemma_block_progress(skip_space(input));
}

/// A block on its own lines that is read as `read` is read as one more top-level
/// block, and the document goes on after it.
proof fn lemma_next_block(
    first: BlockView,
    read: BlockView,
    after: Seq<char>,
    before: Seq<BlockView>,
)
    requires
        is_identifier(first.name),
        spec_block(block_text(first) + after) == Ok::<(Seq<char>, BlockView), Chain>(
            (skip_space(after), read),
        ),
    ensures
        spec_more_blocks(seq!['\n'] + block_text(first) + after, before).1 == spec_more_blocks(
            after,
            before.push(read),
        ).1,
{
    let from_first = block_text(first) + after;
    let input = seq!['\n'] + block_text(first) + after;
    assert(input =~= seq!['\n'] + from_first);
    lemma_identifier(first.name, Seq::empty());
    assert(from_first[0] == first.name[0]);
    lemma_skip_blank(seq!['\n'], from_first);
    lemma_skip_nothing(from_first);
    lemma_block_space(input);
    lemma_block_progress(input);
    lemma_more_blocks_space(after, before.push(read));
}

/// Well-formed blocks that follow another at the top level are all read, in order.
proof fn lemma_following(blocks: Seq<BlockView>, before: Seq<BlockView>)
    requires
        forall|i: int| 0 <= i < blocks.len() ==> well_formed(#[trigger] blocks[i]),
    ensures
        spec_more_blocks(following_text(blocks), before).1 == before + reread_blocks(
            blocks,
            Seq::empty(),
        ),
    decreases blocks.len(),
{
    let nothing = Seq::<char>::empty();
    if blocks.len() == 0 {
        lemma_no_item(following_text(blocks));
        assert(before + reread_blocks(blocks, nothing) =~= before);
    } else {
        let first = blocks[0];
        let read = reread(first, nothing);
        let after = following_text(blocks.skip(1));
        assert(well_formed(first));
        lemma_block(first, nothing, after);
        lemma_next_block(first, read, after, before);
        assert forall|i: int| 0 <= i < blocks.skip(1).len() implies well_formed(
            #[trigger] blocks.skip(1)[i],
        ) by {
            assert(blocks.skip(1)[i] == blocks[i + 1]);
        }
        lemma_following(blocks.skip(1), before.push(read));
        lemma_reread_blocks_from(before, blocks, 0, nothing);
        assert(blocks.skip(0) =~= blocks);
    }
}

/// The canonical text of well-formed top-level blocks is read as these blocks, with
/// the padding in their keys and values.
pub proof fn lemma_document(blocks: Seq<BlockView>)
    requires
        blocks.len() > 0,
        forall|i: int| 0 <= i < blocks.len() ==> well_formed(#[trigger] blocks[i]),
    ensures
        spec_parse(document_text(blocks)) == Ok::<BlockView, Chain>(
            root_of(reread_blocks(blocks, Seq::empty())),
        ),
{
    let nothing = Seq::<char>::empty();
    let first = blocks[0];
    let read = reread(first, nothing);
    let after = following_text(blocks.skip(1));
    lemma_document_text(blocks);
    assert(well_formed(first));
    lemma_block(first, nothing, after);
    lemma_more_blocks_space(after, seq![read]);
    assert forall|i: int| 0 <= i < blocks.skip(1).len() implies well_formed(
        #[trigger] blocks.skip(1)[i],
    ) by {
        assert(blocks.skip(1)[i] == blocks[i + 1]);
    }
    lemma_following(blocks.skip(1), seq![read]);
    assert(seq![read] + reread_blocks(blocks.skip(1), nothing) =~= reread_blocks(
        blocks,
        nothing,
    ));
}

/// Blocks are read back as themselves if and only if no key or value in them holds
/// a line feed.
pub proof fn lemma_reread_blocks_same(blocks: Seq<BlockView>, padding: Seq<char>)
    ensures
        reread_blocks(blocks, padding) == blocks <==> forall|i: int|
            0 <= i < blocks.len() ==> single_lined(#[trigger] blocks[i]),
{
    let read = reread_blocks(blocks, padding);
    assert forall|i: int| 0 <= i < blocks.len() implies (#[trigger] read[i] == blocks[i]
        <==> single_lined(blocks[i])) by {
        lemma_reread_same(blocks[i], padding);
    }
    if forall|i: int| 0 <= i < blocks.len() ==> single_lined(#[trigger] blocks[i]) {
        assert(read =~= blocks);
    }
    if read == blocks {
        assert forall|i: int| 0 <= i < blocks.len() implies single_lined(#[trigger] blocks[i]) by {
            assert(read[i] == blocks[i]);
        }
    }
}

/// The canonical text of a well-formed block without its closing brace is read as
/// the block, to the end of the input.
pub proof fn lemma_unclosed_block(b: BlockView)
    requires
        well_formed(b),
    ensures
        spec_block(block_text(b).drop_last()) == Ok::<(Seq<char>, BlockView), Chain>(
            (Seq::empty(), reread(b, Seq::empty())),
        ),
{
    let nothing = Seq::<char>::empty();
    let read = reread(b, nothing);
    assert(block_text(b).drop_last() =~= block_open_text(b, nothing) + nothing);
    lemma_block_open(b, nothing, nothing);
    lemma_body_ends(nothing, read.props, read.blocks);
}

/// Well-formed blocks that follow another at the top level are all read, in order,
/// though the text ends, with the input, before the closing brace of the last.
proof fn lemma_following_unclosed(blocks: Seq<BlockView>, before: Seq<BlockView>)
    requires
        blocks.len() > 0,
        forall|i: int| 0 <= i < blocks.len() ==> well_formed(#[trigger] blocks[i]),
    ensures
        spec_more_blocks(following_text(blocks).drop_last(), before).1 == before
            + reread_blocks(blocks, Seq::empty()),
    decreases blocks.len(),
{
    let nothing = Seq::<char>::empty();
    let first = blocks[0];
    let read = reread(first, nothing);
    let rest = blocks.skip(1);
    assert(well_formed(first));
    assert forall|i: int| 0 <= i < rest.len() implies well_formed(#[trigger] rest[i]) by {
        assert(rest[i] == blocks[i + 1]);
    }
    lemma_reread_blocks_from(before, blocks, 0, nothing);
    assert(blocks.skip(0) =~= blocks);
    if rest.len() == 0 {
        let cut = block_text(first).drop_last();
        let input = seq!['\n'] + cut;
        assert(following_text(rest) =~= nothing);
        assert(following_text(blocks).drop_last() =~= input);
        lemma_unclosed_block(first);
        lemma_identifier(first.name, nothing);
        assert(cut[0] == first.name[0]);
        lemma_skip_blank(seq!['\n'], cut);
        lemma_skip_nothing(cut);
        lemma_block_space(input);
        lemma_no_item(nothing);
        assert(spec_block(input) == Ok::<(Seq<char>, BlockView), Chain>((nothing, read)));
        assert(spec_more_blocks(nothing, before.push(read)) == (nothing, before.push(read)));
        assert(spec_more_blocks(input, before).1 == before.push(read));
        assert(reread_blocks(rest, nothing) =~= Seq::empty());
        assert(before.push(read) + reread_blocks(rest, nothing) =~= before.push(read));
    } else {
        let after = following_text(rest).drop_last();
        assert(following_text(rest).len() > 0);
        assert(following_text(blocks) =~= seq!['\n'] + block_text(first) + following_text(rest));
        assert(following_text(blocks).drop_last() =~= seq!['\n'] + block_text(first) + after);
        lemma_block(first, nothing, after);
        lemma_next_block(first, read, after, before);
        lemma_following_unclosed(rest, before.push(read));
    }
}

/// The canonical text of well-formed top-level blocks without the closing brace of
/// the last is read as these blocks all the same.
pub proof fn lemma_document_unclosed(blocks: Seq<BlockView>)
    requires
        blocks.len() > 0,
        forall|i: int| 0 <= i < blocks.len() ==> well_formed(#[trigger] blocks[i]),
    ensures
        spec_parse(document_text(blocks).drop_last()) == Ok::<BlockView, Chain>(
            root_of(reread_blocks(blocks, Seq::empty())),
        ),
{
    let nothing = Seq::<char>::empty();
    let first = blocks[0];
    let read = reread(first, nothing);
    let rest = blocks.skip(1);
    lemma_document_text(blocks);
    assert(well_formed(first));
    assert forall|i: int| 0 <= i < rest.len() implies well_formed(#[trigger] rest[i]) by {
        assert(rest[i] == blocks[i + 1]);
    }
    lemma_reread_blocks_from(Seq::empty(), blocks, 0, nothing);
    assert(blocks.skip(0) =~= blocks);
    assert(Seq::<BlockView>::empty().push(read) =~= seq![read]);
    assert(Seq::<BlockView>::empty() + reread_blocks(blocks, nothing) =~= reread_blocks(
        blocks,
        nothing,
    ));
    if rest.len() == 0 {
        assert(following_text(rest) =~= nothing);
        assert(document_text(blocks).drop_last() =~= block_text(first).drop_last());
        lemma_unclosed_block(first);
        lemma_no_item(nothing);
        assert(reread_blocks(rest, nothing) =~= Seq::empty());
        assert(seq![read] + reread_blocks(rest, nothing) =~= seq![read]);
    } else {
        let after = following_text(rest).drop_last();
        assert(document_text(blocks).drop_last() =~= block_text(first) + after);
        lemma_block(first, nothing, after);
        lemma_more_blocks_space(after, seq![read]);
        lemma_following_unclosed(rest, seq![read]);
    }
}

/// A string that is read holds no double quote.
proof fn lemma_string_quotable(input: Seq<char>)
    ensures
        spec_string(input) matches Ok((_, content)) ==> !content.contains('"'),
{
    if let Ok((_, content)) = spec_string(input) {
        let inside = input.skip(1);
        let class = CharClass::NoneOf(quote());
        lemma_span(inside, class);
        if content.contains('"') {
            let i = choose|i: int| 0 <= i < content.len() && content[i] == '"';
            assert(class.has(inside[i]));
            assert(quote()[0] == '"');
        }
    }
}

/// A property that is read can stand between double quotes.
proof fn lemma_property_quotable(input: Seq<char>)
    ensures
        spec_property(input) matches Ok((_, p)) ==> quotable(p),
{
    lemma_string_quotable(skip_space(input));
    if let Ok((after_key, _)) = spec_string(skip_space(input)) {
        lemma_string_quotable(skip_space(after_key));
    }
}

/// The name of a block that is read is an identifier.
proof fn lemma_head_identifier(input: Seq<char>)
    ensures
        spec_block_head(input) matches Ok((_, name)) ==> is_identifier(name),
{
    lemma_span(skip_space(skip_ignorable(input)), CharClass::Identifier);
}

/// A block that is read is well formed.
proof fn lemma_block_well_formed(input: Seq<char>)
    ensures
        spec_block(input) matches Ok((_, b)) ==> well_formed(b),
    decreases input.len(), 0nat,
{
    lemma_head_identifier(input);
    if let Ok((body, _)) = spec_block_head(input) {
        if body.len() < input.len() {
            lemma_body_well_formed(body, Seq::empty(), Seq::empty());
        }
    }
}

/// A body that is read after well-formed items holds well-formed items.
proof fn lemma_body_well_formed(input: Seq<char>, props: Seq<PropertyView>, blocks: Seq<BlockView>)
    requires
        forall|i: int| 0 <= i < props.len() ==> quotable(#[trigger] props[i]),
        forall|i: int| 0 <= i < blocks.len() ==> well_formed(#[trigger] blocks[i]),
    ensures
        spec_body(input, props, blocks) matches Ok((_, (all_props, all_blocks))) ==> {
            &&& forall|i: int| 0 <= i < all_props.len() ==> quotable(#[trigger] all_props[i])
            &&& forall|i: int| 0 <= i < all_blocks.len() ==> well_formed(#[trigger] all_blocks[i])
        },
    decreases input.len(), 1nat,
{
    if let Ok((rest, prop)) = spec_property(input) {
        if rest.len() < input.len() {
            lemma_property_quotable(input);
            lemma_body_well_formed(rest, props.push(prop), blocks);
        }
    } else if let Ok((rest, block)) = spec_block(input) {
        if rest.len() < input.len() {
            lemma_block_well_formed(input);
            lemma_body_well_formed(rest, props, blocks.push(block));
        }
    } else if let Some(rest) = spec_ignorable(input) {
        if rest.len() < input.len() {
            lemma_body_well_formed(rest, props, blocks);
        }
    }
}

/// Further top-level blocks that are read after well-formed ones are well formed.
proof fn lemma_more_blocks_well_formed(input: Seq<char>, blocks: Seq<BlockView>)
    requires
        forall|i: int| 0 <= i < blocks.len() ==> well_formed(#[trigger] blocks[i]),
    ensures
        spec_more_blocks(input, blocks).1.len() >= blocks.len(),
        forall|i: int|
            0 <= i < spec_more_blocks(input, blocks).1.len() ==> well_formed(
                #[trigger] spec_more_blocks(input, blocks).1[i],
            ),
    decreases input.len(),
{
    if let Ok((rest, block)) = spec_block(input) {
        if rest.len() < input.len() {
            lemma_block_well_formed(input);
            lemma_more_blocks_well_formed(rest, blocks.push(block));
        }
    }
}

/// A document that is read is a root over one or more well-formed blocks.
pub proof fn lemma_parsed(input: Seq<char>)
    ensures
        spec_parse(input) matches Ok(document) ==> {
            &&& is_root(document)
            &&& document == root_of(document.blocks)
            &&& document.blocks.len() > 0
            &&& forall|i: int|
                0 <= i < document.blocks.len() ==> well_formed(#[trigger] document.blocks[i])
        },
{
    if let Ok((rest, first)) = spec_block(input) {
        lemma_block_well_formed(input);
        lemma_more_blocks_well_formed(rest, seq![first]);
    }
}

} // verus!

//! The laws of the library: what holds of parsing and rendering on every input.
use crate::ast::{is_root, root_of, BlockView, PropertyView, Vmf};
use crate::display::{block_text, vmf_text};
use crate::error::ParseError;
use crate::grammar::{skip_space, spec_block, spec_parse, Chain};
use crate::new_ids::{
    class_count, class_count_all, class_of, counts_at, decimal, digits, entered, id_property,
    ids_after, ids_after_all, lemma_ids_grow, named_among, new_props, pre_order, pre_order_all,
    renumbered, renumbered_all, renumbered_document, without_id, Class, IdCounts,
};
use crate::parse;
use crate::round_trip::{
    lemma_block, lemma_document, lemma_document_unclosed, lemma_parsed, lemma_reread_blocks_same,
    lemma_reread_same, lemma_unclosed_block, on_one_line, printable, quotable, reread_blocks,
    single_lined, well_formed,
};
use crate::text::Text;
use vstd::prelude::*;

verus! {

/// Round trip: the canonical text of a document with one or more blocks, all of
/// them printable, is read back as these blocks under a root; so rendering, parsing
/// and rendering again gives the text of the first rendering.
pub proof fn law_round_trip(document: BlockView)
    requires
        document.blocks.len() > 0,
        forall|i: int| 0 <= i < document.blocks.len() ==> printable(#[trigger] document.blocks[i]),
    ensures
        spec_parse(vmf_text(document)) == Ok::<BlockView, Chain>(root_of(document.blocks)),
        vmf_text(root_of(document.blocks)) == vmf_text(document),
{
    law_round_trip_by_text(document, document);
}

/// Round trip, by the text: a document whose canonical text is that of a document
/// with one or more blocks, all of them printable, is read back from it as the
/// latter.
pub proof fn law_round_trip_by_text(document: BlockView, printed: BlockView)
    requires
        vmf_text(document) == vmf_text(printed),
        printed.blocks.len() > 0,
        forall|i: int| 0 <= i < printed.blocks.len() ==> printable(#[trigger] printed.blocks[i]),
    ensures
        spec_parse(vmf_text(document)) == Ok::<BlockView, Chain>(root_of(printed.blocks)),
        vmf_text(root_of(printed.blocks)) == vmf_text(document),
{
    lemma_document(printed.blocks);
    lemma_reread_blocks_same(printed.blocks, Seq::empty());
}

/// Round trip, the other way: a document whose canonical text is read back as a
/// document with the same canonical text has the text of a document with one or
/// more blocks, all of them printable: the one that is read back.
pub proof fn law_round_trip_needs_printable(document: BlockView, read: BlockView)
    requires
        spec_parse(vmf_text(document)) == Ok::<BlockView, Chain>(read),
        vmf_text(read) == vmf_text(document),
    ensures
        read.blocks.len() > 0,
        forall|i: int| 0 <= i < read.blocks.len() ==> printable(#[trigger] read.blocks[i]),
{
    lemma_parsed(vmf_text(document));
    lemma_document(read.blocks);
    lemma_reread_blocks_same(read.blocks, Seq::empty());
}

/// What is read back: the canonical text of a document with one or more blocks, all
/// of them well formed, is read as these blocks with one change: in every key and
/// value each line feed is followed by the padding of its line. Nothing changes if
/// and only if no key or value holds a line feed.
pub proof fn law_reread(document: BlockView)
    requires
        document.blocks.len() > 0,
        forall|i: int|
            0 <= i < document.blocks.len() ==> well_formed(#[trigger] document.blocks[i]),
    ensures
        spec_parse(vmf_text(document)) == Ok::<BlockView, Chain>(
            root_of(reread_blocks(document.blocks, Seq::empty())),
        ),
        reread_blocks(document.blocks, Seq::empty()) == document.blocks <==> forall|i: int|
            0 <= i < document.blocks.len() ==> single_lined(#[trigger] document.blocks[i]),
{
    lemma_document(document.blocks);
    lemma_reread_blocks_same(document.blocks, Seq::empty());
}

/// What was read is well formed: a document that the parser yields is a root over
/// one or more blocks, every name in it is an identifier, and no key or value in it
/// holds a double quote.
pub proof fn law_parsed_is_well_formed(input: Seq<char>, document: BlockView)
    requires
        spec_parse(input) == Ok::<BlockView, Chain>(document),
    ensures
        is_root(document),
        document.blocks.len() > 0,
        forall|i: int|
            0 <= i < document.blocks.len() ==> well_formed(#[trigger] document.blocks[i]),
{
    lemma_parsed(input);
}

/// Comments and whitespace leave no trace: a document that was read from any text
/// is read back from its canonical text as the same document if and only if no key
/// or value in it holds a line feed.
pub proof fn law_reparse(input: Seq<char>, document: BlockView)
    requires
        spec_parse(input) == Ok::<BlockView, Chain>(document),
    ensures
        spec_parse(vmf_text(document)) == Ok::<BlockView, Chain>(document) <==> single_lined(
            document,
        ),
{
    lemma_parsed(input);
    lemma_document(document.blocks);
    lemma_reread_blocks_same(document.blocks, Seq::empty());
    if single_lined(document) {
        assert forall|i: int| 0 <= i < document.blocks.len() implies single_lined(
            #[trigger] document.blocks[i],
        ) by {}
    }
}

/// Equal keys stay apart: the canonical text of a printable block is read back as
/// the block with all its properties and all its children in their order, whether
/// or not keys or names among them are equal; and the input goes on after it.
pub proof fn law_block_round_trip(b: BlockView, after: Seq<char>)
    requires
        printable(b),
    ensures
        spec_block(block_text(b) + after) == Ok::<(Seq<char>, BlockView), Chain>(
            (skip_space(after), b),
        ),
{
    lemma_block(b, Seq::empty(), after);
    lemma_reread_same(b, Seq::empty());
}

/// Lenient closing brace: a printable block whose text ends, with the input, before
/// its closing brace is read as the block all the same, and is a document.
pub proof fn law_lenient_close_brace(b: BlockView)
    requires
        printable(b),
    ensures
        spec_block(block_text(b).drop_last()) == Ok::<(Seq<char>, BlockView), Chain>(
            (Seq::empty(), b),
        ),
        spec_parse(block_text(b).drop_last()) == Ok::<BlockView, Chain>(root_of(seq![b])),
{
    lemma_unclosed_block(b);
    lemma_reread_same(b, Seq::empty());
}

/// Lenient closing brace, for a document: the canonical text of a document with one
/// or more blocks, all of them printable, is read back as the document though it
/// ends, with the input, before the closing brace of the last block.
pub proof fn law_lenient_close_brace_of_document(document: BlockView)
    requires
        document.blocks.len() > 0,
        forall|i: int| 0 <= i < document.blocks.len() ==> printable(#[trigger] document.blocks[i]),
    ensures
        spec_parse(vmf_text(document).drop_last()) == Ok::<BlockView, Chain>(
            root_of(document.blocks),
        ),
{
    lemma_document_unclosed(document.blocks);
    lemma_reread_blocks_same(document.blocks, Seq::empty());
}

/// A block none of whose names, its children's included, is one of the four classes.
pub open spec fn without_class(b: BlockView) -> bool
    decreases b,
{
    &&& class_of(b.name) is None
    &&& forall|i: int| 0 <= i < b.blocks.len() ==> without_class(#[trigger] b.blocks[i])
}

/// Unrecognised classes pass through: a block that is of none of the four classes
/// keeps its properties when ids are given anew, an `id` among them included; and a
/// block that holds no block of the four classes stays as it is, and uses up no id.
/// So the counts that lie between those before it and those after it, as the state
/// does after [`Block::fmt_new_ids`](crate::ast::Block::fmt_new_ids) however the
/// writing ended, are the counts before it.
pub proof fn law_unrecognized_passthrough(b: BlockView, ids: IdCounts)
    ensures
        class_of(b.name) is None ==> renumbered(b, ids).props == b.props,
        without_class(b) ==> renumbered(b, ids) == b,
        without_class(b) ==> ids_after(b, ids) == ids,
        without_class(b) ==> forall|left: IdCounts|
            ids.le(left) && #[trigger] left.le(ids_after(b, ids)) ==> left == ids,
    decreases b,
{
    if without_class(b) {
        lemma_passthrough_all(b.blocks, ids);
    }
}

/// Blocks that hold no block of the four classes stay as they are, and use up no id.
proof fn lemma_passthrough_all(blocks: Seq<BlockView>, ids: IdCounts)
    requires
        forall|i: int| 0 <= i < blocks.len() ==> without_class(#[trigger] blocks[i]),
    ensures
        renumbered_all(blocks, ids) == blocks,
        ids_after_all(blocks, ids) == ids,
    decreases blocks,
{
    if blocks.len() > 0 {
        assert(without_class(blocks.last()));
        assert forall|i: int| 0 <= i < blocks.drop_last().len() implies without_class(
            #[trigger] blocks.drop_last()[i],
        ) by {
            assert(blocks.drop_last()[i] == blocks[i]);
        }
        lemma_passthrough_all(blocks.drop_last(), ids);
        law_unrecognized_passthrough(blocks.last(), ids);
        assert(blocks.drop_last().push(blocks.last()) =~= blocks);
    } else {
        assert(renumbered_all(blocks, ids) =~= blocks);
    }
}

/// What is left without the properties with the key `id` are properties of the
/// block, none of them with the key `id`.
proof fn lemma_without_id(props: Seq<PropertyView>)
    ensures
        forall|i: int|
            0 <= i < without_id(props).len() ==> (#[trigger] without_id(props)[i]).key != "id"@
                && props.contains(without_id(props)[i]),
    decreases props.len(),
{
    if props.len() > 0 {
        lemma_without_id(props.drop_last());
        assert forall|i: int| 0 <= i < without_id(props).len() implies (#[trigger] without_id(
            props,
        )[i]).key != "id"@ && props.contains(without_id(props)[i]) by {
            if i < without_id(props.drop_last()).len() {
                let kept = without_id(props.drop_last())[i];
                let at = choose|at: int|
                    0 <= at < props.drop_last().len() && props.drop_last()[at] == kept;
                assert(props[at] == kept);
            } else {
                assert(props[props.len() - 1] == props.last());
            }
        }
    }
}

/// The new id is the only id: a block of one of the four classes has, once ids are
/// given anew, the next id of its class as its first property, then its properties
/// but those with the key `id`, so that no other property has this key.
pub proof fn law_new_id_is_the_only_id(b: BlockView, ids: IdCounts)
    requires
        class_of(b.name) is Some,
    ensures
        renumbered(b, ids).props.len() > 0,
        renumbered(b, ids).props[0] == id_property(ids.of(class_of(b.name)->0) + 1),
        renumbered(b, ids).props.skip(1) == without_id(b.props),
        forall|i: int|
            1 <= i < renumbered(b, ids).props.len() ==> (#[trigger] renumbered(
                b,
                ids,
            ).props[i]).key != "id"@,
        ids_after(b, ids).of(class_of(b.name)->0) > ids.of(class_of(b.name)->0),
{
    let props = renumbered(b, ids).props;
    lemma_without_id(b.props);
    assert(props.skip(1) =~= without_id(b.props));
    assert forall|i: int| 1 <= i < props.len() implies (#[trigger] props[i]).key != "id"@ by {
        assert(props[i] == without_id(b.props)[i - 1]);
    }
    lemma_ids_grow(b, ids);
}

/// Ids are counted: after a block the count of each class is the count before it
/// and the number of blocks of that class that the block holds, itself included.
pub proof fn law_new_ids_count(b: BlockView, ids: IdCounts, class: Class)
    ensures
        ids_after(b, ids).of(class) == ids.of(class) + class_count(b, class),
    decreases b,
{
    lemma_new_ids_count_all(b.blocks, entered(b.name, ids), class);
}

/// After blocks the count of each class is the count before them and the number of
/// blocks of that class that they hold.
proof fn lemma_new_ids_count_all(blocks: Seq<BlockView>, ids: IdCounts, class: Class)
    ensures
        ids_after_all(blocks, ids).of(class) == ids.of(class) + class_count_all(blocks, class),
    decreases blocks,
{
    if blocks.len() > 0 {
        lemma_new_ids_count_all(blocks.drop_last(), ids, class);
        law_new_ids_count(blocks.last(), ids_after_all(blocks.drop_last(), ids), class);
    }
}

/// Ids are given in the order of the text: of blocks that stand one after the
/// other, the children of one block or the top-level blocks of a document, each is
/// given its ids where the counts stand after all that stands before it; and there
/// the count of each class is the count before the first of them and the number of
/// blocks of that class in those before it. With
/// [`law_new_id_is_the_only_id`]: a block of a class gets the count with which the
/// numbering began and the number of blocks of its class up to it, itself included.
pub proof fn law_new_ids_in_order(blocks: Seq<BlockView>, ids: IdCounts, at: int, class: Class)
    requires
        0 <= at < blocks.len(),
    ensures
        renumbered_all(blocks, ids).len() == blocks.len(),
        renumbered_all(blocks, ids)[at] == renumbered(
            blocks[at],
            ids_after_all(blocks.take(at), ids),
        ),
        ids_after_all(blocks.take(at), ids).of(class) == ids.of(class) + class_count_all(
            blocks.take(at),
            class,
        ),
    decreases blocks.len(),
{
    lemma_new_ids_count_all(blocks.take(at), ids, class);
    lemma_renumbered_len(blocks, ids);
    lemma_renumbered_len(blocks.drop_last(), ids);
    if at == blocks.len() - 1 {
        assert(blocks.take(at) =~= blocks.drop_last());
    } else {
        law_new_ids_in_order(blocks.drop_last(), ids, at, class);
        assert(blocks.drop_last().take(at) =~= blocks.take(at));
        assert(blocks.drop_last()[at] == blocks[at]);
    }
}

/// There are as many blocks with ids given anew as there were blocks.
proof fn lemma_renumbered_len(blocks: Seq<BlockView>, ids: IdCounts)
    ensures
        renumbered_all(blocks, ids).len() == blocks.len(),
    decreases blocks.len(),
{
    if blocks.len() > 0 {
        lemma_renumbered_len(blocks.drop_last(), ids);
    }
}

/// How many of the first blocks are of a class depends on these blocks alone.
proof fn lemma_named_among_first(
    first: Seq<BlockView>,
    more: Seq<BlockView>,
    class: Class,
    n: int,
)
    requires
        n <= first.len(),
    ensures
        named_among(first + more, class, n) == named_among(first, class, n),
    decreases n,
{
    if n > 0 {
        lemma_named_among_first(first, more, class, n - 1);
        assert((first + more)[n - 1] == first[n - 1]);
    }
}

/// Counting on through more blocks adds what is counted among them.
proof fn lemma_named_among_more(
    first: Seq<BlockView>,
    more: Seq<BlockView>,
    class: Class,
    n: int,
)
    requires
        0 <= n <= more.len(),
    ensures
        named_among(first + more, class, first.len() + n) == named_among(
            first,
            class,
            first.len() as int,
        ) + named_among(more, class, n),
    decreases n,
{
    if n > 0 {
        lemma_named_among_more(first, more, class, n - 1);
        assert((first + more)[first.len() + n - 1] == more[n - 1]);
    } else {
        lemma_named_among_first(first, more, class, first.len() as int);
    }
}

/// The counts within the first blocks depend on these alone; counting on through
/// more blocks is counting among them from where the first ended.
proof fn lemma_counts_at(ids: IdCounts, first: Seq<BlockView>, more: Seq<BlockView>, n: int)
    ensures
        n <= first.len() ==> counts_at(ids, first + more, n) == counts_at(ids, first, n),
        0 <= n <= more.len() ==> counts_at(ids, first + more, first.len() + n) == counts_at(
            counts_at(ids, first, first.len() as int),
            more,
            n,
        ),
{
    if n <= first.len() {
        lemma_named_among_first(first, more, Class::World, n);
        lemma_named_among_first(first, more, Class::Solid, n);
        lemma_named_among_first(first, more, Class::Side, n);
        lemma_named_among_first(first, more, Class::Entity, n);
    }
    if 0 <= n <= more.len() {
        lemma_named_among_more(first, more, Class::World, n);
        lemma_named_among_more(first, more, Class::Solid, n);
        lemma_named_among_more(first, more, Class::Side, n);
        lemma_named_among_more(first, more, Class::Entity, n);
    }
}

/// What the numbering makes of the block at `at` in the order of the text, among a
/// block and all that it holds: its name as it was, and its properties as they are
/// where the counts stand after the blocks before it. And the counts after the
/// block are the counts after all of them.
proof fn lemma_numbered_in_pre_order(b: BlockView, ids: IdCounts, at: int)
    ensures
        pre_order(renumbered(b, ids)).len() == pre_order(b).len(),
        ids_after(b, ids) == counts_at(ids, pre_order(b), pre_order(b).len() as int),
        0 <= at < pre_order(b).len() ==> pre_order(renumbered(b, ids))[at].name == pre_order(
            b,
        )[at].name && pre_order(renumbered(b, ids))[at].props == new_props(
            pre_order(b)[at].name,
            pre_order(b)[at].props,
            counts_at(ids, pre_order(b), at),
        ),
    decreases b, 1nat,
{
    let own = seq![b];
    let below = pre_order_all(b.blocks);
    let inside = entered(b.name, ids);
    let numbered = renumbered(b, ids);
    assert(pre_order(numbered) =~= seq![numbered] + pre_order_all(numbered.blocks));
    lemma_numbered_all_in_pre_order(b.blocks, inside, at - 1);
    assert(counts_at(ids, own, 1) == inside) by {
        reveal_with_fuel(named_among, 2);
    }
    lemma_counts_at(ids, own, below, below.len() as int);
    if 0 <= at < pre_order(b).len() {
        if at == 0 {
            assert(counts_at(ids, pre_order(b), 0) == ids);
        } else {
            lemma_counts_at(ids, own, below, at - 1);
            assert(pre_order(b)[at] == below[at - 1]);
            assert(pre_order(numbered)[at] == pre_order_all(numbered.blocks)[at - 1]);
        }
    }
}

/// The same of blocks that stand one after the other.
proof fn lemma_numbered_all_in_pre_order(blocks: Seq<BlockView>, ids: IdCounts, at: int)
    ensures
        pre_order_all(renumbered_all(blocks, ids)).len() == pre_order_all(blocks).len(),
        ids_after_all(blocks, ids) == counts_at(
            ids,
            pre_order_all(blocks),
            pre_order_all(blocks).len() as int,
        ),
        0 <= at < pre_order_all(blocks).len() ==> pre_order_all(
            renumbered_all(blocks, ids),
        )[at].name == pre_order_all(blocks)[at].name && pre_order_all(
            renumbered_all(blocks, ids),
        )[at].props == new_props(
            pre_order_all(blocks)[at].name,
            pre_order_all(blocks)[at].props,
            counts_at(ids, pre_order_all(blocks), at),
        ),
    decreases blocks, 0nat,
{
    if blocks.len() == 0 {
        assert(counts_at(ids, pre_order_all(blocks), 0) == ids);
    } else {
        let before = blocks.drop_last();
        let last = blocks.last();
        let first = pre_order_all(before);
        let more = pre_order(last);
        let mid = ids_after_all(before, ids);
        let numbered = renumbered_all(blocks, ids);
        assert(numbered.drop_last() =~= renumbered_all(before, ids));
        assert(numbered.last() == renumbered(last, mid));
        assert(pre_order_all(numbered) =~= pre_order_all(renumbered_all(before, ids))
            + pre_order(renumbered(last, mid)));
        lemma_numbered_all_in_pre_order(before, ids, at);
        lemma_numbered_in_pre_order(last, mid, at - first.len());
        lemma_counts_at(ids, first, more, more.len() as int);
        if 0 <= at < pre_order_all(blocks).len() {
            if at < first.len() {
                lemma_counts_at(ids, first, more, at);
                assert(pre_order_all(blocks)[at] == first[at]);
            } else {
                lemma_counts_at(ids, first, more, at - first.len());
                assert(pre_order_all(blocks)[at] == more[at - first.len()]);
            }
        }
    }
}

/// Ids are given in the order of the text, counted over the whole of a block. Of a
/// block and all that it holds, each block before its children, the one at `at` keeps
/// its name. If it is of one of the four classes, its first property is the id
/// that is the count with which the numbering began and the number of blocks of its
/// class up to it, itself included; its other properties are those that it had, but
/// those with the key `id`. If it is of no such class, its properties are as they
/// were.
pub proof fn law_new_ids_in_pre_order(b: BlockView, ids: IdCounts, at: int)
    requires
        0 <= at < pre_order(b).len(),
    ensures
        pre_order(renumbered(b, ids)).len() == pre_order(b).len(),
        pre_order(renumbered(b, ids))[at].name == pre_order(b)[at].name,
        match class_of(pre_order(b)[at].name) {
            Some(class) => pre_order(renumbered(b, ids))[at].props == seq![
                id_property(ids.of(class) + named_among(pre_order(b), class, at + 1)),
            ] + without_id(pre_order(b)[at].props),
            None => pre_order(renumbered(b, ids))[at].props == pre_order(b)[at].props,
        },
{
    lemma_numbered_in_pre_order(b, ids, at);
}

/// The same of blocks that stand one after the other, as the top-level blocks of a
/// document do: ids are given in the order of the text, counted over all of them.
pub proof fn law_new_ids_in_pre_order_of_blocks(blocks: Seq<BlockView>, ids: IdCounts, at: int)
    requires
        0 <= at < pre_order_all(blocks).len(),
    ensures
        pre_order_all(renumbered_all(blocks, ids)).len() == pre_order_all(blocks).len(),
        pre_order_all(renumbered_all(blocks, ids))[at].name == pre_order_all(blocks)[at].name,
        match class_of(pre_order_all(blocks)[at].name) {
            Some(class) => pre_order_all(renumbered_all(blocks, ids))[at].props == seq![
                id_property(ids.of(class) + named_among(pre_order_all(blocks), class, at + 1)),
            ] + without_id(pre_order_all(blocks)[at].props),
            None => pre_order_all(renumbered_all(blocks, ids))[at].props == pre_order_all(
                blocks,
            )[at].props,
        },
{
    lemma_numbered_all_in_pre_order(blocks, ids, at);
}

/// A number in decimal digits holds neither a double quote nor a line feed.
proof fn lemma_decimal_plain(n: nat)
    ensures
        !decimal(n).contains('"'),
        !decimal(n).contains('\n'),
    decreases n,
{
    let last = digits()[(n % 10) as int];
    assert(last != '"' && last != '\n');
    if n >= 10 {
        lemma_decimal_plain(n / 10);
        let front = decimal(n / 10);
        assert forall|c: char| decimal(n).contains(c) implies front.contains(c) || c == last by {
            let i = choose|i: int| 0 <= i < decimal(n).len() && decimal(n)[i] == c;
            if i < front.len() {
                assert(front[i] == c);
            }
        }
    } else {
        assert forall|c: char| decimal(n).contains(c) implies c == last by {
            let i = choose|i: int| 0 <= i < decimal(n).len() && decimal(n)[i] == c;
        }
    }
}

/// A printable block with ids given anew is printable.
proof fn lemma_renumbered_printable(b: BlockView, ids: IdCounts)
    requires
        printable(b),
    ensures
        printable(renumbered(b, ids)),
    decreases b,
{
    let r = renumbered(b, ids);
    lemma_renumbered_all_printable(b.blocks, entered(b.name, ids));
    lemma_without_id(b.props);
    assert forall|i: int| 0 <= i < r.props.len() implies quotable(#[trigger] r.props[i])
        && on_one_line(r.props[i]) by {
        if class_of(b.name) is Some {
            if i == 0 {
                let n = ids.next(class_of(b.name)->0).of(class_of(b.name)->0);
                lemma_decimal_plain(n);
                reveal_strlit("id");
                let key = "id"@;
                assert(!key.contains('"') && !key.contains('\n')) by {
                    assert forall|c: char| key.contains(c) implies c == 'i' || c == 'd' by {
                        let k = choose|k: int| 0 <= k < key.len() && key[k] == c;
                    }
                }
            } else {
                let kept = without_id(b.props)[i - 1];
                assert(r.props[i] == kept);
                let at = choose|at: int| 0 <= at < b.props.len() && b.props[at] == kept;
                assert(quotable(b.props[at]) && on_one_line(b.props[at]));
            }
        } else {
            assert(quotable(b.props[i]) && on_one_line(b.props[i]));
        }
    }
}

/// Printable blocks with ids given anew are printable, and as many.
proof fn lemma_renumbered_all_printable(blocks: Seq<BlockView>, ids: IdCounts)
    requires
        forall|i: int| 0 <= i < blocks.len() ==> printable(#[trigger] blocks[i]),
    ensures
        renumbered_all(blocks, ids).len() == blocks.len(),
        forall|i: int|
            0 <= i < blocks.len() ==> printable(#[trigger] renumbered_all(blocks, ids)[i]),
    decreases blocks,
{
    if blocks.len() > 0 {
        assert(printable(blocks.last()));
        assert forall|i: int| 0 <= i < blocks.drop_last().len() implies printable(
            #[trigger] blocks.drop_last()[i],
        ) by {
            assert(blocks.drop_last()[i] == blocks[i]);
        }
        lemma_renumbered_all_printable(blocks.drop_last(), ids);
        lemma_renumbered_printable(blocks.last(), ids_after_all(blocks.drop_last(), ids));
    }
}

/// Round trip with new ids, of a block: the text with new ids of a printable block
/// is read back as the block with these ids, whatever the counts before it; and the
/// input goes on after it.
pub proof fn law_new_ids_block_round_trip(b: BlockView, ids: IdCounts, after: Seq<char>)
    requires
        printable(b),
    ensures
        spec_block(block_text(renumbered(b, ids)) + after) == Ok::<(Seq<char>, BlockView), Chain>(
            (skip_space(after), renumbered(b, ids)),
        ),
{
    lemma_renumbered_printable(b, ids);
    law_block_round_trip(renumbered(b, ids), after);
}

/// Round trip with new ids: the text with new ids of a document with one or more
/// blocks, all of them printable, is read back as the document with these ids.
pub proof fn law_new_ids_round_trip(document: BlockView)
    requires
        document.blocks.len() > 0,
        forall|i: int| 0 <= i < document.blocks.len() ==> printable(#[trigger] document.blocks[i]),
    ensures
        spec_parse(vmf_text(renumbered_document(document))) == Ok::<BlockView, Chain>(
            root_of(renumbered_document(document).blocks),
        ),
{
    lemma_renumbered_all_printable(document.blocks, IdCounts::zero());
    law_round_trip(renumbered_document(document));
}

/// New ids are the document's alone: two renderings with new ids, of one document
/// or of documents with the same tree, are the same text. Every rendering counts
/// from one; nothing of an earlier one is left.
pub proof fn law_new_ids_are_determined<'a, 'b, S1: Text<'a>, S2: Text<'b>>(
    one: &Vmf<S1>,
    other: &Vmf<S2>,
    first: String,
    second: String,
)
    requires
        one@ == other@,
        call_ensures(Vmf::<S1>::to_string_new_ids, (one,), first),
        call_ensures(Vmf::<S2>::to_string_new_ids, (other,), second),
    ensures
        first@ == second@,
        first@ == vmf_text(renumbered_document(one@)),
{
}

/// One input, one document: whether an input is a document, and which, depends
/// neither on how the tree holds its text nor on the error type. Two results of
/// [`parse()`] on the same input succeed together, with trees of equal views.
pub proof fn law_same_document<
    'a,
    O1: Text<'a>,
    E1: ParseError<'a>,
    O2: Text<'a>,
    E2: ParseError<'a>,
>(input: &'a str, first: Result<Vmf<O1>, E1>, second: Result<Vmf<O2>, E2>)
    requires
        call_ensures(parse::<O1, E1>, (input,), first),
        call_ensures(parse::<O2, E2>, (input,), second),
    ensures
        first is Ok <==> second is Ok,
        first is Ok ==> first->Ok_0@ == second->Ok_0@,
{
}

} // verus!

//! Giving new ids: worlds, solids, sides and entities are numbered anew, each class
//! counted from one in the order of the text, and rendered with these ids.
//!
//! The tree itself is left as it is: the new ids exist in the rendering only. The
//! rendering with new ids is the canonical rendering of [`renumbered`].
use crate::ast::{lemma_block_view, props_view, Block, BlockView, Property, PropertyView, Vmf};
use crate::display::{
    block_text, block_text_in, blocks_text, deeper_padding, document_text, held_back,
    lemma_props_text_concat, passed, passed_lines, property_line, props_text, vmf_text,
    write_foot, write_head, write_line_feed, write_piece, write_property_line, write_props,
    wrote, PadAdapter, TextSink,
};
use crate::scan::exactly;
use crate::text::Text;
use std::fmt;
use vstd::prelude::*;

verus! {

/// The classes of blocks that are given new ids.
#[derive(Debug, Clone, Copy, PartialEq, Eq, Hash, Structural)]
pub enum Class {
    World,
    Solid,
    Side,
    Entity,
}

/// The class of a block by its name, if it is one of the four.
pub open spec fn class_of(name: Seq<char>) -> Option<Class> {
    if name == "world"@ {
        Some(Class::World)
    } else if name == "solid"@ {
        Some(Class::Solid)
    } else if name == "side"@ {
        Some(Class::Side)
    } else if name == "entity"@ {
        Some(Class::Entity)
    } else {
        None
    }
}

/// The highest id given so far in each class.
pub ghost struct IdCounts {
    pub world: nat,
    pub solid: nat,
    pub side: nat,
    pub entity: nat,
}

impl IdCounts {
    /// No id given in any class.
    pub open spec fn zero() -> IdCounts {
        IdCounts { world: 0, solid: 0, side: 0, entity: 0 }
    }

    /// The highest id given in `class`.
    pub open spec fn of(self, class: Class) -> nat {
        match class {
            Class::World => self.world,
            Class::Solid => self.solid,
            Class::Side => self.side,
            Class::Entity => self.entity,
        }
    }

    /// The counts after one more id was given in `class`.
    pub open spec fn next(self, class: Class) -> IdCounts {
        match class {
            Class::World => IdCounts { world: self.world + 1, ..self },
            Class::Solid => IdCounts { solid: self.solid + 1, ..self },
            Class::Side => IdCounts { side: self.side + 1, ..self },
            Class::Entity => IdCounts { entity: self.entity + 1, ..self },
        }
    }

    /// Whether no count exceeds the other's.
    pub open spec fn le(self, other: IdCounts) -> bool {
        self.world <= other.world && self.solid <= other.solid && self.side <= other.side
            && self.entity <= other.entity
    }

    /// Whether each count fits the counters of an [`IdState`].
    pub open spec fn fits(self) -> bool {
        self.world <= u32::MAX && self.solid <= u32::MAX && self.side <= u32::MAX && self.entity
            <= u32::MAX
    }
}

/// The counts once a block named `name` was entered.
pub open spec fn entered(name: Seq<char>, ids: IdCounts) -> IdCounts {
    match class_of(name) {
        Some(class) => ids.next(class),
        None => ids,
    }
}

/// The counts after `b` and all that it holds were numbered, in pre-order.
pub open spec fn ids_after(b: BlockView, ids: IdCounts) -> IdCounts
    decreases b,
{
    ids_after_all(b.blocks, entered(b.name, ids))
}

/// The counts after all of `blocks` were numbered, one after the other.
pub open spec fn ids_after_all(blocks: Seq<BlockView>, ids: IdCounts) -> IdCounts
    decreases blocks,
{
    if blocks.len() == 0 {
        ids
    } else {
        ids_after(blocks.last(), ids_after_all(blocks.drop_last(), ids))
    }
}

/// The ten digits.
pub open spec fn digits() -> Seq<char> {
    seq!['0', '1', '2', '3', '4', '5', '6', '7', '8', '9']
}

/// A number in decimal digits, without leading zeros.
pub open spec fn decimal(n: nat) -> Seq<char>
    decreases n,
{
    if n < 10 {
        seq![digits()[n as int]]
    } else {
        decimal(n / 10) + seq![digits()[(n % 10) as int]]
    }
}

/// The property that carries the id `id`.
pub open spec fn id_property(id: nat) -> PropertyView {
    PropertyView { key: "id"@, value: decimal(id) }
}

/// The properties but those whose key is `id`, in order.
pub open spec fn without_id(props: Seq<PropertyView>) -> Seq<PropertyView>
    decreases props.len(),
{
    if props.len() == 0 {
        Seq::empty()
    } else if props.last().key == "id"@ {
        without_id(props.drop_last())
    } else {
        without_id(props.drop_last()).push(props.last())
    }
}

/// The line of the new id of a block named `name`, where `ids` were given before it
/// and lines are padded with `padding`: no line for a block of none of the four
/// classes.
pub open spec fn new_id_line(name: Seq<char>, ids: IdCounts, padding: Seq<char>) -> Seq<char> {
    match class_of(name) {
        Some(class) => property_line(id_property(ids.of(class) + 1), padding),
        None => Seq::empty(),
    }
}

/// The properties of a block named `name` once ids are given anew, where `ids` were
/// given before it: for one of the four classes the new id, then the properties
/// but those with the key `id`; for any other name the properties as they are.
pub open spec fn new_props(name: Seq<char>, props: Seq<PropertyView>, ids: IdCounts) -> Seq<
    PropertyView,
> {
    match class_of(name) {
        Some(class) => seq![id_property(ids.next(class).of(class))] + without_id(props),
        None => props,
    }
}

/// The block with ids given anew, to itself and to all that it holds, where `ids`
/// were given before it.
pub open spec fn renumbered(b: BlockView, ids: IdCounts) -> BlockView
    decreases b,
{
    BlockView {
        name: b.name,
        props: new_props(b.name, b.props, ids),
        blocks: renumbered_all(b.blocks, entered(b.name, ids)),
    }
}

/// The blocks with ids given anew, where `ids` were given before the first.
pub open spec fn renumbered_all(blocks: Seq<BlockView>, ids: IdCounts) -> Seq<BlockView>
    decreases blocks,
{
    if blocks.len() == 0 {
        Seq::empty()
    } else {
        renumbered_all(blocks.drop_last(), ids).push(
            renumbered(blocks.last(), ids_after_all(blocks.drop_last(), ids)),
        )
    }
}

/// The document with ids given anew, each class counted from one. The root itself
/// is given none.
pub open spec fn renumbered_document(v: BlockView) -> BlockView {
    BlockView { name: v.name, props: v.props, blocks: renumbered_all(v.blocks, IdCounts::zero()) }
}

/// How many blocks of `class` the block holds, itself included.
pub open spec fn class_count(b: BlockView, class: Class) -> nat
    decreases b,
{
    let own: nat = if class_of(b.name) == Some(class) {
        1
    } else {
        0
    };
    own + class_count_all(b.blocks, class)
}

/// How many blocks of `class` the blocks hold, themselves included.
pub open spec fn class_count_all(blocks: Seq<BlockView>, class: Class) -> nat
    decreases blocks,
{
    if blocks.len() == 0 {
        0
    } else {
        class_count_all(blocks.drop_last(), class) + class_count(blocks.last(), class)
    }
}

/// The block and all the blocks that it holds, in the order of the text: each block
/// before its children, and these one after the other.
pub open spec fn pre_order(b: BlockView) -> Seq<BlockView>
    decreases b,
{
    seq![b] + pre_order_all(b.blocks)
}

/// All the blocks that `blocks` hold, themselves included, in the order of the text.
pub open spec fn pre_order_all(blocks: Seq<BlockView>) -> Seq<BlockView>
    decreases blocks,
{
    if blocks.len() == 0 {
        Seq::empty()
    } else {
        pre_order_all(blocks.drop_last()) + pre_order(blocks.last())
    }
}

/// How many of the first `n` of `blocks` are of `class`, by their names.
pub open spec fn named_among(blocks: Seq<BlockView>, class: Class, n: int) -> nat
    decreases n,
{
    if n <= 0 {
        0
    } else {
        let last: nat = if n <= blocks.len() && class_of(blocks[n - 1].name) == Some(class) {
            1
        } else {
            0
        };
        named_among(blocks, class, n - 1) + last
    }
}

/// The counts after the first `n` of `blocks` were each given an id, where `ids`
/// were given before.
pub open spec fn counts_at(ids: IdCounts, blocks: Seq<BlockView>, n: int) -> IdCounts {
    IdCounts {
        world: ids.world + named_among(blocks, Class::World, n),
        solid: ids.solid + named_among(blocks, Class::Solid, n),
        side: ids.side + named_among(blocks, Class::Side, n),
        entity: ids.entity + named_among(blocks, Class::Entity, n),
    }
}

/// Numbering a block never lowers a count.
pub proof fn lemma_ids_grow(b: BlockView, ids: IdCounts)
    ensures
        ids.le(entered(b.name, ids)),
        entered(b.name, ids).le(ids_after(b, ids)),
        ids.le(ids_after(b, ids)),
    decreases b,
{
    lemma_ids_grow_all(b.blocks, entered(b.name, ids), b.blocks.len() as int);
    assert(b.blocks.take(b.blocks.len() as int) =~= b.blocks);
}

/// Numbering more blocks never lowers a count.
pub proof fn lemma_ids_grow_all(blocks: Seq<BlockView>, ids: IdCounts, n: int)
    requires
        0 <= n <= blocks.len(),
    ensures
        ids.le(ids_after_all(blocks.take(n), ids)),
        ids_after_all(blocks.take(n), ids).le(ids_after_all(blocks, ids)),
    decreases blocks, blocks.len() - n,
{
    if n == blocks.len() {
        assert(blocks.take(n) =~= blocks);
        if n > 0 {
            lemma_ids_grow_all(blocks.drop_last(), ids, n - 1);
            assert(blocks.drop_last().take(n - 1) =~= blocks.drop_last());
            lemma_ids_grow(blocks.last(), ids_after_all(blocks.drop_last(), ids));
        }
    } else {
        lemma_ids_grow_all(blocks, ids, n + 1);
        let next = blocks.take(n + 1);
        assert(next.drop_last() =~= blocks.take(n));
        assert(next.last() == blocks[n]);
        lemma_ids_grow(blocks[n], ids_after_all(blocks.take(n), ids));
        if n > 0 {
            lemma_ids_grow_all(blocks.take(n), ids, n - 1);
            assert(blocks.take(n).take(n - 1) =~= blocks.take(n).drop_last());
            lemma_ids_grow(blocks.take(n).last(), ids_after_all(blocks.take(n).drop_last(), ids));
        }
    }
}

/// One more block is one more block numbered, after the others.
proof fn lemma_renumbered_next(blocks: Seq<BlockView>, ids: IdCounts, n: int)
    requires
        0 <= n < blocks.len(),
    ensures
        renumbered_all(blocks.take(n + 1), ids) == renumbered_all(blocks.take(n), ids).push(
            renumbered(blocks[n], ids_after_all(blocks.take(n), ids)),
        ),
        ids_after_all(blocks.take(n + 1), ids) == ids_after(
            blocks[n],
            ids_after_all(blocks.take(n), ids),
        ),
{
    let next = blocks.take(n + 1);
    assert(next.drop_last() =~= blocks.take(n));
    assert(next.last() == blocks[n]);
}

/// Stores the highest id given so far to worlds, solids, sides and entities.
/// Ids of other things are left alone: other parts of a file refer to them.
#[derive(Clone, Debug, Eq, PartialEq)]
pub struct IdState {
    max_world_id: u32,
    max_solid_id: u32,
    max_side_id: u32,
    max_entity_id: u32,
}

impl View for IdState {
    type V = IdCounts;

    closed spec fn view(&self) -> IdCounts {
        IdCounts {
            world: self.max_world_id as nat,
            solid: self.max_solid_id as nat,
            side: self.max_side_id as nat,
            entity: self.max_entity_id as nat,
        }
    }
}

impl Default for IdState {
    /// The state before any id was given.
    fn default() -> (state: Self)
        ensures
            state@ == IdCounts::zero(),
    {
        IdState { max_world_id: 0, max_solid_id: 0, max_side_id: 0, max_entity_id: 0 }
    }
}

impl IdState {
    /// States with the same counts are the same state: what is stated of a state's
    /// counts is stated of the state.
    pub proof fn law_same_counts(self, other: IdState)
        requires
            self@ == other@,
        ensures
            self == other,
    {
    }

    /// Gives the next id of `class`, if the counter can hold it.
    fn take(&mut self, class: Class) -> (id: Option<u32>)
        ensures
            match id {
                Some(id) => final(self)@ == old(self)@.next(class) && id == final(self)@.of(
                    class,
                ),
                None => !old(self)@.next(class).fits() && *final(self) == *old(self),
            },
    {
        match class {
            Class::World => {
                if self.max_world_id == u32::MAX {
                    return None;
                }
                self.max_world_id = self.max_world_id + 1;
                Some(self.max_world_id)
            },
            Class::Solid => {
                if self.max_solid_id == u32::MAX {
                    return None;
                }
                self.max_solid_id = self.max_solid_id + 1;
                Some(self.max_solid_id)
            },
            Class::Side => {
                if self.max_side_id == u32::MAX {
                    return None;
                }
                self.max_side_id = self.max_side_id + 1;
                Some(self.max_side_id)
            },
            Class::Entity => {
                if self.max_entity_id == u32::MAX {
                    return None;
                }
                self.max_entity_id = self.max_entity_id + 1;
                Some(self.max_entity_id)
            },
        }
    }

    /// Counts the ids that `block` and all that it holds are given, on from this
    /// state. Returns whether every counter could hold its count; if one could
    /// not, the state is left somewhere on the way.
    fn count<'a, S: Text<'a>>(&mut self, block: &Block<S>) -> (fits: bool)
        ensures
            fits == ids_after(block@, old(self)@).fits(),
            fits ==> final(self)@ == ids_after(block@, old(self)@),
        decreases block,
    {
        let ghost ids = self@;
        let ghost view = block@;
        proof {
            lemma_block_view(*block);
            lemma_ids_grow(view, ids);
        }
        if let Some(class) = class_of_name(block.name.as_str()) {
            if self.take(class).is_none() {
                return false;
            }
        }
        let ghost first = self@;
        let mut i: usize = 0;
        proof {
            assert(view.blocks.take(0) =~= Seq::empty());
        }
        while i < block.blocks.len()
            invariant
                i <= block.blocks.len(),
                ids == old(self)@,
                view == block@,
                first == entered(view.name, ids),
                view.blocks.len() == block.blocks.len(),
                forall|j: int| 0 <= j < block.blocks.len() ==> view.blocks[j] == block.blocks[j]@,
                self@ == ids_after_all(view.blocks.take(i as int), first),
            decreases block.blocks.len() - i,
        {
            proof {
                lemma_renumbered_next(view.blocks, first, i as int);
                lemma_ids_grow_all(view.blocks, first, i + 1);
            }
            if !self.count(&block.blocks[i]) {
                return false;
            }
            i = i + 1;
        }
        proof {
            assert(view.blocks.take(i as int) =~= view.blocks);
        }
        true
    }

    /// The state after `block` and all that it holds were given new ids, on from
    /// this state; `None` if a counter cannot hold its count.
    pub fn after<'a, S: Text<'a>>(&self, block: &Block<S>) -> (next: Option<IdState>)
        ensures
            match next {
                Some(next) => ids_after(block@, self@).fits() && next@ == ids_after(
                    block@,
                    self@,
                ),
                None => !ids_after(block@, self@).fits(),
            },
    {
        let mut next = IdState {
            max_world_id: self.max_world_id,
            max_solid_id: self.max_solid_id,
            max_side_id: self.max_side_id,
            max_entity_id: self.max_entity_id,
        };
        if next.count(block) {
            Some(next)
        } else {
            None
        }
    }
}

/// The class of a block by its name, if it is one of the four.
pub fn class_of_name(name: &str) -> (class: Option<Class>)
    ensures
        class == class_of(name@),
{
    if exactly("world", name) {
        Some(Class::World)
    } else if exactly("solid", name) {
        Some(Class::Solid)
    } else if exactly("side", name) {
        Some(Class::Side)
    } else if exactly("entity", name) {
        Some(Class::Entity)
    } else {
        None
    }
}

/// One digit as text.
fn digit(d: u32) -> (s: &'static str)
    requires
        d < 10,
    ensures
        s@ == seq![digits()[d as int]],
{
    proof {
        reveal_strlit("0");
        reveal_strlit("1");
        reveal_strlit("2");
        reveal_strlit("3");
        reveal_strlit("4");
        reveal_strlit("5");
        reveal_strlit("6");
        reveal_strlit("7");
        reveal_strlit("8");
        reveal_strlit("9");
    }
    let s = if d == 0 {
        "0"
    } else if d == 1 {
        "1"
    } else if d == 2 {
        "2"
    } else if d == 3 {
        "3"
    } else if d == 4 {
        "4"
    } else if d == 5 {
        "5"
    } else if d == 6 {
        "6"
    } else if d == 7 {
        "7"
    } else if d == 8 {
        "8"
    } else {
        "9"
    };
    assert(s@ =~= seq![digits()[d as int]]);
    s
}

/// Writes `n` in decimal digits.
fn write_decimal<W: TextSink>(f: &mut W, n: u32) -> (r: fmt::Result)
    ensures
        wrote(*old(f), *final(f), r, decimal(n as nat)),
    decreases n,
{
    let ghost before = f.text();
    if n >= 10 {
        write_decimal(f, n / 10)?;
    }
    f.write_str(digit(n % 10))?;
    proof {
        if old(f).keeps_text() {
            assert(f.text() =~= before + decimal(n as nat));
        }
    }
    Ok(())
}

/// Writes properties as lines through the adapter, which stands at the start of a
/// line, without those whose key is `id`.
fn write_props_without_id<'a, S: Text<'a>, W: TextSink>(
    out: &mut PadAdapter<'_, W>,
    props: &Vec<Property<S, S>>,
) -> (r: fmt::Result)
    requires
        old(out).on_newline,
    ensures
        *final(final(out).buf) == *final(old(out).buf),
        passed_lines(
            *old(out),
            *final(out),
            r,
            props_text(without_id(props_view(props@)), old(out).padding@),
        ),
{
    let ghost before = out.buf.text();
    let ghost all = props_view(props@);
    let mut i: usize = 0;
    proof {
        assert(all.take(0) =~= Seq::empty());
        assert(before + props_text(without_id(all.take(0)), out.padding@) =~= before);
    }
    while i < props.len()
        invariant
            i <= props.len(),
            before == old(out).buf.text(),
            out.on_newline,
            out.padding@ == old(out).padding@,
            *final(out.buf) == *final(old(out).buf),
            old(out).buf.reliable() ==> out.buf.reliable(),
            old(out).buf.keeps_text() ==> out.buf.keeps_text() && out.buf.text() == before
                + props_text(without_id(all.take(i as int)), out.padding@),
            all == props_view(props@),
        decreases props.len() - i,
    {
        proof {
            let next = all.take(i + 1);
            assert(next.drop_last() =~= all.take(i as int));
            assert(next.last() == props[i as int]@);
        }
        if !exactly("id", props[i].key.as_str()) {
            write_property_line(out, &props[i])?;
            proof {
                let kept = without_id(all.take(i as int));
                assert(kept.push(props[i as int]@).drop_last() =~= kept);
                if old(out).buf.keeps_text() {
                    assert(out.buf.text() =~= before + props_text(
                        kept.push(props[i as int]@),
                        out.padding@,
                    ));
                }
            }
        }
        i = i + 1;
    }
    proof {
        assert(all.take(i as int) =~= all);
    }
    Ok(())
}

impl<'a, S: Text<'a>> Block<S> {
    /// Gives the block its new id, if it is of one of the four classes, and writes
    /// the line of this id through the adapter of the block's inside, which stands at
    /// the start of a line. To a block of any other class no id is given, and nothing
    /// is written. The id is given before anything is written.
    fn write_new_id<W: TextSink>(&self, out: &mut PadAdapter<'_, W>, state: &mut IdState) -> (r:
        fmt::Result)
        requires
            old(out).on_newline,
            entered(self@.name, old(state)@).fits(),
        ensures
            final(state)@ == entered(self@.name, old(state)@),
            *final(final(out).buf) == *final(old(out).buf),
            passed_lines(
                *old(out),
                *final(out),
                r,
                new_id_line(self@.name, old(state)@, old(out).padding@),
            ),
    {
        proof {
            lemma_block_view(*self);
            assert(out.buf.text() + Seq::<char>::empty() =~= out.buf.text());
        }
        if let Some(class) = class_of_name(self.name.as_str()) {
            if let Some(new_id) = state.take(class) {
                let mut number = String::new();
                let _ = write_decimal(&mut number, new_id);
                let id: Property<&str, String> = Property::new("id", number);
                assert(id@ == id_property(new_id as nat));
                return write_property_line(out, &id);
            }
        }
        Ok(())
    }

    /// Writes what stands inside the block with ids given anew through the adapter
    /// of its inside, which stands at the start of a line: the line of the block's
    /// own new id, if it is given one; its properties, but those with the key `id`
    /// where it is given one; its child blocks. Where the sink fails, the ids that
    /// were given until then stay given.
    fn write_new_ids_items<W: TextSink>(
        &self,
        inner: &mut PadAdapter<'_, W>,
        state: &mut IdState,
    ) -> (r: fmt::Result)
        requires
            old(inner).on_newline,
            ids_after(self@, old(state)@).fits(),
        ensures
            old(state)@.le(final(state)@),
            final(state)@.le(ids_after(self@, old(state)@)),
            r is Ok ==> final(state)@ == ids_after(self@, old(state)@),
            *final(final(inner).buf) == *final(old(inner).buf),
            passed_lines(
                *old(inner),
                *final(inner),
                r,
                props_text(renumbered(self@, old(state)@).props, old(inner).padding@)
                    + blocks_text(renumbered(self@, old(state)@).blocks, old(inner).padding@),
            ),
        decreases self, 0nat,
    {
        let ghost view = self@;
        let ghost ids = state@;
        let ghost before = inner.buf.text();
        let ghost pad = inner.padding@;
        proof {
            lemma_block_view(*self);
            lemma_ids_grow(view, ids);
        }
        self.write_new_id(inner, state)?;
        proof {
            let id_line = seq![id_property(ids.of(class_of(view.name)->0) + 1)];
            assert(id_line.drop_last() =~= Seq::empty());
            assert(props_text(id_line.drop_last(), pad) =~= Seq::empty());
            assert(props_text(id_line, pad) =~= property_line(id_line[0], pad));
            lemma_props_text_concat(id_line, without_id(view.props), pad);
        }
        if class_of_name(self.name.as_str()).is_some() {
            write_props_without_id(inner, &self.props)?;
        } else {
            write_props(inner, &self.props)?;
        }
        let ghost head = inner.buf.text();
        let ghost first = state@;
        proof {
            if old(inner).buf.keeps_text() {
                assert(head =~= before + props_text(new_props(view.name, view.props, ids), pad));
            }
        }
        let mut i: usize = 0;
        proof {
            assert(view.blocks.take(0) =~= Seq::empty());
            assert(head + blocks_text(renumbered_all(view.blocks.take(0), first), pad) =~= head);
            lemma_ids_grow_all(view.blocks, first, 0);
        }
        while i < self.blocks.len()
            invariant
                i <= self.blocks.len(),
                view == self@,
                ids == old(state)@,
                pad == old(inner).padding@,
                inner.padding@ == pad,
                inner.on_newline,
                *final(inner.buf) == *final(old(inner).buf),
                old(inner).buf.reliable() ==> inner.buf.reliable(),
                first == entered(view.name, ids),
                ids.le(first),
                ids_after(view, ids).fits(),
                view.blocks.len() == self.blocks.len(),
                forall|j: int| 0 <= j < self.blocks.len() ==> view.blocks[j] == self.blocks[j]@,
                state@ == ids_after_all(view.blocks.take(i as int), first),
                first.le(state@),
                state@.le(ids_after(view, ids)),
                old(inner).buf.keeps_text() ==> inner.buf.keeps_text() && inner.buf.text() == head
                    + blocks_text(renumbered_all(view.blocks.take(i as int), first), pad),
            decreases self.blocks.len() - i,
        {
            let ghost written = inner.buf.text();
            let ghost so_far = renumbered_all(view.blocks.take(i as int), first);
            let ghost child = renumbered(
                self.blocks[i as int]@,
                ids_after_all(view.blocks.take(i as int), first),
            );
            proof {
                lemma_renumbered_next(view.blocks, first, i as int);
                lemma_ids_grow_all(view.blocks, first, i + 1);
                assert(so_far.push(child).drop_last() =~= so_far);
            }
            self.blocks[i].write_new_ids_through(inner, state)?;
            write_line_feed(inner)?;
            proof {
                if old(inner).buf.keeps_text() {
                    assert(inner.buf.text() =~= written + pad + block_text_in(child, pad) + seq![
                        '\n',
                    ]);
                    assert(inner.buf.text() =~= head + blocks_text(so_far.push(child), pad));
                }
            }
            i = i + 1;
        }
        proof {
            assert(view.blocks.take(i as int) =~= view.blocks);
            if old(inner).buf.keeps_text() {
                assert(inner.buf.text() =~= before + (props_text(
                    renumbered(view, ids).props,
                    pad,
                ) + blocks_text(renumbered(view, ids).blocks, pad)));
            }
        }
        Ok(())
    }

    /// Writes the block with ids given anew through the adapter of the lines among
    /// which it stands. Where the sink fails, the ids that were given until then
    /// stay given.
    fn write_new_ids_through<W: TextSink>(
        &self,
        out: &mut PadAdapter<'_, W>,
        state: &mut IdState,
    ) -> (r: fmt::Result)
        requires
            ids_after(self@, old(state)@).fits(),
        ensures
            old(state)@.le(final(state)@),
            final(state)@.le(ids_after(self@, old(state)@)),
            r is Ok ==> final(state)@ == ids_after(self@, old(state)@),
            *final(final(out).buf) == *final(old(out).buf),
            passed(
                *old(out),
                *final(out),
                r,
                block_text_in(renumbered(self@, old(state)@), old(out).padding@),
                false,
            ),
        decreases self, 1nat,
    {
        let ghost view = renumbered(self@, state@);
        let ghost pad = out.padding@;
        let ghost before = out.buf.text();
        let ghost held = held_back(out.on_newline, pad);
        proof {
            lemma_block_view(*self);
            lemma_ids_grow(self@, state@);
        }
        write_head(out, self.name.as_str())?;
        let ghost head = out.buf.text();
        let padding = deeper_padding(out.padding);
        let mut inner = out.inside(padding.as_str());
        let r = self.write_new_ids_items(&mut inner, state);
        let at_line_start = inner.on_newline;
        out.on_newline = at_line_start;
        r?;
        let ghost items = out.buf.text();
        write_foot(out)?;
        proof {
            if old(out).buf.keeps_text() {
                assert(out.buf.text() =~= items + pad + seq!['}']);
                assert(out.buf.text() =~= before + held + block_text_in(view, pad));
            }
        }
        Ok(())
    }

    /// Writes the block to `f` with new ids for worlds, solids, sides and entities,
    /// counted on from `state`. Disregards any existing id of theirs. Where the sink
    /// fails, the writing ends there, and the ids that were given until then stay
    /// given: no counter goes back, and none passes what the whole block takes.
    ///
    /// No counter may pass `u32::MAX`: [`IdState::after`] tells.
    pub fn fmt_new_ids<W: TextSink>(&self, f: &mut W, state: &mut IdState) -> (r: fmt::Result)
        requires
            ids_after(self@, old(state)@).fits(),
        ensures
            old(state)@.le(final(state)@),
            final(state)@.le(ids_after(self@, old(state)@)),
            r is Ok ==> final(state)@ == ids_after(self@, old(state)@),
            wrote(*old(f), *final(f), r, block_text(renumbered(self@, old(state)@))),
    {
        proof {
            reveal_strlit("");
            assert(""@ =~= Seq::<char>::empty());
        }
        let ghost before = f.text();
        let ghost ids = state@;
        let mut out = PadAdapter::new(f, "");
        let r = self.write_new_ids_through(&mut out, state);
        proof {
            if old(f).keeps_text() && r is Ok {
                assert(out.buf.text() =~= before + block_text(renumbered(self@, ids)));
            }
        }
        r
    }
}

impl<'a, S: Text<'a>> Vmf<S> {
    /// Whether the document can be rendered with new ids: whether no class holds
    /// more than `u32::MAX` blocks.
    pub fn new_ids_fit(&self) -> (fits: bool)
        ensures
            fits == ids_after_all(self@.blocks, IdCounts::zero()).fits(),
    {
        let ghost blocks = self@.blocks;
        let ghost zero = IdCounts::zero();
        let mut state = IdState::default();
        let mut i: usize = 0;
        proof {
            lemma_block_view(self.inner);
            assert(blocks.take(0) =~= Seq::empty());
        }
        while i < self.inner.blocks.len()
            invariant
                i <= self.inner.blocks.len(),
                blocks == self@.blocks,
                zero == IdCounts::zero(),
                blocks.len() == self.inner.blocks.len(),
                forall|j: int|
                    0 <= j < self.inner.blocks.len() ==> blocks[j] == self.inner.blocks[j]@,
                state@ == ids_after_all(blocks.take(i as int), zero),
            decreases self.inner.blocks.len() - i,
        {
            proof {
                lemma_renumbered_next(blocks, zero, i as int);
                lemma_ids_grow_all(blocks, zero, i + 1);
            }
            if !state.count(&self.inner.blocks[i]) {
                return false;
            }
            i = i + 1;
        }
        proof {
            assert(blocks.take(i as int) =~= blocks);
        }
        true
    }

    /// Writes the document to `f`: in canonical form, or, where `alternate` is set,
    /// with new ids for worlds, solids, sides and entities, counted from one.
    ///
    /// With `alternate`, no class may hold more than `u32::MAX` blocks:
    /// [`Vmf::new_ids_fit`] tells.
    pub fn fmt<W: TextSink>(&self, f: &mut W, alternate: bool) -> (r: fmt::Result)
        requires
            alternate ==> ids_after_all(self@.blocks, IdCounts::zero()).fits(),
        ensures
            wrote(
                *old(f),
                *final(f),
                r,
                vmf_text(
                    if alternate {
                        renumbered_document(self@)
                    } else {
                        self@
                    },
                ),
            ),
    {
        let ghost before = f.text();
        let ghost blocks = self@.blocks;
        let ghost zero = IdCounts::zero();
        let mut state = IdState::default();
        let mut i: usize = 0;
        proof {
            reveal_strlit("\n");
            assert("\n"@ =~= seq!['\n']);
            lemma_block_view(self.inner);
            assert(blocks.take(0) =~= Seq::empty());
            assert(before + document_text(blocks.take(0)) =~= before);
            assert(before + document_text(renumbered_all(blocks.take(0), zero)) =~= before);
        }
        while i < self.inner.blocks.len()
            invariant
                i <= self.inner.blocks.len(),
                before == old(f).text(),
                "\n"@ == seq!['\n'],
                old(f).reliable() ==> f.reliable(),
                old(f).keeps_text() ==> f.keeps_text(),
                blocks == self@.blocks,
                zero == IdCounts::zero(),
                blocks.len() == self.inner.blocks.len(),
                forall|j: int|
                    0 <= j < self.inner.blocks.len() ==> blocks[j] == self.inner.blocks[j]@,
                alternate ==> ids_after_all(blocks, zero).fits(),
                alternate ==> state@ == ids_after_all(blocks.take(i as int), zero),
                alternate && old(f).keeps_text() ==> f.text() == before + document_text(
                    renumbered_all(blocks.take(i as int), zero),
                ),
                alternate ==> renumbered_all(blocks.take(i as int), zero).len() == i,
                !alternate && old(f).keeps_text() ==> f.text() == before + document_text(
                    blocks.take(i as int),
                ),
            decreases self.inner.blocks.len() - i,
        {
            let ghost so_far = renumbered_all(blocks.take(i as int), zero);
            let ghost child = renumbered(
                self.inner.blocks[i as int]@,
                ids_after_all(blocks.take(i as int), zero),
            );
            proof {
                let next = blocks.take(i + 1);
                assert(next.drop_last() =~= blocks.take(i as int));
                assert(next.last() == self.inner.blocks[i as int]@);
                lemma_renumbered_next(blocks, zero, i as int);
                assert(so_far.push(child).drop_last() =~= so_far);
            }
            if i > 0 {
                write_piece(f, "\n")?;
            }
            if alternate {
                proof {
                    lemma_ids_grow_all(blocks, zero, i + 1);
                }
                self.inner.blocks[i].fmt_new_ids(f, &mut state)?;
                proof {
                    if old(f).keeps_text() {
                        assert(f.text() =~= before + document_text(so_far.push(child)));
                    }
                }
            } else {
                self.inner.blocks[i].fmt(f)?;
                proof {
                    if old(f).keeps_text() {
                        assert(f.text() =~= before + document_text(blocks.take(i + 1)));
                    }
                }
            }
            i = i + 1;
        }
        proof {
            assert(blocks.take(i as int) =~= blocks);
        }
        Ok(())
    }

    /// The document in canonical form.
    pub fn to_string(&self) -> (s: String)
        ensures
            s@ == vmf_text(self@),
    {
        let mut s = String::new();
        let _ = self.fmt(&mut s, false);
        s
    }

    /// The document with new ids for worlds, solids, sides and entities, each class
    /// counted from one in the order of the text. Disregards any existing id of
    /// theirs: it can be left out.
    ///
    /// No class may hold more than `u32::MAX` blocks: [`Vmf::new_ids_fit`] tells.
    pub fn to_string_new_ids(&self) -> (s: String)
        requires
            ids_after_all(self@.blocks, IdCounts::zero()).fits(),
        ensures
            s@ == vmf_text(renumbered_document(self@)),
    {
        let mut s = String::new();
        let _ = self.fmt(&mut s, true);
        s
    }
}

} // verus!

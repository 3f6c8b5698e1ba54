//! Abstract syntax tree representing a vmf file.
use crate::scan::exactly;
use crate::text::Text;
use vstd::prelude::*;

verus! {

/// A simple list of blocks, representing an entire vmf file. Implemented as a special
/// block named [`Vmf::ROOT_NAME`] with no properties.
#[derive(Debug, Eq, PartialEq)]
pub struct Vmf<S> {
    pub inner: Block<S>,
}

/// A named block containing properties and other blocks.
#[derive(Debug, Default, Eq, PartialEq)]
pub struct Block<S> {
    pub name: S,
    pub props: Vec<Property<S, S>>,
    pub blocks: Vec<Block<S>>,
}

/// A simple key-value pair.
#[derive(Debug, Default, Clone, Eq, PartialEq)]
pub struct Property<K, V> {
    pub key: K,
    pub value: V,
}

/// The name of the block that stands for a whole document.
pub const ROOT_NAME: &'static str = "root";

/// What a [`Property`] holds: its key and its value as character sequences.
pub ghost struct PropertyView {
    pub key: Seq<char>,
    pub value: Seq<char>,
}

/// What a [`Block`] holds: its name, its properties in order, its child blocks in order.
pub ghost struct BlockView {
    pub name: Seq<char>,
    pub props: Seq<PropertyView>,
    pub blocks: Seq<BlockView>,
}

impl<K: View<V = Seq<char>>, V: View<V = Seq<char>>> View for Property<K, V> {
    type V = PropertyView;

    open spec fn view(&self) -> PropertyView {
        PropertyView { key: self.key@, value: self.value@ }
    }
}

/// The views of a list of properties, in order.
pub open spec fn props_view<S: View<V = Seq<char>>>(props: Seq<Property<S, S>>) -> Seq<
    PropertyView,
> {
    Seq::new(props.len(), |i: int| props[i]@)
}

/// The view of a block, children included.
pub open spec fn block_view<S: View<V = Seq<char>>>(b: Block<S>) -> BlockView
    decreases b,
{
    BlockView {
        name: b.name@,
        props: props_view(b.props@),
        blocks: Seq::new(
            b.blocks@.len(),
            |i: int|
                if 0 <= i < b.blocks@.len() {
                    block_view(b.blocks@[i])
                } else {
                    arbitrary()
                },
        ),
    }
}

/// The views of a list of blocks, in order.
pub open spec fn blocks_view<S: View<V = Seq<char>>>(blocks: Seq<Block<S>>) -> Seq<BlockView> {
    Seq::new(blocks.len(), |i: int| block_view(blocks[i]))
}

impl<S: View<V = Seq<char>>> View for Block<S> {
    type V = BlockView;

    open spec fn view(&self) -> BlockView {
        block_view(*self)
    }
}

impl<S: View<V = Seq<char>>> View for Vmf<S> {
    type V = BlockView;

    open spec fn view(&self) -> BlockView {
        self.inner@
    }
}

/// The fields of a block's view are the views of its fields.
pub proof fn lemma_block_view<S: View<V = Seq<char>>>(b: Block<S>)
    ensures
        b@.name == b.name@,
        b@.props == props_view(b.props@),
        b@.blocks == blocks_view(b.blocks@),
{
    assert(b@.blocks =~= blocks_view(b.blocks@));
}

/// A document root: the reserved name and no properties of its own.
pub open spec fn is_root(v: BlockView) -> bool {
    v.name == ROOT_NAME@ && v.props.len() == 0
}

/// The root that holds `blocks` as the top-level blocks of a document.
pub open spec fn root_of(blocks: Seq<BlockView>) -> BlockView {
    BlockView { name: ROOT_NAME@, props: Seq::empty(), blocks }
}

impl<S> Vmf<S> {
    /// The name of the block that stands for a whole document.
    pub const ROOT_NAME: &'static str = ROOT_NAME;

    /// Returns the root block.
    pub fn root(&self) -> (r: &Block<S>)
        ensures
            *r == self.inner,
    {
        &self.inner
    }

    /// Returns the root block, for changing it in place.
    pub fn root_mut(&mut self) -> (r: &mut Block<S>)
        ensures
            *r == old(self).inner,
            *final(self) == (Vmf { inner: *final(r) }),
    {
        &mut self.inner
    }
}

impl<'a, S: Text<'a>> Vmf<S> {
    /// A document with the given top-level blocks.
    pub fn new(blocks: Vec<Block<S>>) -> (v: Self)
        ensures
            v@ == root_of(blocks_view(blocks@)),
            v.inner.blocks == blocks,
    {
        let v = Vmf { inner: Block::new(S::from_slice(Self::ROOT_NAME), Vec::new(), blocks) };
        proof {
            lemma_block_view(v.inner);
            assert(v@.props =~= Seq::empty());
        }
        v
    }
}

impl<S> Block<S> {
    /// A block with the given name, properties and child blocks.
    pub fn new(name: S, props: Vec<Property<S, S>>, blocks: Vec<Block<S>>) -> (b: Self)
        ensures
            b == (Block { name, props, blocks }),
    {
        Block { name, props, blocks }
    }

    /// The child blocks of this block, in order. Not any of the children's children.
    pub fn iter_children(&self) -> (children: &[Self])
        ensures
            children@ == self.blocks@,
    {
        self.blocks.as_slice()
    }
}

impl<K, V> Property<K, V> {
    /// A property with the given key and value.
    pub fn new(key: K, value: V) -> (p: Self)
        ensures
            p == (Property { key, value }),
    {
        Property { key, value }
    }
}

impl<'a, S: Text<'a>> Default for Vmf<S> {
    /// A document without blocks.
    fn default() -> (v: Self)
        ensures
            v@ == root_of(Seq::empty()),
    {
        let v = Vmf::new(Vec::new());
        proof {
            assert(blocks_view(Seq::<Block<S>>::empty()) =~= Seq::empty());
        }
        v
    }
}

impl<S> From<Vmf<S>> for Block<S> {
    /// The root block of the document.
    fn from(vmf: Vmf<S>) -> (b: Self) {
        vmf.inner
    }
}

impl<S> vstd::std_specs::convert::FromSpecImpl<Vmf<S>> for Block<S> {
    open spec fn obeys_from_spec() -> bool {
        true
    }

    open spec fn from_spec(vmf: Vmf<S>) -> Self {
        vmf.inner
    }
}

impl<S> AsRef<Block<S>> for Vmf<S> {
    fn as_ref(&self) -> (r: &Block<S>)
        ensures
            *r == self.inner,
    {
        &self.inner
    }
}

impl<S> AsMut<Block<S>> for Vmf<S> {
    fn as_mut(&mut self) -> (r: &mut Block<S>)
        ensures
            *r == old(self).inner,
            *final(self) == (Vmf { inner: *final(r) }),
    {
        &mut self.inner
    }
}

impl<S> std::ops::Deref for Vmf<S> {
    type Target = Block<S>;

    fn deref(&self) -> (r: &Block<S>)
        ensures
            *r == self.inner,
    {
        &self.inner
    }
}

impl<S> std::ops::DerefMut for Vmf<S> {
    fn deref_mut(&mut self) -> (r: &mut Block<S>)
        ensures
            *r == old(self).inner,
            *final(self) == (Vmf { inner: *final(r) }),
    {
        &mut self.inner
    }
}

impl<'a, K: Text<'a>, V: Text<'a>> Property<K, V> {
    /// A copy of the property.
    pub fn duplicate(&self) -> (p: Self)
        ensures
            p@ == self@,
    {
        Property { key: self.key.duplicate(), value: self.value.duplicate() }
    }
}

impl<'a, S: Text<'a>> Block<S> {
    /// A copy of the block, children included.
    pub fn duplicate(&self) -> (b: Self)
        ensures
            b@ == self@,
        decreases self,
    {
        let mut props: Vec<Property<S, S>> = Vec::new();
        let mut i: usize = 0;
        while i < self.props.len()
            invariant
                i <= self.props.len(),
                props.len() == i,
                forall|k: int| 0 <= k < i ==> (#[trigger] props[k])@ == self.props[k]@,
            decreases self.props.len() - i,
        {
            props.push(self.props[i].duplicate());
            i = i + 1;
        }
        let mut blocks: Vec<Block<S>> = Vec::new();
        let mut j: usize = 0;
        while j < self.blocks.len()
            invariant
                j <= self.blocks.len(),
                blocks.len() == j,
                forall|k: int| 0 <= k < j ==> (#[trigger] blocks[k])@ == self.blocks[k]@,
            decreases self.blocks.len() - j,
        {
            blocks.push(self.blocks[j].duplicate());
            j = j + 1;
        }
        let b = Block { name: self.name.duplicate(), props, blocks };
        proof {
            lemma_block_view(b);
            lemma_block_view(*self);
            assert(props_view(b.props@) =~= props_view(self.props@));
            assert(blocks_view(b.blocks@) =~= blocks_view(self.blocks@));
        }
        b
    }
}

impl<'a, K: Text<'a>, V: Text<'a>> Property<K, V> {
    /// Whether the two properties hold the same key and value, however each holds
    /// its text.
    pub fn same_as<'b, K2: Text<'b>, V2: Text<'b>>(&self, other: &Property<K2, V2>) -> (same:
        bool)
        ensures
            same == (self@ == other@),
    {
        exactly(self.key.as_str(), other.key.as_str()) && exactly(
            self.value.as_str(),
            other.value.as_str(),
        )
    }
}

impl<'a, S: Text<'a>> Block<S> {
    /// Whether the two blocks hold the same name, the same properties and the same
    /// child blocks in the same order, however each holds its text.
    pub fn same_as<'b, T: Text<'b>>(&self, other: &Block<T>) -> (same: bool)
        ensures
            same == (self@ == other@),
        decreases self,
    {
        proof {
            lemma_block_view(*self);
            lemma_block_view(*other);
        }
        if !exactly(self.name.as_str(), other.name.as_str()) {
            return false;
        }
        if self.props.len() != other.props.len() || self.blocks.len() != other.blocks.len() {
            proof {
                assert(self@.props.len() == self.props.len());
                assert(other@.props.len() == other.props.len());
                assert(self@.blocks.len() == self.blocks.len());
                assert(other@.blocks.len() == other.blocks.len());
            }
            return false;
        }
        let mut i: usize = 0;
        while i < self.props.len()
            invariant
                i <= self.props.len(),
                self.props.len() == other.props.len(),
                self@.props == props_view(self.props@),
                other@.props == props_view(other.props@),
                forall|k: int| 0 <= k < i ==> (#[trigger] self.props[k])@ == other.props[k]@,
            decreases self.props.len() - i,
        {
            if !self.props[i].same_as(&other.props[i]) {
                proof {
                    assert(self@.props[i as int] != other@.props[i as int]);
                }
                return false;
            }
            i = i + 1;
        }
        let mut j: usize = 0;
        while j < self.blocks.len()
            invariant
                j <= self.blocks.len(),
                self.blocks.len() == other.blocks.len(),
                self@.blocks == blocks_view(self.blocks@),
                other@.blocks == blocks_view(other.blocks@),
                forall|k: int| 0 <= k < j ==> (#[trigger] self.blocks[k])@ == other.blocks[k]@,
            decreases self.blocks.len() - j,
        {
            if !self.blocks[j].same_as(&other.blocks[j]) {
                proof {
                    assert(self@.blocks[j as int] != other@.blocks[j as int]);
                }
                return false;
            }
            j = j + 1;
        }
        proof {
            assert(self@.props =~= other@.props);
            assert(self@.blocks =~= other@.blocks);
        }
        true
    }
}

impl<'a, S: Text<'a>> Vmf<S> {
    /// Whether the two documents hold the same tree, however each holds its text.
    pub fn same_as<'b, T: Text<'b>>(&self, other: &Vmf<T>) -> (same: bool)
        ensures
            same == (self@ == other@),
    {
        self.inner.same_as(&other.inner)
    }
}

impl<'a, S: Text<'a>> Clone for Block<S> {
    fn clone(&self) -> (b: Self)
        ensures
            b@ == self@,
    {
        self.duplicate()
    }
}

impl<'a, S: Text<'a>> Clone for Vmf<S> {
    fn clone(&self) -> (v: Self)
        ensures
            v@ == self@,
    {
        Vmf { inner: self.inner.duplicate() }
    }
}

} // verus!

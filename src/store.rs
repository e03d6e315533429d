//! A store of trie items, key-value pairs and nodes that refer to other items. Each push makes
//! a new in-memory segment that shares the earlier items.
use vstd::prelude::*;
use std::rc::Rc;
use crate::element_map::ElementMap;

verus! {

/// An immutable run of shared items.
#[derive(Debug, Clone, PartialEq, Eq)]
pub struct Segment<TrieKey, TrieValue> {
    items: Vec<Rc<Item<TrieKey, TrieValue>>>,
}

impl<TrieKey, TrieValue> Segment<TrieKey, TrieValue> {
    /// The items of this segment.
    pub closed spec fn items(&self) -> Seq<Item<TrieKey, TrieValue>> {
        Seq::new(self.items@.len(), |i: int| *self.items@[i])
    }

    /// A segment without items.
    pub fn new() -> (r: Self)
        ensures
            r.items() == Seq::<Item<TrieKey, TrieValue>>::empty(),
    {
        let r = Segment { items: Vec::new() };
        assert(r.items() =~= Seq::<Item<TrieKey, TrieValue>>::empty());
        r
    }

    /// A new segment with the items of this one and then `item`, and the position of `item`.
    pub fn with_item(&self, item: Item<TrieKey, TrieValue>) -> (r: (Segment<TrieKey, TrieValue>, usize))
        ensures
            r.0.items() == self.items().push(item),
            r.1 == self.items().len(),
    {
        let mut items: Vec<Rc<Item<TrieKey, TrieValue>>> = Vec::new();
        let mut i: usize = 0;
        while i < self.items.len()
            invariant
                i <= self.items@.len(),
                items@.len() == i,
                forall|j: int| 0 <= j < i ==> *#[trigger] items@[j] == *self.items@[j],
            decreases self.items@.len() - i,
        {
            items.push(Rc::clone(&self.items[i]));
            i = i + 1;
        }
        let item_index = items.len();
        items.push(Rc::new(item));
        let r = Segment { items };
        assert(r.items() =~= self.items().push(item));
        (r, item_index)
    }

    /// The item at `index`.
    pub fn index(&self, index: usize) -> (r: &Item<TrieKey, TrieValue>)
        requires
            index < self.items().len(),
        ensures
            *r == self.items()[index as int],
    {
        &*self.items[index]
    }
}

/// A store of trie items.
pub struct SegmentStore<TrieKey, TrieValue> {
    mem_segment: Rc<Segment<TrieKey, TrieValue>>,
}

impl<TrieKey, TrieValue> SegmentStore<TrieKey, TrieValue> {
    /// The items pushed so far, in order.
    pub closed spec fn items(&self) -> Seq<Item<TrieKey, TrieValue>> {
        (*self.mem_segment).items()
    }

    /// A store without items.
    pub fn new() -> (r: Self)
        ensures
            r.items() == Seq::<Item<TrieKey, TrieValue>>::empty(),
    {
        SegmentStore { mem_segment: Rc::new(Segment::new()) }
    }

    /// Adds `segment_item` and returns a reference to it.
    pub fn push(&mut self, segment_item: Item<TrieKey, TrieValue>) -> (r: ItemRef<TrieKey, TrieValue>)
        ensures
            final(self).items() == old(self).items().push(segment_item),
            r.wf(),
            r.item() == segment_item,
    {
        let (segment, item_index) = self.mem_segment.with_item(segment_item);
        self.mem_segment = Rc::new(segment);
        ItemRef { item_id: ItemId::Mem(item_index), segment: Rc::clone(&self.mem_segment) }
    }
}

/// Where an item is within its segment.
#[derive(Debug, Clone, Copy, PartialEq, Eq, Structural)]
pub enum ItemId {
    Mem(usize),
}

impl ItemId {
    pub open spec fn index(&self) -> usize {
        match self {
            ItemId::Mem(index) => *index,
        }
    }

    /// The position of the item within its segment.
    pub fn segment_index(&self) -> (r: usize)
        ensures
            r == self.index(),
    {
        match self {
            ItemId::Mem(index) => *index,
        }
    }
}

/// A reference to a stored item; it keeps the segment that holds the item alive.
#[derive(Debug, Clone, PartialEq, Eq)]
pub struct ItemRef<TrieKey, TrieValue> {
    item_id: ItemId,
    segment: Rc<Segment<TrieKey, TrieValue>>,
}

impl<TrieKey, TrieValue> ItemRef<TrieKey, TrieValue> {
    /// The item referred to.
    pub closed spec fn item(&self) -> Item<TrieKey, TrieValue> {
        (*self.segment).items()[self.item_id.index() as int]
    }

    pub closed spec fn wf(&self) -> bool {
        self.item_id.index() < (*self.segment).items().len()
    }

    /// The item referred to.
    pub fn deref(&self) -> (r: &Item<TrieKey, TrieValue>)
        requires
            self.wf(),
        ensures
            *r == self.item(),
    {
        self.segment.index(self.item_id.segment_index())
    }
}

/// An item of a trie: a key with its value, or a node that refers to other items.
#[derive(Debug, Clone, PartialEq, Eq)]
pub enum Item<TrieKey, TrieValue> {
    KeyValue(TrieKey, TrieValue),
    Node(TrieNode<TrieKey, TrieValue>),
}

/// A trie node: which shards are present, and a reference to the item of each.
#[derive(Debug, Clone, PartialEq, Eq)]
pub struct TrieNode<TrieKey, TrieValue> {
    map: ElementMap,
    elements: Vec<ItemRef<TrieKey, TrieValue>>,
}

#[derive(Debug, Clone, PartialEq, Eq)]
pub enum Value {
    String(String),
}

#[derive(Debug, Clone, Copy, PartialEq, Eq, Structural)]
pub struct EntityId(pub u32);

#[derive(Debug, Clone, Copy, PartialEq, Eq, Structural)]
pub enum Effect {
    Add,
    Retract,
}

#[derive(Debug, Clone, Copy, PartialEq, Eq, Structural)]
pub struct TxEvent(pub EntityId, pub Effect);

} // verus!

//! A segmented store of shared items: each push makes a new in-memory segment that shares the
//! earlier items and hands out a reference that keeps its segment alive.
use vstd::prelude::*;
use std::rc::Rc;

verus! {

/// Which segment an item lives in.
#[derive(Debug, Clone, Copy, PartialEq, Eq, Structural)]
pub enum SegmentId {
    Mem,
}

/// An immutable run of shared items.
#[derive(Debug, Clone, PartialEq, Eq)]
pub struct Segment<Item> {
    items: Vec<Rc<Item>>,
}

impl<Item> Segment<Item> {
    /// The items of this segment.
    pub closed spec fn items(&self) -> Seq<Item> {
        Seq::new(self.items@.len(), |i: int| *self.items@[i])
    }

    /// A segment without items.
    pub fn new() -> (r: Self)
        ensures
            r.items() == Seq::<Item>::empty(),
    {
        let r = Segment { items: Vec::new() };
        assert(r.items() =~= Seq::<Item>::empty());
        r
    }

    /// A new segment with the items of this one and then `item`, and the position of `item`.
    fn clone_add_item(&self, item: Item) -> (r: (Segment<Item>, usize))
        ensures
            r.0.items() == self.items().push(item),
            r.1 == self.items().len(),
    {
        let mut items: Vec<Rc<Item>> = Vec::new();
        let mut i: usize = 0;
        while i < self.items.len()
            invariant
                i <= self.items@.len(),
                items@.len() == i,
                forall|j: int| 0 <= j < i ==> *#[trigger] items@[j] == *self.items@[j],
            decreases self.items@.len() - i,
        {
            items.push(Rc::clone(&self.items[i]));
            i = i + 1;
        }
        let item_index = items.len();
        items.push(Rc::new(item));
        let r = Segment { items };
        assert(r.items() =~= self.items().push(item));
        (r, item_index)
    }

    /// The item at `index`.
    pub fn index(&self, index: usize) -> (r: &Item)
        requires
            index < self.items().len(),
        ensures
            *r == self.items()[index as int],
    {
        &*self.items[index]
    }
}

/// A segmented store of items: every push makes a new segment that shares the earlier items.
pub struct SegmentedItemStore<T> {
    mem_segment: Rc<Segment<T>>,
}

impl<Item> SegmentedItemStore<Item> {
    /// The items pushed so far, in order.
    pub closed spec fn items(&self) -> Seq<Item> {
        (*self.mem_segment).items()
    }

    /// A store without items.
    pub fn new() -> (r: Self)
        ensures
            r.items() == Seq::<Item>::empty(),
    {
        SegmentedItemStore { mem_segment: Rc::new(Segment::new()) }
    }

    /// Adds `item` and returns a reference to it.
    pub fn push(&mut self, item: Item) -> (r: SegmentItemRef<Item>)
        ensures
            final(self).items() == old(self).items().push(item),
            r.wf(),
            r.item() == item,
    {
        let (segment, offset) = self.mem_segment.clone_add_item(item);
        self.mem_segment = Rc::new(segment);
        SegmentItemRef { pos: SegmentItemPos::Mem(offset), segment: Rc::clone(&self.mem_segment) }
    }
}

/// Where an item is within its segment.
#[derive(Debug, Clone, Copy, PartialEq, Eq, Structural)]
pub enum SegmentItemPos {
    Mem(usize),
}

impl SegmentItemPos {
    pub closed spec fn index(&self) -> usize {
        match self {
            SegmentItemPos::Mem(index) => *index,
        }
    }

    /// The position of the item within its segment.
    pub fn segment_index(&self) -> (r: usize)
        ensures
            r == self.index(),
    {
        match self {
            SegmentItemPos::Mem(index) => *index,
        }
    }
}

/// A reference to a stored item; it keeps the segment that holds the item alive.
#[derive(Debug, Clone, PartialEq, Eq)]
pub struct SegmentItemRef<Item> {
    pub segment: Rc<Segment<Item>>,
    pub pos: SegmentItemPos,
}

impl<Item> SegmentItemRef<Item> {
    /// The item referred to.
    pub closed spec fn item(&self) -> Item {
        (*self.segment).items()[self.pos.index() as int]
    }

    pub closed spec fn wf(&self) -> bool {
        self.pos.index() < (*self.segment).items().len()
    }

    /// The item referred to.
    pub fn borrow(&self) -> (r: &Item)
        requires
            self.wf(),
        ensures
            *r == self.item(),
    {
        self.segment.index(self.pos.segment_index())
    }
}

} // verus!

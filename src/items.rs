//! The ring of items that remain to be covered in an exact-cover search.
//!
//! Nodes live in one contiguous array and refer to each other by index.
//! Index 0 is the sentinel header; items are numbered from 1.
use vstd::prelude::*;

verus! {

/// One entry of the ring: the indices of its neighbours.
#[derive(Debug, Clone, Copy, PartialEq, Eq, Structural)]
pub struct ItemNode {
    pub previous: usize,
    pub next: usize,
}

/// The node at index `i` of a freshly built ring of `n` items.
pub open spec fn fresh_node(n: nat, i: int) -> ItemNode {
    ItemNode {
        previous: if i == 0 { n as usize } else { (i - 1) as usize },
        next: if i == n { 0 } else { (i + 1) as usize },
    }
}

/// A freshly built ring of `n` items: every node linked to its neighbours
/// in index order, and the last one back to the sentinel.
pub open spec fn fresh_ring(n: nat) -> Seq<ItemNode> {
    Seq::new(n + 1, |i: int| fresh_node(n, i))
}

/// Every neighbour index of `s` points into `s`.
pub open spec fn in_bounds(s: Seq<ItemNode>) -> bool {
    forall|i: int|
        0 <= i < s.len() ==> (#[trigger] s[i]).previous < s.len() && s[i].next < s.len()
}

/// `s` after the node between `previous` and `next` is spliced out: the two
/// neighbours point at each other, and nothing else changes.
pub open spec fn unlinked(s: Seq<ItemNode>, previous: int, next: int) -> Seq<ItemNode> {
    let s1 = s.update(previous, ItemNode { next: next as usize, ..s[previous] });
    s1.update(next, ItemNode { previous: previous as usize, ..s1[next] })
}

/// `s` after node `index` is spliced back between `previous` and `next`.
pub open spec fn relinked(s: Seq<ItemNode>, index: int, previous: int, next: int) -> Seq<
    ItemNode,
> {
    let s1 = s.update(previous, ItemNode { next: index as usize, ..s[previous] });
    s1.update(next, ItemNode { previous: index as usize, ..s1[next] })
}

/// The node reached from `from` after following `next` links `k` times.
pub open spec fn hop(s: Seq<ItemNode>, from: int, k: nat) -> int
    decreases k,
{
    if k == 0 {
        from
    } else {
        s[hop(s, from, (k - 1) as nat)].next as int
    }
}

/// Walking forward from `from`, `end` is first met after exactly `k` steps.
pub open spec fn first_reached(s: Seq<ItemNode>, from: int, end: int, k: nat) -> bool {
    &&& hop(s, from, k) == end
    &&& forall|j: nat| j < k ==> hop(s, from, j) != end
}

/// The ring of items, with the sentinel at index 0.
#[derive(Debug, PartialEq, Eq)]
pub struct Items {
    nodes: Vec<ItemNode>,
}

impl View for Items {
    type V = Seq<ItemNode>;

    closed spec fn view(&self) -> Seq<ItemNode> {
        self.nodes@
    }
}

impl Items {
    /// The sentinel exists and every link stays inside the array.
    pub open spec fn wf(&self) -> bool {
        &&& self@.len() >= 1
        &&& in_bounds(self@)
    }

    /// Builds a ring of `size` items, linked in index order.
    pub fn new(size: usize) -> (r: Items)
        requires
            size < usize::MAX,
        ensures
            r.wf(),
            r@ == fresh_ring(size as nat),
    {
        let mut nodes: Vec<ItemNode> = Vec::new();
        let mut index: usize = 0;
        while index <= size
            invariant
                size < usize::MAX,
                index <= size + 1,
                nodes@ == fresh_ring(size as nat).take(index as int),
            decreases size + 1 - index,
        {
            let previous: usize = if index == 0 { size } else { index - 1 };
            let next: usize = if index == size { 0 } else { index + 1 };
            nodes.push(ItemNode { previous, next });
            assert(nodes@ =~= fresh_ring(size as nat).take(index as int + 1));
            index = index + 1;
        }
        assert(nodes@ =~= fresh_ring(size as nat));
        Items { nodes }
    }

    /// A cursor over every live item: it starts at the sentinel and stops at
    /// the sentinel's predecessor, so it takes one step per live item.
    pub fn items(&self) -> (r: Item)
        requires
            self.wf(),
        ensures
            r.index() == 0,
            r.end() == self@[0].previous,
            r.previous() == self@[0].previous,
            r.successor() == self@[0].next,
    {
        let head = self.nodes[0];
        Item { current: 0, end: head.previous, previous: head.previous, next: head.next }
    }

    /// A cursor anchored at item `index`, which records the item's current
    /// neighbours.
    pub fn item(&self, index: usize) -> (r: Item)
        requires
            self.wf(),
            1 <= index < self@.len(),
        ensures
            r.index() == index,
            r.end() == self@[index as int].previous,
            r.previous() == self@[index as int].previous,
            r.successor() == self@[index as int].next,
    {
        let node = self.nodes[index];
        Item { current: index, end: node.previous, previous: node.previous, next: node.next }
    }

    /// Number of nodes, sentinel included.
    pub fn len(&self) -> (r: usize)
        ensures
            r == self@.len(),
    {
        self.nodes.len()
    }

    /// The node at `index`.
    pub fn node(&self, index: usize) -> (r: ItemNode)
        requires
            index < self@.len(),
        ensures
            r == self@[index as int],
    {
        self.nodes[index]
    }

    /// All nodes, sentinel first.
    pub fn nodes(&self) -> (r: &[ItemNode])
        ensures
            r@ == self@,
    {
        self.nodes.as_slice()
    }
}

/// A cursor on the ring: the node it stands on, the node where a walk
/// stops, and the neighbours the node had when the cursor was placed.
///
/// Removal leaves the node's own links untouched, so reinsertion puts it
/// back exactly where it was, provided that removals and reinsertions nest
/// like a stack: the last item removed is the first reinserted. Reinserting
/// in another order may leave the ring inconsistent.
#[derive(Debug, Clone, Copy, PartialEq, Eq)]
pub struct Item {
    current: usize,
    end: usize,
    previous: usize,
    next: usize,
}

impl Item {
    pub closed spec fn spec_index(&self) -> usize {
        self.current
    }

    /// The index of the node the cursor stands on.
    #[verifier::when_used_as_spec(spec_index)]
    pub fn index(&self) -> (r: usize)
        ensures
            r == self.spec_index(),
    {
        self.current
    }

    pub closed spec fn spec_end(&self) -> usize {
        self.end
    }

    /// The index at which a walk stops.
    #[verifier::when_used_as_spec(spec_end)]
    pub fn end(&self) -> (r: usize)
        ensures
            r == self.spec_end(),
    {
        self.end
    }

    pub closed spec fn spec_previous(&self) -> usize {
        self.previous
    }

    /// The predecessor recorded when the cursor was placed.
    #[verifier::when_used_as_spec(spec_previous)]
    pub fn previous(&self) -> (r: usize)
        ensures
            r == self.spec_previous(),
    {
        self.previous
    }

    pub closed spec fn spec_successor(&self) -> usize {
        self.next
    }

    /// The successor recorded when the cursor was placed.
    #[verifier::when_used_as_spec(spec_successor)]
    pub fn successor(&self) -> (r: usize)
        ensures
            r == self.spec_successor(),
    {
        self.next
    }


    /// Splices the cursor's node out of the ring: its recorded neighbours are
    /// linked to each other, and the node itself keeps its links.
    pub fn remove(&self, list: &mut Items)
        requires
            old(list).wf(),
            self.previous() < old(list)@.len(),
            self.successor() < old(list)@.len(),
        ensures
            final(list).wf(),
            final(list)@ == unlinked(old(list)@, self.previous() as int, self.successor() as int),
    {
        let ghost s0 = list@;
        let mut before = list.nodes[self.previous];
        before.next = self.next;
        list.nodes.set(self.previous, before);
        let mut after = list.nodes[self.next];
        after.previous = self.previous;
        list.nodes.set(self.next, after);
        assert forall|i: int| 0 <= i < list@.len() implies (#[trigger] list@[i]).previous
            < list@.len() && list@[i].next < list@.len() by {
            assert(s0[i].previous < s0.len());
        }
    }

    /// Splices the cursor's node back between the neighbours it recorded.
    pub fn reinsert(&self, list: &mut Items)
        requires
            old(list).wf(),
            self.index() < old(list)@.len(),
            self.previous() < old(list)@.len(),
            self.successor() < old(list)@.len(),
        ensures
            final(list).wf(),
            final(list)@ == relinked(
                old(list)@,
                self.index() as int,
                self.previous() as int,
                self.successor() as int,
            ),
    {
        let ghost s0 = list@;
        let mut before = list.nodes[self.previous];
        before.next = self.current;
        list.nodes.set(self.previous, before);
        let mut after = list.nodes[self.next];
        after.previous = self.current;
        list.nodes.set(self.next, after);
        assert forall|i: int| 0 <= i < list@.len() implies (#[trigger] list@[i]).previous
            < list@.len() && list@[i].next < list@.len() by {
            assert(s0[i].previous < s0.len());
        }
    }

    /// Takes one step forward, unless the cursor already stands on its end.
    pub fn next(&mut self, list: &Items) -> (r: Option<()>)
        requires
            list.wf(),
            old(self).index() < list@.len(),
        ensures
            final(self).end() == old(self).end(),
            final(self).index() < list@.len(),
            old(self).index() == old(self).end() ==> r is None && *final(self) == *old(self),
            old(self).index() != old(self).end() ==> {
                &&& r is Some
                &&& final(self).index() == list@[old(self).index() as int].next
                &&& final(self).previous() == list@[final(self).index() as int].previous
                &&& final(self).successor() == list@[final(self).index() as int].next
            },
    {
        if self.current == self.end {
            None
        } else {
            let here = list.nodes[self.current];
            assert(here == list@[self.current as int]);
            let node = list.nodes[here.next];
            self.current = here.next;
            self.previous = node.previous;
            self.next = node.next;
            Some(())
        }
    }

    /// The number of steps from the cursor's node to its end. Where the end
    /// is never met (a ring left inconsistent), the walk gives up after as
    /// many steps as the ring has nodes and returns that number.
    pub fn count(self, list: &Items) -> (r: usize)
        requires
            list.wf(),
            self.index() < list@.len(),
        ensures
            r <= list@.len(),
            r < list@.len() ==> first_reached(list@, self.index() as int, self.end() as int, r as nat),
            r == list@.len() ==> forall|j: nat|
                j < r ==> hop(list@, self.index() as int, j) != self.end(),
            forall|k: nat|
                k < list@.len() && first_reached(list@, self.index() as int, self.end() as int, k)
                    ==> r == k,
    {
        let ghost start = self.index() as int;
        let mut cursor = self;
        let mut steps: usize = 0;
        let len = list.nodes.len();
        while steps < len && cursor.current != cursor.end
            invariant
                list.wf(),
                len == list@.len(),
                steps <= len,
                cursor.end() == self.end(),
                cursor.index() < len,
                cursor.index() == hop(list@, start, steps as nat),
                forall|j: nat| j < steps ==> hop(list@, start, j) != self.end(),
            decreases len - steps,
        {
            let _ = cursor.next(list);
            steps = steps + 1;
        }
        steps
    }
}

} // verus!

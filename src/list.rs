//! A reversible circular doubly-linked list over any storage of links.
//!
//! Nodes are named by their index in the storage that holds them; the list
//! owns no nodes and only rewrites neighbour links. Removal leaves the removed
//! node's own links in place, so it can be reinserted exactly where it was,
//! provided removals and reinsertions nest like a stack.
use vstd::prelude::*;

verus! {

/// The neighbour slots of one node. Both are empty until the node is
/// connected to itself or inserted into a list.
#[derive(Debug, Clone, Copy, PartialEq, Eq, Structural)]
pub struct Link {
    pub next: Option<usize>,
    pub previous: Option<usize>,
}

impl Link {
    /// A link with no neighbours yet.
    pub fn uninitialized() -> (r: Link)
        ensures
            r == vacant(),
    {
        Link { next: None, previous: None }
    }
}

/// A link with both slots empty.
pub open spec fn vacant() -> Link {
    Link { next: None, previous: None }
}

/// A link whose two slots hold `next` and `previous`.
pub open spec fn linked(next: int, previous: int) -> Link {
    Link { next: Some(next as usize), previous: Some(previous as usize) }
}

/// `s` with the `next` slot of `node` set to `to`.
pub open spec fn with_next(s: Seq<Link>, node: int, to: int) -> Seq<Link> {
    s.update(node, Link { next: Some(to as usize), ..s[node] })
}

/// `s` with the `previous` slot of `node` set to `to`.
pub open spec fn with_previous(s: Seq<Link>, node: int, to: int) -> Seq<Link> {
    s.update(node, Link { previous: Some(to as usize), ..s[node] })
}

/// `s` after `other` is inserted just before `node`.
pub open spec fn prepended(s: Seq<Link>, node: int, other: int) -> Seq<Link> {
    let p = s[node].previous->0 as int;
    let s1 = s.update(other, linked(node, p));
    with_previous(with_next(s1, p, other), node, other)
}

/// `s` after `node` is spliced out: its neighbours point at each other,
/// and its own slots are left as they were.
pub open spec fn spliced_out(s: Seq<Link>, node: int) -> Seq<Link> {
    let p = s[node].previous->0 as int;
    let n = s[node].next->0 as int;
    with_next(with_previous(s, n, p), p, n)
}

/// `s` after `node` is spliced back between the neighbours its own slots
/// still name.
pub open spec fn spliced_in(s: Seq<Link>, node: int) -> Seq<Link> {
    let n = s[node].next->0 as int;
    let s1 = with_previous(s, n, node);
    with_next(s1, s1[node].previous->0 as int, node)
}

/// Both slots of `node` are filled, and with indices inside `s`.
pub open spec fn neighbours_in(s: Seq<Link>, node: int) -> bool {
    &&& 0 <= node < s.len()
    &&& s[node].next is Some
    &&& s[node].previous is Some
    &&& s[node].next->0 < s.len()
    &&& s[node].previous->0 < s.len()
}

/// Storage of list nodes, each with a link. Implementors give access to the
/// links and hook insertion and removal, e.g. to keep a count; what the
/// hooks keep is stated as `tally`, which only `grow` and `shrink` change.
///
/// Circularity holds when every member reaches every other by `next` and
/// back by `previous`; a node linked to itself is an empty list. Removals and
/// reinsertions must nest like a stack: reinserting in any other order may
/// leave wrong neighbours behind.
pub trait LinkedList: Sized {
    /// The link of every node, by index.
    spec fn links(&self) -> Seq<Link>;

    /// What the hooks keep beside the links, as a number (e.g. a count of
    /// live nodes). Storage whose hooks keep nothing states a constant.
    spec fn tally(&self) -> int;

    /// The tally after one `grow` from tally `t`.
    spec fn grown(t: int) -> int;

    /// The tally after one `shrink` from tally `t`.
    spec fn shrunk(t: int) -> int;

    /// The link of `node`.
    fn link(&self, node: usize) -> (r: Link)
        requires
            node < self.links().len(),
        ensures
            r == self.links()[node as int],
    ;

    /// Replaces the link of `node`.
    fn set_link(&mut self, node: usize, link: Link)
        requires
            node < old(self).links().len(),
        ensures
            final(self).links() == old(self).links().update(node as int, link),
            final(self).tally() == old(self).tally(),
    ;

    /// Runs once on every `prepend` (on the receiving node) and every
    /// `reinsert`. Storage that keeps nothing beside the links gives an
    /// empty body and makes `grown` the identity.
    fn grow(&mut self, node: usize)
        ensures
            final(self).links() == old(self).links(),
            final(self).tally() == Self::grown(old(self).tally()),
    ;

    /// Runs once on every `remove`. Storage that keeps nothing beside the
    /// links gives an empty body and makes `shrunk` the identity.
    fn shrink(&mut self, node: usize)
        ensures
            final(self).links() == old(self).links(),
            final(self).tally() == Self::shrunk(old(self).tally()),
    ;

    /// Makes `node` a list of its own, linked to itself both ways.
    fn connect_self(&mut self, node: usize)
        requires
            node < old(self).links().len(),
        ensures
            final(self).links() == old(self).links().update(node as int, linked(node as int, node as int)),
            final(self).tally() == old(self).tally(),
    {
        self.set_next(node, node);
        self.set_previous(node, node);
        assert(self.links() =~= old(self).links().update(node as int, linked(node as int, node as int)));
    }

    /// Inserts `other` just before `node`, so that `other` becomes the
    /// predecessor of `node`. Runs `grow` on `node`.
    fn prepend(&mut self, node: usize, other: usize)
        requires
            neighbours_in(old(self).links(), node as int),
            other < old(self).links().len(),
        ensures
            final(self).links() == prepended(old(self).links(), node as int, other as int),
            final(self).tally() == Self::grown(old(self).tally()),
    {
        self.grow(node);
        let previous = self.previous(node);
        self.set_previous(other, previous);
        self.set_next(other, node);
        let previous = self.previous(node);
        self.set_next(previous, other);
        self.set_previous(node, other);
        assert(self.links() =~= prepended(old(self).links(), node as int, other as int));
    }

    /// Splices `node` out of its list, leaving its own link untouched so that
    /// it still names where it was. Runs `shrink` on `node`.
    fn remove(&mut self, node: usize)
        requires
            neighbours_in(old(self).links(), node as int),
        ensures
            final(self).links() == spliced_out(old(self).links(), node as int),
            final(self).tally() == Self::shrunk(old(self).tally()),
    {
        self.shrink(node);
        let next = self.next(node);
        let previous = self.previous(node);
        self.set_previous(next, previous);
        let previous = self.previous(node);
        let next = self.next(node);
        self.set_next(previous, next);
    }

    /// Splices `node` back between the neighbours its link still names.
    /// Runs `grow` on `node`.
    fn reinsert(&mut self, node: usize)
        requires
            neighbours_in(old(self).links(), node as int),
        ensures
            final(self).links() == spliced_in(old(self).links(), node as int),
            final(self).tally() == Self::grown(old(self).tally()),
    {
        self.grow(node);
        let next = self.next(node);
        self.set_previous(next, node);
        let previous = self.previous(node);
        self.set_next(previous, node);
    }

    /// The successor of `node`, which must be connected.
    fn next(&self, node: usize) -> (r: usize)
        requires
            node < self.links().len(),
            self.links()[node as int].next is Some,
        ensures
            self.links()[node as int].next == Some(r),
    {
        self.link(node).next.unwrap()
    }

    /// The predecessor of `node`, which must be connected.
    fn previous(&self, node: usize) -> (r: usize)
        requires
            node < self.links().len(),
            self.links()[node as int].previous is Some,
        ensures
            self.links()[node as int].previous == Some(r),
    {
        self.link(node).previous.unwrap()
    }

    /// Points the `next` slot of `node` at `to`.
    fn set_next(&mut self, node: usize, to: usize)
        requires
            node < old(self).links().len(),
        ensures
            final(self).links() == with_next(old(self).links(), node as int, to as int),
            final(self).tally() == old(self).tally(),
    {
        let mut link = self.link(node);
        link.next = Some(to);
        self.set_link(node, link);
    }

    /// Points the `previous` slot of `node` at `to`.
    fn set_previous(&mut self, node: usize, to: usize)
        requires
            node < old(self).links().len(),
        ensures
            final(self).links() == with_previous(old(self).links(), node as int, to as int),
            final(self).tally() == old(self).tally(),
    {
        let mut link = self.link(node);
        link.previous = Some(to);
        self.set_link(node, link);
    }

    /// Whether `node` is linked only to itself, i.e. heads an empty list.
    fn is_empty(&self, node: usize) -> (r: bool)
        requires
            node < self.links().len(),
            self.links()[node as int].next is Some,
            self.links()[node as int].previous is Some,
        ensures
            r == (self.links()[node as int].next == Some(node) && self.links()[node as int].previous
                == Some(node)),
    {
        self.next(node) == node && self.previous(node) == node
    }

    /// Whether both slots of `node` are filled.
    fn is_valid(&self, node: usize) -> (r: bool)
        requires
            node < self.links().len(),
        ensures
            r == (self.links()[node as int].next is Some && self.links()[node as int].previous is Some),
    {
        let link = self.link(node);
        link.next.is_some() && link.previous.is_some()
    }
}

/// Splicing a node out and straight back in restores every link, provided
/// its neighbours pointed back at it.
pub proof fn lemma_splice_round_trip(s: Seq<Link>, node: int)
    requires
        neighbours_in(s, node),
        s[s[node].previous->0 as int].next == Some(node as usize),
        s[s[node].next->0 as int].previous == Some(node as usize),
    ensures
        spliced_in(spliced_out(s, node), node) == s,
{
    assert(spliced_in(spliced_out(s, node), node) =~= s);
}

/// `order` lists the members of one list of `s` in `next` order, starting
/// at its head: each member's `next` is the following one, each one's
/// `previous` the one before, and the last one closes the cycle.
pub open spec fn is_cycle(s: Seq<Link>, order: Seq<int>) -> bool {
    &&& order.len() >= 1
    &&& order.no_duplicates()
    &&& forall|i: int|
        0 <= i < order.len() ==> 0 <= #[trigger] order[i] < s.len() && order[i] <= usize::MAX
    &&& forall|i: int|
        0 <= i < order.len() - 1 ==> s[#[trigger] order[i]].next == Some(order[i + 1] as usize)
            && s[order[i + 1]].previous == Some(order[i] as usize)
    &&& s[order.last()].next == Some(order[0] as usize)
    &&& s[order[0]].previous == Some(order.last() as usize)
}

/// `s` after removing the nodes of `ks`, first to last.
pub open spec fn splice_out_all(s: Seq<Link>, ks: Seq<int>) -> Seq<Link>
    decreases ks.len(),
{
    if ks.len() == 0 {
        s
    } else {
        splice_out_all(spliced_out(s, ks[0]), ks.drop_first())
    }
}

/// `s` after reinserting the nodes of `ks`, last to first.
pub open spec fn splice_in_reversed(s: Seq<Link>, ks: Seq<int>) -> Seq<Link>
    decreases ks.len(),
{
    if ks.len() == 0 {
        s
    } else {
        spliced_in(splice_in_reversed(s, ks.drop_first()), ks[0])
    }
}

proof fn lemma_cycle_remove_link(s: Seq<Link>, order: Seq<int>, pos: int, i: int)
    requires
        is_cycle(s, order),
        1 <= pos < order.len(),
        0 <= i < order.len() - 2,
    ensures
        ({
            let t = spliced_out(s, order[pos]);
            let o = order.remove(pos);
            t[o[i]].next == Some(o[i + 1] as usize) && t[o[i + 1]].previous == Some(o[i] as usize)
        }),
{
    let k = order[pos];
    let n = order.len();
    let p = order[pos - 1];
    let q = if pos + 1 < n { order[pos + 1] } else { order[0] };
    assert(s[k].previous == Some(p as usize));
    assert(s[k].next == Some(q as usize));
    let o = order.remove(pos);
    if i < pos - 1 {
        assert(o[i] == order[i] && o[i + 1] == order[i + 1]);
        assert(order[i] != p);
        assert(s[order[i]].next == Some(order[i + 1] as usize));
        assert(order[i + 1] != q);
    } else if i == pos - 1 {
        assert(o[i] == p && o[i + 1] == q);
    } else {
        assert(o[i] == order[i + 1] && o[i + 1] == order[i + 2]);
        assert(s[order[i + 1]].next == Some(order[i + 2] as usize));
        assert(order[i + 1] != p && q == order[pos + 1]);
        assert(order[i + 2] != p && order[i + 2] != q);
    }
}

proof fn lemma_order_remove(order: Seq<int>, pos: int)
    requires
        order.no_duplicates(),
        0 <= pos < order.len(),
    ensures
        order.remove(pos).no_duplicates(),
        forall|x: int|
            order.contains(x) && x != order[pos] ==> #[trigger] order.remove(pos).contains(x),
        forall|i: int|
            0 <= i < order.remove(pos).len() ==> #[trigger] order.remove(pos)[i] == order[if i
                < pos { i } else { i + 1 }],
{
    let o = order.remove(pos);
    assert forall|i: int, j: int| 0 <= i < o.len() && 0 <= j < o.len() && i != j implies o[i]
        != o[j] by {
        let ii = if i < pos { i } else { i + 1 };
        let jj = if j < pos { j } else { j + 1 };
        assert(o[i] == order[ii] && o[j] == order[jj]);
    }
    assert forall|x: int| order.contains(x) && x != order[pos] implies #[trigger] o.contains(x) by {
        let i = choose|i: int| 0 <= i < order.len() && order[i] == x;
        if i < pos {
            assert(o[i] == x);
        } else {
            assert(o[i - 1] == x);
        }
    }
}

#[verifier::rlimit(80)]
proof fn lemma_cycle_remove_one(s: Seq<Link>, order: Seq<int>, pos: int)
    requires
        is_cycle(s, order),
        1 <= pos < order.len(),
    ensures
        is_cycle(spliced_out(s, order[pos]), order.remove(pos)),
        spliced_in(spliced_out(s, order[pos]), order[pos]) == s,
        forall|x: int|
            order.contains(x) && x != order[pos] ==> #[trigger] order.remove(pos).contains(x),
{
    let k = order[pos];
    let n = order.len();
    let p = order[pos - 1];
    let q = if pos + 1 < n { order[pos + 1] } else { order[0] };
    assert(s[p].next == Some(k as usize));
    assert(s[k].previous == Some(p as usize));
    assert(s[k].next == Some(q as usize)) by {
        if pos + 1 == n {
            assert(order.last() == k);
        }
    }
    assert(s[q].previous == Some(k as usize)) by {
        if pos + 1 < n {
            assert(s[order[pos]].next == Some(order[pos + 1] as usize));
        }
    }
    lemma_splice_round_trip(s, k);
    let t = spliced_out(s, k);
    let o = order.remove(pos);
    assert(p != k && q != k);
    lemma_order_remove(order, pos);
    assert forall|i: int| 0 <= i < o.len() - 1 implies t[#[trigger] o[i]].next == Some(
        o[i + 1] as usize,
    ) && t[o[i + 1]].previous == Some(o[i] as usize) by {
        lemma_cycle_remove_link(s, order, pos, i);
    }
    assert(is_cycle(t, o));
}

/// Removing distinct members other than the head of one list one after
/// another, then reinserting them in the exact reverse order, restores
/// every link. Reinsertion in any other order is outside this law and may
/// leave wrong neighbours behind.
pub proof fn lemma_stack_round_trip(s: Seq<Link>, order: Seq<int>, ks: Seq<int>)
    requires
        is_cycle(s, order),
        ks.no_duplicates(),
        forall|i: int|
            0 <= i < ks.len() ==> #[trigger] ks[i] != order[0] && order.contains(ks[i]),
    ensures
        splice_in_reversed(splice_out_all(s, ks), ks) == s,
    decreases ks.len(),
{
    if ks.len() > 0 {
        let k = ks[0];
        assert(k != order[0] && order.contains(k));
        let pos = choose|i: int| 0 <= i < order.len() && order[i] == k;
        lemma_cycle_remove_one(s, order, pos);
        let tail = ks.drop_first();
        let order1 = order.remove(pos);
        assert(order1[0] == order[0]);
        assert forall|i: int| 0 <= i < tail.len() implies #[trigger] tail[i] != order1[0]
            && order1.contains(tail[i]) by {
            assert(tail[i] == ks[i + 1]);
            assert(ks[i + 1] != ks[0]);
        }
        assert(tail.no_duplicates()) by {
            assert forall|i: int, j: int|
                0 <= i < tail.len() && 0 <= j < tail.len() && i != j implies tail[i]
                != tail[j] by {
                assert(tail[i] == ks[i + 1] && tail[j] == ks[j + 1]);
            }
        }
        lemma_stack_round_trip(spliced_out(s, k), order1, tail);
    }
}

/// A node whose link was never connected is not valid, and none of the
/// operations that read its neighbours accepts it.
pub proof fn lemma_unconnected_is_invalid(s: Seq<Link>, node: int)
    requires
        0 <= node < s.len(),
        s[node] == vacant(),
    ensures
        !(s[node].next is Some && s[node].previous is Some),
        !neighbours_in(s, node),
{
}

/// Plain storage of list nodes, with no hooks.
#[derive(Debug)]
pub struct List {
    links: Vec<Link>,
}

impl List {
    /// `size` nodes, none of them connected yet.
    pub fn new(size: usize) -> (r: List)
        ensures
            r.links().len() == size,
            forall|i: int| 0 <= i < size ==> #[trigger] r.links()[i] == vacant(),
    {
        let mut links: Vec<Link> = Vec::new();
        let mut index: usize = 0;
        while index < size
            invariant
                index <= size,
                links@.len() == index,
                forall|i: int| 0 <= i < index ==> #[trigger] links@[i] == vacant(),
            decreases size - index,
        {
            links.push(Link::uninitialized());
            index = index + 1;
        }
        List { links }
    }
}

impl LinkedList for List {
    closed spec fn links(&self) -> Seq<Link> {
        self.links@
    }

    open spec fn tally(&self) -> int {
        0
    }

    open spec fn grown(t: int) -> int {
        t
    }

    open spec fn shrunk(t: int) -> int {
        t
    }

    fn grow(&mut self, node: usize) {
    }

    fn shrink(&mut self, node: usize) {
    }

    fn link(&self, node: usize) -> (r: Link) {
        self.links[node]
    }

    fn set_link(&mut self, node: usize, link: Link) {
        self.links.set(node, link);
    }
}

/// Storage of list nodes that counts insertions minus removals: every
/// `prepend` and `reinsert` adds one, every `remove` takes one away. The
/// count stops at zero and at `usize::MAX` rather than wrap.
#[derive(Debug)]
pub struct SizedList {
    links: Vec<Link>,
    size: usize,
}

impl SizedList {
    pub closed spec fn spec_size(&self) -> usize {
        self.size
    }

    /// `nodes` nodes, none of them connected yet, and a count of zero.
    pub fn new(nodes: usize) -> (r: SizedList)
        ensures
            r.links().len() == nodes,
            forall|i: int| 0 <= i < nodes ==> #[trigger] r.links()[i] == vacant(),
            r.size() == 0,
    {
        let mut links: Vec<Link> = Vec::new();
        let mut index: usize = 0;
        while index < nodes
            invariant
                index <= nodes,
                links@.len() == index,
                forall|i: int| 0 <= i < index ==> #[trigger] links@[i] == vacant(),
            decreases nodes - index,
        {
            links.push(Link::uninitialized());
            index = index + 1;
        }
        SizedList { links, size: 0 }
    }

    /// The current count.
    #[verifier::when_used_as_spec(spec_size)]
    pub fn size(&self) -> (r: usize)
        ensures
            r == self.spec_size(),
    {
        self.size
    }
}

impl LinkedList for SizedList {
    closed spec fn links(&self) -> Seq<Link> {
        self.links@
    }

    open spec fn tally(&self) -> int {
        self.size() as int
    }

    open spec fn grown(t: int) -> int {
        if t < usize::MAX {
            t + 1
        } else {
            t
        }
    }

    open spec fn shrunk(t: int) -> int {
        if t > 0 {
            t - 1
        } else {
            t
        }
    }

    fn link(&self, node: usize) -> (r: Link) {
        self.links[node]
    }

    fn set_link(&mut self, node: usize, link: Link) {
        self.links.set(node, link);
    }

    fn grow(&mut self, node: usize) {
        if self.size < usize::MAX {
            self.size = self.size + 1;
        }
    }

    fn shrink(&mut self, node: usize) {
        if self.size > 0 {
            self.size = self.size - 1;
        }
    }
}

} // verus!

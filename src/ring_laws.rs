//! What holds of the item ring across several operations: counting,
//! removal followed by reinsertion, and stack-ordered round trips.
use vstd::prelude::*;
use crate::items::{ItemNode, first_reached, fresh_ring, hop, in_bounds, relinked, unlinked};

verus! {

/// `order` lists the live nodes of `s` in ring order, starting at the
/// sentinel: each one's `next` is the following one, each one's `previous`
/// the one before, and the last one closes the ring back to the sentinel.
pub open spec fn is_ring(s: Seq<ItemNode>, order: Seq<int>) -> bool {
    &&& order.len() >= 1
    &&& order[0] == 0
    &&& order.no_duplicates()
    &&& forall|i: int| 0 <= i < order.len() ==> 0 <= #[trigger] order[i] < s.len()
    &&& forall|i: int|
        0 <= i < order.len() - 1 ==> s[#[trigger] order[i]].next == order[i + 1] && s[order[i
            + 1]].previous == order[i]
    &&& s[order.last()].next == 0
    &&& s[0].previous == order.last()
}

/// `s` after the cursor `item(k)` removes item `k`.
pub open spec fn without(s: Seq<ItemNode>, k: int) -> Seq<ItemNode> {
    unlinked(s, s[k].previous as int, s[k].next as int)
}

/// `s` after the cursor `item(k)` reinserts item `k`.
pub open spec fn with(s: Seq<ItemNode>, k: int) -> Seq<ItemNode> {
    relinked(s, k, s[k].previous as int, s[k].next as int)
}

/// `s` after removing the items of `ks`, first to last.
pub open spec fn remove_all(s: Seq<ItemNode>, ks: Seq<int>) -> Seq<ItemNode>
    decreases ks.len(),
{
    if ks.len() == 0 {
        s
    } else {
        remove_all(without(s, ks[0]), ks.drop_first())
    }
}

/// `s` after reinserting the items of `ks`, last to first.
pub open spec fn reinsert_reversed(s: Seq<ItemNode>, ks: Seq<int>) -> Seq<ItemNode>
    decreases ks.len(),
{
    if ks.len() == 0 {
        s
    } else {
        with(reinsert_reversed(s, ks.drop_first()), ks[0])
    }
}

/// The nodes `0, 1, ..., n`.
pub open spec fn index_order(n: nat) -> Seq<int> {
    Seq::new(n + 1, |i: int| i)
}

proof fn lemma_hop_follows_order(s: Seq<ItemNode>, order: Seq<int>, j: nat)
    requires
        is_ring(s, order),
        j < order.len(),
    ensures
        hop(s, 0, j) == order[j as int],
    decreases j,
{
    if j > 0 {
        lemma_hop_follows_order(s, order, (j - 1) as nat);
        assert(s[order[j - 1]].next == order[j as int]);
    }
}

/// Walking a consistent ring from the sentinel, its predecessor is first
/// met after one step per live item.
pub proof fn lemma_ring_count(s: Seq<ItemNode>, order: Seq<int>)
    requires
        is_ring(s, order),
    ensures
        first_reached(s, 0, s[0].previous as int, (order.len() - 1) as nat),
{
    let last = (order.len() - 1) as nat;
    lemma_hop_follows_order(s, order, last);
    assert forall|j: nat| j < last implies hop(s, 0, j) != s[0].previous by {
        lemma_hop_follows_order(s, order, j);
        assert(order[j as int] != order[last as int]);
    }
}

proof fn lemma_remove_keeps_distinct(order: Seq<int>, pos: int)
    requires
        order.no_duplicates(),
        0 <= pos < order.len(),
    ensures
        order.remove(pos).no_duplicates(),
        forall|x: int| order.contains(x) && x != order[pos] ==> order.remove(pos).contains(x),
{
    let o = order.remove(pos);
    assert forall|i: int, j: int| 0 <= i < o.len() && 0 <= j < o.len() && i != j implies o[i]
        != o[j] by {
        let ii = if i < pos { i } else { i + 1 };
        let jj = if j < pos { j } else { j + 1 };
        assert(o[i] == order[ii] && o[j] == order[jj]);
    }
    assert forall|x: int| order.contains(x) && x != order[pos] implies o.contains(x) by {
        let i = choose|i: int| 0 <= i < order.len() && order[i] == x;
        if i < pos {
            assert(o[i] == x);
        } else {
            assert(o[i - 1] == x);
        }
    }
}

proof fn lemma_remove_one_link(s: Seq<ItemNode>, order: Seq<int>, pos: int, i: int)
    requires
        is_ring(s, order),
        1 <= pos < order.len(),
        0 <= i < order.len() - 2,
    ensures
        ({
            let t = without(s, order[pos]);
            let o = order.remove(pos);
            t[o[i]].next == o[i + 1] && t[o[i + 1]].previous == o[i]
        }),
{
    let k = order[pos];
    let n = order.len();
    let p = order[pos - 1];
    let q = if pos + 1 < n { order[pos + 1] } else { 0 };
    assert(s[k].previous == p);
    assert(s[k].next == q);
    let o = order.remove(pos);
    if i < pos - 1 {
        assert(o[i] == order[i] && o[i + 1] == order[i + 1]);
        assert(order[i] != p);
        assert(s[order[i]].next == order[i + 1]);
        assert(order[i + 1] != q || q == 0);
    } else if i == pos - 1 {
        assert(o[i] == p && o[i + 1] == q);
    } else {
        assert(o[i] == order[i + 1] && o[i + 1] == order[i + 2]);
        assert(s[order[i + 1]].next == order[i + 2]);
        assert(order[i + 1] != p && q == order[pos + 1]);
        assert(order[i + 2] != p && order[i + 2] != q);
    }
}

/// Removing the live item at position `pos` of a consistent ring leaves a
/// consistent ring without it, and reinserting it right away restores
/// every link.
#[verifier::rlimit(50)]
pub proof fn lemma_remove_one(s: Seq<ItemNode>, order: Seq<int>, pos: int)
    requires
        is_ring(s, order),
        1 <= pos < order.len(),
    ensures
        is_ring(without(s, order[pos]), order.remove(pos)),
        with(without(s, order[pos]), order[pos]) == s,
{
    let k = order[pos];
    let n = order.len();
    let p = order[pos - 1];
    let q = if pos + 1 < n { order[pos + 1] } else { 0 };
    assert(s[p].next == k);
    assert(s[k].previous == p);
    assert(s[k].next == q);
    assert(s[q].previous == k) by {
        if pos + 1 < n {
            assert(s[order[pos]].next == order[pos + 1]);
        }
    }
    let t = without(s, k);
    let o = order.remove(pos);
    assert(p != k && q != k);
    assert(t[k] == s[k]);
    lemma_remove_keeps_distinct(order, pos);
    assert forall|i: int| 0 <= i < o.len() - 1 implies t[#[trigger] o[i]].next == o[i + 1]
        && t[o[i + 1]].previous == o[i] by {
        lemma_remove_one_link(s, order, pos, i);
    }
    assert forall|i: int| 0 <= i < o.len() implies 0 <= #[trigger] o[i] < t.len() by {
        if i < pos {
            assert(o[i] == order[i]);
        } else {
            assert(o[i] == order[i + 1]);
        }
    }
    assert(is_ring(t, o));
    assert(with(t, k) =~= s);
}

proof fn lemma_insert_one_link(s: Seq<ItemNode>, order: Seq<int>, pos: int, k: int, i: int)
    requires
        is_ring(s, order),
        1 <= pos <= order.len(),
        0 <= k < s.len(),
        k <= usize::MAX,
        !order.contains(k),
        s[k].previous == order[pos - 1],
        s[k].next == (if pos < order.len() { order[pos] } else { 0 }),
        0 <= i < order.len(),
    ensures
        ({
            let t = with(s, k);
            let o = order.insert(pos, k);
            t[o[i]].next == o[i + 1] && t[o[i + 1]].previous == o[i]
        }),
{
    let n = order.len();
    let p = order[pos - 1];
    let q = if pos < n { order[pos] } else { 0 };
    let o = order.insert(pos, k);
    let t = with(s, k);
    assert(k != p && k != q);
    assert(t[k] == s[k]);
    assert(t[p].next == k);
    assert(t[q].previous == k);
    assert(forall|x: int| 0 <= x < s.len() && x != p ==> #[trigger] t[x].next == s[x].next);
    assert(forall|x: int| 0 <= x < s.len() && x != q ==> #[trigger] t[x].previous == s[x].previous);
    if i < pos - 1 {
        assert(o[i] == order[i] && o[i + 1] == order[i + 1]);
        assert(order[i] != p);
        assert(s[order[i]].next == order[i + 1]);
        assert(order[i + 1] != q);
    } else if i == pos - 1 {
        assert(o[i] == p && o[i + 1] == k);
    } else if i == pos {
        assert(o[i] == k && o[i + 1] == q);
    } else {
        assert(o[i] == order[i - 1] && o[i + 1] == order[i]);
        assert(s[order[i - 1]].next == order[i]);
        assert(order[i - 1] != p);
        assert(order[i] != q && order[i] != 0);
    }
}

/// Reinserting item `k` whose recorded neighbours are adjacent live nodes,
/// at positions `pos - 1` and `pos` of a consistent ring (the sentinel when
/// `pos` is past the end), gives a consistent ring with `k` between them.
#[verifier::rlimit(50)]
pub proof fn lemma_reinsert_one(s: Seq<ItemNode>, order: Seq<int>, pos: int, k: int)
    requires
        is_ring(s, order),
        1 <= pos <= order.len(),
        0 <= k < s.len(),
        k <= usize::MAX,
        !order.contains(k),
        s[k].previous == order[pos - 1],
        s[k].next == (if pos < order.len() { order[pos] } else { 0 }),
    ensures
        is_ring(with(s, k), order.insert(pos, k)),
{
    let n = order.len();
    let p = order[pos - 1];
    let q = if pos < n { order[pos] } else { 0 };
    let t = with(s, k);
    let o = order.insert(pos, k);
    assert(k != p && k != q);
    assert forall|i: int| 0 <= i < o.len() - 1 implies t[#[trigger] o[i]].next == o[i + 1]
        && t[o[i + 1]].previous == o[i] by {
        lemma_insert_one_link(s, order, pos, k, i);
    }
    assert forall|i: int| 0 <= i < o.len() implies 0 <= #[trigger] o[i] < t.len() by {
        if i < pos {
            assert(o[i] == order[i]);
        } else if i > pos {
            assert(o[i] == order[i - 1]);
        }
    }
    assert(o.no_duplicates()) by {
        assert forall|i: int, j: int| 0 <= i < o.len() && 0 <= j < o.len() && i != j implies o[i]
            != o[j] by {
            if i != pos && j != pos {
                let ii = if i < pos { i } else { i - 1 };
                let jj = if j < pos { j } else { j - 1 };
                assert(o[i] == order[ii] && o[j] == order[jj]);
            } else if i == pos {
                let jj = if j < pos { j } else { j - 1 };
                assert(o[j] == order[jj]);
            } else {
                let ii = if i < pos { i } else { i - 1 };
                assert(o[i] == order[ii]);
            }
        }
    }
    if pos < n {
        assert(o.last() == order.last());
        assert(order.last() != p || pos == n);
        assert(order[n - 1] != q || n - 1 == pos);
    }
    assert(is_ring(t, o));
}

/// Removes the items of `ks` one after another and returns the live order
/// left behind.
proof fn lemma_remove_all(s: Seq<ItemNode>, order: Seq<int>, ks: Seq<int>) -> (rest: Seq<int>)
    requires
        is_ring(s, order),
        ks.no_duplicates(),
        forall|i: int| 0 <= i < ks.len() ==> #[trigger] ks[i] != 0 && order.contains(ks[i]),
    ensures
        is_ring(remove_all(s, ks), rest),
        rest.len() == order.len() - ks.len(),
        reinsert_reversed(remove_all(s, ks), ks) == s,
    decreases ks.len(),
{
    if ks.len() == 0 {
        order
    } else {
        let k = ks[0];
        assert(k != 0 && order.contains(k));
        let pos = choose|i: int| 0 <= i < order.len() && order[i] == k;
        assert(pos != 0);
        lemma_remove_one(s, order, pos);
        lemma_remove_keeps_distinct(order, pos);
        let tail = ks.drop_first();
        let order1 = order.remove(pos);
        assert forall|i: int| 0 <= i < tail.len() implies #[trigger] tail[i] != 0
            && order1.contains(tail[i]) by {
            assert(tail[i] == ks[i + 1]);
            assert(ks[i + 1] != ks[0]);
        }
        assert(tail.no_duplicates()) by {
            assert forall|i: int, j: int|
                0 <= i < tail.len() && 0 <= j < tail.len() && i != j implies tail[i]
                != tail[j] by {
                assert(tail[i] == ks[i + 1] && tail[j] == ks[j + 1]);
            }
        }
        lemma_remove_all(without(s, k), order1, tail)
    }
}

/// Removing distinct live items of a consistent ring one after another
/// leaves a ring that counts one item fewer per removal, and reinserting
/// them in the exact reverse order restores every link of the ring.
/// Reinsertion in any other order is outside this law and may leave the
/// ring inconsistent.
pub proof fn lemma_round_trip(s: Seq<ItemNode>, order: Seq<int>, ks: Seq<int>)
    requires
        is_ring(s, order),
        ks.no_duplicates(),
        forall|i: int| 0 <= i < ks.len() ==> #[trigger] ks[i] != 0 && order.contains(ks[i]),
    ensures
        ks.len() < order.len(),
        first_reached(
            remove_all(s, ks),
            0,
            remove_all(s, ks)[0].previous as int,
            (order.len() - 1 - ks.len()) as nat,
        ),
        reinsert_reversed(remove_all(s, ks), ks) == s,
{
    let rest = lemma_remove_all(s, order, ks);
    lemma_ring_count(remove_all(s, ks), rest);
}

/// A fresh ring lists its items in index order.
#[verifier::rlimit(50)]
pub proof fn lemma_fresh_is_ring(n: nat)
    requires
        n < usize::MAX,
    ensures
        is_ring(fresh_ring(n), index_order(n)),
        in_bounds(fresh_ring(n)),
{
    let s = fresh_ring(n);
    let o = index_order(n);
    assert forall|i: int| 0 <= i < o.len() - 1 implies s[#[trigger] o[i]].next == o[i + 1]
        && s[o[i + 1]].previous == o[i] by {}
    assert(o.no_duplicates());
}

/// Node `i` of a fresh ring of `n` items has predecessor `(i - 1) mod (n + 1)`
/// and successor `(i + 1) mod (n + 1)`.
pub proof fn lemma_fresh_ring_modular(n: nat)
    requires
        n < usize::MAX,
    ensures
        forall|i: int|
            0 <= i <= n ==> (#[trigger] fresh_ring(n)[i]).previous == (i - 1) % (n as int + 1)
                && fresh_ring(n)[i].next == (i + 1) % (n as int + 1),
{
    let m = n as int + 1;
    assert forall|i: int| 0 <= i <= n implies (#[trigger] fresh_ring(n)[i]).previous == (i - 1)
        % m && fresh_ring(n)[i].next == (i + 1) % m by {
        if i == 0 {
            vstd::arithmetic::div_mod::lemma_mod_add_multiples_vanish(-1, m);
            vstd::arithmetic::div_mod::lemma_small_mod(n, m as nat);
        } else {
            vstd::arithmetic::div_mod::lemma_small_mod((i - 1) as nat, m as nat);
        }
        if i == n {
            vstd::arithmetic::div_mod::lemma_mod_self_0(m);
        } else {
            vstd::arithmetic::div_mod::lemma_small_mod((i + 1) as nat, m as nat);
        }
    }
}

/// A fresh ring of `n` items counts `n` items.
pub proof fn lemma_fresh_count(n: nat)
    requires
        n < usize::MAX,
    ensures
        first_reached(fresh_ring(n), 0, fresh_ring(n)[0].previous as int, n),
{
    lemma_fresh_is_ring(n);
    lemma_ring_count(fresh_ring(n), index_order(n));
}

/// Removing item `k` from a fresh ring of `n` items leaves `n - 1` items,
/// and reinserting it right away gives back the fresh ring.
pub proof fn lemma_fresh_remove_reinsert(n: nat, k: int)
    requires
        n < usize::MAX,
        1 <= k <= n,
    ensures
        first_reached(
            without(fresh_ring(n), k),
            0,
            without(fresh_ring(n), k)[0].previous as int,
            (n - 1) as nat,
        ),
        with(without(fresh_ring(n), k), k) == fresh_ring(n),
{
    lemma_fresh_is_ring(n);
    let o = index_order(n);
    assert(o[k] == k);
    lemma_remove_one(fresh_ring(n), o, k);
    lemma_ring_count(without(fresh_ring(n), k), o.remove(k));
}

/// Removing all `n` items of a fresh ring, in any order, leaves an empty
/// ring whose sentinel is linked to itself both ways, and reinserting them in the reverse order gives back the fresh ring.
pub proof fn lemma_fresh_remove_all(n: nat, ks: Seq<int>)
    requires
        n < usize::MAX,
        ks.len() == n,
        ks.no_duplicates(),
        forall|i: int| 0 <= i < ks.len() ==> 1 <= #[trigger] ks[i] <= n,
    ensures
        first_reached(
            remove_all(fresh_ring(n), ks),
            0,
            remove_all(fresh_ring(n), ks)[0].previous as int,
            0,
        ),
        reinsert_reversed(remove_all(fresh_ring(n), ks), ks) == fresh_ring(n),
        remove_all(fresh_ring(n), ks)[0] == (ItemNode { previous: 0, next: 0 }),
{
    lemma_fresh_is_ring(n);
    let o = index_order(n);
    assert forall|i: int| 0 <= i < ks.len() implies #[trigger] ks[i] != 0 && o.contains(ks[i]) by {
        assert(o[ks[i]] == ks[i]);
    }
    lemma_round_trip(fresh_ring(n), o, ks);
    let rest = lemma_remove_all(fresh_ring(n), o, ks);
    assert(rest.last() == rest[0]);
}

} // verus!

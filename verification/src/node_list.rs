//! Lists of nodes that stand for sets: no node occurs twice.

use crate::node::NodeId;
use vstd::prelude::*;

verus! {

/// Whether the nodes are listed in order: coarser levels first, each level along
/// its Z-order curve. A list in order holds no node twice.
pub open spec fn sorted(s: Seq<NodeId>) -> bool {
    forall|i: int, j: int| 0 <= i < j < s.len() ==> #[trigger] s[i].spec_precedes(#[trigger] s[j])
}

/// A list in order holds no node twice.
pub proof fn lemma_sorted_no_duplicates(s: Seq<NodeId>)
    requires
        sorted(s),
    ensures
        s.no_duplicates(),
{
    assert forall|i: int, j: int| 0 <= i < s.len() && 0 <= j < s.len() && i != j implies s[i]
        != s[j] by {
        if i < j {
            assert(s[i].spec_precedes(s[j]));
        } else {
            assert(s[j].spec_precedes(s[i]));
        }
    }
}

/// A set of nodes has at most one listing in order.
pub proof fn lemma_sorted_unique(a: Seq<NodeId>, b: Seq<NodeId>)
    requires
        sorted(a),
        sorted(b),
        a.to_set() == b.to_set(),
    ensures
        a == b,
    decreases a.len(),
{
    lemma_sorted_no_duplicates(a);
    lemma_sorted_no_duplicates(b);
    a.unique_seq_to_set();
    b.unique_seq_to_set();
    if a.len() == 0 {
        assert(a =~= b);
    } else {
        let x = a.last();
        let y = b.last();
        assert(a.to_set().contains(x));
        assert(b.to_set().contains(y));
        assert(b.contains(x));
        assert(a.contains(y));
        let j = choose|j: int| 0 <= j < b.len() && b[j] == x;
        let i = choose|i: int| 0 <= i < a.len() && a[i] == y;
        if x != y {
            assert(b[j].spec_precedes(b[b.len() - 1]));
            assert(a[i].spec_precedes(a[a.len() - 1]));
            crate::node::lemma_precedes_total(x, y);
        }
        let c = a.drop_last();
        let d = b.drop_last();
        assert forall|n: NodeId| c.to_set().contains(n) <==> d.to_set().contains(n) by {
            if c.contains(n) {
                let k = choose|k: int| 0 <= k < c.len() && c[k] == n;
                assert(a[k] == n);
                assert(a.to_set().contains(n));
                assert(b.contains(n));
                let l = choose|l: int| 0 <= l < b.len() && b[l] == n;
                assert(d[l] == n);
            }
            if d.contains(n) {
                let k = choose|k: int| 0 <= k < d.len() && d[k] == n;
                assert(b[k] == n);
                assert(b.to_set().contains(n));
                assert(a.contains(n));
                let l = choose|l: int| 0 <= l < a.len() && a[l] == n;
                assert(c[l] == n);
            }
        }
        assert(c.to_set() =~= d.to_set());
        lemma_sorted_unique(c, d);
        assert(a =~= c.push(x));
        assert(b =~= d.push(y));
    }
}

/// The list with `x` put in its place in the order.
pub open spec fn insert_in_order(list: Seq<NodeId>, x: NodeId) -> Seq<NodeId>
    decreases list.len(),
{
    if list.len() == 0 || list.last().spec_precedes(x) {
        list.push(x)
    } else {
        insert_in_order(list.drop_last(), x).push(list.last())
    }
}

/// Putting a new node in its place keeps a list in order.
pub proof fn lemma_insert_in_order(list: Seq<NodeId>, x: NodeId)
    requires
        sorted(list),
        !list.contains(x),
    ensures
        sorted(insert_in_order(list, x)),
        insert_in_order(list, x).to_set() == list.to_set().insert(x),
        insert_in_order(list, x).len() == list.len() + 1,
    decreases list.len(),
{
    let r = insert_in_order(list, x);
    if list.len() == 0 || list.last().spec_precedes(x) {
        assert forall|i: int, j: int| 0 <= i < j < r.len() implies (
        #[trigger] r[i]).spec_precedes(#[trigger] r[j]) by {
            if j == list.len() {
                assert(r[i] == list[i]);
                if i < list.len() - 1 {
                    assert(list[i].spec_precedes(list[list.len() - 1]));
                }
            } else {
                assert(list[i].spec_precedes(list[j]));
            }
        }
        assert forall|n: NodeId| r.to_set().contains(n) <==> list.to_set().insert(x).contains(
            n,
        ) by {
            if r.contains(n) {
                let k = choose|k: int| 0 <= k < r.len() && r[k] == n;
                if k < list.len() {
                    assert(list[k] == n);
                }
            }
            if list.contains(n) {
                let k = choose|k: int| 0 <= k < list.len() && list[k] == n;
                assert(r[k] == n);
            }
            if n == x {
                assert(r[list.len() as int] == x);
            }
        }
        assert(r.to_set() =~= list.to_set().insert(x));
    } else {
        let front = list.drop_last();
        let last = list.last();
        let inner = insert_in_order(front, x);
        assert(sorted(front)) by {
            assert forall|i: int, j: int| 0 <= i < j < front.len() implies (
            #[trigger] front[i]).spec_precedes(#[trigger] front[j]) by {
                assert(list[i].spec_precedes(list[j]));
            }
        }
        assert(!front.contains(x)) by {
            if front.contains(x) {
                let k = choose|k: int| 0 <= k < front.len() && front[k] == x;
                assert(list[k] == x);
            }
        }
        lemma_insert_in_order(front, x);
        assert(list[list.len() - 1] == last);
        assert(last != x);
        crate::node::lemma_precedes_total(last, x);
        assert(x.spec_precedes(last));
        assert forall|i: int, j: int| 0 <= i < j < r.len() implies (
        #[trigger] r[i]).spec_precedes(#[trigger] r[j]) by {
            if j < inner.len() {
                assert(inner[i].spec_precedes(inner[j]));
            } else {
                assert(r[j] == last);
                assert(inner.to_set().contains(inner[i]));
                if inner[i] != x {
                    assert(front.to_set().contains(inner[i]));
                    let k = choose|k: int| 0 <= k < front.len() && front[k] == inner[i];
                    assert(list[k].spec_precedes(list[list.len() - 1]));
                }
            }
        }
        assert forall|n: NodeId| r.to_set().contains(n) <==> list.to_set().insert(x).contains(
            n,
        ) by {
            if r.contains(n) {
                let k = choose|k: int| 0 <= k < r.len() && r[k] == n;
                if k < inner.len() {
                    assert(inner.to_set().contains(inner[k]));
                    if n != x {
                        assert(front.contains(n));
                        let m = choose|m: int| 0 <= m < front.len() && front[m] == n;
                        assert(list[m] == n);
                    }
                }
            }
            if list.contains(n) {
                let k = choose|k: int| 0 <= k < list.len() && list[k] == n;
                if k < front.len() {
                    assert(front[k] == n);
                    assert(front.to_set().contains(n));
                    assert(inner.to_set().contains(n));
                    let m = choose|m: int| 0 <= m < inner.len() && inner[m] == n;
                    assert(r[m] == n);
                } else {
                    assert(r[inner.len() as int] == n);
                }
            }
            if n == x {
                assert(inner.to_set().contains(x));
                let m = choose|m: int| 0 <= m < inner.len() && inner[m] == x;
                assert(r[m] == x);
            }
        }
        assert(r.to_set() =~= list.to_set().insert(x));
    }
}

/// Every finite set of nodes has a listing in order.
pub proof fn lemma_listing_exists(nodes: Set<NodeId>) -> (list: Seq<NodeId>)
    requires
        nodes.finite(),
    ensures
        sorted(list),
        list.to_set() == nodes,
    decreases nodes.len(),
{
    if nodes.len() == 0 {
        let list = Seq::<NodeId>::empty();
        assert(list.to_set() =~= nodes);
        list
    } else {
        let x = nodes.choose();
        let rest = lemma_listing_exists(nodes.remove(x));
        lemma_insert_in_order(rest, x);
        assert(nodes.remove(x).insert(x) =~= nodes);
        insert_in_order(rest, x)
    }
}

/// A node is among the first `i + 1` entries of a list if it is among the first
/// `i` or is the entry after them.
pub proof fn lemma_subrange_push(list: Seq<NodeId>, i: int, x: NodeId)
    requires
        0 <= i < list.len(),
    ensures
        list.subrange(0, i + 1).contains(x) <==> list.subrange(0, i).contains(x) || list[i] == x,
{
    let a = list.subrange(0, i);
    let b = list.subrange(0, i + 1);
    if a.contains(x) {
        let j = choose|j: int| 0 <= j < a.len() && a[j] == x;
        assert(b[j] == x);
    }
    if list[i] == x {
        assert(b[i] == x);
    }
    if b.contains(x) {
        let j = choose|j: int| 0 <= j < b.len() && b[j] == x;
        if j < i {
            assert(a[j] == x);
        }
    }
}

/// Whether `node` is in the list.
pub(crate) fn contains(list: &Vec<NodeId>, node: NodeId) -> (b: bool)
    ensures
        b == list@.contains(node),
{
    let mut i: usize = 0;
    while i < list.len()
        invariant
            i <= list.len(),
            forall|j: int| 0 <= j < i ==> list[j] != node,
        decreases list.len() - i,
    {
        if list[i] == node {
            return true;
        }
        i += 1;
    }
    false
}

/// Adds `node` to the list unless it is there already.
pub(crate) fn insert(list: &mut Vec<NodeId>, node: NodeId)
    requires
        old(list)@.no_duplicates(),
    ensures
        final(list)@.no_duplicates(),
        final(list)@.to_set() == old(list)@.to_set().insert(node),
        old(list)@.contains(node) ==> final(list)@ == old(list)@,
        !old(list)@.contains(node) ==> final(list)@ == old(list)@.push(node),
{
    if !contains(list, node) {
        list.push(node);
        proof {
            let before = old(list)@;
            let after = list@;
            assert forall|x: NodeId| after.to_set().contains(x) <==> before.to_set().insert(
                node,
            ).contains(x) by {
                if after.contains(x) {
                    let j = choose|j: int| 0 <= j < after.len() && after[j] == x;
                    if j < before.len() {
                        assert(before[j] == x);
                    }
                }
                if before.contains(x) {
                    let j = choose|j: int| 0 <= j < before.len() && before[j] == x;
                    assert(after[j] == x);
                }
                if x == node {
                    assert(after[before.len() as int] == x);
                }
            }
            assert(after.to_set() =~= before.to_set().insert(node));
        }
    } else {
        proof {
            assert(list@.to_set() =~= old(list)@.to_set().insert(node));
        }
    }
}

/// Takes `node` off the list and says whether it was there.
pub(crate) fn remove(list: &mut Vec<NodeId>, node: NodeId) -> (found: bool)
    requires
        old(list)@.no_duplicates(),
    ensures
        final(list)@.no_duplicates(),
        final(list)@.to_set() == old(list)@.to_set().remove(node),
        found == old(list)@.contains(node),
        !found ==> final(list)@ == old(list)@,
        found ==> exists|i: int|
            0 <= i < old(list)@.len() && old(list)@[i] == node && final(list)@ == old(list)@.remove(
                i,
            ),
{
    let mut i: usize = 0;
    while i < list.len()
        invariant
            i <= list.len(),
            list@ == old(list)@,
            list@.no_duplicates(),
            forall|j: int| 0 <= j < i ==> list[j] != node,
        decreases list.len() - i,
    {
        if list[i] == node {
            list.remove(i);
            proof {
                let before = old(list)@;
                let after = list@;
                assert(after == before.remove(i as int));
                assert forall|a: int, b: int|
                    0 <= a < after.len() && 0 <= b < after.len() && a != b implies after[a]
                    != after[b] by {
                    let a0 = if a < i { a } else { a + 1 };
                    let b0 = if b < i { b } else { b + 1 };
                    assert(after[a] == before[a0] && after[b] == before[b0]);
                }
                assert forall|x: NodeId| after.to_set().contains(x) <==> before.to_set().remove(
                    node,
                ).contains(x) by {
                    if after.contains(x) {
                        let j = choose|j: int| 0 <= j < after.len() && after[j] == x;
                        let j0 = if j < i { j } else { j + 1 };
                        assert(before[j0] == x);
                        assert(j0 != i);
                    }
                    if before.contains(x) && x != node {
                        let j = choose|j: int| 0 <= j < before.len() && before[j] == x;
                        let j1 = if j < i { j } else { j - 1 };
                        assert(after[j1] == x);
                    }
                }
                assert(after.to_set() =~= before.to_set().remove(node));
            }
            return true;
        }
        i += 1;
    }
    proof {
        assert(list@.to_set() =~= old(list)@.to_set().remove(node));
    }
    false
}

/// A copy of the list.
pub(crate) fn copy(list: &Vec<NodeId>) -> (r: Vec<NodeId>)
    ensures
        r@ == list@,
{
    let mut r: Vec<NodeId> = Vec::new();
    let mut i: usize = 0;
    while i < list.len()
        invariant
            i <= list.len(),
            r@ == list@.subrange(0, i as int),
        decreases list.len() - i,
    {
        r.push(list[i]);
        proof {
            assert(r@ =~= list@.subrange(0, i + 1));
        }
        i += 1;
    }
    proof {
        assert(r@ =~= list@);
    }
    r
}

} // verus!

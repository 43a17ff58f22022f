//! Change-sets: proposed node displacements, their averaging map, and the
//! application and reversal of a whole change-set on a contour.

use vstd::prelude::*;

use crate::graph::{
    distance_between_nodes, lemma_links, lemma_walk_avoids_start, valid_order, walk_next,
    walk_prev, Graph, Node, NodeAddition, ThickSurface,
};
use crate::geometry::div_tz;
use crate::rng::random_u64;
use crate::stitcher::Stitching;
use crate::{COORD_LIMIT, MAX_NODES};

verus! {

/// A proposed displacement of one node: the node's identifier, its
/// position at proposal time, and the displacement itself.
#[derive(Clone, Copy, PartialEq, Eq, Structural, Debug)]
pub struct NodeChange {
    pub id: usize,
    pub cur_x: i64,
    pub cur_y: i64,
    pub delta_x: i64,
    pub delta_y: i64,
}

/// Position of the node after the change: proposal-time position plus
/// displacement.
pub open spec fn changed_x(c: NodeChange) -> int {
    c.cur_x + c.delta_x
}

/// See [`changed_x`].
pub open spec fn changed_y(c: NodeChange) -> int {
    c.cur_y + c.delta_y
}

impl NodeChange {
    /// The node's position once the change is applied.
    pub fn changed_pos(&self) -> (r: (i64, i64))
        requires
            -COORD_LIMIT <= changed_x(*self) <= COORD_LIMIT,
            -COORD_LIMIT <= changed_y(*self) <= COORD_LIMIT,
        ensures
            r.0 == changed_x(*self),
            r.1 == changed_y(*self),
    {
        (self.cur_x + self.delta_x, self.cur_y + self.delta_y)
    }
}

/// Truncating halving: `s / 2` rounded toward zero.
pub open spec fn half_tz(s: int) -> int {
    if s >= 0 {
        s / 2
    } else {
        -((-s) / 2)
    }
}

/// Exact truncating halving of a sum of two coordinates.
pub fn half_of_sum(a: i64, b: i64) -> (r: i64)
    requires
        -COORD_LIMIT <= a <= COORD_LIMIT,
        -COORD_LIMIT <= b <= COORD_LIMIT,
    ensures
        r == half_tz(a + b),
        -COORD_LIMIT <= r <= COORD_LIMIT,
{
    let s: i64 = a + b;
    if s >= 0 {
        ((s as u64) / 2) as i64
    } else {
        -(((-s) as u64 / 2) as i64)
    }
}

/// The moving average of two changes for the same node: deltas averaged
/// componentwise (rounded toward zero), everything else kept from the
/// first.
pub open spec fn averaged(a: NodeChange, b: NodeChange) -> NodeChange {
    NodeChange {
        id: a.id,
        cur_x: a.cur_x,
        cur_y: a.cur_y,
        delta_x: half_tz(a.delta_x + b.delta_x) as i64,
        delta_y: half_tz(a.delta_y + b.delta_y) as i64,
    }
}

/// The first change with identifier `k` among the first `upto` entries.
pub open spec fn find_change(entries: Seq<NodeChange>, k: int) -> Option<NodeChange>
    decreases entries.len(),
{
    if entries.len() == 0 {
        None
    } else if entries[0].id == k {
        Some(entries[0])
    } else {
        find_change(entries.drop_first(), k)
    }
}

/// Some of the first `upto` entries carries identifier `k`.
pub open spec fn covers_id(entries: Seq<NodeChange>, upto: int, k: int) -> bool {
    exists|j: int| 0 <= j < upto && j < entries.len() && (#[trigger] entries[j]).id == k
}

/// A change-set: a mapping from node identifier to proposed change.
/// Inserting a second change for an identifier does not overwrite the
/// first; the two deltas are averaged. Entries are kept in insertion
/// order, so applying a change-set is deterministic.
#[derive(Debug, Clone)]
pub struct NodeChangeMap {
    pub entries: Vec<NodeChange>,
}

impl NodeChangeMap {
    /// Entries carry pairwise distinct identifiers.
    pub open spec fn wf(self) -> bool {
        forall|i: int, j: int|
            0 <= i < j < self.entries@.len() ==> (#[trigger] self.entries@[i]).id != (
            #[trigger] self.entries@[j]).id
    }

    /// The empty change-set.
    pub fn new() -> (m: NodeChangeMap)
        ensures
            m.wf(),
            m.entries@.len() == 0,
    {
        NodeChangeMap { entries: Vec::new() }
    }

    /// Number of distinct nodes the change-set touches.
    pub fn len(&self) -> (n: usize)
        ensures
            n == self.entries@.len(),
    {
        self.entries.len()
    }

    /// The entry at insertion position `i`.
    pub fn entry_at(&self, i: usize) -> (c: NodeChange)
        requires
            i < self.entries@.len(),
        ensures
            c == self.entries@[i as int],
    {
        self.entries[i]
    }

    /// The change recorded for node `k`, if any.
    pub fn get(&self, k: usize) -> (r: Option<NodeChange>)
        requires
            self.wf(),
        ensures
            r == find_change(self.entries@, k as int),
            r is Some <==> covers_id(self.entries@, self.entries@.len() as int, k as int),
    {
        proof {
            assert(self.entries@.skip(0) =~= self.entries@);
        }
        let n = self.entries.len();
        let mut i: usize = 0;
        while i < n
            invariant
                self.wf(),
                n == self.entries@.len(),
                0 <= i <= n,
                forall|j: int| 0 <= j < i ==> (#[trigger] self.entries@[j]).id != k,
                find_change(self.entries@, k as int) == find_change(
                    self.entries@.skip(i as int),
                    k as int,
                ),
            decreases n - i,
        {
            proof {
                assert(self.entries@.skip(i as int)[0] == self.entries@[i as int]);
                assert(self.entries@.skip(i as int).drop_first() =~= self.entries@.skip(i + 1));
            }
            if self.entries[i].id == k {
                return Some(self.entries[i]);
            }
            i = i + 1;
        }
        proof {
            assert(self.entries@.skip(n as int) =~= Seq::<NodeChange>::empty());
        }
        None
    }

    /// Records a change for node `k`. A fresh identifier is appended; an
    /// identifier already present has its stored deltas averaged with the
    /// new ones (a moving average, not an overwrite).
    pub fn insert(&mut self, k: usize, v: NodeChange)
        requires
            old(self).wf(),
            v.id == k,
        ensures
            final(self).wf(),
            old(self)@.contains_key(k as int) ==> final(self)@ =~= old(self)@.insert(
                k as int,
                averaged(old(self)@[k as int], v),
            ),
            !old(self)@.contains_key(k as int) ==> final(self)@ =~= old(self)@.insert(k as int, v),
    {
        let n = self.entries.len();
        let mut i: usize = 0;
        while i < n
            invariant
                old(self).wf(),
                self == old(self),
                n == self.entries@.len(),
                0 <= i <= n,
                forall|j: int| 0 <= j < i ==> (#[trigger] self.entries@[j]).id != k,
            decreases n - i,
        {
            if self.entries[i].id == k {
                let existing = self.entries[i];
                let to_ins = NodeChange {
                    delta_x: half_of_change(existing.delta_x, v.delta_x),
                    delta_y: half_of_change(existing.delta_y, v.delta_y),
                    ..existing
                };
                self.entries.set(i, to_ins);
                proof {
                    lemma_view_update(old(self).entries@, self.entries@, i as int);
                    lemma_find_first(old(self).entries@, i as int);
                    assert(covers_id(
                        old(self).entries@,
                        old(self).entries@.len() as int,
                        k as int,
                    ));
                    assert(old(self)@[k as int] == existing);
                    assert(to_ins == averaged(existing, v));
                    assert(self@ =~= old(self)@.insert(
                        k as int,
                        averaged(old(self)@[k as int], v),
                    ));
                }
                return ;
            }
            i = i + 1;
        }
        self.entries.push(v);
        proof {
            lemma_view_push(old(self).entries@, self.entries@, v);
            lemma_find_none(old(self).entries@, k as int);
            assert(!covers_id(old(self).entries@, old(self).entries@.len() as int, k as int));
            assert forall|k2: int| #[trigger] self@.contains_key(k2) == (old(
                self,
            )@.contains_key(k2) || k2 == k) by {
                let n0 = old(self).entries@.len() as int;
                if k2 == k {
                    assert(self.entries@[n0].id == k2);
                    assert(covers_id(self.entries@, n0 + 1, k2));
                } else {
                    if covers_id(old(self).entries@, n0, k2) {
                        let j = choose|j: int|
                            0 <= j < n0 && j < old(self).entries@.len() && (
                            #[trigger] old(self).entries@[j]).id == k2;
                        assert(self.entries@[j].id == k2);
                        assert(covers_id(self.entries@, n0 + 1, k2));
                    }
                    if covers_id(self.entries@, n0 + 1, k2) {
                        let j = choose|j: int|
                            0 <= j < n0 + 1 && j < self.entries@.len() && (
                            #[trigger] self.entries@[j]).id == k2;
                        assert(j < n0);
                        assert(old(self).entries@[j].id == k2);
                        assert(covers_id(old(self).entries@, n0, k2));
                    }
                }
            }
            assert(self@.dom() =~= old(self)@.insert(k as int, v).dom());
            assert(self@ =~= old(self)@.insert(k as int, v));
        }
    }
}

/// The change-set as a mathematical map from identifier to change.
impl View for NodeChangeMap {
    type V = Map<int, NodeChange>;

    open spec fn view(&self) -> Map<int, NodeChange> {
        Map::new(
            |k: int| covers_id(self.entries@, self.entries@.len() as int, k),
            |k: int| find_change(self.entries@, k)->Some_0,
        )
    }
}

/// Truncating halving of a sum of two deltas, with no bound asked of
/// either.
fn half_of_change(a: i64, b: i64) -> (r: i64)
    ensures
        r == half_tz(a + b),
{
    let s: i128 = (a as i128) + (b as i128);
    if s >= 0 {
        let h: u128 = (s as u128) / 2;
        h as i64
    } else {
        let h: u128 = ((-s) as u128) / 2;
        let neg: i128 = -(h as i128);
        neg as i64
    }
}

proof fn lemma_find_first(entries: Seq<NodeChange>, j: int)
    requires
        0 <= j < entries.len(),
        forall|i: int, i2: int|
            0 <= i < i2 < entries.len() ==> (#[trigger] entries[i]).id != (
            #[trigger] entries[i2]).id,
    ensures
        find_change(entries, entries[j].id as int) == Some(entries[j]),
    decreases entries.len(),
{
    if j == 0 {
    } else {
        assert(entries[0].id != entries[j].id);
        assert(entries.drop_first()[j - 1] == entries[j]);
        lemma_find_first(entries.drop_first(), j - 1);
    }
}

proof fn lemma_find_none(entries: Seq<NodeChange>, k: int)
    requires
        forall|i: int| 0 <= i < entries.len() ==> (#[trigger] entries[i]).id != k,
    ensures
        find_change(entries, k) is None,
    decreases entries.len(),
{
    if entries.len() > 0 {
        lemma_find_none(entries.drop_first(), k);
    }
}

proof fn lemma_view_update(old_entries: Seq<NodeChange>, entries: Seq<NodeChange>, i: int)
    requires
        forall|a: int, b: int|
            0 <= a < b < old_entries.len() ==> (#[trigger] old_entries[a]).id != (
            #[trigger] old_entries[b]).id,
        0 <= i < old_entries.len(),
        entries.len() == old_entries.len(),
        entries[i].id == old_entries[i].id,
        forall|j: int| 0 <= j < entries.len() && j != i ==> entries[j] == old_entries[j],
    ensures
        forall|a: int, b: int|
            0 <= a < b < entries.len() ==> (#[trigger] entries[a]).id != (#[trigger] entries[b]).id,
        forall|k: int|
            k != entries[i].id ==> find_change(entries, k) == find_change(old_entries, k),
        find_change(entries, entries[i].id as int) == Some(entries[i]),
        forall|k: int, upto: int| covers_id(entries, upto, k) == covers_id(old_entries, upto, k),
{
    assert forall|a: int, b: int| 0 <= a < b < entries.len() implies (#[trigger] entries[a]).id != (
    #[trigger] entries[b]).id by {
        assert(old_entries[a].id != old_entries[b].id);
    }
    lemma_find_first(entries, i);
    assert forall|k: int| k != entries[i].id implies find_change(entries, k) == find_change(
        old_entries,
        k,
    ) by {
        lemma_find_agree(old_entries, entries, k);
    }
    assert forall|k: int, upto: int| covers_id(entries, upto, k) == covers_id(
        old_entries,
        upto,
        k,
    ) by {
        assert forall|j: int| 0 <= j < entries.len() implies (#[trigger] entries[j]).id
            == old_entries[j].id by {}
    }
}

proof fn lemma_find_agree(a: Seq<NodeChange>, b: Seq<NodeChange>, k: int)
    requires
        a.len() == b.len(),
        forall|j: int| 0 <= j < a.len() ==> (#[trigger] a[j]).id == b[j].id,
        forall|j: int| 0 <= j < a.len() && a[j].id == k ==> a[j] == b[j],
        forall|j: int| 0 <= j < a.len() && (#[trigger] a[j]).id != k ==> a[j].id == b[j].id,
    ensures
        find_change(a, k) == find_change(b, k),
    decreases a.len(),
{
    if a.len() > 0 {
        if a[0].id == k {
        } else {
            assert forall|j: int| 0 <= j < a.drop_first().len() implies (
            #[trigger] a.drop_first()[j]).id == b.drop_first()[j].id by {
                assert(a[j + 1].id == b[j + 1].id);
            }
            assert forall|j: int|
                0 <= j < a.drop_first().len() && a.drop_first()[j].id == k implies a.drop_first()[j]
                == b.drop_first()[j] by {
                assert(a[j + 1] == b[j + 1]);
            }
            lemma_find_agree(a.drop_first(), b.drop_first(), k);
        }
    }
}

proof fn lemma_view_push(old_entries: Seq<NodeChange>, entries: Seq<NodeChange>, v: NodeChange)
    requires
        forall|a: int, b: int|
            0 <= a < b < old_entries.len() ==> (#[trigger] old_entries[a]).id != (
            #[trigger] old_entries[b]).id,
        forall|j: int| 0 <= j < old_entries.len() ==> (#[trigger] old_entries[j]).id != v.id,
        entries == old_entries.push(v),
    ensures
        forall|a: int, b: int|
            0 <= a < b < entries.len() ==> (#[trigger] entries[a]).id != (#[trigger] entries[b]).id,
        find_change(entries, v.id as int) == Some(v),
        forall|k: int| k != v.id ==> find_change(entries, k) == find_change(old_entries, k),
    decreases old_entries.len(),
{
    assert forall|a: int, b: int| 0 <= a < b < entries.len() implies (#[trigger] entries[a]).id != (
    #[trigger] entries[b]).id by {
        if b < old_entries.len() {
            assert(old_entries[a].id != old_entries[b].id);
        } else {
            assert(entries[b] == v);
            assert(old_entries[a].id != v.id);
        }
    }
    assert forall|j: int| 0 <= j < entries.len() implies (#[trigger] entries[j]).id == (if j
        < old_entries.len() {
        old_entries[j].id
    } else {
        v.id
    }) by {}
    lemma_find_first(entries, old_entries.len() as int);
    assert forall|k: int| k != v.id implies find_change(entries, k) == find_change(
        old_entries,
        k,
    ) by {
        lemma_find_push(old_entries, v, k);
    }
}

proof fn lemma_find_push(old_entries: Seq<NodeChange>, v: NodeChange, k: int)
    requires
        k != v.id,
    ensures
        find_change(old_entries.push(v), k) == find_change(old_entries, k),
    decreases old_entries.len(),
{
    let entries = old_entries.push(v);
    if old_entries.len() == 0 {
        assert(entries[0] == v);
        assert(entries.drop_first() =~= Seq::<NodeChange>::empty());
    } else {
        assert(entries[0] == old_entries[0]);
        if entries[0].id != k {
            assert(entries.drop_first() =~= old_entries.drop_first().push(v));
            lemma_find_push(old_entries.drop_first(), v, k);
        }
    }
}


/// The change matches the arena: the node exists, its position is the
/// change's proposal-time position, and the moved position stays inside
/// the world box.
pub open spec fn change_applicable(nodes: Seq<Node>, c: NodeChange) -> bool {
    &&& c.id < nodes.len()
    &&& nodes[c.id as int].x == c.cur_x
    &&& nodes[c.id as int].y == c.cur_y
    &&& -COORD_LIMIT <= changed_x(c) <= COORD_LIMIT
    &&& -COORD_LIMIT <= changed_y(c) <= COORD_LIMIT
}

/// Every change of the set matches the arena, and each is keyed by its
/// own identifier.
pub open spec fn changes_applicable(nodes: Seq<Node>, m: Map<int, NodeChange>) -> bool {
    forall|k: int| #[trigger] m.contains_key(k) ==> m[k].id == k && change_applicable(nodes, m[k])
}

/// The change has been applied to the arena: the node sits at the moved
/// position, and its proposal-time position is inside the world box.
pub open spec fn change_applied(nodes: Seq<Node>, c: NodeChange) -> bool {
    &&& c.id < nodes.len()
    &&& nodes[c.id as int].x == changed_x(c)
    &&& nodes[c.id as int].y == changed_y(c)
    &&& -COORD_LIMIT <= c.cur_x <= COORD_LIMIT
    &&& -COORD_LIMIT <= c.cur_y <= COORD_LIMIT
}

/// Every change of the set has been applied to the arena, and each is
/// keyed by its own identifier.
pub open spec fn changes_applied(nodes: Seq<Node>, m: Map<int, NodeChange>) -> bool {
    forall|k: int| #[trigger] m.contains_key(k) ==> m[k].id == k && change_applied(nodes, m[k])
}

/// Moving nodes without touching any link keeps the cyclic order.
proof fn lemma_same_links_same_order(a: Seq<Node>, b: Seq<Node>)
    requires
        exists|ord: Seq<int>| #[trigger] valid_order(a, ord),
        b.len() == a.len(),
        forall|k: int|
            0 <= k < a.len() ==> (#[trigger] b[k]).next_id == a[k].next_id && b[k].prev_id
                == a[k].prev_id,
    ensures
        exists|ord: Seq<int>| #[trigger] valid_order(b, ord),
{
    let ord = choose|ord: Seq<int>| #[trigger] valid_order(a, ord);
    let n = a.len() as int;
    assert forall|i: int| 0 <= i < n - 1 implies (#[trigger] b[ord[i]]).next_id as int == ord[i
        + 1] by {
        assert(a[ord[i]].next_id as int == ord[i + 1]);
    }
    assert forall|i: int| 1 <= i < n implies (#[trigger] b[ord[i]]).prev_id as int == ord[i
        - 1] by {
        assert(a[ord[i]].prev_id as int == ord[i - 1]);
    }
    assert(valid_order(b, ord));
}

/// Moves one node to its changed position. The position the change was
/// proposed against must still be current; the caller establishes this
/// before applying; a mismatch would mean a missed revert.
fn apply_change(g: &mut Graph, change: &NodeChange)
    requires
        old(g).wf(),
        change_applicable(old(g).nodes@, *change),
    ensures
        final(g).wf(),
        final(g).nodes@.len() == old(g).nodes@.len(),
        final(g).nodes@[change.id as int].x == changed_x(*change),
        final(g).nodes@[change.id as int].y == changed_y(*change),
        forall|k: int|
            0 <= k < old(g).nodes@.len() && k != change.id ==> final(g).nodes@[k] == old(
                g,
            ).nodes@[k],
        forall|k: int|
            0 <= k < old(g).nodes@.len() ==> (#[trigger] final(g).nodes@[k]).next_id == old(
                g,
            ).nodes@[k].next_id && final(g).nodes@[k].prev_id == old(g).nodes@[k].prev_id,
{
    let mut node = g.nodes[change.id];
    node.x = change.cur_x + change.delta_x;
    node.y = change.cur_y + change.delta_y;
    g.nodes.set(change.id, node);
    proof {
        lemma_same_links_same_order(old(g).nodes@, g.nodes@);
    }
}

/// Moves one node back to the position its change was proposed against.
/// The change must currently be applied; a mismatch would mean a
/// missed revert.
fn revert_change(g: &mut Graph, change: &NodeChange)
    requires
        old(g).wf(),
        change_applied(old(g).nodes@, *change),
    ensures
        final(g).wf(),
        final(g).nodes@.len() == old(g).nodes@.len(),
        final(g).nodes@[change.id as int].x == change.cur_x,
        final(g).nodes@[change.id as int].y == change.cur_y,
        forall|k: int|
            0 <= k < old(g).nodes@.len() && k != change.id ==> final(g).nodes@[k] == old(
                g,
            ).nodes@[k],
        forall|k: int|
            0 <= k < old(g).nodes@.len() ==> (#[trigger] final(g).nodes@[k]).next_id == old(
                g,
            ).nodes@[k].next_id && final(g).nodes@[k].prev_id == old(g).nodes@[k].prev_id,
{
    let mut node = g.nodes[change.id];
    node.x = change.cur_x;
    node.y = change.cur_y;
    g.nodes.set(change.id, node);
    proof {
        lemma_same_links_same_order(old(g).nodes@, g.nodes@);
    }
}

/// The arena after a change-set is applied: every covered node at its
/// changed position, everything else untouched.
pub open spec fn applied_nodes(nodes: Seq<Node>, m: Map<int, NodeChange>) -> Seq<Node> {
    Seq::new(
        nodes.len(),
        |k: int|
            if m.contains_key(k) {
                Node {
                    x: changed_x(m[k]) as i64,
                    y: changed_y(m[k]) as i64,
                    next_id: nodes[k].next_id,
                    prev_id: nodes[k].prev_id,
                }
            } else {
                nodes[k]
            },
    )
}

/// Applies every change of the set, in insertion order: each changed node
/// moves to its changed position; every other node and every link is
/// untouched.
pub fn apply_changes(g: &mut Graph, changes: &NodeChangeMap)
    requires
        old(g).wf(),
        changes.wf(),
        changes_applicable(old(g).nodes@, changes@),
    ensures
        final(g).wf(),
        final(g).nodes@.len() == old(g).nodes@.len(),
        forall|k: int|
            0 <= k < old(g).nodes@.len() && changes@.contains_key(k) ==> (
            #[trigger] final(g).nodes@[k]).x == changed_x(changes@[k]) && final(g).nodes@[k].y
                == changed_y(changes@[k]),
        forall|k: int|
            0 <= k < old(g).nodes@.len() && !changes@.contains_key(k) ==> final(g).nodes@[k] == old(
                g,
            ).nodes@[k],
        forall|k: int|
            0 <= k < old(g).nodes@.len() ==> (#[trigger] final(g).nodes@[k]).next_id == old(
                g,
            ).nodes@[k].next_id && final(g).nodes@[k].prev_id == old(g).nodes@[k].prev_id,
        changes_applied(final(g).nodes@, changes@),
        final(g).nodes@ == applied_nodes(old(g).nodes@, changes@),
{
    let ghost entries = changes.entries@;
    let n = changes.len();
    let mut i: usize = 0;
    while i < n
        invariant
            g.wf(),
            changes.wf(),
            entries == changes.entries@,
            changes_applicable(old(g).nodes@, changes@),
            n == entries.len(),
            0 <= i <= n,
            g.nodes@.len() == old(g).nodes@.len(),
            forall|j: int|
                0 <= j < i ==> (#[trigger] g.nodes@[entries[j].id as int]).x == changed_x(
                    entries[j],
                ) && g.nodes@[entries[j].id as int].y == changed_y(entries[j]),
            forall|k: int|
                0 <= k < old(g).nodes@.len() && !covers_id(entries, i as int, k) ==> g.nodes@[k]
                    == old(g).nodes@[k],
            forall|k: int|
                0 <= k < old(g).nodes@.len() ==> (#[trigger] g.nodes@[k]).next_id == old(
                    g,
                ).nodes@[k].next_id && g.nodes@[k].prev_id == old(g).nodes@[k].prev_id,
        decreases n - i,
    {
        let c = changes.entry_at(i);
        proof {
            lemma_find_first(entries, i as int);
            assert(covers_id(entries, entries.len() as int, c.id as int));
            assert(changes@.contains_key(c.id as int) && changes@[c.id as int] == c);
            assert(change_applicable(old(g).nodes@, c));
            assert(!covers_id(entries, i as int, c.id as int));
            assert(g.nodes@[c.id as int] == old(g).nodes@[c.id as int]);
        }
        let ghost pre = g.nodes@;
        apply_change(g, &c);
        proof {
            assert forall|j: int| 0 <= j < i + 1 implies (
            #[trigger] g.nodes@[entries[j].id as int]).x == changed_x(entries[j])
                && g.nodes@[entries[j].id as int].y == changed_y(entries[j]) by {
                if j < i {
                    lemma_find_first(entries, j);
                    assert(covers_id(entries, entries.len() as int, entries[j].id as int));
                    assert(changes@.contains_key(entries[j].id as int));
                    assert(change_applicable(old(g).nodes@, entries[j]));
                    assert(entries[j].id != entries[i as int].id);
                    assert(g.nodes@[entries[j].id as int] == pre[entries[j].id as int]);
                }
            }
            assert forall|k: int|
                0 <= k < old(g).nodes@.len() && !covers_id(
                    entries,
                    i + 1,
                    k,
                ) implies g.nodes@[k] == old(g).nodes@[k] by {
                assert(!covers_id(entries, i as int, k));
                assert(k != c.id);
                assert(g.nodes@[k] == pre[k]);
            }
        }
        i = i + 1;
    }
    proof {
        assert forall|k: int|
            0 <= k < old(g).nodes@.len() && changes@.contains_key(k) implies (
        #[trigger] g.nodes@[k]).x == changed_x(changes@[k]) && g.nodes@[k].y == changed_y(
            changes@[k],
        ) by {
            let j = choose|j: int|
                0 <= j < entries.len() && j < entries.len() && (#[trigger] entries[j]).id == k;
            lemma_find_first(entries, j);
            assert(changes@[k] == entries[j]);
        }
        assert forall|k: int| #[trigger] changes@.contains_key(k) implies changes@[k].id == k
            && change_applied(g.nodes@, changes@[k]) by {
            let j = choose|j: int|
                0 <= j < entries.len() && j < entries.len() && (#[trigger] entries[j]).id == k;
            lemma_find_first(entries, j);
            assert(changes@[k] == entries[j]);
            assert(change_applicable(old(g).nodes@, entries[j]));
            assert(g.nodes@[entries[j].id as int].x == changed_x(entries[j]));
        }
        assert forall|k: int|
            0 <= k < g.nodes@.len() implies g.nodes@[k] == applied_nodes(
            old(g).nodes@,
            changes@,
        )[k] by {
            if changes@.contains_key(k) {
                assert(change_applicable(old(g).nodes@, changes@[k]));
            }
        }
        assert(g.nodes@ =~= applied_nodes(old(g).nodes@, changes@));
    }
}

/// Reverts every change of the set: each changed node moves back to the
/// position its change was proposed against; everything else is
/// untouched.
pub fn revert_changes(g: &mut Graph, changes: &NodeChangeMap)
    requires
        old(g).wf(),
        changes.wf(),
        changes_applied(old(g).nodes@, changes@),
    ensures
        final(g).wf(),
        final(g).nodes@.len() == old(g).nodes@.len(),
        forall|k: int|
            0 <= k < old(g).nodes@.len() && changes@.contains_key(k) ==> (
            #[trigger] final(g).nodes@[k]).x == changes@[k].cur_x && final(g).nodes@[k].y
                == changes@[k].cur_y,
        forall|k: int|
            0 <= k < old(g).nodes@.len() && !changes@.contains_key(k) ==> final(g).nodes@[k] == old(
                g,
            ).nodes@[k],
        forall|k: int|
            0 <= k < old(g).nodes@.len() ==> (#[trigger] final(g).nodes@[k]).next_id == old(
                g,
            ).nodes@[k].next_id && final(g).nodes@[k].prev_id == old(g).nodes@[k].prev_id,
{
    let ghost entries = changes.entries@;
    let n = changes.len();
    let mut i: usize = 0;
    while i < n
        invariant
            g.wf(),
            changes.wf(),
            entries == changes.entries@,
            changes_applied(old(g).nodes@, changes@),
            n == entries.len(),
            0 <= i <= n,
            g.nodes@.len() == old(g).nodes@.len(),
            forall|j: int|
                0 <= j < i ==> (#[trigger] g.nodes@[entries[j].id as int]).x == entries[j].cur_x
                    && g.nodes@[entries[j].id as int].y == entries[j].cur_y,
            forall|k: int|
                0 <= k < old(g).nodes@.len() && !covers_id(entries, i as int, k) ==> g.nodes@[k]
                    == old(g).nodes@[k],
            forall|k: int|
                0 <= k < old(g).nodes@.len() ==> (#[trigger] g.nodes@[k]).next_id == old(
                    g,
                ).nodes@[k].next_id && g.nodes@[k].prev_id == old(g).nodes@[k].prev_id,
        decreases n - i,
    {
        let c = changes.entry_at(i);
        proof {
            lemma_find_first(entries, i as int);
            assert(covers_id(entries, entries.len() as int, c.id as int));
            assert(changes@.contains_key(c.id as int) && changes@[c.id as int] == c);
            assert(change_applied(old(g).nodes@, c));
            assert(!covers_id(entries, i as int, c.id as int));
            assert(g.nodes@[c.id as int] == old(g).nodes@[c.id as int]);
        }
        let ghost pre = g.nodes@;
        revert_change(g, &c);
        proof {
            assert forall|j: int| 0 <= j < i + 1 implies (
            #[trigger] g.nodes@[entries[j].id as int]).x == entries[j].cur_x
                && g.nodes@[entries[j].id as int].y == entries[j].cur_y by {
                if j < i {
                    lemma_find_first(entries, j);
                    assert(covers_id(entries, entries.len() as int, entries[j].id as int));
                    assert(changes@.contains_key(entries[j].id as int));
                    assert(change_applied(old(g).nodes@, entries[j]));
                    assert(entries[j].id != entries[i as int].id);
                    assert(g.nodes@[entries[j].id as int] == pre[entries[j].id as int]);
                }
            }
            assert forall|k: int|
                0 <= k < old(g).nodes@.len() && !covers_id(
                    entries,
                    i + 1,
                    k,
                ) implies g.nodes@[k] == old(g).nodes@[k] by {
                assert(!covers_id(entries, i as int, k));
                assert(k != c.id);
                assert(g.nodes@[k] == pre[k]);
            }
        }
        i = i + 1;
    }
    proof {
        assert forall|k: int|
            0 <= k < old(g).nodes@.len() && changes@.contains_key(k) implies (
        #[trigger] g.nodes@[k]).x == changes@[k].cur_x && g.nodes@[k].y == changes@[k].cur_y by {
            let j = choose|j: int|
                0 <= j < entries.len() && j < entries.len() && (#[trigger] entries[j]).id == k;
            lemma_find_first(entries, j);
            assert(changes@[k] == entries[j]);
        }
    }
}

/// Applying a change-set and then reverting the same change-set restores
/// the exact pre-change arena: every position and every link is as it
/// was. The three sequences are the arena before, between, and after the
/// two operations, related as [`apply_changes`] and [`revert_changes`]
/// leave them.
pub proof fn lemma_apply_revert_round_trip(
    before: Seq<Node>,
    mid: Seq<Node>,
    after: Seq<Node>,
    changes: NodeChangeMap,
)
    requires
        changes.wf(),
        changes_applicable(before, changes@),
        mid.len() == before.len(),
        after.len() == mid.len(),
        forall|k: int|
            0 <= k < before.len() && changes@.contains_key(k) ==> (#[trigger] after[k]).x
                == changes@[k].cur_x && after[k].y == changes@[k].cur_y,
        forall|k: int| 0 <= k < mid.len() && !changes@.contains_key(k) ==> mid[k] == before[k],
        forall|k: int| 0 <= k < mid.len() && !changes@.contains_key(k) ==> after[k] == mid[k],
        forall|k: int|
            0 <= k < before.len() ==> (#[trigger] mid[k]).next_id == before[k].next_id
                && mid[k].prev_id == before[k].prev_id,
        forall|k: int|
            0 <= k < mid.len() ==> (#[trigger] after[k]).next_id == mid[k].next_id
                && after[k].prev_id == mid[k].prev_id,
    ensures
        after =~= before,
{
    assert forall|k: int| 0 <= k < before.len() implies after[k] == before[k] by {
        if changes@.contains_key(k) {
            assert(change_applicable(before, changes@[k]));
        }
    }
}

/// A smoothing budget: either a number of hops along the contour or a
/// cumulative distance in ticks.
#[derive(Copy, Clone, PartialEq, Eq, Hash, Debug)]
pub enum Smooth<L, R> {
    Count(L),
    Continuous(R),
}

/// The displacement `d` shortened just enough to keep `cur + d` inside
/// the world box.
pub open spec fn clamp_box(cur: int, d: int) -> int {
    if cur + d > COORD_LIMIT {
        COORD_LIMIT - cur
    } else if cur + d < -COORD_LIMIT {
        -COORD_LIMIT - cur
    } else {
        d
    }
}

/// Clamps a displacement so the moved position stays inside the world
/// box.
fn clamp_delta(cur: i64, d: i64) -> (r: i64)
    requires
        -COORD_LIMIT <= cur <= COORD_LIMIT,
        -4 * COORD_LIMIT <= d <= 4 * COORD_LIMIT,
    ensures
        r == clamp_box(cur as int, d as int),
        -COORD_LIMIT <= cur + r <= COORD_LIMIT,
{
    let moved: i64 = cur + d;
    if moved > COORD_LIMIT {
        COORD_LIMIT - cur
    } else if moved < -COORD_LIMIT {
        -COORD_LIMIT - cur
    } else {
        d
    }
}

/// `delta * num / den` rounded toward zero; never larger in magnitude
/// than `delta` when `num <= den`.
fn mul_div_tz(delta: i64, num: i64, den: i64) -> (r: i64)
    requires
        -4 * COORD_LIMIT <= delta <= 4 * COORD_LIMIT,
        0 <= num <= den,
        0 < den,
    ensures
        r == div_tz(delta * num, den as int),
        -4 * COORD_LIMIT <= r <= 4 * COORD_LIMIT,
        delta >= 0 ==> 0 <= r <= delta,
        delta <= 0 ==> delta <= r <= 0,
{
    proof {
        assert(-0x1_0000_0000_0000_0000_0000_0000i128 <= (delta as i128) * (num as i128)
            <= 0x1_0000_0000_0000_0000_0000_0000i128) by (nonlinear_arith)
            requires
                -4 * 0x40_0000 <= delta <= 4 * 0x40_0000,
                0 <= num < 0x8000_0000_0000_0000_0000i128,
        ;
    }
    let p: i128 = (delta as i128) * (num as i128);
    let r: i64 = if p >= 0 {
        let q: u128 = (p as u128) / (den as u128);
        proof {
            lemma_mul_div_at_most(p as int, delta as int, num as int, den as int);
        }
        q as i64
    } else {
        let q: u128 = ((-p) as u128) / (den as u128);
        proof {
            assert(-(p as int) == -(delta as int) * (num as int)) by (nonlinear_arith)
                requires
                    p == (delta as int) * (num as int),
            ;
            lemma_mul_div_at_most(-(p as int), -(delta as int), num as int, den as int);
        }
        let neg: i128 = -(q as i128);
        neg as i64
    };
    r
}

/// For `0 <= p == d * num`, `num <= den`, the quotient `p / den` is at
/// most `d`.
proof fn lemma_mul_div_at_most(p: int, d: int, num: int, den: int)
    requires
        p >= 0,
        p == d * num,
        0 <= num <= den,
        0 < den,
    ensures
        0 <= p / den,
        num > 0 ==> p / den <= d,
        num == 0 ==> p / den == 0,
    decreases den,
{
    vstd::arithmetic::div_mod::lemma_fundamental_div_mod(p, den);
    let q = p / den;
    assert(q * den <= p && (p == 0 ==> q == 0)) by (nonlinear_arith)
        requires
            p == den * q + p % den,
            0 <= p % den < den,
            0 < den,
    ;
    if num > 0 {
        assert(d >= 0) by (nonlinear_arith)
            requires
                p >= 0,
                p == d * num,
                num > 0,
        ;
        assert(p <= d * den) by (nonlinear_arith)
            requires
                p == d * num,
                0 <= num <= den,
                d >= 0,
        ;
        assert(q <= d) by (nonlinear_arith)
            requires
                q * den <= d * den,
                den > 0,
        ;
    }
    assert(q >= 0) by (nonlinear_arith)
        requires
            p >= 0,
            den > 0,
            p == den * q + p % den,
            0 <= p % den < den,
    ;
}

/// Truncating halving lands between the two values it averages.
proof fn lemma_half_tz_between(d1: int, d2: int)
    ensures
        half_tz(d1 + d2) >= if d1 <= d2 {
            d1
        } else {
            d2
        },
        half_tz(d1 + d2) <= if d1 <= d2 {
            d2
        } else {
            d1
        },
{
    let s = d1 + d2;
    if s >= 0 {
        vstd::arithmetic::div_mod::lemma_fundamental_div_mod(s, 2);
    } else {
        vstd::arithmetic::div_mod::lemma_fundamental_div_mod(-s, 2);
    }
}

/// Averaging two applicable changes for the same node, proposed against
/// the same position, gives an applicable change again.
pub proof fn lemma_averaged_applicable(nodes: Seq<Node>, a: NodeChange, b: NodeChange)
    requires
        change_applicable(nodes, a),
        change_applicable(nodes, b),
        a.id == b.id,
        a.cur_x == b.cur_x,
        a.cur_y == b.cur_y,
    ensures
        change_applicable(nodes, averaged(a, b)),
        averaged(a, b).id == a.id,
        averaged(a, b).cur_x == a.cur_x,
        averaged(a, b).cur_y == a.cur_y,
{
    lemma_half_tz_between(a.delta_x as int, b.delta_x as int);
    lemma_half_tz_between(a.delta_y as int, b.delta_y as int);
}

/// A uniformly drawn displacement of a uniformly drawn node: the node's
/// identifier is drawn from the contour, each delta component from
/// `[low, high)`, and the delta is then shortened just enough to keep the
/// moved position inside the world box.
pub fn random_change(g: &Graph, low_high: (i64, i64)) -> (c: NodeChange)
    requires
        g.wf(),
        -COORD_LIMIT <= low_high.0 < low_high.1 <= COORD_LIMIT,
    ensures
        c.id < g.nodes@.len(),
        c.cur_x == g.nodes@[c.id as int].x,
        c.cur_y == g.nodes@[c.id as int].y,
        change_applicable(g.nodes@, c),
        exists|d: int|
            low_high.0 <= d < low_high.1 && c.delta_x == #[trigger] clamp_box(c.cur_x as int, d),
        exists|d: int|
            low_high.0 <= d < low_high.1 && c.delta_y == #[trigger] clamp_box(c.cur_y as int, d),
        low_high.0 <= c.delta_x < low_high.1 || changed_x(c) == COORD_LIMIT || changed_x(c)
            == -COORD_LIMIT,
        low_high.0 <= c.delta_y < low_high.1 || changed_y(c) == COORD_LIMIT || changed_y(c)
            == -COORD_LIMIT,
{
    let (low, high) = low_high;
    let to_change = (random_u64() % (g.nodes.len() as u64)) as usize;
    let range: u64 = (high - low) as u64;
    let dx_raw: i64 = low + (random_u64() % range) as i64;
    let dy_raw: i64 = low + (random_u64() % range) as i64;
    let cur_x = g.nodes[to_change].x;
    let cur_y = g.nodes[to_change].y;
    let delta_x = clamp_delta(cur_x, dx_raw);
    let delta_y = clamp_delta(cur_y, dy_raw);
    proof {
        assert(clamp_box(cur_x as int, dx_raw as int) == delta_x);
        assert(clamp_box(cur_y as int, dy_raw as int) == delta_y);
    }
    NodeChange { id: to_change, cur_x, cur_y, delta_x, delta_y }
}

/// The decayed copy of `change` that smoothing places on the node `node_id`
/// at `(node_x, node_y)`: the delta scaled by `num / den` (the remaining
/// fraction of the budget), clamped into the world box.
pub open spec fn decayed_change(
    change: NodeChange,
    node_id: int,
    node_x: int,
    node_y: int,
    num: int,
    den: int,
) -> NodeChange {
    NodeChange {
        id: node_id as usize,
        cur_x: node_x as i64,
        cur_y: node_y as i64,
        delta_x: clamp_box(node_x, div_tz(change.delta_x * num, den)) as i64,
        delta_y: clamp_box(node_y, div_tz(change.delta_y * num, den)) as i64,
    }
}

/// Builds the decayed copy of `change` for one smoothed neighbour.
fn mk_change(node_id: usize, node_x: i64, node_y: i64, change: NodeChange, num: i64, den: i64) -> (c:
    NodeChange)
    requires
        -COORD_LIMIT <= node_x <= COORD_LIMIT,
        -COORD_LIMIT <= node_y <= COORD_LIMIT,
        -2 * COORD_LIMIT <= change.delta_x <= 2 * COORD_LIMIT,
        -2 * COORD_LIMIT <= change.delta_y <= 2 * COORD_LIMIT,
        0 <= num <= den,
        0 < den,
    ensures
        c == decayed_change(change, node_id as int, node_x as int, node_y as int, num as int, den as int),
        c.id == node_id,
        c.cur_x == node_x,
        c.cur_y == node_y,
        -COORD_LIMIT <= changed_x(c) <= COORD_LIMIT,
        -COORD_LIMIT <= changed_y(c) <= COORD_LIMIT,
{
    let dx = mul_div_tz(change.delta_x, num, den);
    let dy = mul_div_tz(change.delta_y, num, den);
    NodeChange {
        id: node_id,
        cur_x: node_x,
        cur_y: node_y,
        delta_x: clamp_delta(node_x, dx),
        delta_y: clamp_delta(node_y, dy),
    }
}


/// Recording one more change into an applicable change-set keeps it
/// applicable: a fresh key adds an applicable change, a present key
/// averages two changes proposed against the same node position.
pub proof fn lemma_insert_keeps_applicable(
    nodes: Seq<Node>,
    before: Map<int, NodeChange>,
    after: Map<int, NodeChange>,
    k: int,
    v: NodeChange,
)
    requires
        changes_applicable(nodes, before),
        change_applicable(nodes, v),
        v.id == k,
        before.contains_key(k) ==> after =~= before.insert(k, averaged(before[k], v)),
        !before.contains_key(k) ==> after =~= before.insert(k, v),
    ensures
        changes_applicable(nodes, after),
        forall|k2: int|
            #[trigger] before.contains_key(k2) && k2 != k ==> after.contains_key(k2) && after[k2]
                == before[k2],
        after.contains_key(k),
{
    if before.contains_key(k) {
        assert(change_applicable(nodes, before[k]));
        lemma_averaged_applicable(nodes, before[k], v);
    }
    assert forall|k2: int| #[trigger] after.contains_key(k2) implies after[k2].id == k2
        && change_applicable(nodes, after[k2]) by {
        if k2 != k {
            assert(before.contains_key(k2));
        }
    }
}


/// Recording a change at the spec level: a fresh key takes the change, a
/// present key takes the moving average. Mirrors
/// [`NodeChangeMap::insert`].
pub open spec fn insert_avg(m: Map<int, NodeChange>, k: int, v: NodeChange) -> Map<
    int,
    NodeChange,
> {
    if m.contains_key(k) {
        m.insert(k, averaged(m[k], v))
    } else {
        m.insert(k, v)
    }
}

/// Cumulative chord distance from the centre to the nodes reached by the
/// first `t` forward hops.
pub open spec fn acc_next(nodes: Seq<Node>, center: int, t: int) -> int
    decreases t,
{
    if t <= 0 {
        0
    } else {
        acc_next(nodes, center, t - 1) + crate::geometry::dist_spec(
            nodes[center].x as int,
            nodes[center].y as int,
            nodes[walk_next(nodes, center, t as nat)].x as int,
            nodes[walk_next(nodes, center, t as nat)].y as int,
        )
    }
}

/// Cumulative chord distance from the centre to the nodes reached by the
/// first `t` backward hops.
pub open spec fn acc_prev(nodes: Seq<Node>, center: int, t: int) -> int
    decreases t,
{
    if t <= 0 {
        0
    } else {
        acc_prev(nodes, center, t - 1) + crate::geometry::dist_spec(
            nodes[center].x as int,
            nodes[center].y as int,
            nodes[walk_prev(nodes, center, t as nat)].x as int,
            nodes[walk_prev(nodes, center, t as nat)].y as int,
        )
    }
}

/// The decay fraction a smoothing side applies at hop `t`, as
/// (numerator, denominator) of the remaining budget — or nothing once
/// that side's budget is exhausted.
pub open spec fn smooth_num_den(
    how_smooth: Smooth<usize, i64>,
    nodes: Seq<Node>,
    center: int,
    t: int,
    next_side: bool,
) -> Option<(int, int)> {
    match how_smooth {
        Smooth::Count(c) => if t <= c {
            Some((c - t, c as int))
        } else {
            None
        },
        Smooth::Continuous(s) => {
            let d = if next_side {
                acc_next(nodes, center, t)
            } else {
                acc_prev(nodes, center, t)
            };
            if d <= s {
                Some((s - d, s as int))
            } else {
                None
            }
        },
    }
}

/// The change-set smoothing produces after its first `t` rounds: the
/// change itself at the centre, then per round one decayed copy one hop
/// further along each direction whose budget still has room, averaged in
/// where a node is reached twice.
pub open spec fn smoothed_after(
    nodes: Seq<Node>,
    change: NodeChange,
    how_smooth: Smooth<usize, i64>,
    t: int,
) -> Map<int, NodeChange>
    decreases t,
{
    if t <= 0 {
        Map::empty().insert(change.id as int, change)
    } else {
        let m0 = smoothed_after(nodes, change, how_smooth, t - 1);
        let center = change.id as int;
        let kn = walk_next(nodes, center, t as nat);
        let m1 = match smooth_num_den(how_smooth, nodes, center, t, true) {
            Some((num, den)) => insert_avg(
                m0,
                kn,
                decayed_change(change, kn, nodes[kn].x as int, nodes[kn].y as int, num, den),
            ),
            None => m0,
        };
        let kp = walk_prev(nodes, center, t as nat);
        match smooth_num_den(how_smooth, nodes, center, t, false) {
            Some((num, den)) => insert_avg(
                m1,
                kp,
                decayed_change(change, kp, nodes[kp].x as int, nodes[kp].y as int, num, den),
            ),
            None => m1,
        }
    }
}

/// Chord distances never shrink as the walk lengthens.
proof fn lemma_acc_monotone(nodes: Seq<Node>, center: int, t1: int, t2: int)
    requires
        crate::graph::wf_nodes(nodes),
        0 <= center < nodes.len(),
        0 <= t1 <= t2,
    ensures
        acc_next(nodes, center, t1) <= acc_next(nodes, center, t2),
        acc_prev(nodes, center, t1) <= acc_prev(nodes, center, t2),
    decreases t2 - t1,
{
    if t1 < t2 {
        lemma_acc_monotone(nodes, center, t1, t2 - 1);
        crate::graph::lemma_walk_in_range(nodes, center, t2 as nat);
        let kn = walk_next(nodes, center, t2 as nat);
        let kp = walk_prev(nodes, center, t2 as nat);
        crate::geometry::lemma_dist_sq_bounds(
            nodes[center].x as int,
            nodes[center].y as int,
            nodes[kn].x as int,
            nodes[kn].y as int,
            COORD_LIMIT as int,
        );
        crate::geometry::lemma_sqrt_of(
            crate::geometry::dist_sq(
                nodes[center].x as int,
                nodes[center].y as int,
                nodes[kn].x as int,
                nodes[kn].y as int,
            ),
        );
        crate::geometry::lemma_dist_sq_bounds(
            nodes[center].x as int,
            nodes[center].y as int,
            nodes[kp].x as int,
            nodes[kp].y as int,
            COORD_LIMIT as int,
        );
        crate::geometry::lemma_sqrt_of(
            crate::geometry::dist_sq(
                nodes[center].x as int,
                nodes[center].y as int,
                nodes[kp].x as int,
                nodes[kp].y as int,
            ),
        );
    }
}

/// Once both budgets are exhausted at round `t_from`, later rounds add
/// nothing: the smoothed map is already final.
proof fn lemma_smoothed_stable(
    nodes: Seq<Node>,
    change: NodeChange,
    how_smooth: Smooth<usize, i64>,
    t_from: int,
    t_to: int,
)
    requires
        crate::graph::wf_nodes(nodes),
        0 <= change.id < nodes.len(),
        0 < t_from <= t_to,
        smooth_num_den(how_smooth, nodes, change.id as int, t_from, true) is None,
        smooth_num_den(how_smooth, nodes, change.id as int, t_from, false) is None,
    ensures
        smoothed_after(nodes, change, how_smooth, t_to) == smoothed_after(
            nodes,
            change,
            how_smooth,
            t_from,
        ),
    decreases t_to - t_from,
{
    if t_from < t_to {
        lemma_smoothed_stable(nodes, change, how_smooth, t_from, t_to - 1);
        match how_smooth {
            Smooth::Count(c) => {},
            Smooth::Continuous(s) => {
                lemma_acc_monotone(nodes, change.id as int, t_from, t_to);
            },
        }
        assert(smooth_num_den(how_smooth, nodes, change.id as int, t_to, true) is None);
        assert(smooth_num_den(how_smooth, nodes, change.id as int, t_to, false) is None);
    }
}

/// Both walks from `center`, up to `upto` hops but no farther than
/// `reach`, land only on nodes the change-set covers.
pub open spec fn hops_covered(
    m: Map<int, NodeChange>,
    nodes: Seq<Node>,
    center: int,
    upto: int,
    reach: int,
) -> bool {
    forall|t2: int|
        1 <= t2 <= upto && t2 <= reach ==> m.contains_key(
            #[trigger] walk_next(nodes, center, t2 as nat),
        ) && m.contains_key(walk_prev(nodes, center, t2 as nat))
}

/// How many hops on each side a hop-count budget reaches on a contour of
/// `n` nodes: the budget itself, stopped one hop short of a full
/// revolution. A distance budget's reach depends on the positions, so
/// nothing is counted for it here.
pub open spec fn count_budget_reach(how_smooth: Smooth<usize, i64>, n: int) -> int {
    match how_smooth {
        Smooth::Count(c) => if c <= n - 1 {
            c as int
        } else {
            n - 1
        },
        Smooth::Continuous(_) => 0,
    }
}

/// Spreads one change outward along the contour in both directions,
/// placing a linearly decayed copy of its delta on each node visited
/// until the budget is exhausted on that side: a node visited at fraction
/// `p` of the budget receives `delta * (1 - p)`, clamped into the world
/// box. A node reached from both directions gets the moving average of
/// the two copies. The walk stops after at most one revolution, so the
/// node of the original change keeps that change unaveraged.
#[verifier::rlimit(100)]
#[verifier::spinoff_prover]
pub fn smooth_change_out(g: &Graph, change: NodeChange, how_smooth: Smooth<usize, i64>) -> (ret:
    NodeChangeMap)
    requires
        g.wf(),
        change_applicable(g.nodes@, change),
        match how_smooth {
            Smooth::Count(c) => 1 <= c <= 0x7fff_ffff,
            Smooth::Continuous(s) => 1 <= s,
        },
    ensures
        ret.wf(),
        changes_applicable(g.nodes@, ret@),
        ret@.contains_key(change.id as int),
        ret@[change.id as int] == change,
        hops_covered(
            ret@,
            g.nodes@,
            change.id as int,
            count_budget_reach(how_smooth, g.nodes@.len() as int),
            count_budget_reach(how_smooth, g.nodes@.len() as int),
        ),
        ret@ == smoothed_after(g.nodes@, change, how_smooth, g.nodes@.len() - 1),
{
    let nodes_len = g.nodes.len();
    let ghost nodes = g.nodes@;
    let ghost center = change.id as int;
    let mut ret = NodeChangeMap::new();
    proof {
        assert(!ret@.contains_key(center));
        lemma_insert_keeps_applicable(nodes, ret@, ret@.insert(center, change), center, change);
    }
    ret.insert(change.id, change);
    proof {
        assert(ret@ =~= smoothed_after(nodes, change, how_smooth, 0));
    }
    let mut cur_next: usize = change.id;
    let mut cur_prev: usize = change.id;
    let mut dist_next: i64 = 0;
    let mut dist_prev: i64 = 0;
    let mut t: usize = 0;
    let mut enough_next = false;
    let mut enough_prev = false;
    while !(enough_next && enough_prev) && t + 1 < nodes_len
        invariant
            g.wf(),
            nodes == g.nodes@,
            center == change.id as int,
            change_applicable(nodes, change),
            match how_smooth {
                Smooth::Count(c) => 1 <= c <= 0x7fff_ffff,
                Smooth::Continuous(s) => 1 <= s,
            },
            nodes_len == nodes.len(),
            0 <= t < nodes_len,
            ret.wf(),
            changes_applicable(nodes, ret@),
            ret@.contains_key(center),
            ret@[center] == change,
            cur_next as int == walk_next(nodes, center, t as nat),
            cur_prev as int == walk_prev(nodes, center, t as nat),
            cur_next < nodes_len,
            cur_prev < nodes_len,
            0 <= dist_next <= 0x200_0000i64 * (t as i64),
            0 <= dist_prev <= 0x200_0000i64 * (t as i64),
            dist_next == acc_next(nodes, center, t as int),
            dist_prev == acc_prev(nodes, center, t as int),
            ret@ == smoothed_after(nodes, change, how_smooth, t as int),
            hops_covered(
                ret@,
                nodes,
                center,
                t as int,
                count_budget_reach(how_smooth, nodes_len as int),
            ),
            t == 0 ==> !enough_next && !enough_prev,
            t > 0 ==> (match how_smooth {
                Smooth::Count(c) => enough_next == (t > c) && enough_prev == (t > c),
                Smooth::Continuous(s) => enough_next == (dist_next > s) && enough_prev == (
                dist_prev > s),
            }),
        decreases nodes_len - t,
    {
        proof {
            lemma_links(nodes, cur_next as int);
            lemma_links(nodes, cur_prev as int);
            lemma_walk_avoids_start(nodes, center, (t + 1) as nat);
            assert(walk_next(nodes, center, (t + 1) as nat) == nodes[walk_next(
                nodes,
                center,
                t as nat,
            )].next_id as int);
            assert(walk_prev(nodes, center, (t + 1) as nat) == nodes[walk_prev(
                nodes,
                center,
                t as nat,
            )].prev_id as int);
        }
        let ghost pre_round = ret@;
        t = t + 1;
        cur_next = g.nodes[cur_next].next_id;
        cur_prev = g.nodes[cur_prev].prev_id;
        let center_node = g.nodes[change.id];
        let next_node = g.nodes[cur_next];
        let prev_node = g.nodes[cur_prev];
        dist_next = dist_next + distance_between_nodes(&center_node, &next_node);
        dist_prev = dist_prev + distance_between_nodes(&center_node, &prev_node);
        let (num_next, num_prev, den) = match how_smooth {
            Smooth::Count(c) => {
                enough_next = t > c;
                enough_prev = t > c;
                (
                    if t > c {
                        0
                    } else {
                        (c - t) as i64
                    },
                    if t > c {
                        0
                    } else {
                        (c - t) as i64
                    },
                    c as i64,
                )
            },
            Smooth::Continuous(s) => {
                enough_next = dist_next > s;
                enough_prev = dist_prev > s;
                (
                    if dist_next > s {
                        0
                    } else {
                        s - dist_next
                    },
                    if dist_prev > s {
                        0
                    } else {
                        s - dist_prev
                    },
                    s,
                )
            },
        };
        if !enough_next {
            let nc = mk_change(cur_next, next_node.x, next_node.y, change, num_next, den);
            proof {
                assert(cur_next as int != center);
                if ret@.contains_key(cur_next as int) {
                    lemma_insert_keeps_applicable(
                        nodes,
                        ret@,
                        ret@.insert(cur_next as int, averaged(ret@[cur_next as int], nc)),
                        cur_next as int,
                        nc,
                    );
                } else {
                    lemma_insert_keeps_applicable(
                        nodes,
                        ret@,
                        ret@.insert(cur_next as int, nc),
                        cur_next as int,
                        nc,
                    );
                }
            }
            let ghost pre_insert = ret@;
            ret.insert(cur_next, nc);
            proof {
                assert forall|k2: int| pre_insert.contains_key(k2) implies ret@.contains_key(
                    k2,
                ) by {}
                assert(ret@.contains_key(cur_next as int));
            }
        }
        let ghost after_next = ret@;
        if !enough_prev {
            let nc = mk_change(cur_prev, prev_node.x, prev_node.y, change, num_prev, den);
            proof {
                assert(cur_prev as int != center);
                if ret@.contains_key(cur_prev as int) {
                    lemma_insert_keeps_applicable(
                        nodes,
                        ret@,
                        ret@.insert(cur_prev as int, averaged(ret@[cur_prev as int], nc)),
                        cur_prev as int,
                        nc,
                    );
                } else {
                    lemma_insert_keeps_applicable(
                        nodes,
                        ret@,
                        ret@.insert(cur_prev as int, nc),
                        cur_prev as int,
                        nc,
                    );
                }
            }
            let ghost pre_insert = ret@;
            ret.insert(cur_prev, nc);
            proof {
                assert forall|k2: int| pre_insert.contains_key(k2) implies ret@.contains_key(
                    k2,
                ) by {}
                assert(ret@.contains_key(cur_prev as int));
            }
        }
        proof {
            // this round is exactly one unfolding of the smoothing fold
            assert(pre_round == smoothed_after(nodes, change, how_smooth, t - 1));
            let kn = walk_next(nodes, center, t as nat);
            let kp = walk_prev(nodes, center, t as nat);
            let m1 = match smooth_num_den(how_smooth, nodes, center, t as int, true) {
                Some((num, den)) => insert_avg(
                    pre_round,
                    kn,
                    decayed_change(change, kn, nodes[kn].x as int, nodes[kn].y as int, num, den),
                ),
                None => pre_round,
            };
            let m2 = match smooth_num_den(how_smooth, nodes, center, t as int, false) {
                Some((num, den)) => insert_avg(
                    m1,
                    kp,
                    decayed_change(change, kp, nodes[kp].x as int, nodes[kp].y as int, num, den),
                ),
                None => m1,
            };
            match smooth_num_den(how_smooth, nodes, center, t as int, true) {
                Some((num, den)) => {
                    assert(!enough_next);
                    assert((num, den) == (num_next as int, den as int));
                    assert(after_next =~= m1);
                },
                None => {
                    assert(enough_next);
                    assert(after_next == m1);
                },
            }
            match smooth_num_den(how_smooth, nodes, center, t as int, false) {
                Some((num, den)) => {
                    assert(!enough_prev);
                    assert((num, den) == (num_prev as int, den as int));
                    assert(ret@ =~= insert_avg(
                        after_next,
                        kp,
                        decayed_change(
                            change,
                            kp,
                            nodes[kp].x as int,
                            nodes[kp].y as int,
                            num,
                            den,
                        ),
                    ));
                    assert(ret@ =~= m2);
                },
                None => {
                    assert(enough_prev);
                    assert(ret@ == after_next);
                    assert(ret@ =~= m2);
                },
            }
            assert(smoothed_after(nodes, change, how_smooth, t as int) == m2);
            assert(ret@ =~= smoothed_after(nodes, change, how_smooth, t as int));
            assert(hops_covered(
                ret@,
                nodes,
                center,
                t as int,
                count_budget_reach(how_smooth, nodes_len as int),
            )) by {
            assert forall|t2: int|
                1 <= t2 <= t && t2 <= count_budget_reach(how_smooth, nodes_len as int)
                    implies ret@.contains_key(#[trigger] walk_next(nodes, center, t2 as nat))
                && ret@.contains_key(walk_prev(nodes, center, t2 as nat)) by {
                let wn = walk_next(nodes, center, t2 as nat);
                let wp = walk_prev(nodes, center, t2 as nat);
                if t2 < t {
                    assert(hops_covered(
                        pre_round,
                        nodes,
                        center,
                        (t - 1) as int,
                        count_budget_reach(how_smooth, nodes_len as int),
                    ));
                    assert(pre_round.contains_key(wn));
                    assert(pre_round.contains_key(wp));
                } else {
                    assert(t2 == t);
                    match how_smooth {
                        Smooth::Count(c) => {
                            assert(t <= c);
                            assert(!enough_next && !enough_prev);
                        },
                        Smooth::Continuous(_) => {
                            assert(false);
                        },
                    }
                    assert(walk_next(nodes, center, t2 as nat) == cur_next as int);
                    assert(walk_prev(nodes, center, t2 as nat) == cur_prev as int);
                }
            }
            }
        }
    }
    proof {
        // on exit the budget's reach never exceeds the hops taken
        let reach = count_budget_reach(how_smooth, nodes_len as int);
        if enough_next && enough_prev {
            match how_smooth {
                Smooth::Count(c) => {
                    assert(t > 0);
                    assert(reach <= t);
                },
                Smooth::Continuous(_) => {},
            }
        } else {
            assert(t + 1 >= nodes_len);
        }
        assert(reach <= t as int);
        lemma_hops_covered_shrink(ret@, nodes, center, t as int, reach);
        if t < nodes_len - 1 {
            assert(enough_next && enough_prev);
            assert(smooth_num_den(how_smooth, nodes, center, t as int, true) is None);
            assert(smooth_num_den(how_smooth, nodes, center, t as int, false) is None);
            lemma_smoothed_stable(nodes, change, how_smooth, t as int, nodes_len - 1);
        }
    }
    ret
}

/// Hop coverage up to some bound covers any smaller bound.
proof fn lemma_hops_covered_shrink(
    m: Map<int, NodeChange>,
    nodes: Seq<Node>,
    center: int,
    upto: int,
    reach: int,
)
    requires
        hops_covered(m, nodes, center, upto, reach),
        reach <= upto,
    ensures
        hops_covered(m, nodes, center, reach, reach),
{
    assert forall|t2: int|
        1 <= t2 <= reach && t2 <= reach implies m.contains_key(
        #[trigger] walk_next(nodes, center, t2 as nat),
    ) && m.contains_key(walk_prev(nodes, center, t2 as nat)) by {
        let wn = walk_next(nodes, center, t2 as nat);
        let wp = walk_prev(nodes, center, t2 as nat);
        assert(1 <= t2 <= upto && t2 <= reach);
        assert(m.contains_key(wn) && m.contains_key(wp));
    }
}


/// Splices the prepared node into the given layer of the surface; the
/// other layer is untouched. The new node takes the next free identifier
/// of that layer.
pub fn add_node_(ts: &mut ThickSurface, layer_to_which_add: usize, node_addition: &NodeAddition)
    requires
        old(ts).wf(),
        layer_to_which_add < 2,
        node_addition.n.prev_id < old(ts).layers@[layer_to_which_add as int].nodes@.len(),
        node_addition.n.next_id < old(ts).layers@[layer_to_which_add as int].nodes@.len(),
        old(ts).layers@[layer_to_which_add as int].nodes@[node_addition.n.prev_id as int].next_id
            == node_addition.n.next_id,
        old(ts).layers@[layer_to_which_add as int].nodes@.len() < MAX_NODES,
        -COORD_LIMIT <= node_addition.n.x <= COORD_LIMIT,
        -COORD_LIMIT <= node_addition.n.y <= COORD_LIMIT,
    ensures
        final(ts).wf(),
        final(ts).layers@.len() == 2,
        final(ts).layers@[1 - layer_to_which_add as int] == old(ts).layers@[1
            - layer_to_which_add as int],
        final(ts).layers@[layer_to_which_add as int].nodes@.len() == old(
            ts,
        ).layers@[layer_to_which_add as int].nodes@.len() + 1,
        final(ts).layers@[layer_to_which_add as int].nodes@[old(
            ts,
        ).layers@[layer_to_which_add as int].nodes@.len() as int] == node_addition.n,
        final(ts).layers@[layer_to_which_add as int].nodes@[node_addition.n.prev_id as int].next_id
            == old(ts).layers@[layer_to_which_add as int].nodes@.len(),
        final(ts).layers@[layer_to_which_add as int].nodes@[node_addition.n.next_id as int].prev_id
            == old(ts).layers@[layer_to_which_add as int].nodes@.len(),
        forall|k: int|
            0 <= k < old(ts).layers@[layer_to_which_add as int].nodes@.len() ==> (
            #[trigger] final(ts).layers@[layer_to_which_add as int].nodes@[k]).x
                == old(ts).layers@[layer_to_which_add as int].nodes@[k].x
                && final(ts).layers@[layer_to_which_add as int].nodes@[k].y
                == old(ts).layers@[layer_to_which_add as int].nodes@[k].y,
        forall|k: int|
            0 <= k < old(ts).layers@[layer_to_which_add as int].nodes@.len() && k
                != node_addition.n.prev_id ==> (
            #[trigger] final(ts).layers@[layer_to_which_add as int].nodes@[k]).next_id
                == old(ts).layers@[layer_to_which_add as int].nodes@[k].next_id,
        forall|k: int|
            0 <= k < old(ts).layers@[layer_to_which_add as int].nodes@.len() && k
                != node_addition.n.next_id ==> (
            #[trigger] final(ts).layers@[layer_to_which_add as int].nodes@[k]).prev_id
                == old(ts).layers@[layer_to_which_add as int].nodes@[k].prev_id,
{
    let mut g = ts.layers.remove(layer_to_which_add);
    g.insert_between(
        node_addition.n.prev_id,
        node_addition.n.next_id,
        node_addition.n.x,
        node_addition.n.y,
    );
    ts.layers.insert(layer_to_which_add, g);
    proof {
        assert(ts.layers@[layer_to_which_add as int] == g);
        assert(ts.layers@[1 - layer_to_which_add as int] == old(ts).layers@[1
            - layer_to_which_add as int]);
    }
}

/// Removes the given node from the given layer by folding it into its
/// neighbours; the last node of that layer's arena takes over the freed
/// identifier, and the other layer is untouched.
pub fn delete_node_(ts: &mut ThickSurface, layer_from_which_delete: usize, node_id: usize)
    requires
        old(ts).wf(),
        layer_from_which_delete < 2,
        node_id < old(ts).layers@[layer_from_which_delete as int].nodes@.len(),
        old(ts).layers@[layer_from_which_delete as int].nodes@.len() >= 2,
    ensures
        final(ts).wf(),
        final(ts).layers@.len() == 2,
        final(ts).layers@[1 - layer_from_which_delete as int] == old(ts).layers@[1
            - layer_from_which_delete as int],
        final(ts).layers@[layer_from_which_delete as int].nodes@.len() == old(
            ts,
        ).layers@[layer_from_which_delete as int].nodes@.len() - 1,
        final(ts).layers@[layer_from_which_delete as int].nodes@ == crate::graph::merged_nodes(
            old(ts).layers@[layer_from_which_delete as int].nodes@,
            node_id as int,
        ),
{
    let mut g = ts.layers.remove(layer_from_which_delete);
    proof {
        crate::graph::lemma_wf_links(g, node_id as int);
    }
    let next_id = g.nodes[node_id].next_id;
    g.merge(node_id, next_id);
    ts.layers.insert(layer_from_which_delete, g);
    proof {
        assert(ts.layers@[layer_from_which_delete as int] == g);
        assert(ts.layers@[1 - layer_from_which_delete as int] == old(ts).layers@[1
            - layer_from_which_delete as int]);
    }
}


/// A displacement wider than the clamp helper accepts, clamped into the
/// world box.
fn clamp_delta_wide(cur: i64, d: i128) -> (r: i64)
    requires
        -COORD_LIMIT <= cur <= COORD_LIMIT,
        -0x8000_0000_0000_0000_0000i128 <= d <= 0x8000_0000_0000_0000_0000i128,
    ensures
        r == clamp_box(cur as int, d as int),
        -COORD_LIMIT <= cur + r <= COORD_LIMIT,
{
    let moved: i128 = (cur as i128) + d;
    if moved > (COORD_LIMIT as i128) {
        COORD_LIMIT - cur
    } else if moved < (-COORD_LIMIT) as i128 {
        -COORD_LIMIT - cur
    } else {
        d as i64
    }
}

/// The number of opposite-layer partners the induced-change rule divides
/// by: the correspondent's list length, held below the engine's clamp.
pub open spec fn induced_partners(s: Stitching, j: int) -> int {
    let len = s.list(1, j).len() as int;
    if len > 0x1000_0000 {
        0x1000_0000
    } else {
        len
    }
}

/// One source change folded over the first `j` correspondents of its
/// node: each receives its induced change, averaged in when already
/// pulled.
pub open spec fn induced_row(
    m: Map<int, NodeChange>,
    this_nodes: Seq<Node>,
    s: Stitching,
    c: NodeChange,
    compression_factor: int,
    j: int,
) -> Map<int, NodeChange>
    decreases j,
{
    if j <= 0 {
        m
    } else {
        let m0 = induced_row(m, this_nodes, s, c, compression_factor, j - 1);
        let k = s.list(0, c.id as int)[j - 1].0 as int;
        insert_avg(
            m0,
            k,
            induced_change(
                this_nodes,
                k,
                c.cur_x as int,
                c.cur_y as int,
                compression_factor,
                induced_partners(s, k),
            ),
        )
    }
}

/// The induced change-set after the first `i` source entries: each
/// entry's row folded in turn, in insertion order.
pub open spec fn induced_map(
    this_nodes: Seq<Node>,
    entries: Seq<NodeChange>,
    s: Stitching,
    compression_factor: int,
    i: int,
) -> Map<int, NodeChange>
    decreases i,
{
    if i <= 0 {
        Map::empty()
    } else {
        let m0 = induced_map(this_nodes, entries, s, compression_factor, i - 1);
        induced_row(
            m0,
            this_nodes,
            s,
            entries[i - 1],
            compression_factor,
            s.list(0, entries[i - 1].id as int).len() as int,
        )
    }
}

/// The change that a change at position `(cx, cy)` on the other layer
/// induces on its correspondent `j` of this layer: the delta points along
/// the bisecting direction at `j` (an estimate of the locally outward
/// normal), with magnitude the node-to-node distance to the changed node,
/// scaled by the compression factor and divided by the number of
/// opposite-layer partners of `j`; the result is clamped into the world
/// box.
pub open spec fn induced_change(
    nodes: Seq<Node>,
    j: int,
    cx: int,
    cy: int,
    compression_factor: int,
    partners: int,
) -> NodeChange {
    let jx = nodes[j].x as int;
    let jy = nodes[j].y as int;
    let nx = nodes[nodes[j].next_id as int].x as int;
    let ny = nodes[nodes[j].next_id as int].y as int;
    let px = nodes[nodes[j].prev_id as int].x as int;
    let py = nodes[nodes[j].prev_id as int].y as int;
    let dir = crate::geometry::direction_vector_spec(jx, jy, nx, ny, px, py);
    let mag = div_tz(
        crate::geometry::dist_spec(jx, jy, cx, cy) * compression_factor,
        crate::SCALE * partners,
    );
    NodeChange {
        id: j as usize,
        cur_x: jx as i64,
        cur_y: jy as i64,
        delta_x: clamp_box(jx, div_tz(dir.0 * mag, crate::SCALE as int)) as i64,
        delta_y: clamp_box(jy, div_tz(dir.1 * mag, crate::SCALE as int)) as i64,
    }
}

/// Computes [`induced_change`] for one correspondent.
fn make_induced_change(
    g: &Graph,
    j: usize,
    cx: i64,
    cy: i64,
    compression_factor: i64,
    partners: usize,
) -> (c: NodeChange)
    requires
        g.wf(),
        j < g.nodes@.len(),
        -COORD_LIMIT <= cx <= COORD_LIMIT,
        -COORD_LIMIT <= cy <= COORD_LIMIT,
        0 <= compression_factor <= 0x1000_0000,
        1 <= partners <= 0x1000_0000,
    ensures
        c == induced_change(
            g.nodes@,
            j as int,
            cx as int,
            cy as int,
            compression_factor as int,
            partners as int,
        ),
        change_applicable(g.nodes@, c),
{
    proof {
        lemma_links(g.nodes@, j as int);
    }
    let node = g.nodes[j];
    let nxt = g.nodes[node.next_id];
    let prv = g.nodes[node.prev_id];
    let dir = crate::geometry::direction_vector(node.x, node.y, nxt.x, nxt.y, prv.x, prv.y);
    let dist = crate::geometry::distance_between_points(node.x, node.y, cx, cy);
    proof {
        assert(0 < (crate::SCALE as i128) * (partners as i128) <= 0x1_0000_0000_0000i128)
            by (nonlinear_arith)
            requires
                1 <= partners <= 0x1000_0000,
        ;
        assert(0 <= (dist as i128) * (compression_factor as i128)
            <= 0x1000_0000_0000_0000i128) by (nonlinear_arith)
            requires
                0 <= dist <= 0x1_0000_0000,
                0 <= compression_factor <= 0x1000_0000,
        ;
    }
    let mag: i128 = crate::geometry::divide_tz(
        (dist as i128) * (compression_factor as i128),
        (crate::SCALE as i128) * (partners as i128),
    );
    proof {
        assert(-0x1_0000_0000_0000_0000_0000i128 <= (dir.0 as i128) * mag
            <= 0x1_0000_0000_0000_0000_0000i128 && -0x1_0000_0000_0000_0000_0000i128 <= (
        dir.1 as i128) * mag <= 0x1_0000_0000_0000_0000_0000i128) by (nonlinear_arith)
            requires
                -0x1_0000 <= dir.0 <= 0x1_0000,
                -0x1_0000 <= dir.1 <= 0x1_0000,
                0 <= mag <= 0x1000_0000_0000_0000i128,
        ;
    }
    let dx_raw: i128 = crate::geometry::divide_tz(
        (dir.0 as i128) * mag,
        crate::SCALE as i128,
    );
    let dy_raw: i128 = crate::geometry::divide_tz(
        (dir.1 as i128) * mag,
        crate::SCALE as i128,
    );
    NodeChange {
        id: j,
        cur_x: node.x,
        cur_y: node.y,
        delta_x: clamp_delta_wide(node.x, dx_raw),
        delta_y: clamp_delta_wide(node.y, dy_raw),
    }
}

/// Derives the change-set induced on this layer by a change-set on the
/// other layer: for every changed node of the other layer, each of its
/// correspondents in this layer receives the [`induced_change`] toward its
/// own locally outward direction; a node pulled by several sources gets
/// the moving average of the pulls. Every returned change is applicable
/// to this layer.
pub fn changes_from_other_graph(
    this_graph: &Graph,
    other_graph: &Graph,
    other_graph_changes: &NodeChangeMap,
    compression_factor: i64,
    s: &Stitching,
) -> (ret: NodeChangeMap)
    requires
        this_graph.wf(),
        other_graph.wf(),
        other_graph_changes.wf(),
        changes_applicable(other_graph.nodes@, other_graph_changes@),
        crate::stitcher::valid_stitching(*s, other_graph.nodes@, this_graph.nodes@),
        0 <= compression_factor <= 0x1000_0000,
    ensures
        ret.wf(),
        changes_applicable(this_graph.nodes@, ret@),
        forall|ii: int, j: int|
            0 <= ii < other_graph_changes.entries@.len() && 0 <= j < s.list(
                0,
                other_graph_changes.entries@[ii].id as int,
            ).len() ==> ret@.contains_key(
                (#[trigger] s.list(0, other_graph_changes.entries@[ii].id as int)[j]).0 as int,
            ),
        ret@ == induced_map(
            this_graph.nodes@,
            other_graph_changes.entries@,
            *s,
            compression_factor as int,
            other_graph_changes.entries@.len() as int,
        ),
{
    let ghost this_nodes = this_graph.nodes@;
    let ghost other_nodes = other_graph.nodes@;
    let mut ret = NodeChangeMap::new();
    proof {
        assert(ret@ =~= Map::<int, NodeChange>::empty());
    }
    let n = other_graph_changes.len();
    let mut i: usize = 0;
    while i < n
        invariant
            this_graph.wf(),
            other_graph.wf(),
            this_nodes == this_graph.nodes@,
            other_nodes == other_graph.nodes@,
            other_graph_changes.wf(),
            changes_applicable(other_nodes, other_graph_changes@),
            crate::stitcher::valid_stitching(*s, other_nodes, this_nodes),
            0 <= compression_factor <= 0x1000_0000,
            n == other_graph_changes.entries@.len(),
            0 <= i <= n,
            ret.wf(),
            changes_applicable(this_nodes, ret@),
            forall|ii: int, j: int|
                0 <= ii < i && 0 <= j < s.list(
                    0,
                    other_graph_changes.entries@[ii].id as int,
                ).len() ==> ret@.contains_key(
                    (#[trigger] s.list(0, other_graph_changes.entries@[ii].id as int)[j]).0 as int,
                ),
            ret@ == induced_map(
                this_nodes,
                other_graph_changes.entries@,
                *s,
                compression_factor as int,
                i as int,
            ),
        decreases n - i,
    {
        let ghost row_base = ret@;
        let c = other_graph_changes.entry_at(i);
        proof {
            lemma_find_first(other_graph_changes.entries@, i as int);
            assert(covers_id(
                other_graph_changes.entries@,
                other_graph_changes.entries@.len() as int,
                c.id as int,
            ));
            assert(other_graph_changes@.contains_key(c.id as int));
            assert(change_applicable(other_nodes, c));
        }
        let affected = s.get(0, c.id);
        let m = affected.len();
        let mut a: usize = 0;
        while a < m
            invariant
                this_graph.wf(),
                other_graph.wf(),
                this_nodes == this_graph.nodes@,
                other_nodes == other_graph.nodes@,
                crate::stitcher::valid_stitching(*s, other_nodes, this_nodes),
                0 <= compression_factor <= 0x1000_0000,
                change_applicable(other_nodes, c),
                m == affected@.len(),
                m == s.list(0, c.id as int).len(),
                forall|k: int|
                    0 <= k < m ==> #[trigger] affected@[k] == s.list(0, c.id as int)[k].0,
                c == other_graph_changes.entries@[i as int],
                i < other_graph_changes.entries@.len(),
                0 <= a <= m,
                ret.wf(),
                changes_applicable(this_nodes, ret@),
                forall|ii: int, j: int|
                    0 <= ii < i && 0 <= j < s.list(
                        0,
                        other_graph_changes.entries@[ii].id as int,
                    ).len() ==> ret@.contains_key(
                        (#[trigger] s.list(
                            0,
                            other_graph_changes.entries@[ii].id as int,
                        )[j]).0 as int,
                    ),
                forall|j: int|
                    0 <= j < a ==> ret@.contains_key(
                        (#[trigger] s.list(0, c.id as int)[j]).0 as int,
                    ),
                row_base == induced_map(
                    this_nodes,
                    other_graph_changes.entries@,
                    *s,
                    compression_factor as int,
                    i as int,
                ),
                ret@ == induced_row(
                    row_base,
                    this_nodes,
                    *s,
                    c,
                    compression_factor as int,
                    a as int,
                ),
            decreases m - a,
        {
            let j = affected[a];
            proof {
                assert(s.list(0, c.id as int)[a as int].0 == j);
                assert(0 <= j < this_nodes.len());
                assert(s.list(1, j as int).len() >= 1);
            }
            let partner_count = s.layers[1].len_of(j);
            let partners = if partner_count > 0x1000_0000 {
                0x1000_0000
            } else {
                partner_count
            };
            let nc = make_induced_change(
                this_graph,
                j,
                c.cur_x,
                c.cur_y,
                compression_factor,
                partners,
            );
            proof {
                if ret@.contains_key(j as int) {
                    lemma_insert_keeps_applicable(
                        this_nodes,
                        ret@,
                        ret@.insert(j as int, averaged(ret@[j as int], nc)),
                        j as int,
                        nc,
                    );
                } else {
                    lemma_insert_keeps_applicable(
                        this_nodes,
                        ret@,
                        ret@.insert(j as int, nc),
                        j as int,
                        nc,
                    );
                }
            }
            let ghost pre_map = ret@;
            ret.insert(j, nc);
            proof {
                assert forall|k2: int| pre_map.contains_key(k2) implies ret@.contains_key(k2) by {}
                assert(ret@.contains_key(j as int));
                assert(partners as int == induced_partners(*s, j as int));
                assert(ret@ =~= insert_avg(pre_map, j as int, nc));
                assert(ret@ =~= induced_row(
                    row_base,
                    this_nodes,
                    *s,
                    c,
                    compression_factor as int,
                    a + 1,
                ));
            }
            a = a + 1;
        }
        proof {
            assert forall|ii: int, jj: int|
                0 <= ii < i + 1 && 0 <= jj < s.list(
                    0,
                    other_graph_changes.entries@[ii].id as int,
                ).len() implies ret@.contains_key(
                (#[trigger] s.list(0, other_graph_changes.entries@[ii].id as int)[jj]).0 as int,
            ) by {
                if ii == i {
                    assert(other_graph_changes.entries@[ii].id == c.id);
                }
            }
            assert(other_graph_changes.entries@[i as int] == c);
            assert(ret@ =~= induced_map(
                this_nodes,
                other_graph_changes.entries@,
                *s,
                compression_factor as int,
                i + 1,
            ));
        }
        i = i + 1;
    }
    ret
}

/// The propagation rule the annealing loop uses: see
/// [`changes_from_other_graph`].
pub fn changer_of_choice(
    inner_graph: &Graph,
    outer_graph: &Graph,
    other_graph_changes: &NodeChangeMap,
    compression_factor: i64,
    s: &Stitching,
) -> (ret: NodeChangeMap)
    requires
        inner_graph.wf(),
        outer_graph.wf(),
        other_graph_changes.wf(),
        changes_applicable(outer_graph.nodes@, other_graph_changes@),
        crate::stitcher::valid_stitching(*s, outer_graph.nodes@, inner_graph.nodes@),
        0 <= compression_factor <= 0x1000_0000,
    ensures
        ret.wf(),
        changes_applicable(inner_graph.nodes@, ret@),
        forall|ii: int, j: int|
            0 <= ii < other_graph_changes.entries@.len() && 0 <= j < s.list(
                0,
                other_graph_changes.entries@[ii].id as int,
            ).len() ==> ret@.contains_key(
                (#[trigger] s.list(0, other_graph_changes.entries@[ii].id as int)[j]).0 as int,
            ),
        ret@ == induced_map(
            inner_graph.nodes@,
            other_graph_changes.entries@,
            *s,
            compression_factor as int,
            other_graph_changes.entries@.len() as int,
        ),
{
    changes_from_other_graph(inner_graph, outer_graph, other_graph_changes, compression_factor, s)
}

} // verus!

//! Closed contours: dense arenas of nodes linked into a single cycle by
//! `next_id` / `prev_id` indices, with exact signed area and perimeter.
//!
//! Well-formedness of a contour is the existence of a cyclic order: a
//! permutation of the node identifiers along which every `next_id` points
//! to the following entry and every `prev_id` to the preceding one. All
//! mutating operations of the library preserve it.

use vstd::prelude::*;

use crate::geometry::{dist_spec, dist_sq, distance_between_points, Segment};
use crate::{COORD_LIMIT, MAX_NODES};

verus! {

/// One contour node: a fixed-point position and the identifiers of its
/// cyclic successor and predecessor. A node's own identifier is its index
/// in the owning contour's arena.
#[derive(Clone, Copy, PartialEq, Eq, Structural, Debug)]
pub struct Node {
    pub x: i64,
    pub y: i64,
    pub next_id: usize,
    pub prev_id: usize,
}

/// The node's position is inside the world box.
pub open spec fn node_in_bounds(n: Node) -> bool {
    -COORD_LIMIT <= n.x <= COORD_LIMIT && -COORD_LIMIT <= n.y <= COORD_LIMIT
}

/// Some entry of `ord` equals `id`.
pub open spec fn ord_contains(ord: Seq<int>, id: int) -> bool {
    exists|i: int| 0 <= i < ord.len() && #[trigger] ord[i] == id
}

/// `ord` lists every node identifier exactly once, and the links of the
/// arena follow it: each entry's `next_id` is the next entry and each
/// entry's `prev_id` the previous one, cyclically.
pub open spec fn valid_order(nodes: Seq<Node>, ord: Seq<int>) -> bool {
    let n = nodes.len() as int;
    &&& n >= 1
    &&& ord.len() == n
    &&& forall|i: int| 0 <= i < n ==> 0 <= #[trigger] ord[i] < n
    &&& forall|i: int, j: int| 0 <= i < j < n ==> ord[i] != ord[j]
    &&& forall|id: int| 0 <= id < n ==> #[trigger] ord_contains(ord, id)
    &&& forall|i: int| 0 <= i < n - 1 ==> (#[trigger] nodes[ord[i]]).next_id as int == ord[i + 1]
    &&& nodes[ord[n - 1]].next_id as int == ord[0]
    &&& forall|i: int| 1 <= i < n ==> (#[trigger] nodes[ord[i]]).prev_id as int == ord[i - 1]
    &&& nodes[ord[0]].prev_id as int == ord[n - 1]
}

/// The arena is non-empty, bounded, every position is in the world box,
/// and some cyclic order threads all nodes into a single cycle.
pub open spec fn wf_nodes(nodes: Seq<Node>) -> bool {
    &&& 1 <= nodes.len() <= MAX_NODES
    &&& forall|k: int| 0 <= k < nodes.len() ==> node_in_bounds(#[trigger] nodes[k])
    &&& exists|ord: Seq<int>| #[trigger] valid_order(nodes, ord)
}

/// One contour layer.
#[derive(Debug, Clone)]
pub struct Graph {
    pub nodes: Vec<Node>,
}

impl Graph {
    /// The contour's well-formedness: see [`wf_nodes`].
    pub open spec fn wf(self) -> bool {
        wf_nodes(self.nodes@)
    }

    /// Reference to the successor node of `id`.
    pub fn next(&self, id: usize) -> (r: &Node)
        requires
            self.wf(),
            id < self.nodes@.len(),
        ensures
            r == self.nodes@[self.nodes@[id as int].next_id as int],
    {
        proof {
            lemma_wf_links(*self, id as int);
        }
        &self.nodes[self.nodes[id].next_id]
    }

    /// Reference to the predecessor node of `id`.
    pub fn prev(&self, id: usize) -> (r: &Node)
        requires
            self.wf(),
            id < self.nodes@.len(),
        ensures
            r == self.nodes@[self.nodes@[id as int].prev_id as int],
    {
        proof {
            lemma_wf_links(*self, id as int);
        }
        &self.nodes[self.nodes[id].prev_id]
    }
}

impl Graph {
    /// Splices a new node with the given position between two currently
    /// adjacent nodes, allocating the next dense identifier for it. The
    /// two neighbours' links are rewritten to pass through the new node;
    /// every other node is untouched.
    pub fn insert_between(&mut self, prev_id: usize, next_id: usize, x: i64, y: i64) -> (new_id:
        usize)
        requires
            old(self).wf(),
            old(self).nodes@.len() < MAX_NODES,
            prev_id < old(self).nodes@.len(),
            next_id < old(self).nodes@.len(),
            old(self).nodes@[prev_id as int].next_id == next_id,
            -COORD_LIMIT <= x <= COORD_LIMIT,
            -COORD_LIMIT <= y <= COORD_LIMIT,
        ensures
            final(self).wf(),
            new_id == old(self).nodes@.len(),
            final(self).nodes@.len() == old(self).nodes@.len() + 1,
            final(self).nodes@[new_id as int] == (Node { x, y, next_id, prev_id }),
            final(self).nodes@[prev_id as int].next_id == new_id,
            final(self).nodes@[next_id as int].prev_id == new_id,
            forall|k: int|
                0 <= k < old(self).nodes@.len() ==> (#[trigger] final(self).nodes@[k]).x == old(
                    self,
                ).nodes@[k].x && final(self).nodes@[k].y == old(self).nodes@[k].y,
            forall|k: int|
                0 <= k < old(self).nodes@.len() && k != prev_id ==> (
                #[trigger] final(self).nodes@[k]).next_id == old(self).nodes@[k].next_id,
            forall|k: int|
                0 <= k < old(self).nodes@.len() && k != next_id ==> (
                #[trigger] final(self).nodes@[k]).prev_id == old(self).nodes@[k].prev_id,
    {
        proof {
            lemma_wf_links(*self, prev_id as int);
        }
        let new_id = self.nodes.len();
        let mut relinked_next = self.nodes[next_id];
        relinked_next.prev_id = new_id;
        self.nodes.set(next_id, relinked_next);
        let mut relinked_prev = self.nodes[prev_id];
        relinked_prev.next_id = new_id;
        self.nodes.set(prev_id, relinked_prev);
        self.nodes.push(Node { x, y, next_id, prev_id });
        proof {
            lemma_insert_keeps_order(
                old(self).nodes@,
                self.nodes@,
                prev_id as int,
                next_id as int,
            );
        }
        new_id
    }
}

/// After splicing a fresh node between the adjacent pair `prev_id`,
/// `next_id`, the arena still has a cyclic order: the old one with the new
/// identifier inserted right after `prev_id`.
#[verifier::rlimit(100)]
#[verifier::spinoff_prover]
proof fn lemma_insert_keeps_order(old_nodes: Seq<Node>, nodes: Seq<Node>, prev_id: int, next_id: int)
    requires
        exists|ord: Seq<int>| #[trigger] valid_order(old_nodes, ord),
        0 <= prev_id < old_nodes.len(),
        0 <= next_id < old_nodes.len(),
        old_nodes[prev_id].next_id as int == next_id,
        nodes.len() == old_nodes.len() + 1,
        nodes[old_nodes.len() as int].next_id as int == next_id,
        nodes[old_nodes.len() as int].prev_id as int == prev_id,
        nodes[prev_id].next_id as int == old_nodes.len(),
        nodes[next_id].prev_id as int == old_nodes.len(),
        forall|k: int|
            0 <= k < old_nodes.len() && k != prev_id ==> (#[trigger] nodes[k]).next_id
                == old_nodes[k].next_id,
        forall|k: int|
            0 <= k < old_nodes.len() && k != next_id ==> (#[trigger] nodes[k]).prev_id
                == old_nodes[k].prev_id,
    ensures
        exists|ord2: Seq<int>| #[trigger] valid_order(nodes, ord2),
{
    let n = old_nodes.len() as int;
    let ord = choose|ord: Seq<int>| #[trigger] valid_order(old_nodes, ord);
    assert(ord_contains(ord, prev_id));
    let p = choose|i: int| 0 <= i < ord.len() && #[trigger] ord[i] == prev_id;
    let ord2 = Seq::new(
        (n + 1) as nat,
        |j: int|
            if j <= p {
                ord[j]
            } else if j == p + 1 {
                n
            } else {
                ord[j - 1]
            },
    );
    // the identifier that follows prev in the old order is next
    if p < n - 1 {
        assert(old_nodes[ord[p]].next_id as int == ord[p + 1]);
        assert(ord[p + 1] == next_id);
    } else {
        assert(old_nodes[ord[n - 1]].next_id as int == ord[0]);
        assert(ord[0] == next_id);
    }
    assert forall|i: int, j: int| 0 <= i < j < n + 1 implies ord2[i] != ord2[j] by {
        if j == p + 1 {
            assert(ord2[i] < n);
        } else if i == p + 1 {
            assert(ord2[j] < n);
        }
    }
    assert forall|id: int| 0 <= id < n + 1 implies #[trigger] ord_contains(ord2, id) by {
        if id == n {
            assert(ord2[p + 1] == id);
        } else {
            assert(ord_contains(ord, id));
            let i = choose|i: int| 0 <= i < ord.len() && #[trigger] ord[i] == id;
            if i <= p {
                assert(ord2[i] == id);
            } else {
                assert(ord2[i + 1] == id);
            }
        }
    }
    assert forall|j: int| 0 <= j < n implies (#[trigger] nodes[ord2[j]]).next_id as int == ord2[j
        + 1] by {
        if j < p {
            assert(old_nodes[ord[j]].next_id as int == ord[j + 1]);
            assert(ord[j] != prev_id);
        } else if j == p {
            assert(nodes[prev_id].next_id as int == n);
        } else if j == p + 1 {
            assert(nodes[n].next_id as int == next_id);
            if p < n - 1 {
                assert(ord2[j + 1] == ord[p + 1]);
            }
        } else {
            assert(old_nodes[ord[j - 1]].next_id as int == ord[j]);
            assert(ord[j - 1] != prev_id);
        }
    }
    assert(nodes[ord2[n] as int].next_id as int == ord2[0]) by {
        if p == n - 1 {
            assert(ord2[n] == n);
        } else {
            assert(ord2[n] == ord[n - 1]);
            assert(old_nodes[ord[n - 1]].next_id as int == ord[0]);
            assert(ord[n - 1] != prev_id);
        }
    }
    assert forall|j: int| 1 <= j < n + 1 implies (#[trigger] nodes[ord2[j]]).prev_id as int
        == ord2[j - 1] by {
        if j <= p {
            assert(old_nodes[ord[j]].prev_id as int == ord[j - 1]);
            assert(ord[j] != next_id);
        } else if j == p + 1 {
            assert(nodes[n].prev_id as int == prev_id);
        } else if j == p + 2 {
            assert(ord2[j] == next_id);
            assert(nodes[next_id].prev_id as int == n);
        } else {
            assert(old_nodes[ord[j - 1]].prev_id as int == ord[j - 2]);
            assert(ord[j - 1] != next_id);
        }
    }
    assert(nodes[ord2[0] as int].prev_id as int == ord2[n]) by {
        if p == n - 1 {
            assert(ord2[0] == ord[0]);
            assert(ord[0] == next_id);
            assert(ord2[n] == n);
        } else {
            assert(ord2[0] == ord[0]);
            assert(ord[0] != next_id);
            assert(old_nodes[ord[0]].prev_id as int == ord[n - 1]);
            assert(ord2[n] == ord[n - 1]);
        }
    }
    assert(valid_order(nodes, ord2));
}

/// In an arena with a cyclic order every link lands on a live identifier
/// and the two link maps invert each other; with two or more nodes no
/// link is a self-loop.
pub proof fn lemma_links(nodes: Seq<Node>, id: int)
    requires
        exists|ord: Seq<int>| #[trigger] valid_order(nodes, ord),
        0 <= id < nodes.len(),
    ensures
        nodes[id].next_id < nodes.len(),
        nodes[id].prev_id < nodes.len(),
        nodes[nodes[id].next_id as int].prev_id == id,
        nodes[nodes[id].prev_id as int].next_id == id,
        nodes.len() >= 2 ==> nodes[id].next_id != id && nodes[id].prev_id != id,
{
    let n = nodes.len() as int;
    let ord = choose|ord: Seq<int>| #[trigger] valid_order(nodes, ord);
    assert(ord_contains(ord, id));
    let i = choose|i: int| 0 <= i < ord.len() && #[trigger] ord[i] == id;
    if i < n - 1 {
        assert(nodes[id].next_id as int == ord[i + 1]);
        if i + 1 < n - 1 || i + 1 == n - 1 {
            assert(nodes[ord[i + 1]].prev_id as int == ord[i]);
        }
    } else {
        assert(nodes[id].next_id as int == ord[0]);
        assert(nodes[ord[0]].prev_id as int == ord[n - 1]);
    }
    if i >= 1 {
        assert(nodes[id].prev_id as int == ord[i - 1]);
        if i - 1 < n - 1 {
            assert(nodes[ord[i - 1]].next_id as int == ord[i]);
        }
    } else {
        assert(nodes[id].prev_id as int == ord[n - 1]);
        assert(nodes[ord[n - 1]].next_id as int == ord[0]);
    }
}

/// In a well-formed contour every link lands on a live identifier and the
/// two link maps invert each other.
pub proof fn lemma_wf_links(g: Graph, id: int)
    requires
        g.wf(),
        0 <= id < g.nodes@.len(),
    ensures
        g.nodes@[id].next_id < g.nodes@.len(),
        g.nodes@[id].prev_id < g.nodes@.len(),
        g.nodes@[g.nodes@[id].next_id as int].prev_id == id,
        g.nodes@[g.nodes@[id].prev_id as int].next_id == id,
{
    lemma_links(g.nodes@, id);
}

/// The arena after removing node `d`: `d` is unlinked by joining its two
/// neighbours, then the last node is moved into the freed slot (its
/// neighbours' links are rewritten to the new identifier) and the arena
/// shrinks by one. Mirrors [`Graph::merge`] step for step.
#[verifier::opaque]
pub open spec fn merged_nodes(nodes: Seq<Node>, d: int) -> Seq<Node> {
    let n = nodes.len() as int;
    let pn = nodes[d].prev_id as int;
    let nn = nodes[d].next_id as int;
    let s1 = nodes.update(
        pn,
        Node {
            x: nodes[pn].x,
            y: nodes[pn].y,
            next_id: nodes[d].next_id,
            prev_id: nodes[pn].prev_id,
        },
    );
    let s2 = s1.update(
        nn,
        Node { x: s1[nn].x, y: s1[nn].y, next_id: s1[nn].next_id, prev_id: nodes[d].prev_id },
    );
    if d == n - 1 {
        s2.drop_last()
    } else {
        let mp = s2[n - 1].prev_id as int;
        let mn = s2[n - 1].next_id as int;
        let s3 = s2.update(
            mp,
            Node { x: s2[mp].x, y: s2[mp].y, next_id: d as usize, prev_id: s2[mp].prev_id },
        );
        let s4 = s3.update(
            mn,
            Node { x: s3[mn].x, y: s3[mn].y, next_id: s3[mn].next_id, prev_id: d as usize },
        );
        let s5 = s4.update(d, s4[n - 1]);
        s5.drop_last()
    }
}

impl Graph {
    /// Merges the edge leaving `prev_id` into a single node: `prev_id` is
    /// removed from the cycle, its neighbours are joined, and the last
    /// node of the arena is moved into the freed slot so that identifiers
    /// stay dense. Identifiers are not stable across this operation: the
    /// node that held the largest identifier takes over `prev_id`.
    pub fn merge(&mut self, prev_id: usize, next_id: usize)
        requires
            old(self).wf(),
            old(self).nodes@.len() >= 2,
            prev_id < old(self).nodes@.len(),
            next_id < old(self).nodes@.len(),
            old(self).nodes@[prev_id as int].next_id == next_id,
        ensures
            final(self).wf(),
            final(self).nodes@.len() == old(self).nodes@.len() - 1,
            final(self).nodes@ == merged_nodes(old(self).nodes@, prev_id as int),
            forall|k: int|
                0 <= k < final(self).nodes@.len() ==> (#[trigger] final(self).nodes@[k]).next_id
                    < final(self).nodes@.len() && final(self).nodes@[k].prev_id
                    < final(self).nodes@.len(),
    {
        proof {
            lemma_links(self.nodes@, prev_id as int);
            lemma_links(self.nodes@, old(self).nodes@.len() - 1);
        }
        let ghost old_nodes = self.nodes@;
        let d = prev_id;
        let n = self.nodes.len();
        let pn = self.nodes[d].prev_id;
        let nn = self.nodes[d].next_id;
        let mut joined_prev = self.nodes[pn];
        joined_prev.next_id = nn;
        self.nodes.set(pn, joined_prev);
        let mut joined_next = self.nodes[nn];
        joined_next.prev_id = pn;
        self.nodes.set(nn, joined_next);
        let last = n - 1;
        if d != last {
            let mp = self.nodes[last].prev_id;
            let mn = self.nodes[last].next_id;
            proof {
                assert(mp < n && mn < n) by {
                    if last == nn || last == pn {
                    } else {
                        assert(self.nodes@[last as int].prev_id == old_nodes[last as int].prev_id);
                        assert(self.nodes@[last as int].next_id == old_nodes[last as int].next_id);
                    }
                }
            }
            let mut moved_prev = self.nodes[mp];
            moved_prev.next_id = d;
            self.nodes.set(mp, moved_prev);
            let mut moved_next = self.nodes[mn];
            moved_next.prev_id = d;
            self.nodes.set(mn, moved_next);
            let moved = self.nodes[last];
            self.nodes.set(d, moved);
        }
        let _ = self.nodes.pop();
        proof {
            assert(self.nodes@ =~= merged_nodes(old_nodes, d as int)) by {
                reveal(merged_nodes);
            }
            lemma_merge_keeps_order(old_nodes, self.nodes@, d as int);
            assert(forall|k: int|
                0 <= k < self.nodes@.len() ==> node_in_bounds(#[trigger] self.nodes@[k]));
            assert forall|k: int| 0 <= k < self.nodes@.len() implies (
            #[trigger] self.nodes@[k]).next_id < self.nodes@.len() && self.nodes@[k].prev_id
                < self.nodes@.len() by {
                lemma_links(self.nodes@, k);
            }
        }
    }
}

/// Which identifier a surviving node carries after the merge of `d` out
/// of an arena of `n` nodes: the old last node takes over `d`, everyone
/// else keeps its own.
pub open spec fn merged_id(v: int, d: int, n: int) -> int {
    if v == n - 1 {
        d
    } else {
        v
    }
}

/// Where a survivor `v` of the merge of `d` ends up and what its fields
/// become: position kept, links redirected around `d` and renamed.
pub open spec fn survivor_ok(old_nodes: Seq<Node>, nodes: Seq<Node>, d: int, v: int) -> bool {
    let n = old_nodes.len() as int;
    let pn = old_nodes[d].prev_id as int;
    let nn = old_nodes[d].next_id as int;
    let w = nodes[merged_id(v, d, n)];
    &&& w.x == old_nodes[v].x
    &&& w.y == old_nodes[v].y
    &&& w.next_id as int == merged_id(
        if v == pn {
            nn
        } else {
            old_nodes[v].next_id as int
        },
        d,
        n,
    )
    &&& w.prev_id as int == merged_id(
        if v == nn {
            pn
        } else {
            old_nodes[v].prev_id as int
        },
        d,
        n,
    )
}

/// One survivor of a merge keeps its position and gets its links
/// redirected around the removed node, under renamed identifiers.
#[verifier::rlimit(100)]
#[verifier::spinoff_prover]
proof fn lemma_merge_survivor_one(old_nodes: Seq<Node>, nodes: Seq<Node>, d: int, v: int)
    requires
        exists|ord: Seq<int>| #[trigger] valid_order(old_nodes, ord),
        old_nodes.len() >= 2,
        0 <= d < old_nodes.len(),
        nodes == merged_nodes(old_nodes, d),
        0 <= v < old_nodes.len(),
        v != d,
    ensures
        survivor_ok(old_nodes, nodes, d, v),
{
    reveal(merged_nodes);
    let n = old_nodes.len() as int;
    let pn = old_nodes[d].prev_id as int;
    let nn = old_nodes[d].next_id as int;
    lemma_links(old_nodes, d);
    lemma_links(old_nodes, v);
    lemma_links(old_nodes, n - 1);
    let s2_last_prev = if n - 1 == nn {
        pn
    } else {
        old_nodes[n - 1].prev_id as int
    };
    let s2_last_next = if n - 1 == pn {
        nn
    } else {
        old_nodes[n - 1].next_id as int
    };
    assert(old_nodes[v].next_id as int == d ==> v == pn) by {
        if old_nodes[v].next_id as int == d {
            assert(old_nodes[old_nodes[v].next_id as int].prev_id == v);
        }
    }
    assert(old_nodes[v].prev_id as int == d ==> v == nn) by {
        if old_nodes[v].prev_id as int == d {
            assert(old_nodes[old_nodes[v].prev_id as int].next_id == v);
        }
    }
    if d != n - 1 {
        assert(s2_last_prev != d) by {
            if n - 1 != nn && old_nodes[n - 1].prev_id as int == d {
                assert(old_nodes[old_nodes[n - 1].prev_id as int].next_id == n - 1);
            }
        }
        assert(s2_last_next != d) by {
            if n - 1 != pn && old_nodes[n - 1].next_id as int == d {
                assert(old_nodes[old_nodes[n - 1].next_id as int].prev_id == n - 1);
            }
        }
    }
}

/// Merging shrinks the arena by exactly one slot.
proof fn lemma_merged_len(old_nodes: Seq<Node>, d: int)
    requires
        exists|ord: Seq<int>| #[trigger] valid_order(old_nodes, ord),
        old_nodes.len() >= 2,
        0 <= d < old_nodes.len(),
    ensures
        merged_nodes(old_nodes, d).len() == old_nodes.len() - 1,
{
    reveal(merged_nodes);
    lemma_links(old_nodes, d);
    lemma_links(old_nodes, old_nodes.len() - 1);
}

/// The quantified form of [`lemma_merge_survivor_one`].
proof fn lemma_merge_survivors(old_nodes: Seq<Node>, nodes: Seq<Node>, d: int)
    requires
        exists|ord: Seq<int>| #[trigger] valid_order(old_nodes, ord),
        old_nodes.len() >= 2,
        0 <= d < old_nodes.len(),
        nodes == merged_nodes(old_nodes, d),
    ensures
        nodes.len() == old_nodes.len() - 1,
        forall|v: int|
            0 <= v < old_nodes.len() && v != d ==> #[trigger] survivor_ok(old_nodes, nodes, d, v),
{
    lemma_merged_len(old_nodes, d);
    assert forall|v: int| 0 <= v < old_nodes.len() && v != d implies #[trigger] survivor_ok(
        old_nodes,
        nodes,
        d,
        v,
    ) by {
        lemma_merge_survivor_one(old_nodes, nodes, d, v);
    }
}

/// After merging out node `d`, the arena still has a cyclic order: the
/// old one with `d` dropped and the moved node renamed.
#[verifier::rlimit(100)]
#[verifier::spinoff_prover]
proof fn lemma_merge_keeps_order(old_nodes: Seq<Node>, nodes: Seq<Node>, d: int)
    requires
        exists|ord: Seq<int>| #[trigger] valid_order(old_nodes, ord),
        old_nodes.len() >= 2,
        0 <= d < old_nodes.len(),
        nodes == merged_nodes(old_nodes, d),
    ensures
        exists|ord2: Seq<int>| #[trigger] valid_order(nodes, ord2),
{
    let n = old_nodes.len() as int;
    let pn = old_nodes[d].prev_id as int;
    let nn = old_nodes[d].next_id as int;
    lemma_links(old_nodes, d);
    lemma_merge_survivors(old_nodes, nodes, d);
    let ord = choose|ord: Seq<int>| #[trigger] valid_order(old_nodes, ord);
    assert(ord_contains(ord, d));
    let q = choose|i: int| 0 <= i < ord.len() && #[trigger] ord[i] == d;
    let ord2 = Seq::new(
        (n - 1) as nat,
        |j: int|
            merged_id(
                if j < q {
                    ord[j]
                } else {
                    ord[j + 1]
                },
                d,
                n,
            ),
    );
    assert forall|i: int| 0 <= i < n - 1 implies 0 <= #[trigger] ord2[i] < n - 1 by {
        let vi = if i < q {
            ord[i]
        } else {
            ord[i + 1]
        };
        assert(vi != d);
    }
    assert forall|i: int, j: int| 0 <= i < j < n - 1 implies ord2[i] != ord2[j] by {
        let vi = if i < q {
            ord[i]
        } else {
            ord[i + 1]
        };
        let vj = if j < q {
            ord[j]
        } else {
            ord[j + 1]
        };
        assert(vi != vj);
        assert(vi != d && vj != d);
    }
    assert forall|id: int| 0 <= id < n - 1 implies #[trigger] ord_contains(ord2, id) by {
        let target = if id == d {
            n - 1
        } else {
            id
        };
        assert(ord_contains(ord, target));
        let i = choose|i: int| 0 <= i < ord.len() && #[trigger] ord[i] == target;
        assert(i != q);
        if i < q {
            assert(ord2[i] == id);
        } else {
            assert(ord2[i - 1] == id);
        }
    }
    // the identifiers surrounding d in the old order
    let before = if q >= 1 {
        ord[q - 1]
    } else {
        ord[n - 1]
    };
    let after = if q < n - 1 {
        ord[q + 1]
    } else {
        ord[0]
    };
    assert(before == pn && after == nn) by {
        if q >= 1 {
            assert(old_nodes[ord[q - 1]].next_id as int == ord[q]);
        } else {
            assert(old_nodes[ord[n - 1]].next_id as int == ord[0]);
        }
        if q < n - 1 {
            assert(old_nodes[ord[q]].next_id as int == ord[q + 1]);
        } else {
            assert(old_nodes[ord[n - 1]].next_id as int == ord[0]);
        }
    }
    assert forall|j: int| 0 <= j < n - 2 implies nodes[#[trigger] ord2[j]].next_id as int == ord2[j
        + 1] by {
        let vj = if j < q {
            ord[j]
        } else {
            ord[j + 1]
        };
        let vj1 = if j + 1 < q {
            ord[j + 1]
        } else {
            ord[j + 2]
        };
        assert(vj != d && vj1 != d);
        assert(ord2[j] == merged_id(vj, d, n));
        assert(ord2[j + 1] == merged_id(vj1, d, n));
        assert(survivor_ok(old_nodes, nodes, d, vj));
        if j + 1 == q {
            assert(vj == pn && vj1 == nn);
        } else {
            assert(old_nodes[vj].next_id as int == vj1);
            assert(vj != pn) by {
                if vj == pn {
                    assert(old_nodes[pn].next_id as int == d);
                }
            }
        }
    }
    assert(nodes[ord2[n - 2]].next_id as int == ord2[0]) by {
        let vlast = if n - 2 < q {
            ord[n - 2]
        } else {
            ord[n - 1]
        };
        let vfirst = if 0 < q {
            ord[0]
        } else {
            ord[1]
        };
        assert(ord2[n - 2] == merged_id(vlast, d, n));
        assert(ord2[0] == merged_id(vfirst, d, n));
        assert(survivor_ok(old_nodes, nodes, d, vlast));
        if q == n - 1 {
            assert(vlast == pn && vfirst == nn);
        } else if q == 0 {
            assert(vlast == ord[n - 1] && vfirst == ord[1]);
            if vlast == pn {
                assert(old_nodes[pn].next_id as int == d);
                assert(old_nodes[ord[n - 1]].next_id as int == ord[0]);
                assert(vfirst == nn);
            } else {
                assert(old_nodes[vlast].next_id as int == ord[0]);
                assert(ord[0] == d);
                assert(vlast == pn);
            }
        } else {
            assert(vlast == ord[n - 1] && vfirst == ord[0]);
            assert(old_nodes[vlast].next_id as int == ord[0]);
            assert(vlast != pn) by {
                if vlast == pn {
                    assert(old_nodes[pn].next_id as int == d);
                    assert(ord[0] == d);
                }
            }
        }
    }
    assert forall|j: int| 1 <= j < n - 1 implies nodes[#[trigger] ord2[j]].prev_id as int == ord2[j
        - 1] by {
        let vj = if j < q {
            ord[j]
        } else {
            ord[j + 1]
        };
        let vj1 = if j - 1 < q {
            ord[j - 1]
        } else {
            ord[j]
        };
        assert(vj != d && vj1 != d);
        assert(ord2[j] == merged_id(vj, d, n));
        assert(ord2[j - 1] == merged_id(vj1, d, n));
        assert(survivor_ok(old_nodes, nodes, d, vj));
        if j == q {
            assert(vj == nn && vj1 == pn);
        } else {
            assert(old_nodes[vj].prev_id as int == vj1);
            assert(vj != nn) by {
                if vj == nn {
                    assert(old_nodes[nn].prev_id as int == d);
                }
            }
        }
    }
    assert(nodes[ord2[0]].prev_id as int == ord2[n - 2]) by {
        let vfirst = if 0 < q {
            ord[0]
        } else {
            ord[1]
        };
        let vlast = if n - 2 < q {
            ord[n - 2]
        } else {
            ord[n - 1]
        };
        assert(ord2[0] == merged_id(vfirst, d, n));
        assert(ord2[n - 2] == merged_id(vlast, d, n));
        assert(survivor_ok(old_nodes, nodes, d, vfirst));
        if q == 0 {
            assert(vfirst == nn && vlast == ord[n - 1]);
            assert(old_nodes[ord[0]].prev_id as int == ord[n - 1]);
            assert(vlast == pn);
        } else if q == n - 1 {
            assert(vfirst == ord[0] && vlast == ord[n - 2]);
            assert(old_nodes[ord[0]].prev_id as int == ord[n - 1]);
            assert(ord[n - 1] == d);
            assert(vfirst == nn);
            assert(vlast == pn);
        } else {
            assert(vfirst == ord[0] && vlast == ord[n - 1]);
            assert(old_nodes[vfirst].prev_id as int == ord[n - 1]);
            assert(vfirst != nn) by {
                if vfirst == nn {
                    assert(old_nodes[nn].prev_id as int == d);
                    assert(ord[n - 1] == d);
                }
            }
        }
    }
    assert(valid_order(nodes, ord2));
}

/// The identifier reached from `start` by following `next_id` exactly `k`
/// times.
pub open spec fn walk_next(nodes: Seq<Node>, start: int, k: nat) -> int
    decreases k,
{
    if k == 0 {
        start
    } else {
        nodes[walk_next(nodes, start, (k - 1) as nat)].next_id as int
    }
}

proof fn lemma_walk_in_order(nodes: Seq<Node>, ord: Seq<int>, i: int, k: nat)
    requires
        valid_order(nodes, ord),
        0 <= i < ord.len(),
        k <= ord.len(),
    ensures
        walk_next(nodes, ord[i], k) == if i + k < ord.len() {
            ord[i + k]
        } else {
            ord[i + k - ord.len()]
        },
    decreases k,
{
    let n = ord.len() as int;
    if k > 0 {
        lemma_walk_in_order(nodes, ord, i, (k - 1) as nat);
        let j = if i + k - 1 < n {
            i + k - 1
        } else {
            i + k - 1 - n
        };
        assert(walk_next(nodes, ord[i], (k - 1) as nat) == ord[j]);
        if j < n - 1 {
            assert(nodes[ord[j]].next_id as int == ord[j + 1]);
        } else {
            assert(nodes[ord[n - 1]].next_id as int == ord[0]);
        }
    }
}

/// The identifier reached from `start` by following `prev_id` exactly `k`
/// times.
pub open spec fn walk_prev(nodes: Seq<Node>, start: int, k: nat) -> int
    decreases k,
{
    if k == 0 {
        start
    } else {
        nodes[walk_prev(nodes, start, (k - 1) as nat)].prev_id as int
    }
}

proof fn lemma_walk_prev_in_order(nodes: Seq<Node>, ord: Seq<int>, i: int, k: nat)
    requires
        valid_order(nodes, ord),
        0 <= i < ord.len(),
        k <= ord.len(),
    ensures
        walk_prev(nodes, ord[i], k) == if i - k >= 0 {
            ord[i - k]
        } else {
            ord[i - k + ord.len()]
        },
    decreases k,
{
    let n = ord.len() as int;
    if k > 0 {
        lemma_walk_prev_in_order(nodes, ord, i, (k - 1) as nat);
        let j = if i - (k - 1) >= 0 {
            i - (k - 1)
        } else {
            i - (k - 1) + n
        };
        assert(walk_prev(nodes, ord[i], (k - 1) as nat) == ord[j]);
        if j >= 1 {
            assert(nodes[ord[j]].prev_id as int == ord[j - 1]);
        } else {
            assert(nodes[ord[0]].prev_id as int == ord[n - 1]);
        }
    }
}

/// Walks of any length stay on live identifiers.
pub proof fn lemma_walk_in_range(nodes: Seq<Node>, start: int, k: nat)
    requires
        wf_nodes(nodes),
        0 <= start < nodes.len(),
    ensures
        0 <= walk_next(nodes, start, k) < nodes.len(),
        0 <= walk_prev(nodes, start, k) < nodes.len(),
    decreases k,
{
    if k > 0 {
        lemma_walk_in_range(nodes, start, (k - 1) as nat);
        lemma_links(nodes, walk_next(nodes, start, (k - 1) as nat));
        lemma_links(nodes, walk_prev(nodes, start, (k - 1) as nat));
    }
}

/// A walk of fewer steps than the contour length never returns to its
/// start, in either direction, and always lands on a live identifier.
pub proof fn lemma_walk_avoids_start(nodes: Seq<Node>, start: int, k: nat)
    requires
        wf_nodes(nodes),
        0 <= start < nodes.len(),
        k < nodes.len(),
    ensures
        0 <= walk_next(nodes, start, k) < nodes.len(),
        0 <= walk_prev(nodes, start, k) < nodes.len(),
        k > 0 ==> walk_next(nodes, start, k) != start,
        k > 0 ==> walk_prev(nodes, start, k) != start,
{
    let n = nodes.len() as int;
    let ord = choose|ord: Seq<int>| #[trigger] valid_order(nodes, ord);
    assert(ord_contains(ord, start));
    let i = choose|i: int| 0 <= i < ord.len() && #[trigger] ord[i] == start;
    lemma_walk_in_order(nodes, ord, i, k);
    lemma_walk_prev_in_order(nodes, ord, i, k);
    if k > 0 {
        let jn = if i + k < n {
            i + k
        } else {
            i + k - n
        };
        let jp = if i - k >= 0 {
            i - k
        } else {
            i - k + n
        };
        assert(jn != i && jp != i);
        if jn < i {
            assert(ord[jn] != ord[i]);
        } else {
            assert(ord[i] != ord[jn]);
        }
        if jp < i {
            assert(ord[jp] != ord[i]);
        } else {
            assert(ord[i] != ord[jp]);
        }
    }
}

/// Some number of `next_id` steps below the contour length leads from
/// `start` to `id`.
pub open spec fn walk_reaches(nodes: Seq<Node>, start: int, id: int) -> bool {
    exists|k: nat| k < nodes.len() && #[trigger] walk_next(nodes, start, k) == id
}

/// Following `next_id` from any node of a well-formed contour comes back
/// to that node after exactly `len` steps, and the first `len` stops are
/// pairwise distinct and cover every identifier: the links form one cycle
/// through all nodes, with no sub-cycles.
pub proof fn lemma_cycle_walk(g: Graph, start: int)
    requires
        g.wf(),
        0 <= start < g.nodes@.len(),
    ensures
        walk_next(g.nodes@, start, g.nodes@.len() as nat) == start,
        forall|k1: nat, k2: nat|
            k1 < k2 < g.nodes@.len() ==> #[trigger] walk_next(g.nodes@, start, k1)
                != #[trigger] walk_next(g.nodes@, start, k2),
        forall|id: int| 0 <= id < g.nodes@.len() ==> #[trigger] walk_reaches(g.nodes@, start, id),
{
    let nodes = g.nodes@;
    let n = nodes.len() as int;
    let ord = choose|ord: Seq<int>| #[trigger] valid_order(nodes, ord);
    assert(ord_contains(ord, start));
    let i = choose|i: int| 0 <= i < ord.len() && #[trigger] ord[i] == start;
    lemma_walk_in_order(nodes, ord, i, n as nat);
    assert(walk_next(nodes, start, n as nat) == start);
    assert forall|k1: nat, k2: nat| k1 < k2 < n implies #[trigger] walk_next(nodes, start, k1)
        != #[trigger] walk_next(nodes, start, k2) by {
        lemma_walk_in_order(nodes, ord, i, k1);
        lemma_walk_in_order(nodes, ord, i, k2);
        let j1 = if i + k1 < n {
            i + k1
        } else {
            i + k1 - n
        };
        let j2 = if i + k2 < n {
            i + k2
        } else {
            i + k2 - n
        };
        assert(j1 != j2);
        if j1 < j2 {
            assert(ord[j1] != ord[j2]);
        } else {
            assert(ord[j2] != ord[j1]);
        }
    }
    assert forall|id: int| 0 <= id < n implies #[trigger] walk_reaches(nodes, start, id) by {
        assert(ord_contains(ord, id));
        let m = choose|m: int| 0 <= m < ord.len() && #[trigger] ord[m] == id;
        let k = if m >= i {
            (m - i) as nat
        } else {
            (m - i + n) as nat
        };
        lemma_walk_in_order(nodes, ord, i, k);
        assert(walk_next(nodes, start, k) == id);
    }
}

/// Identifier of the outer layer in a [`ThickSurface`].
pub const OUTER: usize = 0;

/// Identifier of the inner layer in a [`ThickSurface`].
pub const INNER: usize = 1;

/// The gray-matter shell: exactly two contours, outer then inner.
#[derive(Debug, Clone)]
pub struct ThickSurface {
    pub layers: Vec<Graph>,
}

impl ThickSurface {
    /// Both layers are present and well-formed.
    pub open spec fn wf(self) -> bool {
        &&& self.layers@.len() == 2
        &&& self.layers@[OUTER as int].wf()
        &&& self.layers@[INNER as int].wf()
    }

    /// Pairs an outer and an inner contour into a surface.
    pub fn new(outer: Graph, inner: Graph) -> (ts: ThickSurface)
        requires
            outer.wf(),
            inner.wf(),
        ensures
            ts.wf(),
            ts.layers@[OUTER as int] == outer,
            ts.layers@[INNER as int] == inner,
    {
        let mut layers: Vec<Graph> = Vec::new();
        layers.push(outer);
        layers.push(inner);
        ThickSurface { layers }
    }
}

/// Builds the contour that visits the given points in order: node `i`
/// sits at `coords[i]`, follows node `i - 1` and precedes node `i + 1`,
/// cyclically.
pub fn cyclic_graph_from_coords(node_coordinates: &Vec<(i64, i64)>) -> (g: Graph)
    requires
        1 <= node_coordinates@.len() <= MAX_NODES,
        forall|i: int|
            0 <= i < node_coordinates@.len() ==> -COORD_LIMIT <= #[trigger] node_coordinates@[i].0
                <= COORD_LIMIT && -COORD_LIMIT <= node_coordinates@[i].1 <= COORD_LIMIT,
    ensures
        g.wf(),
        g.nodes@.len() == node_coordinates@.len(),
        forall|i: int|
            0 <= i < g.nodes@.len() ==> (#[trigger] g.nodes@[i]).x == node_coordinates@[i].0
                && g.nodes@[i].y == node_coordinates@[i].1,
        forall|i: int|
            0 <= i < g.nodes@.len() - 1 ==> (#[trigger] g.nodes@[i]).next_id == i + 1,
        g.nodes@[g.nodes@.len() - 1].next_id == 0,
        forall|i: int| 1 <= i < g.nodes@.len() ==> (#[trigger] g.nodes@[i]).prev_id == i - 1,
        g.nodes@[0].prev_id == g.nodes@.len() - 1,
{
    let num_points = node_coordinates.len();
    let mut nodes: Vec<Node> = Vec::new();
    nodes.push(
        Node {
            x: node_coordinates[0].0,
            y: node_coordinates[0].1,
            next_id: if num_points == 1 {
                0
            } else {
                1
            },
            prev_id: num_points - 1,
        },
    );
    let mut i: usize = 1;
    while i < num_points
        invariant
            1 <= i <= num_points,
            num_points == node_coordinates@.len(),
            nodes@.len() == i,
            forall|k: int|
                0 <= k < i ==> (#[trigger] nodes@[k]).x == node_coordinates@[k].0 && nodes@[k].y
                    == node_coordinates@[k].1,
            forall|k: int|
                0 <= k < i ==> (#[trigger] nodes@[k]).next_id == if k == num_points - 1 {
                    0int
                } else {
                    k + 1
                },
            forall|k: int|
                0 <= k < i ==> (#[trigger] nodes@[k]).prev_id == if k == 0 {
                    num_points - 1
                } else {
                    k - 1
                },
        decreases num_points - i,
    {
        let new_node = Node {
            x: node_coordinates[i].0,
            y: node_coordinates[i].1,
            next_id: if i + 1 == num_points {
                0
            } else {
                i + 1
            },
            prev_id: i - 1,
        };
        nodes.push(new_node);
        i = i + 1;
    }
    let g = Graph { nodes };
    proof {
        let n = g.nodes@.len() as int;
        let ord = Seq::new(n as nat, |k: int| k);
        assert forall|id: int| 0 <= id < n implies #[trigger] ord_contains(ord, id) by {
            assert(ord[id] == id);
        }
        assert(valid_order(g.nodes@, ord));
    }
    g
}

/// One term of the doubled shoelace sum: `x_i * (y_next - y_prev)`.
pub open spec fn shoelace_term(nodes: Seq<Node>, i: int) -> int {
    nodes[i].x * (nodes[nodes[i].next_id as int].y - nodes[nodes[i].prev_id as int].y)
}

/// Sum of the first `k` shoelace terms.
pub open spec fn shoelace_sum(nodes: Seq<Node>, k: int) -> int
    decreases k,
{
    if k <= 0 {
        0
    } else {
        shoelace_sum(nodes, k - 1) + shoelace_term(nodes, k - 1)
    }
}

/// Twice the signed area of the contour, in ticks squared: the full
/// doubled shoelace sum over the cyclic order. Positive for a
/// counter-clockwise contour.
pub open spec fn area2_spec(nodes: Seq<Node>) -> int {
    shoelace_sum(nodes, nodes.len() as int)
}

proof fn lemma_shoelace_term_bound(nodes: Seq<Node>, i: int)
    requires
        0 <= i < nodes.len(),
        nodes[i].next_id < nodes.len(),
        nodes[i].prev_id < nodes.len(),
        forall|k: int| 0 <= k < nodes.len() ==> node_in_bounds(#[trigger] nodes[k]),
    ensures
        -0x4000_0000_0000i128 <= shoelace_term(nodes, i) <= 0x4000_0000_0000i128,
{
    let x = nodes[i].x as int;
    let d = nodes[nodes[i].next_id as int].y - nodes[nodes[i].prev_id as int].y;
    assert(-0x4000_0000_0000 <= x * d <= 0x4000_0000_0000) by (nonlinear_arith)
        requires
            -0x40_0000 <= x <= 0x40_0000,
            -0x80_0000 <= d <= 0x80_0000,
    ;
}

/// Twice the signed area enclosed by the contour, exactly the doubled
/// shoelace sum. The caller halves it; keeping it doubled keeps it an
/// integer.
pub fn area(g: &Graph) -> (a2: i128)
    requires
        g.wf(),
    ensures
        a2 == area2_spec(g.nodes@),
        -0x1000_0000_0000_0000i128 <= a2 <= 0x1000_0000_0000_0000i128,
{
    let n = g.nodes.len();
    let mut ret: i128 = 0;
    let mut i: usize = 0;
    while i < n
        invariant
            g.wf(),
            n == g.nodes@.len(),
            0 <= i <= n,
            ret == shoelace_sum(g.nodes@, i as int),
            -0x4000_0000_0000i128 * (i as i128) <= ret <= 0x4000_0000_0000i128 * (i as i128),
        decreases n - i,
    {
        proof {
            lemma_wf_links(*g, i as int);
            lemma_shoelace_term_bound(g.nodes@, i as int);
        }
        let node = g.nodes[i];
        let nxt = g.nodes[node.next_id];
        let prv = g.nodes[node.prev_id];
        let term: i128 = (node.x as i128) * ((nxt.y as i128) - (prv.y as i128));
        proof {
            assert(term == shoelace_term(g.nodes@, i as int));
        }
        ret = ret + term;
        i = i + 1;
    }
    proof {
        assert(0x4000_0000_0000i128 * (n as i128) <= 0x1000_0000_0000_0000i128)
            by (nonlinear_arith)
            requires
                n <= MAX_NODES,
        ;
    }
    ret
}

/// Twice the area between the outer and the inner contour, in ticks
/// squared.
pub fn gray_matter_area(ts: &ThickSurface) -> (a2: i128)
    requires
        ts.wf(),
    ensures
        a2 == area2_spec(ts.layers@[OUTER as int].nodes@) - area2_spec(
            ts.layers@[INNER as int].nodes@,
        ),
{
    let outer_area = area(&ts.layers[OUTER]);
    let inner_area = area(&ts.layers[INNER]);
    outer_area - inner_area
}

/// Length of the edge leaving node `i`, rounded toward zero.
pub open spec fn edge_length(nodes: Seq<Node>, i: int) -> int {
    dist_spec(
        nodes[i].x as int,
        nodes[i].y as int,
        nodes[nodes[i].next_id as int].x as int,
        nodes[nodes[i].next_id as int].y as int,
    )
}

/// Sum of the lengths of the edges leaving the first `k` nodes.
pub open spec fn perimeter_sum(nodes: Seq<Node>, k: int) -> int
    decreases k,
{
    if k <= 0 {
        0
    } else {
        perimeter_sum(nodes, k - 1) + edge_length(nodes, k - 1)
    }
}

/// The contour's perimeter: the sum over every node of the distance to
/// its successor, each rounded toward zero.
pub fn perimeter(g: &Graph) -> (p: i64)
    requires
        g.wf(),
    ensures
        p == perimeter_sum(g.nodes@, g.nodes@.len() as int),
        p >= 0,
{
    let n = g.nodes.len();
    let mut ret: i64 = 0;
    let mut i: usize = 0;
    while i < n
        invariant
            g.wf(),
            n == g.nodes@.len(),
            0 <= i <= n,
            ret == perimeter_sum(g.nodes@, i as int),
            0 <= ret <= 0x200_0000i64 * (i as i64),
        decreases n - i,
    {
        proof {
            lemma_wf_links(*g, i as int);
        }
        let node = g.nodes[i];
        let nxt = g.nodes[node.next_id];
        let d = distance_between_nodes(&node, &nxt);
        proof {
            assert(d as int == edge_length(g.nodes@, i as int));
        }
        ret = ret + d;
        i = i + 1;
    }
    ret
}

/// Identifier of a node whose squared distance to the given point is
/// minimal; ties go to the smallest identifier.
pub fn closest_node_to_some_point(graph: &Graph, some_point_x: i64, some_point_y: i64) -> (id:
    usize)
    requires
        graph.wf(),
        -COORD_LIMIT <= some_point_x <= COORD_LIMIT,
        -COORD_LIMIT <= some_point_y <= COORD_LIMIT,
    ensures
        id < graph.nodes@.len(),
        forall|k: int|
            0 <= k < graph.nodes@.len() ==> dist_sq(
                graph.nodes@[id as int].x as int,
                graph.nodes@[id as int].y as int,
                some_point_x as int,
                some_point_y as int,
            ) <= dist_sq(
                (#[trigger] graph.nodes@[k]).x as int,
                graph.nodes@[k].y as int,
                some_point_x as int,
                some_point_y as int,
            ),
{
    let n = graph.nodes.len();
    let mut best: usize = 0;
    let mut best_d: u128 = node_point_dist_sq(&graph.nodes[0], some_point_x, some_point_y);
    let mut i: usize = 1;
    while i < n
        invariant
            graph.wf(),
            -COORD_LIMIT <= some_point_x <= COORD_LIMIT,
            -COORD_LIMIT <= some_point_y <= COORD_LIMIT,
            n == graph.nodes@.len(),
            1 <= i <= n,
            best < i,
            best_d == dist_sq(
                graph.nodes@[best as int].x as int,
                graph.nodes@[best as int].y as int,
                some_point_x as int,
                some_point_y as int,
            ),
            forall|k: int|
                0 <= k < i ==> best_d <= dist_sq(
                    (#[trigger] graph.nodes@[k]).x as int,
                    graph.nodes@[k].y as int,
                    some_point_x as int,
                    some_point_y as int,
                ),
        decreases n - i,
    {
        let d = node_point_dist_sq(&graph.nodes[i], some_point_x, some_point_y);
        if d < best_d {
            best = i;
            best_d = d;
        }
        i = i + 1;
    }
    best
}

/// Exact squared distance from a node to a point.
fn node_point_dist_sq(n: &Node, px: i64, py: i64) -> (d: u128)
    requires
        node_in_bounds(*n),
        -COORD_LIMIT <= px <= COORD_LIMIT,
        -COORD_LIMIT <= py <= COORD_LIMIT,
    ensures
        d == dist_sq(n.x as int, n.y as int, px as int, py as int),
{
    let dx: i128 = (n.x as i128) - (px as i128);
    let dy: i128 = (n.y as i128) - (py as i128);
    proof {
        assert(0 <= dx * dx <= 0x1_0000_0000_0000i128 && 0 <= dy * dy <= 0x1_0000_0000_0000i128)
            by (nonlinear_arith)
            requires
                -0x80_0000 <= dx <= 0x80_0000,
                -0x80_0000 <= dy <= 0x80_0000,
        ;
    }
    (dx * dx + dy * dy) as u128
}

/// Euclidean distance between two nodes, rounded toward zero.
pub fn distance_between_nodes(n1: &Node, n2: &Node) -> (d: i64)
    requires
        node_in_bounds(*n1),
        node_in_bounds(*n2),
    ensures
        d == dist_spec(n1.x as int, n1.y as int, n2.x as int, n2.y as int),
        0 <= d <= 0x200_0000,
{
    let d = distance_between_points(n1.x, n1.y, n2.x, n2.y);
    proof {
        let dsq = dist_sq(n1.x as int, n1.y as int, n2.x as int, n2.y as int);
        crate::geometry::lemma_dist_sq_bounds(
            n1.x as int,
            n1.y as int,
            n2.x as int,
            n2.y as int,
            COORD_LIMIT as int,
        );
        crate::geometry::lemma_sqrt_of(dsq);
        assert(d <= 0x200_0000) by (nonlinear_arith)
            requires
                0 <= d,
                (d as int) * (d as int) <= dsq,
                dsq <= 0x8000_0000_0000,
        ;
    }
    d
}

/// The next free identifier of the arena (identifiers are dense).
pub fn available_node_id(g: &Graph) -> (id: usize)
    ensures
        id == g.nodes@.len(),
{
    g.nodes.len()
}

/// The segments of all edges of the contour, one per node, in identifier
/// order.
pub fn graph_to_lines(g: &Graph) -> (lines: Vec<Segment>)
    requires
        g.wf(),
    ensures
        lines@.len() == g.nodes@.len(),
        forall|i: int|
            0 <= i < lines@.len() ==> #[trigger] lines@[i] == (Segment {
                x1: g.nodes@[i].x,
                y1: g.nodes@[i].y,
                x2: g.nodes@[g.nodes@[i].next_id as int].x,
                y2: g.nodes@[g.nodes@[i].next_id as int].y,
            }),
{
    let n = g.nodes.len();
    let mut ret: Vec<Segment> = Vec::new();
    let mut i: usize = 0;
    while i < n
        invariant
            g.wf(),
            n == g.nodes@.len(),
            0 <= i <= n,
            ret@.len() == i,
            forall|k: int|
                0 <= k < i ==> #[trigger] ret@[k] == (Segment {
                    x1: g.nodes@[k].x,
                    y1: g.nodes@[k].y,
                    x2: g.nodes@[g.nodes@[k].next_id as int].x,
                    y2: g.nodes@[g.nodes@[k].next_id as int].y,
                }),
        decreases n - i,
    {
        proof {
            lemma_wf_links(*g, i as int);
        }
        let node = g.nodes[i];
        let nxt = g.nodes[node.next_id];
        ret.push(Segment { x1: node.x, y1: node.y, x2: nxt.x, y2: nxt.y });
        i = i + 1;
    }
    ret
}


/// A node ready to be spliced into a contour between `n.prev_id` and
/// `n.next_id`; its identifier will be the next free one.
#[derive(Debug, Clone, Copy, PartialEq, Eq, Structural)]
pub struct NodeAddition {
    pub n: Node,
}

/// Midpoint coordinate of two coordinates, rounded toward zero.
pub open spec fn mid_tz(a: int, b: int) -> int {
    if a + b >= 0 {
        (a + b) / 2
    } else {
        -((-(a + b)) / 2)
    }
}

fn mid_of(a: i64, b: i64) -> (r: i64)
    requires
        -COORD_LIMIT <= a <= COORD_LIMIT,
        -COORD_LIMIT <= b <= COORD_LIMIT,
    ensures
        r == mid_tz(a as int, b as int),
        -COORD_LIMIT <= r <= COORD_LIMIT,
{
    let s: i64 = a + b;
    if s >= 0 {
        ((s as u64) / 2) as i64
    } else {
        -((((-s) as u64) / 2) as i64)
    }
}

/// The midpoint node to insert on the edge from `prev_id` to `next_id`,
/// if that edge exists, is longer than the addition threshold, and the
/// arena has room: the new node sits at the edge's midpoint (rounded
/// toward zero) and links the two endpoints.
pub fn node_to_add(g: &Graph, prev_id: usize, next_id: usize, addition_threshold: i64) -> (r:
    Option<NodeAddition>)
    requires
        g.wf(),
        prev_id < g.nodes@.len(),
        next_id < g.nodes@.len(),
    ensures
        r is Some <==> (g.nodes@[prev_id as int].next_id == next_id
            && g.nodes@[next_id as int].prev_id == prev_id && edge_length(g.nodes@, prev_id as int)
            > addition_threshold && g.nodes@.len() < MAX_NODES),
        r is Some ==> r->Some_0.n == (Node {
            x: mid_tz(g.nodes@[prev_id as int].x as int, g.nodes@[next_id as int].x as int) as i64,
            y: mid_tz(g.nodes@[prev_id as int].y as int, g.nodes@[next_id as int].y as int) as i64,
            next_id,
            prev_id,
        }),
        r is Some ==> node_in_bounds(r->Some_0.n),
{
    let prev = g.nodes[prev_id];
    let next = g.nodes[next_id];
    if prev.next_id == next_id && next.prev_id == prev_id && distance_between_nodes(&prev, &next)
        > addition_threshold && g.nodes.len() < MAX_NODES {
        let new_node = Node {
            x: mid_of(prev.x, next.x),
            y: mid_of(prev.y, next.y),
            next_id,
            prev_id,
        };
        Some(NodeAddition { n: new_node })
    } else {
        None
    }
}

/// The node to remove for the edge from `prev_id` to `next_id`, if that
/// edge exists and is shorter than the deletion threshold: the first of
/// the two endpoints is folded into its neighbours.
pub fn node_to_delete(g: &Graph, prev_id: usize, next_id: usize, deletion_threshold: i64) -> (r:
    Option<usize>)
    requires
        g.wf(),
        prev_id < g.nodes@.len(),
        next_id < g.nodes@.len(),
    ensures
        r is Some <==> (g.nodes@[prev_id as int].next_id == next_id
            && g.nodes@[next_id as int].prev_id == prev_id && edge_length(g.nodes@, prev_id as int)
            < deletion_threshold && g.nodes@.len() >= 2),
        r is Some ==> r->Some_0 == prev_id,
{
    let prev = g.nodes[prev_id];
    let next = g.nodes[next_id];
    if prev.next_id == next_id && next.prev_id == prev_id && distance_between_nodes(&prev, &next)
        < deletion_threshold && g.nodes.len() >= 2 {
        Some(prev_id)
    } else {
        None
    }
}


/// The segment of the edge leaving node `i`.
pub open spec fn segment_of(nodes: Seq<Node>, i: int) -> Segment {
    Segment {
        x1: nodes[i].x,
        y1: nodes[i].y,
        x2: nodes[nodes[i].next_id as int].x,
        y2: nodes[nodes[i].next_id as int].y,
    }
}

/// All edge segments of both layers: the outer contour's edges followed
/// by the inner contour's edges.
pub open spec fn surface_segments(outer: Seq<Node>, inner: Seq<Node>) -> Seq<Segment> {
    Seq::new(
        (outer.len() + inner.len()) as nat,
        |i: int|
            if i < outer.len() {
                segment_of(outer, i)
            } else {
                segment_of(inner, i - outer.len())
            },
    )
}

/// Collects every edge segment of both layers, outer first.
pub fn graphs_to_lines(layers: &Vec<Graph>) -> (lines: Vec<Segment>)
    requires
        layers@.len() == 2,
        layers@[OUTER as int].wf(),
        layers@[INNER as int].wf(),
    ensures
        lines@ == surface_segments(layers@[OUTER as int].nodes@, layers@[INNER as int].nodes@),
        forall|i: int|
            0 <= i < lines@.len() ==> crate::geometry::segment_in_bounds(
                #[trigger] lines@[i],
                COORD_LIMIT as int,
            ),
{
    let mut outer_lines = graph_to_lines(&layers[0]);
    let mut inner_lines = graph_to_lines(&layers[1]);
    outer_lines.append(&mut inner_lines);
    proof {
        let outer_nodes = layers@[OUTER as int].nodes@;
        let inner_nodes = layers@[INNER as int].nodes@;
        assert(outer_lines@ =~= surface_segments(outer_nodes, inner_nodes));
        assert forall|i: int| 0 <= i < outer_lines@.len() implies crate::geometry::segment_in_bounds(
            #[trigger] outer_lines@[i],
            COORD_LIMIT as int,
        ) by {
            if i < outer_nodes.len() {
                lemma_links(outer_nodes, i);
            } else {
                lemma_links(inner_nodes, i - outer_nodes.len());
            }
        }
    }
    outer_lines
}


/// `after` is `before` with the edge leaving node `i` bisected: a fresh
/// node at the edge's midpoint takes the next identifier and is spliced
/// between `i` and its old successor; every other position and every
/// other link is unchanged.
pub open spec fn bisected_at(before: Seq<Node>, after: Seq<Node>, i: int) -> bool {
    let nxt = before[i].next_id as int;
    let new_id = before.len() as int;
    &&& after.len() == before.len() + 1
    &&& after[new_id] == (Node {
        x: mid_tz(before[i].x as int, before[nxt].x as int) as i64,
        y: mid_tz(before[i].y as int, before[nxt].y as int) as i64,
        next_id: before[i].next_id,
        prev_id: i as usize,
    })
    &&& after[i].next_id == new_id
    &&& after[nxt].prev_id == new_id
    &&& forall|k: int|
        0 <= k < before.len() ==> (#[trigger] after[k]).x == before[k].x && after[k].y
            == before[k].y
    &&& forall|k: int|
        0 <= k < before.len() && k != i ==> (#[trigger] after[k]).next_id == before[k].next_id
    &&& forall|k: int|
        0 <= k < before.len() && k != nxt ==> (#[trigger] after[k]).prev_id == before[k].prev_id
}

/// The segments of every edge of both layers of the surface, outer
/// first.
pub fn thick_surface_to_lines(ts: &ThickSurface) -> (lines: Vec<Segment>)
    requires
        ts.wf(),
    ensures
        lines@ == surface_segments(ts.layers@[OUTER as int].nodes@, ts.layers@[INNER as int].nodes@),
{
    graphs_to_lines(&ts.layers)
}

} // verus!

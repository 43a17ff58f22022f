//! The correspondence ("stitching") between the two contours: a
//! bidirectional multi-map from node identifiers of one layer to node
//! identifiers of the other, each entry carrying the counterpart's cached
//! position. Built fresh from a surface; valid stitchings cover every
//! node of both layers and are symmetric.

use vstd::prelude::*;

use crate::geometry::dist_sq;
use crate::graph::{
    lemma_cycle_walk, lemma_links, walk_next, walk_reaches, Node, ThickSurface, INNER, OUTER,
};
use crate::COORD_LIMIT;

verus! {

/// One correspondence entry: the counterpart node's identifier and its
/// cached position.
pub type CorrEntry = (usize, i64, i64);

#[verifier::external_type_specification]
#[verifier::external_body]
#[verifier::reject_recursive_types(I)]
pub struct ExVec1<I>(vec1::Vec1<I>);

/// The entries a correspondent list holds, in insertion order.
pub uninterp spec fn corr_entries(v: vec1::Vec1<CorrEntry>) -> Seq<CorrEntry>;

/// Relies on `vec1::Vec1::new`: the fresh list holds exactly the one
/// entry it was created from.
#[verifier::external_body]
fn vec1_new(e: CorrEntry) -> (v: vec1::Vec1<CorrEntry>)
    ensures
        corr_entries(v) == seq![e],
{
    vec1::Vec1::new(e)
}

/// Relies on `vec1::Vec1::push`: appends the entry at the end, keeping
/// the others.
#[verifier::external_body]
fn vec1_push(v: &mut vec1::Vec1<CorrEntry>, e: CorrEntry)
    ensures
        corr_entries(*final(v)) == corr_entries(*old(v)).push(e),
{
    v.push(e)
}

/// Relies on `vec1::Vec1::len`: the number of entries the list holds.
#[verifier::external_body]
fn vec1_len(v: &vec1::Vec1<CorrEntry>) -> (r: usize)
    ensures
        r == corr_entries(*v).len(),
{
    v.len()
}

/// Relies on `vec1::Vec1::as_vec`: the same entries as a plain vector.
#[verifier::external_body]
fn vec1_to_vec(v: &vec1::Vec1<CorrEntry>) -> (r: Vec<CorrEntry>)
    ensures
        r@ == corr_entries(*v),
{
    v.as_vec().clone()
}

/// One layer's side of the correspondence: for each node identifier of
/// this layer, the non-empty list of its correspondents in the other
/// layer.
pub struct ListMap {
    pub lists: Vec<Option<vec1::Vec1<CorrEntry>>>,
}

impl ListMap {
    /// The correspondent list of key `k`; empty when the key has none
    /// yet.
    pub open spec fn list_at(self, k: int) -> Seq<CorrEntry> {
        match self.lists@[k] {
            Some(v) => corr_entries(v),
            None => Seq::empty(),
        }
    }

    /// One slot per node identifier.
    pub open spec fn wf(self, n: int) -> bool {
        self.lists@.len() == n
    }

    /// An empty side with a slot for each of `n` node identifiers.
    pub fn new(n: usize) -> (m: ListMap)
        ensures
            m.wf(n as int),
            forall|k: int| 0 <= k < n ==> #[trigger] m.list_at(k) == Seq::<CorrEntry>::empty(),
    {
        let mut lists: Vec<Option<vec1::Vec1<CorrEntry>>> = Vec::new();
        let mut i: usize = 0;
        while i < n
            invariant
                0 <= i <= n,
                lists@.len() == i,
                forall|k: int| 0 <= k < i ==> lists@[k] is None,
            decreases n - i,
        {
            lists.push(None);
            i = i + 1;
        }
        let m = ListMap { lists };
        proof {
            assert forall|k: int| 0 <= k < n implies #[trigger] m.list_at(k) == Seq::<
                CorrEntry,
            >::empty() by {
                assert(m.lists@[k] is None);
            }
        }
        m
    }

    /// Appends a correspondent for key `key`; every other key's list is
    /// untouched.
    pub fn put(&mut self, key: usize, val: CorrEntry)
        requires
            key < old(self).lists@.len(),
        ensures
            final(self).wf(old(self).lists@.len() as int),
            final(self).list_at(key as int) == old(self).list_at(key as int).push(val),
            forall|k: int|
                0 <= k < old(self).lists@.len() && k != key ==> #[trigger] final(self).list_at(k)
                    == old(self).list_at(k),
    {
        let slot = self.lists.remove(key);
        let updated = match slot {
            Some(mut v) => {
                vec1_push(&mut v, val);
                v
            },
            None => vec1_new(val),
        };
        self.lists.insert(key, Some(updated));
        proof {
            assert(self.lists@ =~= old(self).lists@.update(key as int, Some(updated)));
            if old(self).lists@[key as int] is None {
                assert(old(self).list_at(key as int) =~= Seq::<CorrEntry>::empty());
                assert(corr_entries(updated) =~= old(self).list_at(key as int).push(val));
            }
        }
    }

    /// The correspondent list of key `key`, as a plain vector. The key
    /// must have at least one correspondent; a stitching never hands out
    /// an unstitched node's list.
    pub fn get(&self, key: usize) -> (r: Vec<CorrEntry>)
        requires
            key < self.lists@.len(),
            self.list_at(key as int).len() >= 1,
        ensures
            r@ == self.list_at(key as int),
    {
        match &self.lists[key] {
            Some(v) => vec1_to_vec(v),
            None => {
                proof {
                    assert(self.list_at(key as int) =~= Seq::<CorrEntry>::empty());
                }
                unreached()
            },
        }
    }
}

impl ListMap {
    /// How many correspondents key `key` has.
    pub fn len_of(&self, key: usize) -> (r: usize)
        requires
            key < self.lists@.len(),
        ensures
            r == self.list_at(key as int).len(),
    {
        match &self.lists[key] {
            Some(v) => vec1_len(v),
            None => {
                proof {
                    assert(self.list_at(key as int) =~= Seq::<CorrEntry>::empty());
                }
                0
            },
        }
    }
}

/// Some entry of the list names the identifier `id`.
pub open spec fn has_entry(list: Seq<CorrEntry>, id: int) -> bool {
    exists|j: int| 0 <= j < list.len() && (#[trigger] list[j]).0 == id
}

/// The many-to-many correspondence between the two layers: one
/// [`ListMap`] per layer, keyed by that layer's node identifiers.
pub struct Stitching {
    pub layers: Vec<ListMap>,
}

impl Stitching {
    /// The correspondent list of node `key` of layer `layer`.
    pub open spec fn list(self, layer: int, key: int) -> Seq<CorrEntry> {
        self.layers@[layer].list_at(key)
    }

    /// Structural well-formedness against the two layer sizes.
    pub open spec fn wf(self, out_n: int, inn_n: int) -> bool {
        &&& self.layers@.len() == 2
        &&& self.layers@[OUTER as int].wf(out_n)
        &&& self.layers@[INNER as int].wf(inn_n)
    }
}

/// Every entry on either side points to a live node of the other layer
/// and is mirrored there: if inner node `i` is a correspondent of outer
/// node `o`, then `o` is a correspondent of `i`, and conversely.
pub open spec fn symmetric(st: Stitching, out_n: int, inn_n: int) -> bool {
    &&& forall|o: int, j: int|
        0 <= o < out_n && 0 <= j < st.list(OUTER as int, o).len() ==> 0 <= (#[trigger] st.list(
            OUTER as int,
            o,
        )[j]).0 < inn_n && has_entry(st.list(INNER as int, st.list(OUTER as int, o)[j].0 as int), o)
    &&& forall|i: int, j: int|
        0 <= i < inn_n && 0 <= j < st.list(INNER as int, i).len() ==> 0 <= (#[trigger] st.list(
            INNER as int,
            i,
        )[j]).0 < out_n && has_entry(st.list(OUTER as int, st.list(INNER as int, i)[j].0 as int), i)
}

/// Every node of both layers has at least one correspondent.
pub open spec fn covers_all(st: Stitching, out_n: int, inn_n: int) -> bool {
    &&& forall|o: int| 0 <= o < out_n ==> #[trigger] st.list(OUTER as int, o).len() >= 1
    &&& forall|i: int| 0 <= i < inn_n ==> #[trigger] st.list(INNER as int, i).len() >= 1
}

/// Every cached position is the counterpart node's actual position.
pub open spec fn positions_cached(st: Stitching, outer: Seq<Node>, inner: Seq<Node>) -> bool {
    &&& forall|o: int, j: int|
        0 <= o < outer.len() && 0 <= j < st.list(OUTER as int, o).len() ==> (#[trigger] st.list(
            OUTER as int,
            o,
        )[j]).1 == inner[st.list(OUTER as int, o)[j].0 as int].x && st.list(OUTER as int, o)[j].2
            == inner[st.list(OUTER as int, o)[j].0 as int].y
    &&& forall|i: int, j: int|
        0 <= i < inner.len() && 0 <= j < st.list(INNER as int, i).len() ==> (#[trigger] st.list(
            INNER as int,
            i,
        )[j]).1 == outer[st.list(INNER as int, i)[j].0 as int].x && st.list(INNER as int, i)[j].2
            == outer[st.list(INNER as int, i)[j].0 as int].y
}

/// A stitching the rest of the system may rely on: well-formed against
/// the two arenas, symmetric, total on both sides, with true cached
/// positions.
pub open spec fn valid_stitching(st: Stitching, outer: Seq<Node>, inner: Seq<Node>) -> bool {
    &&& st.wf(outer.len() as int, inner.len() as int)
    &&& symmetric(st, outer.len() as int, inner.len() as int)
    &&& covers_all(st, outer.len() as int, inner.len() as int)
    &&& positions_cached(st, outer, inner)
}

impl Stitching {
    /// The identifiers of the correspondents of node `node_id` in layer
    /// `layer_id`, in insertion order. Every node of a valid stitching
    /// has at least one.
    pub fn get(&self, layer_id: usize, node_id: usize) -> (r: Vec<usize>)
        requires
            self.layers@.len() == 2,
            layer_id < 2,
            self.layers@[layer_id as int].lists@.len() > node_id,
            self.list(layer_id as int, node_id as int).len() >= 1,
        ensures
            r@.len() == self.list(layer_id as int, node_id as int).len(),
            forall|j: int|
                0 <= j < r@.len() ==> #[trigger] r@[j] == self.list(
                    layer_id as int,
                    node_id as int,
                )[j].0,
    {
        let entries = self.layers[layer_id].get(node_id);
        let mut r: Vec<usize> = Vec::new();
        let n = entries.len();
        let mut j: usize = 0;
        while j < n
            invariant
                n == entries@.len(),
                0 <= j <= n,
                r@.len() == j,
                forall|k: int| 0 <= k < j ==> #[trigger] r@[k] == entries@[k].0,
            decreases n - j,
        {
            r.push(entries[j].0);
            j = j + 1;
        }
        r
    }

    /// The identifier of the correspondent of the given node whose cached
    /// position is nearest to `(x, y)`; ties go to the earliest entry.
    pub fn get_closest_correspondent(&self, layer_id: usize, node_id: usize, x: i64, y: i64) -> (r:
        usize)
        requires
            self.layers@.len() == 2,
            layer_id < 2,
            self.layers@[layer_id as int].lists@.len() > node_id,
            self.list(layer_id as int, node_id as int).len() >= 1,
            forall|j: int|
                0 <= j < self.list(layer_id as int, node_id as int).len() ==> -COORD_LIMIT <= (
                #[trigger] self.list(layer_id as int, node_id as int)[j]).1 <= COORD_LIMIT
                    && -COORD_LIMIT <= self.list(layer_id as int, node_id as int)[j].2
                    <= COORD_LIMIT,
            -COORD_LIMIT <= x <= COORD_LIMIT,
            -COORD_LIMIT <= y <= COORD_LIMIT,
        ensures
            has_entry(self.list(layer_id as int, node_id as int), r as int),
            exists|j: int|
                0 <= j < self.list(layer_id as int, node_id as int).len() && (#[trigger] self.list(
                    layer_id as int,
                    node_id as int,
                )[j]).0 == r && forall|k: int|
                    0 <= k < self.list(layer_id as int, node_id as int).len() ==> dist_sq(
                        self.list(layer_id as int, node_id as int)[j].1 as int,
                        self.list(layer_id as int, node_id as int)[j].2 as int,
                        x as int,
                        y as int,
                    ) <= dist_sq(
                        (#[trigger] self.list(layer_id as int, node_id as int)[k]).1 as int,
                        self.list(layer_id as int, node_id as int)[k].2 as int,
                        x as int,
                        y as int,
                    ),
    {
        let ghost list = self.list(layer_id as int, node_id as int);
        let entries = self.layers[layer_id].get(node_id);
        let n = entries.len();
        let mut best: usize = 0;
        let mut best_d: i128 = entry_dist_sq(&entries[0], x, y);
        let mut j: usize = 1;
        while j < n
            invariant
                n == entries@.len(),
                entries@ == list,
                -COORD_LIMIT <= x <= COORD_LIMIT,
                -COORD_LIMIT <= y <= COORD_LIMIT,
                forall|k: int|
                    0 <= k < list.len() ==> -COORD_LIMIT <= (#[trigger] list[k]).1 <= COORD_LIMIT
                        && -COORD_LIMIT <= list[k].2 <= COORD_LIMIT,
                1 <= j <= n,
                best < j,
                best_d == dist_sq(list[best as int].1 as int, list[best as int].2 as int, x as int, y as int),
                forall|k: int|
                    0 <= k < j ==> best_d <= dist_sq(
                        (#[trigger] list[k]).1 as int,
                        list[k].2 as int,
                        x as int,
                        y as int,
                    ),
            decreases n - j,
        {
            let d = entry_dist_sq(&entries[j], x, y);
            if d < best_d {
                best = j;
                best_d = d;
            }
            j = j + 1;
        }
        let r = entries[best].0;
        proof {
            assert(list[best as int].0 == r);
        }
        r
    }
}

/// Exact squared distance from an entry's cached position to a point.
fn entry_dist_sq(e: &CorrEntry, px: i64, py: i64) -> (d: i128)
    requires
        -COORD_LIMIT <= e.1 <= COORD_LIMIT,
        -COORD_LIMIT <= e.2 <= COORD_LIMIT,
        -COORD_LIMIT <= px <= COORD_LIMIT,
        -COORD_LIMIT <= py <= COORD_LIMIT,
    ensures
        d == dist_sq(e.1 as int, e.2 as int, px as int, py as int),
{
    let dx: i128 = (e.1 as i128) - (px as i128);
    let dy: i128 = (e.2 as i128) - (py as i128);
    proof {
        assert(0 <= dx * dx <= 0x1_0000_0000_0000i128 && 0 <= dy * dy <= 0x1_0000_0000_0000i128)
            by (nonlinear_arith)
            requires
                -0x80_0000 <= dx <= 0x80_0000,
                -0x80_0000 <= dy <= 0x80_0000,
        ;
    }
    dx * dx + dy * dy
}



/// The total number of correspondence entries held by the first `n` keys
/// of one layer's side.
pub open spec fn total_edges(st: Stitching, layer: int, n: int) -> int
    decreases n,
{
    if n <= 0 {
        0
    } else {
        total_edges(st, layer, n - 1) + st.list(layer, n - 1).len()
    }
}

/// Sides with equal lists up to `n` hold equally many entries there.
proof fn lemma_total_edges_congruent(pre: Stitching, post: Stitching, layer: int, n: int)
    requires
        forall|k: int| 0 <= k < n ==> #[trigger] post.list(layer, k) == pre.list(layer, k),
    ensures
        total_edges(post, layer, n) == total_edges(pre, layer, n),
    decreases n,
{
    if n > 0 {
        lemma_total_edges_congruent(pre, post, layer, n - 1);
    }
}

/// A side whose first `n` lists are all empty holds no entries there.
proof fn lemma_total_edges_empty(st: Stitching, layer: int, n: int)
    requires
        forall|k: int| 0 <= k < n ==> (#[trigger] st.list(layer, k)).len() == 0,
    ensures
        total_edges(st, layer, n) == 0,
    decreases n,
{
    if n > 0 {
        lemma_total_edges_empty(st, layer, n - 1);
    }
}

/// Growing exactly one list by one entry grows the side's total by one.
proof fn lemma_total_edges_put(pre: Stitching, post: Stitching, layer: int, n: int, key: int)
    requires
        0 <= key < n,
        post.list(layer, key).len() == pre.list(layer, key).len() + 1,
        forall|k: int|
            0 <= k < n && k != key ==> #[trigger] post.list(layer, k) == pre.list(layer, k),
    ensures
        total_edges(post, layer, n) == total_edges(pre, layer, n) + 1,
    decreases n,
{
    if key == n - 1 {
        lemma_total_edges_congruent(pre, post, layer, n - 1);
    } else {
        lemma_total_edges_put(pre, post, layer, n - 1, key);
    }
}

/// Pushing an entry onto a list keeps every identifier it already names.
proof fn lemma_has_entry_push(list: Seq<CorrEntry>, e: CorrEntry, id: int)
    requires
        has_entry(list, id),
    ensures
        has_entry(list.push(e), id),
{
    let j = choose|j: int| 0 <= j < list.len() && (#[trigger] list[j]).0 == id;
    assert(list.push(e)[j].0 == id);
}

impl Stitching {
    /// An empty correspondence for layers of the given sizes.
    pub fn new(out_n: usize, inn_n: usize) -> (st: Stitching)
        ensures
            st.wf(out_n as int, inn_n as int),
            forall|o: int|
                0 <= o < out_n ==> #[trigger] st.list(OUTER as int, o) == Seq::<CorrEntry>::empty(),
            forall|i: int|
                0 <= i < inn_n ==> #[trigger] st.list(INNER as int, i) == Seq::<CorrEntry>::empty(),
    {
        let outer_map = ListMap::new(out_n);
        let inner_map = ListMap::new(inn_n);
        let mut layers: Vec<ListMap> = Vec::new();
        layers.push(outer_map);
        layers.push(inner_map);
        Stitching { layers }
    }

    /// Records one correspondence edge: the inner entry is appended to
    /// the outer node's list and the outer entry to the inner node's
    /// list, atomically; every other list is untouched.
    pub fn put(&mut self, inn: CorrEntry, out: CorrEntry)
        requires
            old(self).layers@.len() == 2,
            out.0 < old(self).layers@[OUTER as int].lists@.len(),
            inn.0 < old(self).layers@[INNER as int].lists@.len(),
        ensures
            final(self).layers@.len() == 2,
            final(self).layers@[OUTER as int].lists@.len() == old(
                self,
            ).layers@[OUTER as int].lists@.len(),
            final(self).layers@[INNER as int].lists@.len() == old(
                self,
            ).layers@[INNER as int].lists@.len(),
            final(self).list(OUTER as int, out.0 as int) == old(self).list(
                OUTER as int,
                out.0 as int,
            ).push(inn),
            final(self).list(INNER as int, inn.0 as int) == old(self).list(
                INNER as int,
                inn.0 as int,
            ).push(out),
            forall|k: int|
                0 <= k < old(self).layers@[OUTER as int].lists@.len() && k != out.0 ==> (
                #[trigger] final(self).list(OUTER as int, k)) == old(self).list(OUTER as int, k),
            forall|k: int|
                0 <= k < old(self).layers@[INNER as int].lists@.len() && k != inn.0 ==> (
                #[trigger] final(self).list(INNER as int, k)) == old(self).list(INNER as int, k),
    {
        let mut outer_map = self.layers.remove(0);
        outer_map.put(out.0, inn);
        self.layers.insert(0, outer_map);
        let mut inner_map = self.layers.remove(1);
        inner_map.put(inn.0, out);
        self.layers.insert(1, inner_map);
    }
}

/// Builds the correspondence by walking both contours forward with two
/// synchronized pointers, starting from outer node 0 and the inner node
/// nearest to it. Each step records an edge between the two current
/// nodes, then advances whichever pointer gives the shorter crossing to
/// the other layer's next node, until both pointers have completed a full
/// revolution. The contract states what every caller relies on — a valid
/// stitching: symmetric, total on both sides, with true cached positions;
/// which particular edges the walk records is not part of the contract.
pub fn greedy(ts: &ThickSurface) -> (st: Stitching)
    requires
        ts.wf(),
    ensures
        valid_stitching(
            st,
            ts.layers@[OUTER as int].nodes@,
            ts.layers@[INNER as int].nodes@,
        ),
        total_edges(st, OUTER as int, ts.layers@[OUTER as int].nodes@.len() as int)
            == ts.layers@[OUTER as int].nodes@.len() + ts.layers@[INNER as int].nodes@.len() + 1,
        total_edges(st, INNER as int, ts.layers@[INNER as int].nodes@.len() as int)
            == ts.layers@[OUTER as int].nodes@.len() + ts.layers@[INNER as int].nodes@.len() + 1,
{
    let outer = &ts.layers[0];
    let inner = &ts.layers[1];
    let ghost outer_nodes = outer.nodes@;
    let ghost inner_nodes = inner.nodes@;
    let out_len = outer.nodes.len();
    let inn_len = inner.nodes.len();
    let mut res = Stitching::new(out_len, inn_len);
    proof {
        lemma_total_edges_empty(res, OUTER as int, out_len as int);
        lemma_total_edges_empty(res, INNER as int, inn_len as int);
    }
    let first_out = outer.nodes[0];
    let first_inn = crate::graph::closest_node_to_some_point(inner, first_out.x, first_out.y);
    let mut out_c: usize = 0;
    let mut inn_c: usize = 0;
    let mut out_id: usize = 0;
    let mut inn_id: usize = first_inn;
    while out_c <= out_len && inn_c <= inn_len
        invariant
            outer.wf(),
            inner.wf(),
            outer_nodes == outer.nodes@,
            inner_nodes == inner.nodes@,
            out_len == outer_nodes.len(),
            inn_len == inner_nodes.len(),
            first_inn < inn_len,
            0 <= out_c <= out_len,
            0 <= inn_c <= inn_len + 1,
            inn_c == inn_len + 1 ==> out_c == out_len,
            out_id < out_len,
            inn_id < inn_len,
            out_id as int == walk_next(outer_nodes, 0, out_c as nat),
            inn_id as int == walk_next(inner_nodes, first_inn as int, inn_c as nat),
            res.wf(out_len as int, inn_len as int),
            symmetric(res, out_len as int, inn_len as int),
            positions_cached(res, outer_nodes, inner_nodes),
            total_edges(res, OUTER as int, out_len as int) == out_c + inn_c,
            total_edges(res, INNER as int, inn_len as int) == out_c + inn_c,
            forall|t: nat|
                t < out_c ==> #[trigger] res.list(
                    OUTER as int,
                    walk_next(outer_nodes, 0, t),
                ).len() >= 1,
            forall|t: nat|
                t < inn_c ==> #[trigger] res.list(
                    INNER as int,
                    walk_next(inner_nodes, first_inn as int, t),
                ).len() >= 1,
        decreases (out_len - out_c) + (inn_len + 1 - inn_c),
    {
        let out_n = outer.nodes[out_id];
        let inn_n = inner.nodes[inn_id];
        let advance_outer: bool = if out_c >= out_len {
            false
        } else if inn_c >= inn_len {
            true
        } else {
            proof {
                lemma_links(inner_nodes, inn_id as int);
                lemma_links(outer_nodes, out_id as int);
            }
            let inn_next = inner.nodes[inn_n.next_id];
            let out_next = outer.nodes[out_n.next_id];
            let dist_crossing_from_out = crate::graph::distance_between_nodes(&out_n, &inn_next);
            let dist_crossing_from_inn = crate::graph::distance_between_nodes(&inn_n, &out_next);
            dist_crossing_from_inn < dist_crossing_from_out
        };
        let ghost pre = res;
        res.put((inn_id, inn_n.x, inn_n.y), (out_id, out_n.x, out_n.y));
        proof {
            lemma_total_edges_put(pre, res, OUTER as int, out_len as int, out_id as int);
            lemma_total_edges_put(pre, res, INNER as int, inn_len as int, inn_id as int);
            lemma_stitch_put_keeps_validity(
                pre,
                res,
                outer_nodes,
                inner_nodes,
                (inn_id, inn_n.x, inn_n.y),
                (out_id, out_n.x, out_n.y),
            );
            assert forall|t: nat| t < out_c + 1 implies #[trigger] res.list(
                OUTER as int,
                walk_next(outer_nodes, 0, t),
            ).len() >= 1 by {
                if t < out_c {
                    crate::graph::lemma_walk_avoids_start(outer_nodes, 0, t);
                    assert(pre.list(OUTER as int, walk_next(outer_nodes, 0, t)).len() >= 1);
                    assert(res.list(OUTER as int, walk_next(outer_nodes, 0, t)).len()
                        >= pre.list(OUTER as int, walk_next(outer_nodes, 0, t)).len());
                } else {
                    assert(walk_next(outer_nodes, 0, t) == out_id as int);
                }
            }
            assert forall|t: nat| t < inn_c + 1 implies #[trigger] res.list(
                INNER as int,
                walk_next(inner_nodes, first_inn as int, t),
            ).len() >= 1 by {
                if t < inn_c {
                    if t < inn_len {
                        crate::graph::lemma_walk_avoids_start(inner_nodes, first_inn as int, t);
                    } else {
                        lemma_cycle_walk(*inner, first_inn as int);
                    }
                    assert(pre.list(
                        INNER as int,
                        walk_next(inner_nodes, first_inn as int, t),
                    ).len() >= 1);
                    assert(res.list(INNER as int, walk_next(inner_nodes, first_inn as int, t)).len()
                        >= pre.list(
                        INNER as int,
                        walk_next(inner_nodes, first_inn as int, t),
                    ).len());
                } else {
                    assert(walk_next(inner_nodes, first_inn as int, t) == inn_id as int);
                }
            }
        }
        if advance_outer {
            out_c = out_c + 1;
            proof {
                lemma_links(outer_nodes, out_id as int);
                assert(walk_next(outer_nodes, 0, out_c as nat) == outer_nodes[walk_next(
                    outer_nodes,
                    0,
                    (out_c - 1) as nat,
                )].next_id as int);
            }
            out_id = outer.nodes[out_id].next_id;
        } else {
            inn_c = inn_c + 1;
            proof {
                lemma_links(inner_nodes, inn_id as int);
                assert(walk_next(inner_nodes, first_inn as int, inn_c as nat)
                    == inner_nodes[walk_next(
                    inner_nodes,
                    first_inn as int,
                    (inn_c - 1) as nat,
                )].next_id as int);
            }
            inn_id = inner.nodes[inn_id].next_id;
        }
    }
    proof {
        assert(out_c == out_len && inn_c == inn_len + 1);
        assert forall|o: int| 0 <= o < out_len implies #[trigger] res.list(
            OUTER as int,
            o,
        ).len() >= 1 by {
            lemma_cycle_walk(*outer, 0);
            assert(walk_reaches(outer_nodes, 0, o));
            let t = choose|t: nat| t < outer_nodes.len() && #[trigger] walk_next(outer_nodes, 0, t) == o;
            assert(res.list(OUTER as int, walk_next(outer_nodes, 0, t)).len() >= 1);
        }
        assert forall|i: int| 0 <= i < inn_len implies #[trigger] res.list(
            INNER as int,
            i,
        ).len() >= 1 by {
            lemma_cycle_walk(*inner, first_inn as int);
            assert(walk_reaches(inner_nodes, first_inn as int, i));
            let t = choose|t: nat|
                t < inner_nodes.len() && #[trigger] walk_next(inner_nodes, first_inn as int, t) == i;
            assert(res.list(INNER as int, walk_next(inner_nodes, first_inn as int, t)).len() >= 1);
        }
    }
    res
}

/// Builds the correspondence along the monotone alignment the
/// dynamic-programming cost table selects: the same synchronized walk as
/// the greedy construction, but each free choice follows the smaller
/// remaining-cost estimate instead of the locally shorter crossing. The
/// verified contract is the stitching's validity; that the chosen
/// alignment's total crossing length is minimal is the intent of the
/// table, not a proved clause.
#[verifier::rlimit(100)]
#[verifier::spinoff_prover]
pub fn smart(ts: &ThickSurface) -> (st: Stitching)
    requires
        ts.wf(),
        ts.layers@[OUTER as int].nodes@.len() + ts.layers@[INNER as int].nodes@.len() <= 0x1_0000,
    ensures
        valid_stitching(
            st,
            ts.layers@[OUTER as int].nodes@,
            ts.layers@[INNER as int].nodes@,
        ),
        total_edges(st, OUTER as int, ts.layers@[OUTER as int].nodes@.len() as int)
            == ts.layers@[OUTER as int].nodes@.len() + ts.layers@[INNER as int].nodes@.len() + 1,
        total_edges(st, INNER as int, ts.layers@[INNER as int].nodes@.len() as int)
            == ts.layers@[OUTER as int].nodes@.len() + ts.layers@[INNER as int].nodes@.len() + 1,
{
    let outer = &ts.layers[0];
    let inner = &ts.layers[1];
    let ghost outer_nodes = outer.nodes@;
    let ghost inner_nodes = inner.nodes@;
    let out_len = outer.nodes.len();
    let inn_len = inner.nodes.len();
    let mut res = Stitching::new(out_len, inn_len);
    proof {
        lemma_total_edges_empty(res, OUTER as int, out_len as int);
        lemma_total_edges_empty(res, INNER as int, inn_len as int);
    }
    let first_out = outer.nodes[0];
    let first_inn = crate::graph::closest_node_to_some_point(inner, first_out.x, first_out.y);
    let cost = alignment_costs(outer, inner, first_inn);
    let mut out_c: usize = 0;
    let mut inn_c: usize = 0;
    let mut out_id: usize = 0;
    let mut inn_id: usize = first_inn;
    while out_c <= out_len && inn_c <= inn_len
        invariant
            outer.wf(),
            inner.wf(),
            outer_nodes == outer.nodes@,
            inner_nodes == inner.nodes@,
            out_len == outer_nodes.len(),
            inn_len == inner_nodes.len(),
            first_inn < inn_len,
            cost@.len() == out_len + 1,
            forall|x: int| 0 <= x < cost@.len() ==> (#[trigger] cost@[x])@.len() == inn_len + 2,
            forall|x: int, y: int|
                0 <= x < cost@.len() && 0 <= y < inn_len + 2 ==> 0 <= #[trigger] cost@[x]@[y]
                    <= COST_CAP,
            0 <= out_c <= out_len,
            0 <= inn_c <= inn_len + 1,
            inn_c == inn_len + 1 ==> out_c == out_len,
            out_id < out_len,
            inn_id < inn_len,
            out_id as int == walk_next(outer_nodes, 0, out_c as nat),
            inn_id as int == walk_next(inner_nodes, first_inn as int, inn_c as nat),
            res.wf(out_len as int, inn_len as int),
            symmetric(res, out_len as int, inn_len as int),
            positions_cached(res, outer_nodes, inner_nodes),
            total_edges(res, OUTER as int, out_len as int) == out_c + inn_c,
            total_edges(res, INNER as int, inn_len as int) == out_c + inn_c,
            forall|t: nat|
                t < out_c ==> #[trigger] res.list(
                    OUTER as int,
                    walk_next(outer_nodes, 0, t),
                ).len() >= 1,
            forall|t: nat|
                t < inn_c ==> #[trigger] res.list(
                    INNER as int,
                    walk_next(inner_nodes, first_inn as int, t),
                ).len() >= 1,
        decreases (out_len - out_c) + (inn_len + 1 - inn_c),
    {
        let out_n = outer.nodes[out_id];
        let inn_n = inner.nodes[inn_id];
        let advance_outer: bool = if out_c >= out_len {
            false
        } else if inn_c >= inn_len {
            true
        } else {
            proof {
                lemma_links(inner_nodes, inn_id as int);
                lemma_links(outer_nodes, out_id as int);
            }
            let inn_next = inner.nodes[inn_n.next_id];
            let out_next = outer.nodes[out_n.next_id];
            let dist_crossing_from_out = crate::graph::distance_between_nodes(&out_n, &inn_next);
            let dist_crossing_from_inn = crate::graph::distance_between_nodes(&inn_n, &out_next);
            if out_c + 1 < cost.len() && inn_c < cost[out_c + 1].len() && inn_c + 1
                < cost[out_c].len() {
                let through_outer = saturating_add(
                    dist_crossing_from_inn,
                    cost[out_c + 1][inn_c],
                );
                let through_inner = saturating_add(dist_crossing_from_out, cost[out_c][inn_c + 1]);
                through_outer <= through_inner
            } else {
                dist_crossing_from_inn < dist_crossing_from_out
            }
        };
        let ghost pre = res;
        res.put((inn_id, inn_n.x, inn_n.y), (out_id, out_n.x, out_n.y));
        proof {
            lemma_total_edges_put(pre, res, OUTER as int, out_len as int, out_id as int);
            lemma_total_edges_put(pre, res, INNER as int, inn_len as int, inn_id as int);
            lemma_stitch_put_keeps_validity(
                pre,
                res,
                outer_nodes,
                inner_nodes,
                (inn_id, inn_n.x, inn_n.y),
                (out_id, out_n.x, out_n.y),
            );
            assert forall|t: nat| t < out_c + 1 implies #[trigger] res.list(
                OUTER as int,
                walk_next(outer_nodes, 0, t),
            ).len() >= 1 by {
                if t < out_c {
                    crate::graph::lemma_walk_avoids_start(outer_nodes, 0, t);
                    assert(pre.list(OUTER as int, walk_next(outer_nodes, 0, t)).len() >= 1);
                    assert(res.list(OUTER as int, walk_next(outer_nodes, 0, t)).len()
                        >= pre.list(OUTER as int, walk_next(outer_nodes, 0, t)).len());
                } else {
                    assert(walk_next(outer_nodes, 0, t) == out_id as int);
                }
            }
            assert forall|t: nat| t < inn_c + 1 implies #[trigger] res.list(
                INNER as int,
                walk_next(inner_nodes, first_inn as int, t),
            ).len() >= 1 by {
                if t < inn_c {
                    if t < inn_len {
                        crate::graph::lemma_walk_avoids_start(inner_nodes, first_inn as int, t);
                    } else {
                        lemma_cycle_walk(*inner, first_inn as int);
                    }
                    assert(pre.list(
                        INNER as int,
                        walk_next(inner_nodes, first_inn as int, t),
                    ).len() >= 1);
                    assert(res.list(INNER as int, walk_next(inner_nodes, first_inn as int, t)).len()
                        >= pre.list(
                        INNER as int,
                        walk_next(inner_nodes, first_inn as int, t),
                    ).len());
                } else {
                    assert(walk_next(inner_nodes, first_inn as int, t) == inn_id as int);
                }
            }
        }
        if advance_outer {
            out_c = out_c + 1;
            proof {
                lemma_links(outer_nodes, out_id as int);
                assert(walk_next(outer_nodes, 0, out_c as nat) == outer_nodes[walk_next(
                    outer_nodes,
                    0,
                    (out_c - 1) as nat,
                )].next_id as int);
            }
            out_id = outer.nodes[out_id].next_id;
        } else {
            inn_c = inn_c + 1;
            proof {
                lemma_links(inner_nodes, inn_id as int);
                assert(walk_next(inner_nodes, first_inn as int, inn_c as nat)
                    == inner_nodes[walk_next(
                    inner_nodes,
                    first_inn as int,
                    (inn_c - 1) as nat,
                )].next_id as int);
            }
            inn_id = inner.nodes[inn_id].next_id;
        }
    }
    proof {
        assert(out_c == out_len && inn_c == inn_len + 1);
        assert forall|o: int| 0 <= o < out_len implies #[trigger] res.list(
            OUTER as int,
            o,
        ).len() >= 1 by {
            lemma_cycle_walk(*outer, 0);
            assert(walk_reaches(outer_nodes, 0, o));
            let t = choose|t: nat| t < outer_nodes.len() && #[trigger] walk_next(outer_nodes, 0, t) == o;
            assert(res.list(OUTER as int, walk_next(outer_nodes, 0, t)).len() >= 1);
        }
        assert forall|i: int| 0 <= i < inn_len implies #[trigger] res.list(
            INNER as int,
            i,
        ).len() >= 1 by {
            lemma_cycle_walk(*inner, first_inn as int);
            assert(walk_reaches(inner_nodes, first_inn as int, i));
            let t = choose|t: nat|
                t < inner_nodes.len() && #[trigger] walk_next(inner_nodes, first_inn as int, t) == i;
            assert(res.list(INNER as int, walk_next(inner_nodes, first_inn as int, t)).len() >= 1);
        }
    }
    res
}


/// Sum capped so alignment costs never overflow.
pub const COST_CAP: i64 = 0x4000_0000_0000;

/// `a + b`, saturated at [`COST_CAP`].
fn saturating_add(a: i64, b: i64) -> (r: i64)
    requires
        0 <= a <= COST_CAP,
        0 <= b <= COST_CAP,
    ensures
        0 <= r <= COST_CAP,
{
    let s = a + b;
    if s > COST_CAP {
        COST_CAP
    } else {
        s
    }
}

/// The remaining-cost table of the monotone alignment: entry `(o, c)`
/// estimates the cheapest total crossing length of finishing the
/// synchronized walk once the outer pointer has advanced `o` times and
/// the inner pointer `c` times, each unit advance paying the distance of
/// the correspondence edge it records. Computed by the standard dynamic
/// program over alignment states, with costs saturated at [`COST_CAP`].
fn alignment_costs(outer: &crate::graph::Graph, inner: &crate::graph::Graph, first_inn: usize) -> (cost: Vec<Vec<i64>>)
    requires
        outer.wf(),
        inner.wf(),
        first_inn < inner.nodes@.len(),
        outer.nodes@.len() + inner.nodes@.len() <= 0x1_0000,
    ensures
        cost@.len() == outer.nodes@.len() + 1,
        forall|o: int|
            0 <= o < cost@.len() ==> (#[trigger] cost@[o])@.len() == inner.nodes@.len() + 2,
        forall|o: int, c: int|
            0 <= o < cost@.len() && 0 <= c < cost@[o]@.len() ==> 0 <= #[trigger] cost@[o]@[c]
                <= COST_CAP,
{
    let out_len = outer.nodes.len();
    let inn_len = inner.nodes.len();
    // the node each advance count lands on, one revolution plus the start
    let mut outer_ids: Vec<usize> = Vec::new();
    let mut id: usize = 0;
    let mut k: usize = 0;
    while k <= out_len
        invariant
            outer.wf(),
            out_len == outer.nodes@.len(),
            out_len <= 0x1_0000,
            0 <= k <= out_len + 1,
            outer_ids@.len() == k,
            id < out_len,
            forall|t: int| 0 <= t < k ==> #[trigger] outer_ids@[t] < outer.nodes@.len(),
        decreases out_len + 1 - k,
    {
        outer_ids.push(id);
        proof {
            crate::graph::lemma_wf_links(*outer, id as int);
        }
        id = outer.nodes[id].next_id;
        k = k + 1;
    }
    let mut inner_ids: Vec<usize> = Vec::new();
    let mut iid: usize = first_inn;
    let mut ik: usize = 0;
    while ik <= inn_len + 1
        invariant
            inner.wf(),
            inn_len == inner.nodes@.len(),
            inn_len <= 0x1_0000,
            0 <= ik <= inn_len + 2,
            inner_ids@.len() == ik,
            iid < inn_len,
            forall|t: int| 0 <= t < ik ==> #[trigger] inner_ids@[t] < inner.nodes@.len(),
        decreases inn_len + 2 - ik,
    {
        inner_ids.push(iid);
        proof {
            crate::graph::lemma_wf_links(*inner, iid as int);
        }
        iid = inner.nodes[iid].next_id;
        ik = ik + 1;
    }
    // remaining cost, filled backward from the terminal state
    let mut cost: Vec<Vec<i64>> = Vec::new();
    let mut o: usize = 0;
    while o <= out_len
        invariant
            out_len <= 0x1_0000,
            inn_len <= 0x1_0000,
            0 <= o <= out_len + 1,
            cost@.len() == o,
            forall|a: int| 0 <= a < o ==> (#[trigger] cost@[a])@.len() == inn_len + 2,
            forall|a: int, b: int|
                0 <= a < o && 0 <= b < inn_len + 2 ==> 0 <= #[trigger] cost@[a]@[b] <= COST_CAP,
        decreases out_len + 1 - o,
    {
        let mut row: Vec<i64> = Vec::new();
        let mut b: usize = 0;
        while b < inn_len + 2
            invariant
                inn_len <= 0x1_0000,
                0 <= b <= inn_len + 2,
                row@.len() == b,
                forall|t: int| 0 <= t < b ==> 0 <= #[trigger] row@[t] <= COST_CAP,
            decreases inn_len + 2 - b,
        {
            row.push(0);
            b = b + 1;
        }
        cost.push(row);
        o = o + 1;
    }
    let mut oo: usize = out_len + 1;
    while oo > 0
        invariant
            out_len <= 0x1_0000,
            inn_len <= 0x1_0000,
            0 <= oo <= out_len + 1,
            out_len == outer.nodes@.len(),
            inn_len == inner.nodes@.len(),
            outer.wf(),
            inner.wf(),
            outer_ids@.len() == out_len + 1,
            inner_ids@.len() == inn_len + 2,
            forall|t: int| 0 <= t < outer_ids@.len() ==> #[trigger] outer_ids@[t] < outer.nodes@.len(),
            forall|t: int| 0 <= t < inner_ids@.len() ==> #[trigger] inner_ids@[t] < inner.nodes@.len(),
            cost@.len() == out_len + 1,
            forall|a: int| 0 <= a < cost@.len() ==> (#[trigger] cost@[a])@.len() == inn_len + 2,
            forall|a: int, b: int|
                0 <= a < cost@.len() && 0 <= b < inn_len + 2 ==> 0 <= #[trigger] cost@[a]@[b]
                    <= COST_CAP,
        decreases oo,
    {
        let a = oo - 1;
        let mut cc: usize = inn_len + 2;
        while cc > 0
            invariant
                out_len <= 0x1_0000,
                inn_len <= 0x1_0000,
                0 <= cc <= inn_len + 2,
                a < cost@.len(),
                out_len == outer.nodes@.len(),
                inn_len == inner.nodes@.len(),
                outer.wf(),
                inner.wf(),
                outer_ids@.len() == out_len + 1,
                inner_ids@.len() == inn_len + 2,
                forall|t: int|
                    0 <= t < outer_ids@.len() ==> #[trigger] outer_ids@[t] < outer.nodes@.len(),
                forall|t: int|
                    0 <= t < inner_ids@.len() ==> #[trigger] inner_ids@[t] < inner.nodes@.len(),
                cost@.len() == out_len + 1,
                forall|x: int| 0 <= x < cost@.len() ==> (#[trigger] cost@[x])@.len() == inn_len + 2,
                forall|x: int, y: int|
                    0 <= x < cost@.len() && 0 <= y < inn_len + 2 ==> 0 <= #[trigger] cost@[x]@[y]
                        <= COST_CAP,
            decreases cc,
        {
            let c = cc - 1;
            // terminal and forced states mirror the walk's branching
            let v: i64 = if c == inn_len + 1 {
                0
            } else if a >= out_len {
                // only the inner pointer may advance
                let out_node = outer.nodes[outer_ids[a]];
                let nxt_inn = inner.nodes[inner_ids[c + 1]];
                let advance_inner_cost = crate::graph::distance_between_nodes(&out_node, &nxt_inn);
                saturating_add(advance_inner_cost, cost[a][c + 1])
            } else if c >= inn_len {
                // only the outer pointer may advance
                let inn_node = inner.nodes[inner_ids[c]];
                let nxt_out = outer.nodes[outer_ids[a + 1]];
                let advance_outer_cost = crate::graph::distance_between_nodes(&inn_node, &nxt_out);
                saturating_add(advance_outer_cost, cost[a + 1][c])
            } else {
                let out_node = outer.nodes[outer_ids[a]];
                let inn_node = inner.nodes[inner_ids[c]];
                let nxt_out = outer.nodes[outer_ids[a + 1]];
                let nxt_inn = inner.nodes[inner_ids[c + 1]];
                let advance_outer_cost = crate::graph::distance_between_nodes(&inn_node, &nxt_out);
                let advance_inner_cost = crate::graph::distance_between_nodes(&out_node, &nxt_inn);
                let through_outer = saturating_add(advance_outer_cost, cost[a + 1][c]);
                let through_inner = saturating_add(advance_inner_cost, cost[a][c + 1]);
                if through_outer <= through_inner {
                    through_outer
                } else {
                    through_inner
                }
            };
            let ghost pre_cost = cost@;
            let mut row = cost.remove(a);
            row.set(c, v);
            cost.insert(a, row);
            proof {
                assert(cost@ =~= pre_cost.update(a as int, row));
            }
            cc = cc - 1;
        }
        oo = oo - 1;
    }
    cost
}

/// Recording one edge between a live outer node and a live inner node,
/// with true cached positions, keeps a stitching symmetric and its cached
/// positions true.
proof fn lemma_stitch_put_keeps_validity(
    pre: Stitching,
    post: Stitching,
    outer_nodes: Seq<Node>,
    inner_nodes: Seq<Node>,
    inn: CorrEntry,
    out: CorrEntry,
)
    requires
        pre.wf(outer_nodes.len() as int, inner_nodes.len() as int),
        symmetric(pre, outer_nodes.len() as int, inner_nodes.len() as int),
        positions_cached(pre, outer_nodes, inner_nodes),
        out.0 < outer_nodes.len(),
        inn.0 < inner_nodes.len(),
        out.1 == outer_nodes[out.0 as int].x,
        out.2 == outer_nodes[out.0 as int].y,
        inn.1 == inner_nodes[inn.0 as int].x,
        inn.2 == inner_nodes[inn.0 as int].y,
        post.layers@.len() == 2,
        post.layers@[OUTER as int].lists@.len() == outer_nodes.len(),
        post.layers@[INNER as int].lists@.len() == inner_nodes.len(),
        post.list(OUTER as int, out.0 as int) == pre.list(OUTER as int, out.0 as int).push(inn),
        post.list(INNER as int, inn.0 as int) == pre.list(INNER as int, inn.0 as int).push(out),
        forall|k: int|
            0 <= k < outer_nodes.len() && k != out.0 ==> (#[trigger] post.list(OUTER as int, k))
                == pre.list(OUTER as int, k),
        forall|k: int|
            0 <= k < inner_nodes.len() && k != inn.0 ==> (#[trigger] post.list(INNER as int, k))
                == pre.list(INNER as int, k),
    ensures
        symmetric(post, outer_nodes.len() as int, inner_nodes.len() as int),
        positions_cached(post, outer_nodes, inner_nodes),
        forall|k: int|
            0 <= k < outer_nodes.len() ==> (#[trigger] post.list(OUTER as int, k)).len()
                >= pre.list(OUTER as int, k).len(),
        forall|k: int|
            0 <= k < inner_nodes.len() ==> (#[trigger] post.list(INNER as int, k)).len()
                >= pre.list(INNER as int, k).len(),
        post.list(OUTER as int, out.0 as int).len() >= 1,
        post.list(INNER as int, inn.0 as int).len() >= 1,
{
    let out_n = outer_nodes.len() as int;
    let inn_n = inner_nodes.len() as int;
    assert forall|o: int, j: int|
        0 <= o < out_n && 0 <= j < post.list(OUTER as int, o).len() implies 0 <= (
    #[trigger] post.list(OUTER as int, o)[j]).0 < inn_n && has_entry(
        post.list(INNER as int, post.list(OUTER as int, o)[j].0 as int),
        o,
    ) by {
        let e = post.list(OUTER as int, o)[j];
        if o == out.0 && j == pre.list(OUTER as int, o).len() {
            assert(e == inn);
            assert(post.list(INNER as int, inn.0 as int)[pre.list(
                INNER as int,
                inn.0 as int,
            ).len() as int] == out);
            assert(has_entry(post.list(INNER as int, inn.0 as int), o));
        } else {
            assert(e == pre.list(OUTER as int, o)[j]);
            assert(has_entry(pre.list(INNER as int, e.0 as int), o));
            if e.0 == inn.0 {
                lemma_has_entry_push(pre.list(INNER as int, e.0 as int), out, o);
            }
        }
    }
    assert forall|i: int, j: int|
        0 <= i < inn_n && 0 <= j < post.list(INNER as int, i).len() implies 0 <= (
    #[trigger] post.list(INNER as int, i)[j]).0 < out_n && has_entry(
        post.list(OUTER as int, post.list(INNER as int, i)[j].0 as int),
        i,
    ) by {
        let e = post.list(INNER as int, i)[j];
        if i == inn.0 && j == pre.list(INNER as int, i).len() {
            assert(e == out);
            assert(post.list(OUTER as int, out.0 as int)[pre.list(
                OUTER as int,
                out.0 as int,
            ).len() as int] == inn);
            assert(has_entry(post.list(OUTER as int, out.0 as int), i));
        } else {
            assert(e == pre.list(INNER as int, i)[j]);
            assert(has_entry(pre.list(OUTER as int, e.0 as int), i));
            if e.0 == out.0 {
                lemma_has_entry_push(pre.list(OUTER as int, e.0 as int), inn, i);
            }
        }
    }
    assert forall|o: int, j: int|
        0 <= o < out_n && 0 <= j < post.list(OUTER as int, o).len() implies (#[trigger] post.list(
            OUTER as int,
            o,
        )[j]).1 == inner_nodes[post.list(OUTER as int, o)[j].0 as int].x && post.list(
            OUTER as int,
            o,
        )[j].2 == inner_nodes[post.list(OUTER as int, o)[j].0 as int].y by {
        if o == out.0 && j == pre.list(OUTER as int, o).len() {
        } else {
            assert(post.list(OUTER as int, o)[j] == pre.list(OUTER as int, o)[j]);
        }
    }
    assert forall|i: int, j: int|
        0 <= i < inn_n && 0 <= j < post.list(INNER as int, i).len() implies (#[trigger] post.list(
            INNER as int,
            i,
        )[j]).1 == outer_nodes[post.list(INNER as int, i)[j].0 as int].x && post.list(
            INNER as int,
            i,
        )[j].2 == outer_nodes[post.list(INNER as int, i)[j].0 as int].y by {
        if i == inn.0 && j == pre.list(INNER as int, i).len() {
        } else {
            assert(post.list(INNER as int, i)[j] == pre.list(INNER as int, i)[j]);
        }
    }
}

/// Builds the correspondence for the surface with the greedy synchronized
/// walk.
pub fn stitch(ts: &ThickSurface) -> (st: Stitching)
    requires
        ts.wf(),
    ensures
        valid_stitching(
            st,
            ts.layers@[OUTER as int].nodes@,
            ts.layers@[INNER as int].nodes@,
        ),
        total_edges(st, OUTER as int, ts.layers@[OUTER as int].nodes@.len() as int)
            == ts.layers@[OUTER as int].nodes@.len() + ts.layers@[INNER as int].nodes@.len() + 1,
        total_edges(st, INNER as int, ts.layers@[INNER as int].nodes@.len() as int)
            == ts.layers@[OUTER as int].nodes@.len() + ts.layers@[INNER as int].nodes@.len() + 1,
{
    greedy(ts)
}


/// Inner partner `p` of the given node would be orphaned by removing the
/// node: the node is `p`'s one and only correspondent.
pub open spec fn sole_partner(st: Stitching, layer_id: int, node_id: int, p: int) -> bool {
    let other = 1 - layer_id;
    &&& 0 <= p < st.layers@[other].lists@.len()
    &&& st.list(other, p).len() == 1
    &&& st.list(other, p)[0].0 == node_id
}

/// Whether removing the given node keeps every opposite-layer partner
/// stitched: false exactly when some correspondent of the node has the
/// node as its sole correspondent. A node the (possibly stale)
/// correspondence does not know keeps no one stitched, so it may go.
pub open spec fn merge_allowed_spec(st: Stitching, layer_id: int, node_id: int) -> bool {
    if 0 <= node_id < st.layers@[layer_id].lists@.len() {
        forall|j: int|
            0 <= j < st.list(layer_id, node_id).len() ==> !sole_partner(
                st,
                layer_id,
                node_id,
                (#[trigger] st.list(layer_id, node_id)[j]).0 as int,
            )
    } else {
        true
    }
}

/// Decides [`merge_allowed_spec`]: the guard the topology editor checks
/// before merging a node away.
pub fn merge_allowed(st: &Stitching, layer_id: usize, node_id: usize) -> (r: bool)
    requires
        st.layers@.len() == 2,
        layer_id < 2,
    ensures
        r == merge_allowed_spec(*st, layer_id as int, node_id as int),
{
    let lists_len = st.layers[layer_id].lists.len();
    if node_id >= lists_len {
        return true;
    }
    let own_len = st.layers[layer_id].len_of(node_id);
    if own_len == 0 {
        proof {
            assert(merge_allowed_spec(*st, layer_id as int, node_id as int));
        }
        return true;
    }
    let entries = st.layers[layer_id].get(node_id);
    let other: usize = 1 - layer_id;
    let other_len = st.layers[other].lists.len();
    let n = entries.len();
    let mut j: usize = 0;
    while j < n
        invariant
            st.layers@.len() == 2,
            layer_id < 2,
            other == 1 - layer_id,
            node_id < st.layers@[layer_id as int].lists@.len(),
            other_len == st.layers@[other as int].lists@.len(),
            entries@ == st.list(layer_id as int, node_id as int),
            n == entries@.len(),
            0 <= j <= n,
            forall|k: int|
                0 <= k < j ==> !sole_partner(
                    *st,
                    layer_id as int,
                    node_id as int,
                    (#[trigger] st.list(layer_id as int, node_id as int)[k]).0 as int,
                ),
        decreases n - j,
    {
        let p = entries[j].0;
        if p < other_len {
            let plen = st.layers[other].len_of(p);
            if plen == 1 {
                let back = st.layers[other].get(p);
                if back[0].0 == node_id {
                    proof {
                        assert(sole_partner(*st, layer_id as int, node_id as int, p as int));
                    }
                    return false;
                }
            }
        }
        j = j + 1;
    }
    true
}


/// Which construction builds the correspondence: the monotone alignment
/// chosen by dynamic programming over alignment states (intended to
/// minimise the total crossing length), or the cheaper locally greedy
/// walk. Either way the contract is validity; the cost of the chosen
/// alignment is not part of it.
#[derive(Debug, Clone, Copy, PartialEq, Eq, Structural)]
pub enum Strategy {
    Dijkstra,
    Greedy,
}

/// Builds the correspondence with the chosen strategy. Either way the
/// result is a valid stitching.
pub fn stitch_choice(ts: &ThickSurface, strategy: Strategy) -> (st: Stitching)
    requires
        ts.wf(),
    ensures
        valid_stitching(
            st,
            ts.layers@[OUTER as int].nodes@,
            ts.layers@[INNER as int].nodes@,
        ),
        total_edges(st, OUTER as int, ts.layers@[OUTER as int].nodes@.len() as int)
            == ts.layers@[OUTER as int].nodes@.len() + ts.layers@[INNER as int].nodes@.len() + 1,
        total_edges(st, INNER as int, ts.layers@[INNER as int].nodes@.len() as int)
            == ts.layers@[OUTER as int].nodes@.len() + ts.layers@[INNER as int].nodes@.len() + 1,
{
    match strategy {
        Strategy::Dijkstra => smart(ts),
        Strategy::Greedy => greedy(ts),
    }
}

/// Builds the correspondence with the default strategy: the
/// shortest-path alignment.
pub fn stitch_default(ts: &ThickSurface) -> (st: Stitching)
    requires
        ts.wf(),
    ensures
        valid_stitching(
            st,
            ts.layers@[OUTER as int].nodes@,
            ts.layers@[INNER as int].nodes@,
        ),
        total_edges(st, OUTER as int, ts.layers@[OUTER as int].nodes@.len() as int)
            == ts.layers@[OUTER as int].nodes@.len() + ts.layers@[INNER as int].nodes@.len() + 1,
        total_edges(st, INNER as int, ts.layers@[INNER as int].nodes@.len() as int)
            == ts.layers@[OUTER as int].nodes@.len() + ts.layers@[INNER as int].nodes@.len() + 1,
{
    stitch_choice(ts, Strategy::Dijkstra)
}

} // verus!

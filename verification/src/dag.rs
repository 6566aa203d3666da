//! Bounded window of live DAG topology: block metadata nodes addressed
//! by stable integer handles, parent-to-child edges, FIFO eviction, a
//! local chain-membership heuristic and the fracture search.
//!
//! Nodes carry strictly increasing insertion ids, and every edge runs
//! from an older node to a newer one, so both chain walks terminate by
//! construction. Eviction drops a node and all its incident edges; a
//! still-live child is silently detached from an evicted parent and is
//! never re-bridged. Duplicate-hash insertion is permitted and creates
//! a second node; hash lookups resolve to the newest matching node,
//! shadowing older ones.

use vstd::prelude::*;

verus! {

/// Fracture search refuses to run below this many live nodes.
pub const MIN_FRACTURE_NODES: usize = 10;

/// Metadata of one observed block.
pub struct BlockInfo {
    /// Identity of the block, as opaque bytes.
    pub hash: Vec<u8>,
    /// Consensus weight metric, used as a local ordering heuristic.
    pub blue_score: u64,
    /// Hashes of the block's direct parents, in header order.
    pub parents: Vec<Vec<u8>>,
    /// Unix timestamp of the block.
    pub timestamp: u64,
}

/// A live node: one block plus its stable insertion handle.
pub struct DagNode {
    /// Stable handle; strictly increasing with insertion order.
    pub id: u64,
    /// The block this node stands for.
    pub info: BlockInfo,
}

/// A parent-to-child edge between two live nodes.
#[derive(Clone, Copy, PartialEq, Eq, Structural)]
pub struct DagEdge {
    /// Handle of the parent node; always less than `to`.
    pub from: u64,
    /// Handle of the child node.
    pub to: u64,
}

/// The bounded, insertion-ordered window of DAG topology.
pub struct RollingDag {
    /// Live nodes, oldest first.
    pub nodes: Vec<DagNode>,
    /// Edges between live nodes, in insertion order.
    pub edges: Vec<DagEdge>,
    /// Maximum number of live nodes.
    pub capacity: usize,
    /// Handle the next inserted node will get.
    pub next_id: u64,
}

/// The id of the newest node carrying the given hash, if any.
pub open spec fn find_newest(nodes: Seq<DagNode>, h: Seq<u8>) -> Option<u64>
    decreases nodes.len(),
{
    if nodes.len() == 0 {
        None
    } else if nodes.last().info.hash@ == h {
        Some(nodes.last().id)
    } else {
        find_newest(nodes.drop_last(), h)
    }
}

/// The edges that survive evicting the node with the given id.
pub open spec fn keep_edges(edges: Seq<DagEdge>, evicted: u64) -> Seq<DagEdge>
    decreases edges.len(),
{
    if edges.len() == 0 {
        Seq::empty()
    } else {
        let head = if edges.first().from != evicted && edges.first().to != evicted {
            seq![edges.first()]
        } else {
            Seq::empty()
        };
        head + keep_edges(edges.drop_first(), evicted)
    }
}

/// The edges a new node gains from its parent list: one edge per
/// parent hash still resident among the older nodes, in parent order.
pub open spec fn parent_edges(nodes: Seq<DagNode>, parents: Seq<Vec<u8>>, new_id: u64) -> Seq<
    DagEdge,
>
    decreases parents.len(),
{
    if parents.len() == 0 {
        Seq::empty()
    } else {
        let head = match find_newest(nodes, parents.first()@) {
            Some(pid) => seq![DagEdge { from: pid, to: new_id }],
            None => Seq::empty(),
        };
        head + parent_edges(nodes, parents.drop_first(), new_id)
    }
}

/// The source of the first edge in list order that enters the given
/// node.
pub open spec fn first_incoming(edges: Seq<DagEdge>, to: u64) -> Option<u64>
    decreases edges.len(),
{
    if edges.len() == 0 {
        None
    } else if edges.first().to == to {
        Some(edges.first().from)
    } else {
        first_incoming(edges.drop_first(), to)
    }
}

/// A first incoming source really has an edge into the node.
proof fn lemma_first_incoming_edge(edges: Seq<DagEdge>, to: u64)
    ensures
        first_incoming(edges, to) matches Some(p) ==> exists|k: int|
            0 <= k < edges.len() && edges[k].to == to && #[trigger] edges[k].from == p,
    decreases edges.len(),
{
    if edges.len() > 0 {
        if edges.first().to == to {
            assert(edges[0] == edges.first());
        } else {
            lemma_first_incoming_edge(edges.drop_first(), to);
            if first_incoming(edges.drop_first(), to) is Some {
                let p = first_incoming(edges.drop_first(), to)->Some_0;
                let k = choose|k: int|
                    0 <= k < edges.drop_first().len() && edges.drop_first()[k].to == to
                        && edges.drop_first()[k].from == p;
                assert(edges[k + 1] == edges.drop_first()[k]);
            }
        }
    }
}

/// Scanning one more edge extends the kept list at its end.
proof fn lemma_keep_edges_push(edges: Seq<DagEdge>, x: DagEdge, evicted: u64)
    ensures
        keep_edges(edges.push(x), evicted) == keep_edges(edges, evicted) + (if x.from != evicted
            && x.to != evicted {
            seq![x]
        } else {
            Seq::<DagEdge>::empty()
        }),
    decreases edges.len(),
{
    let tail = if x.from != evicted && x.to != evicted {
        seq![x]
    } else {
        Seq::<DagEdge>::empty()
    };
    let ep = edges.push(x);
    if edges.len() == 0 {
        assert(ep.first() == x);
        assert(ep.drop_first() =~= Seq::<DagEdge>::empty());
        assert(keep_edges(ep.drop_first(), evicted) == Seq::<DagEdge>::empty());
        assert(keep_edges(ep, evicted) == tail + keep_edges(ep.drop_first(), evicted));
        assert(keep_edges(ep, evicted) =~= keep_edges(edges, evicted) + tail);
    } else {
        let head = if edges.first().from != evicted && edges.first().to != evicted {
            seq![edges.first()]
        } else {
            Seq::<DagEdge>::empty()
        };
        assert(ep.first() == edges.first());
        assert(ep.drop_first() =~= edges.drop_first().push(x));
        lemma_keep_edges_push(edges.drop_first(), x, evicted);
        assert(keep_edges(ep, evicted) == head + keep_edges(edges.drop_first().push(x), evicted));
        assert(keep_edges(edges, evicted) == head + keep_edges(edges.drop_first(), evicted));
        assert(keep_edges(ep, evicted) =~= keep_edges(edges, evicted) + tail);
    }
}

/// Every kept edge avoids the evicted node and comes from the old
/// edge list.
proof fn lemma_keep_edges_props(edges: Seq<DagEdge>, evicted: u64)
    ensures
        forall|k: int|
            0 <= k < keep_edges(edges, evicted).len() ==> {
                let e = #[trigger] keep_edges(edges, evicted)[k];
                e.from != evicted && e.to != evicted && edges.contains(e)
            },
    decreases edges.len(),
{
    if edges.len() > 0 {
        let rest = edges.drop_first();
        lemma_keep_edges_props(rest, evicted);
        let head = if edges.first().from != evicted && edges.first().to != evicted {
            seq![edges.first()]
        } else {
            Seq::<DagEdge>::empty()
        };
        assert(keep_edges(edges, evicted) == head + keep_edges(rest, evicted));
        assert forall|k: int| 0 <= k < keep_edges(edges, evicted).len() implies {
            let e = #[trigger] keep_edges(edges, evicted)[k];
            e.from != evicted && e.to != evicted && edges.contains(e)
        } by {
            let e = keep_edges(edges, evicted)[k];
            if k < head.len() {
                assert(e == edges.first());
                assert(edges[0] == edges.first());
            } else {
                assert(e == keep_edges(rest, evicted)[k - head.len()]);
                assert(rest.contains(e));
                let j = choose|j: int| 0 <= j < rest.len() && rest[j] == e;
                assert(edges[j + 1] == e);
            }
        }
    }
}

/// A found hash names the id of a node that is really there.
proof fn lemma_find_newest_present(nodes: Seq<DagNode>, h: Seq<u8>)
    ensures
        find_newest(nodes, h) matches Some(pid) ==> exists|i: int|
            0 <= i < nodes.len() && nodes[i].id == pid && nodes[i].info.hash@ == h,
    decreases nodes.len(),
{
    if nodes.len() > 0 {
        if nodes.last().info.hash@ == h {
            assert(nodes[nodes.len() - 1] == nodes.last());
        } else {
            lemma_find_newest_present(nodes.drop_last(), h);
            if find_newest(nodes.drop_last(), h) is Some {
                let pid = find_newest(nodes.drop_last(), h)->Some_0;
                let j = choose|j: int|
                    0 <= j < nodes.drop_last().len() && nodes.drop_last()[j].id == pid
                        && nodes.drop_last()[j].info.hash@ == h;
                assert(nodes[j] == nodes.drop_last()[j]);
            }
        }
    }
}

/// Every gained edge points at the new node and starts at some
/// resident node.
proof fn lemma_parent_edges_props(nodes: Seq<DagNode>, parents: Seq<Vec<u8>>, new_id: u64)
    ensures
        forall|k: int|
            0 <= k < parent_edges(nodes, parents, new_id).len() ==> {
                let e = #[trigger] parent_edges(nodes, parents, new_id)[k];
                e.to == new_id && exists|i: int| 0 <= i < nodes.len() && nodes[i].id == e.from
            },
    decreases parents.len(),
{
    if parents.len() > 0 {
        let rest = parents.drop_first();
        lemma_parent_edges_props(nodes, rest, new_id);
        lemma_find_newest_present(nodes, parents.first()@);
        let head = match find_newest(nodes, parents.first()@) {
            Some(pid) => seq![DagEdge { from: pid, to: new_id }],
            None => Seq::<DagEdge>::empty(),
        };
        assert(parent_edges(nodes, parents, new_id) == head + parent_edges(nodes, rest, new_id));
        assert forall|k: int| 0 <= k < parent_edges(nodes, parents, new_id).len() implies {
            let e = #[trigger] parent_edges(nodes, parents, new_id)[k];
            e.to == new_id && exists|i: int| 0 <= i < nodes.len() && nodes[i].id == e.from
        } by {
            let e = parent_edges(nodes, parents, new_id)[k];
            if k < head.len() {
                assert(e == head[0]);
            } else {
                assert(e == parent_edges(nodes, rest, new_id)[k - head.len()]);
            }
        }
    }
}

/// Inserting a node under a fresh handle, after evicting the oldest
/// node when at capacity, preserves the window invariants.
proof fn lemma_insert_wf(pre: RollingDag, post: RollingDag, parents: Seq<Vec<u8>>, node: DagNode)
    requires
        pre.wf(),
        pre.capacity >= 1,
        pre.next_id < u64::MAX,
        post.capacity == pre.capacity,
        post.next_id == pre.next_id + 1,
        node.id == pre.next_id,
        ({
            let evict = pre.nodes@.len() >= pre.capacity;
            let base = if evict {
                pre.nodes@.drop_first()
            } else {
                pre.nodes@
            };
            let kept = if evict {
                keep_edges(pre.edges@, pre.nodes@[0].id)
            } else {
                pre.edges@
            };
            &&& post.nodes@ == base.push(node)
            &&& post.edges@ == kept + parent_edges(base, parents, pre.next_id)
        }),
    ensures
        post.wf(),
{
    let evict = pre.nodes@.len() >= pre.capacity;
    let base = if evict {
        pre.nodes@.drop_first()
    } else {
        pre.nodes@
    };
    let kept = if evict {
        keep_edges(pre.edges@, pre.nodes@[0].id)
    } else {
        pre.edges@
    };
    let pe = parent_edges(base, parents, pre.next_id);
    let n = post.nodes@.len() as int;
    assert(forall|i: int| 0 <= i < base.len() ==> base[i] == pre.nodes@[i + (if evict { 1int } else { 0int })]);
    assert forall|i: int, j: int| 0 <= i < j < n implies #[trigger] post.nodes@[i].id
        < #[trigger] post.nodes@[j].id by {
        if j < n - 1 {
            assert(post.nodes@[i] == base[i] && post.nodes@[j] == base[j]);
        } else {
            assert(post.nodes@[i] == base[i]);
            assert(post.nodes@[j] == post.nodes@.last());
        }
    }
    assert forall|i: int| 0 <= i < n implies #[trigger] post.nodes@[i].id < post.next_id by {
        if i < n - 1 {
            assert(post.nodes@[i] == base[i]);
        }
    }
    if evict {
        lemma_keep_edges_props(pre.edges@, pre.nodes@[0].id);
    }
    lemma_parent_edges_props(base, parents, pre.next_id);
    assert forall|k: int| 0 <= k < post.edges@.len() implies post.has_id(
        #[trigger] post.edges@[k].from,
    ) && post.has_id(post.edges@[k].to) && post.edges@[k].from < post.edges@[k].to by {
        let e = post.edges@[k];
        if k < kept.len() {
            assert(e == kept[k]);
            if evict {
                assert(pre.edges@.contains(e) && e.from != pre.nodes@[0].id && e.to
                    != pre.nodes@[0].id);
                let j = choose|j: int| 0 <= j < pre.edges@.len() && pre.edges@[j] == e;
                assert(pre.has_id(e.from) && pre.has_id(e.to) && e.from < e.to);
                let mf = choose|m: int| 0 <= m < pre.nodes@.len() && pre.nodes@[m].id == e.from;
                let mt = choose|m: int| 0 <= m < pre.nodes@.len() && pre.nodes@[m].id == e.to;
                assert(mf != 0 && mt != 0);
                assert(post.nodes@[mf - 1] == base[mf - 1] && base[mf - 1] == pre.nodes@[mf]);
                assert(post.nodes@[mt - 1] == base[mt - 1] && base[mt - 1] == pre.nodes@[mt]);
            } else {
                assert(pre.has_id(e.from) && pre.has_id(e.to) && e.from < e.to);
                let mf = choose|m: int| 0 <= m < pre.nodes@.len() && pre.nodes@[m].id == e.from;
                let mt = choose|m: int| 0 <= m < pre.nodes@.len() && pre.nodes@[m].id == e.to;
                assert(post.nodes@[mf] == base[mf] && post.nodes@[mt] == base[mt]);
            }
        } else {
            assert(e == pe[k - kept.len()]);
            assert(e.to == pre.next_id && exists|i: int|
                0 <= i < base.len() && base[i].id == e.from);
            let m = choose|m: int| 0 <= m < base.len() && base[m].id == e.from;
            assert(post.nodes@[m] == base[m]);
            assert(post.nodes@[n - 1].id == e.to);
            assert(base[m].id < pre.next_id) by {
                if evict {
                    assert(base[m] == pre.nodes@[m + 1]);
                }
            }
        }
    }
}

/// The live-node count follows `min(inserts, capacity)`: one insert
/// into a window holding the count for `n` earlier inserts leaves the
/// count at `min(n + 1, capacity)`. Insertion reports its new count as
/// the left-hand shape; this law rewrites it to the minimum, so that
/// by induction over any insertion sequence the count never exceeds
/// the capacity.
pub proof fn lemma_live_count_follows_min(count: int, capacity: int, inserts: int)
    requires
        capacity >= 1,
        inserts >= 0,
        count == if inserts < capacity {
            inserts
        } else {
            capacity
        },
    ensures
        (if count >= capacity {
            count
        } else {
            count + 1
        }) == if inserts + 1 < capacity {
            inserts + 1
        } else {
            capacity
        },
{
}

/// A hash that no node carries is never found.
proof fn lemma_find_newest_none(nodes: Seq<DagNode>, h: Seq<u8>)
    requires
        forall|i: int| 0 <= i < nodes.len() ==> #[trigger] nodes[i].info.hash@ != h,
    ensures
        find_newest(nodes, h) is None,
    decreases nodes.len(),
{
    if nodes.len() > 0 {
        assert(nodes[nodes.len() - 1] == nodes.last());
        assert(forall|i: int| 0 <= i < nodes.len() - 1 ==> nodes.drop_last()[i] == nodes[i]);
        lemma_find_newest_none(nodes.drop_last(), h);
    }
}

/// What eviction leaves behind: the evicted handle is gone, no
/// surviving edge touches it, and if no other live node shares the
/// evicted hash, that hash can no longer be found.
proof fn lemma_evict_consequences(
    pre: RollingDag,
    post: RollingDag,
    parents: Seq<Vec<u8>>,
    node: DagNode,
)
    requires
        pre.wf(),
        pre.capacity >= 1,
        pre.next_id < u64::MAX,
        node.id == pre.next_id,
        pre.nodes@.len() >= pre.capacity,
        post.nodes@ == pre.nodes@.drop_first().push(node),
        post.edges@ == keep_edges(pre.edges@, pre.nodes@[0].id) + parent_edges(
            pre.nodes@.drop_first(),
            parents,
            pre.next_id,
        ),
    ensures
        !post.has_id(pre.nodes@[0].id),
        forall|k: int|
            0 <= k < post.edges@.len() ==> #[trigger] post.edges@[k].from != pre.nodes@[0].id
                && post.edges@[k].to != pre.nodes@[0].id,
        (forall|j: int|
            1 <= j < pre.nodes@.len() ==> #[trigger] pre.nodes@[j].info.hash@
                != pre.nodes@[0].info.hash@) && node.info.hash@ != pre.nodes@[0].info.hash@
            ==> find_newest(post.nodes@, pre.nodes@[0].info.hash@) is None,
{
    let ev = pre.nodes@[0].id;
    let base = pre.nodes@.drop_first();
    let kept = keep_edges(pre.edges@, ev);
    assert(forall|i: int| 0 <= i < base.len() ==> base[i] == pre.nodes@[i + 1]);
    assert forall|i: int| 0 <= i < post.nodes@.len() implies #[trigger] post.nodes@[i].id != ev by {
        if i < base.len() {
            assert(post.nodes@[i] == pre.nodes@[i + 1]);
        } else {
            assert(post.nodes@[i] == node);
        }
    }
    lemma_keep_edges_props(pre.edges@, ev);
    lemma_parent_edges_props(base, parents, pre.next_id);
    assert forall|k: int| 0 <= k < post.edges@.len() implies #[trigger] post.edges@[k].from != ev
        && post.edges@[k].to != ev by {
        let e = post.edges@[k];
        if k < kept.len() {
            assert(e == kept[k]);
        } else {
            assert(e == parent_edges(base, parents, pre.next_id)[k - kept.len()]);
            let m = choose|m: int| 0 <= m < base.len() && base[m].id == e.from;
            assert(base[m] == pre.nodes@[m + 1]);
        }
    }
    if (forall|j: int|
        1 <= j < pre.nodes@.len() ==> #[trigger] pre.nodes@[j].info.hash@
            != pre.nodes@[0].info.hash@) && node.info.hash@ != pre.nodes@[0].info.hash@ {
        assert forall|i: int| 0 <= i < post.nodes@.len() implies #[trigger] post.nodes@[i].info.hash@
            != pre.nodes@[0].info.hash@ by {
            if i < base.len() {
                assert(post.nodes@[i] == pre.nodes@[i + 1]);
            } else {
                assert(post.nodes@[i] == node);
            }
        }
        lemma_find_newest_none(post.nodes@, pre.nodes@[0].info.hash@);
    }
}

/// Scanning one more parent extends the gained edges at their end.
proof fn lemma_parent_edges_push(nodes: Seq<DagNode>, parents: Seq<Vec<u8>>, x: Vec<u8>, new_id: u64)
    ensures
        parent_edges(nodes, parents.push(x), new_id) == parent_edges(nodes, parents, new_id) + (
        match find_newest(nodes, x@) {
            Some(pid) => seq![DagEdge { from: pid, to: new_id }],
            None => Seq::<DagEdge>::empty(),
        }),
    decreases parents.len(),
{
    let tail = match find_newest(nodes, x@) {
        Some(pid) => seq![DagEdge { from: pid, to: new_id }],
        None => Seq::<DagEdge>::empty(),
    };
    let pp = parents.push(x);
    if parents.len() == 0 {
        assert(pp.first() == x);
        assert(pp.drop_first() =~= Seq::<Vec<u8>>::empty());
        assert(parent_edges(nodes, pp.drop_first(), new_id) == Seq::<DagEdge>::empty());
        assert(parent_edges(nodes, pp, new_id) == tail + parent_edges(
            nodes,
            pp.drop_first(),
            new_id,
        ));
        assert(parent_edges(nodes, pp, new_id) =~= parent_edges(nodes, parents, new_id) + tail);
    } else {
        let head = match find_newest(nodes, parents.first()@) {
            Some(pid) => seq![DagEdge { from: pid, to: new_id }],
            None => Seq::<DagEdge>::empty(),
        };
        assert(pp.first() == parents.first());
        assert(pp.drop_first() =~= parents.drop_first().push(x));
        lemma_parent_edges_push(nodes, parents.drop_first(), x, new_id);
        assert(parent_edges(nodes, pp, new_id) == head + parent_edges(
            nodes,
            parents.drop_first().push(x),
            new_id,
        ));
        assert(parent_edges(nodes, parents, new_id) == head + parent_edges(
            nodes,
            parents.drop_first(),
            new_id,
        ));
        assert(parent_edges(nodes, pp, new_id) =~= parent_edges(nodes, parents, new_id) + tail);
    }
}

impl RollingDag {
    /// Some live node carries this id.
    pub open spec fn has_id(self, id: u64) -> bool {
        exists|i: int| 0 <= i < self.nodes@.len() && self.nodes@[i].id == id
    }

    /// Index of the live node carrying this id.
    pub open spec fn idx_of(self, id: u64) -> int {
        choose|i: int| 0 <= i < self.nodes@.len() && self.nodes@[i].id == id
    }

    /// The live node carrying this id.
    pub open spec fn node_of(self, id: u64) -> DagNode {
        self.nodes@[self.idx_of(id)]
    }

    /// Blue score of the live node carrying this id.
    pub open spec fn blue_of(self, id: u64) -> u64 {
        self.node_of(id).info.blue_score
    }

    /// Invariants of the window: the node count is bounded by the
    /// capacity, ids grow strictly with insertion order and stay below
    /// the next handle, and every edge joins two live nodes, older to
    /// newer.
    pub open spec fn wf(self) -> bool {
        &&& self.nodes@.len() <= self.capacity
        &&& forall|i: int, j: int|
            0 <= i < j < self.nodes@.len() ==> #[trigger] self.nodes@[i].id
                < #[trigger] self.nodes@[j].id
        &&& forall|i: int| 0 <= i < self.nodes@.len() ==> #[trigger] self.nodes@[i].id < self.next_id
        &&& forall|k: int|
            0 <= k < self.edges@.len() ==> self.has_id(#[trigger] self.edges@[k].from)
                && self.has_id(self.edges@[k].to) && self.edges@[k].from < self.edges@[k].to
    }

    /// A fresh, empty window of the given capacity.
    pub fn new(capacity: usize) -> (r: RollingDag)
        ensures
            r.nodes@ =~= Seq::<DagNode>::empty(),
            r.edges@ =~= Seq::<DagEdge>::empty(),
            r.capacity == capacity,
            r.next_id == 0,
            r.wf(),
    {
        RollingDag { nodes: Vec::new(), edges: Vec::new(), capacity, next_id: 0 }
    }

    /// Number of live nodes.
    pub fn node_count(&self) -> (r: usize)
        ensures
            r == self.nodes@.len(),
    {
        self.nodes.len()
    }

    /// Index of the live node with the given id, scanning oldest
    /// first. Ids are unique under the window invariant.
    pub(crate) fn find_index_by_id(&self, id: u64) -> (r: Option<usize>)
        ensures
            r matches Some(i) ==> i < self.nodes@.len() && self.nodes@[i as int].id == id,
            r is None ==> !self.has_id(id),
    {
        let n = self.nodes.len();
        let mut i: usize = 0;
        while i < n
            invariant
                i <= n,
                n == self.nodes@.len(),
                forall|j: int| 0 <= j < i ==> #[trigger] self.nodes@[j].id != id,
            decreases n - i,
        {
            if self.nodes[i].id == id {
                return Some(i);
            }
            i = i + 1;
        }
        None
    }

    /// Index of the newest live node carrying the given hash: the
    /// node the hash index resolves to.
    pub(crate) fn find_index_by_hash(&self, h: &Vec<u8>) -> (r: Option<usize>)
        ensures
            r matches Some(i) ==> i < self.nodes@.len() && self.nodes@[i as int].info.hash@ == h@
                && find_newest(self.nodes@, h@) == Some(self.nodes@[i as int].id),
            r is None ==> find_newest(self.nodes@, h@) is None,
    {
        let n = self.nodes.len();
        proof {
            assert(self.nodes@.take(n as int) =~= self.nodes@);
        }
        let mut i: usize = n;
        while i > 0
            invariant
                i <= n,
                n == self.nodes@.len(),
                find_newest(self.nodes@, h@) == find_newest(self.nodes@.take(i as int), h@),
            decreases i,
        {
            proof {
                assert(self.nodes@.take(i as int).last() == self.nodes@[i - 1]);
                assert(self.nodes@.take(i as int).drop_last() =~= self.nodes@.take(i - 1));
            }
            if crate::bytes::bytes_eq(&self.nodes[i - 1].info.hash, h) {
                return Some(i - 1);
            }
            i = i - 1;
        }
        proof {
            assert(self.nodes@.take(0) =~= Seq::<DagNode>::empty());
        }
        None
    }

    /// Evict the oldest node and every edge incident to it.
    fn evict_oldest(&mut self)
        requires
            old(self).nodes@.len() >= 1,
        ensures
            final(self).nodes@ == old(self).nodes@.drop_first(),
            final(self).edges@ == keep_edges(old(self).edges@, old(self).nodes@[0].id),
            final(self).capacity == old(self).capacity,
            final(self).next_id == old(self).next_id,
    {
        let old_node = self.nodes.remove(0);
        proof {
            assert(self.nodes@ =~= old(self).nodes@.drop_first());
        }
        let m = self.edges.len();
        let mut kept: Vec<DagEdge> = Vec::new();
        let mut k: usize = 0;
        while k < m
            invariant
                k <= m,
                m == self.edges@.len(),
                kept@ == keep_edges(self.edges@.take(k as int), old_node.id),
            decreases m - k,
        {
            let e = self.edges[k];
            proof {
                assert(self.edges@.take(k + 1) =~= self.edges@.take(k as int).push(
                    self.edges@[k as int],
                ));
                lemma_keep_edges_push(
                    self.edges@.take(k as int),
                    self.edges@[k as int],
                    old_node.id,
                );
            }
            if e.from != old_node.id && e.to != old_node.id {
                kept.push(e);
            }
            k = k + 1;
        }
        proof {
            assert(self.edges@.take(m as int) =~= self.edges@);
        }
        self.edges = kept;
    }

    /// Add an edge from every parent hash still resident in the
    /// window to the node about to be inserted.
    fn link_parents(&mut self, parents: &Vec<Vec<u8>>, new_id: u64)
        ensures
            final(self).nodes@ == old(self).nodes@,
            final(self).edges@ == old(self).edges@ + parent_edges(
                old(self).nodes@,
                parents@,
                new_id,
            ),
            final(self).capacity == old(self).capacity,
            final(self).next_id == old(self).next_id,
    {
        let ghost base = self.nodes@;
        let ghost kept_edges = self.edges@;
        let pn = parents.len();
        proof {
            assert(parents@.take(0) =~= Seq::<Vec<u8>>::empty());
        }
        let mut p: usize = 0;
        while p < pn
            invariant
                p <= pn,
                pn == parents@.len(),
                self.nodes@ == base,
                self.capacity == old(self).capacity,
                self.next_id == old(self).next_id,
                self.edges@ == kept_edges + parent_edges(base, parents@.take(p as int), new_id),
            decreases pn - p,
        {
            let found = self.find_index_by_hash(&parents[p]);
            proof {
                assert(parents@.take(p + 1) =~= parents@.take(p as int).push(
                    parents@[p as int],
                ));
                lemma_parent_edges_push(
                    base,
                    parents@.take(p as int),
                    parents@[p as int],
                    new_id,
                );
            }
            match found {
                Some(i) => {
                    let pid = self.nodes[i].id;
                    self.edges.push(DagEdge { from: pid, to: new_id });
                    proof {
                        assert(self.edges@ =~= kept_edges + parent_edges(
                            base,
                            parents@.take(p + 1),
                            new_id,
                        ));
                    }
                },
                None => {
                    proof {
                        assert(self.edges@ =~= kept_edges + parent_edges(
                            base,
                            parents@.take(p + 1),
                            new_id,
                        ));
                    }
                },
            }
            p = p + 1;
        }
        proof {
            assert(parents@.take(pn as int) =~= parents@);
        }
    }

    /// Insert one block: evict the oldest node (and its incident
    /// edges) when the window is full, append the new node under a
    /// fresh handle, and add an edge from every parent hash still
    /// resident among the older nodes. Non-resident parents are
    /// dropped, never backfilled. Always succeeds.
    #[verifier::rlimit(100)]
    pub fn add_block(&mut self, block: BlockInfo) -> (r: bool)
        requires
            old(self).wf(),
            old(self).capacity >= 1,
            old(self).next_id < u64::MAX,
        ensures
            r == true,
            final(self).wf(),
            final(self).capacity == old(self).capacity,
            final(self).next_id == old(self).next_id + 1,
            ({
                let evict = old(self).nodes@.len() >= old(self).capacity;
                let base = if evict {
                    old(self).nodes@.drop_first()
                } else {
                    old(self).nodes@
                };
                let kept = if evict {
                    keep_edges(old(self).edges@, old(self).nodes@[0].id)
                } else {
                    old(self).edges@
                };
                let new_node = DagNode { id: old(self).next_id, info: block };
                &&& final(self).nodes@ == base.push(new_node)
                &&& final(self).edges@ == kept + parent_edges(
                    base,
                    block.parents@,
                    old(self).next_id,
                )
            }),
            final(self).nodes@.len() == if old(self).nodes@.len() >= old(self).capacity {
                old(self).nodes@.len() as int
            } else {
                (old(self).nodes@.len() + 1) as int
            },
            old(self).nodes@.len() >= old(self).capacity ==> !final(self).has_id(
                old(self).nodes@[0].id,
            ) && forall|k: int|
                0 <= k < final(self).edges@.len() ==> #[trigger] final(self).edges@[k].from != old(
                    self,
                ).nodes@[0].id && final(self).edges@[k].to != old(self).nodes@[0].id,
            (old(self).nodes@.len() >= old(self).capacity && (forall|j: int|
                1 <= j < old(self).nodes@.len() ==> #[trigger] old(self).nodes@[j].info.hash@
                    != old(self).nodes@[0].info.hash@) && block.hash@
                != old(self).nodes@[0].info.hash@) ==> find_newest(
                final(self).nodes@,
                old(self).nodes@[0].info.hash@,
            ) is None,
    {
        if self.nodes.len() >= self.capacity {
            self.evict_oldest();
        }
        let new_id = self.next_id;
        self.next_id = self.next_id + 1;
        self.link_parents(&block.parents, new_id);
        self.nodes.push(DagNode { id: new_id, info: block });
        proof {
            lemma_insert_wf(
                *old(self),
                *self,
                self.nodes@.last().info.parents@,
                self.nodes@.last(),
            );
            if old(self).nodes@.len() >= old(self).capacity {
                lemma_evict_consequences(
                    *old(self),
                    *self,
                    self.nodes@.last().info.parents@,
                    self.nodes@.last(),
                );
            }
        }
        true
    }
}

impl RollingDag {
    /// Every live id names exactly its own node.
    pub(crate) proof fn lemma_node_of(self, i: int)
        requires
            self.wf(),
            0 <= i < self.nodes@.len(),
        ensures
            self.has_id(self.nodes@[i].id),
            self.idx_of(self.nodes@[i].id) == i,
            self.node_of(self.nodes@[i].id) == self.nodes@[i],
    {
        let id = self.nodes@[i].id;
        assert(self.has_id(id));
        let j = self.idx_of(id);
        assert(0 <= j < self.nodes@.len() && self.nodes@[j].id == id);
        if i < j {
            assert(self.nodes@[i].id < self.nodes@[j].id);
        }
        if j < i {
            assert(self.nodes@[j].id < self.nodes@[i].id);
        }
    }

    /// The highest-blue child of the given node, scanning the edge
    /// list in order with a running best; an earlier edge wins a tie.
    pub open spec fn max_child(self, edges: Seq<DagEdge>, from: u64, acc: Option<u64>) -> Option<
        u64,
    >
        decreases edges.len(),
    {
        if edges.len() == 0 {
            acc
        } else {
            let e = edges.first();
            let acc2 = if e.from == from {
                match acc {
                    None => Some(e.to),
                    Some(c) => if self.blue_of(e.to) > self.blue_of(c) {
                        Some(e.to)
                    } else {
                        Some(c)
                    },
                }
            } else {
                acc
            };
            self.max_child(edges.drop_first(), from, acc2)
        }
    }

    /// A found best child either was the running best already or has a
    /// real edge from the node.
    proof fn lemma_max_child_membership(self, edges: Seq<DagEdge>, from: u64, acc: Option<u64>)
        ensures
            self.max_child(edges, from, acc) matches Some(c) ==> acc == Some(c) || exists|k: int|
                0 <= k < edges.len() && edges[k].from == from && #[trigger] edges[k].to == c,
        decreases edges.len(),
    {
        if edges.len() > 0 {
            let e = edges.first();
            let acc2 = if e.from == from {
                match acc {
                    None => Some(e.to),
                    Some(c) => if self.blue_of(e.to) > self.blue_of(c) {
                        Some(e.to)
                    } else {
                        Some(c)
                    },
                }
            } else {
                acc
            };
            self.lemma_max_child_membership(edges.drop_first(), from, acc2);
            if self.max_child(edges, from, acc) is Some {
                let c = self.max_child(edges, from, acc)->Some_0;
                if acc2 == Some(c) {
                    assert(edges[0] == e);
                } else {
                    let k = choose|k: int|
                        0 <= k < edges.drop_first().len() && edges.drop_first()[k].from == from
                            && edges.drop_first()[k].to == c;
                    assert(edges[k + 1] == edges.drop_first()[k]);
                }
            }
        }
    }

    /// Upward walk: follow the first incoming edge repeatedly, keeping
    /// the highest blue score seen and the node where it occurred. The
    /// result is the apex the downward walk starts from. Ids shrink
    /// strictly on the way up, so the walk always ends.
    pub open spec fn apex_walk(self, current: u64, best: u64, best_blue: u64) -> u64
        decreases current,
    {
        match first_incoming(self.edges@, current) {
            None => best,
            Some(p) => if p >= current {
                best
            } else {
                if self.blue_of(p) > best_blue {
                    self.apex_walk(p, p, self.blue_of(p))
                } else {
                    self.apex_walk(p, best, best_blue)
                }
            },
        }
    }

    /// Downward walk from the apex: step to the highest-blue child
    /// until the target is reached (true) or a dead end (false). Ids
    /// grow strictly on the way down, so the walk always ends.
    pub open spec fn down_walk(self, current: u64, target: u64) -> bool
        decreases self.next_id - current,
    {
        if current == target {
            true
        } else {
            match self.max_child(self.edges@, current, None) {
                None => false,
                Some(c) => if c <= current || c >= self.next_id {
                    false
                } else {
                    self.down_walk(c, target)
                },
            }
        }
    }

    /// The local chain-membership heuristic: locate the queried hash,
    /// walk up to the apex, then walk down along highest-blue
    /// children; the block is on the selected chain exactly when the
    /// downward walk reaches it again.
    pub open spec fn in_chain_spec(self, h: Seq<u8>) -> bool {
        match find_newest(self.nodes@, h) {
            None => false,
            Some(start) => self.down_walk(
                self.apex_walk(start, start, self.blue_of(start)),
                start,
            ),
        }
    }

    /// The source of the first edge into the given node, if any.
    fn first_incoming_exec(&self, to: u64) -> (r: Option<u64>)
        ensures
            r == first_incoming(self.edges@, to),
    {
        let m = self.edges.len();
        proof {
            assert(self.edges@.skip(0) =~= self.edges@);
        }
        let mut k: usize = 0;
        while k < m
            invariant
                k <= m,
                m == self.edges@.len(),
                first_incoming(self.edges@, to) == first_incoming(self.edges@.skip(k as int), to),
            decreases m - k,
        {
            proof {
                assert(self.edges@.skip(k as int).first() == self.edges@[k as int]);
                assert(self.edges@.skip(k as int).drop_first() =~= self.edges@.skip(k + 1));
            }
            if self.edges[k].to == to {
                return Some(self.edges[k].from);
            }
            k = k + 1;
        }
        None
    }

    /// The highest-blue child of the given node, if it has children.
    fn max_child_exec(&self, from: u64) -> (r: Option<u64>)
        requires
            self.wf(),
        ensures
            r == self.max_child(self.edges@, from, None),
            r matches Some(c) ==> self.has_id(c),
    {
        let m = self.edges.len();
        proof {
            assert(self.edges@.skip(0) =~= self.edges@);
        }
        let mut acc: Option<u64> = None;
        let mut acc_blue: u64 = 0;
        let mut k: usize = 0;
        while k < m
            invariant
                k <= m,
                self.wf(),
                m == self.edges@.len(),
                self.max_child(self.edges@, from, None) == self.max_child(
                    self.edges@.skip(k as int),
                    from,
                    acc,
                ),
                acc matches Some(c) ==> self.has_id(c) && acc_blue == self.blue_of(c),
            decreases m - k,
        {
            proof {
                assert(self.edges@.skip(k as int).first() == self.edges@[k as int]);
                assert(self.edges@.skip(k as int).drop_first() =~= self.edges@.skip(k + 1));
            }
            let e = self.edges[k];
            if e.from == from {
                let ci = match self.find_index_by_id(e.to) {
                    Some(i) => i,
                    None => {
                        proof {
                            assert(false);
                        }
                        return None;
                    },
                };
                proof {
                    self.lemma_node_of(ci as int);
                }
                let child_blue = self.nodes[ci].info.blue_score;
                match acc {
                    None => {
                        acc = Some(e.to);
                        acc_blue = child_blue;
                    },
                    Some(_) => {
                        if child_blue > acc_blue {
                            acc = Some(e.to);
                            acc_blue = child_blue;
                        }
                    },
                }
            }
            k = k + 1;
        }
        proof {
            assert(self.edges@.skip(m as int) =~= Seq::<DagEdge>::empty());
        }
        acc
    }

    /// Upward walk to the apex.
    fn apex_from(&self, current: u64, best: u64, best_blue: u64) -> (r: u64)
        requires
            self.wf(),
            self.has_id(current),
            self.has_id(best),
        ensures
            r == self.apex_walk(current, best, best_blue),
            self.has_id(r),
        decreases current,
    {
        match self.first_incoming_exec(current) {
            None => best,
            Some(p) => {
                proof {
                    lemma_first_incoming_edge(self.edges@, current);
                }
                if p >= current {
                    proof {
                        assert(false);
                    }
                    return best;
                }
                let pi = match self.find_index_by_id(p) {
                    Some(i) => i,
                    None => {
                        proof {
                            assert(false);
                        }
                        return best;
                    },
                };
                proof {
                    self.lemma_node_of(pi as int);
                }
                let pb = self.nodes[pi].info.blue_score;
                if pb > best_blue {
                    self.apex_from(p, p, pb)
                } else {
                    self.apex_from(p, best, best_blue)
                }
            },
        }
    }

    /// Downward walk from the apex towards the target.
    fn down_from(&self, current: u64, target: u64) -> (r: bool)
        requires
            self.wf(),
            self.has_id(current),
        ensures
            r == self.down_walk(current, target),
        decreases self.next_id - current,
    {
        if current == target {
            return true;
        }
        match self.max_child_exec(current) {
            None => false,
            Some(c) => {
                proof {
                    self.lemma_max_child_membership(self.edges@, current, None);
                    let i = self.idx_of(c);
                    assert(self.nodes@[i].id == c && self.nodes@[i].id < self.next_id);
                }
                if c <= current {
                    proof {
                        assert(false);
                    }
                    return false;
                }
                self.down_from(c, target)
            },
        }
    }

    /// Local heuristic for "is this block on the selected chain":
    /// deterministic, never fails, and total for any queried hash,
    /// including blocks whose parents are all non-resident.
    pub fn is_in_selected_chain(&self, hash: &Vec<u8>) -> (r: bool)
        requires
            self.wf(),
        ensures
            r == self.in_chain_spec(hash@),
    {
        let start_idx = match self.find_index_by_hash(hash) {
            Some(i) => i,
            None => {
                return false;
            },
        };
        proof {
            self.lemma_node_of(start_idx as int);
        }
        let start = self.nodes[start_idx].id;
        let start_blue = self.nodes[start_idx].info.blue_score;
        let apex = self.apex_from(start, start, start_blue);
        self.down_from(apex, start)
    }
}

/// The children of the given node, in edge-list order.
pub open spec fn children_of(edges: Seq<DagEdge>, from: u64) -> Seq<u64>
    decreases edges.len(),
{
    if edges.len() == 0 {
        Seq::empty()
    } else {
        let head = if edges.first().from == from {
            seq![edges.first().to]
        } else {
            Seq::empty()
        };
        head + children_of(edges.drop_first(), from)
    }
}

/// Scanning one more edge extends the child list at its end.
proof fn lemma_children_of_push(edges: Seq<DagEdge>, x: DagEdge, from: u64)
    ensures
        children_of(edges.push(x), from) == children_of(edges, from) + (if x.from == from {
            seq![x.to]
        } else {
            Seq::<u64>::empty()
        }),
    decreases edges.len(),
{
    let tail = if x.from == from {
        seq![x.to]
    } else {
        Seq::<u64>::empty()
    };
    let ep = edges.push(x);
    if edges.len() == 0 {
        assert(ep.first() == x);
        assert(ep.drop_first() =~= Seq::<DagEdge>::empty());
        assert(children_of(ep.drop_first(), from) == Seq::<u64>::empty());
        assert(children_of(ep, from) == tail + children_of(ep.drop_first(), from));
        assert(children_of(ep, from) =~= children_of(edges, from) + tail);
    } else {
        let head = if edges.first().from == from {
            seq![edges.first().to]
        } else {
            Seq::<u64>::empty()
        };
        assert(ep.first() == edges.first());
        assert(ep.drop_first() =~= edges.drop_first().push(x));
        lemma_children_of_push(edges.drop_first(), x, from);
        assert(children_of(ep, from) == head + children_of(edges.drop_first().push(x), from));
        assert(children_of(edges, from) == head + children_of(edges.drop_first(), from));
        assert(children_of(ep, from) =~= children_of(edges, from) + tail);
    }
}

impl RollingDag {
    /// The highest blue score among the given nodes, folded over a
    /// running maximum.
    pub open spec fn max_blue_from(self, ids: Seq<u64>, acc: u64) -> u64
        decreases ids.len(),
    {
        if ids.len() == 0 {
            acc
        } else {
            self.max_blue_from(
                ids.drop_first(),
                if self.blue_of(ids.first()) > acc {
                    self.blue_of(ids.first())
                } else {
                    acc
                },
            )
        }
    }

    /// Blue-score gap of a branch node: how far its highest-scoring
    /// child has pulled ahead (zero if no child is ahead).
    pub open spec fn delta_of(self, id: u64) -> u64 {
        let top = self.max_blue_from(children_of(self.edges@, id), 0);
        if top >= self.blue_of(id) {
            (top - self.blue_of(id)) as u64
        } else {
            0u64
        }
    }

    /// A fracture candidate: a node with at least two children whose
    /// blue-score gap meets the threshold.
    pub open spec fn is_candidate(self, id: u64, min_delta: u64) -> bool {
        children_of(self.edges@, id).len() >= 2 && self.delta_of(id) >= min_delta
    }

    /// The children of the node with the given id, in edge order.
    fn children_exec(&self, id: u64) -> (r: Vec<u64>)
        ensures
            r@ == children_of(self.edges@, id),
    {
        let m = self.edges.len();
        let mut out: Vec<u64> = Vec::new();
        proof {
            assert(self.edges@.take(0) =~= Seq::<DagEdge>::empty());
        }
        let mut k: usize = 0;
        while k < m
            invariant
                k <= m,
                m == self.edges@.len(),
                out@ == children_of(self.edges@.take(k as int), id),
            decreases m - k,
        {
            proof {
                assert(self.edges@.take(k + 1) =~= self.edges@.take(k as int).push(
                    self.edges@[k as int],
                ));
                lemma_children_of_push(self.edges@.take(k as int), self.edges@[k as int], id);
            }
            if self.edges[k].from == id {
                out.push(self.edges[k].to);
            }
            k = k + 1;
        }
        proof {
            assert(self.edges@.take(m as int) =~= self.edges@);
        }
        out
    }

    /// The highest blue score among the given live nodes.
    pub(crate) fn max_blue_exec(&self, ids: &Vec<u64>) -> (r: u64)
        requires
            self.wf(),
            forall|j: int| 0 <= j < ids@.len() ==> self.has_id(#[trigger] ids@[j]),
        ensures
            r == self.max_blue_from(ids@, 0),
    {
        let n = ids.len();
        proof {
            assert(ids@.skip(0) =~= ids@);
        }
        let mut acc: u64 = 0;
        let mut j: usize = 0;
        while j < n
            invariant
                j <= n,
                self.wf(),
                n == ids@.len(),
                forall|jj: int| 0 <= jj < ids@.len() ==> self.has_id(#[trigger] ids@[jj]),
                self.max_blue_from(ids@, 0) == self.max_blue_from(ids@.skip(j as int), acc),
            decreases n - j,
        {
            proof {
                assert(ids@.skip(j as int).first() == ids@[j as int]);
                assert(ids@.skip(j as int).drop_first() =~= ids@.skip(j + 1));
            }
            let id = ids[j];
            let i = match self.find_index_by_id(id) {
                Some(i) => i,
                None => {
                    proof {
                        assert(false);
                    }
                    return acc;
                },
            };
            proof {
                self.lemma_node_of(i as int);
            }
            let b = self.nodes[i].info.blue_score;
            if b > acc {
                acc = b;
            }
            j = j + 1;
        }
        proof {
            assert(ids@.skip(n as int) =~= Seq::<u64>::empty());
        }
        acc
    }

    /// Ranking weight of a fracture candidate at the given node
    /// index, for the given per-node centrality weights: favors high
    /// centrality, with a small blue-score gap as tie-break.
    pub open spec fn fracture_score(self, cent: Seq<u64>, i: int) -> int {
        (cent[i] as int) * 1000 + 1_000_000int / (self.delta_of(self.nodes@[i].id) as int + 1)
    }

    /// Index of the winning fracture candidate among the first `upto`
    /// nodes: the highest-scoring candidate, the earliest on a tie.
    pub open spec fn best_candidate(self, cent: Seq<u64>, min_delta: u64, upto: int) -> Option<int>
        decreases upto,
    {
        if upto <= 0 {
            None
        } else {
            let prev = self.best_candidate(cent, min_delta, upto - 1);
            let i = upto - 1;
            if !self.is_candidate(self.nodes@[i].id, min_delta) {
                prev
            } else {
                match prev {
                    None => Some(i),
                    Some(b) => if self.fracture_score(cent, i) > self.fracture_score(cent, b) {
                        Some(i)
                    } else {
                        Some(b)
                    },
                }
            }
        }
    }

    /// No winner means no candidate at all.
    proof fn lemma_best_candidate_none(self, cent: Seq<u64>, min_delta: u64, upto: int)
        ensures
            self.best_candidate(cent, min_delta, upto) is None <==> (forall|i: int|
                0 <= i < upto ==> !self.is_candidate(#[trigger] self.nodes@[i].id, min_delta)),
        decreases upto,
    {
        if upto > 0 {
            self.lemma_best_candidate_none(cent, min_delta, upto - 1);
        }
    }

    /// A winner is a real candidate in range.
    proof fn lemma_best_candidate_some(self, cent: Seq<u64>, min_delta: u64, upto: int)
        ensures
            self.best_candidate(cent, min_delta, upto) matches Some(b) ==> 0 <= b < upto
                && self.is_candidate(self.nodes@[b].id, min_delta),
        decreases upto,
    {
        if upto > 0 {
            self.lemma_best_candidate_some(cent, min_delta, upto - 1);
        }
    }

    /// Pick the fracture to stitch under the given per-node centrality
    /// weights: among the nodes with at least two children whose
    /// blue-score gap meets `min_delta`, the one with the highest
    /// ranking weight (the earliest on a tie), together with all its
    /// children as the tips.
    pub fn select_fracture(&self, cent: &Vec<u64>, min_delta: u64) -> (r: Option<(u64, Vec<u64>)>)
        requires
            self.wf(),
            cent@.len() == self.nodes@.len(),
        ensures
            r is None <==> self.best_candidate(cent@, min_delta, self.nodes@.len() as int) is None,
            self.best_candidate(cent@, min_delta, self.nodes@.len() as int) matches Some(b)
                ==> r matches Some(p) && p.0 == self.nodes@[b].id && p.1@ == children_of(
                self.edges@,
                self.nodes@[b].id,
            ),
    {
        let n = self.nodes.len();
        let mut best: Option<(u64, Vec<u64>)> = None;
        let mut best_score: u128 = 0;
        let mut i: usize = 0;
        while i < n
            invariant
                i <= n,
                self.wf(),
                n == self.nodes@.len(),
                cent@.len() == n,
                best is None <==> self.best_candidate(cent@, min_delta, i as int) is None,
                self.best_candidate(cent@, min_delta, i as int) matches Some(b) ==> {
                    &&& best matches Some(p)
                    &&& p.0 == self.nodes@[b].id
                    &&& p.1@ == children_of(self.edges@, self.nodes@[b].id)
                    &&& best_score == self.fracture_score(cent@, b)
                },
            decreases n - i,
        {
            let id = self.nodes[i].id;
            proof {
                self.lemma_node_of(i as int);
            }
            let children = self.children_exec(id);
            if children.len() >= 2 {
                proof {
                    lemma_children_live(*self, id);
                }
                let top = self.max_blue_exec(&children);
                let blue = self.nodes[i].info.blue_score;
                let delta: u64 = if top >= blue {
                    top - blue
                } else {
                    0
                };
                if delta >= min_delta {
                    let score: u128 = (cent[i] as u128) * 1000 + 1_000_000 / ((delta as u128) + 1);
                    proof {
                        assert(delta == self.delta_of(self.nodes@[i as int].id));
                        assert(score == self.fracture_score(cent@, i as int));
                    }
                    if best.is_none() || score > best_score {
                        best = Some((id, children));
                        best_score = score;
                    }
                }
            } else {
                proof {
                    assert(!self.is_candidate(self.nodes@[i as int].id, min_delta));
                }
            }
            i = i + 1;
        }
        best
    }

    /// Search the window for the most critical fracture: refuses to
    /// run below a fixed node count; otherwise considers every node
    /// with at least two children whose blue-score gap to its
    /// highest-scoring child meets `min_delta`, and returns that node
    /// and all its children as the tips to stitch. Among eligible
    /// candidates, the winner is the one `select_fracture` ranks
    /// highest under betweenness-centrality weights.
    pub fn find_fracture(&self, min_delta: u64) -> (r: Option<(u64, Vec<u64>)>)
        requires
            self.wf(),
        ensures
            r is None <==> (self.nodes@.len() < MIN_FRACTURE_NODES || forall|i: int|
                0 <= i < self.nodes@.len() ==> !self.is_candidate(
                    #[trigger] self.nodes@[i].id,
                    min_delta,
                )),
            r matches Some((id, tips)) ==> {
                &&& self.has_id(id)
                &&& self.is_candidate(id, min_delta)
                &&& tips@ == children_of(self.edges@, id)
            },
    {
        let n = self.nodes.len();
        if n < MIN_FRACTURE_NODES {
            return None;
        }
        let cent = self.betweenness_scaled();
        let r = self.select_fracture(&cent, min_delta);
        proof {
            self.lemma_best_candidate_none(cent@, min_delta, n as int);
            self.lemma_best_candidate_some(cent@, min_delta, n as int);
            if self.best_candidate(cent@, min_delta, n as int) is Some {
                let b = self.best_candidate(cent@, min_delta, n as int)->Some_0;
                self.lemma_node_of(b);
            }
        }
        r
    }
}

impl RollingDag {
    /// Betweenness centrality of every live node, scaled by 1000,
    /// computed by repeated shortest-path counting (unweighted,
    /// directed) over the current window. Node indexes follow
    /// insertion order, which under the window invariant is a
    /// topological order, so one pass per source suffices. This is
    /// the ranking weight of the fracture search: an internal
    /// heuristic whose exact values the search contract does not
    /// depend on.
    fn betweenness_scaled(&self) -> (r: Vec<u64>)
        requires
            self.wf(),
        ensures
            r@.len() == self.nodes@.len(),
    {
        let n = self.nodes.len();
        let mut dists: Vec<Vec<u64>> = Vec::new();
        let mut sigmas: Vec<Vec<u64>> = Vec::new();
        let mut s: usize = 0;
        while s < n
            invariant
                s <= n,
                self.wf(),
                n == self.nodes@.len(),
                dists@.len() == s,
                sigmas@.len() == s,
                forall|a: int| 0 <= a < s ==> #[trigger] dists@[a]@.len() == n,
                forall|a: int| 0 <= a < s ==> #[trigger] sigmas@[a]@.len() == n,
            decreases n - s,
        {
            let mut dist: Vec<u64> = Vec::new();
            let mut sigma: Vec<u64> = Vec::new();
            let mut v: usize = 0;
            while v < n
                invariant
                    v <= n,
                    self.wf(),
                    n == self.nodes@.len(),
                    dist@.len() == v,
                    sigma@.len() == v,
                decreases n - v,
            {
                if v == s {
                    dist.push(0);
                    sigma.push(1);
                } else {
                    let mut bd: u64 = u64::MAX;
                    let mut cnt: u64 = 0;
                    let m = self.edges.len();
                    let mut k: usize = 0;
                    while k < m
                        invariant
                            k <= m,
                            self.wf(),
                            m == self.edges@.len(),
                            n == self.nodes@.len(),
                            v < n,
                            dist@.len() == v,
                            sigma@.len() == v,
                        decreases m - k,
                    {
                        let e = self.edges[k];
                        if e.to == self.nodes[v].id {
                            match self.find_index_by_id(e.from) {
                                Some(u) => {
                                    if u < v {
                                        let du = dist[u];
                                        if du != u64::MAX {
                                            let cand = du + 1;
                                            if cand < bd {
                                                bd = cand;
                                                cnt = sigma[u];
                                            } else if cand == bd {
                                                let su = sigma[u];
                                                cnt = if cnt > u64::MAX - su {
                                                    u64::MAX
                                                } else {
                                                    cnt + su
                                                };
                                            }
                                        }
                                    }
                                },
                                None => {},
                            }
                        }
                        k = k + 1;
                    }
                    if bd == u64::MAX {
                        dist.push(u64::MAX);
                        sigma.push(0);
                    } else {
                        dist.push(bd);
                        sigma.push(cnt);
                    }
                }
                v = v + 1;
            }
            dists.push(dist);
            sigmas.push(sigma);
            s = s + 1;
        }
        let mut cent: Vec<u64> = Vec::new();
        let mut i: usize = 0;
        while i < n
            invariant
                i <= n,
                cent@.len() == i,
            decreases n - i,
        {
            cent.push(0);
            i = i + 1;
        }
        let mut src: usize = 0;
        while src < n
            invariant
                src <= n,
                n == self.nodes@.len(),
                cent@.len() == n,
                dists@.len() == n,
                sigmas@.len() == n,
                forall|a: int| 0 <= a < n ==> #[trigger] dists@[a]@.len() == n,
                forall|a: int| 0 <= a < n ==> #[trigger] sigmas@[a]@.len() == n,
            decreases n - src,
        {
            let mut t: usize = 0;
            while t < n
                invariant
                    t <= n,
                    src < n,
                    n == self.nodes@.len(),
                    cent@.len() == n,
                    dists@.len() == n,
                    sigmas@.len() == n,
                    forall|a: int| 0 <= a < n ==> #[trigger] dists@[a]@.len() == n,
                    forall|a: int| 0 <= a < n ==> #[trigger] sigmas@[a]@.len() == n,
                decreases n - t,
            {
                if t != src {
                    let dst = dists[src][t];
                    let sst = sigmas[src][t];
                    if dst != u64::MAX && sst > 0 {
                        let mut v: usize = 0;
                        while v < n
                            invariant
                                v <= n,
                                src < n,
                                t < n,
                                sst > 0,
                                n == self.nodes@.len(),
                                cent@.len() == n,
                                dists@.len() == n,
                                sigmas@.len() == n,
                                forall|a: int| 0 <= a < n ==> #[trigger] dists@[a]@.len() == n,
                                forall|a: int| 0 <= a < n ==> #[trigger] sigmas@[a]@.len() == n,
                            decreases n - v,
                        {
                            if v != src && v != t {
                                let dsv = dists[src][v];
                                let dvt = dists[v][t];
                                if dsv != u64::MAX && dvt != u64::MAX && (dsv as u128) + (
                                dvt as u128) == (dst as u128) {
                                    let sa = sigmas[src][v];
                                    let sb = sigmas[v][t];
                                    proof {
                                        vstd::arithmetic::mul::lemma_mul_upper_bound(
                                            sa as int,
                                            u64::MAX as int,
                                            sb as int,
                                            u64::MAX as int,
                                        );
                                    }
                                    let p1: u128 = (sa as u128) * (sb as u128);
                                    let scaled: u128 = if p1 > u128::MAX / 1000 {
                                        u128::MAX
                                    } else {
                                        proof {
                                            vstd::arithmetic::div_mod::lemma_fundamental_div_mod(
                                                u128::MAX as int,
                                                1000,
                                            );
                                            vstd::arithmetic::mul::lemma_mul_inequality(
                                                p1 as int,
                                                (u128::MAX / 1000) as int,
                                                1000,
                                            );
                                        }
                                        p1 * 1000
                                    };
                                    let q: u128 = scaled / (sst as u128);
                                    let gain: u64 = if q > (u64::MAX as u128) {
                                        u64::MAX
                                    } else {
                                        q as u64
                                    };
                                    let cur = cent[v];
                                    let bumped: u64 = if cur > u64::MAX - gain {
                                        u64::MAX
                                    } else {
                                        cur + gain
                                    };
                                    cent.set(v, bumped);
                                }
                            }
                            v = v + 1;
                        }
                    }
                }
                t = t + 1;
            }
            src = src + 1;
        }
        cent
    }
}

/// Every child in a node's child list is itself live.
pub(crate) proof fn lemma_children_live(dag: RollingDag, from: u64)
    requires
        dag.wf(),
    ensures
        forall|j: int|
            0 <= j < children_of(dag.edges@, from).len() ==> dag.has_id(
                #[trigger] children_of(dag.edges@, from)[j],
            ),
{
    lemma_children_of_membership(dag.edges@, from);
    assert forall|j: int| 0 <= j < children_of(dag.edges@, from).len() implies dag.has_id(
        #[trigger] children_of(dag.edges@, from)[j],
    ) by {
        let c = children_of(dag.edges@, from)[j];
        assert(edge_to_exists(dag.edges@, from, c));
        let k = choose|k: int|
            0 <= k < dag.edges@.len() && dag.edges@[k].from == from && #[trigger] dag.edges@[k].to
                == c;
    }
}

/// Some edge from the given node reaches the given child.
pub open spec fn edge_to_exists(edges: Seq<DagEdge>, from: u64, c: u64) -> bool {
    exists|k: int| 0 <= k < edges.len() && edges[k].from == from && #[trigger] edges[k].to == c
}

/// Every listed child comes from a real edge.
proof fn lemma_children_of_membership(edges: Seq<DagEdge>, from: u64)
    ensures
        forall|j: int|
            0 <= j < children_of(edges, from).len() ==> edge_to_exists(
                edges,
                from,
                #[trigger] children_of(edges, from)[j],
            ),
    decreases edges.len(),
{
    if edges.len() > 0 {
        let rest = edges.drop_first();
        lemma_children_of_membership(rest, from);
        let head = if edges.first().from == from {
            seq![edges.first().to]
        } else {
            Seq::<u64>::empty()
        };
        assert(children_of(edges, from) == head + children_of(rest, from));
        assert forall|j: int| 0 <= j < children_of(edges, from).len() implies edge_to_exists(
            edges,
            from,
            #[trigger] children_of(edges, from)[j],
        ) by {
            let c = children_of(edges, from)[j];
            if j < head.len() {
                assert(edges[0] == edges.first());
                assert(edges[0].to == c);
            } else {
                assert(c == children_of(rest, from)[j - head.len()]);
                assert(edge_to_exists(rest, from, c));
                let k = choose|k: int|
                    0 <= k < rest.len() && rest[k].from == from && #[trigger] rest[k].to == c;
                assert(edges[k + 1] == rest[k]);
                assert(edges[k + 1].to == c);
            }
        }
    }
}

} // verus!

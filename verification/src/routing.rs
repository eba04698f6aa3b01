//! The routing table: a growable list of k-buckets.
use vstd::prelude::*;
use std::sync::Arc;
use crate::clock::steady_now;
use crate::clock::NANOS_PER_SECOND;
use crate::closest::closest_nodes;
use crate::closest::closest_to;
use crate::key::leading_zero_bits;
use crate::key::xor_bytes;
use crate::key::Key;
use crate::node::node_data::position;
use crate::node::node_data::without;
use crate::node::node_data::NodeData;
use crate::node::node_data::NodeDataView;
use crate::BUCKET_REFRESH_INTERVAL;
use crate::REPLICATION_PARAM;
use crate::ROUTING_TABLE_SIZE;

verus! {

/// The number of leading bits that the identifier `id` shares with `local`.
pub open spec fn shared_prefix(id: Seq<u8>, local: Seq<u8>) -> nat {
    leading_zero_bits(xor_bytes(id, local))
}

/// The peers of `nodes` that share exactly `index` leading bits with `local`
/// where `inside` holds, the other peers where it does not; in the order of
/// `nodes`.
pub open spec fn ring_part(nodes: Seq<NodeDataView>, local: Seq<u8>, index: nat, inside: bool) -> Seq<
    NodeDataView,
>
    decreases nodes.len(),
{
    if nodes.len() == 0 {
        Seq::empty()
    } else {
        let earlier = ring_part(nodes.drop_last(), local, index, inside);
        if (shared_prefix(nodes.last().id, local) == index) == inside {
            earlier.push(nodes.last())
        } else {
            earlier
        }
    }
}

/// The mathematical value of a `RoutingBucket`.
pub ghost struct RoutingBucketView {
    /// The peers, from the least recently seen to the most recently seen.
    pub nodes: Seq<NodeDataView>,
    /// When the bucket was last updated, in nanoseconds of the steady clock.
    pub last_update_time: nat,
}

impl RoutingBucketView {
    /// A bucket holds no peer twice and no more than `REPLICATION_PARAM`.
    pub open spec fn wf(self) -> bool {
        self.nodes.no_duplicates() && self.nodes.len() <= REPLICATION_PARAM
    }

    /// The bucket after `node` was seen at the time `now`: `node` is the most
    /// recently seen peer, and where that makes the bucket too long, the
    /// least recently seen peer leaves.
    pub open spec fn upserted(self, node: NodeDataView, now: nat) -> RoutingBucketView {
        let pushed = without(self.nodes, node).push(node);
        RoutingBucketView {
            nodes: if pushed.len() > REPLICATION_PARAM {
                pushed.drop_first()
            } else {
                pushed
            },
            last_update_time: now,
        }
    }

    /// Whether at the time `now` the bucket has gone without an update for
    /// more than `BUCKET_REFRESH_INTERVAL` seconds.
    pub open spec fn is_stale(self, now: nat) -> bool {
        now - self.last_update_time > BUCKET_REFRESH_INTERVAL * NANOS_PER_SECOND
    }
}

/// A k-bucket in a node's routing table, with a capacity of
/// `REPLICATION_PARAM`.
///
/// The peers are in the order of the most recent communication with them,
/// the most recent at the end.
#[derive(Debug)]
pub struct RoutingBucket {
    nodes: Vec<NodeData>,
    last_update_time: u64,
}

impl View for RoutingBucket {
    type V = RoutingBucketView;

    closed spec fn view(&self) -> RoutingBucketView {
        RoutingBucketView {
            nodes: self.nodes.deep_view(),
            last_update_time: self.last_update_time as nat,
        }
    }
}

impl DeepView for RoutingBucket {
    type V = RoutingBucketView;

    open spec fn deep_view(&self) -> RoutingBucketView {
        self@
    }
}

impl Clone for RoutingBucket {
    fn clone(&self) -> (copy: RoutingBucket)
        ensures
            copy@ == self@,
    {
        RoutingBucket {
            nodes: crate::node::node_data::clone_nodes(&self.nodes),
            last_update_time: self.last_update_time,
        }
    }
}

impl RoutingBucket {
    /// Constructs a new, empty `RoutingBucket`, last updated at `now`.
    pub fn new(now: u64) -> (bucket: RoutingBucket)
        ensures
            bucket@ == (RoutingBucketView { nodes: Seq::empty(), last_update_time: now as nat }),
            bucket@.wf(),
    {
        let bucket = RoutingBucket { nodes: Vec::new(), last_update_time: now };
        assert(bucket@.nodes =~= Seq::empty());
        bucket
    }

    /// Upserts a node: a node that is in the bucket moves to its end, another
    /// node is added at the end. Where the bucket then has more than
    /// `REPLICATION_PARAM` nodes, the node least recently communicated with
    /// is removed. The bucket counts as updated at `now`.
    pub fn update_node(&mut self, node_data: NodeData, now: u64)
        requires
            old(self)@.wf(),
        ensures
            final(self)@ == old(self)@.upserted(node_data@, now as nat),
            final(self)@.wf(),
    {
        self.last_update_time = now;
        let ghost before = self@.nodes;
        if let Some(index) = position(&self.nodes, &node_data) {
            self.nodes.remove(index);
            assert(self@.nodes =~= before.remove(index as int));
        }
        let ghost kept = self@.nodes;
        proof {
            lemma_without_node(before, node_data@);
        }
        self.nodes.push(node_data);
        assert(self@.nodes =~= kept.push(node_data@));
        proof {
            lemma_push_absent(kept, node_data@);
        }
        let ghost pushed = self@.nodes;
        if self.nodes.len() > REPLICATION_PARAM {
            self.nodes.remove(0);
            assert(self@.nodes =~= pushed.drop_first());
            assert forall|i: int, j: int|
                0 <= i < self@.nodes.len() && 0 <= j < self@.nodes.len() && i != j implies self@.nodes[i]
                != self@.nodes[j] by {
                assert(self@.nodes[i] == pushed[i + 1]);
                assert(self@.nodes[j] == pushed[j + 1]);
            }
        }
    }

    /// Returns `true` if `node_data` is in the routing bucket.
    pub fn contains(&self, node_data: &NodeData) -> (found: bool)
        ensures
            found == self@.nodes.contains(node_data@),
    {
        position(&self.nodes, node_data).is_some()
    }

    /// Splits the bucket: the nodes that share exactly `index` leading bits
    /// with `key` stay, the others are returned in a new bucket. Both keep
    /// the time of the last update.
    pub fn split(&mut self, key: &Key, index: usize) -> (closer: RoutingBucket)
        requires
            old(self)@.wf(),
        ensures
            final(self)@.wf(),
            closer@.wf(),
            final(self)@ == (RoutingBucketView {
                nodes: ring_part(old(self)@.nodes, key@, index as nat, true),
                ..old(self)@
            }),
            closer@ == (RoutingBucketView {
                nodes: ring_part(old(self)@.nodes, key@, index as nat, false),
                ..old(self)@
            }),
    {
        let ghost all = self@.nodes;
        let mut staying: Vec<NodeData> = Vec::new();
        let mut leaving: Vec<NodeData> = Vec::new();
        let n = self.nodes.len();
        let mut i: usize = 0;
        proof {
            assert(all.take(0) =~= Seq::empty());
            assert(staying.deep_view() =~= Seq::empty());
            assert(leaving.deep_view() =~= Seq::empty());
            assert(all.skip(0) =~= all);
        }
        while i < n
            invariant
                i <= n,
                n == all.len(),
                self.nodes.len() == n - i,
                self@.nodes == all.skip(i as int),
                self@.last_update_time == old(self)@.last_update_time,
                staying.deep_view() == ring_part(all.take(i as int), key@, index as nat, true),
                leaving.deep_view() == ring_part(all.take(i as int), key@, index as nat, false),
            decreases n - i,
        {
            let ghost rest = self@.nodes;
            let ghost stay_before = staying.deep_view();
            let ghost leave_before = leaving.deep_view();
            let node = self.nodes.remove(0);
            proof {
                assert(rest[0] == all[i as int]);
                assert(node@ == rest[0]);
                assert(self@.nodes =~= rest.drop_first());
                assert(rest.drop_first() =~= all.skip(i + 1));
                assert(all.take(i + 1).drop_last() =~= all.take(i as int));
                assert(all.take(i + 1).last() == node@);
            }
            if node.id.xor(key).leading_zeros() == index {
                staying.push(node);
                assert(staying.deep_view() =~= stay_before.push(all[i as int]));
            } else {
                leaving.push(node);
                assert(leaving.deep_view() =~= leave_before.push(all[i as int]));
            }
            i += 1;
        }
        proof {
            assert(all.take(n as int) =~= all);
            lemma_ring_part(all, key@, index as nat, true);
            lemma_ring_part(all, key@, index as nat, false);
        }
        self.nodes = staying;
        RoutingBucket { nodes: leaving, last_update_time: self.last_update_time }
    }

    /// Returns the nodes of the routing bucket.
    pub fn get_nodes(&self) -> (nodes: &[NodeData])
        ensures
            nodes.deep_view() == self@.nodes,
    {
        let nodes = self.nodes.as_slice();
        assert(nodes.deep_view() =~= self@.nodes);
        nodes
    }

    /// Removes the least recently seen node from the routing bucket.
    pub fn remove_lrs(&mut self) -> (lrs: Option<NodeData>)
        requires
            old(self)@.wf(),
        ensures
            final(self)@.wf(),
            old(self)@.nodes.len() == 0 ==> lrs is None && final(self)@ == old(self)@,
            old(self)@.nodes.len() > 0 ==> lrs is Some && lrs->0@ == old(self)@.nodes[0]
                && final(self)@ == (RoutingBucketView {
                nodes: old(self)@.nodes.drop_first(),
                ..old(self)@
            }),
    {
        if self.size() == 0 {
            None
        } else {
            let ghost before = self@.nodes;
            let lrs = self.nodes.remove(0);
            assert(self@.nodes =~= before.drop_first());
            assert forall|i: int, j: int|
                0 <= i < self@.nodes.len() && 0 <= j < self@.nodes.len() && i != j implies self@.nodes[i]
                != self@.nodes[j] by {
                assert(self@.nodes[i] == before[i + 1]);
                assert(self@.nodes[j] == before[j + 1]);
            }
            Some(lrs)
        }
    }

    /// Removes `node_data` from the routing bucket, and returns it where it
    /// was there.
    pub fn remove_node(&mut self, node_data: &NodeData) -> (removed: Option<NodeData>)
        requires
            old(self)@.wf(),
        ensures
            final(self)@.wf(),
            final(self)@ == (RoutingBucketView {
                nodes: without(old(self)@.nodes, node_data@),
                ..old(self)@
            }),
            (removed is Some) == old(self)@.nodes.contains(node_data@),
            removed is Some ==> removed->0@ == node_data@,
    {
        let ghost before = self@.nodes;
        proof {
            lemma_without_node(before, node_data@);
        }
        let place = position(&self.nodes, node_data);
        match place {
            Some(index) => {
                let removed = self.nodes.remove(index);
                assert(removed@ == before[index as int]);
                assert(self@.nodes =~= before.remove(index as int));
                Some(removed)
            },
            None => None,
        }
    }

    /// Whether the bucket was not updated in the `BUCKET_REFRESH_INTERVAL`
    /// seconds before `now`.
    pub fn is_stale_at(&self, now: u64) -> (stale: bool)
        ensures
            stale == self@.is_stale(now as nat),
    {
        now > self.last_update_time && now - self.last_update_time > BUCKET_REFRESH_INTERVAL
            * NANOS_PER_SECOND
    }

    /// Returns `true` if the routing bucket has not been recently updated:
    /// not in the last `BUCKET_REFRESH_INTERVAL` seconds, by the steady clock.
    pub fn is_stale(&self) -> (stale: bool)
        ensures
            exists|now: nat| stale == #[trigger] self@.is_stale(now),
    {
        let now = steady_now();
        let stale = self.is_stale_at(now);
        assert(stale == self@.is_stale(now as nat));
        stale
    }

    /// Returns the number of nodes in the routing bucket.
    pub fn size(&self) -> (size: usize)
        ensures
            size == self@.nodes.len(),
    {
        self.nodes.len()
    }
}

/// The mathematical value of a `RoutingTable`.
pub ghost struct RoutingTableView {
    /// The buckets. Bucket `i` holds the peers that share exactly `i`
    /// leading bits with the local node; the last bucket holds also those
    /// that share more.
    pub buckets: Seq<RoutingBucketView>,
    /// The node that the table belongs to.
    pub local: NodeDataView,
}

impl RoutingTableView {
    /// The bucket that a peer with the identifier `id` belongs to.
    pub open spec fn bucket_index(self, id: Seq<u8>) -> int {
        if shared_prefix(id, self.local.id) < self.buckets.len() - 1 {
            shared_prefix(id, self.local.id) as int
        } else {
            self.buckets.len() - 1
        }
    }

    /// A table has at least one bucket and no more than
    /// `ROUTING_TABLE_SIZE`; no bucket holds a peer twice or more than
    /// `REPLICATION_PARAM` peers; and every peer is in the bucket that it
    /// belongs to.
    pub open spec fn wf(self) -> bool {
        &&& 1 <= self.buckets.len() <= ROUTING_TABLE_SIZE
        &&& forall|i: int| 0 <= i < self.buckets.len() ==> (#[trigger] self.buckets[i]).wf()
        &&& forall|i: int, j: int|
            0 <= i < self.buckets.len() && 0 <= j < self.buckets[i].nodes.len()
                ==> self.bucket_index((#[trigger] self.buckets[i].nodes[j]).id) == i
    }

    /// Whether the peer `node` is in the table.
    pub open spec fn holds(self, node: NodeDataView) -> bool {
        exists|i: int| 0 <= i < self.buckets.len() && (#[trigger] self.buckets[i]).nodes.contains(node)
    }

    /// The table of a node that knows no peer yet: one empty bucket.
    pub open spec fn initial(local: NodeDataView, now: nat) -> RoutingTableView {
        RoutingTableView {
            buckets: seq![RoutingBucketView { nodes: Seq::empty(), last_update_time: now }],
            local,
        }
    }

    /// The table with `bucket` in the place `index`.
    pub open spec fn with_bucket(self, index: int, bucket: RoutingBucketView) -> RoutingTableView {
        RoutingTableView { buckets: self.buckets.update(index, bucket), ..self }
    }

    /// The table after its last bucket was split: the peers that share more
    /// leading bits with the local node than the place of the last bucket
    /// says move on to a new last bucket.
    pub open spec fn split_last(self) -> RoutingTableView {
        let last = self.buckets.len() - 1;
        let bucket = self.buckets[last];
        RoutingTableView {
            buckets: self.buckets.update(
                last,
                RoutingBucketView {
                    nodes: ring_part(bucket.nodes, self.local.id, last as nat, true),
                    ..bucket
                },
            ).push(
                RoutingBucketView {
                    nodes: ring_part(bucket.nodes, self.local.id, last as nat, false),
                    ..bucket
                },
            ),
            ..self
        }
    }

    /// Finds room for the peer `node`: it goes to the end of its bucket where
    /// that is not full. A full bucket is split, and room sought again, where
    /// it is the last one and the table can still grow. The table as it
    /// stands then, and whether the peer is in it.
    pub open spec fn placed(self, node: NodeDataView, now: nat) -> (RoutingTableView, bool)
        decreases ROUTING_TABLE_SIZE - self.buckets.len(),
        when self.buckets.len() >= 1
    {
        let target = self.bucket_index(node.id);
        if self.buckets[target].nodes.len() < REPLICATION_PARAM {
            (self.with_bucket(target, self.buckets[target].upserted(node, now)), true)
        } else if target != self.buckets.len() - 1 || self.buckets.len() >= ROUTING_TABLE_SIZE {
            (self, false)
        } else {
            self.split_last().placed(node, now)
        }
    }

    /// The table after `node` was seen at the time `now`, and whether the
    /// peer is in it: a peer that is in its bucket moves to the end of it;
    /// for another, room is sought.
    pub open spec fn updated(self, node: NodeDataView, now: nat) -> (RoutingTableView, bool) {
        let target = self.bucket_index(node.id);
        if self.buckets[target].nodes.contains(node) {
            (self.with_bucket(target, self.buckets[target].upserted(node, now)), true)
        } else {
            self.placed(node, now)
        }
    }

    /// The peers of the buckets from `lo` up to, and without, `hi`.
    pub open spec fn joined(self, lo: int, hi: int) -> Seq<NodeDataView>
        decreases hi - lo,
    {
        if hi <= lo {
            Seq::empty()
        } else {
            self.joined(lo, hi - 1) + self.buckets[hi - 1].nodes
        }
    }

    /// `gathered` with the peers of the buckets below `index`, taken from
    /// the highest down for as long as fewer than `count` peers are there.
    pub open spec fn walked_down(self, gathered: Seq<NodeDataView>, index: int, count: nat) -> Seq<
        NodeDataView,
    >
        decreases index,
    {
        if index <= 0 || gathered.len() >= count {
            gathered
        } else {
            self.walked_down(gathered + self.buckets[index - 1].nodes, index - 1, count)
        }
    }

    /// The peers among which the `count` closest to `key` are sought: those
    /// of the bucket of `key`; where these are too few, those of all higher
    /// buckets too; and where these are still too few, those of the lower
    /// buckets, one bucket after the other, until there are enough.
    pub open spec fn candidates(self, key: Seq<u8>, count: nat) -> Seq<NodeDataView> {
        let index = self.bucket_index(key);
        let upper = if self.buckets[index].nodes.len() < count {
            self.joined(index, self.buckets.len() as int)
        } else {
            self.buckets[index].nodes
        };
        self.walked_down(upper, index, count)
    }

    /// What `get_closest_nodes` returns: the `count` candidates closest to
    /// `key`, closest first.
    pub open spec fn closest_nodes(self, key: Seq<u8>, count: nat) -> Seq<NodeDataView> {
        closest_to(self.candidates(key, count), key, count)
    }

    /// The table without the peer `node`.
    pub open spec fn without_node(self, node: NodeDataView) -> RoutingTableView {
        let index = self.bucket_index(node.id);
        self.with_bucket(
            index,
            RoutingBucketView { nodes: without(self.buckets[index].nodes, node), ..self.buckets[index] },
        )
    }

    /// The table without the least recently seen peer of the bucket that
    /// `key` belongs to, and that peer; the table as it is where that bucket
    /// is empty.
    pub open spec fn without_lrs(self, key: Seq<u8>) -> (RoutingTableView, Option<NodeDataView>) {
        let index = self.bucket_index(key);
        if self.buckets[index].nodes.len() == 0 {
            (self, None)
        } else {
            (
                self.with_bucket(
                    index,
                    RoutingBucketView {
                        nodes: self.buckets[index].nodes.drop_first(),
                        ..self.buckets[index]
                    },
                ),
                Some(self.buckets[index].nodes[0]),
            )
        }
    }

    /// All peers of the table, bucket after bucket.
    pub open spec fn all_nodes(self) -> Seq<NodeDataView> {
        self.joined(0, self.buckets.len() as int)
    }

    /// The places below `limit` of the buckets that are stale at `now`, in
    /// ascending order.
    pub open spec fn stale_below(self, now: nat, limit: int) -> Seq<usize>
        decreases limit,
    {
        if limit <= 0 {
            Seq::empty()
        } else if self.buckets[limit - 1].is_stale(now) {
            self.stale_below(now, limit - 1).push((limit - 1) as usize)
        } else {
            self.stale_below(now, limit - 1)
        }
    }

    /// The places of the buckets that are stale at `now`, in ascending order.
    pub open spec fn stale_indexes(self, now: nat) -> Seq<usize> {
        self.stale_below(now, self.buckets.len() as int)
    }
}

/// A node's routing table tree, as a growable vector of `RoutingBucket`.
#[derive(Debug)]
pub struct RoutingTable {
    buckets: Vec<RoutingBucket>,
    node_data: Arc<NodeData>,
}

impl View for RoutingTable {
    type V = RoutingTableView;

    closed spec fn view(&self) -> RoutingTableView {
        RoutingTableView { buckets: self.buckets.deep_view(), local: (*self.node_data)@ }
    }
}

impl Clone for RoutingTable {
    fn clone(&self) -> (copy: RoutingTable)
        ensures
            copy@ == self@,
    {
        let mut buckets: Vec<RoutingBucket> = Vec::new();
        let mut i: usize = 0;
        while i < self.buckets.len()
            invariant
                i <= self.buckets.len(),
                buckets.len() == i,
                forall|k: int| 0 <= k < i ==> buckets.deep_view()[k] == self.buckets.deep_view()[k],
            decreases self.buckets.len() - i,
        {
            let ghost sofar = buckets.deep_view();
            let bucket = self.buckets[i].clone();
            buckets.push(bucket);
            assert(buckets.deep_view() =~= sofar.push(bucket@));
            i += 1;
        }
        assert(buckets.deep_view() =~= self.buckets.deep_view());
        RoutingTable { buckets, node_data: Arc::new((*self.node_data).clone()) }
    }
}

/// Adds copies of the peers of `nodes` at the end of `list`.
fn append_nodes(list: &mut Vec<NodeData>, nodes: &[NodeData])
    ensures
        final(list).deep_view() == old(list).deep_view() + nodes.deep_view(),
{
    let ghost before = list.deep_view();
    let mut i: usize = 0;
    assert(list.deep_view() =~= before + nodes.deep_view().take(0));
    while i < nodes.len()
        invariant
            i <= nodes.len(),
            list.deep_view() == before + nodes.deep_view().take(i as int),
        decreases nodes.len() - i,
    {
        let ghost sofar = list.deep_view();
        list.push(nodes[i].clone());
        assert(list.deep_view() =~= sofar.push(nodes.deep_view()[i as int]));
        assert(list.deep_view() =~= before + nodes.deep_view().take(i + 1));
        i += 1;
    }
    assert(nodes.deep_view().take(nodes.len() as int) =~= nodes.deep_view());
}

impl RoutingTable {
    /// Constructs a new, empty `RoutingTable`, created at the time `now`.
    pub fn new_at(node_data: Arc<NodeData>, now: u64) -> (table: RoutingTable)
        ensures
            table@ == RoutingTableView::initial((*node_data)@, now as nat),
            table@.wf(),
    {
        let mut buckets: Vec<RoutingBucket> = Vec::new();
        buckets.push(RoutingBucket::new(now));
        let table = RoutingTable { buckets, node_data };
        assert(table@.buckets =~= seq![
            RoutingBucketView { nodes: Seq::empty(), last_update_time: now as nat },
        ]);
        table
    }

    /// Constructs a new, empty `RoutingTable`, created at the time that the
    /// steady clock shows.
    pub fn new(node_data: Arc<NodeData>) -> (table: RoutingTable)
        ensures
            exists|now: nat| table@ == #[trigger] RoutingTableView::initial((*node_data)@, now),
            table@.wf(),
    {
        let now = steady_now();
        let table = RoutingTable::new_at(node_data, now);
        assert(table@ == RoutingTableView::initial((*node_data)@, now as nat));
        table
    }

    /// The bucket that a peer with the identifier `id` belongs to.
    fn bucket_of(&self, id: &Key) -> (index: usize)
        requires
            self@.wf(),
        ensures
            index == self@.bucket_index(id@),
            index < self.buckets.len(),
    {
        let shared = id.xor(&self.node_data.id).leading_zeros();
        if shared < self.buckets.len() - 1 {
            shared
        } else {
            self.buckets.len() - 1
        }
    }

    /// Puts `node_data` at the end of the bucket `index`, which it belongs to
    /// and which holds it or has room.
    fn upsert_in(&mut self, index: usize, node_data: NodeData, now: u64)
        requires
            old(self)@.wf(),
            index == old(self)@.bucket_index(node_data@.id),
            old(self)@.buckets[index as int].nodes.contains(node_data@) || old(self)@.buckets[index as int].nodes.len() < REPLICATION_PARAM,
        ensures
            final(self)@ == old(self)@.with_bucket(
                index as int,
                old(self)@.buckets[index as int].upserted(node_data@, now as nat),
            ),
            final(self)@.wf(),
            final(self)@.holds(node_data@),
    {
        let ghost before = self@;
        self.buckets[index].update_node(node_data, now);
        proof {
            assert(self@.buckets =~= before.buckets.update(
                index as int,
                before.buckets[index as int].upserted(node_data@, now as nat),
            ));
            lemma_upsert_keeps_wf(before, node_data@, now as nat);
            let nodes = self@.buckets[index as int].nodes;
            assert(nodes[nodes.len() - 1] == node_data@);
            assert(self@.buckets[index as int].nodes.contains(node_data@));
        }
    }

    /// Upserts a node into the routing table, seen at the time `now`. A node
    /// that is in its bucket moves to the end of it. Another node is put at
    /// the end of its bucket where that has room; where it has none, it is
    /// split for as long as it is the last bucket and the table has fewer
    /// than `ROUTING_TABLE_SIZE` buckets. Returns whether the node is in the
    /// table now.
    pub fn update_node_at(&mut self, node_data: NodeData, now: u64) -> (updated: bool)
        requires
            old(self)@.wf(),
        ensures
            final(self)@.wf(),
            (final(self)@, updated) == old(self)@.updated(node_data@, now as nat),
            updated ==> final(self)@.holds(node_data@),
    {
        let mut target_bucket = self.bucket_of(&node_data.id);
        if self.buckets[target_bucket].contains(&node_data) {
            self.upsert_in(target_bucket, node_data, now);
            return true;
        }
        loop
            invariant
                self@.wf(),
                target_bucket == self@.bucket_index(node_data@.id),
                old(self)@.updated(node_data@, now as nat) == self@.placed(node_data@, now as nat),
            decreases ROUTING_TABLE_SIZE - self.buckets.len(),
        {
            // bucket is not full
            if self.buckets[target_bucket].size() < REPLICATION_PARAM {
                self.upsert_in(target_bucket, node_data, now);
                return true;
            }
            let is_last_bucket = target_bucket == self.buckets.len() - 1;
            let is_full = self.buckets.len() == ROUTING_TABLE_SIZE;
            // bucket cannot be split
            if !is_last_bucket || is_full {
                return false;
            }
            // split bucket
            let ghost before = self@;
            let local = self.node_data.id;
            let new_bucket = self.buckets[target_bucket].split(&local, target_bucket);
            self.buckets.push(new_bucket);
            proof {
                assert(self@.buckets =~= before.split_last().buckets);
                lemma_split_keeps_wf(before);
            }
            target_bucket = self.bucket_of(&node_data.id);
        }
    }

    /// Upserts a node into the routing table, seen at the time that the
    /// steady clock shows; see `update_node_at`.
    pub fn update_node(&mut self, node_data: NodeData) -> (updated: bool)
        requires
            old(self)@.wf(),
        ensures
            final(self)@.wf(),
            exists|now: nat|
                (final(self)@, updated) == #[trigger] old(self)@.updated(node_data@, now),
            updated ==> final(self)@.holds(node_data@),
    {
        let now = steady_now();
        let updated = self.update_node_at(node_data, now);
        assert((self@, updated) == old(self)@.updated(node_data@, now as nat));
        updated
    }

    /// Removes the least recently seen node from the bucket that `key`
    /// belongs to, and returns it; `None` where that bucket is empty.
    pub fn remove_lrs(&mut self, key: &Key) -> (lrs: Option<NodeData>)
        requires
            old(self)@.wf(),
        ensures
            final(self)@.wf(),
            (final(self)@, lrs.deep_view()) == old(self)@.without_lrs(key@),
    {
        let index = self.bucket_of(key);
        let ghost before = self@;
        assert(before.buckets[index as int].wf());
        let lrs = self.buckets[index].remove_lrs();
        proof {
            let bucket = before.buckets[index as int];
            if bucket.nodes.len() == 0 {
                assert(self@.buckets =~= before.buckets);
            } else {
                let rest = RoutingBucketView { nodes: bucket.nodes.drop_first(), ..bucket };
                assert(self@.buckets =~= before.buckets.update(index as int, rest));
                assert forall|j: int| 0 <= j < rest.nodes.len() implies bucket.nodes.contains(
                    #[trigger] rest.nodes[j],
                ) by {
                    assert(bucket.nodes[j + 1] == rest.nodes[j]);
                }
                assert forall|i: int, j: int|
                    0 <= i < rest.nodes.len() && 0 <= j < rest.nodes.len() && i != j implies rest.nodes[i]
                    != rest.nodes[j] by {
                    assert(bucket.nodes[i + 1] == rest.nodes[i]);
                    assert(bucket.nodes[j + 1] == rest.nodes[j]);
                }
                lemma_shrink_keeps_wf(before, index as int, rest);
            }
        }
        lrs
    }

    /// Removes `node_data` from the routing table.
    pub fn remove_node(&mut self, node_data: &NodeData)
        requires
            old(self)@.wf(),
        ensures
            final(self)@.wf(),
            final(self)@ == old(self)@.without_node(node_data@),
            !final(self)@.holds(node_data@),
    {
        let index = self.bucket_of(&node_data.id);
        let ghost before = self@;
        assert(before.buckets[index as int].wf());
        self.buckets[index].remove_node(node_data);
        proof {
            let bucket = before.buckets[index as int];
            let rest = RoutingBucketView { nodes: without(bucket.nodes, node_data@), ..bucket };
            assert(self@.buckets =~= before.buckets.update(index as int, rest));
            lemma_without_node(bucket.nodes, node_data@);
            assert forall|j: int| 0 <= j < rest.nodes.len() implies bucket.nodes.contains(
                #[trigger] rest.nodes[j],
            ) by {
                assert(rest.nodes.contains(rest.nodes[j]));
            }
            lemma_shrink_keeps_wf(before, index as int, rest);
            lemma_holds_in_own_bucket(self@, node_data@);
        }
    }

    /// The places of the buckets that were not updated in the
    /// `BUCKET_REFRESH_INTERVAL` seconds before `now`, in ascending order.
    pub fn get_stale_indexes_at(&self, now: u64) -> (stale: Vec<usize>)
        ensures
            stale@ == self@.stale_indexes(now as nat),
    {
        let mut ret: Vec<usize> = Vec::new();
        let mut i: usize = 0;
        while i < self.buckets.len()
            invariant
                i <= self.buckets.len(),
                ret@ == self@.stale_below(now as nat, i as int),
            decreases self.buckets.len() - i,
        {
            if self.buckets[i].is_stale_at(now) {
                ret.push(i);
            }
            i += 1;
        }
        ret
    }

    /// Returns a list of all the stale routing buckets in the routing table:
    /// those that were not updated in the last `BUCKET_REFRESH_INTERVAL`
    /// seconds, by the steady clock.
    pub fn get_stale_indexes(&self) -> (stale: Vec<usize>)
        ensures
            exists|now: nat| stale@ == #[trigger] self@.stale_indexes(now),
    {
        let now = steady_now();
        let stale = self.get_stale_indexes_at(now);
        assert(stale@ == self@.stale_indexes(now as nat));
        stale
    }

    /// The keys to look up in order to refresh the buckets at the places
    /// `indexes`: for each place a random key that belongs to the bucket
    /// there, in the order of the places.
    pub fn refresh_keys(indexes: &Vec<usize>) -> (keys: Vec<Key>)
        requires
            forall|i: int| 0 <= i < indexes@.len() ==> indexes@[i] < ROUTING_TABLE_SIZE,
        ensures
            keys@.len() == indexes@.len(),
            forall|i: int|
                0 <= i < keys@.len() ==> leading_zero_bits((#[trigger] keys@[i])@) == indexes@[i],
    {
        let mut keys: Vec<Key> = Vec::new();
        let mut i: usize = 0;
        while i < indexes.len()
            invariant
                i <= indexes.len(),
                keys@.len() == i,
                forall|k: int| 0 <= k < indexes@.len() ==> indexes@[k] < ROUTING_TABLE_SIZE,
                forall|k: int|
                    0 <= k < i ==> leading_zero_bits((#[trigger] keys@[k])@) == indexes@[k],
            decreases indexes.len() - i,
        {
            keys.push(Key::rand_in_range(indexes[i]));
            i += 1;
        }
        keys
    }

    /// The keys to look up in order to refresh the buckets that are stale at
    /// the time `now`: one random key out of the range of each of them.
    pub fn stale_keys_at(&self, now: u64) -> (keys: Vec<Key>)
        requires
            self@.wf(),
        ensures
            keys@.len() == self@.stale_indexes(now as nat).len(),
            forall|i: int|
                0 <= i < keys@.len() ==> leading_zero_bits((#[trigger] keys@[i])@)
                    == self@.stale_indexes(now as nat)[i],
    {
        let indexes = self.get_stale_indexes_at(now);
        proof {
            lemma_stale_below(self@, now as nat, self@.buckets.len() as int);
        }
        RoutingTable::refresh_keys(&indexes)
    }

    /// The keys to look up when a node joins: one random key out of the range
    /// of each bucket, in the order of the buckets.
    pub fn bucket_keys(&self) -> (keys: Vec<Key>)
        requires
            self@.wf(),
        ensures
            keys@.len() == self@.buckets.len(),
            forall|i: int| 0 <= i < keys@.len() ==> leading_zero_bits((#[trigger] keys@[i])@) == i,
    {
        let mut indexes: Vec<usize> = Vec::new();
        let mut i: usize = 0;
        while i < self.buckets.len()
            invariant
                i <= self.buckets.len(),
                self.buckets.len() <= ROUTING_TABLE_SIZE,
                indexes@.len() == i,
                forall|k: int| 0 <= k < i ==> indexes@[k] == k,
            decreases self.buckets.len() - i,
        {
            indexes.push(i);
            i += 1;
        }
        RoutingTable::refresh_keys(&indexes)
    }

    /// The node that the table belongs to.
    pub fn node_data(&self) -> (local: NodeData)
        ensures
            local@ == self@.local,
    {
        (*self.node_data).clone()
    }

    /// The nodes of the bucket at the place `index`, from the least recently
    /// seen to the most recently seen; none where there is no such bucket.
    pub fn bucket_nodes(&self, index: usize) -> (nodes: Vec<NodeData>)
        ensures
            index < self@.buckets.len() ==> nodes.deep_view() == self@.buckets[index as int].nodes,
            index >= self@.buckets.len() ==> nodes.deep_view() == Seq::<NodeDataView>::empty(),
    {
        let mut nodes: Vec<NodeData> = Vec::new();
        assert(nodes.deep_view() =~= Seq::<NodeDataView>::empty());
        if index < self.buckets.len() {
            append_nodes(&mut nodes, self.buckets[index].get_nodes());
            assert(nodes.deep_view() =~= self@.buckets[index as int].nodes);
        }
        nodes
    }

    /// Returns the number of routing buckets in the routing table.
    pub fn size(&self) -> (size: usize)
        ensures
            size == self@.buckets.len(),
    {
        self.buckets.len()
    }

    /// Returns the closest `count` nodes to `key`, closest first.
    pub fn get_closest_nodes(&self, key: &Key, count: usize) -> (closest: Vec<NodeData>)
        requires
            self@.wf(),
        ensures
            closest.deep_view() == self@.closest_nodes(key@, count as nat),
    {
        let index = self.bucket_of(key);
        let mut ret: Vec<NodeData> = Vec::new();
        // the closest keys are in the bucket in which the key would reside
        append_nodes(&mut ret, self.buckets[index].get_nodes());
        proof {
            assert(self@.joined(index as int, index as int) =~= Seq::empty());
            assert(ret.deep_view() =~= self@.buckets[index as int].nodes);
            assert(ret.deep_view() =~= self@.joined(index as int, index + 1));
        }
        if ret.len() < count {
            // above the bucket of the key the distance does not follow the
            // order of the buckets, so all of them are looked at
            let mut i: usize = index + 1;
            while i < self.buckets.len()
                invariant
                    index < i <= self.buckets.len(),
                    ret.deep_view() == self@.joined(index as int, i as int),
                decreases self.buckets.len() - i,
            {
                append_nodes(&mut ret, self.buckets[i].get_nodes());
                i += 1;
            }
        }
        let ghost upper = ret.deep_view();
        // below the bucket of the key the distance grows from bucket to bucket
        let mut i: usize = index;
        while i > 0 && ret.len() < count
            invariant
                i <= index < self.buckets.len(),
                self@.walked_down(ret.deep_view(), i as int, count as nat) == self@.walked_down(
                    upper,
                    index as int,
                    count as nat,
                ),
            decreases i,
        {
            i -= 1;
            append_nodes(&mut ret, self.buckets[i].get_nodes());
        }
        closest_nodes(ret, key, count)
    }
}

/// The peers of a run of buckets are those of its lower part and those of
/// its upper part.
pub proof fn lemma_joined_split(table: RoutingTableView, lo: int, mid: int, hi: int)
    requires
        lo <= mid <= hi,
    ensures
        table.joined(lo, hi) == table.joined(lo, mid) + table.joined(mid, hi),
    decreases hi - mid,
{
    if hi == mid {
        assert(table.joined(mid, hi) =~= Seq::empty());
        assert(table.joined(lo, hi) =~= table.joined(lo, mid) + table.joined(mid, hi));
    } else {
        lemma_joined_split(table, lo, mid, hi - 1);
        assert(table.joined(lo, hi) =~= table.joined(lo, mid) + table.joined(mid, hi));
    }
}

/// The peers of a run of buckets are peers of the table.
pub proof fn lemma_joined_held(table: RoutingTableView, lo: int, hi: int)
    requires
        0 <= lo <= hi <= table.buckets.len(),
    ensures
        forall|k: int|
            0 <= k < table.joined(lo, hi).len() ==> table.holds(#[trigger] table.joined(lo, hi)[k]),
    decreases hi - lo,
{
    if lo < hi {
        lemma_joined_held(table, lo, hi - 1);
        let below = table.joined(lo, hi - 1);
        let top = table.buckets[hi - 1].nodes;
        assert forall|k: int| 0 <= k < table.joined(lo, hi).len() implies table.holds(
            #[trigger] table.joined(lo, hi)[k],
        ) by {
            if k >= below.len() {
                assert(top[k - below.len()] == table.joined(lo, hi)[k]);
                assert(table.buckets[hi - 1].nodes.contains(table.joined(lo, hi)[k]));
            } else {
                assert(below[k] == table.joined(lo, hi)[k]);
            }
        }
    }
}

/// Walking down adds peers of the table for as long as there are too few:
/// in the end there are `count` or more, or all that the lower buckets had.
pub proof fn lemma_walked_down(
    table: RoutingTableView,
    gathered: Seq<NodeDataView>,
    index: int,
    count: nat,
)
    requires
        0 <= index <= table.buckets.len(),
        forall|k: int| 0 <= k < gathered.len() ==> table.holds(#[trigger] gathered[k]),
    ensures
        table.walked_down(gathered, index, count).len() <= gathered.len() + table.joined(
            0,
            index,
        ).len(),
        table.walked_down(gathered, index, count).len() >= count || table.walked_down(
            gathered,
            index,
            count,
        ).len() == gathered.len() + table.joined(0, index).len(),
        forall|k: int|
            0 <= k < table.walked_down(gathered, index, count).len() ==> table.holds(
                #[trigger] table.walked_down(gathered, index, count)[k],
            ),
    decreases index,
{
    if index <= 0 || gathered.len() >= count {
        if index <= 0 {
            assert(table.joined(0, index) =~= Seq::empty());
        }
    } else {
        let lower = table.buckets[index - 1].nodes;
        let next = gathered + lower;
        assert forall|k: int| 0 <= k < next.len() implies table.holds(#[trigger] next[k]) by {
            if k >= gathered.len() {
                assert(lower[k - gathered.len()] == next[k]);
                assert(table.buckets[index - 1].nodes.contains(next[k]));
            } else {
                assert(gathered[k] == next[k]);
            }
        }
        lemma_walked_down(table, next, index - 1, count);
        assert(table.joined(0, index) == table.joined(0, index - 1) + lower);
    }
}

/// What `get_closest_nodes` returns is sorted by the distance to `key`, holds
/// peers of the table only, and has `count` peers, or all peers of the table
/// where these are fewer.
pub proof fn lemma_closest_nodes(table: RoutingTableView, key: Seq<u8>, count: nat)
    requires
        table.wf(),
    ensures
        crate::closest::sorted_by_distance(table.closest_nodes(key, count), key),
        table.closest_nodes(key, count).len() == if count < table.all_nodes().len() {
            count
        } else {
            table.all_nodes().len()
        },
        forall|k: int|
            0 <= k < table.closest_nodes(key, count).len() ==> table.holds(
                #[trigger] table.closest_nodes(key, count)[k],
            ),
{
    let index = table.bucket_index(key);
    let len = table.buckets.len() as int;
    let first = table.buckets[index].nodes;
    let upper = if first.len() < count {
        table.joined(index, len)
    } else {
        first
    };
    let found = table.candidates(key, count);
    assert(table.joined(index, index) =~= Seq::empty());
    assert(table.joined(index, index + 1) =~= first);
    lemma_joined_split(table, 0, index, len);
    lemma_joined_split(table, index, index + 1, len);
    lemma_joined_held(table, index, len);
    lemma_joined_held(table, index, index + 1);
    lemma_walked_down(table, upper, index, count);
    crate::closest::lemma_closest_to(found, key, count);
    let out = table.closest_nodes(key, count);
    assert forall|k: int| 0 <= k < out.len() implies table.holds(#[trigger] out[k]) by {
        assert(found.contains(out[k]));
        let at = choose|at: int| 0 <= at < found.len() && found[at] == out[k];
        assert(table.holds(found[at]));
    }
}

/// A peer of the table whose identifier no other peer of the table has is
/// the peer closest to its own identifier. This holds of a peer for which
/// `update_node` has just returned `true`: it is a peer of the table then.
pub proof fn lemma_held_node_is_closest(table: RoutingTable, node: NodeData)
    requires
        table@.wf(),
        table@.holds(node@),
        forall|other: NodeDataView|
            table@.holds(other) && other.id == node@.id ==> other == node@,
    ensures
        table@.closest_nodes(node@.id, 1) == seq![node@],
{
    broadcast use vstd::seq_lib::group_to_multiset_ensures;

    let view = table@;
    let key = node@.id;
    let index = view.bucket_index(key);
    let nodes = view.buckets[index].nodes;
    lemma_holds_in_own_bucket(view, node@);
    assert(nodes.contains(node@));
    assert(view.candidates(key, 1) == nodes);
    crate::closest::lemma_sort_by_distance(nodes, key);
    let sorted = crate::closest::sort_by_distance(nodes, key);
    let out = view.closest_nodes(key, 1);
    assert(out.len() == 1 && out[0] == sorted[0]);
    assert(sorted.to_multiset().count(node@) > 0);
    let place = choose|place: int| 0 <= place < sorted.len() && sorted[place] == node@;
    crate::key::lemma_distance_zero_bytes(key, key);
    assert(sorted[0].distance_to(key) <= sorted[place].distance_to(key));
    assert(nodes.to_multiset().count(sorted[0]) > 0);
    let at = choose|at: int| 0 <= at < nodes.len() && nodes[at] == sorted[0];
    assert(nodes[at] == table.buckets@[index].nodes@[at]@);
    assert(sorted[0].id.len() == 32);
    assert(key.len() == 32);
    crate::key::lemma_distance_zero_bytes(sorted[0].id, key);
    assert(view.buckets[index].nodes.contains(sorted[0]));
    assert(view.holds(sorted[0]));
    assert(out =~= seq![node@]);
}

/// The places of the stale buckets are places of buckets.
pub proof fn lemma_stale_below(table: RoutingTableView, now: nat, limit: int)
    requires
        table.wf(),
        0 <= limit <= table.buckets.len(),
    ensures
        forall|i: int|
            0 <= i < table.stale_below(now, limit).len() ==> (#[trigger] table.stale_below(
                now,
                limit,
            )[i]) < limit,
    decreases limit,
{
    if limit > 0 {
        lemma_stale_below(table, now, limit - 1);
        let earlier = table.stale_below(now, limit - 1);
        let all = table.stale_below(now, limit);
        assert(((limit - 1) as usize) == limit - 1);
        assert forall|i: int| 0 <= i < all.len() implies (#[trigger] all[i]) < limit by {
            if i < earlier.len() {
                assert(all[i] == earlier[i]);
            }
        }
    }
}

/// A part of a bucket holds no peer that the bucket does not hold, none
/// twice, and only peers on its side of the split.
pub proof fn lemma_ring_part(nodes: Seq<NodeDataView>, local: Seq<u8>, index: nat, inside: bool)
    requires
        nodes.no_duplicates(),
    ensures
        ring_part(nodes, local, index, inside).no_duplicates(),
        ring_part(nodes, local, index, inside).len() <= nodes.len(),
        forall|k: int|
            0 <= k < ring_part(nodes, local, index, inside).len() ==> nodes.contains(
                #[trigger] ring_part(nodes, local, index, inside)[k],
            ) && (shared_prefix(ring_part(nodes, local, index, inside)[k].id, local) == index)
                == inside,
    decreases nodes.len(),
{
    let part = ring_part(nodes, local, index, inside);
    if nodes.len() > 0 {
        let init = nodes.drop_last();
        let earlier = ring_part(init, local, index, inside);
        assert forall|i: int, j: int| 0 <= i < init.len() && 0 <= j < init.len() && i != j implies init[i]
            != init[j] by {
            assert(init[i] == nodes[i] && init[j] == nodes[j]);
        }
        lemma_ring_part(init, local, index, inside);
        assert forall|k: int| 0 <= k < part.len() implies nodes.contains(#[trigger] part[k]) && (
        shared_prefix(part[k].id, local) == index) == inside by {
            if k < earlier.len() {
                assert(init.contains(earlier[k]));
                let at = choose|at: int| 0 <= at < init.len() && init[at] == earlier[k];
                assert(nodes[at] == part[k]);
            } else {
                assert(nodes[nodes.len() - 1] == part[k]);
            }
        }
        assert forall|i: int, j: int| 0 <= i < part.len() && 0 <= j < part.len() && i != j implies part[i]
            != part[j] by {
            if i < earlier.len() && j < earlier.len() {
            } else if i < earlier.len() {
                assert(init.contains(earlier[i]));
                let at = choose|at: int| 0 <= at < init.len() && init[at] == earlier[i];
                assert(nodes[at] == earlier[i]);
            } else {
                assert(init.contains(earlier[j]));
                let at = choose|at: int| 0 <= at < init.len() && init[at] == earlier[j];
                assert(nodes[at] == earlier[j]);
            }
        }
    }
}

/// A table stays well formed when a bucket of it gives way to one that holds
/// no peer twice and only peers that the bucket held.
pub proof fn lemma_shrink_keeps_wf(table: RoutingTableView, index: int, bucket: RoutingBucketView)
    requires
        table.wf(),
        0 <= index < table.buckets.len(),
        bucket.nodes.no_duplicates(),
        bucket.nodes.len() <= REPLICATION_PARAM,
        forall|j: int|
            0 <= j < bucket.nodes.len() ==> table.buckets[index].nodes.contains(
                #[trigger] bucket.nodes[j],
            ),
    ensures
        table.with_bucket(index, bucket).wf(),
{
    let after = table.with_bucket(index, bucket);
    assert forall|i: int, j: int|
        0 <= i < after.buckets.len() && 0 <= j < after.buckets[i].nodes.len() implies after.bucket_index(
        (#[trigger] after.buckets[i].nodes[j]).id,
    ) == i by {
        if i == index {
            let node = bucket.nodes[j];
            assert(table.buckets[index].nodes.contains(node));
            let at = choose|at: int|
                0 <= at < table.buckets[index].nodes.len() && table.buckets[index].nodes[at]
                    == node;
            assert(table.bucket_index(table.buckets[index].nodes[at].id) == index);
        } else {
            assert(after.buckets[i] == table.buckets[i]);
            assert(table.bucket_index(table.buckets[i].nodes[j].id) == i);
        }
    }
    assert forall|i: int| 0 <= i < after.buckets.len() implies (#[trigger] after.buckets[i]).wf() by {
        if i != index {
            assert(after.buckets[i] == table.buckets[i]);
        }
    }
}

/// A table stays well formed when a peer is put at the end of its bucket,
/// which holds it already or has room.
pub proof fn lemma_upsert_keeps_wf(table: RoutingTableView, node: NodeDataView, now: nat)
    requires
        table.wf(),
        table.buckets[table.bucket_index(node.id)].nodes.contains(node)
            || table.buckets[table.bucket_index(node.id)].nodes.len() < REPLICATION_PARAM,
    ensures
        table.with_bucket(
            table.bucket_index(node.id),
            table.buckets[table.bucket_index(node.id)].upserted(node, now),
        ).wf(),
        table.with_bucket(
            table.bucket_index(node.id),
            table.buckets[table.bucket_index(node.id)].upserted(node, now),
        ).buckets[table.bucket_index(node.id)].nodes.last() == node,
{
    let index = table.bucket_index(node.id);
    let bucket = table.buckets[index];
    let kept = without(bucket.nodes, node);
    let pushed = kept.push(node);
    let after = table.with_bucket(index, bucket.upserted(node, now));
    assert(bucket.wf());
    lemma_without_node(bucket.nodes, node);
    lemma_push_absent(kept, node);
    if bucket.nodes.contains(node) {
        reveal(without);
        assert(kept.len() == bucket.nodes.len() - 1);
    }
    assert(after.buckets[index].nodes == pushed);
    assert forall|i: int, j: int|
        0 <= i < after.buckets.len() && 0 <= j < after.buckets[i].nodes.len() implies after.bucket_index(
        (#[trigger] after.buckets[i].nodes[j]).id,
    ) == i by {
        if i == index {
            if j < kept.len() {
                assert(kept.contains(kept[j]));
                assert(bucket.nodes.contains(kept[j]));
                let at = choose|at: int| 0 <= at < bucket.nodes.len() && bucket.nodes[at] == kept[j];
                assert(table.bucket_index(table.buckets[index].nodes[at].id) == index);
            }
        } else {
            assert(after.buckets[i] == table.buckets[i]);
            assert(table.bucket_index(table.buckets[i].nodes[j].id) == i);
        }
    }
    assert forall|i: int| 0 <= i < after.buckets.len() implies (#[trigger] after.buckets[i]).wf() by {
        if i != index {
            assert(after.buckets[i] == table.buckets[i]);
        }
    }
}

/// A table whose last bucket is split stays well formed, and gains a bucket.
pub proof fn lemma_split_keeps_wf(table: RoutingTableView)
    requires
        table.wf(),
        table.buckets.len() < ROUTING_TABLE_SIZE,
    ensures
        table.split_last().wf(),
        table.split_last().buckets.len() == table.buckets.len() + 1,
        table.split_last().local == table.local,
{
    let last = table.buckets.len() - 1;
    let bucket = table.buckets[last];
    let after = table.split_last();
    assert(bucket.wf());
    lemma_ring_part(bucket.nodes, table.local.id, last as nat, true);
    lemma_ring_part(bucket.nodes, table.local.id, last as nat, false);
    assert forall|i: int| 0 <= i < after.buckets.len() implies (#[trigger] after.buckets[i]).wf() by {
        if i < last {
            assert(after.buckets[i] == table.buckets[i]);
        }
    }
    assert forall|i: int, j: int|
        0 <= i < after.buckets.len() && 0 <= j < after.buckets[i].nodes.len() implies after.bucket_index(
        (#[trigger] after.buckets[i].nodes[j]).id,
    ) == i by {
        let node = after.buckets[i].nodes[j];
        if i < last {
            assert(after.buckets[i] == table.buckets[i]);
            assert(table.bucket_index(table.buckets[i].nodes[j].id) == i);
        } else {
            assert(bucket.nodes.contains(node));
            let at = choose|at: int| 0 <= at < bucket.nodes.len() && bucket.nodes[at] == node;
            assert(table.bucket_index(table.buckets[last].nodes[at].id) == last);
        }
    }
}

/// In a well-formed table a peer is nowhere but in the bucket that it
/// belongs to.
pub proof fn lemma_holds_in_own_bucket(table: RoutingTableView, node: NodeDataView)
    requires
        table.wf(),
    ensures
        table.holds(node) <==> table.buckets[table.bucket_index(node.id)].nodes.contains(node),
        forall|i: int|
            0 <= i < table.buckets.len() && (#[trigger] table.buckets[i]).nodes.contains(node) ==> i
                == table.bucket_index(node.id),
{
    assert forall|i: int|
        0 <= i < table.buckets.len() && (#[trigger] table.buckets[i]).nodes.contains(node) implies i
        == table.bucket_index(node.id) by {
        let at = choose|at: int| 0 <= at < table.buckets[i].nodes.len() && table.buckets[i].nodes[at]
            == node;
        assert(table.bucket_index(table.buckets[i].nodes[at].id) == i);
    }
}

/// Without a peer, a sequence that held no peer twice does not hold that
/// peer, and still holds no peer twice.
pub proof fn lemma_without_node(nodes: Seq<NodeDataView>, node: NodeDataView)
    requires
        nodes.no_duplicates(),
    ensures
        !without(nodes, node).contains(node),
        without(nodes, node).no_duplicates(),
        without(nodes, node).len() <= nodes.len(),
        forall|other: NodeDataView|
            other != node ==> (#[trigger] without(nodes, node).contains(other) <==> nodes.contains(
                other,
            )),
{
    reveal(without);
    let out = without(nodes, node);
    if nodes.contains(node) {
        let index = crate::node::node_data::first_position(nodes, node);
        assert forall|k: int| 0 <= k < out.len() implies out[k] != node by {
            if k < index {
                assert(out[k] == nodes[k]);
            } else {
                assert(out[k] == nodes[k + 1]);
            }
        }
        assert forall|i: int, j: int| 0 <= i < out.len() && 0 <= j < out.len() && i != j implies out[i]
            != out[j] by {
            let a = if i < index { i } else { i + 1 };
            let b = if j < index { j } else { j + 1 };
            assert(out[i] == nodes[a] && out[j] == nodes[b]);
        }
        assert forall|other: NodeDataView| other != node implies (#[trigger] out.contains(other)
            <==> nodes.contains(other)) by {
            if out.contains(other) {
                let k = choose|k: int| 0 <= k < out.len() && out[k] == other;
                let a = if k < index { k } else { k + 1 };
                assert(nodes[a] == other);
            }
            if nodes.contains(other) {
                let k = choose|k: int| 0 <= k < nodes.len() && nodes[k] == other;
                let a = if k < index { k } else { k - 1 };
                assert(out[a] == other);
            }
        }
    }
}

/// A peer pushed behind a sequence that held no peer twice, and not this
/// one, leaves no peer twice in it.
pub proof fn lemma_push_absent(nodes: Seq<NodeDataView>, node: NodeDataView)
    requires
        nodes.no_duplicates(),
        !nodes.contains(node),
    ensures
        nodes.push(node).no_duplicates(),
{
    let out = nodes.push(node);
    assert forall|i: int, j: int| 0 <= i < out.len() && 0 <= j < out.len() && i != j implies out[i]
        != out[j] by {
        if i < nodes.len() && j < nodes.len() {
        } else if i < nodes.len() {
            assert(nodes.contains(nodes[i]));
        } else {
            assert(nodes.contains(nodes[j]));
        }
    }
}

} // verus!

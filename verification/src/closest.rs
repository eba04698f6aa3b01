//! Peers in the order of their XOR distance to a target.
use vstd::prelude::*;
use crate::key::Key;
use crate::node::node_data::NodeData;
use crate::node::node_data::NodeDataView;

verus! {

/// Whether the peers of `nodes` stand in ascending order of their distance to
/// `target`.
pub open spec fn sorted_by_distance(nodes: Seq<NodeDataView>, target: Seq<u8>) -> bool {
    forall|i: int, j: int|
        0 <= i <= j < nodes.len() ==> nodes[i].distance_to(target) <= nodes[j].distance_to(
            target,
        )
}

/// `sorted` with `node` put behind the last peer that is no farther from
/// `target` than `node` is.
pub open spec fn insert_by_distance(
    sorted: Seq<NodeDataView>,
    node: NodeDataView,
    target: Seq<u8>,
) -> Seq<NodeDataView>
    decreases sorted.len(),
{
    if sorted.len() == 0 {
        seq![node]
    } else if sorted.last().distance_to(target) <= node.distance_to(target) {
        sorted.push(node)
    } else {
        insert_by_distance(sorted.drop_last(), node, target).push(sorted.last())
    }
}

/// The peers of `nodes` in ascending order of their distance to `target`;
/// peers at the same distance keep the order they had in `nodes`.
pub open spec fn sort_by_distance(nodes: Seq<NodeDataView>, target: Seq<u8>) -> Seq<NodeDataView>
    decreases nodes.len(),
{
    if nodes.len() == 0 {
        Seq::empty()
    } else {
        insert_by_distance(sort_by_distance(nodes.drop_last(), target), nodes.last(), target)
    }
}

/// The `count` peers of `nodes` closest to `target`, closest first; all of
/// them where there are fewer.
pub open spec fn closest_to(nodes: Seq<NodeDataView>, target: Seq<u8>, count: nat) -> Seq<
    NodeDataView,
> {
    let sorted = sort_by_distance(nodes, target);
    if count < sorted.len() {
        sorted.take(count as int)
    } else {
        sorted
    }
}

/// Putting a peer into a sorted sequence puts it at the one place where
/// everything behind it is farther away and the peer before it is not.
pub proof fn lemma_insert_position(
    sorted: Seq<NodeDataView>,
    node: NodeDataView,
    target: Seq<u8>,
    pos: int,
)
    requires
        0 <= pos <= sorted.len(),
        forall|j: int|
            pos <= j < sorted.len() ==> node.distance_to(target) < sorted[j].distance_to(target),
        pos > 0 ==> sorted[pos - 1].distance_to(target) <= node.distance_to(target),
    ensures
        insert_by_distance(sorted, node, target) == sorted.insert(pos, node),
    decreases sorted.len() - pos,
{
    if sorted.len() == 0 {
        assert(sorted.insert(pos, node) =~= seq![node]);
    } else if pos == sorted.len() {
        assert(sorted.insert(pos, node) =~= sorted.push(node));
    } else {
        let init = sorted.drop_last();
        lemma_insert_position(init, node, target, pos);
        assert(init.insert(pos, node).push(sorted.last()) =~= sorted.insert(pos, node));
    }
}

/// Putting a peer into a sorted sequence keeps it sorted and adds that peer
/// and nothing else.
pub proof fn lemma_insert_by_distance(sorted: Seq<NodeDataView>, node: NodeDataView, target: Seq<u8>)
    requires
        sorted_by_distance(sorted, target),
    ensures
        sorted_by_distance(insert_by_distance(sorted, node, target), target),
        insert_by_distance(sorted, node, target).len() == sorted.len() + 1,
        insert_by_distance(sorted, node, target).to_multiset() == sorted.to_multiset().insert(
            node,
        ),
    decreases sorted.len(),
{
    broadcast use vstd::seq_lib::group_to_multiset_ensures;

    let out = insert_by_distance(sorted, node, target);
    if sorted.len() == 0 {
        assert(sorted =~= Seq::empty());
        assert(out =~= Seq::<NodeDataView>::empty().push(node));
    } else if sorted.last().distance_to(target) <= node.distance_to(target) {
    } else {
        let init = sorted.drop_last();
        let inner = insert_by_distance(init, node, target);
        assert(sorted =~= init.push(sorted.last()));
        lemma_insert_by_distance(init, node, target);
        assert forall|i: int, j: int| 0 <= i <= j < out.len() implies out[i].distance_to(target)
            <= out[j].distance_to(target) by {
            if j == out.len() - 1 && i < j {
                assert(inner.to_multiset().count(inner[i]) > 0);
                if inner[i] != node {
                    assert(init.to_multiset().count(inner[i]) > 0);
                    let k = choose|k: int| 0 <= k < init.len() && init[k] == inner[i];
                    assert(sorted[k] == inner[i]);
                }
            }
        }
        assert(sorted.to_multiset().insert(node) =~= init.to_multiset().insert(node).insert(
            sorted.last(),
        ));
    }
}

/// Sorting by distance gives a sorted sequence of the same peers.
pub proof fn lemma_sort_by_distance(nodes: Seq<NodeDataView>, target: Seq<u8>)
    ensures
        sorted_by_distance(sort_by_distance(nodes, target), target),
        sort_by_distance(nodes, target).len() == nodes.len(),
        sort_by_distance(nodes, target).to_multiset() == nodes.to_multiset(),
    decreases nodes.len(),
{
    broadcast use vstd::seq_lib::group_to_multiset_ensures;

    if nodes.len() == 0 {
        assert(nodes =~= Seq::empty());
    } else {
        let init = nodes.drop_last();
        lemma_sort_by_distance(init, target);
        lemma_insert_by_distance(sort_by_distance(init, target), nodes.last(), target);
        assert(nodes =~= init.push(nodes.last()));
    }
}

/// The closest peers are sorted, no more than were asked for, and all of the
/// peers where fewer were given.
pub proof fn lemma_closest_to(nodes: Seq<NodeDataView>, target: Seq<u8>, count: nat)
    ensures
        sorted_by_distance(closest_to(nodes, target, count), target),
        closest_to(nodes, target, count).len() == if count < nodes.len() {
            count
        } else {
            nodes.len()
        },
        forall|i: int|
            0 <= i < closest_to(nodes, target, count).len() ==> nodes.contains(
                #[trigger] closest_to(nodes, target, count)[i],
            ),
{
    broadcast use vstd::seq_lib::group_to_multiset_ensures;

    lemma_sort_by_distance(nodes, target);
    let sorted = sort_by_distance(nodes, target);
    let out = closest_to(nodes, target, count);
    assert forall|i: int| 0 <= i < out.len() implies nodes.contains(#[trigger] out[i]) by {
        assert(out[i] == sorted[i]);
        assert(sorted.to_multiset().count(sorted[i]) > 0);
        assert(nodes.to_multiset().count(sorted[i]) > 0);
    }
}

/// Sorts `nodes` by their distance to `target`, closest first. Peers at the
/// same distance keep their order.
pub fn sort_nodes(nodes: &mut Vec<NodeData>, target: &Key)
    ensures
        final(nodes).deep_view() == sort_by_distance(old(nodes).deep_view(), target@),
{
    let ghost orig = nodes.deep_view();
    let n = nodes.len();
    let mut i: usize = 0;
    assert(orig.take(0) =~= Seq::empty());
    assert(nodes.deep_view().take(0) =~= Seq::empty());
    assert(nodes.deep_view().skip(0) =~= orig.skip(0));
    while i < n
        invariant
            i <= n,
            nodes.len() == n,
            orig.len() == n,
            nodes.deep_view().take(i as int) == sort_by_distance(orig.take(i as int), target@),
            nodes.deep_view().skip(i as int) == orig.skip(i as int),
        decreases n - i,
    {
        let ghost before = nodes.deep_view();
        let ghost sorted = before.take(i as int);
        assert(before[i as int] == before.skip(i as int)[0]);
        let node = nodes.remove(i);
        let reach = node.id.xor(target);
        let mut pos: usize = i;
        assert(nodes.deep_view() =~= before.remove(i as int));
        while pos > 0 && reach.precedes(&nodes[pos - 1].id.xor(target))
            invariant
                pos <= i,
                i < n,
                nodes.len() == n - 1,
                nodes.deep_view() == before.remove(i as int),
                before.len() == n,
                sorted == before.take(i as int),
                reach.value() == node@.distance_to(target@),
                forall|j: int|
                    pos <= j < i ==> node@.distance_to(target@) < sorted[j].distance_to(target@),
            decreases pos,
        {
            proof {
                assert(nodes.deep_view()[pos - 1] == sorted[pos - 1]);
            }
            pos -= 1;
        }
        proof {
            if pos > 0 {
                assert(nodes.deep_view()[pos - 1] == sorted[pos - 1]);
            }
            lemma_insert_position(sorted, node@, target@, pos as int);
            assert(orig.take(i + 1).drop_last() =~= orig.take(i as int));
            assert(orig.take(i + 1).last() == orig.skip(i as int)[0]);
        }
        nodes.insert(pos, node);
        proof {
            assert(nodes.deep_view() =~= before.remove(i as int).insert(pos as int, node@));
            assert(nodes.deep_view().take(i + 1) =~= sorted.insert(pos as int, node@));
            assert(nodes.deep_view().skip(i + 1) =~= before.skip(i + 1));
            assert(before.skip(i + 1) =~= before.skip(i as int).skip(1));
            assert(orig.skip(i + 1) =~= orig.skip(i as int).skip(1));
        }
        i += 1;
    }
    proof {
        assert(nodes.deep_view().take(n as int) =~= nodes.deep_view());
        assert(orig.take(n as int) =~= orig);
    }
}

/// The `count` peers of `nodes` closest to `target`, closest first.
pub fn closest_nodes(nodes: Vec<NodeData>, target: &Key, count: usize) -> (closest: Vec<NodeData>)
    ensures
        closest.deep_view() == closest_to(nodes.deep_view(), target@, count as nat),
{
    let mut closest = nodes;
    sort_nodes(&mut closest, target);
    let ghost sorted = closest.deep_view();
    closest.truncate(count);
    proof {
        if count < sorted.len() {
            assert(closest.deep_view() =~= sorted.take(count as int));
        } else {
            assert(closest.deep_view() =~= sorted);
        }
    }
    closest
}

} // verus!

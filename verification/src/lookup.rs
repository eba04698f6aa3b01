//! The iterative lookup, as a state machine.
//!
//! A lookup asks the peers closest to a target for peers that are closer
//! still, a few at a time, until a round of answers brings nothing closer;
//! then it goes on asking until enough peers have answered. The machine
//! decides what to do next; its driver sends the requests and hands the
//! answers back.
use vstd::prelude::*;
use crate::closest::closest_nodes;
use crate::closest::closest_to;
use crate::key::Key;
use crate::key::xor_bytes;
use crate::node::node_data::clone_nodes;
use crate::node::node_data::position;
use crate::node::node_data::NodeData;
use crate::node::node_data::NodeDataDistancePair;
use crate::node::node_data::NodeDataView;
use crate::protocol::RequestPayload;
use crate::protocol::RequestPayloadView;
use crate::protocol::Response;
use crate::protocol::ResponsePayload;
use crate::protocol::ResponsePayloadView;
use crate::protocol::ResponseView;
use crate::routing::lemma_push_absent;
use crate::routing::RoutingTable;
use crate::CONCURRENCY_PARAM;
use crate::REPLICATION_PARAM;

verus! {

/// How far a lookup has come.
#[derive(Clone, Copy, Debug, PartialEq, Eq, Structural)]
pub enum LookupPhase {
    /// The first requests are being sent.
    Seeding,
    /// Answers are awaited for as long as they bring closer peers.
    Converging,
    /// Answers are awaited until enough peers have answered.
    Filling,
    /// The result stands.
    Finished,
}

/// What the driver of a lookup has to do next.
#[derive(Debug)]
pub enum LookupAction {
    /// Send the request to the peer; its answer, or the news that none came,
    /// is handed to `deliver` later. Ask for the next action at once.
    Query(NodeData, RequestPayload),
    /// Wait for the outcome of one of the requests in flight, hand it to
    /// `deliver`, then ask for the next action.
    Wait,
    /// The lookup is over, with this result.
    Done(ResponsePayload),
}

/// The mathematical value of a `LookupAction`.
pub ghost enum LookupActionView {
    Query(NodeDataView, RequestPayloadView),
    Wait,
    Done(ResponsePayloadView),
}

impl View for LookupAction {
    type V = LookupActionView;

    open spec fn view(&self) -> LookupActionView {
        match self {
            LookupAction::Query(node, payload) => LookupActionView::Query(node@, payload@),
            LookupAction::Wait => LookupActionView::Wait,
            LookupAction::Done(payload) => LookupActionView::Done(payload@),
        }
    }
}

/// The peers of `nodes` that are neither in `known` nor earlier in `nodes`,
/// in the order of `nodes`.
pub open spec fn fresh_nodes(known: Seq<NodeDataView>, nodes: Seq<NodeDataView>) -> Seq<
    NodeDataView,
>
    decreases nodes.len(),
{
    if nodes.len() == 0 {
        Seq::empty()
    } else {
        let earlier = fresh_nodes(known, nodes.drop_last());
        if known.contains(nodes.last()) || earlier.contains(nodes.last()) {
            earlier
        } else {
            earlier.push(nodes.last())
        }
    }
}

/// The smallest of `bound` and the distances from the peers of `nodes` to
/// `target`.
pub open spec fn min_distance(bound: nat, nodes: Seq<NodeDataView>, target: Seq<u8>) -> nat
    decreases nodes.len(),
{
    if nodes.len() == 0 {
        bound
    } else {
        let rest = min_distance(bound, nodes.drop_last(), target);
        if nodes.last().distance_to(target) < rest {
            nodes.last().distance_to(target)
        } else {
            rest
        }
    }
}

/// The place in `queue` of the peer to ask next: the first of the peers
/// closest to `target`.
pub open spec fn first_closest(queue: Seq<NodeDataView>, target: Seq<u8>) -> int
    decreases queue.len(),
{
    if queue.len() <= 1 {
        0
    } else {
        let best = first_closest(queue.drop_last(), target);
        if queue.last().distance_to(target) < queue[best].distance_to(target) {
            queue.len() - 1
        } else {
            best
        }
    }
}

/// The greatest distance there is: that of the key of all one bits.
pub open spec fn max_distance() -> nat {
    crate::key::be_value(Seq::new(32, |i: int| 0xFFu8))
}

/// The mathematical value of a `Lookup`.
pub ghost struct LookupView {
    /// The key that is looked up.
    pub target: Seq<u8>,
    /// Whether peers are asked for nodes only, or for the value too.
    pub find_node: bool,
    /// The smallest distance to the target seen so far.
    pub closest: nat,
    /// The peers observed so far, in the order in which they were.
    pub found: Seq<NodeDataView>,
    /// The local node and the peers that have answered, in that order.
    pub queried: Seq<NodeDataView>,
    /// The peers that wait to be asked.
    pub queue: Seq<NodeDataView>,
    /// The number of requests whose outcome is still awaited.
    pub in_flight: nat,
    /// How far the lookup has come.
    pub phase: LookupPhase,
    /// The value, once a peer has sent it.
    pub value: Option<Seq<char>>,
}

impl LookupView {
    /// The state in which a lookup starts.
    pub open spec fn initial(
        local: NodeDataView,
        seeds: Seq<NodeDataView>,
        target: Seq<u8>,
        find_node: bool,
    ) -> LookupView {
        LookupView {
            target,
            find_node,
            closest: min_distance(max_distance(), seeds, target),
            found: fresh_nodes(Seq::empty(), seeds.push(local)),
            queried: seq![local],
            queue: seeds,
            in_flight: 0,
            phase: LookupPhase::Seeding,
            value: None,
        }
    }

    /// What holds of every state that a lookup reaches.
    pub open spec fn inv(self) -> bool {
        &&& self.in_flight <= CONCURRENCY_PARAM
        &&& self.found.no_duplicates()
        &&& self.queried.no_duplicates()
        &&& self.queried.len() > 0
        &&& forall|i: int| 0 <= i < self.queue.len() ==> self.found.contains(#[trigger] self.queue[i])
        &&& self.value is Some ==> self.phase is Finished
    }

    /// Whether another request can be sent now.
    pub open spec fn can_query(self) -> bool {
        self.in_flight < CONCURRENCY_PARAM && self.queue.len() > 0
    }

    /// Whether the outcome of a request is awaited.
    pub open spec fn awaiting(self) -> bool {
        (self.phase is Converging || self.phase is Filling) && self.in_flight > 0
    }

    /// The state with the phase that it is in by now: seeding ends when no
    /// request can be sent, converging ends when none is in flight, and
    /// filling ends when enough peers have answered or nothing is left to do.
    pub open spec fn settled(self) -> LookupView {
        let first = if self.phase is Seeding && !self.can_query() {
            LookupPhase::Converging
        } else {
            self.phase
        };
        let second = if first is Converging && self.in_flight == 0 {
            LookupPhase::Filling
        } else {
            first
        };
        let third = if second is Filling && (self.queried.len() >= REPLICATION_PARAM || (
        !self.can_query() && self.in_flight == 0)) {
            LookupPhase::Finished
        } else {
            second
        };
        LookupView { phase: third, ..self }
    }

    /// The result of the lookup: the value where one was sent, else the peers
    /// that have answered, up to `REPLICATION_PARAM` of them, closest first.
    pub open spec fn outcome(self) -> ResponsePayloadView {
        match self.value {
            Some(value) => ResponsePayloadView::Value(value),
            None => ResponsePayloadView::Nodes(
                closest_to(self.queried, self.target, REPLICATION_PARAM as nat),
            ),
        }
    }

    /// The request that this lookup sends to its peers.
    pub open spec fn question(self) -> RequestPayloadView {
        if self.find_node {
            RequestPayloadView::FindNode(self.target)
        } else {
            RequestPayloadView::FindValue(self.target)
        }
    }

    /// The state after the next peer has left the queue to be asked.
    pub open spec fn asked(self) -> LookupView {
        LookupView {
            queue: self.queue.remove(first_closest(self.queue, self.target)),
            in_flight: self.in_flight + 1,
            ..self
        }
    }

    /// The action that `poll` returns in this state.
    pub open spec fn next_action(self) -> LookupActionView {
        let now = self.settled();
        if now.phase is Finished {
            LookupActionView::Done(now.outcome())
        } else if now.can_query() {
            LookupActionView::Query(
                now.queue[first_closest(now.queue, now.target)],
                now.question(),
            )
        } else {
            LookupActionView::Wait
        }
    }

    /// The state that `poll` leaves behind.
    pub open spec fn polled(self) -> LookupView {
        let now = self.settled();
        if !(now.phase is Finished) && now.can_query() {
            now.asked()
        } else {
            now
        }
    }

    /// The state after the peer `receiver` has answered with `nodes`. The
    /// receiver counts as asked, and the peers that are new are queued.
    /// While converging, the lookup goes on converging only if one of the
    /// new peers is closer than every peer seen before.
    pub open spec fn learned(self, receiver: NodeDataView, nodes: Seq<NodeDataView>) -> LookupView {
        let fresh = fresh_nodes(self.found, nodes);
        let queried = if self.queried.contains(receiver) {
            self.queried
        } else {
            self.queried.push(receiver)
        };
        let nearest = min_distance(self.closest, fresh, self.target);
        if self.phase is Converging {
            LookupView {
                queried,
                found: self.found + fresh,
                queue: self.queue + fresh,
                closest: nearest,
                phase: if nearest < self.closest {
                    LookupPhase::Converging
                } else {
                    LookupPhase::Filling
                },
                ..self
            }
        } else {
            LookupView { queried, found: self.found + fresh, queue: self.queue + fresh, ..self }
        }
    }

    /// The state after the outcome of one request has come in: `None` where
    /// the request timed out. Where no outcome is awaited, nothing changes.
    pub open spec fn delivered(self, response: Option<ResponseView>) -> LookupView {
        if !self.awaiting() {
            self
        } else {
            let landed = LookupView { in_flight: (self.in_flight - 1) as nat, ..self };
            match response {
                Some(response) => match response.payload {
                    ResponsePayloadView::Nodes(nodes) => landed.learned(response.receiver, nodes),
                    ResponsePayloadView::Value(value) => LookupView {
                        value: Some(value),
                        phase: LookupPhase::Finished,
                        ..landed
                    },
                    ResponsePayloadView::Pong => landed,
                },
                None => landed,
            }
        }
    }
}

/// The peers of a queue of pairs.
pub open spec fn queue_nodes(queue: Seq<NodeDataDistancePair>) -> Seq<NodeDataView> {
    Seq::new(queue.len(), |i: int| queue[i].0@)
}

/// An iterative lookup in progress.
pub struct Lookup {
    target: Key,
    find_node: bool,
    closest_distance: Key,
    found_nodes: Vec<NodeData>,
    queried_nodes: Vec<NodeData>,
    queue: Vec<NodeDataDistancePair>,
    in_flight: usize,
    phase: LookupPhase,
    value: Option<String>,
}

impl View for Lookup {
    type V = LookupView;

    closed spec fn view(&self) -> LookupView {
        LookupView {
            target: self.target@,
            find_node: self.find_node,
            closest: self.closest_distance.value(),
            found: self.found_nodes.deep_view(),
            queried: self.queried_nodes.deep_view(),
            queue: queue_nodes(self.queue@),
            in_flight: self.in_flight as nat,
            phase: self.phase,
            value: self.value.deep_view(),
        }
    }
}

impl Lookup {
    /// Whether each queued pair holds the distance of its peer to the target.
    pub closed spec fn measured(&self) -> bool {
        forall|i: int|
            0 <= i < self.queue@.len() ==> (#[trigger] self.queue@[i]).1@ == xor_bytes(
                self.queue@[i].0.id@,
                self.target@,
            )
    }

    /// Whether this is a state that a lookup can be in.
    pub open spec fn wf(&self) -> bool {
        self.measured() && self@.inv()
    }

    /// Starts a lookup of `target` from the peers `seeds`, on behalf of the
    /// node `local`, which is never asked unless it is among the seeds.
    pub fn with_seeds(local: NodeData, seeds: Vec<NodeData>, target: Key, find_node: bool) -> (lookup:
        Lookup)
        ensures
            lookup.wf(),
            lookup@ == LookupView::initial(local@, seeds.deep_view(), target@, find_node),
    {
        let mut closest_distance = Key([0xFFu8; crate::KEY_LENGTH]);
        let mut found_nodes: Vec<NodeData> = Vec::new();
        let mut queue: Vec<NodeDataDistancePair> = Vec::new();
        let ghost all = seeds.deep_view();
        let mut i: usize = 0;
        proof {
            assert(closest_distance@ =~= Seq::new(32, |i: int| 0xFFu8));
            assert(all.take(0) =~= Seq::empty());
            assert(queue_nodes(queue@) =~= all.take(0));
            assert(found_nodes.deep_view() =~= Seq::empty());
        }
        while i < seeds.len()
            invariant
                i <= seeds.len(),
                all == seeds.deep_view(),
                closest_distance.value() == min_distance(max_distance(), all.take(i as int), target@),
                found_nodes.deep_view() == fresh_nodes(Seq::empty(), all.take(i as int)),
                found_nodes.deep_view().no_duplicates(),
                queue_nodes(queue@) == all.take(i as int),
                forall|k: int|
                    0 <= k < queue@.len() ==> (#[trigger] queue@[k]).1@ == xor_bytes(
                        queue@[k].0.id@,
                        target@,
                    ),
                forall|k: int| 0 <= k < i ==> found_nodes.deep_view().contains(#[trigger] all[k]),
            decreases seeds.len() - i,
        {
            let node = &seeds[i];
            let reach = node.id.xor(&target);
            let ghost found_before = found_nodes.deep_view();
            let ghost queue_before = queue@;
            proof {
                assert(all.take(i + 1).drop_last() =~= all.take(i as int));
                assert(all.take(i + 1).last() == node@);
                assert(!Seq::<NodeDataView>::empty().contains(node@));
            }
            if reach.precedes(&closest_distance) {
                closest_distance = reach;
            }
            let place = position(&found_nodes, node);
            if place.is_none() {
                found_nodes.push(node.clone());
                proof {
                    assert(found_nodes.deep_view() =~= found_before.push(node@));
                    lemma_push_absent(found_before, node@);
                }
            }
            queue.push(NodeDataDistancePair(node.clone(), reach));
            proof {
                assert(queue@ =~= queue_before.push(queue@.last()));
                assert(queue_nodes(queue@) =~= all.take(i + 1));
                assert forall|k: int| 0 <= k < i + 1 implies found_nodes.deep_view().contains(
                    #[trigger] all[k],
                ) by {
                    if k < i {
                        assert(found_before.contains(all[k]));
                        if place.is_none() {
                            lemma_push_keeps(found_before, node@, all[k]);
                        }
                    } else if place.is_none() {
                        assert(found_nodes.deep_view()[found_before.len() as int] == node@);
                    } else {
                        assert(found_before[place.unwrap() as int] == node@);
                    }
                }
            }
            i += 1;
        }
        let ghost found_seeds = found_nodes.deep_view();
        proof {
            assert(all.take(seeds.len() as int) =~= all);
            assert(all.push(local@).drop_last() =~= all);
            assert(!Seq::<NodeDataView>::empty().contains(local@));
        }
        if position(&found_nodes, &local).is_none() {
            found_nodes.push(local.clone());
            proof {
                assert(found_nodes.deep_view() =~= found_seeds.push(local@));
                lemma_push_absent(found_seeds, local@);
            }
        }
        let mut queried_nodes: Vec<NodeData> = Vec::new();
        queried_nodes.push(local);
        let lookup = Lookup {
            target,
            find_node,
            closest_distance,
            found_nodes,
            queried_nodes,
            queue,
            in_flight: 0,
            phase: LookupPhase::Seeding,
            value: None,
        };
        proof {
            assert(lookup@.queried =~= seq![local@]);
            assert forall|k: int| 0 <= k < lookup@.queue.len() implies lookup@.found.contains(
                #[trigger] lookup@.queue[k],
            ) by {
                assert(found_seeds.contains(all[k]));
                lemma_push_keeps(found_seeds, local@, all[k]);
            }
        }
        lookup
    }

    /// Starts a lookup of `target` on behalf of the node that `table` belongs
    /// to, from the `CONCURRENCY_PARAM` peers of the table that are closest
    /// to `target`.
    pub fn new(table: &RoutingTable, target: Key, find_node: bool) -> (lookup: Lookup)
        requires
            table@.wf(),
        ensures
            lookup.wf(),
            lookup@ == LookupView::initial(
                table@.local,
                table@.closest_nodes(target@, CONCURRENCY_PARAM as nat),
                target@,
                find_node,
            ),
    {
        let seeds = table.get_closest_nodes(&target, CONCURRENCY_PARAM);
        Lookup::with_seeds(table.node_data(), seeds, target, find_node)
    }

    /// The key that is looked up.
    pub fn target(&self) -> (target: Key)
        ensures
            target@ == self@.target,
    {
        self.target
    }

    /// How far the lookup has come.
    pub fn phase(&self) -> (phase: LookupPhase)
        ensures
            phase == self@.phase,
    {
        self.phase
    }

    /// The number of requests whose outcome is still awaited.
    pub fn in_flight(&self) -> (count: usize)
        ensures
            count == self@.in_flight,
    {
        self.in_flight
    }

    /// Takes the peer to ask next out of the queue.
    fn pop_closest(&mut self) -> (pair: NodeDataDistancePair)
        requires
            old(self).wf(),
            old(self)@.queue.len() > 0,
        ensures
            final(self).measured(),
            pair.0@ == old(self)@.queue[first_closest(old(self)@.queue, old(self)@.target)],
            final(self)@ == (LookupView {
                queue: old(self)@.queue.remove(
                    first_closest(old(self)@.queue, old(self)@.target),
                ),
                ..old(self)@
            }),
    {
        let ghost nodes = self@.queue;
        let ghost target = self.target@;
        let mut best: usize = 0;
        let mut i: usize = 1;
        proof {
            assert(nodes.take(1).len() == 1);
        }
        while i < self.queue.len()
            invariant
                1 <= i <= self.queue.len(),
                best < i,
                *self == *old(self),
                self.measured(),
                nodes == queue_nodes(self.queue@),
                target == self.target@,
                best == first_closest(nodes.take(i as int), target),
            decreases self.queue.len() - i,
        {
            proof {
                assert(nodes.take(i + 1).drop_last() =~= nodes.take(i as int));
                assert(nodes.take(i + 1).last() == nodes[i as int]);
                assert(nodes.take(i + 1)[best as int] == nodes[best as int]);
                assert(self.queue@[i as int].1@ == xor_bytes(self.queue@[i as int].0.id@, target));
                assert(self.queue@[best as int].1@ == xor_bytes(
                    self.queue@[best as int].0.id@,
                    target,
                ));
            }
            if self.queue[i].1.precedes(&self.queue[best].1) {
                best = i;
            }
            i += 1;
        }
        proof {
            assert(nodes.take(i as int) =~= nodes);
        }
        let ghost before = self.queue@;
        let pair = self.queue.remove(best);
        proof {
            assert(queue_nodes(self.queue@) =~= nodes.remove(best as int));
            assert forall|k: int| 0 <= k < self.queue@.len() implies (#[trigger] self.queue@[k]).1@
                == xor_bytes(self.queue@[k].0.id@, self.target@) by {
                if k < best {
                    assert(self.queue@[k] == before[k]);
                } else {
                    assert(self.queue@[k] == before[k + 1]);
                }
            }
        }
        pair
    }

    /// The result as it stands: the value where one was sent, else the peers
    /// that have answered, up to `REPLICATION_PARAM` of them, closest first.
    pub fn outcome(&self) -> (payload: ResponsePayload)
        ensures
            payload@ == self@.outcome(),
    {
        match &self.value {
            Some(value) => ResponsePayload::Value(value.clone()),
            None => ResponsePayload::Nodes(
                closest_nodes(clone_nodes(&self.queried_nodes), &self.target, REPLICATION_PARAM),
            ),
        }
    }

    /// Takes in the answer of the peer `receiver`, which knows of `nodes`.
    fn learn(&mut self, receiver: NodeData, nodes: Vec<NodeData>)
        requires
            old(self).wf(),
            old(self)@.phase is Converging || old(self)@.phase is Filling,
        ensures
            final(self).wf(),
            final(self)@ == old(self)@.learned(receiver@, nodes.deep_view()),
    {
        let ghost start = self@;
        let ghost all = nodes.deep_view();
        if position(&self.queried_nodes, &receiver).is_none() {
            let ghost before = self.queried_nodes.deep_view();
            self.queried_nodes.push(receiver);
            proof {
                assert(self.queried_nodes.deep_view() =~= before.push(receiver@));
                lemma_push_absent(before, receiver@);
            }
        }
        let ghost queried = self@.queried;
        let converging = self.phase == LookupPhase::Converging;
        let mut improved = false;
        let mut i: usize = 0;
        proof {
            assert(all.take(0) =~= Seq::empty());
            assert(self@.found =~= start.found + fresh_nodes(start.found, all.take(0)));
            assert(self@.queue =~= start.queue + fresh_nodes(start.found, all.take(0)));
        }
        while i < nodes.len()
            invariant
                i <= nodes.len(),
                all == nodes.deep_view(),
                self.measured(),
                start.inv(),
                start.phase is Converging || start.phase is Filling,
                queried.no_duplicates(),
                queried.len() > 0,
                converging == (start.phase is Converging),
                self@ == (LookupView {
                    found: start.found + fresh_nodes(start.found, all.take(i as int)),
                    queue: start.queue + fresh_nodes(start.found, all.take(i as int)),
                    closest: if converging {
                        min_distance(
                            start.closest,
                            fresh_nodes(start.found, all.take(i as int)),
                            start.target,
                        )
                    } else {
                        start.closest
                    },
                    queried,
                    ..start
                }),
                self@.closest <= start.closest,
                improved == (self@.closest < start.closest),
                self@.found.no_duplicates(),
                forall|k: int|
                    0 <= k < self@.queue.len() ==> self@.found.contains(#[trigger] self@.queue[k]),
            decreases nodes.len() - i,
        {
            let node = &nodes[i];
            let ghost now = self@;
            let ghost fresh = fresh_nodes(start.found, all.take(i as int));
            let ghost queue_before = self.queue@;
            proof {
                assert(all.take(i + 1).drop_last() =~= all.take(i as int));
                assert(all.take(i + 1).last() == node@);
                lemma_contains_concat(start.found, fresh, node@);
            }
            if position(&self.found_nodes, node).is_none() {
                let reach = node.id.xor(&self.target);
                if converging && reach.precedes(&self.closest_distance) {
                    self.closest_distance = reach;
                    improved = true;
                }
                self.found_nodes.push(node.clone());
                self.queue.push(NodeDataDistancePair(node.clone(), reach));
                proof {
                    let grown = fresh.push(node@);
                    assert(grown.drop_last() =~= fresh);
                    assert(self@.found =~= now.found.push(node@));
                    assert(self@.found =~= start.found + grown);
                    assert(self.queue@ =~= queue_before.push(self.queue@.last()));
                    assert(self@.queue =~= now.queue.push(node@));
                    assert(self@.queue =~= start.queue + grown);
                    lemma_push_absent(now.found, node@);
                    assert forall|k: int| 0 <= k < self@.queue.len() implies self@.found.contains(
                        #[trigger] self@.queue[k],
                    ) by {
                        if k < now.queue.len() {
                            assert(now.found.contains(now.queue[k]));
                            lemma_push_keeps(now.found, node@, now.queue[k]);
                        } else {
                            assert(self@.found[now.found.len() as int] == node@);
                        }
                    }
                }
            }
            i += 1;
        }
        proof {
            assert(all.take(nodes.len() as int) =~= all);
        }
        let ghost learnt = self@;
        if converging && !improved {
            self.phase = LookupPhase::Filling;
        }
        proof {
            assert(self@.queue == learnt.queue && self@.found == learnt.found);
            assert forall|k: int| 0 <= k < self@.queue.len() implies self@.found.contains(
                #[trigger] self@.queue[k],
            ) by {
                assert(learnt.found.contains(learnt.queue[k]));
            }
        }
    }

    /// Takes in the outcome of one request: the response, or `None` where
    /// the request timed out. An answer with nodes makes its sender count as
    /// asked and queues the peers that are new; a value ends the lookup;
    /// anything else only makes room for the next request. Where no outcome
    /// is awaited, nothing changes.
    pub fn deliver(&mut self, response: Option<Response>)
        requires
            old(self).wf(),
        ensures
            final(self).wf(),
            final(self)@ == old(self)@.delivered(response.deep_view()),
    {
        let awaited = (self.phase == LookupPhase::Converging || self.phase == LookupPhase::Filling)
            && self.in_flight > 0;
        if !awaited {
            return ;
        }
        self.in_flight -= 1;
        match response {
            Some(response) => match response.payload {
                ResponsePayload::Nodes(nodes) => {
                    self.learn(response.receiver, nodes);
                },
                ResponsePayload::Value(value) => {
                    self.value = Some(value);
                    self.phase = LookupPhase::Finished;
                },
                ResponsePayload::Pong => {},
            },
            None => {},
        }
    }

    /// Decides what the driver does next, and moves the lookup on: to the
    /// next phase where the present one is over, and by one request where
    /// one can be sent.
    pub fn poll(&mut self) -> (action: LookupAction)
        requires
            old(self).wf(),
        ensures
            final(self).wf(),
            final(self)@ == old(self)@.polled(),
            action@ == old(self)@.next_action(),
    {
        let ready = self.in_flight < CONCURRENCY_PARAM && self.queue.len() > 0;
        if self.phase == LookupPhase::Seeding && !ready {
            self.phase = LookupPhase::Converging;
        }
        if self.phase == LookupPhase::Converging && self.in_flight == 0 {
            self.phase = LookupPhase::Filling;
        }
        if self.phase == LookupPhase::Filling && (self.queried_nodes.len() >= REPLICATION_PARAM || (
        !ready && self.in_flight == 0)) {
            self.phase = LookupPhase::Finished;
        }
        assert(self@ == old(self)@.settled());
        if self.phase == LookupPhase::Finished {
            return LookupAction::Done(self.outcome());
        }
        if ready {
            let ghost now = self@;
            let pair = self.pop_closest();
            self.in_flight += 1;
            let payload = if self.find_node {
                RequestPayload::FindNode(self.target)
            } else {
                RequestPayload::FindValue(self.target)
            };
            proof {
                let index = first_closest(now.queue, now.target);
                lemma_first_closest(now.queue, now.target);
                assert forall|i: int| 0 <= i < self@.queue.len() implies self@.found.contains(
                    #[trigger] self@.queue[i],
                ) by {
                    if i < index {
                        assert(self@.queue[i] == now.queue[i]);
                    } else {
                        assert(self@.queue[i] == now.queue[i + 1]);
                    }
                }
            }
            return LookupAction::Query(pair.0, payload);
        }
        LookupAction::Wait
    }
}

/// Two sequences joined hold what one of them holds.
proof fn lemma_contains_concat(a: Seq<NodeDataView>, b: Seq<NodeDataView>, node: NodeDataView)
    ensures
        (a + b).contains(node) <==> a.contains(node) || b.contains(node),
{
    if a.contains(node) {
        let k = choose|k: int| 0 <= k < a.len() && a[k] == node;
        assert((a + b)[k] == node);
    }
    if b.contains(node) {
        let k = choose|k: int| 0 <= k < b.len() && b[k] == node;
        assert((a + b)[a.len() + k] == node);
    }
    if (a + b).contains(node) {
        let k = choose|k: int| 0 <= k < (a + b).len() && (a + b)[k] == node;
        if k < a.len() {
            assert(a[k] == node);
        } else {
            assert(b[k - a.len()] == node);
        }
    }
}

/// What a sequence holds it still holds after a push.
proof fn lemma_push_keeps(known: Seq<NodeDataView>, node: NodeDataView, other: NodeDataView)
    requires
        known.contains(other),
    ensures
        known.push(node).contains(other),
{
    let k = choose|k: int| 0 <= k < known.len() && known[k] == other;
    assert(known.push(node)[k] == other);
}

/// The peer to ask next is one of the closest in the queue, and the first of
/// them.
pub proof fn lemma_first_closest(queue: Seq<NodeDataView>, target: Seq<u8>)
    requires
        queue.len() > 0,
    ensures
        0 <= first_closest(queue, target) < queue.len(),
        forall|j: int|
            0 <= j < queue.len() ==> queue[first_closest(queue, target)].distance_to(target)
                <= (#[trigger] queue[j]).distance_to(target),
        forall|j: int|
            0 <= j < first_closest(queue, target) ==> queue[first_closest(
                queue,
                target,
            )].distance_to(target) < (#[trigger] queue[j]).distance_to(target),
    decreases queue.len(),
{
    if queue.len() > 1 {
        let init = queue.drop_last();
        lemma_first_closest(init, target);
        let best = first_closest(init, target);
        assert(init[best] == queue[best]);
        assert forall|j: int| 0 <= j < queue.len() implies queue[first_closest(
            queue,
            target,
        )].distance_to(target) <= (#[trigger] queue[j]).distance_to(target) by {
            if j < init.len() {
                assert(init[j] == queue[j]);
            }
        }
        assert forall|j: int| 0 <= j < first_closest(queue, target) implies queue[first_closest(
            queue,
            target,
        )].distance_to(target) < (#[trigger] queue[j]).distance_to(target) by {
            assert(init[j] == queue[j]);
        }
    }
}

} // verus!

//! The decisions of a node: what it answers, whom it keeps in its routing
//! table, and how it pairs requests with responses.
//!
//! The functions here take the parts of a node's state that they read or
//! change. The program that runs a node holds these parts behind its locks,
//! sends what the functions hand out and hands in what arrives.
use vstd::prelude::*;
use std::sync::Arc;
use crate::clock::steady_now;
use crate::key::Key;
use crate::pending::PendingRequests;
use crate::protocol::Request;
use crate::protocol::RequestPayload;
use crate::protocol::RequestPayloadView;
use crate::protocol::Response;
use crate::protocol::ResponsePayload;
use crate::protocol::ResponsePayloadView;
use crate::protocol::ResponseView;
use crate::routing::RoutingTable;
use crate::routing::RoutingTableView;
use crate::storage::unexpired;
use crate::storage::Storage;
use crate::storage::StoredItem;
use crate::REPLICATION_PARAM;

pub mod node_data;

use self::node_data::NodeData;
use self::node_data::NodeDataView;

verus! {

/// The routing table of a node that starts out: that of a node that knows no
/// peer, then updated with the bootstrap peer where there is one.
pub open spec fn seeded(local: NodeDataView, bootstrap: Option<NodeDataView>, now: nat) -> RoutingTableView {
    match bootstrap {
        Some(peer) => RoutingTableView::initial(local, now).updated(peer, now).0,
        None => RoutingTableView::initial(local, now),
    }
}

/// The store of a node after it has answered a request at the time `now`:
/// `STORE` inserts, `FIND_VALUE` drops what is expired, the others leave the
/// store alone.
pub open spec fn stored_after(
    payload: RequestPayloadView,
    storage: Map<Seq<u8>, StoredItem>,
    now: nat,
) -> Map<Seq<u8>, StoredItem> {
    match payload {
        RequestPayloadView::Ping => storage,
        RequestPayloadView::Store(key, value) => unexpired(storage, now).insert(
            key,
            StoredItem { value, publish_time: now },
        ),
        RequestPayloadView::FindNode(_) => storage,
        RequestPayloadView::FindValue(_) => unexpired(storage, now),
    }
}

/// What a node answers to a request at the time `now`: a pong to `PING` and
/// to `STORE`; to `FIND_NODE` the `REPLICATION_PARAM` peers of its routing
/// table that are closest to the key; to `FIND_VALUE` the value where its
/// store holds one that is not expired, and the closest peers where not.
pub open spec fn answer(
    payload: RequestPayloadView,
    storage: Map<Seq<u8>, StoredItem>,
    table: RoutingTableView,
    now: nat,
) -> ResponsePayloadView {
    match payload {
        RequestPayloadView::Ping => ResponsePayloadView::Pong,
        RequestPayloadView::Store(_, _) => ResponsePayloadView::Pong,
        RequestPayloadView::FindNode(key) => ResponsePayloadView::Nodes(
            table.closest_nodes(key, REPLICATION_PARAM as nat),
        ),
        RequestPayloadView::FindValue(key) => if unexpired(storage, now).contains_key(key) {
            ResponsePayloadView::Value(unexpired(storage, now)[key].value)
        } else {
            ResponsePayloadView::Nodes(table.closest_nodes(key, REPLICATION_PARAM as nat))
        },
    }
}

/// Builds the routing table of a node that starts out at the time `now`: an
/// empty table, into which the bootstrap peer is put where there is one.
pub fn seed_table(node_data: Arc<NodeData>, bootstrap: Option<NodeData>, now: u64) -> (table:
    RoutingTable)
    ensures
        table@.wf(),
        table@ == seeded((*node_data)@, bootstrap.deep_view(), now as nat),
{
    let mut table = RoutingTable::new_at(node_data, now);
    if let Some(bootstrap_data) = bootstrap {
        table.update_node_at(bootstrap_data, now);
    }
    table
}

/// Answers `request` at the time `now`, on behalf of the node `local`: does
/// to the store what the request asks for, and builds the response, with
/// `local` as its receiver. The response goes to the sender of the request;
/// the sender is also a peer to update the routing table with.
pub fn handle_request_at(
    request: &Request,
    local: &NodeData,
    storage: &mut Storage,
    routing_table: &RoutingTable,
    now: u64,
) -> (response: Response)
    requires
        old(storage).wf(),
        routing_table@.wf(),
    ensures
        final(storage).wf(),
        final(storage)@ == stored_after(request@.payload, old(storage)@, now as nat),
        response@ == (ResponseView {
            request: request@,
            receiver: local@,
            payload: answer(request@.payload, old(storage)@, routing_table@, now as nat),
        }),
{
    let payload = match &request.payload {
        RequestPayload::Ping => ResponsePayload::Pong,
        RequestPayload::Store(key, value) => {
            storage.insert_at(*key, value.clone(), now);
            ResponsePayload::Pong
        },
        RequestPayload::FindNode(key) => ResponsePayload::Nodes(
            routing_table.get_closest_nodes(key, REPLICATION_PARAM),
        ),
        RequestPayload::FindValue(key) => {
            if let Some(value) = storage.get_at(key, now) {
                ResponsePayload::Value(value.clone())
            } else {
                ResponsePayload::Nodes(routing_table.get_closest_nodes(key, REPLICATION_PARAM))
            }
        },
    };
    Response { request: request.clone(), receiver: local.clone(), payload }
}

/// Answers `request` at the time that the steady clock shows; see
/// `handle_request_at`.
pub fn handle_request(
    request: &Request,
    local: &NodeData,
    storage: &mut Storage,
    routing_table: &RoutingTable,
) -> (response: Response)
    requires
        old(storage).wf(),
        routing_table@.wf(),
    ensures
        final(storage).wf(),
        response@.request == request@,
        response@.receiver == local@,
        exists|now: nat|
            final(storage)@ == #[trigger] stored_after(request@.payload, old(storage)@, now)
                && response@.payload == answer(
                request@.payload,
                old(storage)@,
                routing_table@,
                now,
            ),
{
    let now = steady_now();
    let response = handle_request_at(request, local, storage, routing_table, now);
    assert(storage@ == stored_after(request@.payload, old(storage)@, now as nat));
    response
}

/// Finds the request that `response` answers: the handle of the channel on
/// which its sender waits, or `None` where no request with the token of the
/// response waits any more, in which case the response is dropped. The
/// receiver of the response is a peer to update the routing table with in
/// either case.
pub fn handle_response<'a, T>(response: &Response, pending_requests: &'a PendingRequests<T>) -> (sender:
    Option<&'a T>)
    requires
        pending_requests.wf(),
    ensures
        match sender {
            Some(sender) => pending_requests@.contains_key(response@.request.id) && *sender
                == pending_requests@[response@.request.id],
            None => !pending_requests@.contains_key(response@.request.id),
        },
{
    pending_requests.get(&response.request.id)
}

/// The first step of updating the routing table with a peer that was heard
/// of at the time `now`. Where the table takes the peer, nothing is left to
/// do and `None` is returned. Where it does not, the least recently seen
/// peer of the bucket of `peer` is taken out and returned: it is to be
/// pinged, and `complete_update` called after that.
pub fn update_routing_table(routing_table: &mut RoutingTable, peer: &NodeData, now: u64) -> (lrs:
    Option<NodeData>)
    requires
        old(routing_table)@.wf(),
    ensures
        final(routing_table)@.wf(),
        old(routing_table)@.updated(peer@, now as nat).1 ==> lrs is None && final(routing_table)@
            == old(routing_table)@.updated(peer@, now as nat).0,
        !old(routing_table)@.updated(peer@, now as nat).1 ==> (final(routing_table)@, lrs.deep_view())
            == old(routing_table)@.updated(peer@, now as nat).0.without_lrs(peer@.id),
{
    if !routing_table.update_node_at(peer.clone(), now) {
        routing_table.remove_lrs(&peer.id)
    } else {
        None
    }
}

/// The last step of updating the routing table with a peer, after the least
/// recently seen peer that made way for it was pinged: the table is updated
/// with `peer` whether the ping was answered or not. Returns whether `peer`
/// is in the table now.
pub fn complete_update(
    routing_table: &mut RoutingTable,
    peer: NodeData,
    ping: Option<Response>,
    now: u64,
) -> (updated: bool)
    requires
        old(routing_table)@.wf(),
    ensures
        final(routing_table)@.wf(),
        (final(routing_table)@, updated) == old(routing_table)@.updated(peer@, now as nat),
{
    routing_table.update_node_at(peer, now)
}

/// Opens a request of the node `local`: draws a token under which no request
/// waits, registers `sender` under it, and builds the request to send.
/// Where no free token was drawn, nothing is registered and `sender` comes
/// back; that does not happen where no request waits.
pub fn open_request<T>(
    pending_requests: &mut PendingRequests<T>,
    local: &NodeData,
    payload: RequestPayload,
    sender: T,
) -> (opened: Result<Request, T>)
    requires
        old(pending_requests).wf(),
    ensures
        final(pending_requests).wf(),
        match opened {
            Ok(request) => !old(pending_requests)@.contains_key(request@.id)
                && final(pending_requests)@ == old(pending_requests)@.insert(request@.id, sender)
                && request@.sender == local@ && request@.payload == payload@,
            Err(unused) => unused == sender && final(pending_requests)@ == old(pending_requests)@,
        },
        old(pending_requests)@ == Map::<Seq<u8>, T>::empty() ==> opened is Ok,
{
    match pending_requests.fresh_token() {
        Some(token) => {
            pending_requests.insert(token, sender);
            Ok(Request { id: token, sender: local.clone(), payload })
        },
        None => Err(sender),
    }
}

/// Closes the request with the token `token` that was sent to `dest`, with
/// its outcome: the response, or `None` where none came in time. The token
/// leaves the table of pending requests in either case; a peer that did not
/// answer leaves the routing table. The outcome is handed on.
pub fn close_request<T>(
    pending_requests: &mut PendingRequests<T>,
    routing_table: &mut RoutingTable,
    token: &Key,
    dest: &NodeData,
    response: Option<Response>,
) -> (outcome: Option<Response>)
    requires
        old(pending_requests).wf(),
        old(routing_table)@.wf(),
    ensures
        final(pending_requests).wf(),
        final(routing_table)@.wf(),
        final(pending_requests)@ == old(pending_requests)@.remove(token@),
        !final(pending_requests)@.contains_key(token@),
        outcome == response,
        response is Some ==> final(routing_table)@ == old(routing_table)@,
        response is None ==> final(routing_table)@ == old(routing_table)@.without_node(dest@),
{
    pending_requests.remove(token);
    if response.is_none() {
        routing_table.remove_node(dest);
    }
    response
}

/// The peers to send a `STORE` request to after the lookup for an insert
/// has ended with `outcome`: the nodes that it found, none where it ended
/// with a value.
pub fn store_targets(outcome: ResponsePayload) -> (targets: Vec<NodeData>)
    ensures
        targets.deep_view() == match outcome@ {
            ResponsePayloadView::Nodes(nodes) => nodes,
            _ => Seq::empty(),
        },
{
    match outcome {
        ResponsePayload::Nodes(nodes) => nodes,
        _ => {
            let targets: Vec<NodeData> = Vec::new();
            assert(targets.deep_view() =~= Seq::<NodeDataView>::empty());
            targets
        },
    }
}

/// The value that a lookup for a get has ended with, `None` where it ended
/// with nodes.
pub fn found_value(outcome: ResponsePayload) -> (value: Option<String>)
    ensures
        value.deep_view() == match outcome@ {
            ResponsePayloadView::Value(value) => Some(value),
            _ => None,
        },
{
    match outcome {
        ResponsePayload::Value(value) => Some(value),
        _ => None,
    }
}

} // verus!

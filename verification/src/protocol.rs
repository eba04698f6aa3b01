//! The messages that nodes exchange.
use vstd::prelude::*;
use crate::key::Key;
use crate::node::node_data::NodeData;
use crate::node::node_data::NodeDataView;
use crate::node::node_data::clone_nodes;

verus! {

/// A request RPC.
///
/// Each request carries a randomly generated key. The response to it must
/// carry the same key, or it is ignored.
#[derive(Debug)]
pub struct Request {
    pub id: Key,
    pub sender: NodeData,
    pub payload: RequestPayload,
}

/// The payload of a request RPC: `PING`, `STORE`, `FIND_NODE` or `FIND_VALUE`.
#[derive(Debug)]
pub enum RequestPayload {
    Ping,
    Store(Key, String),
    FindNode(Key),
    FindValue(Key),
}

/// The response to a request RPC.
#[derive(Debug)]
pub struct Response {
    pub request: Request,
    pub receiver: NodeData,
    pub payload: ResponsePayload,
}

/// The payload of a response RPC: a list of nodes, a value, or a pong.
#[derive(Debug)]
pub enum ResponsePayload {
    Nodes(Vec<NodeData>),
    Value(String),
    Pong,
}

/// A message that is sent between nodes.
#[derive(Debug)]
pub enum Message {
    Request(Request),
    Response(Response),
    Kill,
}

/// The mathematical value of a `RequestPayload`.
pub ghost enum RequestPayloadView {
    Ping,
    Store(Seq<u8>, Seq<char>),
    FindNode(Seq<u8>),
    FindValue(Seq<u8>),
}

/// The mathematical value of a `Request`.
pub ghost struct RequestView {
    pub id: Seq<u8>,
    pub sender: NodeDataView,
    pub payload: RequestPayloadView,
}

/// The mathematical value of a `ResponsePayload`.
pub ghost enum ResponsePayloadView {
    Nodes(Seq<NodeDataView>),
    Value(Seq<char>),
    Pong,
}

/// The mathematical value of a `Response`.
pub ghost struct ResponseView {
    pub request: RequestView,
    pub receiver: NodeDataView,
    pub payload: ResponsePayloadView,
}

/// The mathematical value of a `Message`.
pub ghost enum MessageView {
    Request(RequestView),
    Response(ResponseView),
    Kill,
}

impl View for RequestPayload {
    type V = RequestPayloadView;

    open spec fn view(&self) -> RequestPayloadView {
        match self {
            RequestPayload::Ping => RequestPayloadView::Ping,
            RequestPayload::Store(key, value) => RequestPayloadView::Store(key@, value@),
            RequestPayload::FindNode(key) => RequestPayloadView::FindNode(key@),
            RequestPayload::FindValue(key) => RequestPayloadView::FindValue(key@),
        }
    }
}

impl View for Request {
    type V = RequestView;

    open spec fn view(&self) -> RequestView {
        RequestView { id: self.id@, sender: self.sender@, payload: self.payload@ }
    }
}

impl View for ResponsePayload {
    type V = ResponsePayloadView;

    open spec fn view(&self) -> ResponsePayloadView {
        match self {
            ResponsePayload::Nodes(nodes) => ResponsePayloadView::Nodes(nodes.deep_view()),
            ResponsePayload::Value(value) => ResponsePayloadView::Value(value@),
            ResponsePayload::Pong => ResponsePayloadView::Pong,
        }
    }
}

impl View for Response {
    type V = ResponseView;

    open spec fn view(&self) -> ResponseView {
        ResponseView { request: self.request@, receiver: self.receiver@, payload: self.payload@ }
    }
}

impl View for Message {
    type V = MessageView;

    open spec fn view(&self) -> MessageView {
        match self {
            Message::Request(request) => MessageView::Request(request@),
            Message::Response(response) => MessageView::Response(response@),
            Message::Kill => MessageView::Kill,
        }
    }
}

impl DeepView for RequestPayload {
    type V = RequestPayloadView;

    open spec fn deep_view(&self) -> RequestPayloadView {
        self@
    }
}

impl DeepView for Request {
    type V = RequestView;

    open spec fn deep_view(&self) -> RequestView {
        self@
    }
}

impl DeepView for ResponsePayload {
    type V = ResponsePayloadView;

    open spec fn deep_view(&self) -> ResponsePayloadView {
        self@
    }
}

impl DeepView for Response {
    type V = ResponseView;

    open spec fn deep_view(&self) -> ResponseView {
        self@
    }
}

impl DeepView for Message {
    type V = MessageView;

    open spec fn deep_view(&self) -> MessageView {
        self@
    }
}

impl Clone for RequestPayload {
    fn clone(&self) -> (copy: RequestPayload)
        ensures
            copy@ == self@,
    {
        match self {
            RequestPayload::Ping => RequestPayload::Ping,
            RequestPayload::Store(key, value) => RequestPayload::Store(*key, value.clone()),
            RequestPayload::FindNode(key) => RequestPayload::FindNode(*key),
            RequestPayload::FindValue(key) => RequestPayload::FindValue(*key),
        }
    }
}

impl Clone for Request {
    fn clone(&self) -> (copy: Request)
        ensures
            copy@ == self@,
    {
        Request { id: self.id, sender: self.sender.clone(), payload: self.payload.clone() }
    }
}

impl Clone for ResponsePayload {
    fn clone(&self) -> (copy: ResponsePayload)
        ensures
            copy@ == self@,
    {
        match self {
            ResponsePayload::Nodes(nodes) => ResponsePayload::Nodes(clone_nodes(nodes)),
            ResponsePayload::Value(value) => ResponsePayload::Value(value.clone()),
            ResponsePayload::Pong => ResponsePayload::Pong,
        }
    }
}

impl Clone for Response {
    fn clone(&self) -> (copy: Response)
        ensures
            copy@ == self@,
    {
        Response {
            request: self.request.clone(),
            receiver: self.receiver.clone(),
            payload: self.payload.clone(),
        }
    }
}

} // verus!

//! The shapes of the messages a node exchanges, and of the events it consumes.

use crate::topology::Topology;
use vstd::prelude::*;

verus! {

/// The handshake request: the id this node is to adopt and the ids of all
/// members of the cluster, this node included.
#[derive(Debug, Clone)]
pub struct Init {
    pub node_id: String,
    pub node_ids: Vec<String>,
}

/// The text carried by an echo request and by its reply.
#[derive(Debug, Clone)]
pub struct Echo {
    pub echo: String,
}

/// What a message between nodes, or between a client and a node, carries.
#[derive(Debug, Clone)]
pub enum ExternalPayload {
    Init(Init),
    InitOk,
    Echo(Echo),
    EchoOk(Echo),
    Generate,
    GenerateOk { id: String },
    Broadcast { value: i32 },
    BroadcastOk,
    Read,
    ReadOk { messages: Vec<i32> },
    Topology { topology: Topology },
    TopologyOk,
    Gossip { messages: Vec<i32> },
}

/// What an event raised inside the process carries.
#[derive(Debug, Clone, Copy, PartialEq, Eq)]
pub enum InternalPayload {
    /// The periodic timer fired.
    Timer,
    /// The input stream is exhausted.
    Eof,
}

/// The part of a message below the envelope.
#[derive(Debug, Clone)]
pub struct Body<Payload> {
    pub msg_id: Option<usize>,
    pub in_reply_to: Option<usize>,
    pub payload: Payload,
}

/// The envelope of a message: who sent it, to whom, and its body.
#[derive(Debug, Clone)]
pub struct Message<Payload> {
    pub src: String,
    pub dst: String,
    pub body: Body<Payload>,
}

/// One item of the stream a node consumes.
#[derive(Debug, Clone)]
pub enum Event {
    Internal { payload: InternalPayload },
    External { message: Message<ExternalPayload> },
}

/// The mathematical content of an [`ExternalPayload`].
pub enum PayloadView {
    Init { node_id: Seq<char>, node_ids: Seq<Seq<char>> },
    InitOk,
    Echo { echo: Seq<char> },
    EchoOk { echo: Seq<char> },
    Generate,
    GenerateOk { id: Seq<char> },
    Broadcast { value: i32 },
    BroadcastOk,
    Read,
    ReadOk { messages: Seq<i32> },
    Topology { topology: Map<Seq<char>, Seq<Seq<char>>> },
    TopologyOk,
    Gossip { messages: Seq<i32> },
}

/// The mathematical content of a [`Message`], envelope and body flattened.
pub struct MessageView<P> {
    pub src: Seq<char>,
    pub dst: Seq<char>,
    pub msg_id: Option<usize>,
    pub in_reply_to: Option<usize>,
    pub payload: P,
}

/// The mathematical content of an [`Event`].
pub enum EventView {
    Tick,
    Eof,
    External(MessageView<PayloadView>),
}

impl View for ExternalPayload {
    type V = PayloadView;

    open spec fn view(&self) -> PayloadView {
        match *self {
            ExternalPayload::Init(init) => PayloadView::Init {
                node_id: init.node_id@,
                node_ids: init.node_ids.deep_view(),
            },
            ExternalPayload::InitOk => PayloadView::InitOk,
            ExternalPayload::Echo(echo) => PayloadView::Echo { echo: echo.echo@ },
            ExternalPayload::EchoOk(echo) => PayloadView::EchoOk { echo: echo.echo@ },
            ExternalPayload::Generate => PayloadView::Generate,
            ExternalPayload::GenerateOk { id } => PayloadView::GenerateOk { id: id@ },
            ExternalPayload::Broadcast { value } => PayloadView::Broadcast { value },
            ExternalPayload::BroadcastOk => PayloadView::BroadcastOk,
            ExternalPayload::Read => PayloadView::Read,
            ExternalPayload::ReadOk { messages } => PayloadView::ReadOk { messages: messages@ },
            ExternalPayload::Topology { topology } => PayloadView::Topology { topology: topology@ },
            ExternalPayload::TopologyOk => PayloadView::TopologyOk,
            ExternalPayload::Gossip { messages } => PayloadView::Gossip { messages: messages@ },
        }
    }
}

impl<Payload: View> View for Message<Payload> {
    type V = MessageView<Payload::V>;

    open spec fn view(&self) -> MessageView<Payload::V> {
        MessageView {
            src: self.src@,
            dst: self.dst@,
            msg_id: self.body.msg_id,
            in_reply_to: self.body.in_reply_to,
            payload: self.body.payload@,
        }
    }
}

impl View for Event {
    type V = EventView;

    open spec fn view(&self) -> EventView {
        match *self {
            Event::Internal { payload: InternalPayload::Timer } => EventView::Tick,
            Event::Internal { payload: InternalPayload::Eof } => EventView::Eof,
            Event::External { message } => EventView::External(message@),
        }
    }
}

} // verus!

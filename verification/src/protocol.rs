//! The node as a mathematical state machine: what each event does to the
//! state of a node, and which messages the node sends in response.

use crate::ids::unique_id;
use crate::known_ids::lists;
use crate::messages::{EventView, MessageView, PayloadView};
use vstd::prelude::*;

verus! {

/// Where a node stands in its life.
#[derive(Debug, Clone, Copy, PartialEq, Eq, Structural)]
pub enum Phase {
    /// The handshake has not happened yet.
    Uninitialized,
    /// The node knows its identity and serves events.
    Initialized,
    /// The input stream has ended; the node serves nothing any more.
    Terminated,
}

/// Why a node cannot go on. Every fault is fatal: the process is to abort.
#[derive(Debug, Clone, Copy, PartialEq, Eq, Structural)]
pub enum Fault {
    /// Before the handshake, an event arrived that is not the handshake request.
    NotInitialized,
    /// A handshake request arrived after the handshake.
    AlreadyInitialized,
    /// An event arrived after the end of the input stream.
    Terminated,
    /// A gossip round found no entry for this node in the topology.
    NoTopologyEntry,
    /// A neighbour to gossip to, or the sender of a gossip message, has no
    /// entry in the table of known values.
    UnknownPeer,
    /// The message counter cannot grow any further.
    MessageIdsExhausted,
}

/// The state of a node.
pub struct NodeView {
    pub phase: Phase,
    pub node_id: Seq<char>,
    pub cluster: Seq<Seq<char>>,
    pub topology: Map<Seq<char>, Seq<Seq<char>>>,
    /// The id that the next outbound message gets.
    pub next_msg_id: nat,
    /// Every value this node has learned about.
    pub broadcast: Set<i32>,
    /// For each peer, the values that peer is known to possess.
    pub known: Map<Seq<char>, Set<i32>>,
}

/// What an outbound message carries. Where the message lists a set of values,
/// the order of the listing is left open.
pub enum Sent {
    InitOk,
    EchoOk { echo: Seq<char> },
    GenerateOk { id: Seq<char> },
    BroadcastOk,
    ReadOk { values: Set<i32> },
    TopologyOk,
    Gossip { values: Set<i32> },
}

/// An outbound message, up to the order in which it lists values. Its sender
/// and its message id follow from the node that sends it.
pub struct Outbound {
    pub dst: Seq<char>,
    pub in_reply_to: Option<usize>,
    pub payload: Sent,
}

/// What an event leads to: the next state and the messages sent, in order.
pub struct Outcome {
    pub node: NodeView,
    pub sent: Seq<Outbound>,
}

/// What a run of events leads to: the state reached, the messages sent on the
/// way, and the fault that ended the run, if one did.
pub struct Trace {
    pub node: NodeView,
    pub sent: Seq<Outbound>,
    pub fault: Option<Fault>,
}

/// The state of a node before its handshake.
pub open spec fn initial() -> NodeView {
    NodeView {
        phase: Phase::Uninitialized,
        node_id: Seq::empty(),
        cluster: Seq::empty(),
        topology: Map::empty(),
        next_msg_id: 0,
        broadcast: Set::empty(),
        known: Map::empty(),
    }
}

/// The members of `ids` other than `me`, in order.
pub open spec fn others(ids: Seq<Seq<char>>, me: Seq<char>) -> Seq<Seq<char>> {
    ids.filter(|id: Seq<char>| id != me)
}

/// A table of known values with one empty set for each of `peers` other than `me`.
pub open spec fn fresh_known(peers: Set<Seq<char>>, me: Seq<char>) -> Map<Seq<char>, Set<i32>> {
    Map::new(|k: Seq<char>| peers.contains(k) && k != me, |k: Seq<char>| Set::<i32>::empty())
}

/// The values that `node` has and that `peer` is not known to possess.
pub open spec fn pending(node: NodeView, peer: Seq<char>) -> Set<i32> {
    node.broadcast.difference(node.known[peer])
}

/// The gossip message that `node` owes `peer`.
pub open spec fn gossip_to(node: NodeView, peer: Seq<char>) -> Outbound {
    Outbound { dst: peer, in_reply_to: None, payload: Sent::Gossip { values: pending(node, peer) } }
}

/// The gossip messages of one round: one for each of `neighbors`, in order,
/// that is not known to possess every value of `node`.
pub open spec fn gossip_plan(node: NodeView, neighbors: Seq<Seq<char>>) -> Seq<Outbound> {
    neighbors.filter(|peer: Seq<char>| !pending(node, peer).is_empty()).map_values(
        |peer: Seq<char>| gossip_to(node, peer),
    )
}

/// A gossip plan grows with its list of neighbours, by the message owed to
/// the neighbour added, if one is owed.
pub proof fn lemma_plan_push(node: NodeView, neighbors: Seq<Seq<char>>, peer: Seq<char>)
    ensures
        gossip_plan(node, neighbors.push(peer)) == if pending(node, peer).is_empty() {
            gossip_plan(node, neighbors)
        } else {
            gossip_plan(node, neighbors).push(gossip_to(node, peer))
        },
{
    let owed = |peer: Seq<char>| !pending(node, peer).is_empty();
    neighbors.lemma_filter_push(peer, owed);
    if !pending(node, peer).is_empty() {
        assert(gossip_plan(node, neighbors.push(peer)) =~= gossip_plan(node, neighbors).push(
            gossip_to(node, peer),
        ));
    }
}

/// Every message of a gossip plan goes to one of the neighbours, and is the
/// message owed to that neighbour.
pub proof fn lemma_plan_members(node: NodeView, neighbors: Seq<Seq<char>>, k: int)
    requires
        0 <= k < gossip_plan(node, neighbors).len(),
    ensures
        gossip_plan(node, neighbors)[k] == gossip_to(node, gossip_plan(node, neighbors)[k].dst),
        neighbors.contains(gossip_plan(node, neighbors)[k].dst),
        !pending(node, gossip_plan(node, neighbors)[k].dst).is_empty(),
{
    let owed = |peer: Seq<char>| !pending(node, peer).is_empty();
    let kept = neighbors.filter(owed);
    neighbors.lemma_filter_pred(owed, k);
    assert(kept.contains(kept[k]));
    neighbors.lemma_filter_contains_rev(owed, kept[k]);
}

/// A gossip plan depends on the values of the node and on what the node
/// knows of its peers, and on nothing else.
pub proof fn lemma_plan_depends_on_values(
    one: NodeView,
    other: NodeView,
    neighbors: Seq<Seq<char>>,
)
    requires
        one.broadcast == other.broadcast,
        one.known == other.known,
    ensures
        gossip_plan(one, neighbors) == gossip_plan(other, neighbors),
    decreases neighbors.len(),
{
    if neighbors.len() == 0 {
        reveal(Seq::filter);
        assert(gossip_plan(one, neighbors) =~= gossip_plan(other, neighbors));
    } else {
        let rest = neighbors.drop_last();
        let peer = neighbors.last();
        assert(neighbors =~= rest.push(peer));
        lemma_plan_depends_on_values(one, other, rest);
        lemma_plan_push(one, rest, peer);
        lemma_plan_push(other, rest, peer);
    }
}

/// The node `after` sends `sent`, one message id each, counted on from `before`.
pub open spec fn sending(before: NodeView, after: NodeView, sent: Seq<Outbound>) -> Result<
    Outcome,
    Fault,
> {
    if before.next_msg_id + sent.len() > usize::MAX {
        Err(Fault::MessageIdsExhausted)
    } else {
        Ok(
            Outcome {
                node: NodeView { next_msg_id: before.next_msg_id + sent.len(), ..after },
                sent,
            },
        )
    }
}

/// The node `after` answers `request` with `payload`.
pub open spec fn replying(
    before: NodeView,
    after: NodeView,
    request: MessageView<PayloadView>,
    payload: Sent,
) -> Result<Outcome, Fault> {
    sending(
        before,
        after,
        seq![Outbound { dst: request.src, in_reply_to: request.msg_id, payload }],
    )
}

/// The handshake: the node adopts `node_id`, takes `node_ids` as its cluster,
/// points itself at every other member, expects nothing of any of them yet,
/// and confirms.
pub open spec fn on_init(
    node: NodeView,
    request: MessageView<PayloadView>,
    node_id: Seq<char>,
    node_ids: Seq<Seq<char>>,
) -> Result<Outcome, Fault> {
    replying(
        node,
        NodeView {
            phase: Phase::Initialized,
            node_id,
            cluster: node_ids,
            topology: Map::empty().insert(node_id, others(node_ids, node_id)),
            known: fresh_known(node_ids.to_set(), node_id),
            ..node
        },
        request,
        Sent::InitOk,
    )
}

/// What a message from outside does to an initialized node.
pub open spec fn on_message(node: NodeView, message: MessageView<PayloadView>) -> Result<
    Outcome,
    Fault,
> {
    match message.payload {
        PayloadView::Init { .. } => Err(Fault::AlreadyInitialized),
        PayloadView::Echo { echo } => replying(node, node, message, Sent::EchoOk { echo }),
        PayloadView::Generate => replying(
            node,
            node,
            message,
            Sent::GenerateOk { id: unique_id(node.node_id, node.next_msg_id) },
        ),
        PayloadView::Broadcast { value } => replying(
            node,
            NodeView { broadcast: node.broadcast.insert(value), ..node },
            message,
            Sent::BroadcastOk,
        ),
        PayloadView::Read => replying(
            node,
            node,
            message,
            Sent::ReadOk { values: node.broadcast },
        ),
        PayloadView::Topology { topology } => replying(
            node,
            NodeView { topology, known: fresh_known(topology.dom(), node.node_id), ..node },
            message,
            Sent::TopologyOk,
        ),
        PayloadView::Gossip { messages } => if node.known.contains_key(message.src) {
            Ok(
                Outcome {
                    node: NodeView {
                        broadcast: node.broadcast.union(messages.to_set()),
                        known: node.known.insert(
                            message.src,
                            node.known[message.src].union(messages.to_set()),
                        ),
                        ..node
                    },
                    sent: Seq::empty(),
                },
            )
        } else {
            Err(Fault::UnknownPeer)
        },
        PayloadView::InitOk
        | PayloadView::EchoOk { .. }
        | PayloadView::GenerateOk { .. }
        | PayloadView::BroadcastOk
        | PayloadView::ReadOk { .. }
        | PayloadView::TopologyOk => Ok(Outcome { node, sent: Seq::empty() }),
    }
}

/// One round of gossip of an initialized node.
pub open spec fn on_tick(node: NodeView) -> Result<Outcome, Fault> {
    if node.broadcast.is_empty() {
        Ok(Outcome { node, sent: Seq::empty() })
    } else if !node.topology.contains_key(node.node_id) {
        Err(Fault::NoTopologyEntry)
    } else {
        let neighbors = node.topology[node.node_id];
        if exists|i: int| 0 <= i < neighbors.len() && !node.known.contains_key(neighbors[i]) {
            Err(Fault::UnknownPeer)
        } else {
            sending(node, node, gossip_plan(node, neighbors))
        }
    }
}

/// What one event does to a node.
pub open spec fn step(node: NodeView, event: EventView) -> Result<Outcome, Fault> {
    match node.phase {
        Phase::Uninitialized => match event {
            EventView::External(message) => match message.payload {
                PayloadView::Init { node_id, node_ids } => on_init(
                    node,
                    message,
                    node_id,
                    node_ids,
                ),
                _ => Err(Fault::NotInitialized),
            },
            _ => Err(Fault::NotInitialized),
        },
        Phase::Initialized => match event {
            EventView::Tick => on_tick(node),
            EventView::Eof => Ok(
                Outcome { node: NodeView { phase: Phase::Terminated, ..node }, sent: Seq::empty() },
            ),
            EventView::External(message) => on_message(node, message),
        },
        Phase::Terminated => Err(Fault::Terminated),
    }
}

/// What the event handed over for the handshake does to a node: a node that
/// awaits its handshake takes it as any other event; a node that serves
/// events already takes none.
pub open spec fn handshake(node: NodeView, event: EventView) -> Result<Outcome, Fault> {
    if node.phase == Phase::Initialized {
        Err(Fault::AlreadyInitialized)
    } else {
        step(node, event)
    }
}

/// What a run of events does to a node. The events are taken in order; the run
/// ends with the first fault, with the end of the input stream, or when the
/// events are used up.
pub open spec fn run(node: NodeView, events: Seq<EventView>) -> Trace
    decreases events.len(),
{
    if events.len() == 0 {
        Trace { node, sent: Seq::empty(), fault: None }
    } else {
        match step(node, events[0]) {
            Err(fault) => Trace { node, sent: Seq::empty(), fault: Some(fault) },
            Ok(outcome) => if events[0] is Eof {
                Trace { node: outcome.node, sent: outcome.sent, fault: None }
            } else {
                let rest = run(outcome.node, events.drop_first());
                Trace { node: rest.node, sent: outcome.sent + rest.sent, fault: rest.fault }
            },
        }
    }
}

/// The message `message` is what `outbound` describes, sent by `src` under
/// the message id `msg_id`.
pub open spec fn realizes(
    message: MessageView<PayloadView>,
    src: Seq<char>,
    msg_id: int,
    outbound: Outbound,
) -> bool {
    &&& message.src == src
    &&& message.dst == outbound.dst
    &&& message.msg_id matches Some(id) && id == msg_id
    &&& message.in_reply_to == outbound.in_reply_to
    &&& match outbound.payload {
        Sent::InitOk => message.payload == PayloadView::InitOk,
        Sent::EchoOk { echo } => message.payload == (PayloadView::EchoOk { echo }),
        Sent::GenerateOk { id } => message.payload == (PayloadView::GenerateOk { id }),
        Sent::BroadcastOk => message.payload == PayloadView::BroadcastOk,
        Sent::ReadOk { values } => message.payload matches PayloadView::ReadOk { messages }
            && lists(messages, values),
        Sent::TopologyOk => message.payload == PayloadView::TopologyOk,
        Sent::Gossip { values } => message.payload matches PayloadView::Gossip { messages }
            && lists(messages, values),
    }
}

/// The messages `messages` are what `outbound` describes, in order, sent by
/// `src` under consecutive message ids from `first_id` on.
pub open spec fn realizes_all(
    messages: Seq<MessageView<PayloadView>>,
    src: Seq<char>,
    first_id: int,
    outbound: Seq<Outbound>,
) -> bool {
    &&& messages.len() == outbound.len()
    &&& forall|i: int|
        0 <= i < messages.len() ==> realizes(#[trigger] messages[i], src, first_id + i, outbound[i])
}

} // verus!

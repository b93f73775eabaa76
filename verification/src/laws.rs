//! What holds of every node, whatever the events it is handed.

use crate::ids::{lemma_unique_id_injective, unique_id};
use crate::messages::{EventView, MessageView, PayloadView};
use crate::protocol::{
    lemma_plan_depends_on_values, lemma_plan_members, realizes, realizes_all, run, step, NodeView,
    Outbound, Phase, Sent,
};
use vstd::prelude::*;

verus! {

/// The values that an event brings to the node that takes it.
pub open spec fn carried(event: EventView) -> Set<i32> {
    match event {
        EventView::External(message) => match message.payload {
            PayloadView::Broadcast { value } => set![value],
            PayloadView::Gossip { messages } => messages.to_set(),
            _ => Set::empty(),
        },
        _ => Set::empty(),
    }
}

/// Whether an event replaces the topology.
pub open spec fn replaces_topology(event: EventView) -> bool {
    event matches EventView::External(message) && message.payload is Topology
}

/// Whether `outbound` is a gossip message to `peer` that holds `value`.
pub open spec fn gossips(outbound: Outbound, peer: Seq<char>, value: i32) -> bool {
    &&& outbound.dst == peer
    &&& outbound.payload matches Sent::Gossip { values }
    &&& values.contains(value)
}

/// An event that a node takes without a fault adds to the values of the
/// node the values that the event brings, and changes them in no other way.
pub proof fn lemma_step_broadcast(node: NodeView, event: EventView)
    requires
        step(node, event) is Ok,
    ensures
        step(node, event)->Ok_0.node.broadcast == node.broadcast.union(carried(event)),
{
    let after = step(node, event)->Ok_0.node;
    assert(after.broadcast =~= node.broadcast.union(carried(event)));
}

/// Insertion is idempotent: an event that brings only values that the event
/// before it brought already, be it by a broadcast request or by gossip,
/// leaves the values of the node as they are.
pub proof fn lemma_insertion_idempotent(node: NodeView, first: EventView, second: EventView)
    requires
        step(node, first) is Ok,
        step(step(node, first)->Ok_0.node, second) is Ok,
        carried(second).subset_of(carried(first)),
    ensures
        step(step(node, first)->Ok_0.node, second)->Ok_0.node.broadcast == step(
            node,
            first,
        )->Ok_0.node.broadcast,
{
    let middle = step(node, first)->Ok_0.node;
    lemma_step_broadcast(node, first);
    lemma_step_broadcast(middle, second);
    assert(middle.broadcast.union(carried(second)) =~= middle.broadcast);
}

/// The answer to a read request lists every value of the node exactly once,
/// and nothing else.
pub proof fn lemma_read_lists_each_value_once(
    node: NodeView,
    request: MessageView<PayloadView>,
    reply: MessageView<PayloadView>,
)
    requires
        node.phase == Phase::Initialized,
        request.payload is Read,
        step(node, EventView::External(request)) is Ok,
        realizes_all(
            seq![reply],
            node.node_id,
            node.next_msg_id as int,
            step(node, EventView::External(request))->Ok_0.sent,
        ),
    ensures
        reply.payload matches PayloadView::ReadOk { messages } && messages.no_duplicates()
            && messages.to_set() == node.broadcast,
{
    let sent = step(node, EventView::External(request))->Ok_0.sent;
    assert(realizes(seq![reply][0], node.node_id, node.next_msg_id as int + 0, sent[0]));
}

/// Growth is monotonic: whatever the events of a run, the node loses no
/// value it had.
pub proof fn lemma_broadcast_grows(node: NodeView, events: Seq<EventView>)
    ensures
        node.broadcast.subset_of(run(node, events).node.broadcast),
    decreases events.len(),
{
    if events.len() > 0 {
        if let Ok(outcome) = step(node, events[0]) {
            lemma_step_broadcast(node, events[0]);
            if !(events[0] is Eof) {
                lemma_broadcast_grows(outcome.node, events.drop_first());
            }
        }
    }
}

/// Gossip repeats what no peer has confirmed: a round of gossip right after
/// another sends the same messages, under the ids that follow, and changes
/// nothing but the message counter.
pub proof fn lemma_tick_repeats(node: NodeView)
    requires
        node.phase == Phase::Initialized,
        step(node, EventView::Tick) is Ok,
        step(step(node, EventView::Tick)->Ok_0.node, EventView::Tick) is Ok,
    ensures
        step(step(node, EventView::Tick)->Ok_0.node, EventView::Tick)->Ok_0.sent == step(
            node,
            EventView::Tick,
        )->Ok_0.sent,
        step(step(node, EventView::Tick)->Ok_0.node, EventView::Tick)->Ok_0.node == (NodeView {
            next_msg_id: node.next_msg_id + 2 * step(node, EventView::Tick)->Ok_0.sent.len(),
            ..node
        }),
{
    let once = step(node, EventView::Tick)->Ok_0.node;
    if !node.broadcast.is_empty() {
        lemma_plan_depends_on_values(node, once, node.topology[node.node_id]);
    }
}

/// What a node knows a peer to possess, it keeps knowing through every event
/// that does not replace the topology; and it sends the peer none of it.
pub proof fn lemma_step_keeps_knowledge(
    node: NodeView,
    event: EventView,
    peer: Seq<char>,
    value: i32,
)
    requires
        node.phase == Phase::Initialized,
        node.known.contains_key(peer),
        node.known[peer].contains(value),
        !replaces_topology(event),
        step(node, event) is Ok,
    ensures
        step(node, event)->Ok_0.node.phase != Phase::Uninitialized,
        step(node, event)->Ok_0.node.known.contains_key(peer),
        step(node, event)->Ok_0.node.known[peer].contains(value),
        forall|k: int|
            0 <= k < step(node, event)->Ok_0.sent.len() ==> !gossips(
                #[trigger] step(node, event)->Ok_0.sent[k],
                peer,
                value,
            ),
{
    let sent = step(node, event)->Ok_0.sent;
    assert forall|k: int| 0 <= k < sent.len() implies !gossips(#[trigger] sent[k], peer, value) by {
        if event is Tick && !node.broadcast.is_empty() {
            lemma_plan_members(node, node.topology[node.node_id], k);
        }
    }
}

/// No redundant gossip: once a peer has gossiped a value to this node, no
/// gossip message that this node sends to that peer holds that value, in any
/// run of events that does not replace the topology.
pub proof fn lemma_no_redundant_gossip(
    node: NodeView,
    gossip: MessageView<PayloadView>,
    value: i32,
    events: Seq<EventView>,
)
    requires
        node.phase == Phase::Initialized,
        gossip.payload matches PayloadView::Gossip { messages } && messages.contains(value),
        step(node, EventView::External(gossip)) is Ok,
        forall|i: int| 0 <= i < events.len() ==> !replaces_topology(#[trigger] events[i]),
    ensures
        forall|k: int|
            0 <= k < run(step(node, EventView::External(gossip))->Ok_0.node, events).sent.len()
                ==> !gossips(
                #[trigger] run(step(node, EventView::External(gossip))->Ok_0.node, events).sent[k],
                gossip.src,
                value,
            ),
{
    let after = step(node, EventView::External(gossip))->Ok_0.node;
    lemma_run_keeps_knowledge(after, events, gossip.src, value);
}

/// What a node knows a peer to possess, it sends the peer in no gossip
/// message of a run that does not replace the topology.
pub proof fn lemma_run_keeps_knowledge(
    node: NodeView,
    events: Seq<EventView>,
    peer: Seq<char>,
    value: i32,
)
    requires
        node.phase != Phase::Uninitialized,
        node.known.contains_key(peer),
        node.known[peer].contains(value),
        forall|i: int| 0 <= i < events.len() ==> !replaces_topology(#[trigger] events[i]),
    ensures
        forall|k: int|
            0 <= k < run(node, events).sent.len() ==> !gossips(
                #[trigger] run(node, events).sent[k],
                peer,
                value,
            ),
    decreases events.len(),
{
    if events.len() > 0 {
        if let Ok(outcome) = step(node, events[0]) {
            assert(!replaces_topology(events[0]));
            lemma_step_keeps_knowledge(node, events[0], peer, value);
            if !(events[0] is Eof) {
                let rest = events.drop_first();
                assert forall|i: int| 0 <= i < rest.len() implies !replaces_topology(
                    #[trigger] rest[i],
                ) by {
                    assert(rest[i] == events[i + 1]);
                }
                lemma_run_keeps_knowledge(outcome.node, rest, peer, value);
                let tail = run(outcome.node, rest).sent;
                let all = run(node, events).sent;
                assert forall|k: int| 0 <= k < all.len() implies !gossips(
                    #[trigger] all[k],
                    peer,
                    value,
                ) by {
                    if k < outcome.sent.len() {
                        assert(all[k] == outcome.sent[k]);
                    } else {
                        assert(all[k] == tail[k - outcome.sent.len()]);
                    }
                }
            }
        }
    }
}

/// A new topology resets knowledge: after a topology message the node holds
/// an entry for every node of the new topology but itself, and for no other;
/// and every entry is empty, whatever the node knew before.
pub proof fn lemma_topology_resets_knowledge(node: NodeView, request: MessageView<PayloadView>)
    requires
        node.phase == Phase::Initialized,
        request.payload is Topology,
        step(node, EventView::External(request)) is Ok,
    ensures
        step(node, EventView::External(request))->Ok_0.node.topology
            == request.payload->Topology_topology,
        forall|peer: Seq<char>|
            #[trigger] step(node, EventView::External(request))->Ok_0.node.known.contains_key(peer)
                <==> request.payload->Topology_topology.contains_key(peer) && peer
                != node.node_id,
        forall|peer: Seq<char>|
            #[trigger] step(node, EventView::External(request))->Ok_0.node.known.contains_key(peer)
                ==> step(node, EventView::External(request))->Ok_0.node.known[peer].is_empty(),
{
}

/// The message counter of a node moves on by one for every message sent in a
/// run, whatever the kind of the message.
pub proof fn lemma_counter_counts_messages(node: NodeView, events: Seq<EventView>)
    ensures
        run(node, events).node.next_msg_id == node.next_msg_id + run(node, events).sent.len(),
    decreases events.len(),
{
    if events.len() > 0 {
        if let Ok(outcome) = step(node, events[0]) {
            if !(events[0] is Eof) {
                lemma_counter_counts_messages(outcome.node, events.drop_first());
            }
        }
    }
}

/// Message ids are monotonic: the messages that a node sends in a run, be
/// they replies or gossip, bear the ids from the node's counter on, each one
/// more than the one before, and the counter ends one past the last.
pub proof fn lemma_message_ids_consecutive(
    node: NodeView,
    events: Seq<EventView>,
    src: Seq<char>,
    messages: Seq<MessageView<PayloadView>>,
)
    requires
        realizes_all(messages, src, node.next_msg_id as int, run(node, events).sent),
    ensures
        forall|i: int|
            0 <= i < messages.len() ==> (#[trigger] messages[i]).msg_id is Some
                && messages[i].msg_id->0 == node.next_msg_id + i,
        forall|i: int, j: int|
            0 <= i < j < messages.len() ==> (#[trigger] messages[i]).msg_id->0 < (
            #[trigger] messages[j]).msg_id->0,
        forall|i: int|
            0 <= i && i + 1 < messages.len() ==> (#[trigger] messages[i + 1]).msg_id->0
                == messages[i].msg_id->0 + 1,
        run(node, events).node.next_msg_id == node.next_msg_id + messages.len(),
{
    lemma_counter_counts_messages(node, events);
    let sent = run(node, events).sent;
    assert forall|i: int| 0 <= i < messages.len() implies (#[trigger] messages[i]).msg_id is Some
        && messages[i].msg_id->0 == node.next_msg_id + i by {
        assert(realizes(messages[i], src, node.next_msg_id + i, sent[i]));
    }
    assert forall|i: int| 0 <= i && i + 1 < messages.len() implies (#[trigger] messages[i
        + 1]).msg_id->0 == messages[i].msg_id->0 + 1 by {
        assert(messages[i].msg_id->0 == node.next_msg_id + i);
    }
}

/// An identifier that a node issues in a run is made of the id of the node
/// and the message id of the reply that bears it.
pub proof fn lemma_generated_id(node: NodeView, events: Seq<EventView>, k: int)
    requires
        node.phase != Phase::Uninitialized,
        0 <= k < run(node, events).sent.len(),
        run(node, events).sent[k].payload is GenerateOk,
    ensures
        run(node, events).sent[k].payload->GenerateOk_id == unique_id(
            node.node_id,
            (node.next_msg_id + k) as nat,
        ),
    decreases events.len(),
{
    if events.len() > 0 {
        if let Ok(outcome) = step(node, events[0]) {
            let rest = events.drop_first();
            let tail = run(outcome.node, rest).sent;
            let all = run(node, events).sent;
            if k < outcome.sent.len() {
                if !(events[0] is Eof) {
                    assert(all[k] == outcome.sent[k]);
                }
                if events[0] is Tick && !node.broadcast.is_empty() {
                    lemma_plan_members(node, node.topology[node.node_id], k);
                }
            } else {
                assert(!(events[0] is Eof));
                assert(all[k] == tail[k - outcome.sent.len()]);
                lemma_generated_id(outcome.node, rest, k - outcome.sent.len());
            }
        }
    }
}

/// Identifiers are unique: no two identifiers that a node issues in a run
/// are equal.
pub proof fn lemma_generated_ids_differ(node: NodeView, events: Seq<EventView>, i: int, j: int)
    requires
        node.phase != Phase::Uninitialized,
        0 <= i < j < run(node, events).sent.len(),
        run(node, events).sent[i].payload is GenerateOk,
        run(node, events).sent[j].payload is GenerateOk,
    ensures
        run(node, events).sent[i].payload->GenerateOk_id != run(
            node,
            events,
        ).sent[j].payload->GenerateOk_id,
{
    lemma_generated_id(node, events, i);
    lemma_generated_id(node, events, j);
    let first = run(node, events).sent[i].payload->GenerateOk_id;
    let second = run(node, events).sent[j].payload->GenerateOk_id;
    if first == second {
        lemma_unique_id_injective(
            node.node_id,
            (node.next_msg_id + i) as nat,
            node.node_id,
            (node.next_msg_id + j) as nat,
        );
    }
}

} // verus!

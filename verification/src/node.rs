//! The node: its state, and what it decides on each event.

use crate::ids::generate_id;
use crate::known_ids::{lists, missing, KnownIds};
use crate::messages::{
    Body, Event, EventView, ExternalPayload, Init, InternalPayload, Message, MessageView,
    PayloadView,
};
use crate::protocol::{
    fresh_known, gossip_plan, handshake, initial, lemma_plan_push, on_message, on_tick, others,
    realizes, realizes_all, run, step, Fault, NodeView, Outbound, Outcome, Phase, Sent, Trace,
};
use crate::topology::Topology;
use std::collections::HashSet;
use vstd::prelude::*;

verus! {

/// The mathematical content of a list of messages.
pub open spec fn views(messages: Seq<Message<ExternalPayload>>) -> Seq<MessageView<PayloadView>> {
    Seq::new(messages.len(), |i: int| messages[i]@)
}

/// The mathematical content of a list of events.
pub open spec fn event_views(events: Seq<Event>) -> Seq<EventView> {
    Seq::new(events.len(), |i: int| events[i]@)
}

/// The events that a list of messages from outside amounts to.
pub open spec fn arrivals(messages: Seq<Message<ExternalPayload>>) -> Seq<EventView> {
    Seq::new(messages.len(), |i: int| EventView::External(messages[i]@))
}

/// A node that went from `before` to `after` and answered `result` did what
/// `expected` asks for: on success it reached the expected state and sent the
/// expected messages, under consecutive message ids; on a fault it reported
/// that fault and stayed as it was.
pub open spec fn obeys(
    before: NodeView,
    after: NodeView,
    expected: Result<Outcome, Fault>,
    result: Result<Vec<Message<ExternalPayload>>, Fault>,
) -> bool {
    match expected {
        Ok(outcome) => {
            &&& result matches Ok(sent)
            &&& after == outcome.node
            &&& realizes_all(
                views(sent@),
                outcome.node.node_id,
                before.next_msg_id as int,
                outcome.sent,
            )
        },
        Err(fault) => {
            &&& result matches Err(reported)
            &&& reported == fault
            &&& after == before
        },
    }
}

/// The gossip targets `targets`, each a neighbour with the values to send
/// it, are what `plan` asks for.
spec fn planned(targets: Seq<(String, Vec<i32>)>, plan: Seq<Outbound>) -> bool {
    &&& targets.len() == plan.len()
    &&& forall|k: int|
        0 <= k < targets.len() ==> {
            &&& (#[trigger] plan[k]).dst == targets[k].0@
            &&& plan[k].in_reply_to is None
            &&& plan[k].payload matches Sent::Gossip { values }
            &&& lists(targets[k].1@, values)
        }
}

/// The trace `rest`, with `sent` sent before it.
spec fn after_sending(sent: Seq<Outbound>, rest: Trace) -> Trace {
    Trace { node: rest.node, sent: sent + rest.sent, fault: rest.fault }
}

/// What holds of every event that a node takes without a fault: the node is
/// past its handshake afterwards, it keeps the identity it had if it had one,
/// and its message counter has moved on by the number of messages sent.
proof fn lemma_step_keeps_identity(node: NodeView, event: EventView)
    requires
        step(node, event) is Ok,
    ensures
        step(node, event)->Ok_0.node.phase != Phase::Uninitialized,
        node.phase != Phase::Uninitialized ==> step(node, event)->Ok_0.node.node_id
            == node.node_id,
        step(node, event)->Ok_0.node.next_msg_id == node.next_msg_id + step(
            node,
            event,
        )->Ok_0.sent.len(),
{
}

/// Messages that realize one plan, followed by messages that realize the
/// next under the ids that follow, realize the two plans in a row.
proof fn lemma_realizes_joined(
    first: Seq<MessageView<PayloadView>>,
    second: Seq<MessageView<PayloadView>>,
    src: Seq<char>,
    first_id: int,
    plan: Seq<Outbound>,
    more: Seq<Outbound>,
)
    requires
        realizes_all(first, src, first_id, plan),
        realizes_all(second, src, first_id + first.len(), more),
    ensures
        realizes_all(first + second, src, first_id, plan + more),
{
    let all = first + second;
    assert forall|i: int| 0 <= i < all.len() implies realizes(
        #[trigger] all[i],
        src,
        first_id + i,
        (plan + more)[i],
    ) by {
        if i < first.len() {
            assert(all[i] == first[i]);
        } else {
            assert(all[i] == second[i - first.len()]);
        }
    }
}

/// The members of `ids` other than `me`, in order.
fn other_ids(ids: &Vec<String>, me: &String) -> (rest: Vec<String>)
    ensures
        rest.deep_view() == others(ids.deep_view(), me@),
{
    let ghost all = ids.deep_view();
    let ghost other = |id: Seq<char>| id != me@;
    let mut rest: Vec<String> = Vec::new();
    let mut i: usize = 0;
    proof {
        reveal(Seq::filter);
        assert(all.take(0).filter(other) =~= Seq::<Seq<char>>::empty());
    }
    while i < ids.len()
        invariant
            i <= ids.len(),
            all == ids.deep_view(),
            other == |id: Seq<char>| id != me@,
            rest.deep_view() =~= all.take(i as int).filter(other),
        decreases ids.len() - i,
    {
        proof {
            all.take(i as int).lemma_filter_push(all[i as int], other);
            assert(all.take(i + 1) =~= all.take(i as int).push(all[i as int]));
        }
        if ids[i] != *me {
            rest.push(ids[i].clone());
        }
        i += 1;
    }
    assert(all.take(ids.len() as int) == all);
    rest
}

/// A node of the cluster.
///
/// The node owns its identity, the topology, the set of broadcast values it
/// has learned about, and what it knows of its peers. It reads nothing and
/// writes nothing: it is handed events and hands back the messages to send.
#[derive(Debug)]
pub struct Node {
    phase: Phase,
    node_id: String,
    cluster: Vec<String>,
    topology: Topology,
    uniq_msg_id: usize,
    // values received from clients and from peers; gossiped to the
    // neighbours of this node
    broadcast_ids: HashSet<i32>,
    // values that each peer sent to this node by gossip, and so need not
    // be sent back to it
    known_ids: KnownIds,
}

impl View for Node {
    type V = NodeView;

    closed spec fn view(&self) -> NodeView {
        NodeView {
            phase: self.phase,
            node_id: self.node_id@,
            cluster: self.cluster.deep_view(),
            topology: self.topology@,
            next_msg_id: self.uniq_msg_id as nat,
            broadcast: self.broadcast_ids@,
            known: self.known_ids@,
        }
    }
}

impl Node {
    /// A node that awaits its handshake.
    pub fn new() -> (node: Node)
        ensures
            node@ == initial(),
    {
        let node = Node {
            phase: Phase::Uninitialized,
            node_id: String::new(),
            cluster: Vec::new(),
            topology: Topology::new(),
            uniq_msg_id: 0,
            broadcast_ids: HashSet::new(),
            known_ids: KnownIds::new(),
        };
        assert(node.cluster.deep_view() =~= Seq::<Seq<char>>::empty());
        node
    }

    /// Where the node stands in its life.
    pub fn phase(&self) -> (phase: Phase)
        ensures
            phase == self@.phase,
    {
        self.phase
    }

    /// The id of this node; empty before the handshake.
    pub fn node_id(&self) -> (node_id: &String)
        ensures
            node_id@ == self@.node_id,
    {
        &self.node_id
    }

    /// The ids of all members of the cluster, as the handshake gave them.
    pub fn cluster(&self) -> (cluster: &Vec<String>)
        ensures
            cluster.deep_view() == self@.cluster,
    {
        &self.cluster
    }

    /// The topology in force.
    pub fn topology(&self) -> (topology: &Topology)
        ensures
            topology@ == self@.topology,
    {
        &self.topology
    }

    /// The id that the next outbound message gets.
    pub fn next_msg_id(&self) -> (next: usize)
        ensures
            next == self@.next_msg_id,
    {
        self.uniq_msg_id
    }

    /// Every value this node has learned about.
    pub fn broadcast_ids(&self) -> (values: &HashSet<i32>)
        ensures
            values@ == self@.broadcast,
    {
        &self.broadcast_ids
    }

    /// What this node knows of its peers.
    pub fn known_ids(&self) -> (known: &KnownIds)
        ensures
            known@ == self@.known,
    {
        &self.known_ids
    }

    /// Puts `payload` into an envelope from this node to `dst`, under the
    /// next message id.
    fn send_to(&mut self, dst: String, in_reply_to: Option<usize>, payload: ExternalPayload) -> (message:
        Message<ExternalPayload>)
        requires
            old(self).uniq_msg_id < usize::MAX,
        ensures
            final(self)@ == (NodeView { next_msg_id: old(self)@.next_msg_id + 1, ..old(self)@ }),
            message@ == (MessageView {
                src: old(self)@.node_id,
                dst: dst@,
                msg_id: Some(old(self).uniq_msg_id),
                in_reply_to,
                payload: payload@,
            }),
    {
        let msg_id = Some(self.uniq_msg_id);
        self.uniq_msg_id += 1;
        Message { src: self.node_id.clone(), dst, body: Body { msg_id, in_reply_to, payload } }
    }

    /// Answers a request of `dst` with `payload`.
    fn reply(&mut self, dst: String, in_reply_to: Option<usize>, payload: ExternalPayload) -> (sent:
        Vec<Message<ExternalPayload>>)
        requires
            old(self).uniq_msg_id < usize::MAX,
        ensures
            final(self)@ == (NodeView { next_msg_id: old(self)@.next_msg_id + 1, ..old(self)@ }),
            views(sent@) == seq![
                MessageView {
                    src: old(self)@.node_id,
                    dst: dst@,
                    msg_id: Some(old(self).uniq_msg_id),
                    in_reply_to,
                    payload: payload@,
                },
            ],
    {
        let message = self.send_to(dst, in_reply_to, payload);
        let mut sent: Vec<Message<ExternalPayload>> = Vec::new();
        sent.push(message);
        assert(views(sent@) =~= seq![message@]);
        sent
    }

    /// Takes in every one of `values`.
    fn learn(&mut self, values: &Vec<i32>)
        ensures
            final(self)@ == (NodeView {
                broadcast: old(self)@.broadcast.union(values@.to_set()),
                ..old(self)@
            }),
    {
        broadcast use vstd::std_specs::hash::group_hash_axioms;

        let mut i: usize = 0;
        while i < values.len()
            invariant
                i <= values.len(),
                *self == (Node { broadcast_ids: self.broadcast_ids, ..*old(self) }),
                self.broadcast_ids@ == old(self).broadcast_ids@.union(
                    values@.take(i as int).to_set(),
                ),
            decreases values.len() - i,
        {
            self.broadcast_ids.insert(values[i]);
            proof {
                assert(values@.take(i + 1) =~= values@.take(i as int).push(values@[i as int]));
                values@.take(i as int).lemma_push_to_set_commute(values@[i as int]);
            }
            i += 1;
        }
        assert(values@.take(values.len() as int) == values@);
    }

    /// Serves the first message from outside: the handshake, or a fault.
    fn adopt(&mut self, message: Message<ExternalPayload>) -> (result: Result<
        Vec<Message<ExternalPayload>>,
        Fault,
    >)
        requires
            old(self)@.phase == Phase::Uninitialized,
        ensures
            obeys(
                old(self)@,
                final(self)@,
                step(old(self)@, EventView::External(message@)),
                result,
            ),
    {
        let Message { src, dst: _, body } = message;
        let Body { msg_id, in_reply_to: _, payload } = body;
        match payload {
            ExternalPayload::Init(init) => {
                if self.uniq_msg_id == usize::MAX {
                    return Err(Fault::MessageIdsExhausted);
                }
                let Init { node_id, node_ids } = init;
                let neighbors = other_ids(&node_ids, &node_id);
                let mut topology = Topology::new();
                topology.insert(node_id.clone(), neighbors);
                self.known_ids = KnownIds::seeded(&node_ids, &node_id);
                self.topology = topology;
                self.cluster = node_ids;
                self.node_id = node_id;
                self.phase = Phase::Initialized;
                assert(self@.known =~= fresh_known(self@.cluster.to_set(), self@.node_id));
                Ok(self.reply(src, msg_id, ExternalPayload::InitOk))
            },
            _ => Err(Fault::NotInitialized),
        }
    }

    /// Runs one round of gossip: sends every neighbour the values it is not
    /// known to possess.
    fn gossip(&mut self) -> (result: Result<Vec<Message<ExternalPayload>>, Fault>)
        requires
            old(self)@.phase == Phase::Initialized,
        ensures
            obeys(old(self)@, final(self)@, on_tick(old(self)@), result),
    {
        broadcast use vstd::std_specs::hash::group_hash_axioms;
        broadcast use vstd::std_specs::vec::axiom_spec_into_iter;

        if self.broadcast_ids.is_empty() {
            return Ok(Vec::new());
        }
        let ghost node = self@;
        let ghost neighbors = node.topology[node.node_id];
        let mut targets: Vec<(String, Vec<i32>)> = Vec::new();
        match self.topology.get(&self.node_id) {
            None => {
                return Err(Fault::NoTopologyEntry);
            },
            Some(list) => {
                let mut i: usize = 0;
                while i < list.len()
                    invariant
                        i <= list.len(),
                        *self == *old(self),
                        node == self@,
                        !node.broadcast.is_empty(),
                        node.topology.contains_key(node.node_id),
                        neighbors == node.topology[node.node_id],
                        neighbors == list.deep_view(),
                        forall|j: int| 0 <= j < i ==> node.known.contains_key(neighbors[j]),
                        planned(targets@, gossip_plan(node, neighbors.take(i as int))),
                    decreases list.len() - i,
                {
                    match self.known_ids.get(&list[i]) {
                        None => {
                            assert(!node.known.contains_key(neighbors[i as int]));
                            return Err(Fault::UnknownPeer);
                        },
                        Some(known) => {
                            let values = missing(&self.broadcast_ids, known);
                            proof {
                                let peer = neighbors[i as int];
                                lemma_plan_push(node, neighbors.take(i as int), peer);
                                assert(neighbors.take(i + 1) =~= neighbors.take(i as int).push(
                                    peer,
                                ));
                                if values@.len() > 0 {
                                    assert(values@.to_set().contains(values@[0]));
                                }
                            }
                            if values.len() > 0 {
                                targets.push((list[i].clone(), values));
                            }
                        },
                    }
                    i += 1;
                }
                assert(neighbors.take(list.len() as int) == neighbors);
            },
        }
        let ghost plan = gossip_plan(node, neighbors);
        if targets.len() > usize::MAX - self.uniq_msg_id {
            return Err(Fault::MessageIdsExhausted);
        }
        let ghost wanted = targets@;
        let mut sent: Vec<Message<ExternalPayload>> = Vec::new();
        for target in it: targets.into_iter()
            invariant
                it.seq() == wanted,
                planned(wanted, plan),
                sent.len() == it.index(),
                node.next_msg_id + wanted.len() <= usize::MAX,
                self@ == (NodeView {
                    next_msg_id: (node.next_msg_id + it.index()) as nat,
                    ..node
                }),
                realizes_all(
                    views(sent@),
                    node.node_id,
                    node.next_msg_id as int,
                    plan.take(it.index()),
                ),
        {
            let ghost before = views(sent@);
            let (dst, messages) = target;
            let message = self.send_to(dst, None, ExternalPayload::Gossip { messages });
            sent.push(message);
            proof {
                let at = it.index();
                assert(views(sent@) =~= before.push(message@));
                assert(plan.take(at + 1) =~= plan.take(at).push(plan[at]));
                assert(realizes(message@, node.node_id, node.next_msg_id + at, plan[at]));
            }
        }
        assert(plan.take(wanted.len() as int) == plan);
        Ok(sent)
    }

    /// Serves one message from outside.
    fn handle(&mut self, message: Message<ExternalPayload>) -> (result: Result<
        Vec<Message<ExternalPayload>>,
        Fault,
    >)
        requires
            old(self)@.phase == Phase::Initialized,
        ensures
            obeys(old(self)@, final(self)@, on_message(old(self)@, message@), result),
    {
        broadcast use vstd::std_specs::hash::group_hash_axioms;

        let Message { src, dst: _, body } = message;
        let Body { msg_id, in_reply_to: _, payload } = body;
        let full = self.uniq_msg_id == usize::MAX;
        match payload {
            ExternalPayload::Init(_) => Err(Fault::AlreadyInitialized),
            ExternalPayload::Echo(echo) => {
                if full {
                    return Err(Fault::MessageIdsExhausted);
                }
                Ok(self.reply(src, msg_id, ExternalPayload::EchoOk(echo)))
            },
            ExternalPayload::Generate => {
                if full {
                    return Err(Fault::MessageIdsExhausted);
                }
                let id = generate_id(&self.node_id, self.uniq_msg_id);
                Ok(self.reply(src, msg_id, ExternalPayload::GenerateOk { id }))
            },
            ExternalPayload::Broadcast { value } => {
                if full {
                    return Err(Fault::MessageIdsExhausted);
                }
                self.broadcast_ids.insert(value);
                Ok(self.reply(src, msg_id, ExternalPayload::BroadcastOk))
            },
            ExternalPayload::Read => {
                if full {
                    return Err(Fault::MessageIdsExhausted);
                }
                let nothing: HashSet<i32> = HashSet::new();
                let messages = missing(&self.broadcast_ids, &nothing);
                assert(self.broadcast_ids@.difference(nothing@) =~= self.broadcast_ids@);
                Ok(self.reply(src, msg_id, ExternalPayload::ReadOk { messages }))
            },
            ExternalPayload::Topology { topology } => {
                if full {
                    return Err(Fault::MessageIdsExhausted);
                }
                let nodes = topology.nodes();
                proof {
                    topology.lemma_order();
                }
                self.known_ids = KnownIds::seeded(&nodes, &self.node_id);
                self.topology = topology;
                assert(self@.known =~= fresh_known(topology@.dom(), self@.node_id));
                Ok(self.reply(src, msg_id, ExternalPayload::TopologyOk))
            },
            ExternalPayload::Gossip { messages } => {
                if !self.known_ids.contains_peer(&src) {
                    return Err(Fault::UnknownPeer);
                }
                self.learn(&messages);
                self.known_ids.record(&src, &messages);
                Ok(Vec::new())
            },
            ExternalPayload::InitOk
            | ExternalPayload::EchoOk(_)
            | ExternalPayload::GenerateOk { .. }
            | ExternalPayload::BroadcastOk
            | ExternalPayload::ReadOk { .. }
            | ExternalPayload::TopologyOk => Ok(Vec::new()),
        }
    }

    /// Serves one event, whatever the phase of the node.
    ///
    /// The messages returned are to be sent in order. A fault is fatal: the
    /// caller is to abort; the node is then as it was before the event.
    pub fn step(&mut self, event: Event) -> (result: Result<Vec<Message<ExternalPayload>>, Fault>)
        ensures
            obeys(old(self)@, final(self)@, step(old(self)@, event@), result),
    {
        match self.phase {
            Phase::Uninitialized => match event {
                Event::External { message } => self.adopt(message),
                Event::Internal { .. } => Err(Fault::NotInitialized),
            },
            Phase::Initialized => match event {
                Event::Internal { payload: InternalPayload::Timer } => self.gossip(),
                Event::Internal { payload: InternalPayload::Eof } => {
                    self.phase = Phase::Terminated;
                    Ok(Vec::new())
                },
                Event::External { message } => self.handle(message),
            },
            Phase::Terminated => Err(Fault::Terminated),
        }
    }

    /// Serves the first event of a node that awaits its handshake, and hands
    /// back the initialized node with its confirmation.
    ///
    /// Any event but a handshake request is a fault, and so is any event at
    /// all for a node that has had its handshake.
    pub fn initialize(self, event: Event) -> (result: Result<
        (Node, Message<ExternalPayload>),
        Fault,
    >)
        ensures
            match handshake(self@, event@) {
                Ok(outcome) => {
                    &&& result matches Ok((node, reply))
                    &&& node@ == outcome.node
                    &&& realizes_all(
                        seq![reply@],
                        outcome.node.node_id,
                        self@.next_msg_id as int,
                        outcome.sent,
                    )
                },
                Err(fault) => result matches Err(reported) && reported == fault,
            },
    {
        let mut node = self;
        match node.phase {
            Phase::Initialized => {
                return Err(Fault::AlreadyInitialized);
            },
            _ => {},
        }
        match node.step(event) {
            Ok(mut sent) => {
                assert(views(sent@).len() == 1);
                assert(views(sent@)[0] == sent@[0]@);
                let reply = sent.remove(0);
                assert(seq![reply@] =~= views(seq![reply]));
                Ok((node, reply))
            },
            Err(fault) => Err(fault),
        }
    }

    /// Serves a run of events in order, until the events are used up, the
    /// input stream ends, or a fault occurs. Events behind the end of the
    /// input stream are not looked at.
    ///
    /// Hands back the messages to send, in order, and the fault that ended
    /// the run, if one did.
    pub fn run(&mut self, events: Vec<Event>) -> (result: (
        Vec<Message<ExternalPayload>>,
        Option<Fault>,
    ))
        ensures
            final(self)@ == run(old(self)@, event_views(events@)).node,
            result.1 == run(old(self)@, event_views(events@)).fault,
            realizes_all(
                views(result.0@),
                final(self)@.node_id,
                old(self)@.next_msg_id as int,
                run(old(self)@, event_views(events@)).sent,
            ),
    {
        broadcast use vstd::std_specs::vec::axiom_spec_into_iter;

        let ghost start = self@;
        let ghost given = events@;
        let ghost all = event_views(events@);
        let ghost mut plan: Seq<Outbound> = Seq::empty();
        let mut sent: Vec<Message<ExternalPayload>> = Vec::new();
        let mut fault: Option<Fault> = None;
        let mut done = false;
        assert(all.skip(0) == all);
        assert(plan + run(start, all).sent =~= run(start, all).sent);
        for event in it: events.into_iter()
            invariant
                it.seq() == given,
                all == event_views(given),
                done ==> run(start, all) == (Trace { node: self@, sent: plan, fault }),
                !done ==> fault is None && run(start, all) == after_sending(
                    plan,
                    run(self@, all.skip(it.index())),
                ),
                realizes_all(views(sent@), self@.node_id, start.next_msg_id as int, plan),
                sent.len() == plan.len(),
                self@.next_msg_id == start.next_msg_id + plan.len(),
                plan.len() > 0 ==> self@.phase != Phase::Uninitialized,
        {
            if !done {
                let ghost before = self@;
                let ghost rest = all.skip(it.index());
                let ghost earlier = views(sent@);
                proof {
                    assert(rest[0] == event@);
                    assert(rest.drop_first() =~= all.skip(it.index() + 1));
                }
                let last = match &event {
                    Event::Internal { payload: InternalPayload::Eof } => true,
                    _ => false,
                };
                match self.step(event) {
                    Ok(mut more) => {
                        proof {
                            let outcome = step(before, event@)->Ok_0;
                            lemma_step_keeps_identity(before, event@);
                            lemma_realizes_joined(
                                earlier,
                                views(more@),
                                outcome.node.node_id,
                                start.next_msg_id as int,
                                plan,
                                outcome.sent,
                            );
                            assert(views(sent@ + more@) =~= earlier + views(more@));
                            if last {
                                assert(plan + outcome.sent + Seq::<Outbound>::empty() =~= plan
                                    + outcome.sent);
                            } else {
                                let tail = run(outcome.node, rest.drop_first());
                                assert(plan + (outcome.sent + tail.sent) =~= plan + outcome.sent
                                    + tail.sent);
                            }
                            plan = plan + outcome.sent;
                        }
                        sent.append(&mut more);
                        done = last;
                    },
                    Err(reported) => {
                        proof {
                            assert(plan + Seq::<Outbound>::empty() =~= plan);
                        }
                        fault = Some(reported);
                        done = true;
                    },
                }
            }
        }
        proof {
            if !done {
                assert(plan + Seq::<Outbound>::empty() =~= plan);
            }
        }
        (sent, fault)
    }

    /// Serves a run of messages from outside in order, until they are used
    /// up or a fault occurs.
    ///
    /// Hands back the messages to send, in order, and the fault that ended
    /// the run, if one did.
    pub fn process_messages(&mut self, messages: Vec<Message<ExternalPayload>>) -> (result: (
        Vec<Message<ExternalPayload>>,
        Option<Fault>,
    ))
        ensures
            final(self)@ == run(old(self)@, arrivals(messages@)).node,
            result.1 == run(old(self)@, arrivals(messages@)).fault,
            realizes_all(
                views(result.0@),
                final(self)@.node_id,
                old(self)@.next_msg_id as int,
                run(old(self)@, arrivals(messages@)).sent,
            ),
    {
        broadcast use vstd::std_specs::vec::axiom_spec_into_iter;

        let ghost given = messages@;
        let mut events: Vec<Event> = Vec::new();
        for message in it: messages.into_iter()
            invariant
                it.seq() == given,
                events.len() == it.index(),
                forall|i: int|
                    0 <= i < it.index() ==> (#[trigger] events@[i])@ == EventView::External(
                        given[i]@,
                    ),
        {
            events.push(Event::External { message });
        }
        assert(event_views(events@) =~= arrivals(given));
        self.run(events)
    }
}

} // verus!

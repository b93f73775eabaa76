//! A cluster of nodes that gossip in rounds, and why every value reaches
//! every node that a path of links leads to.
//!
//! In a round every node runs one round of gossip, and every gossip message
//! sent reaches the node it is addressed to before the next round begins.

use crate::messages::{EventView, MessageView, PayloadView};
use crate::protocol::{
    gossip_plan, initial, lemma_plan_members, others, pending, run, step, Fault, NodeView,
    Outbound, Outcome, Phase, Trace,
};
use vstd::prelude::*;

verus! {

/// The nodes of a cluster, each under its id.
pub type Cluster = Map<Seq<char>, NodeView>;

/// The nodes that `node` of the cluster gossips to.
pub open spec fn neighbors(cluster: Cluster, node: Seq<char>) -> Seq<Seq<char>> {
    cluster[node].topology[node]
}

/// Whether `from` is a node of the cluster that gossips to `to`.
pub open spec fn linked(cluster: Cluster, from: Seq<char>, to: Seq<char>) -> bool {
    cluster.contains_key(from) && neighbors(cluster, from).contains(to)
}

/// A cluster in working order: every node is past its handshake and knows
/// its own id and its own neighbours; where one node gossips to another,
/// both are nodes of the cluster and each holds an entry for the other; and
/// what a node takes a peer to possess, that peer does possess.
pub open spec fn settled(cluster: Cluster) -> bool {
    &&& forall|node: Seq<char>| #[trigger]
        cluster.contains_key(node) ==> {
            &&& cluster[node].phase == Phase::Initialized
            &&& cluster[node].node_id == node
            &&& cluster[node].topology.contains_key(node)
        }
    &&& forall|from: Seq<char>, to: Seq<char>| #[trigger]
        linked(cluster, from, to) ==> {
            &&& cluster.contains_key(to)
            &&& cluster[from].known.contains_key(to)
            &&& cluster[to].known.contains_key(from)
        }
    &&& forall|node: Seq<char>, peer: Seq<char>|
        cluster.contains_key(node) && cluster.contains_key(peer)
            && #[trigger] cluster[node].known.contains_key(peer) ==> cluster[node].known[peer].subset_of(
            cluster[peer].broadcast,
        )
}

/// A handshake request that tells a node that it is `node_id` among `node_ids`.
pub open spec fn handshake_request(node_id: Seq<char>, node_ids: Seq<Seq<char>>) -> EventView {
    EventView::External(
        MessageView {
            src: Seq::empty(),
            dst: node_id,
            msg_id: None,
            in_reply_to: None,
            payload: PayloadView::Init { node_id, node_ids },
        },
    )
}

/// The cluster of the nodes `node_ids`, each fresh from its handshake.
pub open spec fn fresh_cluster(node_ids: Seq<Seq<char>>) -> Cluster {
    Map::new(
        |node: Seq<char>| node_ids.contains(node),
        |node: Seq<char>| step(initial(), handshake_request(node, node_ids))->Ok_0.node,
    )
}

/// A cluster fresh from its handshakes is in working order, and every node
/// of it gossips to every other.
pub proof fn lemma_fresh_cluster_is_settled(node_ids: Seq<Seq<char>>)
    ensures
        settled(fresh_cluster(node_ids)),
        forall|from: Seq<char>, to: Seq<char>|
            node_ids.contains(from) && node_ids.contains(to) && from != to ==> #[trigger] linked(
                fresh_cluster(node_ids),
                from,
                to,
            ),
{
    let cluster = fresh_cluster(node_ids);
    assert forall|from: Seq<char>, to: Seq<char>| #[trigger] linked(cluster, from, to) implies {
        &&& cluster.contains_key(to)
        &&& cluster[from].known.contains_key(to)
        &&& cluster[to].known.contains_key(from)
    } by {
        let other = |id: Seq<char>| id != from;
        let rest = others(node_ids, from);
        assert(neighbors(cluster, from) == rest);
        let at = rest.index_of(to);
        node_ids.lemma_filter_pred(other, at);
        node_ids.lemma_filter_contains_rev(other, to);
    }
    assert forall|from: Seq<char>, to: Seq<char>|
        node_ids.contains(from) && node_ids.contains(to) && from != to implies #[trigger] linked(
        cluster,
        from,
        to,
    ) by {
        let other = |id: Seq<char>| id != from;
        let at = node_ids.index_of(to);
        node_ids.lemma_filter_contains(other, at);
        assert(neighbors(cluster, from) == others(node_ids, from));
    }
}

/// The values that the gossip of `from` brings to `to` in one round.
pub open spec fn arriving(cluster: Cluster, from: Seq<char>, to: Seq<char>) -> Set<i32> {
    if linked(cluster, from, to) {
        pending(cluster[from], to)
    } else {
        Set::empty()
    }
}

/// The values that the gossip of all nodes brings to `to` in one round.
pub open spec fn heard(cluster: Cluster, to: Seq<char>) -> Set<i32> {
    Set::new(|value: i32| exists|from: Seq<char>| arriving(cluster, from, to).contains(value))
}

/// The node `node` of the cluster after one round: it has sent its gossip,
/// and it has taken in the gossip of every node that gossips to it.
pub open spec fn node_after_round(cluster: Cluster, node: Seq<char>) -> NodeView {
    NodeView {
        broadcast: cluster[node].broadcast.union(heard(cluster, node)),
        known: Map::new(
            |peer: Seq<char>| cluster[node].known.contains_key(peer),
            |peer: Seq<char>| cluster[node].known[peer].union(arriving(cluster, peer, node)),
        ),
        next_msg_id: cluster[node].next_msg_id + gossip_plan(
            cluster[node],
            neighbors(cluster, node),
        ).len(),
        ..cluster[node]
    }
}

/// The cluster after one round.
pub open spec fn after_round(cluster: Cluster) -> Cluster {
    Map::new(
        |node: Seq<char>| cluster.contains_key(node),
        |node: Seq<char>| node_after_round(cluster, node),
    )
}

/// The cluster after `count` rounds.
pub open spec fn after_rounds(cluster: Cluster, count: nat) -> Cluster
    decreases count,
{
    if count == 0 {
        cluster
    } else {
        after_round(after_rounds(cluster, (count - 1) as nat))
    }
}

/// Whether `path` names nodes of which each gossips to the next.
pub open spec fn is_path(cluster: Cluster, path: Seq<Seq<char>>) -> bool {
    &&& path.len() > 0
    &&& cluster.contains_key(path[0])
    &&& forall|i: int| 0 <= i < path.len() - 1 ==> linked(cluster, #[trigger] path[i], path[i + 1])
}

/// A round changes neither the nodes of a cluster nor who gossips to whom.
pub proof fn lemma_round_keeps_links(cluster: Cluster)
    ensures
        forall|node: Seq<char>|
            cluster.contains_key(node) <==> #[trigger] after_round(cluster).contains_key(node),
        forall|from: Seq<char>, to: Seq<char>|
            linked(cluster, from, to) <==> #[trigger] linked(after_round(cluster), from, to),
{
}

/// A round takes no value from any node.
pub proof fn lemma_round_keeps_values(cluster: Cluster, node: Seq<char>)
    requires
        cluster.contains_key(node),
    ensures
        cluster[node].broadcast.subset_of(after_round(cluster)[node].broadcast),
{
}

/// A cluster in working order is in working order after a round.
pub proof fn lemma_round_keeps_settled(cluster: Cluster)
    requires
        settled(cluster),
    ensures
        settled(after_round(cluster)),
{
    let after = after_round(cluster);
    lemma_round_keeps_links(cluster);
    assert forall|from: Seq<char>, to: Seq<char>| #[trigger] linked(after, from, to) implies {
        &&& after.contains_key(to)
        &&& after[from].known.contains_key(to)
        &&& after[to].known.contains_key(from)
    } by {
        assert(linked(cluster, from, to));
    }
    assert forall|node: Seq<char>, peer: Seq<char>|
        after.contains_key(node) && after.contains_key(peer)
            && #[trigger] after[node].known.contains_key(peer) implies after[node].known[peer].subset_of(
        after[peer].broadcast,
    ) by {
        assert(cluster[node].known.contains_key(peer));
        lemma_round_keeps_values(cluster, peer);
    }
}

/// Gossip makes one hop in a round: where one node gossips to another, the
/// other has, after the round, every value that the first had before it.
pub proof fn lemma_round_hop(cluster: Cluster, from: Seq<char>, to: Seq<char>)
    requires
        settled(cluster),
        linked(cluster, from, to),
    ensures
        cluster[from].broadcast.subset_of(after_round(cluster)[to].broadcast),
{
    let after = after_round(cluster)[to].broadcast;
    assert forall|value: i32| cluster[from].broadcast.contains(value) implies after.contains(
        value,
    ) by {
        if cluster[from].known[to].contains(value) {
            assert(cluster[from].known.contains_key(to));
            assert(cluster[to].broadcast.contains(value));
        } else {
            assert(arriving(cluster, from, to).contains(value));
            assert(heard(cluster, to).contains(value));
        }
    }
}

/// Rounds change neither the nodes of a cluster nor who gossips to whom,
/// keep a cluster in working order, and take no value from any node.
pub proof fn lemma_rounds_keep(cluster: Cluster, count: nat)
    requires
        settled(cluster),
    ensures
        settled(after_rounds(cluster, count)),
        forall|node: Seq<char>|
            cluster.contains_key(node) <==> #[trigger] after_rounds(cluster, count).contains_key(
                node,
            ),
        forall|from: Seq<char>, to: Seq<char>|
            linked(cluster, from, to) <==> #[trigger] linked(
                after_rounds(cluster, count),
                from,
                to,
            ),
        forall|node: Seq<char>| #[trigger]
            cluster.contains_key(node) ==> cluster[node].broadcast.subset_of(
                after_rounds(cluster, count)[node].broadcast,
            ),
    decreases count,
{
    if count > 0 {
        let before = after_rounds(cluster, (count - 1) as nat);
        lemma_rounds_keep(cluster, (count - 1) as nat);
        lemma_round_keeps_settled(before);
        lemma_round_keeps_links(before);
        assert forall|node: Seq<char>| #[trigger] cluster.contains_key(node) implies cluster[node].broadcast.subset_of(
        after_rounds(cluster, count)[node].broadcast) by {
            assert(before.contains_key(node));
            lemma_round_keeps_values(before, node);
        }
        assert forall|from: Seq<char>, to: Seq<char>|
            linked(cluster, from, to) <==> #[trigger] linked(
                after_rounds(cluster, count),
                from,
                to,
            ) by {
            assert(linked(cluster, from, to) <==> linked(before, from, to));
            assert(linked(before, from, to) <==> linked(after_round(before), from, to));
        }
    }
}

/// Gossip converges: in a cluster in working order, a value that a node has
/// is, after as many rounds as a path of links from that node to another
/// has links, or after more, a value of that other node.
pub proof fn lemma_gossip_converges(
    cluster: Cluster,
    path: Seq<Seq<char>>,
    value: i32,
    count: nat,
)
    requires
        settled(cluster),
        is_path(cluster, path),
        cluster[path[0]].broadcast.contains(value),
        count >= path.len() - 1,
    ensures
        after_rounds(cluster, count).contains_key(path.last()),
        after_rounds(cluster, count)[path.last()].broadcast.contains(value),
    decreases path.len(),
{
    lemma_rounds_keep(cluster, count);
    if path.len() == 1 {
        assert(path.last() == path[0]);
    } else {
        let shorter = path.drop_last();
        let before = after_rounds(cluster, (count - 1) as nat);
        let from = shorter.last();
        let to = path.last();
        assert forall|i: int| 0 <= i < shorter.len() - 1 implies linked(
            cluster,
            #[trigger] shorter[i],
            shorter[i + 1],
        ) by {
            assert(shorter[i] == path[i]);
            assert(shorter[i + 1] == path[i + 1]);
        }
        assert(shorter[0] == path[0]);
        lemma_gossip_converges(cluster, shorter, value, (count - 1) as nat);
        lemma_rounds_keep(cluster, (count - 1) as nat);
        assert(from == path[path.len() - 2]);
        assert(linked(cluster, path[path.len() - 2], path[path.len() - 2 + 1]));
        assert(linked(before, from, to));
        lemma_round_hop(before, from, to);
    }
}

/// A broadcast request leaves a cluster in working order as it is, but for
/// the node that takes it: that node has the value afterwards.
pub proof fn lemma_broadcast_keeps_settled(
    cluster: Cluster,
    node: Seq<char>,
    request: MessageView<PayloadView>,
)
    requires
        settled(cluster),
        cluster.contains_key(node),
        request.payload is Broadcast,
        step(cluster[node], EventView::External(request)) is Ok,
    ensures
        settled(cluster.insert(node, step(cluster[node], EventView::External(request))->Ok_0.node)),
        forall|from: Seq<char>, to: Seq<char>|
            linked(cluster, from, to) <==> #[trigger] linked(
                cluster.insert(
                    node,
                    step(cluster[node], EventView::External(request))->Ok_0.node,
                ),
                from,
                to,
            ),
        step(cluster[node], EventView::External(request))->Ok_0.node.broadcast.contains(
            request.payload->Broadcast_value,
        ),
{
    let after = cluster.insert(node, step(cluster[node], EventView::External(request))->Ok_0.node);
    assert forall|from: Seq<char>, to: Seq<char>|
        linked(cluster, from, to) <==> #[trigger] linked(after, from, to) by {
        assert(cluster.contains_key(from) <==> after.contains_key(from));
        if cluster.contains_key(from) {
            assert(neighbors(cluster, from) == neighbors(after, from));
        }
    }
    assert forall|from: Seq<char>, to: Seq<char>| #[trigger] linked(after, from, to) implies {
        &&& after.contains_key(to)
        &&& after[from].known.contains_key(to)
        &&& after[to].known.contains_key(from)
    } by {
        assert(linked(cluster, from, to));
    }
    assert forall|one: Seq<char>, peer: Seq<char>|
        after.contains_key(one) && after.contains_key(peer)
            && #[trigger] after[one].known.contains_key(peer) implies after[one].known[peer].subset_of(
        after[peer].broadcast,
    ) by {
        assert(cluster[one].known.contains_key(peer));
    }
}

/// A value that a client hands to one node of a cluster in working order
/// is, after as many rounds as a path of links from that node to another
/// has links, or after more, a value of that other node.
pub proof fn lemma_broadcast_reaches(
    cluster: Cluster,
    request: MessageView<PayloadView>,
    path: Seq<Seq<char>>,
    count: nat,
)
    requires
        settled(cluster),
        is_path(cluster, path),
        request.payload is Broadcast,
        step(cluster[path[0]], EventView::External(request)) is Ok,
        count >= path.len() - 1,
    ensures
        after_rounds(
            cluster.insert(
                path[0],
                step(cluster[path[0]], EventView::External(request))->Ok_0.node,
            ),
            count,
        )[path.last()].broadcast.contains(request.payload->Broadcast_value),
{
    let after = cluster.insert(
        path[0],
        step(cluster[path[0]], EventView::External(request))->Ok_0.node,
    );
    lemma_broadcast_keeps_settled(cluster, path[0], request);
    assert forall|i: int| 0 <= i < path.len() - 1 implies linked(
        after,
        #[trigger] path[i],
        path[i + 1],
    ) by {
        assert(linked(cluster, path[i], path[i + 1]));
    }
    lemma_gossip_converges(after, path, request.payload->Broadcast_value, count);
}

/// Whether `event` is a gossip message that brings `to` the values that the
/// gossip of `from` brings it in one round.
pub open spec fn is_gossip_of(
    cluster: Cluster,
    from: Seq<char>,
    to: Seq<char>,
    event: EventView,
) -> bool {
    &&& event matches EventView::External(message)
    &&& message.src == from
    &&& message.payload matches PayloadView::Gossip { messages }
    &&& messages.to_set() == arriving(cluster, from, to)
}

/// The node `node` of the cluster after it has sent its gossip of one round
/// and has taken in the gossip of `senders`.
pub open spec fn node_after_gossip_of(
    cluster: Cluster,
    node: Seq<char>,
    senders: Set<Seq<char>>,
) -> NodeView {
    NodeView {
        broadcast: cluster[node].broadcast.union(
            Set::new(
                |value: i32|
                    exists|from: Seq<char>|
                        senders.contains(from) && arriving(cluster, from, node).contains(value),
            ),
        ),
        known: Map::new(
            |peer: Seq<char>| cluster[node].known.contains_key(peer),
            |peer: Seq<char>|
                if senders.contains(peer) {
                    cluster[node].known[peer].union(arriving(cluster, peer, node))
                } else {
                    cluster[node].known[peer]
                },
        ),
        next_msg_id: cluster[node].next_msg_id + gossip_plan(
            cluster[node],
            neighbors(cluster, node),
        ).len(),
        ..cluster[node]
    }
}

/// A run that has come to its end without a fault goes on with one more
/// event as the node it has reached takes that event.
pub proof fn lemma_run_push(node: NodeView, events: Seq<EventView>, event: EventView)
    requires
        run(node, events).fault is None,
        forall|i: int| 0 <= i < events.len() ==> !(#[trigger] events[i] is Eof),
    ensures
        run(node, events.push(event)) == match step(run(node, events).node, event) {
            Ok(outcome) => Trace {
                node: outcome.node,
                sent: run(node, events).sent + outcome.sent,
                fault: None,
            },
            Err(fault) => Trace {
                node: run(node, events).node,
                sent: run(node, events).sent,
                fault: Some(fault),
            },
        },
    decreases events.len(),
{
    let longer = events.push(event);
    let nothing = Seq::<EventView>::empty();
    if events.len() == 0 {
        assert(events =~= nothing);
        assert(longer[0] == event);
        assert(longer.drop_first() =~= nothing);
        assert(run(node, nothing) == (Trace { node, sent: Seq::empty(), fault: None }));
        match step(node, event) {
            Ok(outcome) => {
                assert(run(outcome.node, nothing) == (Trace {
                    node: outcome.node,
                    sent: Seq::empty(),
                    fault: None,
                }));
                assert(Seq::<Outbound>::empty() + outcome.sent =~= outcome.sent);
                assert(outcome.sent + Seq::<Outbound>::empty() =~= outcome.sent);
            },
            Err(fault) => {},
        }
    } else {
        assert(longer[0] == events[0]);
        assert(longer.drop_first() =~= events.drop_first().push(event));
        assert(!(events[0] is Eof));
        assert(step(node, events[0]) is Ok);
        let first = step(node, events[0])->Ok_0;
        let rest = events.drop_first();
        let middle = run(first.node, rest);
        assert(run(node, events) == (Trace {
            node: middle.node,
            sent: first.sent + middle.sent,
            fault: middle.fault,
        }));
        assert forall|i: int| 0 <= i < rest.len() implies !(#[trigger] rest[i] is Eof) by {
            assert(rest[i] == events[i + 1]);
        }
        lemma_run_push(first.node, rest, event);
        let last = run(first.node, rest.push(event));
        assert(run(node, longer) == (Trace {
            node: last.node,
            sent: first.sent + last.sent,
            fault: last.fault,
        }));
        match step(middle.node, event) {
            Ok(outcome) => {
                assert(first.sent + (middle.sent + outcome.sent) =~= (first.sent + middle.sent)
                    + outcome.sent);
            },
            Err(fault) => {},
        }
    }
}

/// A node of a cluster in working order that runs one round of gossip sends
/// the messages of its gossip plan, unless its message counter runs out.
pub proof fn lemma_tick_sends_plan(cluster: Cluster, node: Seq<char>)
    requires
        settled(cluster),
        cluster.contains_key(node),
        cluster[node].next_msg_id + gossip_plan(cluster[node], neighbors(cluster, node)).len()
            <= usize::MAX,
    ensures
        step(cluster[node], EventView::Tick) == Ok::<Outcome, Fault>(
            Outcome {
                node: node_after_gossip_of(cluster, node, Set::empty()),
                sent: gossip_plan(cluster[node], neighbors(cluster, node)),
            },
        ),
{
    let state = cluster[node];
    let list = neighbors(cluster, node);
    let plan = gossip_plan(state, list);
    let after = node_after_gossip_of(cluster, node, Set::empty());
    assert(after.broadcast =~= state.broadcast);
    assert(after.known =~= state.known);
    if state.broadcast.is_empty() {
        if plan.len() > 0 {
            lemma_plan_members(state, list, 0);
            let peer = plan[0].dst;
            assert(pending(state, peer) =~= Set::<i32>::empty());
        }
        assert(plan =~= Seq::<Outbound>::empty());
    } else {
        assert forall|i: int| 0 <= i < list.len() implies state.known.contains_key(list[i]) by {
            assert(linked(cluster, node, list[i]));
        }
    }
}

/// A round is a run: a node of a cluster in working order that takes a tick
/// and then, one after the other, the gossip messages that the round brings
/// it, has sent the messages of its gossip plan and is the node that the
/// round makes of it, unless its message counter runs out.
///
/// The gossip messages are those of `senders`, which holds at least every
/// node whose gossip brings a value; each lists, in any order, what the
/// gossip of its sender brings.
pub proof fn lemma_round_is_a_run(
    cluster: Cluster,
    node: Seq<char>,
    senders: Seq<Seq<char>>,
    events: Seq<EventView>,
)
    requires
        settled(cluster),
        cluster.contains_key(node),
        cluster[node].next_msg_id + gossip_plan(cluster[node], neighbors(cluster, node)).len()
            <= usize::MAX,
        forall|i: int| 0 <= i < senders.len() ==> linked(cluster, #[trigger] senders[i], node),
        forall|from: Seq<char>|
            !(#[trigger] arriving(cluster, from, node)).is_empty() ==> senders.contains(from),
        events.len() == senders.len() + 1,
        events[0] is Tick,
        forall|i: int|
            0 <= i < senders.len() ==> is_gossip_of(
                cluster,
                senders[i],
                node,
                #[trigger] events[i + 1],
            ),
    ensures
        run(cluster[node], events) == (Trace {
            node: node_after_round(cluster, node),
            sent: gossip_plan(cluster[node], neighbors(cluster, node)),
            fault: None,
        }),
{
    lemma_round_prefix_is_a_run(cluster, node, senders, events, senders.len());
    assert(events.take(events.len() as int) == events);
    assert(senders.take(senders.len() as int) == senders);
    let full = node_after_gossip_of(cluster, node, senders.to_set());
    let after = node_after_round(cluster, node);
    assert forall|value: i32| after.broadcast.contains(value) implies full.broadcast.contains(
        value,
    ) by {
        if !cluster[node].broadcast.contains(value) {
            assert(heard(cluster, node).contains(value));
            let from = choose|from: Seq<char>| arriving(cluster, from, node).contains(value);
            assert(!(arriving(cluster, from, node) =~= Set::<i32>::empty()));
            assert(senders.contains(from));
            assert(senders.to_set().contains(from) && arriving(cluster, from, node).contains(
                value,
            ));
        }
    }
    assert forall|value: i32| full.broadcast.contains(value) implies after.broadcast.contains(
        value,
    ) by {
        if !cluster[node].broadcast.contains(value) {
            let from = choose|from: Seq<char>|
                senders.to_set().contains(from) && arriving(cluster, from, node).contains(
                    value,
                );
            assert(arriving(cluster, from, node).contains(value));
            assert(heard(cluster, node).contains(value));
        }
    }
    assert(full.broadcast =~= after.broadcast);
    assert forall|peer: Seq<char>| full.known.contains_key(peer) implies full.known[peer]
        == after.known[peer] by {
        if !senders.to_set().contains(peer) {
            assert(!senders.contains(peer));
            assert(arriving(cluster, peer, node).is_empty());
            assert(cluster[node].known[peer].union(arriving(cluster, peer, node))
                =~= cluster[node].known[peer]);
        }
    }
    assert(full.known =~= after.known);
}

/// A round up to some point is a run: the node that takes a tick and then
/// the gossip messages of the first `count` of `senders`.
proof fn lemma_round_prefix_is_a_run(
    cluster: Cluster,
    node: Seq<char>,
    senders: Seq<Seq<char>>,
    events: Seq<EventView>,
    count: nat,
)
    requires
        settled(cluster),
        cluster.contains_key(node),
        cluster[node].next_msg_id + gossip_plan(cluster[node], neighbors(cluster, node)).len()
            <= usize::MAX,
        forall|i: int| 0 <= i < senders.len() ==> linked(cluster, #[trigger] senders[i], node),
        events.len() == senders.len() + 1,
        events[0] is Tick,
        forall|i: int|
            0 <= i < senders.len() ==> is_gossip_of(
                cluster,
                senders[i],
                node,
                #[trigger] events[i + 1],
            ),
        count <= senders.len(),
    ensures
        run(cluster[node], events.take(count as int + 1)) == (Trace {
            node: node_after_gossip_of(cluster, node, senders.take(count as int).to_set()),
            sent: gossip_plan(cluster[node], neighbors(cluster, node)),
            fault: None,
        }),
    decreases count,
{
    let plan = gossip_plan(cluster[node], neighbors(cluster, node));
    if count == 0 {
        lemma_tick_sends_plan(cluster, node);
        let only = events.take(1);
        assert(only[0] == events[0]);
        assert(only.drop_first() =~= Seq::<EventView>::empty());
        assert(senders.take(0).to_set() =~= Set::<Seq<char>>::empty());
        assert(plan + Seq::<Outbound>::empty() =~= plan);
        let ticked = node_after_gossip_of(cluster, node, Set::empty());
        assert(run(ticked, Seq::<EventView>::empty()) == (Trace {
            node: ticked,
            sent: Seq::empty(),
            fault: None,
        }));
    } else {
        let earlier = events.take(count as int);
        let event = events[count as int];
        let from = senders[count - 1];
        let heard_of = senders.take(count - 1).to_set();
        let before = node_after_gossip_of(cluster, node, heard_of);
        lemma_round_prefix_is_a_run(cluster, node, senders, events, (count - 1) as nat);
        assert(events.take(count as int + 1) =~= earlier.push(event));
        assert forall|i: int| 0 <= i < earlier.len() implies !(#[trigger] earlier[i] is Eof) by {
            if i > 0 {
                assert(is_gossip_of(cluster, senders[i - 1], node, events[(i - 1) + 1]));
            }
        }
        lemma_run_push(cluster[node], earlier, event);
        assert(is_gossip_of(cluster, from, node, events[(count - 1) + 1]));
        assert(linked(cluster, from, node));
        assert(before.known.contains_key(from));
        let after = step(before, event)->Ok_0.node;
        let wanted = node_after_gossip_of(cluster, node, senders.take(count as int).to_set());
        assert(senders.take(count as int) =~= senders.take(count - 1).push(from));
        senders.take(count - 1).lemma_push_to_set_commute(from);
        assert(senders.take(count as int).to_set() == heard_of.insert(from));
        let brought = arriving(cluster, from, node);
        assert(step(before, event) is Ok);
        assert(after.broadcast == before.broadcast.union(brought));
        assert(after.known == before.known.insert(from, before.known[from].union(brought)));
        assert forall|value: i32| wanted.broadcast.contains(value) implies after.broadcast.contains(
            value,
        ) by {
            if !cluster[node].broadcast.contains(value) {
                let sender = choose|sender: Seq<char>|
                    heard_of.insert(from).contains(sender) && arriving(
                        cluster,
                        sender,
                        node,
                    ).contains(value);
                if sender != from {
                    assert(heard_of.contains(sender) && arriving(cluster, sender, node).contains(
                        value,
                    ));
                    assert(before.broadcast.contains(value));
                }
            }
        }
        assert forall|value: i32| after.broadcast.contains(value) implies wanted.broadcast.contains(
            value,
        ) by {
            if !cluster[node].broadcast.contains(value) {
                if brought.contains(value) {
                    assert(heard_of.insert(from).contains(from) && arriving(
                        cluster,
                        from,
                        node,
                    ).contains(value));
                } else {
                    assert(before.broadcast.contains(value));
                    let sender = choose|sender: Seq<char>|
                        heard_of.contains(sender) && arriving(cluster, sender, node).contains(
                            value,
                        );
                    assert(heard_of.insert(from).contains(sender) && arriving(
                        cluster,
                        sender,
                        node,
                    ).contains(value));
                }
            }
        }
        assert(after.broadcast =~= wanted.broadcast);
        assert forall|peer: Seq<char>| wanted.known.contains_key(peer) implies after.known[peer]
            =~= wanted.known[peer] by {}
        assert(after.known =~= wanted.known);
        assert(after == wanted);
        assert(step(before, event)->Ok_0.sent =~= Seq::<Outbound>::empty());
        assert(plan + Seq::<Outbound>::empty() =~= plan);
    }
}

} // verus!

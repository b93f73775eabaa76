use bedlam::messages::{Body, Event, ExternalPayload, Init, InternalPayload, Message};
use bedlam::node::Node;
use bedlam::protocol::Fault;
use bedlam::topology::Topology;

fn names(ids: &[&str]) -> Vec<String> {
    ids.iter().map(|id| id.to_string()).collect()
}

fn from(src: &str, msg_id: Option<usize>, payload: ExternalPayload) -> Event {
    Event::External {
        message: Message {
            src: src.to_string(),
            dst: "n1".to_string(),
            body: Body { msg_id, in_reply_to: None, payload },
        },
    }
}

fn tick() -> Event {
    Event::Internal { payload: InternalPayload::Timer }
}

fn started(node_id: &str, node_ids: &[&str]) -> Node {
    let init = ExternalPayload::Init(Init { node_id: node_id.to_string(), node_ids: names(node_ids) });
    let (node, _reply) = Node::new().initialize(from("c0", Some(1), init)).unwrap();
    node
}

fn topology(entries: &[(&str, &[&str])]) -> Topology {
    let mut topology = Topology::new();
    for (node, neighbors) in entries {
        topology.insert(node.to_string(), names(neighbors));
    }
    topology
}

fn broadcast(node: &mut Node, value: i32) {
    node.step(from("c1", Some(1), ExternalPayload::Broadcast { value })).unwrap();
}

fn sorted(mut values: Vec<i32>) -> Vec<i32> {
    values.sort();
    values
}

fn gossiped(message: &Message<ExternalPayload>) -> Vec<i32> {
    match &message.body.payload {
        ExternalPayload::Gossip { messages } => sorted(messages.clone()),
        other => panic!("expected gossip, got {:?}", other),
    }
}

#[test]
fn a_tick_without_values_sends_nothing() {
    let mut node = started("n1", &["n1", "n2", "n3"]);
    let sent = node.step(tick()).unwrap();
    assert!(sent.is_empty());
    assert_eq!(node.next_msg_id(), 1);
}

#[test]
fn a_tick_without_values_sends_nothing_even_without_a_topology_entry() {
    let mut node = started("n1", &["n1", "n2"]);
    node.step(from("c1", Some(2), ExternalPayload::Topology { topology: topology(&[]) })).unwrap();
    assert!(node.step(tick()).unwrap().is_empty());
}

#[test]
fn a_tick_sends_every_neighbour_what_it_lacks() {
    let mut node = started("n1", &["n1", "n2", "n3"]);
    broadcast(&mut node, 7);
    broadcast(&mut node, 3);
    let sent = node.step(tick()).unwrap();
    assert_eq!(sent.len(), 2);
    assert_eq!(sent[0].src, "n1");
    assert_eq!(sent[0].dst, "n2");
    assert_eq!(sent[0].body.msg_id, Some(3));
    assert_eq!(sent[0].body.in_reply_to, None);
    assert_eq!(gossiped(&sent[0]), vec![3, 7]);
    assert_eq!(sent[1].src, "n1");
    assert_eq!(sent[1].dst, "n3");
    assert_eq!(sent[1].body.msg_id, Some(4));
    assert_eq!(sent[1].body.in_reply_to, None);
    assert_eq!(gossiped(&sent[1]), vec![3, 7]);
    assert_eq!(node.next_msg_id(), 5);
}

#[test]
fn a_tick_follows_the_order_of_the_neighbour_list() {
    let mut node = started("n1", &["n1", "n2", "n3", "n4"]);
    let new = topology(&[("n1", &["n4", "n2", "n3"]), ("n2", &[]), ("n3", &[]), ("n4", &[])]);
    node.step(from("c1", Some(2), ExternalPayload::Topology { topology: new })).unwrap();
    broadcast(&mut node, 1);
    let sent = node.step(tick()).unwrap();
    let order: Vec<&str> = sent.iter().map(|message| message.dst.as_str()).collect();
    assert_eq!(order, vec!["n4", "n2", "n3"]);
}

#[test]
fn a_tick_sends_nothing_to_a_neighbour_that_lacks_nothing() {
    let mut node = started("n1", &["n1", "n2", "n3"]);
    broadcast(&mut node, 7);
    node.step(from("n2", None, ExternalPayload::Gossip { messages: vec![7] })).unwrap();
    let sent = node.step(tick()).unwrap();
    assert_eq!(sent.len(), 1);
    assert_eq!(sent[0].dst, "n3");
    assert_eq!(gossiped(&sent[0]), vec![7]);
    assert_eq!(sent[0].body.msg_id, Some(2));
    assert_eq!(node.next_msg_id(), 3);
}

#[test]
fn a_tick_leaves_out_what_the_neighbour_gossiped() {
    let mut node = started("n1", &["n1", "n2"]);
    broadcast(&mut node, 1);
    broadcast(&mut node, 2);
    node.step(from("n2", None, ExternalPayload::Gossip { messages: vec![2, 3] })).unwrap();
    let sent = node.step(tick()).unwrap();
    assert_eq!(sent.len(), 1);
    assert_eq!(gossiped(&sent[0]), vec![1]);
}

#[test]
fn what_one_neighbour_gossiped_goes_on_to_the_others() {
    let mut node = started("n1", &["n1", "n2", "n3"]);
    node.step(from("n2", None, ExternalPayload::Gossip { messages: vec![4, 5] })).unwrap();
    let sent = node.step(tick()).unwrap();
    assert_eq!(sent.len(), 1);
    assert_eq!(sent[0].dst, "n3");
    assert_eq!(gossiped(&sent[0]), vec![4, 5]);
}

#[test]
fn a_tick_repeats_what_was_not_confirmed() {
    let mut node = started("n1", &["n1", "n2"]);
    broadcast(&mut node, 5);
    let first = node.step(tick()).unwrap();
    let second = node.step(tick()).unwrap();
    assert_eq!(first.len(), 1);
    assert_eq!(second.len(), 1);
    assert_eq!(gossiped(&first[0]), vec![5]);
    assert_eq!(gossiped(&second[0]), vec![5]);
    assert_eq!(first[0].body.msg_id, Some(2));
    assert_eq!(second[0].body.msg_id, Some(3));
    assert!(node.known_ids().get(&"n2".to_string()).unwrap().is_empty());
}

#[test]
fn a_tick_lists_no_value_twice() {
    let mut node = started("n1", &["n1", "n2"]);
    for value in [1, 2, 3, 2, 1, 3, 3] {
        broadcast(&mut node, value);
    }
    node.step(from("n2", None, ExternalPayload::Gossip { messages: vec![] })).unwrap();
    let sent = node.step(tick()).unwrap();
    match &sent[0].body.payload {
        ExternalPayload::Gossip { messages } => {
            assert_eq!(messages.len(), 3);
            assert_eq!(sorted(messages.clone()), vec![1, 2, 3]);
        }
        other => panic!("expected gossip, got {:?}", other),
    }
}

#[test]
fn a_neighbour_listed_twice_is_sent_to_twice() {
    let mut node = started("n1", &["n1", "n2"]);
    let new = topology(&[("n1", &["n2", "n2"]), ("n2", &[])]);
    node.step(from("c1", Some(2), ExternalPayload::Topology { topology: new })).unwrap();
    broadcast(&mut node, 1);
    let sent = node.step(tick()).unwrap();
    assert_eq!(sent.len(), 2);
    assert_eq!(sent[0].dst, "n2");
    assert_eq!(sent[1].dst, "n2");
    assert_eq!(sent[0].body.msg_id, Some(3));
    assert_eq!(sent[1].body.msg_id, Some(4));
}

#[test]
fn a_tick_without_a_topology_entry_for_self_is_a_fault() {
    let mut node = started("n1", &["n1", "n2"]);
    broadcast(&mut node, 1);
    let new = topology(&[("n2", &["n1"])]);
    node.step(from("c1", Some(2), ExternalPayload::Topology { topology: new })).unwrap();
    assert_eq!(node.step(tick()).unwrap_err(), Fault::NoTopologyEntry);
    assert_eq!(node.next_msg_id(), 3);
}

#[test]
fn a_tick_to_a_neighbour_without_an_entry_is_a_fault() {
    let mut node = started("n1", &["n1", "n2"]);
    broadcast(&mut node, 1);
    let new = topology(&[("n1", &["n2", "n3"]), ("n2", &["n1"])]);
    node.step(from("c1", Some(2), ExternalPayload::Topology { topology: new })).unwrap();
    assert_eq!(node.step(tick()).unwrap_err(), Fault::UnknownPeer);
    assert_eq!(node.next_msg_id(), 3);
}

#[test]
fn a_tick_to_oneself_is_a_fault() {
    let mut node = started("n1", &["n1", "n2"]);
    broadcast(&mut node, 1);
    let new = topology(&[("n1", &["n1"]), ("n2", &["n1"])]);
    node.step(from("c1", Some(2), ExternalPayload::Topology { topology: new })).unwrap();
    assert_eq!(node.step(tick()).unwrap_err(), Fault::UnknownPeer);
}

#[test]
fn a_node_without_neighbours_gossips_to_nobody() {
    let mut node = started("n1", &["n1"]);
    broadcast(&mut node, 1);
    assert!(node.step(tick()).unwrap().is_empty());
}

#[test]
fn a_new_topology_makes_the_node_send_everything_again() {
    let mut node = started("n1", &["n1", "n2"]);
    broadcast(&mut node, 1);
    node.step(from("n2", None, ExternalPayload::Gossip { messages: vec![1, 2] })).unwrap();
    assert!(node.step(tick()).unwrap().is_empty());
    let same = topology(&[("n1", &["n2"]), ("n2", &["n1"])]);
    node.step(from("c1", Some(2), ExternalPayload::Topology { topology: same })).unwrap();
    let sent = node.step(tick()).unwrap();
    assert_eq!(sent.len(), 1);
    assert_eq!(sent[0].dst, "n2");
    assert_eq!(gossiped(&sent[0]), vec![1, 2]);
}

fn deliver(cluster: &mut Vec<Node>, sent: Vec<Message<ExternalPayload>>) {
    for message in sent {
        let at = cluster.iter().position(|node| *node.node_id() == message.dst).unwrap();
        let replies = cluster[at].step(Event::External { message }).unwrap();
        assert!(replies.is_empty());
    }
}

fn round(cluster: &mut Vec<Node>) {
    let mut sent = Vec::new();
    for node in cluster.iter_mut() {
        sent.extend(node.step(tick()).unwrap());
    }
    deliver(cluster, sent);
}

fn values(node: &mut Node) -> Vec<i32> {
    let sent = node.step(from("c1", Some(9), ExternalPayload::Read)).unwrap();
    match &sent[0].body.payload {
        ExternalPayload::ReadOk { messages } => sorted(messages.clone()),
        other => panic!("expected read_ok, got {:?}", other),
    }
}

#[test]
fn a_value_travels_one_hop_per_round_along_a_line() {
    let ids = ["n1", "n2", "n3", "n4"];
    let mut cluster: Vec<Node> = ids.iter().map(|id| started(id, &ids)).collect();
    for node in cluster.iter_mut() {
        let line = topology(&[("n1", &["n2"]), ("n2", &["n1", "n3"]), ("n3", &["n2", "n4"]), ("n4", &["n3"])]);
        node.step(from("c1", Some(2), ExternalPayload::Topology { topology: line })).unwrap();
    }
    broadcast(&mut cluster[0], 42);
    round(&mut cluster);
    assert_eq!(values(&mut cluster[1]), vec![42]);
    assert_eq!(values(&mut cluster[2]), Vec::<i32>::new());
    round(&mut cluster);
    assert_eq!(values(&mut cluster[2]), vec![42]);
    assert_eq!(values(&mut cluster[3]), Vec::<i32>::new());
    round(&mut cluster);
    for node in cluster.iter_mut() {
        assert_eq!(values(node), vec![42]);
    }
}

#[test]
fn a_full_cluster_agrees_after_one_round() {
    let ids = ["n1", "n2", "n3"];
    let mut cluster: Vec<Node> = ids.iter().map(|id| started(id, &ids)).collect();
    broadcast(&mut cluster[0], 1);
    broadcast(&mut cluster[1], 2);
    broadcast(&mut cluster[2], 3);
    round(&mut cluster);
    for node in cluster.iter_mut() {
        assert_eq!(values(node), vec![1, 2, 3]);
    }
}

#[test]
fn only_the_origin_of_a_value_keeps_repeating_it() {
    let ids = ["n1", "n2", "n3"];
    let mut cluster: Vec<Node> = ids.iter().map(|id| started(id, &ids)).collect();
    broadcast(&mut cluster[0], 1);
    round(&mut cluster);
    round(&mut cluster);
    let repeated = cluster[0].step(tick()).unwrap();
    assert_eq!(repeated.len(), 2);
    assert_eq!(gossiped(&repeated[0]), vec![1]);
    assert_eq!(gossiped(&repeated[1]), vec![1]);
    assert!(cluster[1].step(tick()).unwrap().is_empty());
    assert!(cluster[2].step(tick()).unwrap().is_empty());
}

#[test]
fn values_pass_a_ring_in_both_directions() {
    let ids = ["a", "b", "c", "d", "e"];
    let mut cluster: Vec<Node> = ids.iter().map(|id| started(id, &ids)).collect();
    for node in cluster.iter_mut() {
        let ring = topology(&[
            ("a", &["b", "e"]),
            ("b", &["c", "a"]),
            ("c", &["d", "b"]),
            ("d", &["e", "c"]),
            ("e", &["a", "d"]),
        ]);
        node.step(from("c1", Some(2), ExternalPayload::Topology { topology: ring })).unwrap();
    }
    broadcast(&mut cluster[0], 10);
    broadcast(&mut cluster[2], 30);
    round(&mut cluster);
    round(&mut cluster);
    for node in cluster.iter_mut() {
        assert_eq!(values(node), vec![10, 30]);
    }
}

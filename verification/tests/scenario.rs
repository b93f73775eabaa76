use bedlam::messages::{Body, Event, ExternalPayload, Init, InternalPayload, Message};
use bedlam::node::Node;
use bedlam::topology::Topology;

fn names(ids: &[&str]) -> Vec<String> {
    ids.iter().map(|id| id.to_string()).collect()
}

fn from(src: &str, msg_id: Option<usize>, payload: ExternalPayload) -> Event {
    Event::External {
        message: Message {
            src: src.to_string(),
            dst: "n1".to_string(),
            body: Body { msg_id, in_reply_to: None, payload },
        },
    }
}

fn tick() -> Event {
    Event::Internal { payload: InternalPayload::Timer }
}

fn started(node_id: &str, node_ids: &[&str]) -> Node {
    let init = ExternalPayload::Init(Init { node_id: node_id.to_string(), node_ids: names(node_ids) });
    let (node, _reply) = Node::new().initialize(from("c0", Some(1), init)).unwrap();
    node
}

fn sorted(mut values: Vec<i32>) -> Vec<i32> {
    values.sort();
    values
}

fn read(node: &mut Node) -> Vec<i32> {
    let sent = node.step(from("c1", Some(99), ExternalPayload::Read)).unwrap();
    match &sent[0].body.payload {
        ExternalPayload::ReadOk { messages } => messages.clone(),
        other => panic!("expected read_ok, got {:?}", other),
    }
}

#[test]
fn handshake_broadcast_read_and_gossip() {
    let mut node = Node::new();

    let init = ExternalPayload::Init(Init { node_id: "n1".to_string(), node_ids: names(&["n1", "n2"]) });
    let sent = node.step(from("c1", Some(21), init)).unwrap();
    assert_eq!(sent.len(), 1);
    assert!(matches!(sent[0].body.payload, ExternalPayload::InitOk));
    assert_eq!(sent[0].body.in_reply_to, Some(21));
    assert_eq!(sent[0].dst, "c1");

    let sent = node.step(from("c2", Some(22), ExternalPayload::Broadcast { value: 5 })).unwrap();
    assert_eq!(sent.len(), 1);
    assert!(matches!(sent[0].body.payload, ExternalPayload::BroadcastOk));
    assert_eq!(sent[0].body.in_reply_to, Some(22));
    assert_eq!(sent[0].dst, "c2");

    let sent = node.step(from("c2", Some(23), ExternalPayload::Read)).unwrap();
    assert_eq!(sent.len(), 1);
    assert!(matches!(&sent[0].body.payload, ExternalPayload::ReadOk { messages } if messages == &vec![5]));
    assert_eq!(sent[0].body.in_reply_to, Some(23));

    assert!(node.known_ids().get(&"n2".to_string()).unwrap().is_empty());
    let sent = node.step(tick()).unwrap();
    assert_eq!(sent.len(), 1);
    assert_eq!(sent[0].src, "n1");
    assert_eq!(sent[0].dst, "n2");
    assert_eq!(sent[0].body.in_reply_to, None);
    assert!(matches!(&sent[0].body.payload, ExternalPayload::Gossip { messages } if messages == &vec![5]));

    let sent = node.step(tick()).unwrap();
    assert_eq!(sent.len(), 1);
    assert_eq!(sent[0].dst, "n2");
    assert!(matches!(&sent[0].body.payload, ExternalPayload::Gossip { messages } if messages == &vec![5]));

    let sent = node.step(from("n2", Some(3), ExternalPayload::Gossip { messages: vec![5] })).unwrap();
    assert!(sent.is_empty());
    let sent = node.step(tick()).unwrap();
    assert!(sent.is_empty());
}

#[test]
fn the_same_broadcast_twice_is_held_once() {
    let mut node = started("n1", &["n1", "n2"]);
    node.step(from("c1", Some(1), ExternalPayload::Broadcast { value: 5 })).unwrap();
    let once = read(&mut node);
    node.step(from("c2", Some(2), ExternalPayload::Broadcast { value: 5 })).unwrap();
    let twice = read(&mut node);
    assert_eq!(once, vec![5]);
    assert_eq!(twice, vec![5]);
    assert_eq!(node.broadcast_ids().len(), 1);
}

#[test]
fn the_same_gossip_twice_is_held_once() {
    let mut node = started("n1", &["n1", "n2", "n3"]);
    node.step(from("n2", None, ExternalPayload::Gossip { messages: vec![5, 6] })).unwrap();
    let once = sorted(read(&mut node));
    node.step(from("n2", None, ExternalPayload::Gossip { messages: vec![6, 5] })).unwrap();
    node.step(from("n3", None, ExternalPayload::Gossip { messages: vec![5] })).unwrap();
    node.step(from("c1", Some(1), ExternalPayload::Broadcast { value: 6 })).unwrap();
    let again = sorted(read(&mut node));
    assert_eq!(once, vec![5, 6]);
    assert_eq!(again, vec![5, 6]);
    assert_eq!(node.known_ids().get(&"n2".to_string()).unwrap().len(), 2);
    assert_eq!(node.known_ids().get(&"n3".to_string()).unwrap().len(), 1);
}

#[test]
fn read_lists_no_value_twice() {
    let mut node = started("n1", &["n1", "n2"]);
    for value in [3, 1, 3, 2, 1, 1, 2] {
        node.step(from("c1", Some(1), ExternalPayload::Broadcast { value })).unwrap();
    }
    node.step(from("n2", None, ExternalPayload::Gossip { messages: vec![2, 2, 4, 4] })).unwrap();
    let listed = read(&mut node);
    assert_eq!(listed.len(), 4);
    assert_eq!(sorted(listed), vec![1, 2, 3, 4]);
}

#[test]
fn no_value_is_ever_lost() {
    let mut node = started("n1", &["n1", "n2", "n3"]);
    let mut topology = Topology::new();
    topology.insert("n1".to_string(), names(&["n3"]));
    topology.insert("n3".to_string(), names(&["n1"]));
    let events = vec![
        from("c1", Some(1), ExternalPayload::Broadcast { value: 1 }),
        from("n2", None, ExternalPayload::Gossip { messages: vec![2, 3] }),
        tick(),
        from("c1", Some(2), ExternalPayload::Topology { topology }),
        from("n3", None, ExternalPayload::Gossip { messages: vec![3, 4] }),
        tick(),
        from("c1", Some(3), ExternalPayload::Broadcast { value: 1 }),
        from("c1", Some(4), ExternalPayload::Generate),
    ];
    let mut held: Vec<i32> = Vec::new();
    for event in events {
        node.step(event).unwrap();
        let now = read(&mut node);
        for value in &held {
            assert!(now.contains(value));
        }
        held = now;
    }
    assert_eq!(sorted(held), vec![1, 2, 3, 4]);
}

#[test]
fn message_ids_count_up_by_one_whatever_is_sent() {
    let mut node = Node::new();
    let init = ExternalPayload::Init(Init {
        node_id: "n1".to_string(),
        node_ids: names(&["n1", "n2", "n3"]),
    });
    let events = vec![
        from("c1", Some(50), init),
        from("c1", Some(51), ExternalPayload::Broadcast { value: 1 }),
        tick(),
        from("c1", Some(52), ExternalPayload::Generate),
        from("n2", None, ExternalPayload::Gossip { messages: vec![1, 2] }),
        tick(),
        from("c1", Some(53), ExternalPayload::Read),
        from("c1", Some(54), ExternalPayload::BroadcastOk),
        tick(),
    ];
    let mut ids = Vec::new();
    for event in events {
        for message in node.step(event).unwrap() {
            ids.push(message.body.msg_id.unwrap());
        }
    }
    assert_eq!(ids, (0..ids.len()).collect::<Vec<usize>>());
    assert_eq!(ids.len(), 8);
    assert_eq!(node.next_msg_id(), 8);
}

#[test]
fn a_fault_costs_no_message_id() {
    let mut node = started("n1", &["n1", "n2"]);
    node.step(from("n7", None, ExternalPayload::Gossip { messages: vec![1] })).unwrap_err();
    let sent = node.step(from("c1", Some(2), ExternalPayload::Read)).unwrap();
    assert_eq!(sent[0].body.msg_id, Some(1));
}

use bedlam::messages::{Body, Echo, Event, ExternalPayload, Init, InternalPayload, Message};
use bedlam::node::Node;
use bedlam::protocol::{Fault, Phase};

fn names(ids: &[&str]) -> Vec<String> {
    ids.iter().map(|id| id.to_string()).collect()
}

fn from(src: &str, msg_id: Option<usize>, payload: ExternalPayload) -> Event {
    Event::External {
        message: Message {
            src: src.to_string(),
            dst: "n1".to_string(),
            body: Body { msg_id, in_reply_to: None, payload },
        },
    }
}

fn init(node_id: &str, node_ids: &[&str], msg_id: usize) -> Event {
    from(
        "c0",
        Some(msg_id),
        ExternalPayload::Init(Init { node_id: node_id.to_string(), node_ids: names(node_ids) }),
    )
}

fn tick() -> Event {
    Event::Internal { payload: InternalPayload::Timer }
}

fn eof() -> Event {
    Event::Internal { payload: InternalPayload::Eof }
}

fn started(node_id: &str, node_ids: &[&str]) -> Node {
    let (node, _reply) = Node::new().initialize(init(node_id, node_ids, 1)).unwrap();
    node
}

#[test]
fn new_node_awaits_its_handshake() {
    let node = Node::new();
    assert_eq!(node.phase(), Phase::Uninitialized);
    assert_eq!(node.node_id(), "");
    assert!(node.cluster().is_empty());
    assert_eq!(node.next_msg_id(), 0);
    assert!(node.broadcast_ids().is_empty());
    assert!(node.topology().nodes().is_empty());
}

#[test]
fn init_is_confirmed() {
    let (node, reply) = Node::new().initialize(init("n1", &["n1", "n2"], 1)).unwrap();
    assert_eq!(reply.src, "n1");
    assert_eq!(reply.dst, "c0");
    assert_eq!(reply.body.msg_id, Some(0));
    assert_eq!(reply.body.in_reply_to, Some(1));
    assert!(matches!(reply.body.payload, ExternalPayload::InitOk));
    assert_eq!(node.phase(), Phase::Initialized);
    assert_eq!(node.node_id(), "n1");
    assert_eq!(node.cluster(), &names(&["n1", "n2"]));
    assert_eq!(node.next_msg_id(), 1);
}

#[test]
fn init_through_step_is_confirmed_too() {
    let mut node = Node::new();
    let sent = node.step(init("n3", &["n1", "n2", "n3"], 42)).unwrap();
    assert_eq!(sent.len(), 1);
    assert_eq!(sent[0].src, "n3");
    assert_eq!(sent[0].dst, "c0");
    assert_eq!(sent[0].body.msg_id, Some(0));
    assert_eq!(sent[0].body.in_reply_to, Some(42));
    assert!(matches!(sent[0].body.payload, ExternalPayload::InitOk));
    assert_eq!(node.phase(), Phase::Initialized);
}

#[test]
fn init_without_message_id_is_confirmed_without_reference() {
    let request =
        from("c9", None, ExternalPayload::Init(Init { node_id: "a".to_string(), node_ids: names(&["a"]) }));
    let (_node, reply) = Node::new().initialize(request).unwrap();
    assert_eq!(reply.dst, "c9");
    assert_eq!(reply.body.in_reply_to, None);
    assert_eq!(reply.body.msg_id, Some(0));
}

#[test]
fn init_points_the_node_at_every_other_member() {
    let node = started("n2", &["n1", "n2", "n3"]);
    assert_eq!(node.topology().nodes(), names(&["n2"]));
    assert_eq!(node.topology().get(&"n2".to_string()), Some(&names(&["n1", "n3"])));
    assert_eq!(node.topology().get(&"n1".to_string()), None);
}

#[test]
fn init_seeds_one_empty_set_for_every_other_member() {
    let node = started("n2", &["n1", "n2", "n3"]);
    let known = node.known_ids();
    assert!(known.get(&"n1".to_string()).unwrap().is_empty());
    assert!(known.get(&"n3".to_string()).unwrap().is_empty());
    assert!(known.get(&"n2".to_string()).is_none());
    assert!(known.contains_peer(&"n1".to_string()));
    assert!(!known.contains_peer(&"n2".to_string()));
    assert!(!known.contains_peer(&"n4".to_string()));
}

#[test]
fn a_cluster_of_one_has_no_neighbours() {
    let node = started("n1", &["n1"]);
    assert_eq!(node.topology().get(&"n1".to_string()), Some(&Vec::new()));
    assert!(!node.known_ids().contains_peer(&"n1".to_string()));
}

#[test]
fn anything_but_init_before_init_is_a_fault() {
    let mut node = Node::new();
    assert_eq!(node.step(tick()).unwrap_err(), Fault::NotInitialized);
    assert_eq!(node.step(eof()).unwrap_err(), Fault::NotInitialized);
    let echo = from("c1", Some(1), ExternalPayload::Echo(Echo { echo: "hi".to_string() }));
    assert_eq!(node.step(echo).unwrap_err(), Fault::NotInitialized);
    assert_eq!(node.step(from("c1", Some(2), ExternalPayload::Read)).unwrap_err(), Fault::NotInitialized);
    assert_eq!(node.step(from("c1", Some(3), ExternalPayload::InitOk)).unwrap_err(), Fault::NotInitialized);
    assert_eq!(node.phase(), Phase::Uninitialized);
    assert_eq!(node.next_msg_id(), 0);
}

#[test]
fn initialize_rejects_anything_but_init() {
    assert_eq!(Node::new().initialize(tick()).unwrap_err(), Fault::NotInitialized);
    assert_eq!(Node::new().initialize(eof()).unwrap_err(), Fault::NotInitialized);
    let read = from("c1", Some(1), ExternalPayload::Read);
    assert_eq!(Node::new().initialize(read).unwrap_err(), Fault::NotInitialized);
}

#[test]
fn a_second_init_is_a_fault() {
    let mut node = started("n1", &["n1", "n2"]);
    assert_eq!(node.step(init("n1", &["n1", "n2"], 2)).unwrap_err(), Fault::AlreadyInitialized);
    assert_eq!(node.next_msg_id(), 1);
    assert_eq!(node.phase(), Phase::Initialized);
    let again = node.initialize(init("n1", &["n1", "n2"], 3));
    assert_eq!(again.unwrap_err(), Fault::AlreadyInitialized);
}

#[test]
fn initialize_rejects_a_node_past_its_handshake_whatever_the_event() {
    let node = started("n1", &["n1", "n2"]);
    assert_eq!(node.initialize(tick()).unwrap_err(), Fault::AlreadyInitialized);
    let mut ended = started("n1", &["n1", "n2"]);
    ended.step(eof()).unwrap();
    assert_eq!(ended.initialize(init("n1", &["n1"], 9)).unwrap_err(), Fault::Terminated);
}

#[test]
fn eof_terminates_the_node() {
    let mut node = started("n1", &["n1", "n2"]);
    let sent = node.step(eof()).unwrap();
    assert!(sent.is_empty());
    assert_eq!(node.phase(), Phase::Terminated);
    assert_eq!(node.next_msg_id(), 1);
}

#[test]
fn nothing_is_served_after_eof() {
    let mut node = started("n1", &["n1", "n2"]);
    node.step(eof()).unwrap();
    assert_eq!(node.step(tick()).unwrap_err(), Fault::Terminated);
    assert_eq!(node.step(eof()).unwrap_err(), Fault::Terminated);
    assert_eq!(node.step(from("c1", Some(1), ExternalPayload::Read)).unwrap_err(), Fault::Terminated);
    assert_eq!(node.step(init("n1", &["n1"], 5)).unwrap_err(), Fault::Terminated);
    assert_eq!(node.phase(), Phase::Terminated);
}

#[test]
fn run_covers_the_whole_life_of_a_node() {
    let mut node = Node::new();
    let events = vec![
        init("n1", &["n1", "n2"], 1),
        from("c1", Some(2), ExternalPayload::Broadcast { value: 5 }),
        tick(),
        from("c1", Some(3), ExternalPayload::Read),
        eof(),
    ];
    let (sent, fault) = node.run(events);
    assert_eq!(fault, None);
    assert_eq!(node.phase(), Phase::Terminated);
    assert_eq!(sent.len(), 4);
    assert!(matches!(sent[0].body.payload, ExternalPayload::InitOk));
    assert!(matches!(sent[1].body.payload, ExternalPayload::BroadcastOk));
    assert_eq!(sent[2].dst, "n2");
    assert!(matches!(&sent[2].body.payload, ExternalPayload::Gossip { messages } if messages == &vec![5]));
    assert!(matches!(&sent[3].body.payload, ExternalPayload::ReadOk { messages } if messages == &vec![5]));
    for (i, message) in sent.iter().enumerate() {
        assert_eq!(message.src, "n1");
        assert_eq!(message.body.msg_id, Some(i));
    }
}

#[test]
fn run_does_not_look_behind_eof() {
    let mut node = started("n1", &["n1", "n2"]);
    let events = vec![
        from("c1", Some(2), ExternalPayload::Broadcast { value: 5 }),
        eof(),
        from("c1", Some(3), ExternalPayload::Broadcast { value: 6 }),
        init("n1", &["n1"], 4),
    ];
    let (sent, fault) = node.run(events);
    assert_eq!(fault, None);
    assert_eq!(sent.len(), 1);
    assert_eq!(node.phase(), Phase::Terminated);
    assert!(node.broadcast_ids().contains(&5));
    assert!(!node.broadcast_ids().contains(&6));
}

#[test]
fn run_ends_with_the_first_fault_and_keeps_what_was_sent() {
    let mut node = started("n1", &["n1", "n2"]);
    let events = vec![
        from("c1", Some(2), ExternalPayload::Broadcast { value: 5 }),
        init("n1", &["n1"], 3),
        from("c1", Some(4), ExternalPayload::Broadcast { value: 6 }),
    ];
    let (sent, fault) = node.run(events);
    assert_eq!(fault, Some(Fault::AlreadyInitialized));
    assert_eq!(sent.len(), 1);
    assert!(matches!(sent[0].body.payload, ExternalPayload::BroadcastOk));
    assert_eq!(node.phase(), Phase::Initialized);
    assert!(node.broadcast_ids().contains(&5));
    assert!(!node.broadcast_ids().contains(&6));
    assert_eq!(node.next_msg_id(), 2);
}

#[test]
fn run_of_nothing_does_nothing() {
    let mut node = started("n1", &["n1", "n2"]);
    let (sent, fault) = node.run(Vec::new());
    assert!(sent.is_empty());
    assert_eq!(fault, None);
    assert_eq!(node.phase(), Phase::Initialized);
    assert_eq!(node.next_msg_id(), 1);
}

#[test]
fn run_on_a_terminated_node_is_a_fault() {
    let mut node = started("n1", &["n1", "n2"]);
    node.step(eof()).unwrap();
    let (sent, fault) = node.run(vec![tick()]);
    assert!(sent.is_empty());
    assert_eq!(fault, Some(Fault::Terminated));
}

#[test]
fn run_before_init_needs_init_first() {
    let mut node = Node::new();
    let (sent, fault) = node.run(vec![tick(), init("n1", &["n1"], 1)]);
    assert!(sent.is_empty());
    assert_eq!(fault, Some(Fault::NotInitialized));
    assert_eq!(node.phase(), Phase::Uninitialized);
}

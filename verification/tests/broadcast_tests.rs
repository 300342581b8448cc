use maelstrom_rust::broadcast::BroadcastMaelstromNode;
use maelstrom_rust::broadcast::BroadcastMessage;
use maelstrom_rust::collections::IntSet;
use maelstrom_rust::collections::SeenMap;
use maelstrom_rust::collections::StringSet;
use maelstrom_rust::collections::TopologyMap;
use maelstrom_rust::json::decode_broadcast_message;
use maelstrom_rust::json::encode_broadcast_message;
use maelstrom_rust::msg_protocol::Body;
use maelstrom_rust::msg_protocol::Message;
use maelstrom_rust::msg_protocol::ProcessError;
use maelstrom_rust::msg_protocol::Processor;

fn strset(items: &[&str]) -> StringSet {
    let mut s = StringSet::new();
    for x in items {
        s.insert(x.to_string());
    }
    s
}

fn intset(items: &[i64]) -> IntSet {
    let mut s = IntSet::new();
    for x in items {
        s.insert(*x);
    }
    s
}

fn init_msg() -> Message<BroadcastMessage> {
    Message {
        src: Some("src".into()),
        dest: Some("dest".into()),
        body: Body {
            msg_id: Some(1),
            in_reply_to: None,
            body: BroadcastMessage::Init {
                node_id: "node1".into(),
                node_ids: strset(&["node1", "node2"]),
            },
        },
    }
}

fn init_ok_msg() -> Message<BroadcastMessage> {
    Message {
        src: Some("dest".into()),
        dest: Some("src".into()),
        body: Body {
            msg_id: Some(1),
            in_reply_to: Some(1),
            body: BroadcastMessage::InitOk {},
        },
    }
}

fn broadcast_msg() -> Message<BroadcastMessage> {
    Message {
        src: Some("node2".into()),
        dest: Some("node1".into()),
        body: Body {
            msg_id: Some(1),
            in_reply_to: None,
            body: BroadcastMessage::Broadcast { message: 1 },
        },
    }
}

fn broadcast_ok_msg() -> Message<BroadcastMessage> {
    Message {
        src: Some("node1".into()),
        dest: Some("node2".into()),
        body: Body {
            msg_id: Some(1),
            in_reply_to: Some(1),
            body: BroadcastMessage::BroadcastOk {},
        },
    }
}

fn read_msg() -> Message<BroadcastMessage> {
    Message {
        src: Some("src".into()),
        dest: Some("dest".into()),
        body: Body {
            msg_id: Some(1),
            in_reply_to: None,
            body: BroadcastMessage::Read {},
        },
    }
}

fn read_ok_msg(messages: IntSet) -> Message<BroadcastMessage> {
    Message {
        src: Some("dest".into()),
        dest: Some("src".into()),
        body: Body {
            msg_id: Some(1),
            in_reply_to: Some(1),
            body: BroadcastMessage::ReadOk { messages },
        },
    }
}

fn default_topo() -> TopologyMap {
    let mut t = TopologyMap::new();
    t.insert("node1".to_string(), strset(&["node2", "node3"]));
    t.insert("node2".to_string(), strset(&["node3"]));
    t.insert("node3".to_string(), strset(&["node2"]));
    t
}

fn topology_msg(maybe_provided_topo: Option<TopologyMap>) -> Message<BroadcastMessage> {
    let topology = maybe_provided_topo.unwrap_or_else(default_topo);
    Message {
        src: Some("src".into()),
        dest: Some("dest".into()),
        body: Body {
            msg_id: Some(1),
            in_reply_to: None,
            body: BroadcastMessage::Topology { topology },
        },
    }
}

fn topology_ok_msg() -> Message<BroadcastMessage> {
    Message {
        src: Some("dest".into()),
        dest: Some("src".into()),
        body: Body {
            msg_id: Some(1),
            in_reply_to: Some(1),
            body: BroadcastMessage::TopologyOk {},
        },
    }
}

#[test]
fn broadcast_test_msg_processing_init() {
    let mut processor = BroadcastMaelstromNode::default();
    let msg = init_msg();
    let reply = processor.process(msg);
    assert_eq!(reply.unwrap(), Some(vec![init_ok_msg()]));
    assert_eq!(processor.node_id, Some("node1".into()));
    assert_eq!(processor.node_ids, strset(&["node2"]));
}

#[test]
fn test_msg_processing_broadcast_no_other_nodes() {
    let mut processor = BroadcastMaelstromNode::default();
    let msg = broadcast_msg();

    let reply = processor.process(msg);
    assert_eq!(reply.unwrap(), Some(vec![broadcast_ok_msg()]));
    assert_eq!(processor.messages, intset(&[1]));
    let mut expected_seen = SeenMap::new();
    expected_seen.record(&"node2".to_string(), 1);
    assert_eq!(processor.messages_shared_per_node, expected_seen);
}

#[test]
fn test_msg_processing_broadcast_with_multi_broadcast_to_neighbors_ignoring_sender() {
    let mut processor = BroadcastMaelstromNode::new(
        1,
        Some("node1".into()),
        IntSet::new(),
        SeenMap::new(),
        strset(&["node2", "node3"]),
    );
    let msg = broadcast_msg();

    let reply = processor.process(msg.clone());
    // every outbound envelope consumes one fresh id, so the fanout copy to
    // node3 carries the next counter value, not the inbound id
    assert_eq!(
        reply.unwrap(),
        Some(vec![
            broadcast_ok_msg(),
            Message {
                src: Some("node1".into()),
                dest: Some("node3".into()),
                body: Body {
                    msg_id: Some(2),
                    in_reply_to: None,
                    body: BroadcastMessage::Broadcast { message: 1 },
                },
            },
        ])
    );
    assert_eq!(processor.messages, intset(&[1]));
    let mut expected_seen = SeenMap::new();
    expected_seen.record(&"node2".to_string(), 1);
    assert_eq!(processor.messages_shared_per_node, expected_seen);
}

#[test]
fn test_msg_processing_topology() {
    let mut processor = BroadcastMaelstromNode::new(
        1,
        Some("node1".into()),
        IntSet::new(),
        SeenMap::new(),
        strset(&["node1"]),
    );
    let msg = topology_msg(None);

    let reply = processor.process(msg);
    assert_eq!(reply.unwrap(), Some(vec![topology_ok_msg()]));
    assert_eq!(processor.node_id, Some("node1".into()));
    assert_eq!(processor.node_ids, strset(&["node2", "node3"]));
}

#[test]
fn test_msg_processing_topology_without_node_intialized_before() {
    let mut processor = BroadcastMaelstromNode::default();
    let msg = topology_msg(None);

    let reply = processor.process(msg);
    assert_eq!(reply.unwrap(), Some(vec![topology_ok_msg()]));
    // the topology must not apply when this node has no identity yet
    assert_eq!(processor.node_id, None);
    let expected_node_ids = StringSet::new();
    assert_eq!(processor.node_ids, expected_node_ids);
}

#[test]
fn test_msg_processing_topology_without_current_nodeid_mapped() {
    let mut processor = BroadcastMaelstromNode::new(
        1,
        Some("node1".into()),
        IntSet::new(),
        SeenMap::new(),
        strset(&["node1"]),
    );
    let mut provided = TopologyMap::new();
    provided.insert("node2".to_string(), strset(&["node3"]));
    provided.insert("node3".to_string(), strset(&["node2"]));
    let msg = topology_msg(Some(provided));

    let reply = processor.process(msg);
    assert_eq!(reply.unwrap(), Some(vec![topology_ok_msg()]));
    // the topology must not apply when this node's id is not mapped
    assert_eq!(processor.node_id, Some("node1".into()));
    assert_eq!(processor.node_ids, strset(&["node1"]));
}

#[test]
fn test_msg_processing_read() {
    let stored_messages = intset(&[1, 2]);
    let topology = strset(&["2"]);

    let mut processor = BroadcastMaelstromNode::new(
        1,
        None,
        stored_messages.clone(),
        SeenMap::new(),
        topology.clone(),
    );
    let msg = read_msg();

    let reply = processor.process(msg);
    assert_eq!(reply.unwrap(), Some(vec![read_ok_msg(stored_messages.clone())]));
}

#[test]
fn broadcast_test_msg_processing_unhandled_msg() {
    let mut processor: BroadcastMaelstromNode = BroadcastMaelstromNode::default();
    let msg = init_ok_msg();

    let expected_err_msg = format!("Received unknown message: {:?}", &msg);
    let result = processor.process(msg);
    match result {
        Err(err) => assert_eq!(err.describe(), expected_err_msg),
        _ => panic!("Expected error"),
    }
}

#[test]
fn broadcast_test_msg_processor_id_increments_on_every_msg() {
    let mut processor = BroadcastMaelstromNode::default();

    fn assert_reply_to_msg(
        processor: &mut BroadcastMaelstromNode,
        msg: Message<BroadcastMessage>,
        expected_reply: Option<Vec<Message<BroadcastMessage>>>,
    ) {
        let maybe_reply = processor.process(msg).unwrap();
        assert_eq!(maybe_reply, expected_reply);
    }
    let base_msg = broadcast_msg();
    let base_reply = broadcast_ok_msg();

    for x in 1..5 {
        let mut msg = base_msg.clone();
        msg.body.msg_id = Some(x);

        let mut expected_reply = base_reply.clone();
        expected_reply.body.msg_id = Some(x);
        expected_reply.body.in_reply_to = Some(x);
        assert_reply_to_msg(&mut processor, msg, Some(vec![expected_reply]));
    }
}

fn assert_round_trip(msg: Message<BroadcastMessage>) {
    let msg_serialized = encode_broadcast_message(&msg);
    let msg_round_trip = decode_broadcast_message(msg_serialized.as_str()).unwrap();
    assert_eq!(msg, msg_round_trip);
}

#[test]
fn test_serde_msg_broadcast() {
    assert_round_trip(broadcast_msg());
}

#[test]
fn test_serde_msg_broadcast_ok() {
    assert_round_trip(broadcast_ok_msg());
}

#[test]
fn test_serde_msg_read() {
    assert_round_trip(read_msg());
}

#[test]
fn test_serde_msg_read_ok() {
    assert_round_trip(read_ok_msg(intset(&[1, 2])));
}

#[test]
fn test_serde_msg_topology() {
    assert_round_trip(topology_msg(None));
}

#[test]
fn test_serde_msg_topology_ok() {
    assert_round_trip(topology_ok_msg());
}

#[test]
fn test_serde_msg_init() {
    assert_round_trip(init_msg());
}

#[test]
fn broadcast_test_serde_msg_init_ok() {
    assert_round_trip(init_ok_msg());
}

#[test]
fn test_scenario_init_topology_broadcast() {
    let mut node = BroadcastMaelstromNode::default();

    // Init {node_id: "n1", node_ids: ["n1", "n2"]}: the neighbor set
    // becomes {"n2"}
    let init = Message {
        src: Some("c1".into()),
        dest: Some("n1".into()),
        body: Body {
            msg_id: Some(10),
            in_reply_to: None,
            body: BroadcastMessage::Init {
                node_id: "n1".into(),
                node_ids: strset(&["n1", "n2"]),
            },
        },
    };
    node.process(init).unwrap();
    assert_eq!(node.node_ids, strset(&["n2"]));

    // Topology {"n1": ["n2", "n3"]}: the neighbor set becomes {"n2", "n3"}
    let mut t = TopologyMap::new();
    t.insert("n1".to_string(), strset(&["n2", "n3"]));
    let topo = Message {
        src: Some("c1".into()),
        dest: Some("n1".into()),
        body: Body {
            msg_id: Some(11),
            in_reply_to: None,
            body: BroadcastMessage::Topology { topology: t },
        },
    };
    node.process(topo).unwrap();
    assert_eq!(node.node_ids, strset(&["n2", "n3"]));

    // Broadcast(5) from "n2": one acknowledgement to n2 and one fanout
    // copy to n3; the delivered set becomes {5}
    let b = Message {
        src: Some("n2".into()),
        dest: Some("n1".into()),
        body: Body {
            msg_id: Some(12),
            in_reply_to: None,
            body: BroadcastMessage::Broadcast { message: 5 },
        },
    };
    let out = node.process(b).unwrap().unwrap();
    assert_eq!(out.len(), 2);
    assert_eq!(out[0].dest, Some("n2".into()));
    assert!(matches!(out[0].body.body, BroadcastMessage::BroadcastOk {}));
    assert_eq!(out[1].dest, Some("n3".into()));
    assert!(matches!(out[1].body.body, BroadcastMessage::Broadcast { message: 5 }));
    assert_eq!(node.messages, intset(&[5]));
}

#[test]
fn test_idempotent_delivery_no_second_fanout() {
    let mut node = BroadcastMaelstromNode::new(
        1,
        Some("n1".into()),
        IntSet::new(),
        SeenMap::new(),
        strset(&["n2", "n3"]),
    );
    let b = |src: &str, id: i64| Message::<BroadcastMessage> {
        src: Some(src.into()),
        dest: Some("n1".into()),
        body: Body {
            msg_id: Some(id),
            in_reply_to: None,
            body: BroadcastMessage::Broadcast { message: 7 },
        },
    };
    let first = node.process(b("n2", 1)).unwrap().unwrap();
    // novel: acknowledgement plus one fanout copy to n3
    assert_eq!(first.len(), 2);
    assert_eq!(node.messages, intset(&[7]));

    let second = node.process(b("n3", 2)).unwrap().unwrap();
    // repeated: only the acknowledgement, no fanout, and no duplicate in
    // the delivered set
    assert_eq!(second.len(), 1);
    assert!(matches!(second[0].body.body, BroadcastMessage::BroadcastOk {}));
    assert_eq!(node.messages, intset(&[7]));
}

#[test]
fn test_anti_entropy_catch_up() {
    // node with delivered {1,2,3} and tracked peer n2 known to have seen
    // only {1}: the next broadcast produces catch-up copies of 2 and 3
    let mut seen = SeenMap::new();
    seen.record(&"n2".to_string(), 1);
    let mut node = BroadcastMaelstromNode::new(
        5,
        Some("n1".into()),
        intset(&[1, 2, 3]),
        seen,
        StringSet::new(),
    );
    let b = Message {
        src: Some("c9".into()),
        dest: Some("n1".into()),
        body: Body {
            msg_id: Some(1),
            in_reply_to: None,
            body: BroadcastMessage::Broadcast { message: 9 },
        },
    };
    let out = node.process(b).unwrap().unwrap();
    assert_eq!(out.len(), 3);
    assert!(matches!(out[0].body.body, BroadcastMessage::BroadcastOk {}));
    assert_eq!(out[1].dest, Some("n2".into()));
    assert!(matches!(out[1].body.body, BroadcastMessage::Broadcast { message: 2 }));
    assert_eq!(out[2].dest, Some("n2".into()));
    assert!(matches!(out[2].body.body, BroadcastMessage::Broadcast { message: 3 }));
    // ids are consecutive in emission order, starting at the counter
    assert_eq!(out[0].body.msg_id, Some(5));
    assert_eq!(out[1].body.msg_id, Some(6));
    assert_eq!(out[2].body.msg_id, Some(7));
    assert_eq!(node.id, 8);
}

#[test]
fn test_monotonic_ids_across_handlers() {
    let mut node = BroadcastMaelstromNode::default();
    let mut expected_id: i64 = 1;
    let msgs = vec![init_msg(), read_msg(), topology_msg(None), broadcast_msg(), read_msg()];
    for m in msgs {
        let out = node.process(m).unwrap().unwrap();
        for o in out {
            assert_eq!(o.body.msg_id, Some(expected_id));
            expected_id += 1;
        }
        assert_eq!(node.id, expected_id);
    }
}

#[test]
fn test_fanout_excludes_sender() {
    let mut node = BroadcastMaelstromNode::new(
        1,
        Some("n1".into()),
        IntSet::new(),
        SeenMap::new(),
        strset(&["n2", "n3", "n4"]),
    );
    let b = Message {
        src: Some("n3".into()),
        dest: Some("n1".into()),
        body: Body {
            msg_id: Some(1),
            in_reply_to: None,
            body: BroadcastMessage::Broadcast { message: 4 },
        },
    };
    let out = node.process(b).unwrap().unwrap();
    for o in out.iter().skip(1) {
        assert_ne!(o.dest, Some("n3".into()));
    }
    assert_eq!(out.len(), 3);
}

#[test]
fn test_dedup_across_sequences() {
    let mut node = BroadcastMaelstromNode::default();
    for (src, v) in [("n2", 4), ("n3", 4), ("n2", 8), ("c1", 4), ("n3", 15)] {
        let m = Message {
            src: Some(src.into()),
            dest: Some("n1".into()),
            body: Body {
                msg_id: Some(1),
                in_reply_to: None,
                body: BroadcastMessage::Broadcast { message: v },
            },
        };
        node.process(m).unwrap();
    }
    assert_eq!(node.messages, intset(&[4, 8, 15]));
}

#[test]
fn test_seed_senders_are_not_tracked() {
    let mut node = BroadcastMaelstromNode::default();
    let m = Message {
        src: Some("c7".into()),
        dest: Some("n1".into()),
        body: Body {
            msg_id: Some(1),
            in_reply_to: None,
            body: BroadcastMessage::Broadcast { message: 3 },
        },
    };
    node.process(m).unwrap();
    assert_eq!(node.messages_shared_per_node, SeenMap::new());
    assert_eq!(node.messages, intset(&[3]));
}

#[test]
fn test_serde_negative_and_extreme_values() {
    let mut m = broadcast_msg();
    m.body.body = BroadcastMessage::Broadcast { message: -42 };
    assert_round_trip(m.clone());
    m.body.body = BroadcastMessage::Broadcast { message: i64::MIN };
    assert_round_trip(m.clone());
    m.body.body = BroadcastMessage::Broadcast { message: i64::MAX };
    m.body.msg_id = None;
    m.src = None;
    assert_round_trip(m);
}

#[test]
fn test_serde_exact_wire_text() {
    let msg = broadcast_msg();
    let text = encode_broadcast_message(&msg);
    assert_eq!(
        text,
        "{\"src\":\"node2\",\"dest\":\"node1\",\"body\":{\"msg_id\":1,\"in_reply_to\":null,\"type\":\"broadcast\",\"message\":1}}"
    );
}

#[test]
fn test_decode_rejects_malformed_text() {
    assert_eq!(decode_broadcast_message(""), None);
    assert_eq!(decode_broadcast_message("{}"), None);
    let good = encode_broadcast_message(&broadcast_msg());
    let mut with_junk = good.clone();
    with_junk.push('x');
    assert_eq!(decode_broadcast_message(with_junk.as_str()), None);
    assert!(decode_broadcast_message(good.as_str()).is_some());
}

#[test]
fn test_unrecognized_message_error_keeps_envelope() {
    let mut processor = BroadcastMaelstromNode::default();
    let msg = topology_ok_msg();
    match processor.process(msg.clone()) {
        Err(ProcessError::UnrecognizedMessage(m)) => assert_eq!(m, msg),
        _ => panic!("Expected error"),
    }
    // a failed envelope mutates nothing and emits nothing
    assert_eq!(processor.id, 1);
    assert_eq!(processor.messages, IntSet::new());
}

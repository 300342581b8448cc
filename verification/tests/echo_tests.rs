use maelstrom_rust::echo::EchoMaelstromNode;
use maelstrom_rust::echo::EchoMessage;
use maelstrom_rust::json::decode_echo_message;
use maelstrom_rust::json::encode_echo_message;
use maelstrom_rust::msg_protocol::Body;
use maelstrom_rust::msg_protocol::Message;
use maelstrom_rust::msg_protocol::Processor;

fn init_msg() -> Message<EchoMessage> {
    Message {
        src: Some("src".to_string()),
        dest: Some("dest".to_string()),
        body: Body {
            msg_id: Some(1),
            in_reply_to: None,
            body: EchoMessage::Init {
                node_id: "mynode1".to_string(),
                node_ids: vec!["mynode1".to_string()],
            },
        },
    }
}

fn init_ok_msg() -> Message<EchoMessage> {
    Message {
        src: Some("dest".to_string()),
        dest: Some("src".to_string()),
        body: Body {
            msg_id: Some(1),
            in_reply_to: Some(1),
            body: EchoMessage::InitOk {},
        },
    }
}

fn echo_msg() -> Message<EchoMessage> {
    Message {
        src: Some("src".to_string()),
        dest: Some("dest".to_string()),
        body: Body {
            msg_id: Some(1),
            in_reply_to: None,
            body: EchoMessage::Echo { echo: "echo".to_string() },
        },
    }
}

fn echo_ok_msg() -> Message<EchoMessage> {
    Message {
        src: Some("dest".to_string()),
        dest: Some("src".to_string()),
        body: Body {
            msg_id: Some(1),
            in_reply_to: Some(1),
            body: EchoMessage::EchoOk { echo: "echo".to_string() },
        },
    }
}

#[test]
fn echo_test_msg_processing_init() {
    let mut processor = EchoMaelstromNode::default();
    let msg = init_msg();
    let reply = processor.process(msg);
    assert_eq!(reply.unwrap(), Some(vec![init_ok_msg()]));
}

#[test]
fn echo_test_msg_processing_echo() {
    let mut processor = EchoMaelstromNode::default();
    let msg = echo_msg();

    let reply = processor.process(msg);
    assert_eq!(reply.unwrap(), Some(vec![echo_ok_msg()]));
}

#[test]
fn echo_test_msg_processing_unhandled_msg() {
    let mut processor: EchoMaelstromNode = EchoMaelstromNode::default();
    let msg = echo_ok_msg();

    let expected_err_msg = format!("Received unknown message: {:?}", &msg);
    let result = processor.process(msg);
    match result {
        Err(err) => assert_eq!(err.describe(), expected_err_msg),
        _ => panic!("Expected error"),
    }
}

#[test]
fn echo_test_msg_processor_id_increments_on_every_msg() {
    let mut processor = EchoMaelstromNode::default();

    fn assert_reply_to_msg(
        processor: &mut EchoMaelstromNode,
        msg: Message<EchoMessage>,
        expected_reply: Option<Vec<Message<EchoMessage>>>,
    ) {
        let maybe_reply = processor.process(msg).unwrap();
        assert_eq!(maybe_reply, expected_reply);
    }
    let base_msg = echo_msg();
    let base_reply = echo_ok_msg();

    for x in 1..5 {
        let mut msg = base_msg.clone();
        msg.body.msg_id = Some(x);

        let mut expected_reply = base_reply.clone();
        expected_reply.body.msg_id = Some(x);
        expected_reply.body.in_reply_to = Some(x);
        assert_reply_to_msg(&mut processor, msg, Some(vec![expected_reply]));
    }
}

#[test]
fn echo_test_serde_msg_echo() {
    let msg = echo_msg();
    let msg_serialized = encode_echo_message(&msg);
    let msg_round_trip = decode_echo_message(msg_serialized.as_str()).unwrap();
    assert_eq!(msg, msg_round_trip);
}

#[test]
fn echo_test_serde_msg_init_ok() {
    let msg = init_ok_msg();
    let msg_serialized = encode_echo_message(&msg);
    let msg_round_trip = decode_echo_message(msg_serialized.as_str()).unwrap();
    assert_eq!(msg, msg_round_trip);
}

#[test]
fn echo_test_serde_escaped_and_unicode_text() {
    let mut msg = echo_msg();
    msg.body.body = EchoMessage::Echo { echo: "a\"b\\c\nd\te\u{1}".to_string() };
    let text = encode_echo_message(&msg);
    let back = decode_echo_message(text.as_str()).unwrap();
    assert_eq!(msg, back);

    msg.body.body = EchoMessage::EchoOk { echo: "héllo \u{2713} café".to_string() };
    let text = encode_echo_message(&msg);
    let back = decode_echo_message(text.as_str()).unwrap();
    assert_eq!(msg, back);

    msg.body.body = EchoMessage::Echo { echo: String::new() };
    let text = encode_echo_message(&msg);
    let back = decode_echo_message(text.as_str()).unwrap();
    assert_eq!(msg, back);
}

#[test]
fn echo_test_serde_init_with_empty_node_list() {
    let msg = Message {
        src: None,
        dest: None,
        body: Body {
            msg_id: None,
            in_reply_to: None,
            body: EchoMessage::Init { node_id: "n1".to_string(), node_ids: vec![] },
        },
    };
    let text = encode_echo_message(&msg);
    let back = decode_echo_message(text.as_str()).unwrap();
    assert_eq!(msg, back);
}

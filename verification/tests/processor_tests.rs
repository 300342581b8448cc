use maelstrom_rust::json::decode_processor_message;
use maelstrom_rust::json::encode_processor_message;
use maelstrom_rust::message_processor::Body;
use maelstrom_rust::message_processor::Message;
use maelstrom_rust::message_processor::MessageBodyType;
use maelstrom_rust::message_processor::MessageProcessor;

fn init_msg() -> Message {
    Message {
        src: Some("src".to_string()),
        dest: Some("dest".to_string()),
        body: Body {
            msg_id: Some(1),
            in_reply_to: None,
            body: MessageBodyType::Init {
                node_id: "mynode1".to_string(),
                node_ids: vec!["mynode1".to_string()],
            },
        },
    }
}

fn init_ok_msg() -> Message {
    Message {
        src: Some("dest".to_string()),
        dest: Some("src".to_string()),
        body: Body {
            msg_id: Some(1),
            in_reply_to: Some(1),
            body: MessageBodyType::InitOk {},
        },
    }
}

fn echo_msg() -> Message {
    Message {
        src: Some("src".to_string()),
        dest: Some("dest".to_string()),
        body: Body {
            msg_id: Some(1),
            in_reply_to: None,
            body: MessageBodyType::Echo { echo: "echo".to_string() },
        },
    }
}

fn echo_ok_msg() -> Message {
    Message {
        src: Some("dest".to_string()),
        dest: Some("src".to_string()),
        body: Body {
            msg_id: Some(1),
            in_reply_to: Some(1),
            body: MessageBodyType::EchoOk { echo: "echo".to_string() },
        },
    }
}

#[test]
fn main_test_serde_msg_echo() {
    let msg = echo_msg();
    let msg_serialized = encode_processor_message(&msg);
    let msg_round_trip = decode_processor_message(msg_serialized.as_str()).unwrap();
    assert_eq!(msg, msg_round_trip);
}

#[test]
fn main_test_serde_msg_init_ok() {
    let msg = init_ok_msg();
    let msg_serialized = encode_processor_message(&msg);
    let msg_round_trip = decode_processor_message(msg_serialized.as_str()).unwrap();
    assert_eq!(msg, msg_round_trip);
}

#[test]
fn main_test_msg_processing_init() {
    let mut processor = MessageProcessor::new();
    let msg = init_msg();
    let reply = processor.process(msg);
    assert_eq!(reply.unwrap(), Some(init_ok_msg()));
}

#[test]
fn main_test_msg_processing_echo() {
    let mut processor = MessageProcessor::new();
    let msg = echo_msg();

    let reply = processor.process(msg);
    assert_eq!(reply.unwrap(), Some(echo_ok_msg()));
}

#[test]
fn main_test_msg_processing_unhandled_msg() {
    let mut processor = MessageProcessor::new();
    let msg = echo_ok_msg();

    let expected_err_msg = format!("Received unknown message: {:?}", &msg);
    let result = processor.process(msg);
    match result {
        Err(err) => assert_eq!(err.describe(), expected_err_msg),
        _ => panic!("Expected error"),
    }
}

#[test]
fn main_test_msg_processor_id_increments_on_every_msg() {
    let mut processor = MessageProcessor::new();

    fn assert_reply_to_msg(
        processor: &mut MessageProcessor,
        msg: Message,
        expected_reply: Option<Message>,
    ) {
        let maybe_reply = processor.process(msg).unwrap();
        assert_eq!(maybe_reply, expected_reply);
    }
    let base_msg = echo_msg();
    let base_reply = echo_ok_msg();

    for x in 1..5 {
        let mut msg = base_msg.clone();
        msg.body.msg_id = Some(x);

        let mut expected_reply = base_reply.clone();
        expected_reply.body.msg_id = Some(x);
        expected_reply.body.in_reply_to = Some(x);
        assert_reply_to_msg(&mut processor, msg, Some(expected_reply));
    }
}

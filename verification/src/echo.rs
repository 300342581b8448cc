//! The echo node: a stateless request/response mapper that answers `Init`
//! with `InitOk` and `Echo` with `EchoOk` carrying the same text, assigning
//! one fresh message id per reply.

use vstd::prelude::*;

use crate::msg_protocol::Body;
use crate::msg_protocol::Message;
use crate::msg_protocol::ProcessError;
use crate::msg_protocol::Processor;

verus! {

/// The payload variants of the echo protocol.
#[derive(Debug, Clone, PartialEq, Eq)]
pub enum EchoMessage {
    Init { node_id: String, node_ids: Vec<String> },
    InitOk {},
    EchoOk { echo: String },
    Echo { echo: String },
}

/// The mathematical value of an echo payload.
pub enum EchoMessageView {
    Init { node_id: Seq<char>, node_ids: Seq<Seq<char>> },
    InitOk,
    EchoOk { echo: Seq<char> },
    Echo { echo: Seq<char> },
}

impl View for EchoMessage {
    type V = EchoMessageView;

    open spec fn view(&self) -> EchoMessageView {
        match self {
            EchoMessage::Init { node_id, node_ids } => EchoMessageView::Init {
                node_id: node_id@,
                node_ids: node_ids@.map_values(|s: String| s@),
            },
            EchoMessage::InitOk {} => EchoMessageView::InitOk,
            EchoMessage::EchoOk { echo } => EchoMessageView::EchoOk { echo: echo@ },
            EchoMessage::Echo { echo } => EchoMessageView::Echo { echo: echo@ },
        }
    }
}

/// The echo node's only state is its message-id counter.
#[derive(Debug, Clone, PartialEq, Eq)]
pub struct EchoMaelstromNode {
    pub id: i64,
}

impl EchoMaelstromNode {
    pub fn new(id: i64) -> (node: EchoMaelstromNode)
        ensures
            node.id == id,
    {
        EchoMaelstromNode { id }
    }
}

impl Default for EchoMaelstromNode {
    fn default() -> (node: EchoMaelstromNode)
        ensures
            node.id == 1,
    {
        EchoMaelstromNode::new(1)
    }
}

/// The single reply the echo node owes to an inbound envelope, or `None`
/// for the payload variants it does not handle as requests.
pub open spec fn echo_reply(msg: Message<EchoMessage>, id: i64) -> Option<Message<EchoMessage>> {
    match msg.body.body {
        EchoMessage::Init { .. } => Some(
            Message {
                src: msg.dest,
                dest: msg.src,
                body: Body {
                    msg_id: Some(id),
                    in_reply_to: msg.body.msg_id,
                    body: EchoMessage::InitOk {},
                },
            },
        ),
        EchoMessage::Echo { echo } => Some(
            Message {
                src: msg.dest,
                dest: msg.src,
                body: Body {
                    msg_id: Some(id),
                    in_reply_to: msg.body.msg_id,
                    body: EchoMessage::EchoOk { echo },
                },
            },
        ),
        _ => None,
    }
}

impl Processor<EchoMessage> for EchoMaelstromNode {
    /// Handled requests need one fresh id.
    open spec fn process_req(&self, msg: &Message<EchoMessage>) -> bool {
        match msg.body.body {
            EchoMessage::Init { .. } | EchoMessage::Echo { .. } => self.id < i64::MAX,
            _ => true,
        }
    }

    /// Exactly the owed reply is produced and the counter moves by one;
    /// anything else is returned unchanged inside the error.
    open spec fn process_ens(
        pre: &Self,
        post: &Self,
        msg: &Message<EchoMessage>,
        r: &Result<Option<Vec<Message<EchoMessage>>>, ProcessError<EchoMessage>>,
    ) -> bool {
        match echo_reply(*msg, pre.id) {
            Some(reply) => {
                &&& post.id == pre.id + 1
                &&& match r {
                    Ok(Some(v)) => v@ == seq![reply],
                    _ => false,
                }
            },
            None => {
                &&& *post == *pre
                &&& match r {
                    Err(ProcessError::UnrecognizedMessage(m)) => *m == *msg,
                    _ => false,
                }
            },
        }
    }

    fn process(&mut self, msg: Message<EchoMessage>) -> (r: Result<
        Option<Vec<Message<EchoMessage>>>,
        ProcessError<EchoMessage>,
    >) {
        match msg.body.body {
            EchoMessage::Init { node_id: _, node_ids: _ } => {
                let reply = Message {
                    src: msg.dest,
                    dest: msg.src,
                    body: Body {
                        msg_id: Some(self.id),
                        in_reply_to: msg.body.msg_id,
                        body: EchoMessage::InitOk {},
                    },
                };
                self.id = self.id + 1;
                let mut out: Vec<Message<EchoMessage>> = Vec::new();
                out.push(reply);
                Ok(Some(out))
            },
            EchoMessage::Echo { echo } => {
                let reply = Message {
                    src: msg.dest,
                    dest: msg.src,
                    body: Body {
                        msg_id: Some(self.id),
                        in_reply_to: msg.body.msg_id,
                        body: EchoMessage::EchoOk { echo },
                    },
                };
                self.id = self.id + 1;
                let mut out: Vec<Message<EchoMessage>> = Vec::new();
                out.push(reply);
                Ok(Some(out))
            },
            _ => Err(ProcessError::UnrecognizedMessage(msg)),
        }
    }
}


/// The text the derived Debug impl renders for an envelope; it depends on
/// the envelope value alone.
pub uninterp spec fn echo_message_debug_text(m: Message<EchoMessage>) -> Seq<char>;

impl ProcessError<EchoMessage> {
    /// Relies on std's format! with the derived Debug impl: the rendered
    /// text depends only on the offending envelope.
    #[verifier::external_body]
    pub fn describe(&self) -> (r: String)
        ensures
            r@ == "Received unknown message: "@ + echo_message_debug_text(
                crate::msg_protocol::unrecognized_message(*self),
            ),
    {
        let ProcessError::UnrecognizedMessage(m) = self;
        format!("Received unknown message: {:?}", m)
    }
}

} // verus!

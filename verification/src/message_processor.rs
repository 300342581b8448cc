//! The standalone echo processor: the single-file variant of the echo node,
//! with its own envelope types and a single optional reply per request. Its
//! envelopes carry the same mathematical values as the echo protocol's, so
//! the two share their wire-format specification.

use vstd::prelude::*;

use crate::echo::EchoMessageView;
use crate::msg_protocol::MsgView;

verus! {

pub open spec fn view_of_opt_usize(v: Option<usize>) -> Option<int> {
    match v {
        Some(x) => Some(x as int),
        None => None,
    }
}

/// One envelope of the standalone processor.
#[derive(Debug, Clone, PartialEq, Eq)]
pub struct Message {
    pub src: Option<String>,
    pub dest: Option<String>,
    pub body: Body,
}

/// The body of an envelope: ids and the typed payload.
#[derive(Debug, Clone, PartialEq, Eq)]
pub struct Body {
    pub msg_id: Option<usize>,
    pub in_reply_to: Option<usize>,
    pub body: MessageBodyType,
}

/// The payload variants the standalone processor knows.
#[derive(Debug, Clone, PartialEq, Eq)]
pub enum MessageBodyType {
    Init { node_id: String, node_ids: Vec<String> },
    InitOk {},
    EchoOk { echo: String },
    Echo { echo: String },
}

impl View for MessageBodyType {
    type V = EchoMessageView;

    open spec fn view(&self) -> EchoMessageView {
        match self {
            MessageBodyType::Init { node_id, node_ids } => EchoMessageView::Init {
                node_id: node_id@,
                node_ids: node_ids@.map_values(|s: String| s@),
            },
            MessageBodyType::InitOk {} => EchoMessageView::InitOk,
            MessageBodyType::EchoOk { echo } => EchoMessageView::EchoOk { echo: echo@ },
            MessageBodyType::Echo { echo } => EchoMessageView::Echo { echo: echo@ },
        }
    }
}

impl View for Message {
    type V = MsgView<EchoMessageView>;

    open spec fn view(&self) -> MsgView<EchoMessageView> {
        MsgView {
            src: crate::msg_protocol::view_of_opt_string(self.src),
            dest: crate::msg_protocol::view_of_opt_string(self.dest),
            msg_id: view_of_opt_usize(self.body.msg_id),
            in_reply_to: view_of_opt_usize(self.body.in_reply_to),
            payload: self.body.body@,
        }
    }
}

/// Processing failure: an unhandled payload variant, kept for diagnostics.
#[derive(Debug, Clone, PartialEq, Eq)]
pub enum ProcessorError {
    UnrecognizedMessage(Message),
}

/// The standalone processor's only state is its message-id counter.
#[derive(Debug, Clone, PartialEq, Eq)]
pub struct MessageProcessor {
    pub id: usize,
}

/// The single reply owed to an inbound envelope, or `None` for the payload
/// variants that are not handled as requests.
pub open spec fn processor_reply(msg: Message, id: usize) -> Option<Message> {
    match msg.body.body {
        MessageBodyType::Init { .. } => Some(
            Message {
                src: msg.dest,
                dest: msg.src,
                body: Body {
                    msg_id: Some(id),
                    in_reply_to: msg.body.msg_id,
                    body: MessageBodyType::InitOk {},
                },
            },
        ),
        MessageBodyType::Echo { echo } => Some(
            Message {
                src: msg.dest,
                dest: msg.src,
                body: Body {
                    msg_id: Some(id),
                    in_reply_to: msg.body.msg_id,
                    body: MessageBodyType::EchoOk { echo },
                },
            },
        ),
        _ => None,
    }
}

impl MessageProcessor {
    pub fn new() -> (p: MessageProcessor)
        ensures
            p.id == 1,
    {
        MessageProcessor { id: 1 }
    }

    /// Answer one inbound envelope: exactly the owed reply, with the
    /// counter moved by one; an unhandled variant is returned unchanged
    /// inside the error, with no state change.
    pub fn process(&mut self, msg: Message) -> (r: Result<Option<Message>, ProcessorError>)
        requires
            old(self).id < usize::MAX,
        ensures
            match processor_reply(msg, old(self).id) {
                Some(reply) => final(self).id == old(self).id + 1 && r == Ok::<
                    Option<Message>,
                    ProcessorError,
                >(Some(reply)),
                None => *final(self) == *old(self) && r == Err::<
                    Option<Message>,
                    ProcessorError,
                >(ProcessorError::UnrecognizedMessage(msg)),
            },
    {
        match msg.body.body {
            MessageBodyType::Init { node_id: _, node_ids: _ } => {
                let reply = Message {
                    src: msg.dest,
                    dest: msg.src,
                    body: Body {
                        msg_id: Some(self.id),
                        in_reply_to: msg.body.msg_id,
                        body: MessageBodyType::InitOk {},
                    },
                };
                self.id = self.id + 1;
                Ok(Some(reply))
            },
            MessageBodyType::Echo { echo } => {
                let reply = Message {
                    src: msg.dest,
                    dest: msg.src,
                    body: Body {
                        msg_id: Some(self.id),
                        in_reply_to: msg.body.msg_id,
                        body: MessageBodyType::EchoOk { echo },
                    },
                };
                self.id = self.id + 1;
                Ok(Some(reply))
            },
            _ => Err(ProcessorError::UnrecognizedMessage(msg)),
        }
    }
}


/// The text the derived Debug impl renders for an envelope; it depends on
/// the envelope value alone.
pub uninterp spec fn processor_message_debug_text(m: Message) -> Seq<char>;

/// The envelope a processing error complains about.
pub open spec fn error_message(e: ProcessorError) -> Message {
    match e {
        ProcessorError::UnrecognizedMessage(m) => m,
    }
}

impl ProcessorError {
    /// Relies on std's format! with the derived Debug impl: the rendered
    /// text depends only on the offending envelope.
    #[verifier::external_body]
    pub fn describe(&self) -> (r: String)
        ensures
            r@ == "Received unknown message: "@ + processor_message_debug_text(
                error_message(*self),
            ),
    {
        let ProcessorError::UnrecognizedMessage(m) = self;
        format!("Received unknown message: {:?}", m)
    }
}

} // verus!

//! The envelope/correlation layer shared by every node kind: an envelope
//! carries a source, a destination and a body, and the body carries the
//! node-assigned message id, an optional correlation id and a typed payload.

use vstd::prelude::*;

verus! {

/// One envelope on the wire: `{src, dest, body}`.
#[derive(Debug, Clone, PartialEq, Eq)]
pub struct Message<MessageType> {
    pub src: Option<String>,
    pub dest: Option<String>,
    pub body: Body<MessageType>,
}

/// The body of an envelope: the sender-assigned message id, the id of the
/// request this body replies to (if it is a reply), and the typed payload.
#[derive(Debug, Clone, PartialEq, Eq)]
pub struct Body<MessageType> {
    pub msg_id: Option<i64>,
    pub in_reply_to: Option<i64>,
    pub body: MessageType,
}

/// The mathematical value of an envelope: strings become sequences of
/// characters, ids become unbounded integers, and the payload becomes the
/// payload type's own view.
pub struct MsgView<P> {
    pub src: Option<Seq<char>>,
    pub dest: Option<Seq<char>>,
    pub msg_id: Option<int>,
    pub in_reply_to: Option<int>,
    pub payload: P,
}

pub open spec fn view_of_opt_string(s: Option<String>) -> Option<Seq<char>> {
    match s {
        Some(x) => Some(x@),
        None => None,
    }
}

pub open spec fn view_of_opt_i64(v: Option<i64>) -> Option<int> {
    match v {
        Some(x) => Some(x as int),
        None => None,
    }
}

impl<MessageType: View> View for Message<MessageType> {
    type V = MsgView<MessageType::V>;

    open spec fn view(&self) -> MsgView<MessageType::V> {
        MsgView {
            src: view_of_opt_string(self.src),
            dest: view_of_opt_string(self.dest),
            msg_id: view_of_opt_i64(self.body.msg_id),
            in_reply_to: view_of_opt_i64(self.body.in_reply_to),
            payload: self.body.body@,
        }
    }
}

/// The views of a list of envelopes, in emission order.
pub open spec fn views_of_msgs<MessageType: View>(
    s: Seq<Message<MessageType>>,
) -> Seq<MsgView<MessageType::V>> {
    s.map_values(|m: Message<MessageType>| m@)
}

/// The direct reply to an inbound envelope: source and destination swapped,
/// a fresh message id, and the inbound id as the correlation id.
pub open spec fn reply_view<P>(msg: MsgView<P>, id: int, payload: P) -> MsgView<P> {
    MsgView { src: msg.dest, dest: msg.src, msg_id: Some(id), in_reply_to: msg.msg_id, payload }
}

/// Processing failure: the node received a payload variant it does not
/// handle as a request; the offending envelope is kept for diagnostics.
#[derive(Debug, Clone, PartialEq, Eq)]
pub enum ProcessError<MessageType> {
    UnrecognizedMessage(Message<MessageType>),
}

/// A node consumes one inbound envelope and produces an ordered list of
/// outbound envelopes (or a processing error). Each implementor states its
/// exact behaviour through `process_req` and `process_ens`.
pub trait Processor<MessageType>: Sized {
    /// The inputs the implementor accepts without its id counter overflowing.
    spec fn process_req(&self, msg: &Message<MessageType>) -> bool;

    /// The implementor's full description of one processing step.
    spec fn process_ens(
        pre: &Self,
        post: &Self,
        msg: &Message<MessageType>,
        r: &Result<Option<Vec<Message<MessageType>>>, ProcessError<MessageType>>,
    ) -> bool;

    fn process(&mut self, msg: Message<MessageType>) -> (r: Result<
        Option<Vec<Message<MessageType>>>,
        ProcessError<MessageType>,
    >)
        requires
            old(self).process_req(&msg),
        ensures
            Self::process_ens(old(self), final(self), &msg, &r),
    ;
}

/// The envelope a processing error complains about.
pub open spec fn unrecognized_message<MessageType>(e: ProcessError<MessageType>) -> Message<
    MessageType,
> {
    match e {
        ProcessError::UnrecognizedMessage(m) => m,
    }
}

/// A deep copy of an optional node identifier, equal to the original.
pub fn clone_opt_string(s: &Option<String>) -> (r: Option<String>)
    ensures
        r == *s,
{
    match s {
        Some(x) => Some(x.clone()),
        None => None,
    }
}

} // verus!

//! The broadcast protocol node: deduplicated delivery, neighbor fanout and
//! the anti-entropy sweep that re-sends values a tracked peer is not yet
//! known to have seen. Every handler's outbound batch and state change is
//! given by the spec functions below, which `process` is proved to realize.

use vstd::prelude::*;

use crate::collections::IntSet;
use crate::collections::SeenMap;
use crate::collections::StringSet;
use crate::collections::TopologyMap;
use crate::collections::distinct_values;
use crate::collections::insert_value;
use crate::collections::record_seen;
use crate::collections::topo_lookup;
use crate::msg_protocol::Body;
use crate::msg_protocol::Message;
use crate::msg_protocol::MsgView;
use crate::msg_protocol::ProcessError;
use crate::msg_protocol::Processor;
use crate::msg_protocol::clone_opt_string;
use crate::msg_protocol::views_of_msgs;

verus! {

/// The payload variants of the broadcast protocol.
#[derive(Debug, Clone, PartialEq, Eq)]
pub enum BroadcastMessage {
    Init { node_id: String, node_ids: StringSet },
    InitOk {},
    Broadcast { message: i64 },
    BroadcastOk {},
    Read {},
    ReadOk { messages: IntSet },
    Topology { topology: TopologyMap },
    TopologyOk {},
}

/// The mathematical value of a broadcast payload.
pub enum BroadcastMessageView {
    Init { node_id: Seq<char>, node_ids: Seq<Seq<char>> },
    InitOk,
    Broadcast { message: i64 },
    BroadcastOk,
    Read,
    ReadOk { messages: Seq<i64> },
    Topology { topology: Seq<(Seq<char>, Seq<Seq<char>>)> },
    TopologyOk,
}

impl View for BroadcastMessage {
    type V = BroadcastMessageView;

    open spec fn view(&self) -> BroadcastMessageView {
        match self {
            BroadcastMessage::Init { node_id, node_ids } => BroadcastMessageView::Init {
                node_id: node_id@,
                node_ids: node_ids@,
            },
            BroadcastMessage::InitOk {} => BroadcastMessageView::InitOk,
            BroadcastMessage::Broadcast { message } => BroadcastMessageView::Broadcast {
                message: *message,
            },
            BroadcastMessage::BroadcastOk {} => BroadcastMessageView::BroadcastOk,
            BroadcastMessage::Read {} => BroadcastMessageView::Read,
            BroadcastMessage::ReadOk { messages } => BroadcastMessageView::ReadOk {
                messages: messages@,
            },
            BroadcastMessage::Topology { topology } => BroadcastMessageView::Topology {
                topology: topology@,
            },
            BroadcastMessage::TopologyOk {} => BroadcastMessageView::TopologyOk,
        }
    }
}

/// One outbound broadcast-protocol envelope, as a mathematical value.
pub type BMsgView = MsgView<BroadcastMessageView>;

/// The node's protocol state: identity, neighbor set, delivered values and
/// per-peer seen tracking, plus the strictly increasing message-id counter.
#[derive(Debug, Clone, PartialEq, Eq)]
pub struct BroadcastMaelstromNode {
    pub id: i64,
    pub messages: IntSet,
    pub messages_shared_per_node: SeenMap,
    pub node_id: Option<String>,
    pub node_ids: StringSet,
}

/// The mathematical value of the node state.
pub struct NodeView {
    pub id: int,
    pub messages: Seq<i64>,
    pub seen: Seq<(Seq<char>, Seq<i64>)>,
    pub node_id: Option<Seq<char>>,
    pub node_ids: Seq<Seq<char>>,
}

impl View for BroadcastMaelstromNode {
    type V = NodeView;

    open spec fn view(&self) -> NodeView {
        NodeView {
            id: self.id as int,
            messages: self.messages@,
            seen: self.messages_shared_per_node@,
            node_id: crate::msg_protocol::view_of_opt_string(self.node_id),
            node_ids: self.node_ids@,
        }
    }
}

/// The delivered set has no duplicates, the seen map has unique keys and
/// duplicate-free value sets.
pub open spec fn node_view_wf(n: NodeView) -> bool {
    &&& distinct_values(n.messages)
    &&& forall|i: int, j: int| 0 <= i < j < n.seen.len() ==> n.seen[i].0 != n.seen[j].0
    &&& forall|i: int| 0 <= i < n.seen.len() ==> distinct_values(#[trigger] n.seen[i].1)
}

impl BroadcastMaelstromNode {
    pub open spec fn wf(&self) -> bool {
        node_view_wf(self@)
    }

    pub fn new(
        id: i64,
        node_id: Option<String>,
        messages: IntSet,
        messages_shared_per_node: SeenMap,
        node_ids: StringSet,
    ) -> (node: BroadcastMaelstromNode)
        ensures
            node@ == (NodeView {
                id: id as int,
                messages: messages@,
                seen: messages_shared_per_node@,
                node_id: crate::msg_protocol::view_of_opt_string(node_id),
                node_ids: node_ids@,
            }),
            messages.wf() && messages_shared_per_node.wf() ==> node.wf(),
    {
        BroadcastMaelstromNode { id, node_id, messages, messages_shared_per_node, node_ids }
    }
}

impl Default for BroadcastMaelstromNode {
    fn default() -> (node: BroadcastMaelstromNode)
        ensures
            node@ == (NodeView {
                id: 1,
                messages: Seq::<i64>::empty(),
                seen: Seq::<(Seq<char>, Seq<i64>)>::empty(),
                node_id: None,
                node_ids: Seq::<Seq<char>>::empty(),
            }),
            node.wf(),
    {
        BroadcastMaelstromNode::new(1, None, IntSet::new(), SeenMap::new(), StringSet::new())
    }
}

/// A sender is tracked for anti-entropy only when its id has the shape of a
/// network peer id; seed clients outside the topology are not tracked.
pub open spec fn spec_is_network_peer(s: Seq<char>) -> bool {
    s.len() > 0 && s[0] == 'n'
}

/// The seen map after noting that the sender of `Broadcast(v)` has `v`.
pub open spec fn record_sender(
    seen: Seq<(Seq<char>, Seq<i64>)>,
    src: Option<Seq<char>>,
    v: i64,
) -> Seq<(Seq<char>, Seq<i64>)> {
    match src {
        Some(s) => if spec_is_network_peer(s) {
            record_seen(seen, s, v)
        } else {
            seen
        },
        None => seen,
    }
}

/// The catch-up values owed to one tracked peer: every delivered value the
/// peer is not known to have seen, except the value being processed (which
/// the normal fanout covers).
pub open spec fn peer_catch_up(
    peer: (Seq<char>, Seq<i64>),
    delivered: Seq<i64>,
    exclude: i64,
) -> Seq<i64> {
    if spec_is_network_peer(peer.0) {
        delivered.filter(|m: i64| !peer.1.contains(m) && m != exclude)
    } else {
        Seq::<i64>::empty()
    }
}

/// The given values, each paired with the destination peer.
pub open spec fn pair_up(dest: Seq<char>, vals: Seq<i64>) -> Seq<(Seq<char>, i64)> {
    vals.map_values(|v: i64| (dest, v))
}

/// All (destination, value) pairs of the anti-entropy sweep, peers in
/// tracking order and values in delivered order.
pub open spec fn sweep_pairs(
    seen: Seq<(Seq<char>, Seq<i64>)>,
    delivered: Seq<i64>,
    exclude: i64,
) -> Seq<(Seq<char>, i64)>
    decreases seen.len(),
{
    if seen.len() == 0 {
        Seq::<(Seq<char>, i64)>::empty()
    } else {
        sweep_pairs(seen.drop_last(), delivered, exclude) + pair_up(
            seen.last().0,
            peer_catch_up(seen.last(), delivered, exclude),
        )
    }
}

/// A gossip envelope: a fresh request, not a reply.
pub open spec fn gossip_msg(
    node_id: Option<Seq<char>>,
    dest: Seq<char>,
    id: int,
    value: i64,
) -> BMsgView {
    MsgView {
        src: node_id,
        dest: Some(dest),
        msg_id: Some(id),
        in_reply_to: None,
        payload: BroadcastMessageView::Broadcast { message: value },
    }
}

/// The sweep's envelopes, with consecutive ids from `base`.
pub open spec fn sweep_msgs(
    node_id: Option<Seq<char>>,
    base: int,
    pairs: Seq<(Seq<char>, i64)>,
) -> Seq<BMsgView> {
    Seq::new(pairs.len(), |i: int| gossip_msg(node_id, pairs[i].0, base + i, pairs[i].1))
}

/// Whether the sweep owes value `m` to the peer.
pub open spec fn catch_keep(peer: (Seq<char>, Seq<i64>), exclude: i64, m: i64) -> bool {
    !peer.1.contains(m) && m != exclude
}

/// Covering one more delivered value extends the peer's catch-up values by
/// that value exactly when the sweep owes it.
pub proof fn lemma_catch_up_take_step(peer: (Seq<char>, Seq<i64>), d: Seq<i64>, x: i64, t: int)
    requires
        0 <= t < d.len(),
    ensures
        peer_catch_up(peer, d.take(t + 1), x) == if spec_is_network_peer(peer.0) && catch_keep(
            peer,
            x,
            d[t],
        ) {
            peer_catch_up(peer, d.take(t), x).push(d[t])
        } else {
            peer_catch_up(peer, d.take(t), x)
        },
{
    if spec_is_network_peer(peer.0) {
        reveal(Seq::filter);
        assert(d.take(t + 1).drop_last() =~= d.take(t));
        assert(d.take(t + 1).last() == d[t]);
    }
}

/// A peer is owed at most one copy of each delivered value.
pub proof fn lemma_catch_up_len(peer: (Seq<char>, Seq<i64>), d: Seq<i64>, x: i64)
    ensures
        peer_catch_up(peer, d, x).len() <= d.len(),
    decreases d.len(),
{
    if spec_is_network_peer(peer.0) {
        reveal(Seq::filter);
        if d.len() > 0 {
            lemma_catch_up_len(peer, d.drop_last(), x);
        }
    }
}

/// A prefix of the delivered values never owes more than the whole.
pub proof fn lemma_catch_up_prefix_len(peer: (Seq<char>, Seq<i64>), d: Seq<i64>, x: i64, t: int)
    requires
        0 <= t <= d.len(),
    ensures
        peer_catch_up(peer, d.take(t), x).len() <= peer_catch_up(peer, d, x).len(),
    decreases d.len() - t,
{
    if t == d.len() {
        assert(d.take(t) =~= d);
    } else {
        lemma_catch_up_take_step(peer, d, x, t);
        lemma_catch_up_prefix_len(peer, d, x, t + 1);
    }
}

/// How many entries the seen map can have after recording one sender.
pub proof fn lemma_record_seen_len(seen: Seq<(Seq<char>, Seq<i64>)>, k: Seq<char>, v: i64)
    ensures
        record_seen(seen, k, v).len() <= seen.len() + 1,
    decreases seen.len(),
{
    if seen.len() > 0 && seen.first().0 != k {
        lemma_record_seen_len(seen.drop_first(), k, v);
    }
}

/// The sweep emits at most one envelope per (peer, delivered value) pair.
pub proof fn lemma_sweep_pairs_len(
    seen: Seq<(Seq<char>, Seq<i64>)>,
    delivered: Seq<i64>,
    exclude: i64,
)
    ensures
        sweep_pairs(seen, delivered, exclude).len() <= seen.len() * delivered.len(),
    decreases seen.len(),
{
    if seen.len() > 0 {
        let prefix = seen.drop_last();
        lemma_sweep_pairs_len(prefix, delivered, exclude);
        lemma_catch_up_len(seen.last(), delivered, exclude);
        assert((seen.len() - 1) * delivered.len() + delivered.len() == seen.len()
            * delivered.len()) by (nonlinear_arith);
    }
}

/// Covering one more peer appends exactly that peer's catch-up pairs.
pub proof fn lemma_sweep_pairs_take_step(
    seen: Seq<(Seq<char>, Seq<i64>)>,
    delivered: Seq<i64>,
    exclude: i64,
    i: int,
)
    requires
        0 <= i < seen.len(),
    ensures
        sweep_pairs(seen.take(i + 1), delivered, exclude) == sweep_pairs(
            seen.take(i),
            delivered,
            exclude,
        ) + pair_up(seen[i].0, peer_catch_up(seen[i], delivered, exclude)),
{
    let t = seen.take(i + 1);
    assert(t.drop_last() =~= seen.take(i));
    assert(t.last() == seen[i]);
}

/// Prefixes of the sweep never emit more than the whole sweep.
pub proof fn lemma_sweep_prefix_len(
    seen: Seq<(Seq<char>, Seq<i64>)>,
    delivered: Seq<i64>,
    exclude: i64,
    i: int,
)
    requires
        0 <= i <= seen.len(),
    ensures
        sweep_pairs(seen.take(i), delivered, exclude).len() <= sweep_pairs(
            seen,
            delivered,
            exclude,
        ).len(),
    decreases seen.len() - i,
{
    if i == seen.len() {
        assert(seen.take(i) =~= seen);
    } else {
        lemma_sweep_pairs_take_step(seen, delivered, exclude, i);
        lemma_sweep_prefix_len(seen, delivered, exclude, i + 1);
    }
}

/// The destinations of the fanout: every neighbor except the immediate
/// sender; a broadcast without a sender is not fanned out.
pub open spec fn fanout_dests(node_ids: Seq<Seq<char>>, src: Option<Seq<char>>) -> Seq<Seq<char>> {
    match src {
        Some(s) => crate::collections::remove_string(node_ids, s),
        None => Seq::<Seq<char>>::empty(),
    }
}

/// The fanout's envelopes, with consecutive ids from `base`.
pub open spec fn fanout_msgs(
    node_id: Option<Seq<char>>,
    base: int,
    dests: Seq<Seq<char>>,
    value: i64,
) -> Seq<BMsgView> {
    Seq::new(dests.len(), |i: int| gossip_msg(node_id, dests[i], base + i, value))
}

/// `Init`: adopt the identity, keep every other given node as a neighbor,
/// reply `InitOk`.
pub open spec fn init_step(
    pre: NodeView,
    msg: BMsgView,
    node_id: Seq<char>,
    node_ids: Seq<Seq<char>>,
) -> (NodeView, Seq<BMsgView>) {
    (
        NodeView {
            id: pre.id + 1,
            messages: pre.messages,
            seen: pre.seen,
            node_id: Some(node_id),
            node_ids: crate::collections::remove_string(node_ids, node_id),
        },
        seq![crate::msg_protocol::reply_view(msg, pre.id, BroadcastMessageView::InitOk)],
    )
}

/// `Broadcast(v)`: acknowledge, note the sender as having `v`, append the
/// anti-entropy catch-up batch, and fan a novel value out to every neighbor
/// but the sender; ids are consecutive in emission order.
pub open spec fn broadcast_step(pre: NodeView, msg: BMsgView, value: i64) -> (
    NodeView,
    Seq<BMsgView>,
) {
    let seen1 = record_sender(pre.seen, msg.src, value);
    let pairs = sweep_pairs(seen1, pre.messages, value);
    let novel = !pre.messages.contains(value);
    let dests = if novel {
        fanout_dests(pre.node_ids, msg.src)
    } else {
        Seq::<Seq<char>>::empty()
    };
    let outs = seq![
        crate::msg_protocol::reply_view(msg, pre.id, BroadcastMessageView::BroadcastOk),
    ] + sweep_msgs(pre.node_id, pre.id + 1, pairs) + fanout_msgs(
        pre.node_id,
        pre.id + 1 + pairs.len(),
        dests,
        value,
    );
    (
        NodeView {
            id: pre.id + outs.len(),
            messages: insert_value(pre.messages, value),
            seen: seen1,
            node_id: pre.node_id,
            node_ids: pre.node_ids,
        },
        outs,
    )
}

/// `Read`: reply with a snapshot of the delivered set.
pub open spec fn read_step(pre: NodeView, msg: BMsgView) -> (NodeView, Seq<BMsgView>) {
    (
        NodeView { id: pre.id + 1, ..pre },
        seq![
            crate::msg_protocol::reply_view(
                msg,
                pre.id,
                BroadcastMessageView::ReadOk { messages: pre.messages },
            ),
        ],
    )
}

/// `Topology`: reply `TopologyOk`; replace the neighbor set only when the
/// mapping names this node's own id, otherwise leave it untouched.
pub open spec fn topology_step(
    pre: NodeView,
    msg: BMsgView,
    topology: Seq<(Seq<char>, Seq<Seq<char>>)>,
) -> (NodeView, Seq<BMsgView>) {
    let node_ids = match pre.node_id {
        Some(nid) => match topo_lookup(topology, nid) {
            Some(s) => s,
            None => pre.node_ids,
        },
        None => pre.node_ids,
    };
    (
        NodeView { id: pre.id + 1, node_ids, ..pre },
        seq![crate::msg_protocol::reply_view(msg, pre.id, BroadcastMessageView::TopologyOk)],
    )
}

/// The node's whole behaviour on one inbound envelope: `None` marks the
/// payload variants that are not handled as requests.
pub open spec fn spec_process(pre: NodeView, msg: BMsgView) -> Option<(NodeView, Seq<BMsgView>)> {
    match msg.payload {
        BroadcastMessageView::Init { node_id, node_ids } => Some(
            init_step(pre, msg, node_id, node_ids),
        ),
        BroadcastMessageView::Broadcast { message } => Some(broadcast_step(pre, msg, message)),
        BroadcastMessageView::Read => Some(read_step(pre, msg)),
        BroadcastMessageView::Topology { topology } => Some(topology_step(pre, msg, topology)),
        _ => None,
    }
}

/// An upper bound on how many envelopes one processing step can emit.
pub open spec fn max_outbound(n: NodeView) -> int {
    1 + n.messages.len() * (n.seen.len() + 1) + n.node_ids.len() as int
}

impl Processor<BroadcastMessage> for BroadcastMaelstromNode {
    /// The state is well formed and the id counter cannot overflow on the
    /// largest batch this envelope can trigger.
    open spec fn process_req(&self, msg: &Message<BroadcastMessage>) -> bool {
        &&& self.wf()
        &&& match msg@.payload {
            BroadcastMessageView::Broadcast { .. } => {
                &&& self@.id + max_outbound(self@) <= i64::MAX
                &&& max_outbound(self@) <= i64::MAX
            },
            BroadcastMessageView::Init { .. } | BroadcastMessageView::Read
                | BroadcastMessageView::Topology { .. } => self@.id < i64::MAX,
            _ => true,
        }
    }

    /// Handled variants produce exactly the state and batch of
    /// `spec_process`; anything else is returned unchanged inside the
    /// error, with no state change and nothing emitted.
    open spec fn process_ens(
        pre: &Self,
        post: &Self,
        msg: &Message<BroadcastMessage>,
        r: &Result<Option<Vec<Message<BroadcastMessage>>>, ProcessError<BroadcastMessage>>,
    ) -> bool {
        match spec_process(pre@, msg@) {
            Some((p2, outs)) => {
                &&& post@ == p2
                &&& post.wf()
                &&& match r {
                    Ok(Some(v)) => views_of_msgs(v@) == outs,
                    _ => false,
                }
            },
            None => {
                &&& *post == *pre
                &&& match r {
                    Err(ProcessError::UnrecognizedMessage(m)) => *m == *msg,
                    _ => false,
                }
            },
        }
    }

    fn process(&mut self, msg: Message<BroadcastMessage>) -> (r: Result<
        Option<Vec<Message<BroadcastMessage>>>,
        ProcessError<BroadcastMessage>,
    >) {
        let ghost pre = self@;
        match msg.body.body {
            BroadcastMessage::Init { node_id, node_ids } => {
                let reply = Message {
                    src: msg.dest,
                    dest: msg.src,
                    body: Body {
                        msg_id: Some(self.id),
                        in_reply_to: msg.body.msg_id,
                        body: BroadcastMessage::InitOk {},
                    },
                };
                self.id = self.id + 1;
                self.node_id = Some(node_id.clone());
                self.node_ids = node_ids.without(&node_id);
                let mut out: Vec<Message<BroadcastMessage>> = Vec::new();
                out.push(reply);
                proof {
                    assert(views_of_msgs(out@) =~= init_step(pre, msg@, node_id@, node_ids@).1);
                }
                Ok(Some(out))
            },
            BroadcastMessage::Broadcast { message } => {
                let broadcast_ok_reply_msg = Message {
                    src: msg.dest,
                    dest: clone_opt_string(&msg.src),
                    body: Body {
                        msg_id: Some(self.id),
                        in_reply_to: msg.body.msg_id,
                        body: BroadcastMessage::BroadcastOk {},
                    },
                };
                proof {
                    assert(pre.messages.len() * (pre.seen.len() + 1) >= 0) by (nonlinear_arith);
                }
                self.id = self.id + 1;

                if let Some(src) = &msg.src {
                    if is_network_peer(src) {
                        self.messages_shared_per_node.record(src, message);
                    }
                }
                let ghost seen1 = self@.seen;
                proof {
                    assert(seen1 == record_sender(pre.seen, msg@.src, message));
                }

                let ghost pairs = sweep_pairs(seen1, pre.messages, message);
                proof {
                    lemma_sweep_pairs_len(seen1, pre.messages, message);
                    if seen1 != pre.seen {
                        match msg@.src {
                            Some(s) => lemma_record_seen_len(pre.seen, s, message),
                            None => (),
                        }
                    }
                    assert(seen1.len() <= pre.seen.len() + 1);
                    assert(seen1.len() * pre.messages.len() <= pre.messages.len() * (
                    pre.seen.len() + 1)) by (nonlinear_arith)
                        requires
                            seen1.len() <= pre.seen.len() + 1,
                    ;
                    assert(pairs.len() <= pre.messages.len() * (pre.seen.len() + 1));
                }
                let prev_messages_to_broadcast = broadcast_all_seen_messages(self, &message);
                self.id = self.id + prev_messages_to_broadcast.len() as i64;

                let novel = self.messages.insert(message);
                let ghost fbase = pre.id + 1 + pairs.len();
                let ghost ackv = crate::msg_protocol::reply_view(
                    msg@,
                    pre.id,
                    BroadcastMessageView::BroadcastOk,
                );

                let mut out: Vec<Message<BroadcastMessage>> = Vec::new();
                out.push(broadcast_ok_reply_msg);
                let mut prev = prev_messages_to_broadcast;
                proof {
                    assert(views_of_msgs(out@) =~= seq![ackv]);
                }
                let ghost sweep_part = views_of_msgs(prev@);
                out.append(&mut prev);
                proof {
                    assert(views_of_msgs(out@) =~= seq![ackv] + sweep_part);
                }

                if novel {
                    if let Some(src) = &msg.src {
                        let n = self.node_ids.items.len();
                        let mut j: usize = 0;
                        proof {
                            assert(pre.node_ids.take(0) =~= Seq::<Seq<char>>::empty());
                            reveal(Seq::filter);
                            assert(crate::collections::remove_string(
                                pre.node_ids.take(0),
                                src@,
                            ) =~= Seq::<Seq<char>>::empty());
                            assert(views_of_msgs(out@) =~= seq![ackv] + sweep_part + fanout_msgs(
                                pre.node_id,
                                fbase,
                                crate::collections::remove_string(pre.node_ids.take(0), src@),
                                message,
                            ));
                        }
                        while j < n
                            invariant
                                j <= n,
                                n == pre.node_ids.len(),
                                msg@.src == Some(src@),
                                self@.node_ids == pre.node_ids,
                                self@.node_id == pre.node_id,
                                self@.messages == insert_value(pre.messages, message),
                                self@.seen == seen1,
                                pre.id + max_outbound(pre) <= i64::MAX,
                                pairs.len() <= pre.messages.len() * (pre.seen.len() + 1),
                                fbase == pre.id + 1 + pairs.len(),
                                crate::collections::remove_string(
                                    pre.node_ids.take(j as int),
                                    src@,
                                ).len() <= j,
                                self@.id == fbase + crate::collections::remove_string(
                                    pre.node_ids.take(j as int),
                                    src@,
                                ).len(),
                                views_of_msgs(out@) == seq![ackv] + sweep_part + fanout_msgs(
                                    pre.node_id,
                                    fbase,
                                    crate::collections::remove_string(
                                        pre.node_ids.take(j as int),
                                        src@,
                                    ),
                                    message,
                                ),
                            decreases n - j,
                        {
                            let ghost emitted = crate::collections::remove_string(
                                pre.node_ids.take(j as int),
                                src@,
                            );
                            proof {
                                crate::collections::lemma_remove_string_take_step(
                                    pre.node_ids,
                                    src@,
                                    j as int,
                                );
                            }
                            if !(self.node_ids.items[j] == *src) {
                                let ghost pre_views = views_of_msgs(out@);
                                out.push(
                                    Message {
                                        src: clone_opt_string(&self.node_id),
                                        dest: Some(self.node_ids.items[j].clone()),
                                        body: Body {
                                            msg_id: Some(self.id),
                                            in_reply_to: None,
                                            body: BroadcastMessage::Broadcast { message },
                                        },
                                    },
                                );
                                self.id = self.id + 1;
                                proof {
                                    assert(views_of_msgs(out@) =~= pre_views.push(out@.last()@));
                                    assert(views_of_msgs(out@) =~= seq![ackv] + sweep_part
                                        + fanout_msgs(
                                        pre.node_id,
                                        fbase,
                                        emitted.push(pre.node_ids[j as int]),
                                        message,
                                    ));
                                }
                            }
                            j += 1;
                        }
                        proof {
                            assert(pre.node_ids.take(n as int) =~= pre.node_ids);
                        }
                    }
                }
                proof {
                    let (p2, outs) = broadcast_step(pre, msg@, message);
                    if !(pre.messages.contains(message)) && msg@.src is Some {
                    } else {
                        assert(views_of_msgs(out@) =~= seq![ackv] + sweep_part + fanout_msgs(
                            pre.node_id,
                            fbase,
                            Seq::<Seq<char>>::empty(),
                            message,
                        ));
                    }
                    assert(views_of_msgs(out@) =~= outs);
                    assert(self@ == p2);
                }
                Ok(Some(out))
            },
            BroadcastMessage::Read {} => {
                let reply = Message {
                    src: msg.dest,
                    dest: msg.src,
                    body: Body {
                        msg_id: Some(self.id),
                        in_reply_to: msg.body.msg_id,
                        body: BroadcastMessage::ReadOk { messages: self.messages.duplicate() },
                    },
                };
                self.id = self.id + 1;
                let mut out: Vec<Message<BroadcastMessage>> = Vec::new();
                out.push(reply);
                proof {
                    assert(views_of_msgs(out@) =~= read_step(pre, msg@).1);
                }
                Ok(Some(out))
            },
            BroadcastMessage::Topology { topology } => {
                let reply = Message {
                    src: msg.dest,
                    dest: msg.src,
                    body: Body {
                        msg_id: Some(self.id),
                        in_reply_to: msg.body.msg_id,
                        body: BroadcastMessage::TopologyOk {},
                    },
                };
                if let Some(node) = &self.node_id {
                    match topology.get(node) {
                        Some(found) => {
                            self.node_ids = found.duplicate();
                        },
                        None => (),
                    }
                }
                self.id = self.id + 1;
                let mut out: Vec<Message<BroadcastMessage>> = Vec::new();
                out.push(reply);
                proof {
                    assert(views_of_msgs(out@) =~= topology_step(pre, msg@, topology@).1);
                }
                Ok(Some(out))
            },
            _ => Err(ProcessError::UnrecognizedMessage(msg)),
        }
    }
}

/// Whether the id names a network peer (ids of peers inside the topology
/// start with `n`; seed clients do not).
pub fn is_network_peer(s: &String) -> (b: bool)
    ensures
        b == spec_is_network_peer(s@),
{
    let st: &str = s.as_str();
    if st.unicode_len() > 0 {
        st.get_char(0) == 'n'
    } else {
        false
    }
}

/// The anti-entropy sweep: one `Broadcast` envelope per (tracked peer,
/// delivered value the peer lacks) pair, skipping `filter_message`, with
/// consecutive ids starting at the node's current counter value.
pub fn broadcast_all_seen_messages(
    processor: &BroadcastMaelstromNode,
    filter_message: &i64,
) -> (r: Vec<Message<BroadcastMessage>>)
    requires
        processor@.id + sweep_pairs(processor@.seen, processor@.messages, *filter_message).len()
            <= i64::MAX,
    ensures
        views_of_msgs(r@) == sweep_msgs(
            processor@.node_id,
            processor@.id as int,
            sweep_pairs(processor@.seen, processor@.messages, *filter_message),
        ),
        r@.len() == sweep_pairs(processor@.seen, processor@.messages, *filter_message).len(),
{
    let ghost seen = processor@.seen;
    let ghost delivered = processor@.messages;
    let ghost x = *filter_message;
    let ghost all_pairs = sweep_pairs(seen, delivered, x);
    let base = processor.id;
    let mut counter: i64 = processor.id;
    let mut r: Vec<Message<BroadcastMessage>> = Vec::new();

    let n_peers = processor.messages_shared_per_node.entries.len();
    let mut i: usize = 0;
    proof {
        assert(seen.take(0) =~= Seq::<(Seq<char>, Seq<i64>)>::empty());
        assert(views_of_msgs(r@) =~= sweep_msgs(
            processor@.node_id,
            base as int,
            sweep_pairs(seen.take(0), delivered, x),
        ));
    }
    while i < n_peers
        invariant
            i <= n_peers,
            n_peers == seen.len(),
            processor@.seen == seen,
            processor@.messages == delivered,
            x == *filter_message,
            all_pairs == sweep_pairs(seen, delivered, x),
            base == processor@.id,
            base + all_pairs.len() <= i64::MAX,
            r@.len() == sweep_pairs(seen.take(i as int), delivered, x).len(),
            counter == base + r@.len(),
            views_of_msgs(r@) == sweep_msgs(
                processor@.node_id,
                base as int,
                sweep_pairs(seen.take(i as int), delivered, x),
            ),
        decreases n_peers - i,
    {
        let ghost done = sweep_pairs(seen.take(i as int), delivered, x);
        proof {
            lemma_sweep_pairs_take_step(seen, delivered, x, i as int);
            lemma_sweep_prefix_len(seen, delivered, x, i as int + 1);
        }
        let entry_node: &String = &processor.messages_shared_per_node.entries[i].0;
        let entry_seen: &IntSet = &processor.messages_shared_per_node.entries[i].1;
        let ghost peer = seen[i as int];
        let ghost catch = peer_catch_up(peer, delivered, x);
        if is_network_peer(entry_node) {
            let n_msgs = processor.messages.items.len();
            let mut t: usize = 0;
            proof {
                assert(delivered.take(0) =~= Seq::<i64>::empty());
                reveal(Seq::filter);
                assert(peer_catch_up(peer, delivered.take(0), x) =~= Seq::<i64>::empty());
            }
            while t < n_msgs
                invariant
                    t <= n_msgs,
                    n_msgs == delivered.len(),
                    processor@.seen == seen,
                    processor@.messages == delivered,
                    x == *filter_message,
                    base == processor@.id,
                    base + all_pairs.len() <= i64::MAX,
                    i < seen.len(),
                    peer == seen[i as int],
                    spec_is_network_peer(peer.0),
                    entry_node@ == peer.0,
                    entry_seen@ == peer.1,
                    done == sweep_pairs(seen.take(i as int), delivered, x),
                    catch == peer_catch_up(peer, delivered, x),
                    done + pair_up(peer.0, catch) == sweep_pairs(
                        seen.take(i as int + 1),
                        delivered,
                        x,
                    ),
                    sweep_pairs(seen.take(i as int + 1), delivered, x).len() <= all_pairs.len(),
                    r@.len() == done.len() + peer_catch_up(peer, delivered.take(t as int), x).len(),
                    counter == base + r@.len(),
                    views_of_msgs(r@) == sweep_msgs(
                        processor@.node_id,
                        base as int,
                        done + pair_up(peer.0, peer_catch_up(peer, delivered.take(t as int), x)),
                    ),
                decreases n_msgs - t,
            {
                let ghost emitted = peer_catch_up(peer, delivered.take(t as int), x);
                proof {
                    lemma_catch_up_take_step(peer, delivered, x, t as int);
                    lemma_catch_up_prefix_len(peer, delivered, x, t as int + 1);
                }
                let m = processor.messages.items[t];
                if !entry_seen.contains(m) && m != *filter_message {
                    let ghost pre_views = views_of_msgs(r@);
                    proof {
                        assert(peer_catch_up(peer, delivered.take(t as int + 1), x)
                            == emitted.push(m));
                        assert(emitted.len() + 1 <= catch.len());
                        assert(pair_up(peer.0, catch).len() == catch.len());
                        assert(counter < i64::MAX);
                    }
                    r.push(
                        Message {
                            src: clone_opt_string(&processor.node_id),
                            dest: Some(entry_node.clone()),
                            body: Body {
                                msg_id: Some(counter),
                                in_reply_to: None,
                                body: BroadcastMessage::Broadcast { message: m },
                            },
                        },
                    );
                    counter = counter + 1;
                    proof {
                        assert(views_of_msgs(r@) =~= pre_views.push(r@.last()@));
                        assert(pair_up(peer.0, emitted.push(m)) =~= pair_up(
                            peer.0,
                            emitted,
                        ).push((peer.0, m)));
                        assert(views_of_msgs(r@) =~= sweep_msgs(
                            processor@.node_id,
                            base as int,
                            done + pair_up(peer.0, emitted.push(m)),
                        ));
                    }
                }
                t += 1;
            }
            proof {
                assert(delivered.take(n_msgs as int) =~= delivered);
            }
        } else {
            proof {
                assert(catch =~= Seq::<i64>::empty());
                assert(pair_up(peer.0, catch) =~= Seq::<(Seq<char>, i64)>::empty());
                assert(done + pair_up(peer.0, catch) =~= done);
            }
        }
        i += 1;
    }
    proof {
        assert(seen.take(n_peers as int) =~= seen);
    }
    r
}


/// The text the derived Debug impl renders for an envelope; it depends on
/// the envelope value alone.
pub uninterp spec fn broadcast_message_debug_text(m: Message<BroadcastMessage>) -> Seq<char>;

impl ProcessError<BroadcastMessage> {
    /// Relies on std's format! with the derived Debug impl: the rendered
    /// text depends only on the offending envelope.
    #[verifier::external_body]
    pub fn describe(&self) -> (r: String)
        ensures
            r@ == "Received unknown message: "@ + broadcast_message_debug_text(
                crate::msg_protocol::unrecognized_message(*self),
            ),
    {
        let ProcessError::UnrecognizedMessage(m) = self;
        format!("Received unknown message: {:?}", m)
    }
}

} // verus!

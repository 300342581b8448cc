//! The protocol's guarantees, proved once and for all over the broadcast
//! node's functional specification: idempotent delivery, deduplication,
//! fanout exclusion, anti-entropy coverage, topology gating and monotonic
//! message ids.

use vstd::prelude::*;

use crate::broadcast::BMsgView;
use crate::broadcast::BroadcastMessageView;
use crate::broadcast::NodeView;
use crate::broadcast::broadcast_step;
use crate::broadcast::fanout_msgs;
use crate::broadcast::gossip_msg;
use crate::broadcast::pair_up;
use crate::broadcast::peer_catch_up;
use crate::broadcast::record_sender;
use crate::broadcast::spec_process;
use crate::broadcast::sweep_msgs;
use crate::broadcast::sweep_pairs;
use crate::broadcast::topology_step;
use crate::collections::insert_value;
use crate::collections::lemma_remove_string_origin;
use crate::collections::remove_string;
use crate::collections::topo_lookup;
use crate::msg_protocol::reply_view;

verus! {

/// The value a broadcast payload carries.
pub open spec fn broadcast_value(p: BroadcastMessageView) -> i64 {
    match p {
        BroadcastMessageView::Broadcast { message } => message,
        _ => 0,
    }
}

/// Every envelope of the sequence carries a `Broadcast` payload.
pub open spec fn all_broadcasts(msgs: Seq<BMsgView>) -> bool {
    forall|i: int| 0 <= i < msgs.len() ==> msgs[i].payload is Broadcast
}

/// The values carried by a sequence of broadcast envelopes.
pub open spec fn values_of(msgs: Seq<BMsgView>) -> Seq<i64> {
    msgs.map_values(|m: BMsgView| broadcast_value(m.payload))
}

/// The node state after processing a sequence of broadcast envelopes.
pub open spec fn run_broadcasts(pre: NodeView, msgs: Seq<BMsgView>) -> NodeView
    decreases msgs.len(),
{
    if msgs.len() == 0 {
        pre
    } else {
        broadcast_step(
            run_broadcasts(pre, msgs.drop_last()),
            msgs.last(),
            broadcast_value(msgs.last().payload),
        ).0
    }
}

/// Inserting into the set model adds exactly that value's membership.
proof fn lemma_insert_value_to_set(s: Seq<i64>, v: i64)
    ensures
        insert_value(s, v).to_set() == s.to_set().insert(v),
{
    if s.contains(v) {
        assert(insert_value(s, v).to_set() =~= s.to_set().insert(v));
    } else {
        assert forall|x: i64| s.push(v).contains(x) implies s.contains(x) || x == v by {
            let i = choose|i: int| 0 <= i < s.push(v).len() && s.push(v)[i] == x;
            if i < s.len() {
                assert(s[i] == x);
            }
        }
        assert forall|x: i64| s.contains(x) implies s.push(v).contains(x) by {
            let i = choose|i: int| 0 <= i < s.len() && s[i] == x;
            assert(s.push(v)[i] == x);
        }
        assert(s.push(v).contains(v)) by {
            assert(s.push(v)[s.len() as int] == v);
        }
        assert(insert_value(s, v).to_set() =~= s.to_set().insert(v));
    }
}

/// Idempotent delivery: processing `Broadcast(v)` twice (the second time
/// from any sender) leaves the delivered set exactly as after the first
/// processing, and the second processing fans nothing out: it emits only
/// the acknowledgement and its anti-entropy batch.
pub proof fn lemma_idempotent_delivery(pre: NodeView, m1: BMsgView, m2: BMsgView, v: i64)
    requires
        m1.payload == (BroadcastMessageView::Broadcast { message: v }),
        m2.payload == (BroadcastMessageView::Broadcast { message: v }),
    ensures
        broadcast_step(pre, m1, v).0.messages.contains(v),
        broadcast_step(broadcast_step(pre, m1, v).0, m2, v).0.messages == broadcast_step(
            pre,
            m1,
            v,
        ).0.messages,
        ({
            let s1 = broadcast_step(pre, m1, v).0;
            let pairs2 = sweep_pairs(record_sender(s1.seen, m2.src, v), s1.messages, v);
            broadcast_step(s1, m2, v).1 == seq![
                reply_view(m2, s1.id, BroadcastMessageView::BroadcastOk),
            ] + sweep_msgs(s1.node_id, s1.id + 1, pairs2)
        }),
{
    let s1 = broadcast_step(pre, m1, v).0;
    if !pre.messages.contains(v) {
        assert(s1.messages == pre.messages.push(v));
        assert(s1.messages[pre.messages.len() as int] == v);
    }
    assert(s1.messages.contains(v));
    assert(insert_value(s1.messages, v) == s1.messages);
    let pairs2 = sweep_pairs(record_sender(s1.seen, m2.src, v), s1.messages, v);
    let ack2 = seq![reply_view(m2, s1.id, BroadcastMessageView::BroadcastOk)];
    let sweep2 = sweep_msgs(s1.node_id, s1.id + 1, pairs2);
    assert(fanout_msgs(s1.node_id, s1.id + 1 + pairs2.len(), Seq::<Seq<char>>::empty(), v)
        =~= Seq::<BMsgView>::empty());
    assert(broadcast_step(s1, m2, v).1 =~= ack2 + sweep2);
}

/// Dedup correctness: after any sequence of `Broadcast` envelopes, the
/// delivered set is exactly the old delivered set plus the distinct values
/// received, regardless of order or repetition.
pub proof fn lemma_dedup_correctness(pre: NodeView, msgs: Seq<BMsgView>)
    requires
        all_broadcasts(msgs),
    ensures
        run_broadcasts(pre, msgs).messages.to_set() == pre.messages.to_set() + values_of(
            msgs,
        ).to_set(),
    decreases msgs.len(),
{
    if msgs.len() == 0 {
        assert(values_of(msgs).to_set() =~= Set::<i64>::empty());
        assert(pre.messages.to_set() =~= pre.messages.to_set() + values_of(msgs).to_set());
    } else {
        let prefix = msgs.drop_last();
        assert(all_broadcasts(prefix));
        lemma_dedup_correctness(pre, prefix);
        let mid = run_broadcasts(pre, prefix);
        let v = broadcast_value(msgs.last().payload);
        lemma_insert_value_to_set(mid.messages, v);
        assert(values_of(msgs) =~= values_of(prefix).push(v));
        lemma_insert_value_to_set(values_of(prefix), v);
        assert(insert_value(values_of(prefix), v).to_set() == values_of(prefix).to_set().insert(
            v,
        ));
        assert(values_of(msgs).to_set() == values_of(prefix).to_set().insert(v)) by {
            if values_of(prefix).contains(v) {
                assert(values_of(msgs) == insert_value(values_of(prefix), v).push(v));
                assert forall|x: i64| values_of(msgs).contains(x) implies values_of(
                    prefix,
                ).to_set().insert(v).contains(x) by {
                    let i = choose|i: int|
                        0 <= i < values_of(msgs).len() && values_of(msgs)[i] == x;
                    if i < values_of(prefix).len() {
                        assert(values_of(prefix)[i] == x);
                    }
                }
                assert forall|x: i64|
                    values_of(prefix).to_set().insert(v).contains(x) implies values_of(
                    msgs,
                ).contains(x) by {
                    if values_of(prefix).contains(x) {
                        let i = choose|i: int|
                            0 <= i < values_of(prefix).len() && values_of(prefix)[i] == x;
                        assert(values_of(msgs)[i] == x);
                    } else {
                        assert(values_of(msgs)[values_of(prefix).len() as int] == v);
                    }
                }
                assert(values_of(msgs).to_set() =~= values_of(prefix).to_set().insert(v));
            } else {
                assert(values_of(msgs) == insert_value(values_of(prefix), v));
            }
        }
        assert(run_broadcasts(pre, msgs).messages.to_set() == mid.messages.to_set().insert(v));
        assert(mid.messages.to_set().insert(v) =~= pre.messages.to_set() + values_of(
            msgs,
        ).to_set());
    }
}

/// The delivered set only grows: whatever one step does, every value
/// delivered before is still delivered after, in the same position.
pub proof fn lemma_delivered_only_grows(pre: NodeView, msg: BMsgView)
    ensures
        match spec_process(pre, msg) {
            Some((post, outs)) => pre.messages.is_prefix_of(post.messages),
            None => true,
        },
{
    match spec_process(pre, msg) {
        Some((post, outs)) => {
            assert(pre.messages.is_prefix_of(pre.messages)) by {
                assert(pre.messages =~= pre.messages.take(pre.messages.len() as int));
            }
            match msg.payload {
                BroadcastMessageView::Broadcast { message } => {
                    if !pre.messages.contains(message) {
                        assert(post.messages == pre.messages.push(message));
                        assert(pre.messages =~= post.messages.take(pre.messages.len() as int));
                    }
                },
                _ => {},
            }
        },
        None => {},
    }
}

/// Fanout exclusion: no envelope of the fanout portion of a `Broadcast`
/// step is addressed to the immediate sender.
pub proof fn lemma_fanout_exclusion(pre: NodeView, msg: BMsgView, v: i64, s: Seq<char>)
    requires
        msg.payload == (BroadcastMessageView::Broadcast { message: v }),
        msg.src == Some(s),
    ensures
        ({
            let outs = broadcast_step(pre, msg, v).1;
            let k = 1 + sweep_pairs(record_sender(pre.seen, msg.src, v), pre.messages, v).len();
            forall|i: int| k <= i < outs.len() ==> outs[i].dest != Some(s)
        }),
{
    let outs = broadcast_step(pre, msg, v).1;
    let pairs = sweep_pairs(record_sender(pre.seen, msg.src, v), pre.messages, v);
    let k = 1 + pairs.len();
    let novel = !pre.messages.contains(v);
    let dests = if novel {
        remove_string(pre.node_ids, s)
    } else {
        Seq::<Seq<char>>::empty()
    };
    assert forall|i: int| k <= i < outs.len() implies outs[i].dest != Some(s) by {
        assert(outs[i] == gossip_msg(pre.node_id, dests[i - k], pre.id + i, v));
        lemma_remove_string_origin(pre.node_ids, s, i - k);
    }
}

/// Topology gating: a topology message replaces the neighbor set only when
/// the node is initialized and the mapping names its own id; otherwise the
/// neighbor set is untouched. The reply is owed either way.
pub proof fn lemma_topology_gating(
    pre: NodeView,
    msg: BMsgView,
    topology: Seq<(Seq<char>, Seq<Seq<char>>)>,
)
    ensures
        ({
            let (post, outs) = topology_step(pre, msg, topology);
            &&& (pre.node_id is None ==> post.node_ids == pre.node_ids)
            &&& (match pre.node_id {
                Some(nid) => match topo_lookup(topology, nid) {
                    Some(mapped) => post.node_ids == mapped,
                    None => post.node_ids == pre.node_ids,
                },
                None => true,
            })
            &&& post.messages == pre.messages
            &&& post.seen == pre.seen
            &&& post.node_id == pre.node_id
            &&& outs == seq![reply_view(msg, pre.id, BroadcastMessageView::TopologyOk)]
        }),
{
}

/// After `Init`, the neighbor set never contains the node's own id.
pub proof fn lemma_init_excludes_self(
    pre: NodeView,
    msg: BMsgView,
    node_id: Seq<char>,
    node_ids: Seq<Seq<char>>,
)
    ensures
        !crate::broadcast::init_step(pre, msg, node_id, node_ids).0.node_ids.contains(node_id),
{
    crate::collections::lemma_remove_string_absent(node_ids, node_id);
}

/// Recording a sender creates at most one new key: the sender's.
proof fn lemma_record_seen_keys(seen: Seq<(Seq<char>, Seq<i64>)>, k: Seq<char>, v: i64, j: int)
    requires
        0 <= j < crate::collections::record_seen(seen, k, v).len(),
    ensures
        crate::collections::record_seen(seen, k, v)[j].0 == k || exists|l: int|
            0 <= l < seen.len() && seen[l].0 == crate::collections::record_seen(seen, k, v)[j].0,
    decreases seen.len(),
{
    let r = crate::collections::record_seen(seen, k, v);
    if seen.len() == 0 {
    } else if seen.first().0 == k {
        if j > 0 {
            assert(r[j] == seen.drop_first()[j - 1]);
            assert(seen[j] == seen.drop_first()[j - 1]);
        } else {
            assert(seen[0].0 == k);
        }
    } else {
        if j == 0 {
            assert(r[0] == seen.first());
            assert(seen[0] == seen.first());
        } else {
            lemma_record_seen_keys(seen.drop_first(), k, v, j - 1);
            let rp = crate::collections::record_seen(seen.drop_first(), k, v);
            assert(r[j] == rp[j - 1]);
            if rp[j - 1].0 != k {
                let l = choose|l: int|
                    0 <= l < seen.drop_first().len() && seen.drop_first()[l].0 == rp[j - 1].0;
                assert(seen[l + 1] == seen.drop_first()[l]);
            }
        }
    }
}

/// Per-peer tracking is only ever created for identified network peers:
/// if every tracked key names a network peer before a step, every tracked
/// key still does after it.
pub proof fn lemma_seen_keys_are_peers(pre: NodeView, msg: BMsgView)
    requires
        forall|l: int|
            0 <= l < pre.seen.len() ==> crate::broadcast::spec_is_network_peer(
                #[trigger] pre.seen[l].0,
            ),
    ensures
        match spec_process(pre, msg) {
            Some((post, outs)) => forall|l: int|
                0 <= l < post.seen.len() ==> crate::broadcast::spec_is_network_peer(
                    #[trigger] post.seen[l].0,
                ),
            None => true,
        },
{
    match spec_process(pre, msg) {
        Some((post, outs)) => {
            match msg.payload {
                BroadcastMessageView::Broadcast { message } => {
                    match msg.src {
                        Some(s) => {
                            if crate::broadcast::spec_is_network_peer(s) {
                                assert forall|l: int|
                                    0 <= l < post.seen.len() implies crate::broadcast::spec_is_network_peer(
                                    #[trigger] post.seen[l].0,
                                ) by {
                                    lemma_record_seen_keys(pre.seen, s, message, l);
                                }
                            }
                        },
                        None => {},
                    }
                },
                _ => {},
            }
        },
        None => {},
    }
}

/// The ids of one processing step: consecutive, starting at the counter's
/// value before the call, in emission order; the counter advances by the
/// number of envelopes emitted.
pub proof fn lemma_step_ids(pre: NodeView, msg: BMsgView)
    ensures
        match spec_process(pre, msg) {
            Some((post, outs)) => post.id == pre.id + outs.len() && (forall|i: int|
                0 <= i < outs.len() ==> (#[trigger] outs[i]).msg_id == Some(pre.id + i)),
            None => true,
        },
{
    match msg.payload {
        BroadcastMessageView::Broadcast { message } => {
            let v = message;
            let seen1 = record_sender(pre.seen, msg.src, v);
            let pairs = sweep_pairs(seen1, pre.messages, v);
            let novel = !pre.messages.contains(v);
            let dests = if novel {
                crate::broadcast::fanout_dests(pre.node_ids, msg.src)
            } else {
                Seq::<Seq<char>>::empty()
            };
            let outs = broadcast_step(pre, msg, v).1;
            assert forall|i: int| 0 <= i < outs.len() implies (#[trigger] outs[i]).msg_id
                == Some(pre.id + i) by {
                if i == 0 {
                } else if i < 1 + pairs.len() {
                    assert(outs[i] == sweep_msgs(pre.node_id, pre.id + 1, pairs)[i - 1]);
                } else {
                    assert(outs[i] == fanout_msgs(
                        pre.node_id,
                        pre.id + 1 + pairs.len(),
                        dests,
                        v,
                    )[i - 1 - pairs.len()]);
                }
            }
        },
        _ => {},
    }
}

/// The node state and every envelope emitted over a whole run, in order;
/// envelopes whose processing fails contribute nothing.
pub open spec fn run_outputs(pre: NodeView, msgs: Seq<BMsgView>) -> (NodeView, Seq<BMsgView>)
    decreases msgs.len(),
{
    if msgs.len() == 0 {
        (pre, Seq::<BMsgView>::empty())
    } else {
        let (mid, acc) = run_outputs(pre, msgs.drop_last());
        match spec_process(mid, msgs.last()) {
            Some((post, outs)) => (post, acc + outs),
            None => (mid, acc),
        }
    }
}

/// Monotonic ids: across any sequence of processed envelopes producing `M`
/// outbound envelopes in all, the assigned ids are exactly the `M`
/// consecutive integers starting at the counter's initial value, in
/// emission order.
pub proof fn lemma_monotonic_ids(pre: NodeView, msgs: Seq<BMsgView>)
    ensures
        ({
            let (post, outs) = run_outputs(pre, msgs);
            &&& post.id == pre.id + outs.len()
            &&& forall|i: int|
                0 <= i < outs.len() ==> (#[trigger] outs[i]).msg_id == Some(pre.id + i)
        }),
    decreases msgs.len(),
{
    if msgs.len() > 0 {
        lemma_monotonic_ids(pre, msgs.drop_last());
        let (mid, acc) = run_outputs(pre, msgs.drop_last());
        lemma_step_ids(mid, msgs.last());
        match spec_process(mid, msgs.last()) {
            Some((post, outs)) => {
                assert forall|i: int|
                    0 <= i < (acc + outs).len() implies (#[trigger] (acc + outs)[i]).msg_id
                    == Some(pre.id + i) by {
                    if i < acc.len() {
                        assert((acc + outs)[i] == acc[i]);
                    } else {
                        assert((acc + outs)[i] == outs[i - acc.len()]);
                    }
                }
            },
            None => {},
        }
    }
}

/// Anti-entropy coverage: in one sweep, a tracked peer is sent exactly the
/// delivered values it is not known to have seen, except the value being
/// processed, in delivered order.
pub proof fn lemma_anti_entropy(
    seen: Seq<(Seq<char>, Seq<i64>)>,
    delivered: Seq<i64>,
    x: i64,
    p: Seq<char>,
    sp: Seq<i64>,
    idx: int,
)
    requires
        forall|i: int, j: int| 0 <= i < j < seen.len() ==> seen[i].0 != seen[j].0,
        0 <= idx < seen.len(),
        seen[idx] == (p, sp),
    ensures
        sweep_pairs(seen, delivered, x).filter(|pr: (Seq<char>, i64)| pr.0 == p) == pair_up(
            p,
            peer_catch_up((p, sp), delivered, x),
        ),
    decreases seen.len(),
{
    let pred = |pr: (Seq<char>, i64)| pr.0 == p;
    let prefix = seen.drop_last();
    let last = seen.last();
    Seq::filter_distributes_over_add(
        sweep_pairs(prefix, delivered, x),
        pair_up(last.0, peer_catch_up(last, delivered, x)),
        pred,
    );
    if idx == seen.len() - 1 {
        assert(last == (p, sp));
        assert forall|l: int| 0 <= l < prefix.len() implies prefix[l].0 != p by {
            assert(seen[l].0 != seen[idx].0);
        }
        lemma_sweep_no_peer(prefix, delivered, x, p);
        lemma_pair_up_filter_same(p, peer_catch_up(last, delivered, x));
        assert(sweep_pairs(seen, delivered, x).filter(pred) =~= pair_up(
            p,
            peer_catch_up((p, sp), delivered, x),
        ));
    } else {
        assert(prefix[idx] == seen[idx]);
        lemma_anti_entropy(prefix, delivered, x, p, sp, idx);
        assert(last.0 != p) by {
            assert(seen[idx].0 != seen[seen.len() - 1].0);
        }
        lemma_pair_up_filter_other(last.0, peer_catch_up(last, delivered, x), p);
        assert(sweep_pairs(seen, delivered, x).filter(pred) =~= pair_up(
            p,
            peer_catch_up((p, sp), delivered, x),
        ));
    }
}

/// A sweep over peers other than `p` addresses nothing to `p`.
proof fn lemma_sweep_no_peer(seen: Seq<(Seq<char>, Seq<i64>)>, delivered: Seq<i64>, x: i64, p: Seq<char>)
    requires
        forall|l: int| 0 <= l < seen.len() ==> seen[l].0 != p,
    ensures
        sweep_pairs(seen, delivered, x).filter(|pr: (Seq<char>, i64)| pr.0 == p)
            == Seq::<(Seq<char>, i64)>::empty(),
    decreases seen.len(),
{
    let pred = |pr: (Seq<char>, i64)| pr.0 == p;
    if seen.len() == 0 {
        reveal(Seq::filter);
        assert(sweep_pairs(seen, delivered, x).filter(pred) =~= Seq::<(Seq<char>, i64)>::empty());
    } else {
        let prefix = seen.drop_last();
        let last = seen.last();
        lemma_sweep_no_peer(prefix, delivered, x, p);
        assert(last.0 != p) by {
            assert(seen[seen.len() - 1].0 != p);
        }
        lemma_pair_up_filter_other(last.0, peer_catch_up(last, delivered, x), p);
        Seq::filter_distributes_over_add(
            sweep_pairs(prefix, delivered, x),
            pair_up(last.0, peer_catch_up(last, delivered, x)),
            pred,
        );
        assert(sweep_pairs(seen, delivered, x).filter(pred) =~= Seq::<(Seq<char>, i64)>::empty());
    }
}

/// Pairs addressed to a different peer never survive the filter for `p`.
proof fn lemma_pair_up_filter_other(q: Seq<char>, vals: Seq<i64>, p: Seq<char>)
    requires
        q != p,
    ensures
        pair_up(q, vals).filter(|pr: (Seq<char>, i64)| pr.0 == p)
            == Seq::<(Seq<char>, i64)>::empty(),
    decreases vals.len(),
{
    reveal(Seq::filter);
    let pred = |pr: (Seq<char>, i64)| pr.0 == p;
    if vals.len() == 0 {
        assert(pair_up(q, vals) =~= Seq::<(Seq<char>, i64)>::empty());
    } else {
        lemma_pair_up_filter_other(q, vals.drop_last(), p);
        assert(pair_up(q, vals).drop_last() =~= pair_up(q, vals.drop_last()));
        assert(pair_up(q, vals).last() == (q, vals.last()));
    }
}

/// Pairs addressed to `p` all survive the filter for `p`.
proof fn lemma_pair_up_filter_same(p: Seq<char>, vals: Seq<i64>)
    ensures
        pair_up(p, vals).filter(|pr: (Seq<char>, i64)| pr.0 == p) == pair_up(p, vals),
    decreases vals.len(),
{
    reveal(Seq::filter);
    let pred = |pr: (Seq<char>, i64)| pr.0 == p;
    if vals.len() == 0 {
        assert(pair_up(p, vals) =~= Seq::<(Seq<char>, i64)>::empty());
        assert(pair_up(p, vals).filter(pred) =~= pair_up(p, vals));
    } else {
        lemma_pair_up_filter_same(p, vals.drop_last());
        assert(pair_up(p, vals).drop_last() =~= pair_up(p, vals.drop_last()));
        assert(pair_up(p, vals).last() == (p, vals.last()));
        assert(pair_up(p, vals).filter(pred) =~= pair_up(p, vals));
    }
}

} // verus!

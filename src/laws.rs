use vstd::prelude::*;

use crate::chunks::{received, ChunkBuffer};
use crate::client::{hkey, reflood_due, ClientState, REFLOOD_WINDOW_MS};
use crate::codec::{assembled, fragment_of, fragments_of, frames_valid, is_permutation, lemma_reassembly, n_fragments, permuted};
use crate::message::{enc_message, lemma_message_round_trip, parse_message, MessageView};
use crate::network::{NodeId, NodeType};
use crate::network::RouteView;
use crate::packet::{Packet, PacketTypeView, PacketView};
use crate::topology::{acked_weight, step_count, trace_step, WEIGHT_MIN};

verus! {

/// Every session in the reassembly table of a well-formed client holds fragments
/// that all announce the same total.
pub proof fn lemma_sessions_uniform(c: &ClientState, s: u64)
    requires
        c.wf(),
        c.packets_map@.contains_key(s),
    ensures
        forall|i: int, j: int| 0 <= i < c.session(s).len() && 0 <= j < c.session(s).len()
            ==> (#[trigger] c.session(s)[i]).total_n_fragments == (#[trigger] c.session(s)[j]).total_n_fragments,
{
    let fs = c.session(s);
    assert forall|i: int, j: int| 0 <= i < fs.len() && 0 <= j < fs.len()
        implies (#[trigger] fs[i]).total_n_fragments == (#[trigger] fs[j]).total_n_fragments by {
        assert(fs[i].total_n_fragments == fs[0].total_n_fragments);
        assert(fs[j].total_n_fragments == fs[0].total_n_fragments);
    }
}

/// Acknowledging the same fragment twice: the second acknowledgement finds the
/// history as the first one left it.
pub proof fn lemma_ack_history_idempotent(h: Map<u128, Packet>, f: u64, s: u64)
    ensures
        h.remove(hkey(f, s)).remove(hkey(f, s)) == h.remove(hkey(f, s)),
{
    assert(h.remove(hkey(f, s)).remove(hkey(f, s)) =~= h.remove(hkey(f, s)));
}

/// A second acknowledgement along the same route leaves an edge as the first
/// one left it when that edge is missing, not on the route, or already at the
/// lowest weight.
pub proof fn lemma_ack_weight_idempotent(w: u32, hops: Seq<NodeId>, a: NodeId, b: NodeId)
    requires
        ({
            let w1 = acked_weight(w, hops, a, b);
            w1 == 0 || step_count(hops, b, a) == 0 || w1 <= WEIGHT_MIN
        }),
    ensures
        acked_weight(acked_weight(w, hops, a, b), hops, a, b) == acked_weight(w, hops, a, b),
{
}

/// Sending the same fragment twice leaves one history entry for it, the later
/// copy, beside the entries that were there before.
pub proof fn lemma_resend_single_entry(h: Map<u128, Packet>, f: u64, s: u64, at1: Packet, at2: Packet)
    ensures
        h.insert(hkey(f, s), at1).insert(hkey(f, s), at2) == h.insert(hkey(f, s), at2),
        h.insert(hkey(f, s), at1).insert(hkey(f, s), at2).dom() == h.dom().insert(hkey(f, s)),
{
    assert(h.insert(hkey(f, s), at1).insert(hkey(f, s), at2) =~= h.insert(hkey(f, s), at2));
}

/// Whatever order the fragments of a message arrive in, joining them and reading
/// the result gives the message back.
pub proof fn lemma_message_reassembly(m: MessageView, p: Seq<int>)
    requires
        m.encodable(),
        n_fragments(enc_message(m).len()) < 0x1_0000_0000_0000_0000,
        is_permutation(p, n_fragments(enc_message(m).len()) as int),
    ensures
        frames_valid(permuted(fragments_of(enc_message(m)), p)),
        parse_message(assembled(permuted(fragments_of(enc_message(m)), p))) == Some(m),
{
    lemma_reassembly(enc_message(m), p);
    lemma_message_round_trip(m);
}

/// The packets that carry a message along any route, taken in any order of
/// arrival, give the message back once their fragments are joined and read.
pub proof fn lemma_packets_reassembly(m: MessageView, route: RouteView, session: u64, ps: Seq<PacketView>, p: Seq<int>)
    requires
        m.encodable(),
        n_fragments(enc_message(m).len()) < 0x1_0000_0000_0000_0000,
        ps.len() == n_fragments(enc_message(m).len()),
        forall|i: int| 0 <= i < ps.len() ==> #[trigger] ps[i] == (PacketView {
            pack_type: PacketTypeView::MsgFragment(fragment_of(enc_message(m), i as nat)),
            routing_header: route,
            session_id: session,
        }),
        is_permutation(p, ps.len() as int),
    ensures
        ({
            let fs = Seq::new(ps.len(), |i: int| ps[p[i]].pack_type->MsgFragment_0);
            frames_valid(fs) && parse_message(assembled(fs)) == Some(m)
        }),
{
    let fs = Seq::new(ps.len(), |i: int| ps[p[i]].pack_type->MsgFragment_0);
    assert forall|i: int| 0 <= i < ps.len() implies #[trigger] fs[i] == permuted(fragments_of(enc_message(m)), p)[i] by {
        assert(0 <= p[i] < ps.len());
        assert(ps[p[i]].pack_type == PacketTypeView::MsgFragment(fragment_of(enc_message(m), p[i] as nat)));
    }
    assert(fs =~= permuted(fragments_of(enc_message(m)), p));
    lemma_message_reassembly(m, p);
}

/// Handing the fragments of a message, in any order, to a session that holds the
/// ones before: each is accepted and joins the held ones, and the last completes a
/// set that reads back as the message.
pub proof fn lemma_session_reassembly(m: MessageView, p: Seq<int>, c: &ClientState, s: u64, k: int)
    requires
        m.encodable(),
        n_fragments(enc_message(m).len()) < 0x1_0000_0000_0000_0000,
        is_permutation(p, n_fragments(enc_message(m).len()) as int),
        0 <= k < n_fragments(enc_message(m).len()),
        c.held(s) == permuted(fragments_of(enc_message(m)), p).take(k),
    ensures
        ({
            let fs = permuted(fragments_of(enc_message(m)), p);
            &&& c.accepts(s, fs[k])
            &&& c.held(s).push(fs[k]) == fs.take(k + 1)
            &&& c.held(s).len() + 1 == fs[k].total_n_fragments <==> k + 1 == fs.len()
            &&& k + 1 == fs.len() ==> frames_valid(fs.take(k + 1)) && parse_message(assembled(fs.take(k + 1))) == Some(m)
        }),
{
    let fs = permuted(fragments_of(enc_message(m)), p);
    lemma_message_reassembly(m, p);
    assert(fs[k].wf());
    if k > 0 {
        assert(c.held(s)[0] == fs[0]);
    }
    assert(c.held(s).push(fs[k]) =~= fs.take(k + 1));
    if k + 1 == fs.len() {
        assert(fs.take(k + 1) =~= fs);
    }
}

/// A trace of fewer than two nodes has no step, so merging it adds no edge.
pub proof fn lemma_short_trace(t: Seq<(NodeId, NodeType)>, a: NodeId, b: NodeId)
    requires
        t.len() < 2,
    ensures
        !trace_step(t, a, b),
{
}

/// Once a routing error started a flood at `t1`, another one within the window
/// starts none.
pub proof fn lemma_reflood_once(last: Option<u64>, t1: u64, t2: u64)
    requires
        reflood_due(last, t1),
        t1 <= t2,
        t2 - t1 <= REFLOOD_WINDOW_MS,
    ensures
        !reflood_due(Some(t1), t2),
{
}

/// Across successive chunk arrivals the consumer gets chunk indices in one
/// ascending run: each delivery continues exactly where the previous one stopped.
pub proof fn lemma_delivery_monotone(
    b0: &ChunkBuffer,
    b1: &ChunkBuffer,
    b2: &ChunkBuffer,
    k1: u32,
    d1: Vec<u8>,
    o1: Seq<Vec<u8>>,
    k2: u32,
    d2: Vec<u8>,
    o2: Seq<Vec<u8>>,
)
    requires
        received(b0, b1, k1, d1, o1),
        received(b1, b2, k2, d2, o2),
    ensures
        b1.next() == b0.next() + o1.len(),
        b2.next() == b1.next() + o2.len(),
{
}

} // verus!

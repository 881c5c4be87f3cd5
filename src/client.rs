use vstd::prelude::*;

use crossbeam::channel::Sender;
use std::collections::HashMap;

use crate::channel::channel_send;
use crate::chunks::{chunk_of, n_chunks, received, video_chunks, ChunkBuffer, CHUNK_SIZE};
use crate::codec::{disassemble, fragment_of, n_fragments, views};
use crate::message::{copy_bytes, decode_message, parse_message, wire_limit, copy_metas, enc_message, encode_message, lemma_wire_limit, metas_encodable, MessageType, MessageView, MetaView, PeerInfo, metas_view, ClientType, FileHash, VideoMetaData};
use crate::network::{reversed, NodeId, NodeType, RouteView, SourceRoutingHeader};
use crate::packet::{
    trace_ids, Ack, FloodRequest, FloodRequestView, FloodResponse, FloodResponseView, Fragment, FragmentView, Nack, NackType, Packet, PacketType, PacketTypeView, PacketView,
    FRAGMENT_DSIZE,
};
use crate::topology::{acked_weight, congested_weight, sat_add, trace_step, RoutingHandler, NACK_PENALTY, WEIGHT_INIT};

verus! {

broadcast use vstd::std_specs::hash::group_hash_axioms;

/// Lifecycle of a client.
#[derive(Clone, Copy, Debug, PartialEq, Eq, Structural)]
pub enum FsmStatus {
    ServerNotFound,
    NotSubscribedToServer,
    SubscribedToServer,
    Terminated,
}

impl FsmStatus {
    /// Name of the state, as the front-end shows it.
    pub fn name(&self) -> &'static str {
        match self {
            FsmStatus::ServerNotFound => "ServerNotFound",
            FsmStatus::NotSubscribedToServer => "NotSubscribedToServer",
            FsmStatus::SubscribedToServer => "SubscribedToServer",
            FsmStatus::Terminated => "Terminated",
        }
    }
}

/// What the client reports to the controller.
#[derive(Debug)]
pub enum DroneEvent {
    PacketSent(Packet),
    ControllerShortcut(Packet),
}

pub enum EventView {
    PacketSent(PacketView),
    ControllerShortcut(PacketView),
}

impl View for DroneEvent {
    type V = EventView;

    open spec fn view(&self) -> EventView {
        match self {
            DroneEvent::PacketSent(p) => EventView::PacketSent(p@),
            DroneEvent::ControllerShortcut(p) => EventView::ControllerShortcut(p@),
        }
    }
}

/// What the controller tells the client.
pub enum DroneCommand {
    Crash,
    AddSender(NodeId, Sender<Packet>),
    RemoveSender(NodeId),
    SetPacketDropRate,
}

/// A direct neighbour and the channel to it.
pub struct Neighbour {
    pub id: NodeId,
    pub channel: Sender<Packet>,
}

/// A known server and the videos it advertised.
pub struct ServerEntry {
    pub id: NodeId,
    pub videos: Vec<FileHash>,
}

/// Why an outbound action did not go through.
#[derive(Clone, Copy, Debug, PartialEq, Eq, Structural)]
pub enum SendError {
    /// No route to the node is known.
    NoRoute(NodeId),
    /// The next hop is not a direct neighbour.
    UnknownNeighbour(NodeId),
    /// The neighbour's channel is closed.
    Disconnected,
    /// The controller's channel is closed.
    ControllerDisconnected,
    /// Every session id has been used.
    SessionsExhausted,
    /// A peer list named no peer.
    NoPeers,
    /// A video has more chunks than a chunk index can count.
    TooManyChunks,
    /// The route has no hop after the sender.
    RouteTooShort,
    /// No server is known.
    NoServers,
    /// No known server advertises the video.
    VideoNotListed(FileHash),
}

/// A flood caused by a routing error waits this long (ms) after the previous one.
pub const REFLOOD_WINDOW_MS: u64 = 5000;

/// A routing error at time `now` (ms) may start a flood: none was started for a
/// routing error yet, or the last one was more than the window ago.
pub open spec fn reflood_due(last: Option<u64>, now: u64) -> bool {
    match last {
        None => true,
        Some(t) => now >= t && now - t > REFLOOD_WINDOW_MS,
    }
}

pub fn reflood_is_due(last: Option<u64>, now: u64) -> (r: bool)
    ensures
        r == reflood_due(last, now),
{
    match last {
        None => true,
        Some(t) => now >= t && now - t > REFLOOD_WINDOW_MS,
    }
}

/// What became of a negative acknowledgement.
#[derive(Clone, Copy, Debug, PartialEq, Eq, Structural)]
pub enum NackOutcome {
    /// No fragment with that index and session is waiting for an acknowledgement.
    UnknownFragment,
    /// The fragment went out again on a fresh route.
    Retransmitted,
    /// The fragment could not go out again, and why.
    RetransmitFailed(SendError),
    /// A flood was started.
    Reflooded,
    /// A flood was due to the routing error but one was started too recently.
    FloodSkipped,
    /// The nack needs no action.
    Ignored,
}

/// How a flood response left this client.
#[derive(Clone, Copy, Debug, PartialEq, Eq, Structural)]
pub enum FloodReply {
    /// Straight to the next hop.
    Direct,
    /// Through the controller, because the next hop could not take it.
    Shortcut,
}

/// What a controller command did.
#[derive(Clone, Copy, Debug, PartialEq, Eq, Structural)]
pub enum CommandOutcome {
    Terminated,
    SenderAdded,
    SenderRemoved,
    /// The sender to remove was not there.
    UnknownSender,
    Ignored,
}

/// What the front-end gets out of an inbound packet.
#[derive(Debug)]
pub enum Delivery {
    Nothing,
    /// Video bytes for the consumer, in order.
    VideoChunks(Vec<Vec<u8>>),
    /// A server's list of videos.
    FileList(NodeId, Vec<VideoMetaData>),
    /// A peer asks for a video; it is served from the local store.
    ChunkRequested(NodeId, FileHash),
}

/// The ids of a list of video descriptors.
pub open spec fn video_ids(ms: Seq<MetaView>) -> Seq<FileHash> {
    ms.map_values(|m: MetaView| m.id)
}

/// `n` is `o` after handling message `m` with result `r` (the reassembly table
/// and the topology aside).
pub open spec fn handled(o: &ClientState, n: &ClientState, m: MessageView, r: Delivery) -> bool {
    &&& n.id == o.id
    &&& n.senders == o.senders
    &&& (o.fsm == FsmStatus::Terminated ==> n.fsm == FsmStatus::Terminated)
    &&& match m {
        MessageView::ChunkRequest { client_id, file_hash } => {
            &&& r matches Delivery::ChunkRequested(c, h) && c == client_id && h == file_hash
            &&& n.fsm == o.fsm
            &&& n.servers == o.servers
            &&& n.packets_history == o.packets_history
            &&& n.chunks == o.chunks
        },
        MessageView::ChunkResponse { .. } => r is VideoChunks && n.fsm == o.fsm && n.servers == o.servers,
        MessageView::ResponseFileList { server_id, file_list } => {
            &&& r matches Delivery::FileList(s, l) && s == server_id && metas_view(l@) == file_list
            &&& forall|i: int| 0 <= i < o.servers@.len() && o.servers@[i].id != server_id
                ==> #[trigger] n.servers@[i] == o.servers@[i]
            &&& exists|i: int| 0 <= i < n.servers@.len() && n.servers@[i].id == server_id
                && n.servers@[i].videos@ == video_ids(file_list)
            &&& n.fsm == (if o.fsm == FsmStatus::NotSubscribedToServer {
                FsmStatus::SubscribedToServer
            } else {
                o.fsm
            })
        },
        MessageView::AckSubscribeClient { client_id } => r is Nothing && n.fsm == (
            if client_id == o.id && o.fsm != FsmStatus::Terminated {
                FsmStatus::SubscribedToServer
            } else {
                o.fsm
            }),
        MessageView::ResponsePeerList { file_hash, peers } => {
            &&& r is Nothing
            &&& n.fsm == o.fsm
            &&& n.servers == o.servers
            &&& peers.len() == 0 ==> n.packets_history == o.packets_history && n.session_counter == o.session_counter
            &&& peers.len() > 0 ==> exists|a: ClientState, res: Result<(), SendError>| #[trigger] a.send_outcome(
                n,
                peers[0].client_id,
                enc_message(MessageView::ChunkRequest { client_id: o.id, file_hash }),
                res,
            ) && a.id == o.id && a.senders == o.senders && a.packets_map == n.packets_map
        },
        _ => {
            &&& r is Nothing
            &&& n.fsm == o.fsm
            &&& n.servers == o.servers
            &&& n.packets_history == o.packets_history
            &&& n.chunks == o.chunks
        },
    }
}

/// The flood request a client sends to each neighbour: an empty route, and a
/// trace that holds only the client.
pub open spec fn flood_request_view(flood_id: u64, id: NodeId, session: u64) -> PacketView {
    PacketView {
        pack_type: PacketTypeView::FloodRequest(
            FloodRequestView { flood_id, initiator_id: id, path_trace: seq![(id, NodeType::Client)] },
        ),
        routing_header: RouteView { hop_index: 0, hops: Seq::empty() },
        session_id: session,
    }
}

/// The send result a nack outcome reports.
pub open spec fn resend_result(r: NackOutcome) -> Result<(), SendError> {
    match r {
        NackOutcome::Retransmitted => Ok(()),
        NackOutcome::RetransmitFailed(e) => Err(e),
        _ => Err(SendError::RouteTooShort),
    }
}

/// What neighbours `ids` took of flood request `p`, given each send's outcome.
pub open spec fn flood_sent(ids: Seq<NodeId>, outs: Seq<Result<(), SendError>>, p: PacketView) -> Seq<(NodeId, PacketView)>
    decreases outs.len(),
{
    if outs.len() == 0 {
        seq![]
    } else {
        flood_sent(ids, outs.drop_last(), p) + if outs.last() is Ok || outs.last() == Err::<(), SendError>(
            SendError::ControllerDisconnected,
        ) {
            seq![(ids[outs.len() - 1], p)]
        } else {
            seq![]
        }
    }
}

/// What the controller was told of flood request `p`, given each send's outcome.
pub open spec fn flood_reported(outs: Seq<Result<(), SendError>>, p: PacketView) -> Seq<EventView>
    decreases outs.len(),
{
    if outs.len() == 0 {
        seq![]
    } else {
        flood_reported(outs.drop_last(), p) + if outs.last() is Ok {
            seq![EventView::PacketSent(p)]
        } else {
            seq![]
        }
    }
}

/// Key of the retransmission history for fragment `f` of session `s`.
pub open spec fn hkey(f: u64, s: u64) -> u128 {
    (f as int * 0x1_0000_0000_0000_0000 + s as int) as u128
}

pub fn history_key(f: u64, s: u64) -> (r: u128)
    ensures
        r == hkey(f, s),
{
    assert(f as int * 0x1_0000_0000_0000_0000 + s as int <= u128::MAX) by (nonlinear_arith)
        requires
            f <= u64::MAX,
            s <= u64::MAX,
    ;
    (f as u128) * 0x1_0000_0000_0000_0000u128 + (s as u128)
}

pub proof fn lemma_hkey_injective(f1: u64, s1: u64, f2: u64, s2: u64)
    requires
        hkey(f1, s1) == hkey(f2, s2),
    ensures
        f1 == f2 && s1 == s2,
{
    let a = f1 as int * 0x1_0000_0000_0000_0000 + s1 as int;
    let b = f2 as int * 0x1_0000_0000_0000_0000 + s2 as int;
    assert(0 <= a < 0x1_0000_0000_0000_0000_0000_0000_0000_0000) by (nonlinear_arith)
        requires
            a == f1 as int * 0x1_0000_0000_0000_0000 + s1 as int,
            0 <= f1 <= u64::MAX,
            0 <= s1 <= u64::MAX,
    ;
    assert(0 <= b < 0x1_0000_0000_0000_0000_0000_0000_0000_0000) by (nonlinear_arith)
        requires
            b == f2 as int * 0x1_0000_0000_0000_0000 + s2 as int,
            0 <= f2 <= u64::MAX,
            0 <= s2 <= u64::MAX,
    ;
    assert(a == b);
    assert(f1 == f2 && s1 == s2) by (nonlinear_arith)
        requires
            f1 as int * 0x1_0000_0000_0000_0000 + s1 as int == f2 as int * 0x1_0000_0000_0000_0000 + s2 as int,
            0 <= s1 <= u64::MAX,
            0 <= s2 <= u64::MAX,
    ;
}

/// The acknowledgement of `p`: back along the reversed route, already one hop in,
/// echoing the session and the fragment index.
pub open spec fn ack_of(p: PacketView) -> PacketView {
    PacketView {
        pack_type: PacketTypeView::Ack(Ack { fragment_index: p.fragment_index() }),
        routing_header: RouteView {
            hop_index: if p.routing_header.hops.len() > 0 { 1 } else { 0 },
            hops: reversed(p.routing_header.hops),
        },
        session_id: p.session_id,
    }
}

pub proof fn lemma_push_contains<A>(s: Seq<A>, x: A)
    ensures
        forall|y: A| #[trigger] s.push(x).contains(y) <==> (s.contains(y) || y == x),
{
    assert forall|y: A| #[trigger] s.push(x).contains(y) <==> (s.contains(y) || y == x) by {
        if s.push(x).contains(y) {
            let k = choose|k: int| 0 <= k < s.push(x).len() && s.push(x)[k] == y;
            if k < s.len() {
                assert(s[k] == y);
            }
        }
        if s.contains(y) {
            let k = choose|k: int| 0 <= k < s.len() && s[k] == y;
            assert(s.push(x)[k] == y);
        }
        if y == x {
            assert(s.push(x)[s.len() as int] == y);
        }
    }
}

/// The session a history key belongs to.
pub open spec fn key_session(k: u128) -> u64 {
    (k as int % 0x1_0000_0000_0000_0000) as u64
}

pub proof fn lemma_key_session(f: u64, s: u64)
    ensures
        key_session(hkey(f, s)) == s,
{
    let x = f as int * 0x1_0000_0000_0000_0000 + s as int;
    assert(0 <= x < 0x1_0000_0000_0000_0000_0000_0000_0000_0000) by (nonlinear_arith)
        requires
            x == f as int * 0x1_0000_0000_0000_0000 + s as int,
            0 <= f <= u64::MAX,
            0 <= s <= u64::MAX,
    ;
    vstd::arithmetic::div_mod::lemma_fundamental_div_mod_converse(
        x,
        0x1_0000_0000_0000_0000,
        f as int,
        s as int,
    );
}

/// A message held in the history stays held while only another session's
/// entries change.
pub proof fn lemma_holds_kept(n: &ClientState, m: &ClientState, o: &ClientState, bytes: Seq<u8>, s: u64, dest: NodeId, s2: u64)
    requires
        m.holds_message(o, bytes, s, dest),
        n.history_kept_except(m, s2),
        s != s2,
    ensures
        n.holds_message(o, bytes, s, dest),
{
    assert forall|i: u64| (i as nat) < n_fragments(bytes.len()) implies {
        &&& #[trigger] n.packets_history@.contains_key(hkey(i, s))
        &&& o.carries(n.packets_history@[hkey(i, s)]@, bytes, i as nat, s, dest)
    } by {
        let k = hkey(i, s);
        lemma_key_session(i, s);
        assert(m.holds_prefix(o, bytes, s, dest, n_fragments(bytes.len())));
        assert(m.packets_history@.contains_key(k));
        assert(n.packets_history@.contains_key(k) == m.packets_history@.contains_key(k));
        assert(o.carries(m.packets_history@[k]@, bytes, i as nat, s, dest));
    }
}

/// Holding a message carries over to a state with the same history, judged by a
/// state with the same id and topology.
pub proof fn lemma_holds_moved(
    n1: &ClientState,
    n2: &ClientState,
    o1: &ClientState,
    o2: &ClientState,
    bytes: Seq<u8>,
    dest: NodeId,
)
    requires
        n1.delivered_some_session(o1, bytes, dest),
        n1.packets_history == n2.packets_history,
        n1.session_counter <= n2.session_counter,
        o1.id == o2.id,
        o1.routing_handler == o2.routing_handler,
    ensures
        n2.delivered_some_session(o2, bytes, dest),
{
    let sk = choose|sk: u64| sk <= n1.session_counter && #[trigger] n1.holds_message(o1, bytes, sk, dest);
    assert(n1.holds_prefix(o1, bytes, sk, dest, n_fragments(bytes.len())));
    assert forall|i: u64| (i as nat) < n_fragments(bytes.len()) implies {
        &&& #[trigger] n2.packets_history@.contains_key(hkey(i, sk))
        &&& o2.carries(n2.packets_history@[hkey(i, sk)]@, bytes, i as nat, sk, dest)
    } by {
        assert(n1.packets_history@.contains_key(hkey(i, sk)));
    }
    assert(n2.holds_prefix(o2, bytes, sk, dest, n_fragments(bytes.len())));
    assert(n2.holds_message(o2, bytes, sk, dest));
}

/// Holding a message as one state would route it is the same as holding it as
/// another state with the same id and topology would.
pub proof fn lemma_holds_same_router(n: &ClientState, o1: &ClientState, o2: &ClientState, bytes: Seq<u8>, s: u64, dest: NodeId)
    requires
        n.holds_message(o1, bytes, s, dest),
        o1.id == o2.id,
        o1.routing_handler == o2.routing_handler,
    ensures
        n.holds_message(o2, bytes, s, dest),
{
    assert forall|i: u64| (i as nat) < n_fragments(bytes.len()) implies {
        &&& #[trigger] n.packets_history@.contains_key(hkey(i, s))
        &&& o2.carries(n.packets_history@[hkey(i, s)]@, bytes, i as nat, s, dest)
    } by {
        assert(n.holds_prefix(o1, bytes, s, dest, n_fragments(bytes.len())));
        assert(n.packets_history@.contains_key(hkey(i, s)));
        assert(o1.carries(n.packets_history@[hkey(i, s)]@, bytes, i as nat, s, dest));
    }
    assert(n.holds_prefix(o2, bytes, s, dest, n_fragments(bytes.len())));
}

/// The packets that carry `bytes` as session `s` along `route`, in fragment order.
pub open spec fn msg_packets(bytes: Seq<u8>, route: RouteView, s: u64) -> Seq<PacketView> {
    Seq::new(
        n_fragments(bytes.len()),
        |i: int| PacketView { pack_type: PacketTypeView::MsgFragment(fragment_of(bytes, i as nat)), routing_header: route, session_id: s },
    )
}

/// The chunk response that carries chunk `i` of `n` of video `h` with bytes `content`.
pub open spec fn chunk_msg(h: FileHash, i: int, n: u32, content: Seq<u8>) -> Seq<u8> {
    enc_message(MessageView::ChunkResponse { file_hash: h, chunk_index: i as u32, n_chunks: n, chunk_data: chunk_of(content, i) })
}

/// Fragments held for one session: at least one, fewer than the announced total,
/// all well formed and all announcing the same total.
pub open spec fn session_ok(fs: Seq<FragmentView>) -> bool {
    &&& fs.len() >= 1
    &&& fs.len() < fs[0].total_n_fragments
    &&& forall|i: int| 0 <= i < fs.len() ==> {
        &&& (#[trigger] fs[i]).wf()
        &&& fs[i].total_n_fragments == fs[0].total_n_fragments
        &&& fs[i].fragment_index < fs[i].total_n_fragments
    }
}

/// The whole state of one client.
pub struct ClientState {
    pub id: NodeId,
    pub client_type: ClientType,
    pub controller_send: Sender<DroneEvent>,
    pub senders: Vec<Neighbour>,
    pub session_counter: u64,
    pub packets_map: HashMap<u64, Vec<Fragment>>,
    pub packets_history: HashMap<u128, Packet>,
    pub routing_handler: RoutingHandler,
    pub flood_id: u64,
    pub fsm: FsmStatus,
    pub servers: Vec<ServerEntry>,
    pub last_reflood: Option<u64>,
    pub local_videos: Vec<VideoMetaData>,
    pub chunks: ChunkBuffer,
    /// Every packet a neighbour took, with that neighbour, in order.
    pub sent: Ghost<Seq<(NodeId, PacketView)>>,
    /// Every event the controller took, in order.
    pub reported: Ghost<Seq<EventView>>,
}

impl ClientState {
    /// Everything but what went out on the channels is as in `o`.
    pub open spec fn same_but_logs(&self, o: &ClientState) -> bool {
        &&& self.id == o.id
        &&& self.client_type == o.client_type
        &&& self.controller_send == o.controller_send
        &&& self.senders == o.senders
        &&& self.session_counter == o.session_counter
        &&& self.packets_map == o.packets_map
        &&& self.packets_history == o.packets_history
        &&& self.routing_handler == o.routing_handler
        &&& self.flood_id == o.flood_id
        &&& self.fsm == o.fsm
        &&& self.servers == o.servers
        &&& self.last_reflood == o.last_reflood
        &&& self.local_videos == o.local_videos
        &&& self.chunks == o.chunks
    }

    /// Nothing went out on any channel since `o`.
    pub open spec fn same_logs(&self, o: &ClientState) -> bool {
        &&& self.sent == o.sent
        &&& self.reported == o.reported
    }

    /// What went out since `o` only adds to what had gone out by then.
    pub open spec fn logs_extend(&self, o: &ClientState) -> bool {
        &&& o.sent@.is_prefix_of(self.sent@)
        &&& o.reported@.is_prefix_of(self.reported@)
    }

    pub open spec fn neighbour_ids(&self) -> Seq<NodeId> {
        self.senders@.map_values(|n: Neighbour| n.id)
    }

    pub open spec fn has_neighbour(&self, id: NodeId) -> bool {
        self.neighbour_ids().contains(id)
    }

    pub open spec fn server_ids(&self) -> Seq<NodeId> {
        self.servers@.map_values(|s: ServerEntry| s.id)
    }

    /// Fragments held for session `s`.
    pub open spec fn session(&self, s: u64) -> Seq<FragmentView> {
        views(self.packets_map@[s]@)
    }

    pub open spec fn wf(&self) -> bool {
        &&& self.routing_handler.wf()
        &&& self.chunks.wf()
        &&& self.neighbour_ids().no_duplicates()
        &&& self.server_ids().no_duplicates()
        &&& metas_encodable(metas_view(self.local_videos@))
        &&& forall|s: u64| #[trigger] self.packets_map@.contains_key(s) ==> session_ok(self.session(s))
        &&& forall|k: u128| #[trigger] self.packets_history@.contains_key(k) ==> k == hkey(
            self.packets_history@[k]@.fragment_index(),
            self.packets_history@[k].session_id,
        )
    }

    /// Everything but the retransmission history is as in `o`.
    pub open spec fn same_but_history(&self, o: &ClientState) -> bool {
        &&& self.id == o.id
        &&& self.client_type == o.client_type
        &&& self.controller_send == o.controller_send
        &&& self.senders == o.senders
        &&& self.session_counter == o.session_counter
        &&& self.packets_map == o.packets_map
        &&& self.routing_handler == o.routing_handler
        &&& self.flood_id == o.flood_id
        &&& self.fsm == o.fsm
        &&& self.servers == o.servers
        &&& self.last_reflood == o.last_reflood
        &&& self.local_videos == o.local_videos
        &&& self.chunks == o.chunks
    }

    /// A fresh client that knows no neighbour, no route and no server.
    pub fn new(id: NodeId, client_type: ClientType, controller_send: Sender<DroneEvent>) -> (r: Self)
        ensures
            r.wf(),
            r.id == id,
            r.client_type == client_type,
            r.controller_send == controller_send,
            r.senders@.len() == 0,
            r.servers@.len() == 0,
            r.packets_map@ == Map::<u64, Vec<Fragment>>::empty(),
            r.packets_history@ == Map::<u128, Packet>::empty(),
            r.fsm == FsmStatus::ServerNotFound,
            r.flood_id == 0,
            r.session_counter == 0,
            r.last_reflood.is_none(),
            r.local_videos@.len() == 0,
            r.chunks.next() == 0,
            forall|a: NodeId, b: NodeId| !#[trigger] r.routing_handler.has_edge(a, b),
    {
        let r = ClientState {
            id,
            client_type,
            controller_send,
            senders: Vec::new(),
            session_counter: 0,
            packets_map: HashMap::new(),
            packets_history: HashMap::new(),
            routing_handler: RoutingHandler::new(),
            flood_id: 0,
            fsm: FsmStatus::ServerNotFound,
            servers: Vec::new(),
            last_reflood: None,
            local_videos: Vec::new(),
            chunks: ChunkBuffer::new(),
            sent: Ghost(Seq::empty()),
            reported: Ghost(Seq::empty()),
        };
        proof {
            lemma_wire_limit();
        }
        assert(metas_view(r.local_videos@) =~= Seq::<crate::message::MetaView>::empty());
        assert(r.neighbour_ids() =~= Seq::<NodeId>::empty());
        assert(r.server_ids() =~= Seq::<NodeId>::empty());
        r
    }

    /// Position of neighbour `id` among the senders.
    pub fn neighbour_index(&self, id: NodeId) -> (r: Option<usize>)
        ensures
            r matches Some(i) ==> i < self.senders@.len() && self.senders@[i as int].id == id,
            r is None <==> !self.has_neighbour(id),
    {
        let mut i: usize = 0;
        while i < self.senders.len()
            invariant
                i <= self.senders@.len(),
                forall|j: int| 0 <= j < i ==> self.senders@[j].id != id,
            decreases self.senders@.len() - i,
        {
            if self.senders[i].id == id {
                assert(self.neighbour_ids()[i as int] == id);
                return Some(i);
            }
            i = i + 1;
        }
        proof {
            if self.has_neighbour(id) {
                let j = choose|j: int| 0 <= j < self.neighbour_ids().len() && self.neighbour_ids()[j] == id;
                assert(self.senders@[j].id == id);
            }
        }
        None
    }

    /// Pushes `packet` to neighbour `to`. Once the neighbour took it, the packet is
    /// kept in the history under its fragment index and session, and mirrored to the
    /// controller as `PacketSent`.
    pub fn send_packet(&mut self, to: NodeId, packet: Packet) -> (r: Result<(), SendError>)
        requires
            old(self).wf(),
        ensures
            final(self).wf(),
            final(self).same_but_history(old(self)),
            !old(self).has_neighbour(to) ==> r == Err::<(), SendError>(SendError::UnknownNeighbour(to))
                && *final(self) == *old(self),
            old(self).has_neighbour(to) ==> {
                ||| r == Err::<(), SendError>(SendError::Disconnected) && *final(self) == *old(self)
                ||| (r is Ok || r == Err::<(), SendError>(SendError::ControllerDisconnected))
                    && final(self).packets_history@ == old(self).packets_history@.insert(
                        hkey(packet@.fragment_index(), packet.session_id), packet)
                    && final(self).sent@ == old(self).sent@.push((to, packet@))
            },
            r is Ok ==> final(self).reported@ == old(self).reported@.push(EventView::PacketSent(packet@)),
            r is Err ==> final(self).reported == old(self).reported,
    {
        let i = match self.neighbour_index(to) {
            Some(i) => i,
            None => return Err(SendError::UnknownNeighbour(to)),
        };
        let ghost pv = packet@;
        if !channel_send(&self.senders[i].channel, packet.duplicate()) {
            return Err(SendError::Disconnected);
        }
        self.sent = Ghost(self.sent@.push((to, pv)));
        let key = history_key(packet.get_fragment_index(), packet.session_id);
        let mirror = packet.duplicate();
        self.packets_history.insert(key, packet);
        if !channel_send(&self.controller_send, DroneEvent::PacketSent(mirror)) {
            return Err(SendError::ControllerDisconnected);
        }
        self.reported = Ghost(self.reported@.push(EventView::PacketSent(pv)));
        Ok(())
    }

    /// Builds the acknowledgement of an inbound fragment packet.
    pub fn build_ack(packet: &Packet) -> (r: Packet)
        ensures
            r@ == ack_of(packet@),
    {
        let mut srh = packet.routing_header.get_reversed();
        srh.increase_hop_index();
        Packet::new_ack(srh, packet.session_id, packet.get_fragment_index())
    }

    /// Acknowledges an inbound fragment packet to the hop it came from. The history
    /// is not touched.
    pub fn send_ack(&mut self, packet: &Packet) -> (r: Result<(), SendError>)
        ensures
            final(self).same_but_logs(old(self)),
            final(self).reported == old(self).reported,
            r is Err ==> *final(self) == *old(self),
            packet.routing_header.hops@.len() < 2 ==> r == Err::<(), SendError>(SendError::RouteTooShort),
            packet.routing_header.hops@.len() >= 2 ==> {
                let back = reversed(packet.routing_header.hops@)[1];
                &&& !old(self).has_neighbour(back) ==> r == Err::<(), SendError>(SendError::UnknownNeighbour(back))
                &&& old(self).has_neighbour(back) ==> (r is Ok || r == Err::<(), SendError>(SendError::Disconnected))
                &&& r is Ok ==> final(self).sent@ == old(self).sent@.push((back, ack_of(packet@)))
            },
    {
        let ack = Self::build_ack(packet);
        let next = match ack.routing_header.current_hop() {
            Some(n) => n,
            None => return Err(SendError::RouteTooShort),
        };
        if ack.routing_header.hops.len() < 2 {
            return Err(SendError::RouteTooShort);
        }
        let i = match self.neighbour_index(next) {
            Some(i) => i,
            None => return Err(SendError::UnknownNeighbour(next)),
        };
        let ghost av = ack@;
        if channel_send(&self.senders[i].channel, ack) {
            self.sent = Ghost(self.sent@.push((next, av)));
            Ok(())
        } else {
            Err(SendError::Disconnected)
        }
    }

    /// Allocates the next session id.
    pub fn next_session_id(&mut self) -> (r: Option<u64>)
        ensures
            old(self).session_counter == u64::MAX ==> r is None && *final(self) == *old(self),
            old(self).session_counter < u64::MAX ==> r == Some((old(self).session_counter + 1) as u64)
                && final(self).session_counter == old(self).session_counter + 1,
            final(self).id == old(self).id,
            final(self).client_type == old(self).client_type,
            final(self).controller_send == old(self).controller_send,
            final(self).senders == old(self).senders,
            final(self).packets_map == old(self).packets_map,
            final(self).packets_history == old(self).packets_history,
            final(self).routing_handler == old(self).routing_handler,
            final(self).flood_id == old(self).flood_id,
            final(self).fsm == old(self).fsm,
            final(self).servers == old(self).servers,
            final(self).last_reflood == old(self).last_reflood,
            final(self).local_videos == old(self).local_videos,
            final(self).chunks == old(self).chunks,
            final(self).same_logs(old(self)),
    {
        if self.session_counter == u64::MAX {
            return None;
        }
        self.session_counter = self.session_counter + 1;
        Some(self.session_counter)
    }

    /// Fragments already held for session `s` (none if the session is unknown).
    pub open spec fn held(&self, s: u64) -> Seq<FragmentView> {
        if self.packets_map@.contains_key(s) {
            self.session(s)
        } else {
            Seq::empty()
        }
    }

    /// `f` can join what is held for session `s`: it is well formed, its index is
    /// below its total, and its total is the one the session already announced.
    pub open spec fn accepts(&self, s: u64, f: FragmentView) -> bool {
        &&& f.wf()
        &&& f.fragment_index < f.total_n_fragments
        &&& (self.held(s).len() == 0 || self.held(s)[0].total_n_fragments == f.total_n_fragments)
    }

    /// Everything but the reassembly table is as in `o`.
    pub open spec fn same_but_sessions(&self, o: &ClientState) -> bool {
        &&& self.id == o.id
        &&& self.client_type == o.client_type
        &&& self.controller_send == o.controller_send
        &&& self.senders == o.senders
        &&& self.session_counter == o.session_counter
        &&& self.packets_history == o.packets_history
        &&& self.routing_handler == o.routing_handler
        &&& self.flood_id == o.flood_id
        &&& self.fsm == o.fsm
        &&& self.servers == o.servers
        &&& self.last_reflood == o.last_reflood
        &&& self.local_videos == o.local_videos
        &&& self.chunks == o.chunks
    }

    /// Adds an inbound fragment to its session. A fragment that does not fit the
    /// session is dropped. When the session is complete it leaves the table and the
    /// joined message bytes are returned (`None` if the set does not join).
    pub fn receive_fragment(&mut self, frag: Fragment, session: u64) -> (r: Option<Vec<u8>>)
        requires
            old(self).wf(),
        ensures
            final(self).wf(),
            final(self).same_but_sessions(old(self)),
            !old(self).accepts(session, frag@) ==> r is None && final(self).packets_map@ == old(self).packets_map@,
            old(self).accepts(session, frag@) && old(self).held(session).len() + 1 == frag.total_n_fragments ==> {
                let all = old(self).held(session).push(frag@);
                &&& final(self).packets_map@ == old(self).packets_map@.remove(session)
                &&& (r is Some <==> crate::codec::frames_valid(all))
                &&& (r matches Some(b) ==> b@ == crate::codec::assembled(all))
            },
            old(self).accepts(session, frag@) && old(self).held(session).len() + 1 < frag.total_n_fragments ==> {
                &&& r is None
                &&& final(self).packets_map@.contains_key(session)
                &&& final(self).session(session) == old(self).held(session).push(frag@)
                &&& final(self).packets_map@.remove(session) == old(self).packets_map@.remove(session)
            },
            final(self).same_logs(old(self)),
    {
        if frag.data.len() != FRAGMENT_DSIZE || frag.length as usize > FRAGMENT_DSIZE
            || frag.fragment_index >= frag.total_n_fragments {
            return None;
        }
        let total = frag.total_n_fragments;
        match self.packets_map.get(&session) {
            Some(fs) => {
                proof {
                    assert(session_ok(self.session(session)));
                    assert(fs@.len() >= 1);
                    assert(self.session(session)[0] == fs@[0]@);
                }
                if fs[0].total_n_fragments != total {
                    return None;
                }
            },
            None => {},
        }
        let ghost held = self.held(session);
        let ghost old_map = self.packets_map@;
        let mut fs = match self.packets_map.remove(&session) {
            Some(v) => v,
            None => Vec::new(),
        };
        assert(views(fs@) =~= held);
        let ghost fv = frag@;
        fs.push(frag);
        assert(views(fs@) =~= held.push(fv));
        proof {
            if held.len() > 0 {
                assert(session_ok(held));
            }
        }
        if fs.len() as u64 == total {
            proof {
                assert forall|t: u64| #[trigger] self.packets_map@.contains_key(t) implies session_ok(self.session(t)) by {
                    assert(old_map.contains_key(t));
                }
            }
            return crate::codec::assemble_payload(&fs);
        }
        self.packets_map.insert(session, fs);
        proof {
            let all = held.push(fv);
            assert(self.session(session) == all);
            assert forall|i: int| 0 <= i < all.len() implies {
                &&& (#[trigger] all[i]).wf()
                &&& all[i].total_n_fragments == all[0].total_n_fragments
                &&& all[i].fragment_index < all[i].total_n_fragments
            } by {
                if i < held.len() {
                    assert(held[i] == all[i]);
                }
            }
            assert(session_ok(all));
            assert forall|t: u64| #[trigger] self.packets_map@.contains_key(t) implies session_ok(self.session(t)) by {
                if t != session {
                    assert(old_map.contains_key(t));
                }
            }
            assert(self.packets_map@.remove(session) =~= old_map.remove(session));
        }
        None
    }

    /// Everything but the history and the session counter is as in `o`.
    pub open spec fn same_but_outbox(&self, o: &ClientState) -> bool {
        &&& self.id == o.id
        &&& self.client_type == o.client_type
        &&& self.controller_send == o.controller_send
        &&& self.senders == o.senders
        &&& self.packets_map == o.packets_map
        &&& self.routing_handler == o.routing_handler
        &&& self.flood_id == o.flood_id
        &&& self.fsm == o.fsm
        &&& self.servers == o.servers
        &&& self.last_reflood == o.last_reflood
        &&& self.local_videos == o.local_videos
        &&& self.chunks == o.chunks
    }

    /// `p` is fragment `i` of `bytes` in session `s`, on a cheapest loop-free route
    /// from this client to `dest` with the hop index on the first neighbour.
    pub open spec fn carries(&self, p: PacketView, bytes: Seq<u8>, i: nat, s: u64, dest: NodeId) -> bool {
        &&& p.pack_type == PacketTypeView::MsgFragment(fragment_of(bytes, i))
        &&& p.session_id == s
        &&& p.routing_header.hop_index == 1
        &&& self.routing_handler.is_best_route(p.routing_header.hops, self.id, dest)
        &&& p.routing_header.hops == self.routing_handler.chosen_route(self.id, dest)
    }

    /// The history holds every fragment of `bytes` as session `s` on its way to
    /// `dest`, each as `o` would have routed it.
    pub open spec fn holds_message(&self, o: &ClientState, bytes: Seq<u8>, s: u64, dest: NodeId) -> bool {
        self.holds_prefix(o, bytes, s, dest, n_fragments(bytes.len()))
    }

    /// The history holds the first `m` fragments of `bytes` as session `s`.
    pub open spec fn holds_prefix(&self, o: &ClientState, bytes: Seq<u8>, s: u64, dest: NodeId, m: nat) -> bool {
        forall|i: u64| (i as nat) < m ==> {
            &&& #[trigger] self.packets_history@.contains_key(hkey(i, s))
            &&& o.carries(self.packets_history@[hkey(i, s)]@, bytes, i as nat, s, dest)
        }
    }

    /// Every history entry of a session other than `s` is as in `o`.
    pub open spec fn history_kept_except(&self, o: &ClientState, s: u64) -> bool {
        forall|k: u128| key_session(k) != s ==> {
            &&& #[trigger] self.packets_history@.contains_key(k) == o.packets_history@.contains_key(k)
            &&& o.packets_history@.contains_key(k) ==> self.packets_history@[k] == o.packets_history@[k]
        }
    }

    /// `n` is this state after sending `bytes` to `dest` with result `r`: no route
    /// (exactly when `dest` is this client or unreachable), an unknown first hop of
    /// a cheapest route, or no session id left all change nothing; otherwise a fresh
    /// session is used, the fragments handed to the neighbour are recorded in order
    /// (all of them on success), and no entry of another session changes.
    pub open spec fn send_outcome(&self, n: &ClientState, dest: NodeId, bytes: Seq<u8>, r: Result<(), SendError>) -> bool {
        let reach = dest != self.id && self.routing_handler.reachable(self.id, dest);
        let next = self.routing_handler.chosen_route(self.id, dest)[1];
        &&& (r == Err::<(), SendError>(SendError::NoRoute(dest))) <==> !reach
        &&& (r == Err::<(), SendError>(SendError::UnknownNeighbour(next))) <==> reach && !self.has_neighbour(next)
        &&& r matches Err(SendError::UnknownNeighbour(x)) ==> x == next && *n == *self
        &&& (r == Err::<(), SendError>(SendError::SessionsExhausted)) <==> reach && self.has_neighbour(next)
            && self.session_counter == u64::MAX
        &&& (r == Err::<(), SendError>(SendError::SessionsExhausted)) ==> *n == *self
        &&& self.session_counter < u64::MAX ==> r != Err::<(), SendError>(SendError::SessionsExhausted)
        &&& r == Err::<(), SendError>(SendError::NoRoute(dest)) ==> *n == *self
        &&& r matches Err(e) ==> (e == SendError::NoRoute(dest) || e is UnknownNeighbour || e is SessionsExhausted
            || e is Disconnected || e is ControllerDisconnected)
        &&& (r is Ok || r == Err::<(), SendError>(SendError::Disconnected) || r == Err::<(), SendError>(
            SendError::ControllerDisconnected,
        )) ==> {
            &&& reach
            &&& self.session_counter < u64::MAX
            &&& n.session_counter == self.session_counter + 1
            &&& n.history_kept_except(self, n.session_counter)
            &&& exists|m: nat| m <= n_fragments(bytes.len()) && #[trigger] n.holds_prefix(self, bytes, n.session_counter, dest, m)
            &&& r is Ok ==> n.holds_message(self, bytes, n.session_counter, dest)
            &&& r is Ok ==> {
                let h = self.routing_handler.chosen_route(self.id, dest);
                let ps = msg_packets(bytes, RouteView { hop_index: 1, hops: h }, n.session_counter);
                &&& n.sent@ == self.sent@ + ps.map_values(|p: PacketView| (h[1], p))
                &&& n.reported@ == self.reported@ + ps.map_values(|p: PacketView| EventView::PacketSent(p))
            }
            &&& n.logs_extend(self)
        }
        &&& n.session_counter == self.session_counter || n.session_counter == self.session_counter + 1
    }

    /// `r` is a result that sending `bytes` to `dest` gives from some state with
    /// this client's id, neighbours and topology (see `send_outcome`).
    pub open spec fn send_attempted(&self, dest: NodeId, bytes: Seq<u8>, r: Result<(), SendError>) -> bool {
        exists|a: ClientState, b: ClientState| #[trigger] a.send_outcome(&b, dest, bytes, r) && a.id == self.id
            && a.senders == self.senders && a.routing_handler == self.routing_handler
    }

    /// Some session no later than the current one holds all of `bytes` for `dest`.
    pub open spec fn delivered_some_session(&self, o: &ClientState, bytes: Seq<u8>, dest: NodeId) -> bool {
        exists|s: u64| s <= self.session_counter && #[trigger] self.holds_message(o, bytes, s, dest)
    }

    /// Sends `msg` to `dest`: along the best known route, as a fresh session, one
    /// packet per fragment through the first neighbour of the route.
    pub fn send_msg(&mut self, dest: NodeId, msg: &MessageType) -> (r: Result<(), SendError>)
        requires
            old(self).wf(),
            msg@.encodable(),
        ensures
            final(self).wf(),
            final(self).same_but_outbox(old(self)),
            old(self).send_outcome(final(self), dest, enc_message(msg@), r),
    {
        let route = match self.routing_handler.best_path(self.id, dest) {
            Some(h) => h,
            None => return Err(SendError::NoRoute(dest)),
        };
        if route.hops.len() < 2 {
            proof {
                assert(route.hops@.len() == 1);
                assert(dest == self.id);
            }
            return Err(SendError::NoRoute(dest));
        }
        proof {
            if dest == self.id {
                assert(route.hops@ == seq![dest]);
            }
        }
        let next = route.hops[1];
        proof {
            assert(self.routing_handler.is_best_route(route.hops@, self.id, dest));
        }
        if self.neighbour_index(next).is_none() {
            return Err(SendError::UnknownNeighbour(next));
        }
        let session = match self.next_session_id() {
            Some(x) => x,
            None => return Err(SendError::SessionsExhausted),
        };
        let bytes = encode_message(msg);
        let mut route = route;
        route.increase_hop_index();
        let packets = disassemble(&bytes, &route, session);
        let n = packets.len();
        let mut i: usize = 0;
        proof {
            assert(self.holds_prefix(old(self), bytes@, session, dest, 0));
            let mp = msg_packets(bytes@, route@, session);
            assert(self.sent@ =~= old(self).sent@ + mp.subrange(0, 0).map_values(|q: PacketView| (next, q)));
            assert(self.reported@ =~= old(self).reported@ + mp.subrange(0, 0).map_values(|q: PacketView| EventView::PacketSent(q)));
            assert(old(self).sent@.is_prefix_of(self.sent@)) by {
                assert(self.sent@.subrange(0, old(self).sent@.len() as int) =~= old(self).sent@);
            }
            assert(old(self).reported@.is_prefix_of(self.reported@)) by {
                assert(self.reported@.subrange(0, old(self).reported@.len() as int) =~= old(self).reported@);
            }
        }
        while i < n
            invariant
                self.wf(),
                self.same_but_outbox(old(self)),
                self.session_counter == session,
                session == old(self).session_counter + 1,
                self.has_neighbour(next),
                dest != old(self).id,
                old(self).routing_handler.reachable(old(self).id, dest),
                old(self).has_neighbour(next),
                n == packets@.len(),
                n == n_fragments(bytes@.len()),
                bytes@ == enc_message(msg@),
                i <= n,
                route.hop_index == 1,
                old(self).routing_handler.is_best_route(route.hops@, old(self).id, dest),
                next == route.hops@[1],
                route.hops@ == old(self).routing_handler.chosen_route(old(self).id, dest),
                forall|k: int| 0 <= k < n ==> (#[trigger] packets@[k])@ == (PacketView {
                    pack_type: PacketTypeView::MsgFragment(fragment_of(bytes@, k as nat)),
                    routing_header: route@,
                    session_id: session,
                }),
                self.holds_prefix(old(self), bytes@, session, dest, i as nat),
                self.logs_extend(old(self)),
                forall|k: int| 0 <= k < n ==> #[trigger] packets@[k]@ == msg_packets(bytes@, route@, session)[k],
                route@ == (RouteView { hop_index: 1, hops: route.hops@ }),
                self.sent@ == old(self).sent@ + msg_packets(bytes@, route@, session).subrange(0, i as int).map_values(
                    |p: PacketView| (next, p),
                ),
                self.reported@ == old(self).reported@ + msg_packets(bytes@, route@, session).subrange(0, i as int).map_values(
                    |p: PacketView| EventView::PacketSent(p),
                ),
                self.history_kept_except(old(self), session),
            decreases n - i,
        {
            let p = packets[i].duplicate();
            let ghost before = *self;
            let ghost pg = p;
            proof {
                assert(p@.fragment_index() == i as u64);
                assert(old(self).carries(p@, bytes@, i as nat, session, dest));
            }
            let res = self.send_packet(next, p);
            proof {
                let mp = msg_packets(bytes@, route@, session);
                assert(pg@ == mp[i as int]);
                assert(mp.subrange(0, i + 1) =~= mp.subrange(0, i as int).push(mp[i as int]));
                assert(mp.subrange(0, i + 1).map_values(|q: PacketView| (next, q)) =~= mp.subrange(0, i as int).map_values(
                    |q: PacketView| (next, q),
                ).push((next, mp[i as int])));
                assert(mp.subrange(0, i + 1).map_values(|q: PacketView| EventView::PacketSent(q)) =~= mp.subrange(
                    0,
                    i as int,
                ).map_values(|q: PacketView| EventView::PacketSent(q)).push(EventView::PacketSent(mp[i as int])));
                if res is Ok || res == Err::<(), SendError>(SendError::ControllerDisconnected) {
                    assert(self.sent@ =~= old(self).sent@ + mp.subrange(0, i + 1).map_values(|q: PacketView| (next, q)));
                }
                if res is Ok {
                    assert(self.reported@ =~= old(self).reported@ + mp.subrange(0, i + 1).map_values(
                        |q: PacketView| EventView::PacketSent(q),
                    ));
                }
                assert(old(self).sent@.is_prefix_of(self.sent@)) by {
                    assert(self.sent@.subrange(0, old(self).sent@.len() as int) =~= old(self).sent@);
                }
                assert(old(self).reported@.is_prefix_of(self.reported@)) by {
                    assert(self.reported@.subrange(0, old(self).reported@.len() as int) =~= old(self).reported@);
                }
                let ki = hkey(i as u64, session);
                lemma_key_session(i as u64, session);
                if res is Ok || res == Err::<(), SendError>(SendError::ControllerDisconnected) {
                    assert(self.packets_history@ == before.packets_history@.insert(ki, pg));
                    assert forall|k: u64| (k as nat) < i + 1 implies {
                        &&& #[trigger] self.packets_history@.contains_key(hkey(k, session))
                        &&& old(self).carries(self.packets_history@[hkey(k, session)]@, bytes@, k as nat, session, dest)
                    } by {
                        if (k as nat) < i {
                            if hkey(k, session) == ki {
                                lemma_hkey_injective(k, session, i as u64, session);
                            }
                            assert(before.packets_history@.contains_key(hkey(k, session)));
                        } else {
                            assert(self.packets_history@[ki] == pg);
                        }
                    }
                    assert(self.holds_prefix(old(self), bytes@, session, dest, (i + 1) as nat));
                    assert forall|k: u128| key_session(k) != session implies {
                        &&& #[trigger] self.packets_history@.contains_key(k) == old(self).packets_history@.contains_key(k)
                        &&& old(self).packets_history@.contains_key(k) ==> self.packets_history@[k] == old(self).packets_history@[k]
                    } by {
                        assert(k != ki);
                        assert(before.packets_history@.contains_key(k) == old(self).packets_history@.contains_key(k));
                    }
                } else {
                    assert(res == Err::<(), SendError>(SendError::Disconnected));
                }
            }
            match res {
                Ok(()) => {},
                Err(e) => {
                    proof {
                        if e == SendError::Disconnected {
                            assert(self.holds_prefix(old(self), bytes@, session, dest, i as nat));
                        } else {
                            assert(self.holds_prefix(old(self), bytes@, session, dest, (i + 1) as nat));
                        }
                    }
                    return Err(e);
                },
            }
            i = i + 1;
        }
        assert(self.holds_message(old(self), bytes@, session, dest));
        proof {
            let mp = msg_packets(bytes@, route@, session);
            assert(mp.subrange(0, n as int) =~= mp);
            assert(old(self).routing_handler.is_best_route(route.hops@, old(self).id, dest));
        }
        Ok(())
    }

    /// Only the topology and the history may differ from `o`.
    pub open spec fn same_but_feedback(&self, o: &ClientState) -> bool {
        &&& self.id == o.id
        &&& self.client_type == o.client_type
        &&& self.controller_send == o.controller_send
        &&& self.senders == o.senders
        &&& self.session_counter == o.session_counter
        &&& self.packets_map == o.packets_map
        &&& self.flood_id == o.flood_id
        &&& self.fsm == o.fsm
        &&& self.servers == o.servers
        &&& self.last_reflood == o.last_reflood
        &&& self.local_videos == o.local_videos
        &&& self.chunks == o.chunks
        &&& self.same_logs(o)
    }

    /// An acknowledgement arrived along `route`: the path it rewards gets lighter
    /// and the fragment leaves the history. Returns whether it was there.
    pub fn handle_ack(&mut self, route: &SourceRoutingHeader, ack: Ack, session: u64) -> (found: bool)
        requires
            old(self).wf(),
        ensures
            final(self).wf(),
            final(self).same_but_feedback(old(self)),
            found == old(self).packets_history@.contains_key(hkey(ack.fragment_index, session)),
            final(self).packets_history@ == old(self).packets_history@.remove(hkey(ack.fragment_index, session)),
            !final(self).packets_history@.contains_key(hkey(ack.fragment_index, session)),
            forall|a: NodeId, b: NodeId| #[trigger] final(self).routing_handler.weight(a, b)
                == acked_weight(old(self).routing_handler.weight(a, b), route.hops@, a, b),
    {
        self.routing_handler.nodes_ack(route);
        let key = history_key(ack.fragment_index, session);
        let removed = self.packets_history.remove(&key);
        removed.is_some()
    }

    /// Everything but the flood counter and the session counter (and the history,
    /// which every send touches) is as in `o`.
    pub open spec fn same_but_flood(&self, o: &ClientState) -> bool {
        &&& self.id == o.id
        &&& self.client_type == o.client_type
        &&& self.controller_send == o.controller_send
        &&& self.senders == o.senders
        &&& self.packets_map == o.packets_map
        &&& self.routing_handler == o.routing_handler
        &&& self.fsm == o.fsm
        &&& self.servers == o.servers
        &&& self.last_reflood == o.last_reflood
        &&& self.local_videos == o.local_videos
        &&& self.chunks == o.chunks
    }

    /// Since `o`, the flood request of this state's flood id and session was sent to
    /// every neighbour in order, with outcomes `outs`: each neighbour that took it
    /// is recorded, and each mirror the controller took.
    pub open spec fn flooded(&self, o: &ClientState, outs: Seq<Result<(), SendError>>) -> bool {
        let p = flood_request_view(self.flood_id, o.id, self.session_counter);
        &&& outs.len() == self.senders@.len()
        &&& forall|i: int| 0 <= i < outs.len() ==> (#[trigger] outs[i] is Ok || outs[i] == Err::<(), SendError>(
            SendError::Disconnected,
        ) || outs[i] == Err::<(), SendError>(SendError::ControllerDisconnected))
        &&& self.sent@ == o.sent@ + flood_sent(self.neighbour_ids(), outs, p)
        &&& self.reported@ == o.reported@ + flood_reported(outs, p)
    }

    /// Starts a flood: a new flood id, a new session, and a request whose trace
    /// holds only this client, sent with an empty route to every neighbour.
    /// Returns the flood id.
    pub fn init_flood_request(&mut self) -> (r: u64)
        requires
            old(self).wf(),
        ensures
            final(self).wf(),
            final(self).same_but_flood(old(self)),
            r == final(self).flood_id,
            r == if old(self).flood_id == u64::MAX { 0 } else { old(self).flood_id + 1 },
            old(self).session_counter < u64::MAX ==> {
                let k = hkey(0, final(self).session_counter);
                &&& final(self).session_counter == old(self).session_counter + 1
                &&& final(self).packets_history@.remove(k) == old(self).packets_history@.remove(k)
                &&& final(self).packets_history@.contains_key(k) ==> (final(self).packets_history@[k]@ == flood_request_view(
                    r,
                    old(self).id,
                    final(self).session_counter,
                ) || (old(self).packets_history@.contains_key(k) && final(self).packets_history@[k]
                    == old(self).packets_history@[k]))
            },
            old(self).session_counter == u64::MAX ==> final(self).packets_history == old(self).packets_history,
            old(self).session_counter < u64::MAX ==> exists|outs: Seq<Result<(), SendError>>| #[trigger] final(self).flooded(
                old(self),
                outs,
            ),
            old(self).session_counter == u64::MAX ==> final(self).same_logs(old(self)),
    {
        self.flood_id = if self.flood_id == u64::MAX { 0 } else { self.flood_id + 1 };
        let flood_id = self.flood_id;
        let session = match self.next_session_id() {
            Some(s) => s,
            None => return flood_id,
        };
        let id = self.id;
        let n = self.senders.len();
        let ghost fv = flood_request_view(flood_id, id, session);
        let ghost mut outs: Seq<Result<(), SendError>> = Seq::empty();
        let mut i: usize = 0;
        proof {
            assert(self.sent@ =~= old(self).sent@ + flood_sent(self.neighbour_ids(), outs, fv));
            assert(self.reported@ =~= old(self).reported@ + flood_reported(outs, fv));
        }
        while i < n
            invariant
                self.wf(),
                self.same_but_flood(old(self)),
                self.flood_id == flood_id,
                fv == flood_request_view(flood_id, id, session),
                outs.len() == i,
                forall|k: int| 0 <= k < outs.len() ==> (#[trigger] outs[k] is Ok || outs[k] == Err::<(), SendError>(
                    SendError::Disconnected,
                ) || outs[k] == Err::<(), SendError>(SendError::ControllerDisconnected)),
                self.sent@ == old(self).sent@ + flood_sent(self.neighbour_ids(), outs, fv),
                self.reported@ == old(self).reported@ + flood_reported(outs, fv),
                self.session_counter == old(self).session_counter + 1,
                session == self.session_counter,
                self.id == id,
                id == old(self).id,
                n == self.senders@.len(),
                i <= n,
                self.packets_history@.remove(hkey(0, session)) == old(self).packets_history@.remove(hkey(0, session)),
                self.packets_history@.contains_key(hkey(0, session)) ==> (self.packets_history@[hkey(0, session)]@
                    == flood_request_view(flood_id, id, session) || (old(self).packets_history@.contains_key(hkey(0, session))
                    && self.packets_history@[hkey(0, session)] == old(self).packets_history@[hkey(0, session)])),
            decreases n - i,
        {
            let to = self.senders[i].id;
            let mut trace: Vec<(NodeId, NodeType)> = Vec::new();
            trace.push((id, NodeType::Client));
            let request = FloodRequest { flood_id, initiator_id: id, path_trace: trace };
            let packet = Packet::new_flood_request(SourceRoutingHeader::new(Vec::new(), 0), session, request);
            let ghost before = self.packets_history@;
            let ghost pg = packet;
            proof {
                assert(packet@.routing_header.hops =~= Seq::<NodeId>::empty());
                assert(packet@.pack_type == PacketTypeView::FloodRequest(FloodRequestView {
                    flood_id,
                    initiator_id: id,
                    path_trace: seq![(id, NodeType::Client)],
                }));
                assert(packet@ == flood_request_view(flood_id, id, session));
            }
            let ghost prev_sent = self.sent@;
            let ghost prev_rep = self.reported@;
            let res = self.send_packet(to, packet);
            proof {
                let k = hkey(0, session);
                if self.packets_history@ != before {
                    assert(self.packets_history@ == before.insert(k, pg));
                    assert(self.packets_history@.remove(k) =~= before.remove(k));
                }
                assert(self.neighbour_ids()[i as int] == to);
                let outs2 = outs.push(res);
                assert(outs2.drop_last() =~= outs);
                assert(self.sent@ =~= old(self).sent@ + flood_sent(self.neighbour_ids(), outs2, fv));
                assert(self.reported@ =~= old(self).reported@ + flood_reported(outs2, fv));
                outs = outs2;
            }
            i = i + 1;
        }
        assert(self.flooded(old(self), outs));
        flood_id
    }

    /// `n` is this state after sending `p` again with result `r`. An empty route
    /// gives `RouteTooShort`; no route to the destination (the last hop), an
    /// unknown first hop of a cheapest route, or a closed neighbour change nothing.
    /// Otherwise the new copy, on a cheapest route with hop index 1, replaces `p` in
    /// the history.
    pub open spec fn resend_outcome(&self, n: &ClientState, p: PacketView, r: Result<(), SendError>) -> bool {
        let dest = p.routing_header.hops.last();
        let reach = dest != self.id && self.routing_handler.reachable(self.id, dest);
        let key = hkey(p.fragment_index(), p.session_id);
        let next = self.routing_handler.chosen_route(self.id, dest)[1];
        &&& p.routing_header.hops.len() == 0 ==> r == Err::<(), SendError>(SendError::RouteTooShort) && *n == *self
        &&& p.routing_header.hops.len() > 0 ==> {
            &&& (r == Err::<(), SendError>(SendError::NoRoute(dest))) <==> !reach
            &&& (r == Err::<(), SendError>(SendError::UnknownNeighbour(next))) <==> reach && !self.has_neighbour(next)
            &&& r matches Err(SendError::UnknownNeighbour(x)) ==> x == next
            &&& (r is Ok || r == Err::<(), SendError>(SendError::ControllerDisconnected)) ==> {
                let q = n.packets_history@[key]@;
                &&& reach
                &&& n.packets_history@ == self.packets_history@.insert(key, n.packets_history@[key])
                &&& q.pack_type == p.pack_type
                &&& q.session_id == p.session_id
                &&& q.routing_header.hop_index == 1
                &&& self.routing_handler.is_best_route(q.routing_header.hops, self.id, dest)
                &&& q.routing_header.hops == self.routing_handler.chosen_route(self.id, dest)
                &&& n.sent@ == self.sent@.push((next, q))
                &&& r is Ok ==> n.reported@ == self.reported@.push(EventView::PacketSent(q))
            }
        }
        &&& r matches Err(e) ==> (e is RouteTooShort || e is NoRoute || e is UnknownNeighbour || e is Disconnected
            || e is ControllerDisconnected)
        &&& (r is Err && r != Err::<(), SendError>(SendError::ControllerDisconnected)) ==> *n == *self
    }

    /// Sends a packet again on a fresh best route to its destination
    /// (the last hop of its route); the new copy replaces it in the history.
    pub fn retransmit_packet(&mut self, packet: Packet) -> (r: Result<(), SendError>)
        requires
            old(self).wf(),
        ensures
            final(self).wf(),
            final(self).same_but_history(old(self)),
            old(self).resend_outcome(final(self), packet@, r),
    {
        let len = packet.routing_header.hops.len();
        if len == 0 {
            return Err(SendError::RouteTooShort);
        }
        let dest = packet.routing_header.hops[len - 1];
        let mut route = match self.routing_handler.best_path(self.id, dest) {
            Some(h) => h,
            None => return Err(SendError::NoRoute(dest)),
        };
        if route.hops.len() < 2 {
            return Err(SendError::NoRoute(dest));
        }
        proof {
            if dest == self.id {
                assert(route.hops@ == seq![dest]);
            }
        }
        proof {
            assert(self.routing_handler.is_best_route(route.hops@, self.id, dest));
        }
        route.increase_hop_index();
        let next = route.hops[1];
        let again = Packet { pack_type: packet.pack_type, routing_header: route, session_id: packet.session_id };
        proof {
            assert(again@.fragment_index() == packet@.fragment_index());
        }
        self.send_packet(next, again)
    }

    /// Forgets server `x`. Returns whether it was known.
    pub fn remove_server(&mut self, x: NodeId) -> (r: bool)
        requires
            old(self).wf(),
        ensures
            final(self).wf(),
            r == old(self).server_ids().contains(x),
            !final(self).server_ids().contains(x),
            forall|y: NodeId| y != x ==> (#[trigger] final(self).server_ids().contains(y) <==> old(self).server_ids().contains(y)),
            !r ==> final(self).servers == old(self).servers,
            r ==> exists|i: int| 0 <= i < old(self).servers@.len() && old(self).servers@[i].id == x
                && final(self).servers@ == old(self).servers@.remove(i),
            final(self).id == old(self).id,
            final(self).client_type == old(self).client_type,
            final(self).controller_send == old(self).controller_send,
            final(self).senders == old(self).senders,
            final(self).session_counter == old(self).session_counter,
            final(self).packets_map == old(self).packets_map,
            final(self).packets_history == old(self).packets_history,
            final(self).routing_handler == old(self).routing_handler,
            final(self).flood_id == old(self).flood_id,
            final(self).fsm == old(self).fsm,
            final(self).last_reflood == old(self).last_reflood,
            final(self).local_videos == old(self).local_videos,
            final(self).chunks == old(self).chunks,
            final(self).same_logs(old(self)),
    {
        let mut i: usize = 0;
        while i < self.servers.len()
            invariant
                *self == *old(self),
                old(self).wf(),
                i <= self.servers@.len(),
                forall|j: int| 0 <= j < i ==> self.servers@[j].id != x,
            decreases self.servers@.len() - i,
        {
            if self.servers[i].id == x {
                let ghost ids = self.server_ids();
                let ghost old_servers = self.servers@;
                assert(ids[i as int] == x);
                let _ = self.servers.remove(i);
                proof {
                    let nids = self.server_ids();
                    assert(nids =~= ids.remove(i as int));
                    assert forall|a: int, b: int| 0 <= a < nids.len() && 0 <= b < nids.len() && a != b implies nids[a] != nids[b] by {
                        let oa = if a < i { a } else { a + 1 };
                        let ob = if b < i { b } else { b + 1 };
                        assert(nids[a] == ids[oa] && nids[b] == ids[ob]);
                        assert(ids.no_duplicates());
                    }
                    assert(self.servers@ == old_servers.remove(i as int));
                    assert forall|y: NodeId| y != x implies (#[trigger] nids.contains(y) <==> ids.contains(y)) by {
                        if ids.contains(y) {
                            let j = choose|j: int| 0 <= j < ids.len() && ids[j] == y;
                            assert(j != i);
                            let nj = if j < i { j } else { j - 1 };
                            assert(nids[nj] == y);
                        }
                        if nids.contains(y) {
                            let j = choose|j: int| 0 <= j < nids.len() && nids[j] == y;
                            let oj = if j < i { j } else { j + 1 };
                            assert(ids[oj] == y);
                        }
                    }
                    if nids.contains(x) {
                        let j = choose|j: int| 0 <= j < nids.len() && nids[j] == x;
                        let oj = if j < i { j } else { j + 1 };
                        assert(ids[oj] == x);
                        assert(oj != i);
                    }
                }
                return true;
            }
            i = i + 1;
        }
        proof {
            if self.server_ids().contains(x) {
                let j = choose|j: int| 0 <= j < self.server_ids().len() && self.server_ids()[j] == x;
                assert(self.servers@[j].id == x);
            }
        }
        false
    }

    /// Reacts to a negative acknowledgement of fragment `nack.fragment_index` of
    /// `session` that came back along `route`, at time `now` (ms).
    /// `Dropped`: the dropping node (the first hop of `route`) is penalised and the
    /// fragment is sent again on a fresh route. `ErrorInRouting(x)`: `x` stops being
    /// a known server and a flood starts unless one did within the window.
    /// The other kinds need nothing. A nack for a fragment that is not waiting for
    /// an acknowledgement changes nothing.
    pub fn handle_nack(&mut self, route: &SourceRoutingHeader, nack: Nack, session: u64, now: u64) -> (r: NackOutcome)
        requires
            old(self).wf(),
        ensures
            final(self).wf(),
            final(self).id == old(self).id,
            final(self).senders == old(self).senders,
            final(self).packets_map == old(self).packets_map,
            final(self).fsm == old(self).fsm,
            final(self).chunks == old(self).chunks,
            final(self).local_videos == old(self).local_videos,
            !old(self).packets_history@.contains_key(hkey(nack.fragment_index, session)) ==> r == NackOutcome::UnknownFragment
                && *final(self) == *old(self),
            !(nack.nack_type is Dropped && old(self).packets_history@.contains_key(hkey(nack.fragment_index, session))
                && route.hops@.len() > 0) ==> final(self).routing_handler == old(self).routing_handler,
            old(self).packets_history@.contains_key(hkey(nack.fragment_index, session)) ==> {
                let key = hkey(nack.fragment_index, session);
                let p = old(self).packets_history@[key]@;
                match nack.nack_type {
                    NackType::Dropped => {
                        &&& (r == NackOutcome::Retransmitted || r matches NackOutcome::RetransmitFailed(_))
                        &&& final(self).servers == old(self).servers
                        &&& final(self).flood_id == old(self).flood_id
                        &&& final(self).last_reflood == old(self).last_reflood
                        &&& route.hops@.len() > 0 ==> forall|a: NodeId, b: NodeId| #[trigger] final(self).routing_handler.weight(a, b) == (
                            if old(self).routing_handler.weight(a, b) == 0 || (a != route.hops@[0] && b != route.hops@[0]) {
                                old(self).routing_handler.weight(a, b)
                            } else {
                                sat_add(old(self).routing_handler.weight(a, b), NACK_PENALTY as int)
                            })
                        &&& r == NackOutcome::Retransmitted ==> final(self).packets_history@.dom() == old(self).packets_history@.dom()
                        &&& exists|mid: ClientState| #[trigger] mid.same_but_feedback(old(self))
                            && mid.packets_history == old(self).packets_history
                            && mid.routing_handler == final(self).routing_handler
                            && mid.resend_outcome(final(self), p, resend_result(r))
                    },
                    NackType::ErrorInRouting(x) => {
                        &&& !final(self).server_ids().contains(x)
                        &&& forall|y: NodeId| y != x ==> (#[trigger] final(self).server_ids().contains(y) <==> old(self).server_ids().contains(y))
                        &&& final(self).routing_handler == old(self).routing_handler
                        &&& !old(self).server_ids().contains(x) ==> final(self).servers == old(self).servers
                        &&& old(self).server_ids().contains(x) ==> exists|i: int| 0 <= i < old(self).servers@.len()
                            && old(self).servers@[i].id == x && final(self).servers@ == old(self).servers@.remove(i)
                        &&& reflood_due(old(self).last_reflood, now) && old(self).session_counter < u64::MAX ==> {
                            &&& final(self).session_counter == old(self).session_counter + 1
                            &&& final(self).packets_history@.remove(hkey(0, final(self).session_counter))
                                == old(self).packets_history@.remove(hkey(0, final(self).session_counter))
                        }
                        &&& reflood_due(old(self).last_reflood, now) && old(self).session_counter == u64::MAX
                            ==> final(self).packets_history == old(self).packets_history
                        &&& reflood_due(old(self).last_reflood, now) && old(self).session_counter < u64::MAX
                            ==> exists|outs: Seq<Result<(), SendError>>| #[trigger] final(self).flooded(old(self), outs)
                        &&& !(reflood_due(old(self).last_reflood, now) && old(self).session_counter < u64::MAX)
                            ==> final(self).same_logs(old(self))
                        &&& reflood_due(old(self).last_reflood, now) ==> r == NackOutcome::Reflooded
                            && final(self).last_reflood == Some(now)
                            && final(self).flood_id == (if old(self).flood_id == u64::MAX { 0 } else { old(self).flood_id + 1 })
                        &&& !reflood_due(old(self).last_reflood, now) ==> r == NackOutcome::FloodSkipped
                            && final(self).last_reflood == old(self).last_reflood
                            && final(self).flood_id == old(self).flood_id
                            && final(self).packets_history == old(self).packets_history
                    },
                    _ => r == NackOutcome::Ignored && *final(self) == *old(self),
                }
            },
    {
        let key = history_key(nack.fragment_index, session);
        let packet = match self.packets_history.get(&key) {
            Some(p) => p.duplicate(),
            None => return NackOutcome::UnknownFragment,
        };
        match nack.nack_type {
            NackType::Dropped => {
                if route.hops.len() > 0 {
                    self.routing_handler.node_nack(route.hops[0]);
                }
                proof {
                    assert(packet@.fragment_index() == nack.fragment_index && packet.session_id == session) by {
                        lemma_hkey_injective(nack.fragment_index, session, packet@.fragment_index(), packet.session_id);
                    }
                }
                let len = packet.routing_header.hops.len();
                let ghost mid = *self;
                let ghost pv = packet@;
                match self.retransmit_packet(packet) {
                    Ok(()) => {
                        proof {
                            assert(len > 0);
                            assert(self.packets_history@.dom() =~= old(self).packets_history@.dom());
                            assert(mid.same_but_feedback(old(self)));
                            assert(mid.resend_outcome(self, pv, resend_result(NackOutcome::Retransmitted)));
                        }
                        NackOutcome::Retransmitted
                    },
                    Err(e) => {
                        proof {
                            assert(mid.same_but_feedback(old(self)));
                            assert(mid.resend_outcome(self, pv, resend_result(NackOutcome::RetransmitFailed(e))));
                        }
                        NackOutcome::RetransmitFailed(e)
                    },
                }
            },
            NackType::ErrorInRouting(x) => {
                self.remove_server(x);
                if reflood_is_due(self.last_reflood, now) {
                    self.last_reflood = Some(now);
                    let ghost mid = *self;
                    self.init_flood_request();
                    proof {
                        if mid.session_counter < u64::MAX {
                            let outs = choose|outs: Seq<Result<(), SendError>>| #[trigger] self.flooded(&mid, outs);
                            assert(self.flooded(old(self), outs));
                        }
                    }
                    NackOutcome::Reflooded
                } else {
                    NackOutcome::FloodSkipped
                }
            },
            _ => NackOutcome::Ignored,
        }
    }

    /// The answer to a flood request seen by client `client_id`: the request's trace
    /// with this client appended, turned into a response whose route is the reversed
    /// trace, already one hop in. Also gives that next hop, if the trace had one.
    pub fn build_flood_response(req: &FloodRequest, client_id: NodeId) -> (r: (Option<NodeId>, Packet))
        ensures
            ({
                let trace = req.path_trace@.push((client_id, NodeType::Client));
                let hops = reversed(trace_ids(trace));
                &&& r.1@ == (PacketView {
                    pack_type: PacketTypeView::FloodResponse(FloodResponseView { flood_id: req.flood_id, path_trace: trace }),
                    routing_header: RouteView { hop_index: 1, hops },
                    session_id: 1,
                })
                &&& r.0 == (if hops.len() >= 2 { Some(hops[1]) } else { None::<NodeId> })
            }),
    {
        let mut full = req.duplicate();
        full.path_trace.push((client_id, NodeType::Client));
        let mut packet = full.generate_response(1);
        let dest = packet.routing_header.next_hop();
        packet.routing_header.increase_hop_index();
        (dest, packet)
    }

    /// Forwards a flood response to `dest`; when there is no such neighbour or it
    /// cannot take the packet, the controller is asked to deliver it instead.
    pub fn send_flood_response(&mut self, dest: Option<NodeId>, packet: Packet) -> (r: Result<FloodReply, SendError>)
        requires
            old(self).wf(),
        ensures
            final(self).wf(),
            final(self).same_but_history(old(self)),
            r == Ok::<FloodReply, SendError>(FloodReply::Direct) ==> (dest matches Some(d) && old(self).has_neighbour(d)),
            (dest is None || !old(self).has_neighbour(dest->0)) ==> (r == Ok::<FloodReply, SendError>(FloodReply::Shortcut)
                || r == Err::<FloodReply, SendError>(SendError::ControllerDisconnected)),
            r == Ok::<FloodReply, SendError>(FloodReply::Direct) || r == Ok::<FloodReply, SendError>(FloodReply::Shortcut)
                || r == Err::<FloodReply, SendError>(SendError::ControllerDisconnected),
            r == Ok::<FloodReply, SendError>(FloodReply::Shortcut) ==> {
                &&& final(self).same_but_logs(old(self))
                &&& final(self).sent == old(self).sent
                &&& final(self).reported@ == old(self).reported@.push(EventView::ControllerShortcut(packet@))
            },
            r == Ok::<FloodReply, SendError>(FloodReply::Direct) ==> {
                &&& final(self).packets_history@ == old(self).packets_history@.insert(
                    hkey(packet@.fragment_index(), packet.session_id),
                    packet,
                )
                &&& final(self).sent@ == old(self).sent@.push((dest->0, packet@))
                &&& final(self).reported@ == old(self).reported@.push(EventView::PacketSent(packet@))
            },
            (dest is None || !old(self).has_neighbour(dest->0)) && r is Err ==> *final(self) == *old(self),
    {
        let mirror = packet.duplicate();
        if let Some(d) = dest {
            match self.send_packet(d, packet) {
                Ok(()) => return Ok(FloodReply::Direct),
                Err(SendError::ControllerDisconnected) => return Err(SendError::ControllerDisconnected),
                Err(_) => {},
            }
        }
        match self.send_sc_packet(DroneEvent::ControllerShortcut(mirror)) {
            Ok(()) => Ok(FloodReply::Shortcut),
            Err(e) => Err(e),
        }
    }

    /// Answers a flood request: the response (see `build_flood_response`) goes to
    /// the next hop back along the trace, or through the controller.
    pub fn handle_flood_req(&mut self, req: &FloodRequest) -> (r: Result<FloodReply, SendError>)
        requires
            old(self).wf(),
        ensures
            final(self).wf(),
            final(self).same_but_history(old(self)),
            ({
                let trace = req.path_trace@.push((old(self).id, NodeType::Client));
                let hops = reversed(trace_ids(trace));
                let resp = PacketView {
                    pack_type: PacketTypeView::FloodResponse(FloodResponseView { flood_id: req.flood_id, path_trace: trace }),
                    routing_header: RouteView { hop_index: 1, hops },
                    session_id: 1,
                };
                &&& r == Ok::<FloodReply, SendError>(FloodReply::Direct) ==> {
                    &&& hops.len() >= 2 && old(self).has_neighbour(hops[1])
                    &&& final(self).packets_history@.contains_key(hkey(0, 1))
                    &&& final(self).packets_history@[hkey(0, 1)]@ == (PacketView {
                        pack_type: PacketTypeView::FloodResponse(FloodResponseView { flood_id: req.flood_id, path_trace: trace }),
                        routing_header: RouteView { hop_index: 1, hops },
                        session_id: 1,
                    })
                }
                &&& (hops.len() < 2 || !old(self).has_neighbour(hops[1])) ==> (r == Ok::<FloodReply, SendError>(
                    FloodReply::Shortcut,
                ) || r == Err::<FloodReply, SendError>(SendError::ControllerDisconnected))
                &&& (hops.len() < 2 || !old(self).has_neighbour(hops[1])) && r is Err ==> *final(self) == *old(self)
                &&& r == Ok::<FloodReply, SendError>(FloodReply::Shortcut) ==> final(self).same_but_logs(old(self))
                    && final(self).sent == old(self).sent
                    && final(self).reported@ == old(self).reported@.push(EventView::ControllerShortcut(resp))
                &&& r == Ok::<FloodReply, SendError>(FloodReply::Direct) ==> final(self).sent@ == old(self).sent@.push((hops[1], resp))
                    && final(self).reported@ == old(self).reported@.push(EventView::PacketSent(resp))
                &&& r == Ok::<FloodReply, SendError>(FloodReply::Direct) || r == Ok::<FloodReply, SendError>(
                    FloodReply::Shortcut,
                ) || r == Err::<FloodReply, SendError>(SendError::ControllerDisconnected)
            }),
    {
        let (dest, packet) = Self::build_flood_response(req, self.id);
        self.send_flood_response(dest, packet)
    }

    /// Whether `id` is a known server.
    pub fn is_server(&self, id: NodeId) -> (r: bool)
        ensures
            r == self.server_ids().contains(id),
    {
        let mut i: usize = 0;
        while i < self.servers.len()
            invariant
                i <= self.servers@.len(),
                forall|j: int| 0 <= j < i ==> self.servers@[j].id != id,
            decreases self.servers@.len() - i,
        {
            if self.servers[i].id == id {
                assert(self.server_ids()[i as int] == id);
                return true;
            }
            i = i + 1;
        }
        proof {
            if self.server_ids().contains(id) {
                let j = choose|j: int| 0 <= j < self.server_ids().len() && self.server_ids()[j] == id;
                assert(self.servers@[j].id == id);
            }
        }
        false
    }

    /// Subscribes to server `dest`, announcing the local videos.
    pub fn send_subscribe_client(&mut self, dest: NodeId) -> (r: Result<(), SendError>)
        requires
            old(self).wf(),
        ensures
            final(self).wf(),
            final(self).same_but_outbox(old(self)),
            old(self).send_outcome(
                final(self),
                dest,
                enc_message(MessageView::SubscribeClient {
                    client_id: old(self).id,
                    client_type: old(self).client_type,
                    available_videos: metas_view(old(self).local_videos@),
                }),
                r,
            ),
    {
        let msg = MessageType::SubscribeClient {
            client_id: self.id,
            client_type: self.client_type,
            available_videos: copy_metas(&self.local_videos),
        };
        self.send_msg(dest, &msg)
    }

    /// The subscription this client sends to a server it discovers.
    pub open spec fn subscription(&self) -> Seq<u8> {
        enc_message(MessageView::SubscribeClient {
            client_id: self.id,
            client_type: self.client_type,
            available_videos: metas_view(self.local_videos@),
        })
    }

    /// Merges a flood response: its trace enters the topology, and every server
    /// on it that was not known yet is recorded with no videos and subscribed to.
    /// The first server found moves the client out of `ServerNotFound`. Returns the
    /// servers that were new.
    pub fn handle_flood_res(&mut self, res: &FloodResponse) -> (r: (Vec<NodeId>, Vec<Result<(), SendError>>))
        requires
            old(self).wf(),
        ensures
            final(self).wf(),
            final(self).id == old(self).id,
            final(self).senders == old(self).senders,
            final(self).packets_map == old(self).packets_map,
            final(self).flood_id == old(self).flood_id,
            final(self).last_reflood == old(self).last_reflood,
            final(self).local_videos == old(self).local_videos,
            final(self).chunks == old(self).chunks,
            forall|a: NodeId, b: NodeId| #[trigger] final(self).routing_handler.weight(a, b) == (
                if old(self).routing_handler.weight(a, b) == 0 && trace_step(res.path_trace@, a, b) {
                    WEIGHT_INIT
                } else {
                    old(self).routing_handler.weight(a, b)
                }),
            forall|y: NodeId| #[trigger] final(self).server_ids().contains(y) <==> (old(self).server_ids().contains(y)
                || res.path_trace@.contains((y, NodeType::Server))),
            forall|i: int| 0 <= i < final(self).servers@.len() && !old(self).server_ids().contains(#[trigger] final(self).servers@[i].id)
                ==> final(self).servers@[i].videos@.len() == 0,
            forall|y: NodeId| #[trigger] r.0@.contains(y) <==> (!old(self).server_ids().contains(y)
                && res.path_trace@.contains((y, NodeType::Server))),
            final(self).fsm == (if old(self).fsm == FsmStatus::ServerNotFound && r.0@.len() > 0 {
                FsmStatus::NotSubscribedToServer
            } else {
                old(self).fsm
            }),
            final(self).servers@.len() == old(self).servers@.len() + r.0@.len(),
            forall|i: int| 0 <= i < old(self).servers@.len() ==> #[trigger] final(self).servers@[i] == old(self).servers@[i],
            r.1@.len() == r.0@.len(),
            exists|pre: Seq<ClientState>, post: Seq<ClientState>| #![trigger pre.len(), post.len()] pre.len() == r.0@.len() && post.len() == r.0@.len()
                && forall|i: int| 0 <= i < r.0@.len() ==> {
                &&& #[trigger] pre[i].send_outcome(&post[i], r.0@[i], final(self).subscription(), r.1@[i])
                &&& pre[i].id == old(self).id
                &&& pre[i].senders == old(self).senders
                &&& pre[i].routing_handler == final(self).routing_handler
            },
            forall|i: int| 0 <= i < r.0@.len() ==> final(self).send_attempted(
                r.0@[i],
                final(self).subscription(),
                #[trigger] r.1@[i],
            ),
            forall|i: int| 0 <= i < r.0@.len() && #[trigger] r.1@[i] is Ok ==> final(self).delivered_some_session(
                final(self),
                final(self).subscription(),
                r.0@[i],
            ),
    {
        let found = self.routing_handler.update_graph(&res.path_trace);
        let ghost g = self.routing_handler;
        proof {
            assert forall|i: int| 0 <= i < self.servers@.len() implies old(self).server_ids().contains(#[trigger] self.servers@[i].id) by {
                assert(old(self).server_ids()[i] == self.servers@[i].id);
            }
            assert(found@.subrange(0, 0) =~= Seq::<NodeId>::empty());
        }
        let mut added: Vec<NodeId> = Vec::new();
        let mut subs: Vec<Result<(), SendError>> = Vec::new();
        let ghost mut pre: Seq<ClientState> = Seq::empty();
        let ghost mut post: Seq<ClientState> = Seq::empty();
        let mut j: usize = 0;
        while j < found.len()
            invariant
                self.wf(),
                self.id == old(self).id,
                self.senders == old(self).senders,
                self.packets_map == old(self).packets_map,
                self.flood_id == old(self).flood_id,
                self.last_reflood == old(self).last_reflood,
                self.local_videos == old(self).local_videos,
                self.chunks == old(self).chunks,
                self.routing_handler == g,
                j <= found@.len(),
                forall|i: int| 0 <= i < found@.len() ==> res.path_trace@.contains((#[trigger] found@[i], NodeType::Server)),
                forall|y: NodeId| #[trigger] self.server_ids().contains(y) <==> (old(self).server_ids().contains(y)
                    || found@.subrange(0, j as int).contains(y)),
                forall|i: int| 0 <= i < self.servers@.len() && !old(self).server_ids().contains(#[trigger] self.servers@[i].id)
                    ==> self.servers@[i].videos@.len() == 0,
                forall|y: NodeId| #[trigger] added@.contains(y) <==> (!old(self).server_ids().contains(y)
                    && found@.subrange(0, j as int).contains(y)),
                self.fsm == (if old(self).fsm == FsmStatus::ServerNotFound && added@.len() > 0 {
                    FsmStatus::NotSubscribedToServer
                } else {
                    old(self).fsm
                }),
                self.servers@.len() == old(self).servers@.len() + added@.len(),
                forall|i: int| 0 <= i < old(self).servers@.len() ==> #[trigger] self.servers@[i] == old(self).servers@[i],
                subs@.len() == added@.len(),
                pre.len() == added@.len(),
                post.len() == added@.len(),
                forall|i: int| 0 <= i < added@.len() ==> {
                    &&& #[trigger] pre[i].send_outcome(&post[i], added@[i], self.subscription(), subs@[i])
                    &&& pre[i].id == old(self).id
                    &&& pre[i].senders == old(self).senders
                    &&& pre[i].routing_handler == g
                },
                forall|i: int| 0 <= i < added@.len() ==> self.send_attempted(added@[i], self.subscription(), #[trigger] subs@[i]),
                forall|i: int| 0 <= i < added@.len() && #[trigger] subs@[i] is Ok ==> self.delivered_some_session(
                    self,
                    self.subscription(),
                    added@[i],
                ),
            decreases found@.len() - j,
        {
            let id = found[j];
            let ghost before_ids = self.server_ids();
            let ghost before_added = added@;
            let ghost before_servers = self.servers@;
            if !self.is_server(id) {
                let ghost pre_push = *self;
                self.servers.push(ServerEntry { id, videos: Vec::new() });
                added.push(id);
                proof {
                    assert(self.subscription() == pre_push.subscription());
                    assert forall|i: int| 0 <= i < added@.len() - 1 implies self.send_attempted(added@[i], self.subscription(), #[trigger] subs@[i]) by {
                        assert(before_added[i] == added@[i]);
                    }
                    assert forall|i: int| 0 <= i < added@.len() - 1 && #[trigger] subs@[i] is Ok implies self.delivered_some_session(
                        self,
                        self.subscription(),
                        added@[i],
                    ) by {
                        assert(before_added[i] == added@[i]);
                        assert(pre_push.delivered_some_session(&pre_push, self.subscription(), added@[i]));
                        let sk = choose|sk: u64| sk <= pre_push.session_counter && #[trigger] pre_push.holds_message(&pre_push, self.subscription(), sk, added@[i]);
                        lemma_holds_same_router(self, &pre_push, self, self.subscription(), sk, added@[i]);
                    }
                    assert forall|i: int| 0 <= i < old(self).servers@.len() implies #[trigger] self.servers@[i] == old(self).servers@[i] by {
                        assert(self.servers@[i] == before_servers[i]);
                    }
                    assert(self.server_ids() =~= before_ids.push(id));
                    assert forall|a: int, b: int| 0 <= a < self.server_ids().len() && 0 <= b < self.server_ids().len() && a != b
                        implies self.server_ids()[a] != self.server_ids()[b] by {
                        if a < before_ids.len() && b < before_ids.len() {
                        } else if a == before_ids.len() {
                            assert(before_ids[b] == self.server_ids()[b]);
                        } else {
                            assert(before_ids[a] == self.server_ids()[a]);
                        }
                    }
                    assert forall|i: int| 0 <= i < self.servers@.len() && !old(self).server_ids().contains(#[trigger] self.servers@[i].id)
                        implies self.servers@[i].videos@.len() == 0 by {
                        if i < before_servers.len() {
                            assert(self.servers@[i] == before_servers[i]);
                        }
                    }
                }
                let ghost before = *self;
                let sub = self.send_subscribe_client(id);
                proof {
                    let pre2 = pre.push(before);
                    let post2 = post.push(*self);
                    assert forall|i: int| 0 <= i < added@.len() implies {
                        &&& #[trigger] pre2[i].send_outcome(&post2[i], added@[i], self.subscription(), subs@.push(sub)[i])
                        &&& pre2[i].id == old(self).id
                        &&& pre2[i].senders == old(self).senders
                        &&& pre2[i].routing_handler == g
                    } by {
                        if i < added@.len() - 1 {
                            assert(pre2[i] == pre[i] && post2[i] == post[i]);
                            assert(before_added[i] == added@[i]);
                        }
                    }
                    pre = pre2;
                    post = post2;
                }
                proof {
                    let bytes = self.subscription();
                    assert(before.subscription() == bytes);
                    assert(before.send_attempted(id, bytes, sub));
                    assert forall|i: int| 0 <= i < added@.len() - 1 && #[trigger] subs@[i] is Ok implies self.delivered_some_session(
                        self,
                        bytes,
                        added@[i],
                    ) by {
                        let di = added@[i];
                        assert(before_added[i] == di);
                        assert(before.delivered_some_session(&before, bytes, di));
                        let sk = choose|sk: u64| sk <= before.session_counter && #[trigger] before.holds_message(&before, bytes, sk, di);
                        if sub is Ok || sub == Err::<(), SendError>(SendError::Disconnected) || sub == Err::<(), SendError>(
                            SendError::ControllerDisconnected,
                        ) {
                            lemma_holds_kept(self, &before, &before, bytes, sk, di, self.session_counter);
                        }
                        lemma_holds_same_router(self, &before, self, bytes, sk, di);
                    }
                    if sub is Ok {
                        lemma_holds_same_router(self, &before, self, bytes, self.session_counter, id);
                    }
                }
                subs.push(sub);
                proof {
                    assert forall|i: int| 0 <= i < added@.len() implies self.send_attempted(added@[i], self.subscription(), #[trigger] subs@[i]) by {
                        if i < added@.len() - 1 {
                            assert(before_added[i] == added@[i]);
                        }
                    }
                    if sub is Ok {
                        assert(self.holds_message(self, self.subscription(), self.session_counter, id));
                        assert(self.delivered_some_session(self, self.subscription(), id));
                    }
                }
                let ghost after = *self;
                if self.fsm == FsmStatus::ServerNotFound {
                    self.fsm = FsmStatus::NotSubscribedToServer;
                }
                proof {
                    assert forall|i: int| 0 <= i < added@.len() && #[trigger] subs@[i] is Ok implies self.delivered_some_session(
                        self,
                        self.subscription(),
                        added@[i],
                    ) by {
                        if i == added@.len() - 1 {
                            assert(added@[i] == id);
                        }
                        assert(after.delivered_some_session(&after, after.subscription(), added@[i]));
                        lemma_holds_moved(&after, self, &after, self, after.subscription(), added@[i]);
                    }
                    assert forall|i: int| 0 <= i < added@.len() implies self.send_attempted(added@[i], self.subscription(), #[trigger] subs@[i]) by {
                        assert(after.send_attempted(added@[i], after.subscription(), subs@[i]));
                    }
                }
            }
            proof {
                let pre = found@.subrange(0, j as int);
                let post = found@.subrange(0, j + 1);
                assert(post =~= pre.push(id));
                lemma_push_contains(pre, id);
                lemma_push_contains(before_ids, id);
                lemma_push_contains(before_added, id);
                if added@.len() > before_added.len() {
                    assert(added@ == before_added.push(id));
                    assert(self.server_ids() =~= before_ids.push(id));
                } else {
                    assert(added@ == before_added);
                    assert(self.server_ids() == before_ids);
                    assert(before_ids.contains(id));
                }
            }
            j = j + 1;
        }
        proof {
            assert(found@.subrange(0, j as int) =~= found@);
            assert forall|y: NodeId| found@.contains(y) <==> res.path_trace@.contains((y, NodeType::Server)) by {
                if found@.contains(y) {
                    let k = choose|k: int| 0 <= k < found@.len() && found@[k] == y;
                    assert(res.path_trace@.contains((found@[k], NodeType::Server)));
                }
                if res.path_trace@.contains((y, NodeType::Server)) {
                    let k = choose|k: int| 0 <= k < res.path_trace@.len() && res.path_trace@[k] == (y, NodeType::Server);
                    assert(res.path_trace@[k].1 == NodeType::Server);
                }
            }
        }
        (added, subs)
    }

    /// Adds neighbour `id`, or replaces its channel if it is already one.
    pub fn add_sender(&mut self, id: NodeId, channel: Sender<Packet>)
        requires
            old(self).wf(),
        ensures
            final(self).wf(),
            forall|y: NodeId| #[trigger] final(self).has_neighbour(y) <==> (old(self).has_neighbour(y) || y == id),
            exists|i: int| 0 <= i < final(self).senders@.len() && (#[trigger] final(self).senders@[i]).id == id
                && final(self).senders@[i].channel == channel,
            forall|i: int| 0 <= i < old(self).senders@.len() && old(self).senders@[i].id != id
                ==> #[trigger] final(self).senders@[i] == old(self).senders@[i],
            final(self).id == old(self).id,
            final(self).session_counter == old(self).session_counter,
            final(self).packets_map == old(self).packets_map,
            final(self).packets_history == old(self).packets_history,
            final(self).routing_handler == old(self).routing_handler,
            final(self).flood_id == old(self).flood_id,
            final(self).fsm == old(self).fsm,
            final(self).servers == old(self).servers,
            final(self).last_reflood == old(self).last_reflood,
            final(self).local_videos == old(self).local_videos,
            final(self).chunks == old(self).chunks,
            final(self).same_logs(old(self)),
    {
        let ghost ids = self.neighbour_ids();
        match self.neighbour_index(id) {
            Some(i) => {
                let ghost ch = channel;
                self.senders.set(i, Neighbour { id, channel });
                assert(self.neighbour_ids() =~= ids);
                assert(self.senders@[i as int].id == id && self.senders@[i as int].channel == ch);
            },
            None => {
                let ghost ch = channel;
                self.senders.push(Neighbour { id, channel });
                proof {
                    let last = self.senders@.len() - 1;
                    assert(self.senders@[last].id == id && self.senders@[last].channel == ch);
                    assert(self.neighbour_ids() =~= ids.push(id));
                    lemma_push_contains(ids, id);
                    assert forall|a: int, b: int| 0 <= a < ids.len() + 1 && 0 <= b < ids.len() + 1 && a != b
                        implies self.neighbour_ids()[a] != self.neighbour_ids()[b] by {
                        if a == ids.len() {
                            assert(ids.contains(ids[b]));
                        } else if b == ids.len() {
                            assert(ids.contains(ids[a]));
                        }
                    }
                }
            },
        }
    }

    /// Drops neighbour `id`. Returns whether it was one.
    pub fn remove_sender(&mut self, id: NodeId) -> (r: bool)
        requires
            old(self).wf(),
        ensures
            final(self).wf(),
            r == old(self).has_neighbour(id),
            !r ==> *final(self) == *old(self),
            forall|y: NodeId| #[trigger] final(self).has_neighbour(y) <==> (old(self).has_neighbour(y) && y != id),
            final(self).id == old(self).id,
            final(self).session_counter == old(self).session_counter,
            final(self).packets_map == old(self).packets_map,
            final(self).packets_history == old(self).packets_history,
            final(self).routing_handler == old(self).routing_handler,
            final(self).flood_id == old(self).flood_id,
            final(self).fsm == old(self).fsm,
            final(self).servers == old(self).servers,
            final(self).last_reflood == old(self).last_reflood,
            final(self).local_videos == old(self).local_videos,
            final(self).chunks == old(self).chunks,
            final(self).same_logs(old(self)),
    {
        let i = match self.neighbour_index(id) {
            Some(i) => i,
            None => return false,
        };
        let ghost ids = self.neighbour_ids();
        let _ = self.senders.remove(i);
        proof {
            let nids = self.neighbour_ids();
            assert(nids =~= ids.remove(i as int));
            assert forall|a: int, b: int| 0 <= a < nids.len() && 0 <= b < nids.len() && a != b implies nids[a] != nids[b] by {
                let oa = if a < i { a } else { a + 1 };
                let ob = if b < i { b } else { b + 1 };
                assert(nids[a] == ids[oa] && nids[b] == ids[ob]);
            }
            assert forall|y: NodeId| #[trigger] nids.contains(y) <==> (ids.contains(y) && y != id) by {
                if ids.contains(y) && y != id {
                    let j = choose|j: int| 0 <= j < ids.len() && ids[j] == y;
                    let nj = if j < i { j } else { j - 1 };
                    assert(nids[nj] == y);
                }
                if nids.contains(y) {
                    let j = choose|j: int| 0 <= j < nids.len() && nids[j] == y;
                    let oj = if j < i { j } else { j + 1 };
                    assert(ids[oj] == y);
                    assert(ids.no_duplicates());
                    assert(ids[i as int] == id);
                    assert(oj != i);
                }
            }
        }
        true
    }

    /// Carries out a controller command. `Crash` terminates the client; adding or
    /// removing a sender changes the neighbours and starts a flood; removing an
    /// unknown sender changes nothing (the caller warns); the drop rate is not the
    /// client's business.
    pub fn command_dispatcher(&mut self, cmd: DroneCommand) -> (r: CommandOutcome)
        requires
            old(self).wf(),
        ensures
            final(self).wf(),
            final(self).id == old(self).id,
            final(self).packets_map == old(self).packets_map,
            final(self).servers == old(self).servers,
            final(self).chunks == old(self).chunks,
            old(self).fsm == FsmStatus::Terminated ==> final(self).fsm == FsmStatus::Terminated,
            cmd is Crash ==> final(self).same_logs(old(self)),
            cmd is SetPacketDropRate ==> final(self).same_logs(old(self)),
            (cmd is AddSender || (cmd is RemoveSender && old(self).has_neighbour(cmd->RemoveSender_0)))
                && old(self).session_counter < u64::MAX ==> exists|outs: Seq<Result<(), SendError>>|
                #[trigger] final(self).flooded(old(self), outs),
            cmd is Crash ==> r == CommandOutcome::Terminated && final(self).fsm == FsmStatus::Terminated
                && final(self).senders == old(self).senders,
            cmd is AddSender ==> {
                let id = cmd->AddSender_0;
                &&& r == CommandOutcome::SenderAdded
                &&& exists|i: int| 0 <= i < final(self).senders@.len() && (#[trigger] final(self).senders@[i]).id == id
                    && final(self).senders@[i].channel == cmd->AddSender_1
                &&& forall|y: NodeId| #[trigger] final(self).has_neighbour(y) <==> (old(self).has_neighbour(y) || y == id)
                &&& final(self).fsm == old(self).fsm
                &&& final(self).flood_id == (if old(self).flood_id == u64::MAX { 0 } else { old(self).flood_id + 1 })
            },
            cmd is RemoveSender ==> {
                let id = cmd->RemoveSender_0;
                &&& r == (if old(self).has_neighbour(id) { CommandOutcome::SenderRemoved } else { CommandOutcome::UnknownSender })
                &&& forall|y: NodeId| #[trigger] final(self).has_neighbour(y) <==> (old(self).has_neighbour(y) && y != id)
                &&& !old(self).has_neighbour(id) ==> *final(self) == *old(self)
                &&& final(self).fsm == old(self).fsm
                &&& old(self).has_neighbour(id) ==> final(self).flood_id == (if old(self).flood_id == u64::MAX {
                    0
                } else {
                    old(self).flood_id + 1
                })
            },
            cmd is SetPacketDropRate ==> r == CommandOutcome::Ignored && *final(self) == *old(self),
    {
        match cmd {
            DroneCommand::Crash => {
                self.fsm = FsmStatus::Terminated;
                CommandOutcome::Terminated
            },
            DroneCommand::AddSender(id, channel) => {
                self.add_sender(id, channel);
                let ghost mid = *self;
                self.init_flood_request();
                proof {
                    if mid.session_counter < u64::MAX {
                        let outs = choose|outs: Seq<Result<(), SendError>>| #[trigger] self.flooded(&mid, outs);
                        assert(self.flooded(old(self), outs));
                    }
                }
                assert forall|y: NodeId| #[trigger] self.has_neighbour(y) <==> mid.has_neighbour(y) by {
                    assert(self.neighbour_ids() == mid.neighbour_ids());
                }
                CommandOutcome::SenderAdded
            },
            DroneCommand::RemoveSender(id) => {
                let known = self.remove_sender(id);
                if !known {
                    return CommandOutcome::UnknownSender;
                }
                let ghost mid = *self;
                self.init_flood_request();
                proof {
                    if mid.session_counter < u64::MAX {
                        let outs = choose|outs: Seq<Result<(), SendError>>| #[trigger] self.flooded(&mid, outs);
                        assert(self.flooded(old(self), outs));
                    }
                }
                assert forall|y: NodeId| #[trigger] self.has_neighbour(y) <==> mid.has_neighbour(y) by {
                    assert(self.neighbour_ids() == mid.neighbour_ids());
                }
                if known {
                    CommandOutcome::SenderRemoved
                } else {
                    CommandOutcome::UnknownSender
                }
            },
            DroneCommand::SetPacketDropRate => CommandOutcome::Ignored,
        }
    }

    /// Records that server `server` advertises exactly `videos`.
    pub fn record_server_videos(&mut self, server: NodeId, videos: Vec<FileHash>)
        requires
            old(self).wf(),
        ensures
            final(self).wf(),
            forall|y: NodeId| #[trigger] final(self).server_ids().contains(y) <==> (old(self).server_ids().contains(y) || y == server),
            exists|i: int| 0 <= i < final(self).servers@.len() && final(self).servers@[i].id == server
                && final(self).servers@[i].videos@ == videos@,
            forall|i: int| 0 <= i < old(self).servers@.len() && old(self).servers@[i].id != server
                ==> final(self).servers@[i] == old(self).servers@[i],
            final(self).id == old(self).id,
            final(self).client_type == old(self).client_type,
            final(self).controller_send == old(self).controller_send,
            final(self).senders == old(self).senders,
            final(self).session_counter == old(self).session_counter,
            final(self).packets_map == old(self).packets_map,
            final(self).packets_history == old(self).packets_history,
            final(self).routing_handler == old(self).routing_handler,
            final(self).flood_id == old(self).flood_id,
            final(self).fsm == old(self).fsm,
            final(self).last_reflood == old(self).last_reflood,
            final(self).local_videos == old(self).local_videos,
            final(self).chunks == old(self).chunks,
            final(self).same_logs(old(self)),
    {
        let ghost ids = self.server_ids();
        let ghost vs = videos@;
        let mut i: usize = 0;
        while i < self.servers.len()
            invariant
                *self == *old(self),
                old(self).wf(),
                ids == old(self).server_ids(),
                vs == videos@,
                i <= self.servers@.len(),
                forall|j: int| 0 <= j < i ==> self.servers@[j].id != server,
            decreases self.servers@.len() - i,
        {
            if self.servers[i].id == server {
                self.servers.set(i, ServerEntry { id: server, videos });
                proof {
                    assert(self.server_ids() =~= ids);
                    assert(ids[i as int] == server);
                    assert(ids.contains(server));
                    assert(self.servers@[i as int].videos@ == vs);
                }
                return;
            }
            i = i + 1;
        }
        self.servers.push(ServerEntry { id: server, videos });
        proof {
            assert(self.server_ids() =~= ids.push(server));
            lemma_push_contains(ids, server);
            assert(!ids.contains(server)) by {
                if ids.contains(server) {
                    let j = choose|j: int| 0 <= j < ids.len() && ids[j] == server;
                    assert(old(self).servers@[j].id == server);
                }
            }
            assert forall|a: int, b: int| 0 <= a < ids.len() + 1 && 0 <= b < ids.len() + 1 && a != b
                implies self.server_ids()[a] != self.server_ids()[b] by {
                if a == ids.len() {
                    assert(ids.contains(ids[b]));
                } else if b == ids.len() {
                    assert(ids.contains(ids[a]));
                }
            }
            let last = self.servers@.len() - 1;
            assert(self.servers@[last].id == server && self.servers@[last].videos@ == vs);
        }
    }

    /// A server's list of videos arrived: it is recorded as what that server
    /// offers, a client waiting for its subscription counts as subscribed, and the
    /// list goes to the front-end.
    pub fn handle_response_file_list(&mut self, server_id: NodeId, file_list: Vec<VideoMetaData>) -> (r: Delivery)
        requires
            old(self).wf(),
        ensures
            final(self).wf(),
            final(self).fsm == (if old(self).fsm == FsmStatus::NotSubscribedToServer {
                FsmStatus::SubscribedToServer
            } else {
                old(self).fsm
            }),
            exists|i: int| 0 <= i < final(self).servers@.len() && final(self).servers@[i].id == server_id
                && final(self).servers@[i].videos@ == video_ids(metas_view(file_list@)),
            forall|y: NodeId| #[trigger] final(self).server_ids().contains(y) <==> (old(self).server_ids().contains(y) || y == server_id),
            forall|i: int| 0 <= i < old(self).servers@.len() && old(self).servers@[i].id != server_id
                ==> #[trigger] final(self).servers@[i] == old(self).servers@[i],
            r matches Delivery::FileList(s, l) && s == server_id && metas_view(l@) == metas_view(file_list@),
            final(self).id == old(self).id,
            final(self).client_type == old(self).client_type,
            final(self).controller_send == old(self).controller_send,
            final(self).senders == old(self).senders,
            final(self).session_counter == old(self).session_counter,
            final(self).packets_map == old(self).packets_map,
            final(self).packets_history == old(self).packets_history,
            final(self).routing_handler == old(self).routing_handler,
            final(self).flood_id == old(self).flood_id,
            final(self).last_reflood == old(self).last_reflood,
            final(self).local_videos == old(self).local_videos,
            final(self).chunks == old(self).chunks,
            final(self).same_logs(old(self)),
    {
        if self.fsm == FsmStatus::NotSubscribedToServer {
            self.fsm = FsmStatus::SubscribedToServer;
        }
        let mut ids: Vec<FileHash> = Vec::new();
        let mut i: usize = 0;
        while i < file_list.len()
            invariant
                i <= file_list@.len(),
                ids@ == video_ids(metas_view(file_list@)).subrange(0, i as int),
            decreases file_list@.len() - i,
        {
            ids.push(file_list[i].id);
            i = i + 1;
            assert(ids@ =~= video_ids(metas_view(file_list@)).subrange(0, i as int));
        }
        assert(ids@ =~= video_ids(metas_view(file_list@)));
        self.record_server_videos(server_id, ids);
        Delivery::FileList(server_id, file_list)
    }

    /// A chunk of the requested video arrived; returns what the consumer gets.
    pub fn handle_chunk_res(&mut self, chunk_index: u32, chunk_data: Vec<u8>) -> (out: Vec<Vec<u8>>)
        requires
            old(self).wf(),
        ensures
            final(self).wf(),
            received(&old(self).chunks, &final(self).chunks, chunk_index, chunk_data, out@),
            final(self).same_but_chunks(old(self)),
            final(self).same_logs(old(self)),
    {
        self.chunks.receive(chunk_index, chunk_data)
    }

    /// Everything but the chunk buffer is as in `o`.
    pub open spec fn same_but_chunks(&self, o: &ClientState) -> bool {
        &&& self.id == o.id
        &&& self.client_type == o.client_type
        &&& self.controller_send == o.controller_send
        &&& self.senders == o.senders
        &&& self.session_counter == o.session_counter
        &&& self.packets_map == o.packets_map
        &&& self.packets_history == o.packets_history
        &&& self.routing_handler == o.routing_handler
        &&& self.flood_id == o.flood_id
        &&& self.fsm == o.fsm
        &&& self.servers == o.servers
        &&& self.last_reflood == o.last_reflood
        &&& self.local_videos == o.local_videos
        &&& self.same_logs(o)
    }

    /// Asks peer `dest` for every chunk of video `video_id`.
    pub fn request_video_from_network(&mut self, video_id: FileHash, dest: NodeId) -> (r: Result<(), SendError>)
        requires
            old(self).wf(),
        ensures
            final(self).wf(),
            final(self).same_but_outbox(old(self)),
            old(self).send_outcome(
                final(self),
                dest,
                enc_message(MessageView::ChunkRequest { client_id: old(self).id, file_hash: video_id }),
                r,
            ),
    {
        let msg = MessageType::ChunkRequest { client_id: self.id, file_hash: video_id };
        self.send_msg(dest, &msg)
    }

    /// A server named the peers holding a video: the first one is asked for it.
    pub fn handle_peer_list_res(&mut self, file_hash: FileHash, peers: &Vec<PeerInfo>) -> (r: Result<(), SendError>)
        requires
            old(self).wf(),
        ensures
            final(self).wf(),
            final(self).same_but_outbox(old(self)),
            peers@.len() == 0 ==> r == Err::<(), SendError>(SendError::NoPeers) && *final(self) == *old(self),
            final(self).logs_extend(old(self)),
            peers@.len() > 0 ==> old(self).send_outcome(
                final(self),
                peers@[0].client_id,
                enc_message(MessageView::ChunkRequest { client_id: old(self).id, file_hash }),
                r,
            ),
    {
        if peers.len() == 0 {
            return Err(SendError::NoPeers);
        }
        self.request_video_from_network(file_hash, peers[0].client_id)
    }

    /// Dispatches an inbound application message.
    pub fn handle_messages(&mut self, msg: MessageType) -> (r: Delivery)
        requires
            old(self).wf(),
        ensures
            final(self).wf(),
            final(self).id == old(self).id,
            final(self).senders == old(self).senders,
            final(self).packets_map == old(self).packets_map,
            handled(old(self), final(self), msg@, r),
            final(self).routing_handler == old(self).routing_handler,
            !(msg@ is ResponsePeerList) ==> final(self).same_logs(old(self)),
            final(self).logs_extend(old(self)),
            msg matches MessageType::ChunkResponse { chunk_index, chunk_data, .. } ==> (r matches Delivery::VideoChunks(out)
                && received(&old(self).chunks, &final(self).chunks, chunk_index, chunk_data, out@)),
    {
        match msg {
            MessageType::ResponseFileList { server_id, file_list } => self.handle_response_file_list(server_id, file_list),
            MessageType::ChunkResponse { chunk_index, chunk_data, .. } => Delivery::VideoChunks(self.handle_chunk_res(chunk_index, chunk_data)),
            MessageType::ChunkRequest { client_id, file_hash } => Delivery::ChunkRequested(client_id, file_hash),
            MessageType::ResponsePeerList { file_hash, peers } => {
                let ghost before = *self;
                let res = self.handle_peer_list_res(file_hash, &peers);
                proof {
                    if peers@.len() > 0 {
                        assert(before.send_outcome(self, peers@[0].client_id, enc_message(MessageView::ChunkRequest { client_id: before.id, file_hash }), res));
                    }
                    assert(self.sent@.subrange(0, before.sent@.len() as int) =~= before.sent@);
                    assert(self.reported@.subrange(0, before.reported@.len() as int) =~= before.reported@);
                }
                Delivery::Nothing
            },
            MessageType::AckSubscribeClient { client_id } => {
                if client_id == self.id && self.fsm != FsmStatus::Terminated {
                    self.fsm = FsmStatus::SubscribedToServer;
                }
                Delivery::Nothing
            },
            _ => Delivery::Nothing,
        }
    }

    /// An inbound fragment: it is acknowledged to the hop it came from and added
    /// to its session; a completed session is joined, read as a message and handled.
    pub fn handle_fragment(&mut self, packet: &Packet, frag: Fragment, session: u64) -> (r: (Delivery, Result<(), SendError>))
        requires
            old(self).wf(),
        ensures
            final(self).wf(),
            final(self).id == old(self).id,
            final(self).senders == old(self).senders,
            !old(self).accepts(session, frag@) ==> final(self).packets_map@ == old(self).packets_map@ && r.0 is Nothing,
            old(self).accepts(session, frag@) && old(self).held(session).len() + 1 == frag.total_n_fragments ==> {
                let all = old(self).held(session).push(frag@);
                &&& final(self).packets_map@ == old(self).packets_map@.remove(session)
                &&& !crate::codec::frames_valid(all) ==> r.0 is Nothing && final(self).same_but_sessions(old(self))
                &&& crate::codec::frames_valid(all) ==> match parse_message(crate::codec::assembled(all)) {
                    Some(m) => handled(old(self), final(self), m, r.0),
                    None => r.0 is Nothing && final(self).same_but_sessions(old(self)),
                }
            },
            old(self).accepts(session, frag@) && old(self).held(session).len() + 1 < frag.total_n_fragments ==> {
                &&& r.0 is Nothing
                &&& final(self).packets_map@.contains_key(session)
                &&& final(self).session(session) == old(self).held(session).push(frag@)
                &&& final(self).packets_map@.remove(session) == old(self).packets_map@.remove(session)
                &&& final(self).same_but_sessions(old(self))
            },
            !old(self).accepts(session, frag@) ==> final(self).same_but_sessions(old(self)),
            old(self).fsm == FsmStatus::Terminated ==> final(self).fsm == FsmStatus::Terminated,
            final(self).routing_handler == old(self).routing_handler,
            packet.routing_header.hops@.len() < 2 ==> r.1 == Err::<(), SendError>(SendError::RouteTooShort),
            packet.routing_header.hops@.len() >= 2 ==> {
                let back = reversed(packet.routing_header.hops@)[1];
                &&& !old(self).has_neighbour(back) ==> r.1 == Err::<(), SendError>(SendError::UnknownNeighbour(back))
                &&& old(self).has_neighbour(back) ==> (r.1 is Ok || r.1 == Err::<(), SendError>(SendError::Disconnected))
            },
            old(self).acked(packet@, r.1).is_prefix_of(final(self).sent@),
            old(self).reported@.is_prefix_of(final(self).reported@),
            !old(self).dispatches_peer_list(packet@, frag@, session) ==> final(self).sent@ == old(self).acked(packet@, r.1)
                && final(self).reported == old(self).reported,
    {
        let a = self.send_ack(packet);
        let ghost after_ack = *self;
        proof {
            assert(self.sent@ == old(self).acked(packet@, a));
        }
        let d = match self.receive_fragment(frag, session) {
            Some(bytes) => match decode_message(&bytes) {
                Some(msg) => self.handle_messages(msg),
                None => Delivery::Nothing,
            },
            None => Delivery::Nothing,
        };
        proof {
            assert(after_ack.sent@.is_prefix_of(self.sent@));
            assert(after_ack.reported@.is_prefix_of(self.reported@));
            assert(old(self).reported@.is_prefix_of(self.reported@)) by {
                assert(self.reported@.subrange(0, old(self).reported@.len() as int) =~= old(self).reported@);
            }
        }
        (d, a)
    }

    /// The neighbour log once the acknowledgement of `packet` had outcome `a`.
    pub open spec fn acked(&self, packet: PacketView, a: Result<(), SendError>) -> Seq<(NodeId, PacketView)> {
        if a is Ok {
            self.sent@.push((reversed(packet.routing_header.hops)[1], ack_of(packet)))
        } else {
            self.sent@
        }
    }

    /// Fragment `f` of `session` completes a message that is a peer list (the one
    /// inbound message whose handling sends).
    pub open spec fn dispatches_peer_list(&self, packet: PacketView, f: FragmentView, session: u64) -> bool {
        let all = self.held(session).push(f);
        &&& self.accepts(session, f)
        &&& self.held(session).len() + 1 == f.total_n_fragments
        &&& crate::codec::frames_valid(all)
        &&& parse_message(crate::codec::assembled(all)) matches Some(MessageView::ResponsePeerList { .. })
    }

    /// Handles one inbound packet at time `now` (ms). Fragments, acknowledgements
    /// and flood responses first charge the congestion penalty to the route they
    /// came along.
    pub fn packet_dispatcher(&mut self, packet: Packet, now: u64) -> (r: Delivery)
        requires
            old(self).wf(),
        ensures
            final(self).wf(),
            final(self).id == old(self).id,
            old(self).fsm == FsmStatus::Terminated ==> final(self).fsm == FsmStatus::Terminated,
            packet.pack_type is FloodRequest ==> final(self).same_but_history(old(self)) && r is Nothing,
            packet.pack_type is Nack ==> r is Nothing,
            packet.pack_type matches PacketType::Nack(nk) ==> {
                let dropped_known = nk.nack_type is Dropped && old(self).packets_history@.contains_key(
                    hkey(nk.fragment_index, packet.session_id),
                ) && packet.routing_header.hops@.len() > 0;
                &&& !dropped_known ==> final(self).routing_handler == old(self).routing_handler
                &&& dropped_known ==> forall|a: NodeId, b: NodeId| #[trigger] final(self).routing_handler.weight(a, b) == (
                    if old(self).routing_handler.weight(a, b) == 0 || (a != packet.routing_header.hops@[0]
                        && b != packet.routing_header.hops@[0]) {
                        old(self).routing_handler.weight(a, b)
                    } else {
                        sat_add(old(self).routing_handler.weight(a, b), NACK_PENALTY as int)
                    })
            },
            packet.pack_type is MsgFragment ==> forall|x: NodeId, y: NodeId| #[trigger] final(self).routing_handler.weight(x, y)
                == congested_weight(old(self).routing_handler.weight(x, y), packet.routing_header.hops@, x, y),
            packet.pack_type matches PacketType::FloodResponse(res) ==> forall|x: NodeId, y: NodeId|
                #[trigger] final(self).routing_handler.weight(x, y) == ({
                let c = congested_weight(old(self).routing_handler.weight(x, y), packet.routing_header.hops@, x, y);
                if c == 0 && trace_step(res.path_trace@, x, y) {
                    WEIGHT_INIT
                } else {
                    c
                }
            }),
            packet.pack_type matches PacketType::FloodResponse(res) ==> r is Nothing && forall|y: NodeId|
                #[trigger] final(self).server_ids().contains(y) <==> (old(self).server_ids().contains(y)
                    || res.path_trace@.contains((y, NodeType::Server))),
            packet.pack_type matches PacketType::MsgFragment(f) ==> {
                let s = packet.session_id;
                &&& !old(self).accepts(s, f@) ==> final(self).packets_map@ == old(self).packets_map@ && r is Nothing
                &&& old(self).accepts(s, f@) && old(self).held(s).len() + 1 < f.total_n_fragments ==> {
                    &&& r is Nothing
                    &&& final(self).packets_map@.contains_key(s)
                    &&& final(self).session(s) == old(self).held(s).push(f@)
                    &&& final(self).packets_map@.remove(s) == old(self).packets_map@.remove(s)
                }
                &&& old(self).accepts(s, f@) && old(self).held(s).len() + 1 == f.total_n_fragments ==> {
                    let all = old(self).held(s).push(f@);
                    &&& final(self).packets_map@ == old(self).packets_map@.remove(s)
                    &&& crate::codec::frames_valid(all) ==> match parse_message(crate::codec::assembled(all)) {
                        Some(m) => handled(old(self), final(self), m, r),
                        None => r is Nothing,
                    }
                }
            },
            packet.pack_type matches PacketType::Ack(a) ==> {
                &&& r is Nothing
                &&& final(self).same_but_feedback(old(self))
                &&& final(self).packets_history@ == old(self).packets_history@.remove(hkey(a.fragment_index, packet.session_id))
                &&& forall|x: NodeId, y: NodeId| #[trigger] final(self).routing_handler.weight(x, y) == acked_weight(
                    congested_weight(old(self).routing_handler.weight(x, y), packet.routing_header.hops@, x, y),
                    packet.routing_header.hops@,
                    x,
                    y,
                )
            },
    {
        match &packet.pack_type {
            PacketType::FloodRequest(req) => {
                let _ = self.handle_flood_req(req);
                return Delivery::Nothing;
            },
            PacketType::Nack(_) => {},
            _ => {
                self.routing_handler.nodes_congestion(&packet.routing_header);
            },
        }
        let session = packet.session_id;
        if let PacketType::MsgFragment(f) = &packet.pack_type {
            let frag = f.duplicate();
            let (d, _) = self.handle_fragment(&packet, frag, session);
            return d;
        }
        match packet.pack_type {
            PacketType::MsgFragment(_) => Delivery::Nothing,
            PacketType::Ack(ack) => {
                self.handle_ack(&packet.routing_header, ack, session);
                Delivery::Nothing
            },
            PacketType::Nack(nack) => {
                self.handle_nack(&packet.routing_header, nack, session, now);
                Delivery::Nothing
            },
            PacketType::FloodRequest(_) => Delivery::Nothing,
            PacketType::FloodResponse(res) => {
                self.handle_flood_res(&res);
                Delivery::Nothing
            },
        }
    }

    /// Asks every known server for its list of videos; an error only when no
    /// server is known.
    pub fn send_req_file_list(&mut self) -> (r: Result<Vec<Result<(), SendError>>, SendError>)
        requires
            old(self).wf(),
        ensures
            final(self).wf(),
            final(self).same_but_outbox(old(self)),
            r is Err <==> old(self).servers@.len() == 0,
            r is Err ==> r == Err::<Vec<Result<(), SendError>>, SendError>(SendError::NoServers) && *final(self) == *old(self),
            r matches Ok(outs) ==> {
                let bytes = enc_message(MessageView::RequestFileList { client_id: old(self).id });
                &&& outs@.len() == old(self).servers@.len()
                &&& old(self).session_counter + outs@.len() < u64::MAX ==> forall|j: int| 0 <= j < outs@.len()
                    ==> #[trigger] outs@[j] != Err::<(), SendError>(SendError::SessionsExhausted)
                &&& forall|j: int| 0 <= j < outs@.len() ==> old(self).send_attempted(
                    old(self).servers@[j].id,
                    bytes,
                    #[trigger] outs@[j],
                )
                &&& exists|st: Seq<ClientState>| st.len() == outs@.len() + 1 && st[0] == *old(self)
                    && st[outs@.len() as int] == *final(self) && forall|i: int| 0 <= i < outs@.len() ==> #[trigger] st[i].send_outcome(
                    &st[i + 1],
                    old(self).servers@[i].id,
                    bytes,
                    outs@[i],
                )
                &&& forall|j: int| 0 <= j < outs@.len() && #[trigger] outs@[j] is Ok ==> final(self).delivered_some_session(
                    old(self),
                    bytes,
                    old(self).servers@[j].id,
                )
            },
    {
        if self.servers.len() == 0 {
            return Err(SendError::NoServers);
        }
        let n = self.servers.len();
        let ghost bytes = enc_message(MessageView::RequestFileList { client_id: self.id });
        let mut outs: Vec<Result<(), SendError>> = Vec::new();
        let ghost mut st: Seq<ClientState> = seq![*self];
        let mut i: usize = 0;
        while i < n
            invariant
                self.wf(),
                self.same_but_outbox(old(self)),
                self.session_counter >= old(self).session_counter,
                self.session_counter <= old(self).session_counter + i,
                old(self).session_counter + n < u64::MAX ==> forall|k: int| 0 <= k < i
                    ==> #[trigger] outs@[k] != Err::<(), SendError>(SendError::SessionsExhausted),
                n == self.servers@.len(),
                i <= n,
                outs@.len() == i,
                bytes == enc_message(MessageView::RequestFileList { client_id: old(self).id }),
                forall|j: int| 0 <= j < i ==> old(self).send_attempted(old(self).servers@[j].id, bytes, #[trigger] outs@[j]),
                st.len() == i + 1,
                st[0] == *old(self),
                st[i as int] == *self,
                forall|k: int| 0 <= k < i ==> #[trigger] st[k].send_outcome(&st[k + 1], old(self).servers@[k].id, bytes, outs@[k]),
                forall|j: int| 0 <= j < i && #[trigger] outs@[j] is Ok ==> self.delivered_some_session(
                    old(self),
                    bytes,
                    old(self).servers@[j].id,
                ),
            decreases n - i,
        {
            let dest = self.servers[i].id;
            let msg = MessageType::RequestFileList { client_id: self.id };
            let ghost before = *self;
            let res = self.send_msg(dest, &msg);
            proof {
                assert(enc_message(msg@) == bytes);
                assert(before.send_outcome(self, dest, bytes, res));
                assert(old(self).send_attempted(dest, bytes, res));
                assert forall|j: int| 0 <= j < i && #[trigger] outs@[j] is Ok implies self.delivered_some_session(
                    old(self),
                    bytes,
                    old(self).servers@[j].id,
                ) by {
                    let dj = old(self).servers@[j].id;
                    assert(before.delivered_some_session(old(self), bytes, dj));
                    let sk = choose|sk: u64| sk <= before.session_counter && #[trigger] before.holds_message(old(self), bytes, sk, dj);
                    if res is Ok || res == Err::<(), SendError>(SendError::Disconnected) || res == Err::<(), SendError>(
                        SendError::ControllerDisconnected,
                    ) {
                        lemma_holds_kept(self, &before, old(self), bytes, sk, dj, self.session_counter);
                    }
                    assert(self.holds_message(old(self), bytes, sk, dj));
                }
                if res is Ok {
                    lemma_holds_same_router(self, &before, old(self), bytes, self.session_counter, dest);
                }
            }
            proof {
                let st2 = st.push(*self);
                assert forall|k: int| 0 <= k < i + 1 implies #[trigger] st2[k].send_outcome(
                    &st2[k + 1],
                    old(self).servers@[k].id,
                    bytes,
                    outs@.push(res)[k],
                ) by {
                    if k < i {
                        assert(st2[k] == st[k] && st2[k + 1] == st[k + 1]);
                    } else {
                        assert(st2[k] == before && st2[k + 1] == *self);
                    }
                }
                st = st2;
            }
            outs.push(res);
            i = i + 1;
        }
        Ok(outs)
    }

    /// Position of the first known server that advertises `video_id`.
    pub fn server_with_video(&self, video_id: FileHash) -> (r: Option<usize>)
        ensures
            r matches Some(i) ==> i < self.servers@.len() && self.servers@[i as int].videos@.contains(video_id)
                && forall|j: int| 0 <= j < i ==> !(#[trigger] self.servers@[j]).videos@.contains(video_id),
            r is None <==> forall|j: int| 0 <= j < self.servers@.len() ==> !(#[trigger] self.servers@[j]).videos@.contains(video_id),
    {
        let mut i: usize = 0;
        while i < self.servers.len()
            invariant
                i <= self.servers@.len(),
                forall|j: int| 0 <= j < i ==> !(#[trigger] self.servers@[j]).videos@.contains(video_id),
            decreases self.servers@.len() - i,
        {
            let videos = &self.servers[i].videos;
            let mut k: usize = 0;
            while k < videos.len()
                invariant
                    i < self.servers@.len(),
                    videos@ == self.servers@[i as int].videos@,
                    forall|j: int| 0 <= j < i ==> !(#[trigger] self.servers@[j]).videos@.contains(video_id),
                    k <= videos@.len(),
                    forall|x: int| 0 <= x < k ==> videos@[x] != video_id,
                decreases videos@.len() - k,
            {
                if videos[k] == video_id {
                    assert(videos@[k as int] == video_id);
                    assert(self.servers@[i as int].videos@.contains(video_id));
                    return Some(i);
                }
                k = k + 1;
            }
            proof {
                if self.servers@[i as int].videos@.contains(video_id) {
                    let x = choose|x: int| 0 <= x < videos@.len() && videos@[x] == video_id;
                }
            }
            i = i + 1;
        }
        None
    }

    /// Asks the first server that advertises `video_id` which peers hold it.
    pub fn send_req_peer_list(&mut self, video_id: FileHash) -> (r: Result<(), SendError>)
        requires
            old(self).wf(),
        ensures
            final(self).wf(),
            final(self).same_but_outbox(old(self)),
            r == Err::<(), SendError>(SendError::VideoNotListed(video_id)) <==> forall|j: int| 0 <= j < old(self).servers@.len()
                ==> !(#[trigger] old(self).servers@[j]).videos@.contains(video_id),
            r == Err::<(), SendError>(SendError::VideoNotListed(video_id)) ==> *final(self) == *old(self),
            r != Err::<(), SendError>(SendError::VideoNotListed(video_id)) ==> exists|j: int|
                0 <= j < old(self).servers@.len() && old(self).servers@[j].videos@.contains(video_id)
                && (forall|i: int| 0 <= i < j ==> !(#[trigger] old(self).servers@[i]).videos@.contains(video_id))
                && old(self).send_outcome(
                    final(self),
                    old(self).servers@[j].id,
                    enc_message(MessageView::RequestPeerList { client_id: old(self).id, file_hash: video_id }),
                    r,
                ),
    {
        let i = match self.server_with_video(video_id) {
            Some(i) => i,
            None => return Err(SendError::VideoNotListed(video_id)),
        };
        let dest = self.servers[i].id;
        let msg = MessageType::RequestPeerList { client_id: self.id, file_hash: video_id };
        self.send_msg(dest, &msg)
    }

    /// Starts a request for a video that is not in the local store: the reorder
    /// buffer starts over at chunk 0 and a server that lists it is asked for peers.
    pub fn request_video(&mut self, video_id: FileHash) -> (r: Result<(), SendError>)
        requires
            old(self).wf(),
        ensures
            final(self).wf(),
            final(self).chunks.next() == 0,
            final(self).chunks.buffered() == Map::<u32, Vec<u8>>::empty(),
            r == Err::<(), SendError>(SendError::VideoNotListed(video_id)) <==> forall|j: int| 0 <= j < old(self).servers@.len()
                ==> !(#[trigger] old(self).servers@[j]).videos@.contains(video_id),
            exists|mid: ClientState| #[trigger] mid.same_but_chunks(old(self)) && mid.chunks == final(self).chunks && mid.wf()
                && (r != Err::<(), SendError>(SendError::VideoNotListed(video_id)) ==> exists|j: int|
                0 <= j < old(self).servers@.len() && old(self).servers@[j].videos@.contains(video_id)
                && (forall|i: int| 0 <= i < j ==> !(#[trigger] old(self).servers@[i]).videos@.contains(video_id))
                && mid.send_outcome(
                    final(self),
                    old(self).servers@[j].id,
                    enc_message(MessageView::RequestPeerList { client_id: old(self).id, file_hash: video_id }),
                    r,
                )),
    {
        self.chunks.reset();
        let ghost mid = *self;
        let r = self.send_req_peer_list(video_id);
        assert(mid.same_but_chunks(old(self)) && mid.chunks == self.chunks);
        r
    }

    /// Serves video `file_hash`, whose bytes are `content`, to client `to`: one
    /// chunk response per chunk, in order. A chunk that cannot be sent does not stop
    /// the others.
    pub fn serve_chunks(&mut self, to: NodeId, file_hash: FileHash, content: &Vec<u8>) -> (r: Result<Vec<Result<(), SendError>>, SendError>)
        requires
            old(self).wf(),
        ensures
            final(self).wf(),
            final(self).same_but_outbox(old(self)),
            r is Err <==> n_chunks(content@.len()) > u32::MAX,
            r is Err ==> r == Err::<Vec<Result<(), SendError>>, SendError>(SendError::TooManyChunks) && *final(self) == *old(self),
            r matches Ok(outs) ==> {
                &&& outs@.len() == n_chunks(content@.len())
                &&& old(self).session_counter + outs@.len() < u64::MAX ==> forall|i: int| 0 <= i < outs@.len()
                    ==> #[trigger] outs@[i] != Err::<(), SendError>(SendError::SessionsExhausted)
                &&& forall|i: int| 0 <= i < outs@.len() ==> old(self).send_attempted(
                    to,
                    chunk_msg(file_hash, i, outs@.len() as u32, content@),
                    #[trigger] outs@[i],
                )
                &&& exists|st: Seq<ClientState>| st.len() == outs@.len() + 1 && st[0] == *old(self)
                    && st[outs@.len() as int] == *final(self) && forall|i: int| 0 <= i < outs@.len() ==> #[trigger] st[i].send_outcome(
                    &st[i + 1],
                    to,
                    chunk_msg(file_hash, i, outs@.len() as u32, content@),
                    outs@[i],
                )
                &&& forall|i: int| 0 <= i < outs@.len() && #[trigger] outs@[i] is Ok ==> final(self).delivered_some_session(
                    old(self),
                    chunk_msg(file_hash, i, outs@.len() as u32, content@),
                    to,
                )
            },
    {
        let chunks = video_chunks(content);
        if chunks.len() > 0xffff_ffff {
            return Err(SendError::TooManyChunks);
        }
        let n = chunks.len() as u32;
        proof {
            lemma_wire_limit();
        }
        let mut outs: Vec<Result<(), SendError>> = Vec::new();
        let ghost mut st: Seq<ClientState> = seq![*self];
        let mut i: usize = 0;
        while i < chunks.len()
            invariant
                self.wf(),
                self.same_but_outbox(old(self)),
                self.session_counter >= old(self).session_counter,
                self.session_counter <= old(self).session_counter + i,
                old(self).session_counter + n < u64::MAX ==> forall|k: int| 0 <= k < i
                    ==> #[trigger] outs@[k] != Err::<(), SendError>(SendError::SessionsExhausted),
                n == chunks@.len(),
                n == n_chunks(content@.len()),
                i <= chunks@.len(),
                outs@.len() == i,
                forall|k: int| 0 <= k < chunks@.len() ==> (#[trigger] chunks@[k])@ == chunk_of(content@, k),
                forall|k: int| 0 <= k < chunks@.len() ==> (#[trigger] chunks@[k])@.len() <= CHUNK_SIZE,
                wire_limit() == 0x1_0000_0000,
                forall|k: int| 0 <= k < i ==> old(self).send_attempted(to, chunk_msg(file_hash, k, n, content@), #[trigger] outs@[k]),
                st.len() == i + 1,
                st[0] == *old(self),
                st[i as int] == *self,
                forall|k: int| 0 <= k < i ==> #[trigger] st[k].send_outcome(&st[k + 1], to, chunk_msg(file_hash, k, n, content@), outs@[k]),
                forall|k: int| 0 <= k < i && #[trigger] outs@[k] is Ok ==> self.delivered_some_session(
                    old(self),
                    chunk_msg(file_hash, k, n, content@),
                    to,
                ),
            decreases chunks@.len() - i,
        {
            let data = copy_bytes(&chunks[i]);
            let msg = MessageType::ChunkResponse { file_hash, chunk_index: i as u32, n_chunks: n, chunk_data: data };
            let ghost before = *self;
            let res = self.send_msg(to, &msg);
            proof {
                let bi = chunk_msg(file_hash, i as int, n, content@);
                assert(enc_message(msg@) == bi);
                assert(before.send_outcome(self, to, bi, res));
                assert(old(self).send_attempted(to, bi, res));
                assert forall|k: int| 0 <= k < i && #[trigger] outs@[k] is Ok implies self.delivered_some_session(
                    old(self),
                    chunk_msg(file_hash, k, n, content@),
                    to,
                ) by {
                    let bk = chunk_msg(file_hash, k, n, content@);
                    assert(before.delivered_some_session(old(self), bk, to));
                    let sk = choose|sk: u64| sk <= before.session_counter && #[trigger] before.holds_message(old(self), bk, sk, to);
                    if res is Ok || res == Err::<(), SendError>(SendError::Disconnected) || res == Err::<(), SendError>(
                        SendError::ControllerDisconnected,
                    ) {
                        lemma_holds_kept(self, &before, old(self), bk, sk, to, self.session_counter);
                    }
                    assert(self.holds_message(old(self), bk, sk, to));
                }
                if res is Ok {
                    assert(self.holds_message(&before, bi, self.session_counter, to));
                    lemma_holds_same_router(self, &before, old(self), bi, self.session_counter, to);
                }
            }
            proof {
                let st2 = st.push(*self);
                assert forall|k: int| 0 <= k < i + 1 implies #[trigger] st2[k].send_outcome(
                    &st2[k + 1],
                    to,
                    chunk_msg(file_hash, k, n, content@),
                    outs@.push(res)[k],
                ) by {
                    if k < i {
                        assert(st2[k] == st[k] && st2[k + 1] == st[k + 1]);
                    } else {
                        assert(st2[k] == before && st2[k + 1] == *self);
                        assert(enc_message(msg@) == chunk_msg(file_hash, k, n, content@));
                    }
                }
                st = st2;
            }
            outs.push(res);
            i = i + 1;
        }
        Ok(outs)
    }

    /// Sets the descriptors of the videos in the local store, which subscriptions
    /// announce.
    pub fn set_local_videos(&mut self, videos: Vec<VideoMetaData>)
        requires
            old(self).wf(),
            metas_encodable(metas_view(videos@)),
        ensures
            final(self).wf(),
            final(self).local_videos == videos,
    {
        self.local_videos = videos;
    }

    pub fn get_id(&self) -> (r: NodeId)
        ensures
            r == self.id,
    {
        self.id
    }

    /// Whether the client has been told to stop.
    pub fn is_terminated(&self) -> (r: bool)
        ensures
            r == (self.fsm == FsmStatus::Terminated),
    {
        self.fsm == FsmStatus::Terminated
    }

    /// Hands an event to the controller.
    pub fn send_sc_packet(&mut self, event: DroneEvent) -> (r: Result<(), SendError>)
        ensures
            r is Ok || r == Err::<(), SendError>(SendError::ControllerDisconnected),
            r is Ok ==> final(self).same_but_logs(old(self)) && final(self).sent == old(self).sent
                && final(self).reported@ == old(self).reported@.push(event@),
            r is Err ==> *final(self) == *old(self),
    {
        let ghost ev = event@;
        if channel_send(&self.controller_send, event) {
            self.reported = Ghost(self.reported@.push(ev));
            Ok(())
        } else {
            Err(SendError::ControllerDisconnected)
        }
    }
}

} // verus!

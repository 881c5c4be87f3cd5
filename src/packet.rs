use vstd::prelude::*;

use crate::network::{reversed, NodeId, NodeType, RouteView, SourceRoutingHeader};

verus! {

/// Size of the payload area of every fragment.
pub const FRAGMENT_DSIZE: usize = 128;

/// One piece of a fragmented message; `data` always holds `FRAGMENT_DSIZE` bytes,
/// of which the first `length` are payload.
#[derive(Debug)]
pub struct Fragment {
    pub fragment_index: u64,
    pub total_n_fragments: u64,
    pub length: u8,
    pub data: Vec<u8>,
}

pub struct FragmentView {
    pub fragment_index: u64,
    pub total_n_fragments: u64,
    pub length: u8,
    pub data: Seq<u8>,
}

impl View for Fragment {
    type V = FragmentView;

    open spec fn view(&self) -> FragmentView {
        FragmentView {
            fragment_index: self.fragment_index,
            total_n_fragments: self.total_n_fragments,
            length: self.length,
            data: self.data@,
        }
    }
}

impl FragmentView {
    /// The shape every fragment on the wire has.
    pub open spec fn wf(&self) -> bool {
        &&& self.data.len() == FRAGMENT_DSIZE
        &&& self.length as int <= FRAGMENT_DSIZE
    }

    /// The bytes this fragment carries.
    pub open spec fn payload(&self) -> Seq<u8> {
        self.data.subrange(0, self.length as int)
    }
}

impl Fragment {
    pub fn duplicate(&self) -> (r: Fragment)
        ensures
            r@ == self@,
    {
        let data = self.data.clone();
        assert(data@ =~= self.data@);
        Fragment {
            fragment_index: self.fragment_index,
            total_n_fragments: self.total_n_fragments,
            length: self.length,
            data,
        }
    }
}

impl Clone for Fragment {
    fn clone(&self) -> (r: Self)
        ensures
            r@ == self@,
    {
        self.duplicate()
    }
}

/// Positive acknowledgement of one fragment.
#[derive(Clone, Copy, Debug, PartialEq, Eq, Structural)]
pub struct Ack {
    pub fragment_index: u64,
}

/// Why a fragment did not reach its destination.
#[derive(Clone, Copy, Debug, PartialEq, Eq, Structural)]
pub enum NackType {
    ErrorInRouting(NodeId),
    DestinationIsDrone,
    Dropped,
    UnexpectedRecipient(NodeId),
}

/// Negative acknowledgement of one fragment.
#[derive(Clone, Copy, Debug, PartialEq, Eq, Structural)]
pub struct Nack {
    pub fragment_index: u64,
    pub nack_type: NackType,
}

/// Copies a path trace entry by entry.
pub fn copy_trace(t: &Vec<(NodeId, NodeType)>) -> (r: Vec<(NodeId, NodeType)>)
    ensures
        r@ == t@,
{
    let mut r: Vec<(NodeId, NodeType)> = Vec::new();
    let mut i: usize = 0;
    while i < t.len()
        invariant
            i <= t.len(),
            r@ == t@.subrange(0, i as int),
        decreases t.len() - i,
    {
        let (id, ty) = t[i];
        r.push((id, ty));
        i = i + 1;
        assert(r@ =~= t@.subrange(0, i as int));
    }
    assert(t@.subrange(0, t.len() as int) =~= t@);
    r
}

/// Topology discovery request: the trace grows at every node it crosses.
#[derive(Debug)]
pub struct FloodRequest {
    pub flood_id: u64,
    pub initiator_id: NodeId,
    pub path_trace: Vec<(NodeId, NodeType)>,
}

pub struct FloodRequestView {
    pub flood_id: u64,
    pub initiator_id: NodeId,
    pub path_trace: Seq<(NodeId, NodeType)>,
}

impl View for FloodRequest {
    type V = FloodRequestView;

    open spec fn view(&self) -> FloodRequestView {
        FloodRequestView {
            flood_id: self.flood_id,
            initiator_id: self.initiator_id,
            path_trace: self.path_trace@,
        }
    }
}

/// Answer to a flood request, carrying the whole observed path.
#[derive(Debug)]
pub struct FloodResponse {
    pub flood_id: u64,
    pub path_trace: Vec<(NodeId, NodeType)>,
}

pub struct FloodResponseView {
    pub flood_id: u64,
    pub path_trace: Seq<(NodeId, NodeType)>,
}

impl View for FloodResponse {
    type V = FloodResponseView;

    open spec fn view(&self) -> FloodResponseView {
        FloodResponseView { flood_id: self.flood_id, path_trace: self.path_trace@ }
    }
}

/// The node ids of a trace, in order.
pub open spec fn trace_ids(t: Seq<(NodeId, NodeType)>) -> Seq<NodeId> {
    t.map_values(|e: (NodeId, NodeType)| e.0)
}

impl FloodRequest {
    pub fn duplicate(&self) -> (r: FloodRequest)
        ensures
            r@ == self@,
    {
        FloodRequest {
            flood_id: self.flood_id,
            initiator_id: self.initiator_id,
            path_trace: copy_trace(&self.path_trace),
        }
    }

    /// The response to this request: it goes back along the reversed trace,
    /// starting at hop index 0, and carries the trace as it stands.
    pub fn generate_response(&self, session_id: u64) -> (r: Packet)
        ensures
            r@ == (PacketView {
                pack_type: PacketTypeView::FloodResponse(
                    FloodResponseView { flood_id: self.flood_id, path_trace: self.path_trace@ },
                ),
                routing_header: RouteView {
                    hop_index: 0,
                    hops: reversed(trace_ids(self.path_trace@)),
                },
                session_id,
            }),
    {
        let mut hops: Vec<NodeId> = Vec::new();
        let n = self.path_trace.len();
        let mut i: usize = n;
        while i > 0
            invariant
                i <= n,
                n == self.path_trace.len(),
                hops@.len() == n - i,
                forall|j: int| 0 <= j < n - i ==> hops@[j] == self.path_trace@[n - 1 - j].0,
            decreases i,
        {
            i = i - 1;
            hops.push(self.path_trace[i].0);
        }
        assert(hops@ =~= reversed(trace_ids(self.path_trace@)));
        Packet {
            pack_type: PacketType::FloodResponse(
                FloodResponse { flood_id: self.flood_id, path_trace: copy_trace(&self.path_trace) },
            ),
            routing_header: SourceRoutingHeader { hop_index: 0, hops },
            session_id,
        }
    }
}

impl FloodResponse {
    pub fn duplicate(&self) -> (r: FloodResponse)
        ensures
            r@ == self@,
    {
        FloodResponse { flood_id: self.flood_id, path_trace: copy_trace(&self.path_trace) }
    }
}

/// What a packet carries.
#[derive(Debug)]
pub enum PacketType {
    MsgFragment(Fragment),
    Ack(Ack),
    Nack(Nack),
    FloodRequest(FloodRequest),
    FloodResponse(FloodResponse),
}

pub enum PacketTypeView {
    MsgFragment(FragmentView),
    Ack(Ack),
    Nack(Nack),
    FloodRequest(FloodRequestView),
    FloodResponse(FloodResponseView),
}

impl View for PacketType {
    type V = PacketTypeView;

    open spec fn view(&self) -> PacketTypeView {
        match self {
            PacketType::MsgFragment(f) => PacketTypeView::MsgFragment(f@),
            PacketType::Ack(a) => PacketTypeView::Ack(*a),
            PacketType::Nack(n) => PacketTypeView::Nack(*n),
            PacketType::FloodRequest(f) => PacketTypeView::FloodRequest(f@),
            PacketType::FloodResponse(f) => PacketTypeView::FloodResponse(f@),
        }
    }
}

impl PacketType {
    pub fn duplicate(&self) -> (r: PacketType)
        ensures
            r@ == self@,
    {
        match self {
            PacketType::MsgFragment(f) => PacketType::MsgFragment(f.duplicate()),
            PacketType::Ack(a) => PacketType::Ack(*a),
            PacketType::Nack(n) => PacketType::Nack(*n),
            PacketType::FloodRequest(f) => PacketType::FloodRequest(f.duplicate()),
            PacketType::FloodResponse(f) => PacketType::FloodResponse(f.duplicate()),
        }
    }
}

/// A source-routed packet.
#[derive(Debug)]
pub struct Packet {
    pub pack_type: PacketType,
    pub routing_header: SourceRoutingHeader,
    pub session_id: u64,
}

pub struct PacketView {
    pub pack_type: PacketTypeView,
    pub routing_header: RouteView,
    pub session_id: u64,
}

impl View for Packet {
    type V = PacketView;

    open spec fn view(&self) -> PacketView {
        PacketView {
            pack_type: self.pack_type@,
            routing_header: self.routing_header@,
            session_id: self.session_id,
        }
    }
}

impl PacketView {
    /// The fragment index a packet refers to; flood packets refer to none and give 0.
    pub open spec fn fragment_index(&self) -> u64 {
        match self.pack_type {
            PacketTypeView::MsgFragment(f) => f.fragment_index,
            PacketTypeView::Ack(a) => a.fragment_index,
            PacketTypeView::Nack(n) => n.fragment_index,
            _ => 0,
        }
    }
}

impl Packet {
    pub fn duplicate(&self) -> (r: Packet)
        ensures
            r@ == self@,
    {
        Packet {
            pack_type: self.pack_type.duplicate(),
            routing_header: self.routing_header.duplicate(),
            session_id: self.session_id,
        }
    }

    pub fn get_fragment_index(&self) -> (r: u64)
        ensures
            r == self@.fragment_index(),
    {
        match &self.pack_type {
            PacketType::MsgFragment(f) => f.fragment_index,
            PacketType::Ack(a) => a.fragment_index,
            PacketType::Nack(n) => n.fragment_index,
            _ => 0,
        }
    }

    pub fn new_ack(routing_header: SourceRoutingHeader, session_id: u64, fragment_index: u64) -> (r: Packet)
        ensures
            r@ == (PacketView {
                pack_type: PacketTypeView::Ack(Ack { fragment_index }),
                routing_header: routing_header@,
                session_id,
            }),
    {
        Packet { pack_type: PacketType::Ack(Ack { fragment_index }), routing_header, session_id }
    }

    pub fn new_fragment(routing_header: SourceRoutingHeader, session_id: u64, fragment: Fragment) -> (r: Packet)
        ensures
            r@ == (PacketView {
                pack_type: PacketTypeView::MsgFragment(fragment@),
                routing_header: routing_header@,
                session_id,
            }),
    {
        Packet { pack_type: PacketType::MsgFragment(fragment), routing_header, session_id }
    }

    pub fn new_flood_request(routing_header: SourceRoutingHeader, session_id: u64, request: FloodRequest) -> (r: Packet)
        ensures
            r@ == (PacketView {
                pack_type: PacketTypeView::FloodRequest(request@),
                routing_header: routing_header@,
                session_id,
            }),
    {
        Packet { pack_type: PacketType::FloodRequest(request), routing_header, session_id }
    }
}

impl Clone for Packet {
    fn clone(&self) -> (r: Self)
        ensures
            r@ == self@,
    {
        self.duplicate()
    }
}

} // verus!

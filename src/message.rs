use vstd::prelude::*;

use crate::network::NodeId;
use crate::wire::{
    enc_bytes, enc_uint, get_bytes, get_uint, holds_at, lemma_enc_uint, lemma_holds_split,
    lemma_parse_bytes, lemma_parse_uint, parse_bytes, parse_uint, pow256, put_bytes, put_uint,
};

verus! {

/// Stable 16-bit identifier of a video.
pub type FileHash = u16;

/// Kind of content a client deals in.
#[derive(Clone, Copy, Debug, PartialEq, Eq, Structural)]
pub enum ClientType {
    Audio,
    Video,
}

/// A client as a server lists it among the holders of a video.
#[derive(Clone, Copy, Debug, PartialEq, Eq, Structural)]
pub struct PeerInfo {
    pub client_id: NodeId,
    pub client_type: ClientType,
}

/// Descriptor of a video; the text fields are UTF-8 bytes.
#[derive(Debug)]
pub struct VideoMetaData {
    pub id: FileHash,
    pub title: Vec<u8>,
    pub description: Vec<u8>,
    pub duration: u64,
    pub mime_type: Vec<u8>,
    pub created_at: Vec<u8>,
}

pub struct MetaView {
    pub id: FileHash,
    pub title: Seq<u8>,
    pub description: Seq<u8>,
    pub duration: u64,
    pub mime_type: Seq<u8>,
    pub created_at: Seq<u8>,
}

impl View for VideoMetaData {
    type V = MetaView;

    open spec fn view(&self) -> MetaView {
        MetaView {
            id: self.id,
            title: self.title@,
            description: self.description@,
            duration: self.duration,
            mime_type: self.mime_type@,
            created_at: self.created_at@,
        }
    }
}

pub open spec fn metas_view(v: Seq<VideoMetaData>) -> Seq<MetaView> {
    v.map_values(|m: VideoMetaData| m@)
}

pub fn copy_bytes(s: &Vec<u8>) -> (r: Vec<u8>)
    ensures
        r@ == s@,
{
    let r = s.clone();
    assert(r@ =~= s@);
    r
}

impl VideoMetaData {
    pub fn duplicate(&self) -> (r: VideoMetaData)
        ensures
            r@ == self@,
    {
        VideoMetaData {
            id: self.id,
            title: copy_bytes(&self.title),
            description: copy_bytes(&self.description),
            duration: self.duration,
            mime_type: copy_bytes(&self.mime_type),
            created_at: copy_bytes(&self.created_at),
        }
    }
}

impl Clone for VideoMetaData {
    fn clone(&self) -> (r: Self)
        ensures
            r@ == self@,
    {
        self.duplicate()
    }
}

/// Copies a list of descriptors.
pub fn copy_metas(v: &Vec<VideoMetaData>) -> (r: Vec<VideoMetaData>)
    ensures
        metas_view(r@) == metas_view(v@),
{
    let mut r: Vec<VideoMetaData> = Vec::new();
    let mut i: usize = 0;
    while i < v.len()
        invariant
            i <= v@.len(),
            r@.len() == i,
            metas_view(r@) == metas_view(v@).subrange(0, i as int),
        decreases v@.len() - i,
    {
        let ghost before = r@;
        let d = v[i].duplicate();
        r.push(d);
        proof {
            assert forall|k: int| 0 <= k <= i implies #[trigger] metas_view(r@)[k] == metas_view(v@)[k] by {
                if k < i {
                    assert(r@[k] == before[k]);
                    assert(metas_view(before)[k] == metas_view(v@).subrange(0, i as int)[k]);
                }
            }
        }
        i = i + 1;
        assert(metas_view(r@) =~= metas_view(v@).subrange(0, i as int));
    }
    assert(metas_view(v@).subrange(0, i as int) =~= metas_view(v@));
    r
}

/// Modulus of the descriptor digest (the largest prime below 2^16).
pub const HASH_MODULUS: u32 = 65521;

/// Digest of `s` continuing from `h`: each byte folds in as `h * 31 + byte`,
/// modulo `HASH_MODULUS`.
pub open spec fn fold_hash(h: nat, s: Seq<u8>) -> nat
    decreases s.len(),
{
    if s.len() == 0 {
        h
    } else {
        ((fold_hash(h, s.drop_last()) * 31 + s.last() as nat) % HASH_MODULUS as nat) as nat
    }
}

/// The bytes a descriptor's digest runs over: the text fields, each closed by a
/// zero byte, then the duration in big-endian order.
pub open spec fn hash_input(m: MetaView) -> Seq<u8> {
    m.title + seq![0u8] + m.description + seq![0u8] + m.mime_type + seq![0u8] + m.created_at + seq![0u8]
        + enc_uint(m.duration as nat, 8)
}

fn fold_bytes(h: u32, s: &Vec<u8>) -> (r: u32)
    requires
        h < HASH_MODULUS,
    ensures
        r == fold_hash(h as nat, s@),
        r < HASH_MODULUS,
{
    let mut acc = h;
    let mut i: usize = 0;
    while i < s.len()
        invariant
            i <= s@.len(),
            acc < HASH_MODULUS,
            acc == fold_hash(h as nat, s@.subrange(0, i as int)),
        decreases s@.len() - i,
    {
        acc = (acc * 31 + s[i] as u32) % HASH_MODULUS;
        i = i + 1;
        assert(s@.subrange(0, i as int).drop_last() =~= s@.subrange(0, i - 1));
    }
    assert(s@.subrange(0, i as int) =~= s@);
    acc
}

proof fn lemma_fold_concat(h: nat, a: Seq<u8>, b: Seq<u8>)
    ensures
        fold_hash(h, a + b) == fold_hash(fold_hash(h, a), b),
    decreases b.len(),
{
    if b.len() > 0 {
        lemma_fold_concat(h, a, b.drop_last());
        assert((a + b).drop_last() =~= a + b.drop_last());
    } else {
        assert(a + b =~= a);
    }
}

/// A deterministic 16-bit identifier for a video descriptor, computed from all
/// of its fields but the id itself.
pub fn compact_hash_u16(m: &VideoMetaData) -> (r: u16)
    ensures
        r as nat == fold_hash(0, hash_input(m@)),
{
    let mut buf: Vec<u8> = Vec::new();
    let z: Vec<u8> = vec![0u8];
    let h = fold_bytes(0, &m.title);
    let h = fold_bytes(h, &z);
    let h = fold_bytes(h, &m.description);
    let h = fold_bytes(h, &z);
    let h = fold_bytes(h, &m.mime_type);
    let h = fold_bytes(h, &z);
    let h = fold_bytes(h, &m.created_at);
    let h = fold_bytes(h, &z);
    proof {
        reveal_with_fuel(pow256, 9);
    }
    put_uint(&mut buf, m.duration, 8);
    let h = fold_bytes(h, &buf);
    proof {
        let zs = seq![0u8];
        assert(z@ =~= zs);
        assert(buf@ =~= enc_uint(m.duration as nat, 8));
        let t = m.title@;
        let d = m.description@;
        let mt = m.mime_type@;
        let c = m.created_at@;
        let e = enc_uint(m.duration as nat, 8);
        lemma_fold_concat(0, t, zs);
        lemma_fold_concat(0, t + zs, d);
        lemma_fold_concat(0, t + zs + d, zs);
        lemma_fold_concat(0, t + zs + d + zs, mt);
        lemma_fold_concat(0, t + zs + d + zs + mt, zs);
        lemma_fold_concat(0, t + zs + d + zs + mt + zs, c);
        lemma_fold_concat(0, t + zs + d + zs + mt + zs + c, zs);
        lemma_fold_concat(0, t + zs + d + zs + mt + zs + c + zs, e);
    }
    h as u16
}

/// Application messages exchanged between clients and servers.
#[derive(Debug)]
pub enum MessageType {
    SubscribeClient { client_id: NodeId, client_type: ClientType, available_videos: Vec<VideoMetaData> },
    AckSubscribeClient { client_id: NodeId },
    RequestFileList { client_id: NodeId },
    ResponseFileList { server_id: NodeId, file_list: Vec<VideoMetaData> },
    RequestPeerList { client_id: NodeId, file_hash: FileHash },
    ResponsePeerList { file_hash: FileHash, peers: Vec<PeerInfo> },
    ChunkRequest { client_id: NodeId, file_hash: FileHash },
    ChunkResponse { file_hash: FileHash, chunk_index: u32, n_chunks: u32, chunk_data: Vec<u8> },
}

pub enum MessageView {
    SubscribeClient { client_id: NodeId, client_type: ClientType, available_videos: Seq<MetaView> },
    AckSubscribeClient { client_id: NodeId },
    RequestFileList { client_id: NodeId },
    ResponseFileList { server_id: NodeId, file_list: Seq<MetaView> },
    RequestPeerList { client_id: NodeId, file_hash: FileHash },
    ResponsePeerList { file_hash: FileHash, peers: Seq<PeerInfo> },
    ChunkRequest { client_id: NodeId, file_hash: FileHash },
    ChunkResponse { file_hash: FileHash, chunk_index: u32, n_chunks: u32, chunk_data: Seq<u8> },
}

impl View for MessageType {
    type V = MessageView;

    open spec fn view(&self) -> MessageView {
        match self {
            MessageType::SubscribeClient { client_id, client_type, available_videos } => MessageView::SubscribeClient {
                client_id: *client_id,
                client_type: *client_type,
                available_videos: metas_view(available_videos@),
            },
            MessageType::AckSubscribeClient { client_id } => MessageView::AckSubscribeClient { client_id: *client_id },
            MessageType::RequestFileList { client_id } => MessageView::RequestFileList { client_id: *client_id },
            MessageType::ResponseFileList { server_id, file_list } => MessageView::ResponseFileList {
                server_id: *server_id,
                file_list: metas_view(file_list@),
            },
            MessageType::RequestPeerList { client_id, file_hash } => MessageView::RequestPeerList {
                client_id: *client_id,
                file_hash: *file_hash,
            },
            MessageType::ResponsePeerList { file_hash, peers } => MessageView::ResponsePeerList {
                file_hash: *file_hash,
                peers: peers@,
            },
            MessageType::ChunkRequest { client_id, file_hash } => MessageView::ChunkRequest {
                client_id: *client_id,
                file_hash: *file_hash,
            },
            MessageType::ChunkResponse { file_hash, chunk_index, n_chunks, chunk_data } => MessageView::ChunkResponse {
                file_hash: *file_hash,
                chunk_index: *chunk_index,
                n_chunks: *n_chunks,
                chunk_data: chunk_data@,
            },
        }
    }
}

/// Largest length a byte string or a list can have on the wire.
pub open spec fn wire_limit() -> nat {
    pow256(4)
}

pub proof fn lemma_wire_limit()
    ensures
        wire_limit() == 0x1_0000_0000,
{
    reveal_with_fuel(pow256, 5);
}

impl MetaView {
    pub open spec fn encodable(&self) -> bool {
        &&& self.title.len() < wire_limit()
        &&& self.description.len() < wire_limit()
        &&& self.mime_type.len() < wire_limit()
        &&& self.created_at.len() < wire_limit()
    }
}

pub open spec fn metas_encodable(ms: Seq<MetaView>) -> bool {
    ms.len() < wire_limit() && forall|i: int| 0 <= i < ms.len() ==> (#[trigger] ms[i]).encodable()
}

impl MessageView {
    /// Every length in the message fits its four-byte prefix.
    pub open spec fn encodable(&self) -> bool {
        match self {
            MessageView::SubscribeClient { available_videos, .. } => metas_encodable(*available_videos),
            MessageView::ResponseFileList { file_list, .. } => metas_encodable(*file_list),
            MessageView::ResponsePeerList { peers, .. } => peers.len() < wire_limit(),
            MessageView::ChunkResponse { chunk_data, .. } => chunk_data.len() < wire_limit(),
            _ => true,
        }
    }
}

pub open spec fn type_byte(t: ClientType) -> u8 {
    match t {
        ClientType::Audio => 0,
        ClientType::Video => 1,
    }
}

pub open spec fn enc_meta(m: MetaView) -> Seq<u8> {
    enc_uint(m.id as nat, 2) + enc_bytes(m.title) + enc_bytes(m.description) + enc_uint(m.duration as nat, 8)
        + enc_bytes(m.mime_type) + enc_bytes(m.created_at)
}

pub open spec fn enc_meta_items(ms: Seq<MetaView>) -> Seq<u8>
    decreases ms.len(),
{
    if ms.len() == 0 {
        seq![]
    } else {
        enc_meta_items(ms.drop_last()) + enc_meta(ms.last())
    }
}

pub open spec fn enc_metas(ms: Seq<MetaView>) -> Seq<u8> {
    enc_uint(ms.len(), 4) + enc_meta_items(ms)
}

pub open spec fn enc_peer(p: PeerInfo) -> Seq<u8> {
    seq![p.client_id, type_byte(p.client_type)]
}

pub open spec fn enc_peer_items(ps: Seq<PeerInfo>) -> Seq<u8>
    decreases ps.len(),
{
    if ps.len() == 0 {
        seq![]
    } else {
        enc_peer_items(ps.drop_last()) + enc_peer(ps.last())
    }
}

pub open spec fn enc_peers(ps: Seq<PeerInfo>) -> Seq<u8> {
    enc_uint(ps.len(), 4) + enc_peer_items(ps)
}

/// The wire form of a message: a tag byte, then its fields in order; integers are
/// big-endian, byte strings and lists carry a four-byte length or count.
pub open spec fn enc_message(m: MessageView) -> Seq<u8> {
    match m {
        MessageView::SubscribeClient { client_id, client_type, available_videos } =>
            seq![0u8, client_id, type_byte(client_type)] + enc_metas(available_videos),
        MessageView::AckSubscribeClient { client_id } => seq![1u8, client_id],
        MessageView::RequestFileList { client_id } => seq![2u8, client_id],
        MessageView::ResponseFileList { server_id, file_list } => seq![3u8, server_id] + enc_metas(file_list),
        MessageView::RequestPeerList { client_id, file_hash } =>
            seq![4u8, client_id] + enc_uint(file_hash as nat, 2),
        MessageView::ResponsePeerList { file_hash, peers } =>
            seq![5u8] + enc_uint(file_hash as nat, 2) + enc_peers(peers),
        MessageView::ChunkRequest { client_id, file_hash } =>
            seq![6u8, client_id] + enc_uint(file_hash as nat, 2),
        MessageView::ChunkResponse { file_hash, chunk_index, n_chunks, chunk_data } =>
            seq![7u8] + enc_uint(file_hash as nat, 2) + enc_uint(chunk_index as nat, 4) + enc_uint(n_chunks as nat, 4)
                + enc_bytes(chunk_data),
    }
}

fn put_meta(out: &mut Vec<u8>, m: &VideoMetaData)
    requires
        m@.encodable(),
    ensures
        final(out)@ == old(out)@ + enc_meta(m@),
{
    proof {
        reveal_with_fuel(pow256, 9);
    }
    put_uint(out, m.id as u64, 2);
    put_bytes(out, &m.title);
    put_bytes(out, &m.description);
    put_uint(out, m.duration, 8);
    put_bytes(out, &m.mime_type);
    put_bytes(out, &m.created_at);
    assert(final(out)@ =~= old(out)@ + enc_meta(m@));
}

fn put_metas(out: &mut Vec<u8>, ms: &Vec<VideoMetaData>)
    requires
        metas_encodable(metas_view(ms@)),
    ensures
        final(out)@ == old(out)@ + enc_metas(metas_view(ms@)),
{
    put_uint(out, ms.len() as u64, 4);
    let ghost start = out@;
    let mut i: usize = 0;
    while i < ms.len()
        invariant
            i <= ms@.len(),
            metas_encodable(metas_view(ms@)),
            out@ == start + enc_meta_items(metas_view(ms@).subrange(0, i as int)),
        decreases ms@.len() - i,
    {
        assert(metas_view(ms@)[i as int].encodable());
        put_meta(out, &ms[i]);
        proof {
            let s = metas_view(ms@).subrange(0, i + 1);
            assert(s.drop_last() =~= metas_view(ms@).subrange(0, i as int));
        }
        i = i + 1;
        assert(out@ =~= start + enc_meta_items(metas_view(ms@).subrange(0, i as int)));
    }
    assert(metas_view(ms@).subrange(0, i as int) =~= metas_view(ms@));
    assert(final(out)@ =~= old(out)@ + enc_metas(metas_view(ms@)));
}

fn client_type_byte(t: ClientType) -> (r: u8)
    ensures
        r == type_byte(t),
{
    match t {
        ClientType::Audio => 0,
        ClientType::Video => 1,
    }
}

fn put_peers(out: &mut Vec<u8>, ps: &Vec<PeerInfo>)
    requires
        ps@.len() < wire_limit(),
    ensures
        final(out)@ == old(out)@ + enc_peers(ps@),
{
    put_uint(out, ps.len() as u64, 4);
    let ghost start = out@;
    let mut i: usize = 0;
    while i < ps.len()
        invariant
            i <= ps@.len(),
            out@ == start + enc_peer_items(ps@.subrange(0, i as int)),
        decreases ps@.len() - i,
    {
        let p = ps[i];
        out.push(p.client_id);
        out.push(client_type_byte(p.client_type));
        proof {
            let s = ps@.subrange(0, i + 1);
            assert(s.drop_last() =~= ps@.subrange(0, i as int));
        }
        i = i + 1;
        assert(out@ =~= start + enc_peer_items(ps@.subrange(0, i as int)));
    }
    assert(ps@.subrange(0, i as int) =~= ps@);
    assert(final(out)@ =~= old(out)@ + enc_peers(ps@));
}

/// The wire form of `m`.
pub fn encode_message(m: &MessageType) -> (r: Vec<u8>)
    requires
        m@.encodable(),
    ensures
        r@ == enc_message(m@),
{
    proof {
        reveal_with_fuel(pow256, 5);
    }
    let mut out: Vec<u8> = Vec::new();
    match m {
        MessageType::SubscribeClient { client_id, client_type, available_videos } => {
            out.push(0);
            out.push(*client_id);
            out.push(client_type_byte(*client_type));
            put_metas(&mut out, available_videos);
        },
        MessageType::AckSubscribeClient { client_id } => {
            out.push(1);
            out.push(*client_id);
        },
        MessageType::RequestFileList { client_id } => {
            out.push(2);
            out.push(*client_id);
        },
        MessageType::ResponseFileList { server_id, file_list } => {
            out.push(3);
            out.push(*server_id);
            put_metas(&mut out, file_list);
        },
        MessageType::RequestPeerList { client_id, file_hash } => {
            out.push(4);
            out.push(*client_id);
            put_uint(&mut out, *file_hash as u64, 2);
        },
        MessageType::ResponsePeerList { file_hash, peers } => {
            out.push(5);
            put_uint(&mut out, *file_hash as u64, 2);
            put_peers(&mut out, peers);
        },
        MessageType::ChunkRequest { client_id, file_hash } => {
            out.push(6);
            out.push(*client_id);
            put_uint(&mut out, *file_hash as u64, 2);
        },
        MessageType::ChunkResponse { file_hash, chunk_index, n_chunks, chunk_data } => {
            out.push(7);
            put_uint(&mut out, *file_hash as u64, 2);
            put_uint(&mut out, *chunk_index as u64, 4);
            put_uint(&mut out, *n_chunks as u64, 4);
            put_bytes(&mut out, chunk_data);
        },
    }
    assert(out@ =~= enc_message(m@));
    out
}

pub open spec fn parse_meta(b: Seq<u8>, pos: int) -> Option<(MetaView, int)> {
    match parse_uint(b, pos, 2) {
        None => None,
        Some((id, at1)) => match parse_bytes(b, at1) {
            None => None,
            Some((title, at2)) => match parse_bytes(b, at2) {
                None => None,
                Some((description, at3)) => match parse_uint(b, at3, 8) {
                    None => None,
                    Some((duration, at4)) => match parse_bytes(b, at4) {
                        None => None,
                        Some((mime_type, at5)) => match parse_bytes(b, at5) {
                            None => None,
                            Some((created_at, at6)) => Some((
                                MetaView {
                                    id: id as u16,
                                    title,
                                    description,
                                    duration: duration as u64,
                                    mime_type,
                                    created_at,
                                },
                                at6,
                            )),
                        },
                    },
                },
            },
        },
    }
}

pub open spec fn parse_meta_items(b: Seq<u8>, pos: int, n: nat) -> Option<(Seq<MetaView>, int)>
    decreases n,
{
    if n == 0 {
        Some((seq![], pos))
    } else {
        match parse_meta_items(b, pos, (n - 1) as nat) {
            None => None,
            Some((ms, p)) => match parse_meta(b, p) {
                None => None,
                Some((m, q)) => Some((ms.push(m), q)),
            },
        }
    }
}

pub open spec fn parse_metas(b: Seq<u8>, pos: int) -> Option<(Seq<MetaView>, int)> {
    match parse_uint(b, pos, 4) {
        None => None,
        Some((n, p)) => parse_meta_items(b, p, n),
    }
}

pub open spec fn client_type_of(x: u8) -> Option<ClientType> {
    if x == 0 {
        Some(ClientType::Audio)
    } else if x == 1 {
        Some(ClientType::Video)
    } else {
        None
    }
}

pub open spec fn parse_peer(b: Seq<u8>, pos: int) -> Option<(PeerInfo, int)> {
    if 0 <= pos && pos + 2 <= b.len() {
        match client_type_of(b[pos + 1]) {
            Some(t) => Some((PeerInfo { client_id: b[pos], client_type: t }, pos + 2)),
            None => None,
        }
    } else {
        None
    }
}

pub open spec fn parse_peer_items(b: Seq<u8>, pos: int, n: nat) -> Option<(Seq<PeerInfo>, int)>
    decreases n,
{
    if n == 0 {
        Some((seq![], pos))
    } else {
        match parse_peer_items(b, pos, (n - 1) as nat) {
            None => None,
            Some((ps, p)) => match parse_peer(b, p) {
                None => None,
                Some((x, q)) => Some((ps.push(x), q)),
            },
        }
    }
}

pub open spec fn parse_peers(b: Seq<u8>, pos: int) -> Option<(Seq<PeerInfo>, int)> {
    match parse_uint(b, pos, 4) {
        None => None,
        Some((n, p)) => parse_peer_items(b, p, n),
    }
}

/// Reads the message the tag byte announces; gives where it ends.
pub open spec fn parse_body(b: Seq<u8>) -> Option<(MessageView, int)> {
    if b.len() < 2 {
        None
    } else if b[0] == 0 {
        if b.len() < 3 {
            None
        } else {
            match client_type_of(b[2]) {
                None => None,
                Some(t) => match parse_metas(b, 3) {
                    None => None,
                    Some((ms, e)) => Some((
                        MessageView::SubscribeClient { client_id: b[1], client_type: t, available_videos: ms },
                        e,
                    )),
                },
            }
        }
    } else if b[0] == 1 {
        Some((MessageView::AckSubscribeClient { client_id: b[1] }, 2))
    } else if b[0] == 2 {
        Some((MessageView::RequestFileList { client_id: b[1] }, 2))
    } else if b[0] == 3 {
        match parse_metas(b, 2) {
            None => None,
            Some((ms, e)) => Some((MessageView::ResponseFileList { server_id: b[1], file_list: ms }, e)),
        }
    } else if b[0] == 4 || b[0] == 6 {
        match parse_uint(b, 2, 2) {
            None => None,
            Some((h, e)) => Some((
                if b[0] == 4 {
                    MessageView::RequestPeerList { client_id: b[1], file_hash: h as u16 }
                } else {
                    MessageView::ChunkRequest { client_id: b[1], file_hash: h as u16 }
                },
                e,
            )),
        }
    } else if b[0] == 5 {
        match parse_uint(b, 1, 2) {
            None => None,
            Some((h, p)) => match parse_peers(b, p) {
                None => None,
                Some((ps, e)) => Some((MessageView::ResponsePeerList { file_hash: h as u16, peers: ps }, e)),
            },
        }
    } else if b[0] == 7 {
        match parse_uint(b, 1, 2) {
            None => None,
            Some((h, at1)) => match parse_uint(b, at1, 4) {
                None => None,
                Some((ci, at2)) => match parse_uint(b, at2, 4) {
                    None => None,
                    Some((nc, at3)) => match parse_bytes(b, at3) {
                        None => None,
                        Some((data, e)) => Some((
                            MessageView::ChunkResponse {
                                file_hash: h as u16,
                                chunk_index: ci as u32,
                                n_chunks: nc as u32,
                                chunk_data: data,
                            },
                            e,
                        )),
                    },
                },
            },
        }
    } else {
        None
    }
}

/// The message `b` holds, if `b` is exactly the wire form of one.
pub open spec fn parse_message(b: Seq<u8>) -> Option<MessageView> {
    match parse_body(b) {
        Some((m, e)) => if e == b.len() {
            Some(m)
        } else {
            None
        },
        None => None,
    }
}

proof fn lemma_meta_round_trip(b: Seq<u8>, pos: int, m: MetaView)
    requires
        m.encodable(),
        holds_at(b, pos, enc_meta(m)),
    ensures
        parse_meta(b, pos) == Some((m, pos + enc_meta(m).len())),
{
    reveal_with_fuel(pow256, 9);
    let a = enc_uint(m.id as nat, 2);
    let t = enc_bytes(m.title);
    let d = enc_bytes(m.description);
    let u = enc_uint(m.duration as nat, 8);
    let mt = enc_bytes(m.mime_type);
    let c = enc_bytes(m.created_at);
    lemma_enc_uint(m.id as nat, 2);
    lemma_enc_uint(m.duration as nat, 8);
    lemma_holds_split(b, pos, a + t + d + u + mt, c);
    lemma_holds_split(b, pos, a + t + d + u, mt);
    lemma_holds_split(b, pos, a + t + d, u);
    lemma_holds_split(b, pos, a + t, d);
    lemma_holds_split(b, pos, a, t);
    lemma_parse_uint(b, pos, m.id as nat, 2);
    let at1 = pos + 2;
    lemma_parse_bytes(b, at1, m.title);
    let at2 = at1 + t.len();
    lemma_parse_bytes(b, at2, m.description);
    let at3 = at2 + d.len();
    lemma_parse_uint(b, at3, m.duration as nat, 8);
    let at4 = at3 + 8;
    lemma_parse_bytes(b, at4, m.mime_type);
    let at5 = at4 + mt.len();
    lemma_parse_bytes(b, at5, m.created_at);
}

proof fn lemma_meta_items_round_trip(b: Seq<u8>, pos: int, ms: Seq<MetaView>)
    requires
        forall|i: int| 0 <= i < ms.len() ==> (#[trigger] ms[i]).encodable(),
        holds_at(b, pos, enc_meta_items(ms)),
    ensures
        parse_meta_items(b, pos, ms.len()) == Some((ms, pos + enc_meta_items(ms).len())),
    decreases ms.len(),
{
    if ms.len() > 0 {
        let init = ms.drop_last();
        lemma_holds_split(b, pos, enc_meta_items(init), enc_meta(ms.last()));
        assert forall|i: int| 0 <= i < init.len() implies (#[trigger] init[i]).encodable() by {
            assert(init[i] == ms[i]);
        }
        lemma_meta_items_round_trip(b, pos, init);
        assert(ms[ms.len() - 1].encodable());
        lemma_meta_round_trip(b, pos + enc_meta_items(init).len(), ms.last());
        assert(init.push(ms.last()) =~= ms);
    }
}

proof fn lemma_metas_round_trip(b: Seq<u8>, pos: int, ms: Seq<MetaView>)
    requires
        metas_encodable(ms),
        holds_at(b, pos, enc_metas(ms)),
    ensures
        parse_metas(b, pos) == Some((ms, pos + enc_metas(ms).len())),
{
    lemma_holds_split(b, pos, enc_uint(ms.len(), 4), enc_meta_items(ms));
    lemma_enc_uint(ms.len(), 4);
    lemma_parse_uint(b, pos, ms.len(), 4);
    lemma_meta_items_round_trip(b, pos + 4, ms);
}

proof fn lemma_peer_items_round_trip(b: Seq<u8>, pos: int, ps: Seq<PeerInfo>)
    requires
        holds_at(b, pos, enc_peer_items(ps)),
    ensures
        parse_peer_items(b, pos, ps.len()) == Some((ps, pos + enc_peer_items(ps).len())),
    decreases ps.len(),
{
    if ps.len() > 0 {
        let init = ps.drop_last();
        let x = ps.last();
        lemma_holds_split(b, pos, enc_peer_items(init), enc_peer(x));
        lemma_peer_items_round_trip(b, pos, init);
        let p = pos + enc_peer_items(init).len();
        assert(b.subrange(p, p + 2) == enc_peer(x));
        assert(b[p] == enc_peer(x)[0]);
        assert(b[p + 1] == enc_peer(x)[1]);
        assert(parse_peer(b, p) == Some((x, p + 2)));
        assert(init.push(x) =~= ps);
    }
}

proof fn lemma_peers_round_trip(b: Seq<u8>, pos: int, ps: Seq<PeerInfo>)
    requires
        ps.len() < wire_limit(),
        holds_at(b, pos, enc_peers(ps)),
    ensures
        parse_peers(b, pos) == Some((ps, pos + enc_peers(ps).len())),
{
    lemma_holds_split(b, pos, enc_uint(ps.len(), 4), enc_peer_items(ps));
    lemma_enc_uint(ps.len(), 4);
    lemma_parse_uint(b, pos, ps.len(), 4);
    lemma_peer_items_round_trip(b, pos + 4, ps);
}

/// Reading the wire form of a message gives the message back.
#[verifier::spinoff_prover]
#[verifier::rlimit(60)]
pub proof fn lemma_message_round_trip(m: MessageView)
    requires
        m.encodable(),
    ensures
        parse_message(enc_message(m)) == Some(m),
{
    reveal_with_fuel(pow256, 5);
    let b = enc_message(m);
    assert(holds_at(b, 0, b)) by {
        assert(b.subrange(0, b.len() as int) =~= b);
    }
    match m {
        MessageView::SubscribeClient { client_id, client_type, available_videos } => {
            let h = seq![0u8, client_id, type_byte(client_type)];
            lemma_holds_split(b, 0, h, enc_metas(available_videos));
            lemma_metas_round_trip(b, 3, available_videos);
        },
        MessageView::AckSubscribeClient { client_id } => {},
        MessageView::RequestFileList { client_id } => {},
        MessageView::ResponseFileList { server_id, file_list } => {
            let h = seq![3u8, server_id];
            lemma_holds_split(b, 0, h, enc_metas(file_list));
            lemma_metas_round_trip(b, 2, file_list);
        },
        MessageView::RequestPeerList { client_id, file_hash } => {
            let h = seq![4u8, client_id];
            lemma_holds_split(b, 0, h, enc_uint(file_hash as nat, 2));
            lemma_enc_uint(file_hash as nat, 2);
            lemma_parse_uint(b, 2, file_hash as nat, 2);
        },
        MessageView::ResponsePeerList { file_hash, peers } => {
            let h = seq![5u8];
            let f = enc_uint(file_hash as nat, 2);
            lemma_holds_split(b, 0, h + f, enc_peers(peers));
            lemma_holds_split(b, 0, h, f);
            lemma_enc_uint(file_hash as nat, 2);
            lemma_parse_uint(b, 1, file_hash as nat, 2);
            lemma_peers_round_trip(b, 3, peers);
        },
        MessageView::ChunkRequest { client_id, file_hash } => {
            let h = seq![6u8, client_id];
            lemma_holds_split(b, 0, h, enc_uint(file_hash as nat, 2));
            lemma_enc_uint(file_hash as nat, 2);
            lemma_parse_uint(b, 2, file_hash as nat, 2);
        },
        MessageView::ChunkResponse { file_hash, chunk_index, n_chunks, chunk_data } => {
            let h = seq![7u8];
            let f = enc_uint(file_hash as nat, 2);
            let ci = enc_uint(chunk_index as nat, 4);
            let nc = enc_uint(n_chunks as nat, 4);
            let d = enc_bytes(chunk_data);
            lemma_holds_split(b, 0, h + f + ci + nc, d);
            lemma_holds_split(b, 0, h + f + ci, nc);
            lemma_holds_split(b, 0, h + f, ci);
            lemma_holds_split(b, 0, h, f);
            lemma_enc_uint(file_hash as nat, 2);
            lemma_enc_uint(chunk_index as nat, 4);
            lemma_enc_uint(n_chunks as nat, 4);
            lemma_parse_uint(b, 1, file_hash as nat, 2);
            lemma_parse_uint(b, 3, chunk_index as nat, 4);
            lemma_parse_uint(b, 7, n_chunks as nat, 4);
            lemma_parse_bytes(b, 11, chunk_data);
        },
    }
}

fn get_meta(buf: &Vec<u8>, pos: usize) -> (r: Option<(VideoMetaData, usize)>)
    requires
        pos <= buf@.len(),
    ensures
        match r {
            Some((m, next)) => parse_meta(buf@, pos as int) == Some((m@, next as int)) && next <= buf@.len(),
            None => parse_meta(buf@, pos as int) is None,
        },
{
    proof {
        reveal_with_fuel(pow256, 9);
    }
    let (id, at1) = match get_uint(buf, pos, 2) {
        Some(x) => x,
        None => return None,
    };
    let (title, at2) = match get_bytes(buf, at1) {
        Some(x) => x,
        None => return None,
    };
    let (description, at3) = match get_bytes(buf, at2) {
        Some(x) => x,
        None => return None,
    };
    let (duration, at4) = match get_uint(buf, at3, 8) {
        Some(x) => x,
        None => return None,
    };
    let (mime_type, at5) = match get_bytes(buf, at4) {
        Some(x) => x,
        None => return None,
    };
    let (created_at, at6) = match get_bytes(buf, at5) {
        Some(x) => x,
        None => return None,
    };
    proof {
        crate::wire::lemma_be_value_bound(buf@.subrange(pos as int, pos + 2));
    }
    Some((VideoMetaData { id: id as u16, title, description, duration, mime_type, created_at }, at6))
}

fn get_metas(buf: &Vec<u8>, pos: usize) -> (r: Option<(Vec<VideoMetaData>, usize)>)
    requires
        pos <= buf@.len(),
    ensures
        match r {
            Some((ms, next)) => parse_metas(buf@, pos as int) == Some((metas_view(ms@), next as int)) && next <= buf@.len(),
            None => parse_metas(buf@, pos as int) is None,
        },
{
    let (n, at0) = match get_uint(buf, pos, 4) {
        Some(x) => x,
        None => return None,
    };
    let mut ms: Vec<VideoMetaData> = Vec::new();
    let mut p = at0;
    let mut i: u64 = 0;
    while i < n
        invariant
            i <= n,
            p <= buf@.len(),
            ms@.len() == i,
            parse_meta_items(buf@, at0 as int, i as nat) == Some((metas_view(ms@), p as int)),
            parse_metas(buf@, pos as int) == parse_meta_items(buf@, at0 as int, n as nat),
        decreases n - i,
    {
        let (m, q) = match get_meta(buf, p) {
            Some(x) => x,
            None => {
                proof {
                    let k = (i + 1) as nat;
                    assert((k - 1) as nat == i as nat);
                    lemma_items_stop(buf@, at0 as int, i as nat, n as nat);
                }
                return None;
            },
        };
        let ghost before = ms@;
        ms.push(m);
        proof {
            assert((i + 1 - 1) as nat == i as nat);
            assert(metas_view(ms@) =~= metas_view(before).push(m@));
        }
        p = q;
        i = i + 1;
    }
    Some((ms, p))
}

/// Once the first `i` items parse and item `i` does not, no longer run parses.
proof fn lemma_items_stop(b: Seq<u8>, pos: int, i: nat, n: nat)
    requires
        i < n,
        parse_meta_items(b, pos, i) matches Some((ms, p)) && parse_meta(b, p) is None,
    ensures
        parse_meta_items(b, pos, n) is None,
    decreases n,
{
    if n > i + 1 {
        lemma_items_stop(b, pos, i, (n - 1) as nat);
    }
}

proof fn lemma_peer_items_stop(b: Seq<u8>, pos: int, i: nat, n: nat)
    requires
        i < n,
        parse_peer_items(b, pos, i) matches Some((ps, p)) && parse_peer(b, p) is None,
    ensures
        parse_peer_items(b, pos, n) is None,
    decreases n,
{
    if n > i + 1 {
        lemma_peer_items_stop(b, pos, i, (n - 1) as nat);
    }
}

fn client_type_from(x: u8) -> (r: Option<ClientType>)
    ensures
        r == client_type_of(x),
{
    if x == 0 {
        Some(ClientType::Audio)
    } else if x == 1 {
        Some(ClientType::Video)
    } else {
        None
    }
}

fn get_peers(buf: &Vec<u8>, pos: usize) -> (r: Option<(Vec<PeerInfo>, usize)>)
    requires
        pos <= buf@.len(),
    ensures
        match r {
            Some((ps, next)) => parse_peers(buf@, pos as int) == Some((ps@, next as int)) && next <= buf@.len(),
            None => parse_peers(buf@, pos as int) is None,
        },
{
    let (n, at0) = match get_uint(buf, pos, 4) {
        Some(x) => x,
        None => return None,
    };
    let len = buf.len();
    let mut ps: Vec<PeerInfo> = Vec::new();
    let mut p = at0;
    let mut i: u64 = 0;
    while i < n
        invariant
            len == buf@.len(),
            i <= n,
            p <= buf@.len(),
            ps@.len() == i,
            parse_peer_items(buf@, at0 as int, i as nat) == Some((ps@, p as int)),
            parse_peers(buf@, pos as int) == parse_peer_items(buf@, at0 as int, n as nat),
        decreases n - i,
    {
        if len - p < 2 {
            proof {
                lemma_peer_items_stop(buf@, at0 as int, i as nat, n as nat);
            }
            return None;
        }
        let t = match client_type_from(buf[p + 1]) {
            Some(t) => t,
            None => {
                proof {
                    lemma_peer_items_stop(buf@, at0 as int, i as nat, n as nat);
                }
                return None;
            },
        };
        ps.push(PeerInfo { client_id: buf[p], client_type: t });
        p = p + 2;
        i = i + 1;
        assert((i - 1) as nat == (i - 1) as nat);
    }
    Some((ps, p))
}

/// Reads a message from its wire form; `None` when `buf` is not exactly the wire
/// form of a message.
pub fn decode_message(buf: &Vec<u8>) -> (r: Option<MessageType>)
    ensures
        match r {
            Some(m) => parse_message(buf@) == Some(m@),
            None => parse_message(buf@) is None,
        },
{
    let len = buf.len();
    if len < 2 {
        return None;
    }
    let tag = buf[0];
    let (m, end): (MessageType, usize) = if tag == 0 {
        if len < 3 {
            return None;
        }
        let t = match client_type_from(buf[2]) {
            Some(t) => t,
            None => return None,
        };
        match get_metas(buf, 3) {
            Some((ms, e)) => (MessageType::SubscribeClient { client_id: buf[1], client_type: t, available_videos: ms }, e),
            None => return None,
        }
    } else if tag == 1 {
        (MessageType::AckSubscribeClient { client_id: buf[1] }, 2)
    } else if tag == 2 {
        (MessageType::RequestFileList { client_id: buf[1] }, 2)
    } else if tag == 3 {
        match get_metas(buf, 2) {
            Some((ms, e)) => (MessageType::ResponseFileList { server_id: buf[1], file_list: ms }, e),
            None => return None,
        }
    } else if tag == 4 || tag == 6 {
        match get_uint(buf, 2, 2) {
            Some((h, e)) => {
                proof {
                    crate::wire::lemma_be_value_bound(buf@.subrange(2, 4));
                    reveal_with_fuel(pow256, 3);
                }
                if tag == 4 {
                    (MessageType::RequestPeerList { client_id: buf[1], file_hash: h as u16 }, e)
                } else {
                    (MessageType::ChunkRequest { client_id: buf[1], file_hash: h as u16 }, e)
                }
            },
            None => return None,
        }
    } else if tag == 5 {
        let (h, p) = match get_uint(buf, 1, 2) {
            Some(x) => x,
            None => return None,
        };
        proof {
            crate::wire::lemma_be_value_bound(buf@.subrange(1, 3));
            reveal_with_fuel(pow256, 3);
        }
        match get_peers(buf, p) {
            Some((ps, e)) => (MessageType::ResponsePeerList { file_hash: h as u16, peers: ps }, e),
            None => return None,
        }
    } else if tag == 7 {
        let (h, at1) = match get_uint(buf, 1, 2) {
            Some(x) => x,
            None => return None,
        };
        let (ci, at2) = match get_uint(buf, at1, 4) {
            Some(x) => x,
            None => return None,
        };
        let (nc, at3) = match get_uint(buf, at2, 4) {
            Some(x) => x,
            None => return None,
        };
        let (data, e) = match get_bytes(buf, at3) {
            Some(x) => x,
            None => return None,
        };
        proof {
            crate::wire::lemma_be_value_bound(buf@.subrange(1, 3));
            crate::wire::lemma_be_value_bound(buf@.subrange(3, 7));
            crate::wire::lemma_be_value_bound(buf@.subrange(7, 11));
            reveal_with_fuel(pow256, 5);
        }
        (MessageType::ChunkResponse { file_hash: h as u16, chunk_index: ci as u32, n_chunks: nc as u32, chunk_data: data }, e)
    } else {
        return None;
    };
    if end != len {
        return None;
    }
    Some(m)
}

} // verus!

use crossbeam::channel::{unbounded, Receiver};

use client_video::chunks::ChunkBuffer;
use client_video::client::{
    history_key, DroneEvent, ClientState, Delivery, FsmStatus, NackOutcome,
};
use client_video::codec::{assemble_payload, disassemble_payload};
use client_video::message::{decode_message, encode_message, ClientType, MessageType};
use client_video::network::{NodeType, SourceRoutingHeader};
use client_video::packet::{
    FloodRequest, FloodResponse, Fragment, Nack, NackType, Packet, PacketType,
};

fn client(id: u8) -> (ClientState, Receiver<DroneEvent>) {
    let (tx, rx) = unbounded();
    (ClientState::new(id, ClientType::Video, tx), rx)
}

fn neighbour(c: &mut ClientState, id: u8) -> Receiver<Packet> {
    let (tx, rx) = unbounded();
    c.add_sender(id, tx);
    rx
}

fn drain(rx: &Receiver<Packet>) -> Vec<Packet> {
    rx.try_iter().collect()
}

fn fragments_of(packets: &[Packet]) -> Vec<Fragment> {
    packets
        .iter()
        .filter_map(|p| match &p.pack_type {
            PacketType::MsgFragment(f) => Some(f.clone()),
            _ => None,
        })
        .collect()
}

#[test]
fn discover_then_subscribe() {
    let (mut c, _events) = client(5);
    let rx1 = neighbour(&mut c, 1);
    let response = FloodResponse {
        flood_id: 1,
        path_trace: vec![(5, NodeType::Client), (1, NodeType::Drone), (7, NodeType::Server)],
    };
    let packet = Packet {
        pack_type: PacketType::FloodResponse(response),
        routing_header: SourceRoutingHeader::new(vec![7, 1, 5], 2),
        session_id: 3,
    };
    assert_eq!(c.fsm, FsmStatus::ServerNotFound);
    let delivery = c.packet_dispatcher(packet, 0);
    assert!(matches!(delivery, Delivery::Nothing));
    assert_eq!(c.servers.len(), 1);
    assert_eq!(c.servers[0].id, 7);
    assert!(c.servers[0].videos.is_empty());
    assert_eq!(c.fsm, FsmStatus::NotSubscribedToServer);
    let sent = drain(&rx1);
    assert!(!sent.is_empty());
    for p in &sent {
        assert_eq!(p.routing_header.hops, vec![5, 1, 7]);
        assert_eq!(p.routing_header.hop_index, 1);
    }
    let bytes = assemble_payload(&fragments_of(&sent)).unwrap();
    match decode_message(&bytes).unwrap() {
        MessageType::SubscribeClient { client_id, client_type, available_videos } => {
            assert_eq!(client_id, 5);
            assert_eq!(client_type, ClientType::Video);
            assert!(available_videos.is_empty());
        }
        other => panic!("unexpected message {other:?}"),
    }
}

#[test]
fn two_fragment_reassembly_with_reorder() {
    let (mut c, _events) = client(5);
    let rx1 = neighbour(&mut c, 1);
    let data: Vec<u8> = (0..200u32).map(|i| (i % 251) as u8).collect();
    let msg = MessageType::ChunkResponse { file_hash: 77, chunk_index: 0, n_chunks: 1, chunk_data: data.clone() };
    let frags = disassemble_payload(&encode_message(&msg));
    assert_eq!(frags.len(), 2);
    let inbound = |f: &Fragment| Packet {
        pack_type: PacketType::MsgFragment(f.clone()),
        routing_header: SourceRoutingHeader::new(vec![9, 1, 5], 2),
        session_id: 42,
    };

    let d1 = c.packet_dispatcher(inbound(&frags[1]), 0);
    assert!(matches!(d1, Delivery::Nothing));
    assert_eq!(c.packets_map.get(&42).unwrap().len(), 1);
    let acks = drain(&rx1);
    assert_eq!(acks.len(), 1);
    assert!(matches!(acks[0].pack_type, PacketType::Ack(a) if a.fragment_index == 1));
    assert_eq!(acks[0].routing_header.hops, vec![5, 1, 9]);
    assert_eq!(acks[0].routing_header.hop_index, 1);
    assert_eq!(acks[0].session_id, 42);

    let d2 = c.packet_dispatcher(inbound(&frags[0]), 0);
    assert!(!c.packets_map.contains_key(&42));
    let acks = drain(&rx1);
    assert_eq!(acks.len(), 1);
    assert!(matches!(acks[0].pack_type, PacketType::Ack(a) if a.fragment_index == 0));
    match d2 {
        Delivery::VideoChunks(chunks) => assert_eq!(chunks, vec![data]),
        other => panic!("unexpected delivery {other:?}"),
    }
}

#[test]
fn dropped_nack_retransmit_with_repathing() {
    let (mut c, _events) = client(5);
    let rx1 = neighbour(&mut c, 1);
    let rx2 = neighbour(&mut c, 2);
    c.routing_handler.update_graph(&vec![(5, NodeType::Client), (1, NodeType::Drone), (7, NodeType::Server)]);
    c.routing_handler.update_graph(&vec![(5, NodeType::Client), (2, NodeType::Drone), (7, NodeType::Server)]);
    let frag = disassemble_payload(&vec![1, 2, 3]).remove(0);
    let first_copy = Packet {
        pack_type: PacketType::MsgFragment(frag),
        routing_header: SourceRoutingHeader::new(vec![5, 1, 7], 1),
        session_id: 9,
    };
    c.send_packet(1, first_copy).unwrap();
    assert_eq!(drain(&rx1).len(), 1);

    let nack = Packet {
        pack_type: PacketType::Nack(Nack { fragment_index: 0, nack_type: NackType::Dropped }),
        routing_header: SourceRoutingHeader::new(vec![1, 5], 1),
        session_id: 9,
    };
    c.packet_dispatcher(nack, 0);
    assert!(drain(&rx1).is_empty());
    let resent = drain(&rx2);
    assert_eq!(resent.len(), 1);
    assert_eq!(resent[0].routing_header.hops, vec![5, 2, 7]);
    assert_eq!(resent[0].routing_header.hop_index, 1);
    let kept = c.packets_history.get(&history_key(0, 9)).unwrap();
    assert_eq!(kept.routing_header.hops, vec![5, 2, 7]);
    assert_eq!(kept.routing_header.hop_index, 1);
    assert_eq!(c.packets_history.len(), 1);
}

#[test]
fn chunk_reorder_buffer() {
    let mut b = ChunkBuffer::new();
    let mut delivered: Vec<Vec<u8>> = Vec::new();
    for k in [0u32, 2, 3, 1] {
        delivered.extend(b.receive(k, vec![k as u8]));
    }
    assert_eq!(delivered, vec![vec![0], vec![1], vec![2], vec![3]]);
    assert_eq!(b.next_expected_index(), 4);
}

#[test]
fn rate_limited_flood_on_routing_errors() {
    let (mut c, _events) = client(5);
    let _rx1 = neighbour(&mut c, 1);
    c.record_server_videos(9, vec![]);
    for s in 0..3u64 {
        let frag = disassemble_payload(&vec![s as u8]).remove(0);
        let p = Packet {
            pack_type: PacketType::MsgFragment(frag),
            routing_header: SourceRoutingHeader::new(vec![5, 1, 9], 1),
            session_id: 100 + s,
        };
        c.send_packet(1, p).unwrap();
    }
    let nack = |_s: u64| Nack { fragment_index: 0, nack_type: NackType::ErrorInRouting(9) };
    let route = SourceRoutingHeader::new(vec![1, 5], 1);
    assert_eq!(c.flood_id, 0);
    assert_eq!(c.handle_nack(&route, nack(100), 100, 0), NackOutcome::Reflooded);
    assert!(!c.is_server(9));
    assert_eq!(c.flood_id, 1);
    assert_eq!(c.handle_nack(&route, nack(101), 101, 2_000), NackOutcome::FloodSkipped);
    assert_eq!(c.flood_id, 1);
    assert_eq!(c.handle_nack(&route, nack(102), 102, 7_000), NackOutcome::Reflooded);
    assert_eq!(c.flood_id, 2);
    assert!(!c.is_server(9));
}

#[test]
fn controller_shortcut_on_flood_response_forwarding_failure() {
    let (mut c, events) = client(5);
    let _rx1 = neighbour(&mut c, 1);
    let request = FloodRequest {
        flood_id: 4,
        initiator_id: 9,
        path_trace: vec![(9, NodeType::Client), (3, NodeType::Drone)],
    };
    let packet = Packet {
        pack_type: PacketType::FloodRequest(request),
        routing_header: SourceRoutingHeader::new(vec![], 0),
        session_id: 11,
    };
    c.packet_dispatcher(packet, 0);
    let got: Vec<DroneEvent> = events.try_iter().collect();
    assert_eq!(got.len(), 1);
    match &got[0] {
        DroneEvent::ControllerShortcut(p) => {
            assert_eq!(p.routing_header.hops, vec![5, 3, 9]);
            assert_eq!(p.routing_header.hop_index, 1);
            assert_eq!(p.session_id, 1);
            match &p.pack_type {
                PacketType::FloodResponse(r) => {
                    assert_eq!(r.flood_id, 4);
                    assert_eq!(
                        r.path_trace,
                        vec![(9, NodeType::Client), (3, NodeType::Drone), (5, NodeType::Client)]
                    );
                }
                other => panic!("unexpected packet {other:?}"),
            }
        }
        other => panic!("unexpected event {other:?}"),
    }
    assert!(c.packets_history.is_empty());
}

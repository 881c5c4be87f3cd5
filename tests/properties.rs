use crossbeam::channel::{unbounded, Receiver};

use client_video::chunks::{video_chunks, ChunkBuffer, CHUNK_SIZE};
use client_video::client::{
    history_key, reflood_is_due, DroneCommand, DroneEvent, ClientState, CommandOutcome, Delivery, FsmStatus,
    NackOutcome,
};
use client_video::codec::{assemble_payload, disassemble, disassemble_payload};
use client_video::message::{decode_message, encode_message, ClientType, MessageType, PeerInfo, VideoMetaData};
use client_video::network::{NodeType, SourceRoutingHeader};
use client_video::packet::{Ack, Fragment, Nack, NackType, Packet, PacketType};
use client_video::topology::{RoutingHandler, WEIGHT_INIT};

fn client(id: u8) -> (ClientState, Receiver<DroneEvent>) {
    let (tx, rx) = unbounded();
    (ClientState::new(id, ClientType::Video, tx), rx)
}

fn neighbour(c: &mut ClientState, id: u8) -> Receiver<Packet> {
    let (tx, rx) = unbounded();
    c.add_sender(id, tx);
    rx
}

fn fragment(index: u64, total: u64, byte: u8) -> Fragment {
    let mut data = vec![0u8; 128];
    data[0] = byte;
    Fragment { fragment_index: index, total_n_fragments: total, length: 1, data }
}

fn fragment_packet(f: Fragment, session: u64) -> Packet {
    Packet {
        pack_type: PacketType::MsgFragment(f),
        routing_header: SourceRoutingHeader::new(vec![9, 1, 5], 2),
        session_id: session,
    }
}

fn video(id: u16, title: &str) -> VideoMetaData {
    VideoMetaData {
        id,
        title: title.as_bytes().to_vec(),
        description: b"a video".to_vec(),
        duration: 42,
        mime_type: b"video/mp4".to_vec(),
        created_at: b"2024-01-01T00:00:00Z".to_vec(),
    }
}

#[test]
fn retained_fragments_share_their_total() {
    let (mut c, _e) = client(5);
    let _rx1 = neighbour(&mut c, 1);
    c.packet_dispatcher(fragment_packet(fragment(0, 3, 1), 7), 0);
    c.packet_dispatcher(fragment_packet(fragment(1, 4, 2), 7), 0);
    let held = c.packets_map.get(&7).unwrap();
    assert_eq!(held.len(), 1);
    c.packet_dispatcher(fragment_packet(fragment(1, 3, 2), 7), 0);
    let held = c.packets_map.get(&7).unwrap();
    assert_eq!(held.len(), 2);
    assert!(held.iter().all(|f| f.total_n_fragments == 3));
}

#[test]
fn fragment_index_beyond_total_is_dropped() {
    let (mut c, _e) = client(5);
    assert_eq!(c.receive_fragment(fragment(3, 3, 1), 8), None);
    assert!(c.packets_map.is_empty());
}

#[test]
fn unknown_session_starts_entry_and_single_fragment_assembles() {
    let (mut c, _e) = client(5);
    assert_eq!(c.receive_fragment(fragment(0, 2, 1), 20), None);
    assert_eq!(c.packets_map.get(&20).unwrap().len(), 1);
    assert_eq!(c.receive_fragment(fragment(0, 1, 99), 21), Some(vec![99]));
    assert!(!c.packets_map.contains_key(&21));
}

#[test]
fn ack_removes_history_entry_and_is_idempotent() {
    let (mut c, _e) = client(5);
    let _rx1 = neighbour(&mut c, 1);
    let f = disassemble_payload(&vec![1, 2]).remove(0);
    let p = Packet {
        pack_type: PacketType::MsgFragment(f),
        routing_header: SourceRoutingHeader::new(vec![5, 1, 7], 1),
        session_id: 30,
    };
    c.send_packet(1, p).unwrap();
    assert!(c.packets_history.contains_key(&history_key(0, 30)));
    let route = SourceRoutingHeader::new(vec![7, 1, 5], 2);
    assert!(c.handle_ack(&route, Ack { fragment_index: 0 }, 30));
    assert!(!c.packets_history.contains_key(&history_key(0, 30)));
    let len_after_first = c.packets_history.len();
    assert!(!c.handle_ack(&route, Ack { fragment_index: 0 }, 30));
    assert_eq!(c.packets_history.len(), len_after_first);
}

#[test]
fn successful_send_records_history_and_mirrors_to_controller() {
    let (mut c, events) = client(5);
    let rx1 = neighbour(&mut c, 1);
    let f = disassemble_payload(&vec![4, 5, 6]).remove(0);
    let p = Packet {
        pack_type: PacketType::MsgFragment(f),
        routing_header: SourceRoutingHeader::new(vec![5, 1, 7], 1),
        session_id: 12,
    };
    assert_eq!(c.send_packet(1, p), Ok(()));
    assert_eq!(rx1.try_iter().count(), 1);
    assert!(c.packets_history.contains_key(&history_key(0, 12)));
    let got: Vec<DroneEvent> = events.try_iter().collect();
    assert_eq!(got.len(), 1);
    assert!(matches!(&got[0], DroneEvent::PacketSent(q) if q.session_id == 12));
}

#[test]
fn best_path_to_self_is_one_hop_and_paths_do_not_repeat() {
    let mut g = RoutingHandler::new();
    assert_eq!(g.best_path(4, 4).unwrap().hops, vec![4]);
    g.update_graph(&vec![(1, NodeType::Client), (2, NodeType::Drone), (3, NodeType::Drone), (1, NodeType::Client)]);
    g.update_graph(&vec![(3, NodeType::Drone), (2, NodeType::Drone), (4, NodeType::Server)]);
    let h = g.best_path(1, 4).unwrap();
    assert_eq!(h.hop_index, 0);
    assert_eq!(h.hops, vec![1, 2, 4]);
    let mut seen = h.hops.clone();
    seen.sort();
    seen.dedup();
    assert_eq!(seen.len(), h.hops.len());
    assert!(g.best_path(4, 1).is_none());
}

#[test]
fn ties_go_to_the_smaller_node_id() {
    let mut g = RoutingHandler::new();
    g.update_graph(&vec![(5, NodeType::Client), (3, NodeType::Drone), (7, NodeType::Server)]);
    g.update_graph(&vec![(5, NodeType::Client), (2, NodeType::Drone), (7, NodeType::Server)]);
    assert_eq!(g.best_path(5, 7).unwrap().hops, vec![5, 2, 7]);
}

#[test]
fn weights_follow_congestion_ack_and_nack() {
    let mut g = RoutingHandler::new();
    g.update_graph(&vec![(5, NodeType::Client), (1, NodeType::Drone), (7, NodeType::Server)]);
    assert_eq!(g.edge_weight(5, 1), WEIGHT_INIT);
    assert_eq!(g.edge_weight(1, 5), 0);
    g.nodes_congestion(&SourceRoutingHeader::new(vec![5, 1, 7], 1));
    assert_eq!(g.edge_weight(5, 1), 11);
    assert_eq!(g.edge_weight(1, 7), 11);
    g.nodes_ack(&SourceRoutingHeader::new(vec![7, 1, 5], 2));
    assert_eq!(g.edge_weight(5, 1), 10);
    assert_eq!(g.edge_weight(1, 7), 10);
    g.node_nack(1);
    assert_eq!(g.edge_weight(5, 1), 20);
    assert_eq!(g.edge_weight(1, 7), 20);
    for _ in 0..100 {
        g.node_nack(1);
    }
    assert_eq!(g.edge_weight(5, 1), 1000);
    for _ in 0..2000 {
        g.nodes_ack(&SourceRoutingHeader::new(vec![7, 1, 5], 2));
    }
    assert_eq!(g.edge_weight(5, 1), 1);
}

#[test]
fn short_flood_trace_leaves_graph_unchanged() {
    let mut g = RoutingHandler::new();
    let servers = g.update_graph(&vec![(7, NodeType::Server)]);
    assert_eq!(servers, vec![7]);
    assert!(g.best_path(7, 8).is_none());
    for a in 0..=255u8 {
        assert_eq!(g.edge_weight(7, a), 0);
        assert_eq!(g.edge_weight(a, 7), 0);
    }
}

#[test]
fn known_edges_keep_their_weight_on_merge() {
    let mut g = RoutingHandler::new();
    g.update_graph(&vec![(5, NodeType::Client), (1, NodeType::Drone)]);
    g.node_nack(1);
    g.update_graph(&vec![(5, NodeType::Client), (1, NodeType::Drone), (7, NodeType::Server)]);
    assert_eq!(g.edge_weight(5, 1), 20);
    assert_eq!(g.edge_weight(1, 7), 10);
}

#[test]
fn chunks_arrive_in_order_and_duplicates_are_dropped() {
    let mut b = ChunkBuffer::new();
    assert_eq!(b.receive(1, vec![1]), Vec::<Vec<u8>>::new());
    assert_eq!(b.receive(0, vec![0]), vec![vec![0], vec![1]]);
    assert_eq!(b.receive(0, vec![9]), Vec::<Vec<u8>>::new());
    assert_eq!(b.receive(1, vec![9]), Vec::<Vec<u8>>::new());
    assert_eq!(b.next_expected_index(), 2);
    b.reset();
    assert_eq!(b.next_expected_index(), 0);
    assert_eq!(b.receive(0, vec![5]), vec![vec![5]]);
}

#[test]
fn request_video_resets_the_reorder_buffer() {
    let (mut c, _e) = client(5);
    c.handle_chunk_res(0, vec![1]);
    c.handle_chunk_res(2, vec![3]);
    assert_eq!(c.chunks.next_expected_index(), 1);
    let _ = c.request_video(3);
    assert_eq!(c.chunks.next_expected_index(), 0);
    assert_eq!(c.handle_chunk_res(0, vec![7]), vec![vec![7]]);
}

#[test]
fn same_ack_twice_changes_history_once() {
    let (mut c, _e) = client(5);
    let route = SourceRoutingHeader::new(vec![7, 1, 5], 2);
    c.handle_ack(&route, Ack { fragment_index: 3 }, 1);
    let before: Vec<u128> = c.packets_history.keys().copied().collect();
    c.handle_ack(&route, Ack { fragment_index: 3 }, 1);
    let after: Vec<u128> = c.packets_history.keys().copied().collect();
    assert_eq!(before, after);
}

#[test]
fn same_dropped_nack_twice_sends_twice_and_keeps_one_entry() {
    let (mut c, _e) = client(5);
    let rx1 = neighbour(&mut c, 1);
    c.routing_handler.update_graph(&vec![(5, NodeType::Client), (1, NodeType::Drone), (7, NodeType::Server)]);
    let f = disassemble_payload(&vec![8]).remove(0);
    let p = Packet {
        pack_type: PacketType::MsgFragment(f),
        routing_header: SourceRoutingHeader::new(vec![5, 1, 7], 1),
        session_id: 4,
    };
    c.send_packet(1, p).unwrap();
    let _ = rx1.try_iter().count();
    let route = SourceRoutingHeader::new(vec![1, 5], 1);
    let nack = Nack { fragment_index: 0, nack_type: NackType::Dropped };
    assert_eq!(c.handle_nack(&route, nack, 4, 0), NackOutcome::Retransmitted);
    assert_eq!(c.handle_nack(&route, nack, 4, 0), NackOutcome::Retransmitted);
    assert_eq!(rx1.try_iter().count(), 2);
    assert_eq!(c.packets_history.len(), 1);
    assert!(c.packets_history.contains_key(&history_key(0, 4)));
}

#[test]
fn nack_for_unknown_fragment_changes_nothing() {
    let (mut c, _e) = client(5);
    let route = SourceRoutingHeader::new(vec![1, 5], 1);
    let nack = Nack { fragment_index: 0, nack_type: NackType::Dropped };
    assert_eq!(c.handle_nack(&route, nack, 4, 0), NackOutcome::UnknownFragment);
    assert_eq!(c.flood_id, 0);
}

#[test]
fn other_nack_kinds_are_ignored() {
    let (mut c, _e) = client(5);
    let _rx1 = neighbour(&mut c, 1);
    let f = disassemble_payload(&vec![8]).remove(0);
    let p = Packet {
        pack_type: PacketType::MsgFragment(f),
        routing_header: SourceRoutingHeader::new(vec![5, 1, 7], 1),
        session_id: 4,
    };
    c.send_packet(1, p).unwrap();
    let route = SourceRoutingHeader::new(vec![1, 5], 1);
    let n1 = Nack { fragment_index: 0, nack_type: NackType::DestinationIsDrone };
    let n2 = Nack { fragment_index: 0, nack_type: NackType::UnexpectedRecipient(3) };
    assert_eq!(c.handle_nack(&route, n1, 4, 0), NackOutcome::Ignored);
    assert_eq!(c.handle_nack(&route, n2, 4, 0), NackOutcome::Ignored);
    assert_eq!(c.packets_history.len(), 1);
}

#[test]
fn reassembly_round_trip_in_any_order() {
    let msg = MessageType::ResponseFileList { server_id: 7, file_list: vec![video(1, "gandalf sax"), video(2, "dancing pirate")] };
    let bytes = encode_message(&msg);
    let route = SourceRoutingHeader::new(vec![7, 1, 5], 1);
    let packets = disassemble(&bytes, &route, 77);
    assert!(packets.len() >= 2);
    let mut frags: Vec<Fragment> = packets
        .iter()
        .map(|p| {
            assert_eq!(p.routing_header.hops, vec![7, 1, 5]);
            assert_eq!(p.session_id, 77);
            match &p.pack_type {
                PacketType::MsgFragment(f) => f.clone(),
                _ => panic!("not a fragment"),
            }
        })
        .collect();
    frags.reverse();
    frags.swap(0, 1);
    let joined = assemble_payload(&frags).unwrap();
    assert_eq!(joined, bytes);
    match decode_message(&joined).unwrap() {
        MessageType::ResponseFileList { server_id, file_list } => {
            assert_eq!(server_id, 7);
            assert_eq!(file_list.len(), 2);
            assert_eq!(file_list[0].title, b"gandalf sax".to_vec());
            assert_eq!(file_list[1].id, 2);
            assert_eq!(file_list[1].duration, 42);
        }
        other => panic!("unexpected message {other:?}"),
    }
}

#[test]
fn assembly_rejects_gaps_duplicates_and_bad_totals() {
    let frags = disassemble_payload(&(0..300u32).map(|i| i as u8).collect());
    assert_eq!(frags.len(), 3);
    assert!(assemble_payload(&vec![]).is_none());
    assert!(assemble_payload(&vec![frags[0].clone(), frags[1].clone()]).is_none());
    assert!(assemble_payload(&vec![frags[0].clone(), frags[1].clone(), frags[1].clone()]).is_none());
    let mut wrong = frags.clone();
    wrong[2].total_n_fragments = 4;
    assert!(assemble_payload(&wrong).is_none());
    let mut short = frags.clone();
    short[1].data.pop();
    assert!(assemble_payload(&short).is_none());
    assert_eq!(assemble_payload(&frags).unwrap().len(), 300);
}

#[test]
fn fragments_are_cut_at_128_bytes() {
    let m: Vec<u8> = (0..300u32).map(|i| (i % 7) as u8).collect();
    let frags = disassemble_payload(&m);
    assert_eq!(frags.len(), 3);
    assert_eq!(frags[0].length, 128);
    assert_eq!(frags[1].length, 128);
    assert_eq!(frags[2].length, 44);
    assert!(frags.iter().all(|f| f.total_n_fragments == 3 && f.data.len() == 128));
    assert_eq!(frags[2].data[44..], vec![0u8; 84][..]);
    assert_eq!(frags[1].fragment_index, 1);
    let empty = disassemble_payload(&vec![]);
    assert_eq!(empty.len(), 1);
    assert_eq!(empty[0].length, 0);
    assert_eq!(assemble_payload(&empty), Some(vec![]));
}

#[test]
fn message_wire_form_is_exact() {
    assert_eq!(encode_message(&MessageType::AckSubscribeClient { client_id: 9 }), vec![1, 9]);
    assert_eq!(encode_message(&MessageType::RequestFileList { client_id: 5 }), vec![2, 5]);
    assert_eq!(encode_message(&MessageType::ChunkRequest { client_id: 5, file_hash: 0x1234 }), vec![6, 5, 0x12, 0x34]);
    assert_eq!(
        encode_message(&MessageType::ChunkResponse { file_hash: 1, chunk_index: 2, n_chunks: 3, chunk_data: vec![9] }),
        vec![7, 0, 1, 0, 0, 0, 2, 0, 0, 0, 3, 0, 0, 0, 1, 9]
    );
    let peers = MessageType::ResponsePeerList {
        file_hash: 3,
        peers: vec![PeerInfo { client_id: 4, client_type: ClientType::Video }],
    };
    assert_eq!(encode_message(&peers), vec![5, 0, 3, 0, 0, 0, 1, 4, 1]);
    assert!(decode_message(&vec![1, 9, 0]).is_none());
    assert!(decode_message(&vec![8, 0]).is_none());
    assert!(decode_message(&vec![5, 0, 3, 0, 0, 0, 1, 4, 2]).is_none());
    match decode_message(&vec![4, 6, 0, 10]).unwrap() {
        MessageType::RequestPeerList { client_id, file_hash } => {
            assert_eq!(client_id, 6);
            assert_eq!(file_hash, 10);
        }
        other => panic!("unexpected message {other:?}"),
    }
}

#[test]
fn video_is_cut_into_chunks() {
    let v: Vec<u8> = (0..(2 * CHUNK_SIZE + 5)).map(|i| (i % 256) as u8).collect();
    let chunks = video_chunks(&v);
    assert_eq!(chunks.len(), 3);
    assert_eq!(chunks[0].len(), CHUNK_SIZE);
    assert_eq!(chunks[2], v[2 * CHUNK_SIZE..].to_vec());
    assert_eq!(chunks.concat(), v);
    assert!(video_chunks(&vec![]).is_empty());
}

#[test]
fn remove_unknown_sender_changes_nothing() {
    let (mut c, _e) = client(5);
    let _rx1 = neighbour(&mut c, 1);
    assert_eq!(c.command_dispatcher(DroneCommand::RemoveSender(3)), CommandOutcome::UnknownSender);
    assert_eq!(c.senders.len(), 1);
    assert_eq!(c.senders[0].id, 1);
    assert_eq!(c.flood_id, 0);
    assert!(c.packets_history.is_empty());
    assert_eq!(c.command_dispatcher(DroneCommand::RemoveSender(1)), CommandOutcome::SenderRemoved);
    assert!(c.senders.is_empty());
}

#[test]
fn commands_drive_neighbours_and_termination() {
    let (mut c, _e) = client(5);
    let (tx, rx) = unbounded();
    assert_eq!(c.command_dispatcher(DroneCommand::AddSender(2, tx)), CommandOutcome::SenderAdded);
    let flood: Vec<Packet> = rx.try_iter().collect();
    assert_eq!(flood.len(), 1);
    match &flood[0].pack_type {
        PacketType::FloodRequest(r) => {
            assert_eq!(r.flood_id, 1);
            assert_eq!(r.initiator_id, 5);
            assert_eq!(r.path_trace, vec![(5, NodeType::Client)]);
        }
        other => panic!("unexpected packet {other:?}"),
    }
    assert!(flood[0].routing_header.hops.is_empty());
    assert_eq!(c.command_dispatcher(DroneCommand::SetPacketDropRate), CommandOutcome::Ignored);
    assert_eq!(c.command_dispatcher(DroneCommand::Crash), CommandOutcome::Terminated);
    assert!(c.is_terminated());
    assert_eq!(c.fsm.name(), "Terminated");
}

#[test]
fn reflood_window_is_strict() {
    assert!(reflood_is_due(None, 0));
    assert!(!reflood_is_due(Some(1_000), 6_000));
    assert!(reflood_is_due(Some(1_000), 6_001));
    assert!(!reflood_is_due(Some(9_000), 1_000));
}

#[test]
fn file_list_subscribes_and_records_videos() {
    let (mut c, _e) = client(5);
    c.fsm = FsmStatus::NotSubscribedToServer;
    let d = c.handle_messages(MessageType::ResponseFileList { server_id: 7, file_list: vec![video(11, "a"), video(12, "b")] });
    assert_eq!(c.fsm, FsmStatus::SubscribedToServer);
    assert_eq!(c.servers.len(), 1);
    assert_eq!(c.servers[0].videos, vec![11, 12]);
    match d {
        Delivery::FileList(s, l) => {
            assert_eq!(s, 7);
            assert_eq!(l.len(), 2);
        }
        other => panic!("unexpected delivery {other:?}"),
    }
}

#[test]
fn ack_subscribe_moves_to_subscribed_only_for_this_client() {
    let (mut c, _e) = client(5);
    c.handle_messages(MessageType::AckSubscribeClient { client_id: 6 });
    assert_eq!(c.fsm, FsmStatus::ServerNotFound);
    c.handle_messages(MessageType::AckSubscribeClient { client_id: 5 });
    assert_eq!(c.fsm, FsmStatus::SubscribedToServer);
}

#[test]
fn chunk_request_is_handed_to_the_store() {
    let (mut c, _e) = client(5);
    match c.handle_messages(MessageType::ChunkRequest { client_id: 8, file_hash: 99 }) {
        Delivery::ChunkRequested(to, h) => {
            assert_eq!(to, 8);
            assert_eq!(h, 99);
        }
        other => panic!("unexpected delivery {other:?}"),
    }
}

#[test]
fn descriptor_digest_is_exact_and_ignores_the_id() {
    let m = VideoMetaData {
        id: 0,
        title: b"a".to_vec(),
        description: vec![],
        duration: 5,
        mime_type: b"video/mp4".to_vec(),
        created_at: b"x".to_vec(),
    };
    assert_eq!(client_video::message::compact_hash_u16(&m), 19218);
    let mut other = m.clone();
    other.id = 300;
    assert_eq!(client_video::message::compact_hash_u16(&other), 19218);
    other.duration = 6;
    assert_ne!(client_video::message::compact_hash_u16(&other), 19218);
}

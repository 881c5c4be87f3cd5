use crossbeam::channel::{unbounded, Receiver};

use client_video::client::{DroneEvent, ClientState, FloodReply, SendError};
use client_video::codec::assemble_payload;
use client_video::message::{decode_message, ClientType, MessageType, PeerInfo};
use client_video::network::{NodeType, SourceRoutingHeader};
use client_video::packet::{Fragment, Packet, PacketType};

fn client(id: u8) -> (ClientState, Receiver<DroneEvent>) {
    let (tx, rx) = unbounded();
    (ClientState::new(id, ClientType::Video, tx), rx)
}

fn neighbour(c: &mut ClientState, id: u8) -> Receiver<Packet> {
    let (tx, rx) = unbounded();
    c.add_sender(id, tx);
    rx
}

fn message_on(rx: &Receiver<Packet>) -> MessageType {
    let frags: Vec<Fragment> = rx
        .try_iter()
        .filter_map(|p| match p.pack_type {
            PacketType::MsgFragment(f) => Some(f),
            _ => None,
        })
        .collect();
    decode_message(&assemble_payload(&frags).unwrap()).unwrap()
}

fn linked(c: &mut ClientState) {
    c.routing_handler.update_graph(&vec![(5, NodeType::Client), (1, NodeType::Drone), (7, NodeType::Server)]);
}

#[test]
fn no_route_to_unknown_destination() {
    let (mut c, _e) = client(5);
    let msg = MessageType::RequestFileList { client_id: 5 };
    assert_eq!(c.send_msg(7, &msg), Err(SendError::NoRoute(7)));
    assert_eq!(c.send_msg(5, &msg), Err(SendError::NoRoute(5)));
    assert_eq!(c.session_counter, 0);
}

#[test]
fn next_hop_must_be_a_neighbour() {
    let (mut c, _e) = client(5);
    linked(&mut c);
    let msg = MessageType::RequestFileList { client_id: 5 };
    assert_eq!(c.send_msg(7, &msg), Err(SendError::UnknownNeighbour(1)));
    let f = client_video::codec::disassemble_payload(&vec![1]).remove(0);
    let p = Packet {
        pack_type: PacketType::MsgFragment(f),
        routing_header: SourceRoutingHeader::new(vec![5, 4], 1),
        session_id: 1,
    };
    assert_eq!(c.send_packet(4, p), Err(SendError::UnknownNeighbour(4)));
    assert!(c.packets_history.is_empty());
}

#[test]
fn closed_neighbour_channel_surfaces() {
    let (mut c, _e) = client(5);
    linked(&mut c);
    let rx = neighbour(&mut c, 1);
    drop(rx);
    let msg = MessageType::RequestFileList { client_id: 5 };
    assert_eq!(c.send_msg(7, &msg), Err(SendError::Disconnected));
    assert!(c.packets_history.is_empty());
}

#[test]
fn closed_controller_channel_surfaces_after_delivery() {
    let (tx, rx) = unbounded();
    let mut c = ClientState::new(5, ClientType::Video, tx);
    drop(rx);
    let _n = neighbour(&mut c, 1);
    let f = client_video::codec::disassemble_payload(&vec![1]).remove(0);
    let p = Packet {
        pack_type: PacketType::MsgFragment(f),
        routing_header: SourceRoutingHeader::new(vec![5, 1], 1),
        session_id: 3,
    };
    assert_eq!(c.send_packet(1, p), Err(SendError::ControllerDisconnected));
    assert_eq!(c.packets_history.len(), 1);
}

#[test]
fn sessions_can_run_out() {
    let (mut c, _e) = client(5);
    linked(&mut c);
    let _rx = neighbour(&mut c, 1);
    c.session_counter = u64::MAX;
    let msg = MessageType::RequestFileList { client_id: 5 };
    assert_eq!(c.send_msg(7, &msg), Err(SendError::SessionsExhausted));
}

#[test]
fn file_list_request_needs_a_server() {
    let (mut c, _e) = client(5);
    assert_eq!(c.send_req_file_list(), Err(SendError::NoServers));
    linked(&mut c);
    let rx = neighbour(&mut c, 1);
    c.record_server_videos(7, vec![]);
    assert_eq!(c.send_req_file_list(), Ok(vec![Ok(())]));
    match message_on(&rx) {
        MessageType::RequestFileList { client_id } => assert_eq!(client_id, 5),
        other => panic!("unexpected message {other:?}"),
    }
}

#[test]
fn peer_list_request_needs_a_server_listing_the_video() {
    let (mut c, _e) = client(5);
    linked(&mut c);
    let rx = neighbour(&mut c, 1);
    c.record_server_videos(7, vec![3, 4]);
    assert_eq!(c.send_req_peer_list(9), Err(SendError::VideoNotListed(9)));
    assert_eq!(c.send_req_peer_list(4), Ok(()));
    match message_on(&rx) {
        MessageType::RequestPeerList { client_id, file_hash } => {
            assert_eq!(client_id, 5);
            assert_eq!(file_hash, 4);
        }
        other => panic!("unexpected message {other:?}"),
    }
}

#[test]
fn empty_peer_list_surfaces() {
    let (mut c, _e) = client(5);
    assert_eq!(c.handle_peer_list_res(4, &vec![]), Err(SendError::NoPeers));
}

#[test]
fn peer_list_asks_the_first_peer_for_all_chunks() {
    let (mut c, _e) = client(5);
    c.routing_handler.update_graph(&vec![(5, NodeType::Client), (1, NodeType::Drone), (8, NodeType::Client)]);
    let rx = neighbour(&mut c, 1);
    let peers = vec![
        PeerInfo { client_id: 8, client_type: ClientType::Video },
        PeerInfo { client_id: 9, client_type: ClientType::Video },
    ];
    assert_eq!(c.handle_peer_list_res(4, &peers), Ok(()));
    match message_on(&rx) {
        MessageType::ChunkRequest { client_id, file_hash } => {
            assert_eq!(client_id, 5);
            assert_eq!(file_hash, 4);
        }
        other => panic!("unexpected message {other:?}"),
    }
}

#[test]
fn ack_needs_a_route_back() {
    let (mut c, _e) = client(5);
    let p = Packet {
        pack_type: PacketType::MsgFragment(client_video::codec::disassemble_payload(&vec![1]).remove(0)),
        routing_header: SourceRoutingHeader::new(vec![5], 0),
        session_id: 3,
    };
    assert_eq!(c.send_ack(&p), Err(SendError::RouteTooShort));
    let q = Packet {
        pack_type: PacketType::MsgFragment(client_video::codec::disassemble_payload(&vec![1]).remove(0)),
        routing_header: SourceRoutingHeader::new(vec![9, 2, 5], 2),
        session_id: 3,
    };
    assert_eq!(c.send_ack(&q), Err(SendError::UnknownNeighbour(2)));
}

#[test]
fn flood_response_goes_direct_when_it_can() {
    let (mut c, events) = client(5);
    let rx3 = neighbour(&mut c, 3);
    let req = client_video::packet::FloodRequest {
        flood_id: 2,
        initiator_id: 9,
        path_trace: vec![(9, NodeType::Client), (3, NodeType::Drone)],
    };
    assert_eq!(c.handle_flood_req(&req), Ok(FloodReply::Direct));
    let sent: Vec<Packet> = rx3.try_iter().collect();
    assert_eq!(sent.len(), 1);
    assert_eq!(sent[0].routing_header.hops, vec![5, 3, 9]);
    let got: Vec<DroneEvent> = events.try_iter().collect();
    assert!(matches!(&got[0], DroneEvent::PacketSent(_)));
}

#[test]
fn serving_sends_every_chunk_in_order() {
    let (mut c, _e) = client(5);
    c.routing_handler.update_graph(&vec![(5, NodeType::Client), (1, NodeType::Drone), (8, NodeType::Client)]);
    let rx = neighbour(&mut c, 1);
    let content: Vec<u8> = (0..2500u32).map(|i| (i % 256) as u8).collect();
    assert_eq!(c.serve_chunks(8, 12, &content), Ok(vec![Ok(()), Ok(()), Ok(())]));
    let packets: Vec<Packet> = rx.try_iter().collect();
    let mut by_session: std::collections::BTreeMap<u64, Vec<Fragment>> = std::collections::BTreeMap::new();
    for p in packets {
        if let PacketType::MsgFragment(f) = p.pack_type {
            by_session.entry(p.session_id).or_default().push(f);
        }
    }
    assert_eq!(by_session.len(), 3);
    let mut joined = Vec::new();
    for (i, frags) in by_session.values().enumerate() {
        match decode_message(&assemble_payload(frags).unwrap()).unwrap() {
            MessageType::ChunkResponse { file_hash, chunk_index, n_chunks, chunk_data } => {
                assert_eq!(file_hash, 12);
                assert_eq!(chunk_index as usize, i);
                assert_eq!(n_chunks, 3);
                joined.extend(chunk_data);
            }
            other => panic!("unexpected message {other:?}"),
        }
    }
    assert_eq!(joined, content);
}

#[test]
fn file_list_request_reports_each_server() {
    let (mut c, _e) = client(5);
    linked(&mut c);
    let _rx = neighbour(&mut c, 1);
    c.record_server_videos(7, vec![]);
    c.record_server_videos(8, vec![]);
    assert_eq!(
        c.send_req_file_list(),
        Ok(vec![Ok(()), Err(SendError::NoRoute(8))])
    );
}

#[test]
fn serving_to_an_unknown_peer_reports_every_chunk() {
    let (mut c, _e) = client(5);
    let content = vec![1u8; 1500];
    assert_eq!(
        c.serve_chunks(8, 12, &content),
        Ok(vec![Err(SendError::NoRoute(8)), Err(SendError::NoRoute(8))])
    );
    assert!(c.packets_history.is_empty());
}

#[test]
fn discovered_server_gets_a_subscription() {
    let (mut c, _e) = client(5);
    let rx = neighbour(&mut c, 1);
    let res = client_video::packet::FloodResponse {
        flood_id: 1,
        path_trace: vec![(5, NodeType::Client), (1, NodeType::Drone), (7, NodeType::Server)],
    };
    let (added, subs) = c.handle_flood_res(&res);
    assert_eq!(added, vec![7]);
    assert_eq!(subs, vec![Ok(())]);
    match message_on(&rx) {
        MessageType::SubscribeClient { client_id, .. } => assert_eq!(client_id, 5),
        other => panic!("unexpected message {other:?}"),
    }
    let (again, _) = c.handle_flood_res(&res);
    assert!(again.is_empty());
    assert_eq!(c.servers.len(), 1);
}

#[test]
fn flood_response_without_neighbour_takes_the_shortcut() {
    let (mut c, events) = client(5);
    let (dest, packet) = ClientState::build_flood_response(
        &client_video::packet::FloodRequest { flood_id: 1, initiator_id: 9, path_trace: vec![(9, NodeType::Client), (3, NodeType::Drone)] },
        5,
    );
    assert_eq!(dest, Some(3));
    assert_eq!(c.send_flood_response(dest, packet), Ok(FloodReply::Shortcut));
    assert!(matches!(events.try_iter().next(), Some(DroneEvent::ControllerShortcut(_))));
}

#[test]
fn inbound_fragment_is_acknowledged_with_its_index() {
    let (mut c, _e) = client(5);
    let rx = neighbour(&mut c, 1);
    let f = client_video::codec::disassemble_payload(&vec![1, 2, 3, 4]).remove(0);
    let mut f2 = f.clone();
    f2.total_n_fragments = 2;
    f2.fragment_index = 1;
    let p = Packet {
        pack_type: PacketType::MsgFragment(f2.clone()),
        routing_header: SourceRoutingHeader::new(vec![9, 1, 5], 2),
        session_id: 42,
    };
    let (d, ack) = c.handle_fragment(&p, f2, 42);
    assert!(matches!(d, client_video::client::Delivery::Nothing));
    assert_eq!(ack, Ok(()));
    let got: Vec<Packet> = rx.try_iter().collect();
    assert_eq!(got.len(), 1);
    assert!(matches!(got[0].pack_type, PacketType::Ack(a) if a.fragment_index == 1));
    assert_eq!(got[0].session_id, 42);
    assert_eq!(got[0].routing_header.hops, vec![5, 1, 9]);
}

#[test]
fn controller_event_goes_out() {
    let (mut c, events) = client(5);
    let f = client_video::codec::disassemble_payload(&vec![1]).remove(0);
    let p = Packet { pack_type: PacketType::MsgFragment(f), routing_header: SourceRoutingHeader::new(vec![5, 1], 1), session_id: 2 };
    assert_eq!(c.send_sc_packet(DroneEvent::ControllerShortcut(p)), Ok(()));
    assert!(matches!(events.try_iter().next(), Some(DroneEvent::ControllerShortcut(q)) if q.session_id == 2));
}

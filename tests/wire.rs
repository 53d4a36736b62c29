use bittorrent::client::{Client, PeerState};
use bittorrent::message::{parse_message, serialize_message, Message, MessageId, PeerError};
use bittorrent::p2p::{block_requests, check_intergrity, PieceDownload, BLOCK_SIZE};
use bittorrent::tracker::Peer;
use bittorrent::utility::{hash, peer_id_from_seed, PeerId};

fn handshake_reply(info_hash: &[u8], peer_id: &[u8]) -> Vec<u8> {
    let mut v = vec![19u8];
    v.extend_from_slice(b"BitTorrent protocol");
    v.extend_from_slice(&[0u8; 8]);
    v.extend_from_slice(info_hash);
    v.extend_from_slice(peer_id);
    v
}

fn ready_client(piece_count: u32) -> Client {
    let ih = vec![1u8; 20];
    let mut c = Client::new(&ih, &vec![2u8; 20], Peer::new(0x7f000001, 6881), piece_count);
    c.on_handshake(&handshake_reply(&ih, &[3u8; 20])).unwrap();
    c
}

#[test]
fn handshake_bytes_and_match() {
    let ih = vec![0xabu8; 20];
    let id = vec![b'x'; 20];
    let mut c = Client::new(&ih, &id, Peer::new(1, 2), 8);
    let hs = c.handshake();
    assert_eq!(hs.len(), 68);
    assert_eq!(hs, handshake_reply(&ih, &id));
    assert_eq!(c.state, PeerState::New);
    assert_eq!(c.on_handshake(&handshake_reply(&ih, &[7u8; 20])), Ok(()));
    assert_eq!(c.state, PeerState::Handshook);
    assert_eq!(c.remote_peer_id, Some(vec![7u8; 20]));
}

#[test]
fn handshake_mismatch_closes() {
    let ih = vec![0xabu8; 20];
    let mut c = Client::new(&ih, &vec![b'x'; 20], Peer::new(1, 2), 8);
    assert_eq!(c.on_handshake(&handshake_reply(&[0xcdu8; 20], &[7u8; 20])), Err(PeerError::HandshakeMismatch));
    assert_eq!(c.state, PeerState::Closed);
    let mut short = Client::new(&ih, &vec![b'x'; 20], Peer::new(1, 2), 8);
    assert_eq!(short.on_handshake(&vec![19u8, 1, 2]), Err(PeerError::Protocol));
}

#[test]
fn framing() {
    assert_eq!(serialize_message(MessageId::Interested, None), vec![0, 0, 0, 1, 2]);
    assert_eq!(serialize_message(MessageId::Have, Some(vec![0, 0, 1, 2])), vec![0, 0, 0, 5, 4, 0, 0, 1, 2]);
    assert_eq!(serialize_message(MessageId::Bitfield, Some(vec![0xff])), vec![0, 0, 0, 2, 5, 0xff]);
}

#[test]
fn parsing_messages() {
    assert!(matches!(parse_message(&vec![]), Ok(Message::KeepAlive)));
    assert!(matches!(parse_message(&vec![1]), Ok(Message::Unchoke)));
    assert!(matches!(parse_message(&vec![4, 0, 0, 1, 2]), Ok(Message::Have(258))));
    assert!(matches!(parse_message(&vec![6, 0, 0, 0, 1, 0, 0, 0x40, 0, 0, 0, 0x40, 0]), Ok(Message::Request(1, 16384, 16384))));
    match parse_message(&vec![7, 0, 0, 0, 3, 0, 0, 0, 0, 9, 8]) {
        Ok(Message::Piece(3, 0, block)) => assert_eq!(block, vec![9, 8]),
        _ => panic!("expected a piece"),
    }
    assert!(matches!(parse_message(&vec![20, 1]), Ok(Message::Unknown(20))));
    assert_eq!(parse_message(&vec![4, 0, 0]).err(), Some(PeerError::Protocol));
    assert_eq!(parse_message(&vec![7, 0, 0]).err(), Some(PeerError::Protocol));
    assert_eq!(parse_message(&vec![7u8; 131073]).err(), Some(PeerError::Protocol));
}

#[test]
fn session_state_machine() {
    let mut c = ready_client(16);
    assert!(c.receive_message(&vec![5, 0b1010_0000, 0x01]).is_ok());
    assert_eq!(c.state, PeerState::Ready);
    assert!(c.has_piece(0));
    assert!(!c.has_piece(1));
    assert!(c.has_piece(2));
    assert!(c.has_piece(15));
    assert!(!c.has_piece(16));
    assert_eq!(c.send_request(0, 0, 16384), None);
    assert_eq!(c.send_interested(), vec![0, 0, 0, 1, 2]);
    assert_eq!(c.state, PeerState::Interested);
    c.receive_message(&vec![1]).unwrap();
    assert_eq!(c.state, PeerState::Unchoked);
    assert!(!c.is_choked());
    let req = c.send_request(1, 16384, 16384).unwrap();
    assert_eq!(req, vec![0, 0, 0, 13, 6, 0, 0, 0, 1, 0, 0, 0x40, 0, 0, 0, 0x40, 0]);
    c.receive_message(&vec![0]).unwrap();
    assert_eq!(c.state, PeerState::Interested);
    assert!(c.is_choked());
    c.receive_message(&vec![4, 0, 0, 0, 1]).unwrap();
    assert!(c.has_piece(1));
    assert_eq!(c.receive_message(&vec![4]).err(), Some(PeerError::Protocol));
    assert_eq!(c.state, PeerState::Closed);
}

#[test]
fn late_bitfield_is_ignored() {
    let mut c = ready_client(8);
    c.receive_message(&vec![2]).unwrap();
    assert_eq!(c.state, PeerState::Ready);
    c.receive_message(&vec![5, 0xff]).unwrap();
    assert!(!c.has_piece(0));
    assert_eq!(c.send_have(5), vec![0, 0, 0, 5, 4, 0, 0, 0, 5]);
}

#[test]
fn two_blocks_for_a_double_block_piece() {
    assert_eq!(block_requests(4, 32768), vec![(4, 0, 16384), (4, 16384, 16384)]);
    assert_eq!(block_requests(4, 16385), vec![(4, 0, 16384), (4, 16384, 1)]);
    assert_eq!(block_requests(4, 0), vec![]);
    assert_eq!(BLOCK_SIZE, 16384);
}

#[test]
fn pipelined_download() {
    let data: Vec<u8> = (0..32768u32).map(|i| ((i * 7) % 256) as u8).collect();
    let mut d = PieceDownload::new(9, 32768);
    assert_eq!(d.next_request(), Some((9, 0, 16384)));
    assert_eq!(d.next_request(), Some((9, 16384, 16384)));
    assert_eq!(d.next_request(), None);
    assert!(!d.on_block(8, 0, &data[..16384].to_vec()));
    assert!(d.on_block(9, 16384, &data[16384..].to_vec()));
    assert!(!d.is_complete());
    assert!(!d.on_block(9, 16384, &data[16384..].to_vec()));
    assert!(d.on_block(9, 0, &data[..16384].to_vec()));
    assert!(d.is_complete());
    assert_eq!(d.buffer, data);
    assert_eq!(hash(d.buffer.clone()), hash(data));
}

#[test]
fn pipeline_depth_is_five() {
    let mut d = PieceDownload::new(0, 16384 * 7);
    for k in 0..5u32 {
        assert_eq!(d.next_request(), Some((0, k * 16384, 16384)));
    }
    assert_eq!(d.next_request(), None);
    assert!(d.on_block(0, 0, &vec![0u8; 16384]));
    assert_eq!(d.next_request(), Some((0, 5 * 16384, 16384)));
}

#[test]
fn peer_id_is_chosen_once() {
    let mut p = PeerId::new();
    let a = p.value();
    let b = p.value();
    assert_eq!(a, b);
    assert_eq!(a.len(), 20);
    assert_eq!(&a[..8], b"-tr0100-");
    assert_eq!(peer_id_from_seed(1234567890123456), b"-tr0100-567890123456".to_vec());
    let _ = check_intergrity;
}

#[test]
fn unchoke_before_interest() {
    let mut c = ready_client(4);
    c.receive_message(&vec![1]).unwrap();
    assert_eq!(c.state, PeerState::Ready);
    assert!(!c.is_choked());
    c.send_interested();
    assert_eq!(c.state, PeerState::Unchoked);
    assert!(c.send_request(0, 0, 16384).is_some());
    c.receive_message(&vec![0]).unwrap();
    assert_eq!(c.send_request(0, 0, 16384), None);
    assert!(matches!(c.receive_message(&vec![]), Ok(Message::KeepAlive)));
}

use bittorrent::bencoding::{decode_all, BType};
use bittorrent::tracker::{
    build_announce_req, build_connect_req, create_tracker_query, http_response, parse_announce_resp,
    parse_connect_resp, parse_ipv4, parse_peers_string, parse_tracker_response, retry_timeout, tracker_transport,
    transport_for_scheme, AnnounceEvent, Peer, TrackerError, Transport, UdpSession,
};

fn cat(parts: &[&[u8]]) -> Vec<u8> {
    let mut v = Vec::new();
    for p in parts {
        v.extend_from_slice(p);
    }
    v
}

#[test]
fn compact_peers() {
    let peers = parse_peers_string(&[127, 0, 0, 1, 0x1a, 0xe1, 10, 0, 0, 2, 0, 80]).unwrap();
    assert_eq!(peers, vec![Peer::new(0x7f000001, 6881), Peer::new(0x0a000002, 80)]);
    assert_eq!(peers[0].get_ip(), 0x7f000001);
    assert_eq!(peers[1].get_port(), 80);
    assert!(matches!(parse_peers_string(&[1, 2, 3, 4, 5]), Err(TrackerError::Protocol)));
    assert_eq!(parse_peers_string(&[]).unwrap(), vec![]);
}

#[test]
fn http_tracker_response() {
    let body = cat(&[b"d8:completei5e10:incompletei3e8:intervali1800e5:peers6:", &[127, 0, 0, 1, 0x1a, 0xe1], b"e"]);
    let r = http_response(200, &body).unwrap();
    assert_eq!((r.interval, r.complete, r.incomplete), (1800, 5, 3));
    assert_eq!(r.get_peer_list(), vec![Peer::new(0x7f000001, 6881)]);
    assert!(matches!(http_response(404, &body), Err(TrackerError::HttpStatus(404))));
    assert!(matches!(http_response(200, &b"i1e".to_vec()), Err(TrackerError::Protocol)));
}

#[test]
fn tracker_failure_reason() {
    let d = match decode_all(&b"d14:failure reason9:not founde".to_vec()).unwrap() {
        BType::BDict(d) => d,
        _ => panic!("not a dictionary"),
    };
    match parse_tracker_response(&d) {
        Err(TrackerError::Failure(text)) => assert_eq!(text, b"not found".to_vec()),
        _ => panic!("expected a failure"),
    }
    let missing = match decode_all(&b"d5:peers0:e".to_vec()).unwrap() {
        BType::BDict(d) => d,
        _ => panic!("not a dictionary"),
    };
    assert!(matches!(parse_tracker_response(&missing), Err(TrackerError::Protocol)));
}

#[test]
fn udp_connect() {
    let req = build_connect_req(0x01020304);
    assert_eq!(req, vec![0, 0, 4, 0x17, 0x27, 0x10, 0x19, 0x80, 0, 0, 0, 0, 1, 2, 3, 4]);
    let resp = vec![0, 0, 0, 0, 1, 2, 3, 4, 0, 0, 0, 0, 0, 0, 0x12, 0x34];
    assert_eq!(parse_connect_resp(&resp, 0x01020304).unwrap(), 0x1234);
    assert!(matches!(parse_connect_resp(&resp, 5), Err(TrackerError::Protocol)));
    assert!(matches!(parse_connect_resp(&resp[..15], 0x01020304), Err(TrackerError::Protocol)));
    let mut wrong_action = resp.clone();
    wrong_action[3] = 1;
    assert!(matches!(parse_connect_resp(&wrong_action, 0x01020304), Err(TrackerError::Protocol)));
}

#[test]
fn udp_announce() {
    let req = build_announce_req(7, 9, &vec![1u8; 20], &vec![2u8; 20], 10, 20, 30, Some(AnnounceEvent::Started), 0xaabbccdd, 6882);
    assert_eq!(req.len(), 98);
    assert_eq!(&req[0..8], &[0, 0, 0, 0, 0, 0, 0, 7]);
    assert_eq!(&req[8..16], &[0, 0, 0, 1, 0, 0, 0, 9]);
    assert_eq!(&req[56..64], &[0, 0, 0, 0, 0, 0, 0, 10]);
    assert_eq!(&req[80..84], &[0, 0, 0, 2]);
    assert_eq!(&req[88..92], &[0xaa, 0xbb, 0xcc, 0xdd]);
    assert_eq!(&req[92..98], &[0xff, 0xff, 0xff, 0xff, 0x1a, 0xe2]);
    let resp = vec![0, 0, 0, 1, 0, 0, 0, 9, 0, 0, 7, 8, 0, 0, 0, 2, 0, 0, 0, 3, 10, 0, 0, 1, 0, 80];
    let r = parse_announce_resp(&resp, 9).unwrap();
    assert_eq!((r.interval, r.incomplete, r.complete), (1800, 2, 3));
    assert_eq!(r.peer_list, vec![Peer::new(0x0a000001, 80)]);
    assert!(matches!(parse_announce_resp(&resp[..19], 9), Err(TrackerError::Protocol)));
    assert!(matches!(parse_announce_resp(&resp[..25], 9), Err(TrackerError::Protocol)));
}

#[test]
fn connection_id_is_reused() {
    let mut s = UdpSession::new();
    assert_eq!(s.connection_id(100), None);
    s.on_connected(42, 100);
    assert_eq!(s.connection_id(100), Some(42));
    assert_eq!(s.connection_id(130), Some(42));
    assert_eq!(s.connection_id(159), Some(42));
    assert_eq!(s.connection_id(160), None);
}

#[test]
fn retry_schedule() {
    assert_eq!(retry_timeout(0), Some(15));
    assert_eq!(retry_timeout(3), Some(120));
    assert_eq!(retry_timeout(8), Some(3840));
    assert_eq!(retry_timeout(9), None);
}

#[test]
fn transports() {
    assert_eq!(transport_for_scheme(b"https"), Some(Transport::Http));
    assert_eq!(transport_for_scheme(b"udp"), Some(Transport::Udp));
    assert_eq!(transport_for_scheme(b"ftp"), None);
    assert!(matches!(tracker_transport("http://t.example/announce"), Ok(Transport::Http)));
    assert!(matches!(tracker_transport("udp://t.example:80"), Ok(Transport::Udp)));
    assert!(matches!(tracker_transport("ftp://t.example/"), Err(TrackerError::Protocol)));
    assert!(matches!(tracker_transport("not a url"), Err(TrackerError::Protocol)));
}

#[test]
fn query_encodes_raw_bytes() {
    let ih: Vec<u8> = vec![0x12, 0x34, b'a', b' ', 0xff, b'~', b'*', 0, 0, 0, 0, 0, 0, 0, 0, 0, 0, 0, 0, 0];
    let q = create_tracker_query(&ih, &b"-tr0100-123456789012".to_vec(), 6882, 0, 5, -1, Some(AnnounceEvent::Completed));
    let text = String::from_utf8(q).unwrap();
    assert_eq!(
        text,
        "peer_id=-tr0100-123456789012&port=6882&uploaded=0&downloaded=5&left=-1&compact=1&event=completed\
         &info_hash=%124a%20%FF~%2A%00%00%00%00%00%00%00%00%00%00%00%00%00"
    );
    let q = create_tracker_query(&ih, &b"x".to_vec(), 1, 2, 3, 4, None);
    assert!(!String::from_utf8(q).unwrap().contains("event"));
}

#[test]
fn dotted_ipv4_text() {
    assert_eq!(parse_ipv4(b"127.0.0.1"), Some(0x7f000001));
    assert_eq!(parse_ipv4(b"255.255.255.255"), Some(u32::MAX));
    assert_eq!(parse_ipv4(b"0.0.0.0"), Some(0));
    assert_eq!(parse_ipv4(b"256.0.0.1"), None);
    assert_eq!(parse_ipv4(b"01.2.3.4"), None);
    assert_eq!(parse_ipv4(b"1.2.3"), None);
    assert_eq!(parse_ipv4(b"1.2.3.4."), None);
    assert_eq!(parse_ipv4(b"::1"), None);
    assert_eq!(parse_ipv4(b""), None);
}

#[test]
fn non_compact_peer_list() {
    let body = b"d8:intervali60e5:peersld2:ip8:10.0.0.17:peer id20:aaaaaaaaaaaaaaaaaaaa4:porti6881eed2:ip3:::14:porti1eed2:ip7:1.2.3.44:porti80eeee".to_vec();
    let r = http_response(200, &body).unwrap();
    assert_eq!(r.interval, 60);
    assert_eq!(r.peer_list, vec![Peer::new(0x0a000001, 6881), Peer::new(0x01020304, 80)]);
}

use bittorrent::bencoding::{decode_all, BDict, BType};
use bittorrent::file::write_piece;
use bittorrent::p2p::check_intergrity;
use bittorrent::torrent::{parse_torrent_data, MalformedMetainfo, PieceState, Torrent};
use bittorrent::utility::{encode_hex, generate_info_hash, hash};

fn cat(parts: &[&[u8]]) -> Vec<u8> {
    let mut v = Vec::new();
    for p in parts {
        v.extend_from_slice(p);
    }
    v
}

fn dict(bytes: &[u8]) -> BDict {
    match decode_all(&bytes.to_vec()).unwrap() {
        BType::BDict(d) => d,
        _ => panic!("not a dictionary"),
    }
}

fn unhex(s: &str) -> Vec<u8> {
    (0..s.len() / 2).map(|i| u8::from_str_radix(&s[2 * i..2 * i + 2], 16).unwrap()).collect()
}

fn single_info(pieces: &[u8], length: usize) -> Vec<u8> {
    cat(&[
        format!("d6:lengthi{}e4:name5:a.txt12:piece lengthi16384e6:pieces{}:", length, pieces.len()).as_bytes(),
        pieces,
        b"e",
    ])
}

fn single_meta(pieces: &[u8], length: usize) -> Vec<u8> {
    cat(&[b"d8:announce18:http://tracker/ann4:info", &single_info(pieces, length), b"e"])
}

fn multi_meta() -> Vec<u8> {
    let pieces: Vec<u8> = (0..80u8).collect();
    cat(&[
        b"d8:announce18:http://tracker/ann4:infod5:filesld6:lengthi10e4:pathl1:aeed6:lengthi20e4:pathl1:beee",
        b"4:name3:dir12:piece lengthi8e6:pieces80:",
        &pieces,
        b"ee",
    ])
}

fn hello_torrent() -> Torrent {
    let digest = hash(b"hello world!".to_vec());
    parse_torrent_data(&dict(&single_meta(&digest, 12))).unwrap()
}

#[test]
fn info_hash_of_info_slice() {
    let pieces: Vec<u8> = (0..20u8).collect();
    let meta = dict(&single_meta(&pieces, 12));
    let h = generate_info_hash(&meta).unwrap();
    assert_eq!(h.len(), 20);
    assert_eq!(encode_hex(&h), "1df51aef4c2a9826f437f98512c49719c4dfe0c7");
    assert_eq!(hash(single_info(&pieces, 12)), h);
}

#[test]
fn parse_single_file() {
    let pieces: Vec<u8> = (0..20u8).collect();
    let t = parse_torrent_data(&dict(&single_meta(&pieces, 12))).unwrap();
    assert_eq!(t.get_announce(), "http://tracker/ann");
    assert_eq!(t.get_length(), 12);
    assert_eq!(t.get_piece_length(), 16384);
    assert_eq!(t.piece_count(), 1);
    assert_eq!(t.get_piece_hash(0), &pieces);
    assert_eq!(t.piece_bytes(0), 12);
    match &t {
        Torrent::SingleFileTorrent(m) => assert_eq!(m.get_name(), "a.txt"),
        _ => panic!("expected one file"),
    }
}

#[test]
fn piece_count_is_ceiling() {
    let t = parse_torrent_data(&dict(&multi_meta())).unwrap();
    assert_eq!(t.get_length(), 30);
    assert_eq!(t.piece_count(), 4);
    assert_eq!(t.piece_bytes(3), 6);
    assert_eq!(t.piece_bytes(2), 8);
}

#[test]
fn piece_count_mismatch_is_malformed() {
    let pieces: Vec<u8> = (0..40u8).collect();
    assert_eq!(parse_torrent_data(&dict(&single_meta(&pieces, 12))).err(), Some(MalformedMetainfo::PieceCount));
}

#[test]
fn malformed_metainfo() {
    let no_announce = b"d4:infod6:lengthi1e4:name1:a12:piece lengthi1e6:pieces0:ee";
    assert_eq!(parse_torrent_data(&dict(no_announce)).err(), Some(MalformedMetainfo::Announce));
    let no_info = b"d8:announce1:ue";
    assert_eq!(parse_torrent_data(&dict(no_info)).err(), Some(MalformedMetainfo::Info));
    let bad_pieces = b"d8:announce1:u4:infod6:lengthi1e4:name1:a12:piece lengthi1e6:pieces3:abcee";
    assert_eq!(parse_torrent_data(&dict(bad_pieces)).err(), Some(MalformedMetainfo::Pieces));
    let zero_piece = b"d8:announce1:u4:infod6:lengthi1e4:name1:a12:piece lengthi0e6:pieces0:ee";
    assert_eq!(parse_torrent_data(&dict(zero_piece)).err(), Some(MalformedMetainfo::PieceLength));
    let neither = b"d8:announce1:u4:infod4:name1:a12:piece lengthi1e6:pieces0:ee";
    assert_eq!(parse_torrent_data(&dict(neither)).err(), Some(MalformedMetainfo::Layout));
    let both = b"d8:announce1:u4:infod5:filesle6:lengthi0e4:name1:a12:piece lengthi1e6:pieces0:ee";
    assert_eq!(parse_torrent_data(&dict(both)).err(), Some(MalformedMetainfo::Layout));
    let bad_file = b"d8:announce1:u4:infod5:filesld6:lengthi-1e4:pathl1:aeee4:name1:a12:piece lengthi1e6:pieces0:ee";
    assert_eq!(parse_torrent_data(&dict(bad_file)).err(), Some(MalformedMetainfo::FileEntry));
    let no_name = b"d8:announce1:u4:infod6:lengthi0e12:piece lengthi1e6:pieces0:ee";
    assert_eq!(parse_torrent_data(&dict(no_name)).err(), Some(MalformedMetainfo::Name));
}

#[test]
fn multi_file_mapping() {
    let t = parse_torrent_data(&dict(&multi_meta())).unwrap();
    let m = match &t {
        Torrent::MultiFileTorrent(m) => m,
        _ => panic!("expected several files"),
    };
    assert_eq!(m.get_name(), "dir");
    assert_eq!(m.info.files[1].get_start_index(), 1);
    assert_eq!(m.info.files[1].get_end_index(), 3);
    assert_eq!(m.info.files[0].get_end_index(), 1);
    assert_eq!(m.info.files[1].get_path(), vec![String::from("b")]);
    assert_eq!(m.get_files(1), vec![0, 1]);
    assert_eq!(m.get_files(3), vec![1]);

    let piece0: Vec<u8> = (0..8u8).collect();
    let w = write_piece(&piece0, 0, &t);
    assert_eq!(w.len(), 1);
    assert_eq!((w[0].file_index, w[0].offset), (0, 0));
    assert_eq!(w[0].data, piece0);
    assert_eq!(w[0].path, vec![String::from("dir"), String::from("a")]);

    let piece1: Vec<u8> = (8..16u8).collect();
    let w = write_piece(&piece1, 1, &t);
    assert_eq!(w.len(), 2);
    assert_eq!((w[0].file_index, w[0].offset, w[0].data.clone()), (0, 8, vec![8, 9]));
    assert_eq!((w[1].file_index, w[1].offset, w[1].data.clone()), (1, 0, vec![10, 11, 12, 13, 14, 15]));

    let piece3: Vec<u8> = (24..30u8).collect();
    let w = write_piece(&piece3, 3, &t);
    assert_eq!(w.len(), 1);
    assert_eq!((w[0].file_index, w[0].offset, w[0].data.clone()), (1, 14, piece3.clone()));
    assert_eq!(w[0].path, vec![String::from("dir"), String::from("b")]);
}

#[test]
fn single_file_write_at_piece_offset() {
    let t = hello_torrent();
    let w = write_piece(&b"hello world!".to_vec(), 0, &t);
    assert_eq!(w.len(), 1);
    assert_eq!(w[0].offset, 0);
    assert_eq!(w[0].path, vec![String::from("a.txt")]);
}

#[test]
fn verified_piece_is_held_and_counted() {
    let mut t = hello_torrent();
    assert_eq!(t.get_piece(0), 0);
    assert!(!t.is_completed());
    assert!(t.set_piece(0, &b"hello world!".to_vec()));
    assert_eq!(t.get_piece(0), 1);
    assert_eq!(t.verified_bytes(), 12);
    assert!(t.is_completed());
    assert_eq!(t.generate_piece_index(), None);
}

#[test]
fn mismatched_piece_goes_back_to_missing() {
    let mut t = hello_torrent();
    assert_eq!(t.assign_piece(7, &vec![true], 0), Some(0));
    assert_eq!(t.piece_state(0), PieceState::InFlight(7));
    assert!(!t.set_piece(0, &b"hello world?".to_vec()));
    assert_eq!(t.piece_state(0), PieceState::Missing);
    assert_eq!(t.verified_bytes(), 0);
    assert!(!t.set_piece(0, &b"hello".to_vec()));
}

#[test]
fn integrity_check() {
    let t = hello_torrent();
    assert!(check_intergrity(&t, 0, b"hello world!".to_vec()));
    assert!(!check_intergrity(&t, 0, b"hello world".to_vec()));
}

#[test]
fn pieces_in_flight_are_not_reassigned() {
    let mut t = parse_torrent_data(&dict(&multi_meta())).unwrap();
    let all = vec![true; 4];
    assert_eq!(t.assign_piece(1, &all, 2), Some(2));
    assert_eq!(t.assign_piece(2, &all, 2), Some(3));
    assert_eq!(t.assign_piece(3, &all, 2), Some(0));
    assert_eq!(t.assign_piece(4, &all, 2), Some(1));
    assert_eq!(t.assign_piece(5, &all, 2), None);
    assert_eq!(t.piece_state(2), PieceState::InFlight(1));
    t.release_peer(1);
    assert_eq!(t.piece_state(2), PieceState::Missing);
    assert_eq!(t.piece_state(3), PieceState::InFlight(2));
    t.release_piece(3);
    assert_eq!(t.piece_state(3), PieceState::Missing);
    assert_eq!(t.assign_piece(6, &vec![false, false, false, true], 0), Some(3));
}

#[test]
fn assignment_follows_bitfield() {
    let mut t = parse_torrent_data(&dict(&multi_meta())).unwrap();
    assert_eq!(t.assign_piece(1, &vec![false, false, true], 0), Some(2));
    assert_eq!(t.assign_piece(1, &vec![false, false, true], 0), None);
    assert_eq!(t.assign_piece(1, &vec![], 0), None);
}

#[test]
fn random_choice_skips_held_pieces() {
    let t = parse_torrent_data(&dict(&multi_meta())).unwrap();
    assert_eq!(t.pick_unfinished(5), Some(1));
    let mut t = t;
    assert_eq!(t.assign_piece(9, &vec![true; 4], 1), Some(1));
    assert_eq!(t.pick_unfinished(5), Some(2));
    let i = t.generate_piece_index().unwrap();
    assert!(i < 4);
}

#[test]
fn hex_digest_text() {
    assert_eq!(encode_hex(&[0xde, 0xad, 0x00, 0x0f]), "dead000f");
    assert_eq!(encode_hex(&hash(b"hello world!".to_vec())), "430ce34d020724ed75a196dfc2ad67c77772d169");
    assert_eq!(hash(b"hello world!".to_vec()), unhex("430ce34d020724ed75a196dfc2ad67c77772d169"));
}

#[test]
fn writes_carry_whole_pieces() {
    let t = parse_torrent_data(&dict(&multi_meta())).unwrap();
    let mut written = 0u64;
    for i in 0..t.piece_count() as u32 {
        let size = t.piece_bytes(i) as usize;
        let piece = vec![i as u8; size];
        let w = write_piece(&piece, i, &t);
        let sum: usize = w.iter().map(|x| x.data.len()).sum();
        assert_eq!(sum, size);
        written += sum as u64;
    }
    assert_eq!(written, t.get_length() as u64);
}

#[test]
fn in_flight_piece_is_not_chosen() {
    let mut t = hello_torrent();
    assert_eq!(t.assign_piece(1, &vec![true], 0), Some(0));
    assert_eq!(t.generate_piece_index(), None);
    assert_eq!(t.pick_unfinished(0), None);
}

#[test]
fn empty_file_holds_no_piece() {
    let pieces: Vec<u8> = (0..40u8).collect();
    let meta = cat(&[
        b"d8:announce1:u4:infod5:filesld6:lengthi8e4:pathl1:aeed6:lengthi0e4:pathl1:eeed6:lengthi8e4:pathl1:beee",
        b"4:name1:n12:piece lengthi8e6:pieces40:",
        &pieces,
        b"ee",
    ]);
    let t = parse_torrent_data(&dict(&meta)).unwrap();
    let m = match &t {
        Torrent::MultiFileTorrent(m) => m,
        _ => panic!("expected several files"),
    };
    assert_eq!(m.get_files(1), vec![2]);
    assert_eq!(m.get_files(0), vec![0]);
    let w = write_piece(&vec![7u8; 8], 1, &t);
    assert_eq!(w.len(), 1);
    assert_eq!((w[0].file_index, w[0].offset, w[0].file_length), (2, 0, 8));
}

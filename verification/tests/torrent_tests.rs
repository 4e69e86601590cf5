use rbt::bencode::types::{BencodeDecoder, BencodeItem, Pair};
use rbt::outcome::Overrun;
use rbt::torrent::format::{
    get_bin_by_key, get_by_key, get_list_by_key, get_num_by_key, get_owned_str_by_key,
    get_pair_by_key, get_str_by_key,
};
use rbt::torrent::peer::{piece_payload, piece_request, ReplyError};
use rbt::torrent::query::form_query;
use rbt::torrent::tracker::ResponseFault;
use rbt::torrent::types::{Peer, PeerAddr, PeerMsg, Torrent, TorrentFile, Tracker};
use sha1::{Digest, Sha1};

const INFO: &[u8] = b"d6:lengthi100e4:name5:a.txt12:piece lengthi16e6:pieces20:ABCDEFGHIJKLMNOPQRSTe";

fn metainfo(info: &[u8]) -> Vec<u8> {
    let mut bytes = b"d8:announce15:http://t.org/an13:announce-listll15:http://t.org/anel3:udpee4:info".to_vec();
    bytes.extend_from_slice(info);
    bytes.push(b'e');
    bytes
}

fn sample_torrent() -> Torrent {
    let root = BencodeDecoder::decode(&metainfo(INFO)).unwrap();
    Torrent::new(&root).unwrap()
}

fn sample_tracker() -> Tracker {
    Tracker::new(sample_torrent(), reqwest::Client::new())
}

fn sample_pair() -> Pair {
    vec![
        (String::from("n"), BencodeItem::Num(7)),
        (String::from("b"), BencodeItem::Bin(b"bytes".to_vec())),
        (String::from("s"), BencodeItem::Str(String::from("text"))),
        (String::from("l"), BencodeItem::List(vec![BencodeItem::Num(1)])),
        (String::from("p"), BencodeItem::Pair(vec![(String::from("q"), BencodeItem::Num(2))])),
        (String::from("n"), BencodeItem::Num(8)),
        (String::from("x"), BencodeItem::Bin(vec![0xff])),
    ]
}

#[test]
fn keys_are_looked_up_first_match() {
    let pair = sample_pair();
    assert_eq!(Some(&BencodeItem::Num(7)), get_by_key("n", &pair));
    assert_eq!(None, get_by_key("missing", &pair));
    assert_eq!(Some(&7), get_num_by_key("n", &pair));
    assert_eq!(None, get_num_by_key("b", &pair));
    assert_eq!(Some(&b"bytes".to_vec()), get_bin_by_key("b", &pair));
    assert_eq!(None, get_bin_by_key("s", &pair));
    assert_eq!(Some("text"), get_str_by_key("s", &pair).as_deref());
    assert_eq!(Some("bytes"), get_str_by_key("b", &pair).as_deref());
    assert_eq!(None, get_str_by_key("x", &pair));
    assert_eq!(None, get_str_by_key("n", &pair));
    assert_eq!(Some(&vec![BencodeItem::Num(1)]), get_list_by_key("l", &pair));
    assert_eq!(None, get_list_by_key("p", &pair));
    assert_eq!(Some(&vec![(String::from("q"), BencodeItem::Num(2))]), get_pair_by_key("p", &pair));
    assert_eq!(None, get_pair_by_key("l", &pair));
    assert_eq!(Some(String::from("bytes")), get_owned_str_by_key("b", &pair));
    assert_eq!(None, get_owned_str_by_key("x", &pair));
}

#[test]
fn torrent_file_new() {
    let f = TorrentFile::new(String::from("dir/f"), 12);
    assert_eq!("dir/f", f.path);
    assert_eq!(12, f.size);
}

#[test]
fn torrent_reads_a_single_file_metainfo() {
    let t = sample_torrent();
    assert_eq!("http://t.org/an", t.announce);
    assert_eq!(
        vec![vec![String::from("http://t.org/an")], vec![String::from("udp")]],
        t.announce_list
    );
    assert_eq!(1, t.files.len());
    assert_eq!("a.txt", t.files[0].path);
    assert_eq!(100, t.files[0].size);
    assert_eq!(vec![*b"ABCDEFGHIJKLMNOPQRST"], t.pieces);
    assert_eq!(16, t.piece_size);
    let digest: [u8; 20] = Sha1::digest(INFO).into();
    assert_eq!(digest, t.info_hash);
    assert_ne!(&INFO[..20], &t.info_hash[..]);
}

#[test]
fn torrent_reads_a_multi_file_metainfo() {
    let info = b"d5:filesld6:lengthi5e4:pathl1:a1:beed6:lengthi7e4:pathl1:ceee4:name1:d12:piece lengthi8e6:pieces40:0123456789012345678901234567890123456789e";
    let root = BencodeDecoder::decode(&metainfo(info)).unwrap();
    let t = Torrent::new(&root).unwrap();
    assert_eq!(2, t.files.len());
    assert_eq!("a", t.files[0].path);
    assert_eq!(5, t.files[0].size);
    assert_eq!("c", t.files[1].path);
    assert_eq!(7, t.files[1].size);
    assert_eq!(2, t.pieces.len());
    assert_eq!(*b"01234567890123456789", t.pieces[0]);
    assert_eq!(*b"01234567890123456789", t.pieces[1]);
}

#[test]
fn torrent_refuses_missing_parts() {
    assert!(Torrent::new(&BencodeItem::Num(1)).is_none());
    let root = BencodeDecoder::decode(b"d8:announce1:ae").unwrap();
    assert!(Torrent::new(&root).is_none());
    let info = b"d4:name1:a12:piece lengthi16e6:pieces0:e";
    let root = BencodeDecoder::decode(&metainfo(info)).unwrap();
    assert!(Torrent::new(&root).is_none());
}

#[test]
fn torrent_try_new_tells_a_bad_pieces_length() {
    let info = b"d6:lengthi1e4:name1:a12:piece lengthi16e6:pieces3:abce";
    let root = BencodeDecoder::decode(&metainfo(info)).unwrap();
    assert!(matches!(Torrent::try_new(&root), Err(Overrun)));
    let root = BencodeDecoder::decode(&metainfo(INFO)).unwrap();
    assert!(matches!(Torrent::try_new(&root), Ok(Some(_))));
}

#[test]
fn messages_have_their_wire_bytes() {
    assert_eq!(&[0u8, 0, 0, 0][..], PeerMsg::new_keep_alive().as_ref());
    assert_eq!(&[0u8, 0, 0, 1, 0][..], PeerMsg::new_choke().as_ref());
    assert_eq!(&[0u8, 0, 0, 1, 1][..], PeerMsg::new_unchoke().as_ref());
    assert_eq!(&[0u8, 0, 0, 1, 2][..], PeerMsg::new_interested().as_ref());
    assert_eq!(&[0u8, 0, 0, 1, 3][..], PeerMsg::new_not_interested().as_ref());
    assert_eq!(&[0u8, 0, 0, 5, 4, 0, 0, 1, 2][..], PeerMsg::new_have(258).as_ref());
    assert_eq!(
        &[0u8, 0, 0, 13, 6, 0, 0, 0, 1, 0, 0, 0, 6, 0, 0, 0, 1][..],
        PeerMsg::new_request(1, 2, 3).as_ref()
    );
}

#[test]
fn request_offset_wraps() {
    let m = PeerMsg::new_request(0, 65536, 65536);
    assert_eq!(&[0u8, 0, 0, 0][..], &m.as_ref()[9..13]);
}

#[test]
fn handshake_bytes() {
    let tracker = sample_tracker();
    let m = PeerMsg::new_handshake(&tracker);
    let bytes = m.as_ref();
    assert_eq!(68, bytes.len());
    assert_eq!(19, bytes[0]);
    assert_eq!(b"BitTorrent protocol", &bytes[1..20]);
    assert_eq!(&[0u8; 8][..], &bytes[20..28]);
    assert_eq!(&tracker.torrent.info_hash[..], &bytes[28..48]);
    assert_eq!(&tracker.peer_id[..], &bytes[48..68]);
}

#[test]
fn messages_are_read_back() {
    assert!(matches!(PeerMsg::try_parse(&[0, 0, 0, 0]), Some(PeerMsg::KeepAlive(_))));
    assert!(matches!(PeerMsg::try_parse(&[0, 0, 0, 1, 0]), Some(PeerMsg::Choke(_))));
    assert!(matches!(PeerMsg::try_parse(&[0, 0, 0, 1, 1]), Some(PeerMsg::Unchoke(_))));
    assert!(matches!(PeerMsg::try_parse(&[0, 0, 0, 1, 2]), Some(PeerMsg::Interested(_))));
    assert!(matches!(PeerMsg::try_parse(&[0, 0, 0, 1, 3]), Some(PeerMsg::NotInterested(_))));
    assert!(PeerMsg::try_parse(&[0, 0, 0, 1, 9]).is_none());
    assert!(PeerMsg::try_parse(&[0, 0, 0]).is_none());
    match PeerMsg::try_parse(&[0, 0, 0, 4, 4, 0, 0, 1, 2]) {
        Some(PeerMsg::Have(bytes)) => assert_eq!(vec![0u8, 0, 0, 5, 4, 0, 0, 1, 2], bytes),
        _ => panic!("a have message was read"),
    }
    assert!(PeerMsg::try_parse(PeerMsg::new_have(1).as_ref()).is_none());
}

#[test]
fn reading_tells_overruns() {
    assert!(matches!(PeerMsg::try_parse_checked(&[0, 0, 0, 1]), Err(Overrun)));
    assert!(matches!(PeerMsg::try_parse_checked(&[0, 0, 0, 4, 4, 0]), Err(Overrun)));
    let tracker = sample_tracker();
    let hs = PeerMsg::new_handshake(&tracker);
    assert!(matches!(PeerMsg::try_parse_checked(hs.as_ref()), Err(Overrun)));
    let mut longer = hs.as_ref().to_vec();
    longer.push(7);
    match PeerMsg::try_parse_checked(&longer) {
        Ok(Some(PeerMsg::Handshake(bytes))) => assert_eq!(longer, bytes),
        _ => panic!("a handshake was read"),
    }
}

#[test]
fn peer_reply_sets_the_choked_state() {
    let addr = PeerAddr { ip: [1, 2, 3, 4], port: 6881 };
    let mut peer = Peer::new(30, addr);
    assert!(peer.choked);
    assert_eq!(30, peer.timeout);
    assert_eq!(addr, peer.addr);
    assert!(peer.bitfield.is_none());
    assert_eq!(Ok(()), peer.read_reply(&[0, 0, 0, 1, 1]));
    assert!(!peer.choked);
    assert_eq!(Err(ReplyError::Choked), peer.read_reply(&[0, 0, 0, 1, 1, 0, 0, 0, 1, 0]));
    assert!(peer.choked);
    assert_eq!(Err(ReplyError::Choked), peer.read_reply(&[]));
    assert_eq!(Err(ReplyError::Unsupported), peer.read_reply(&[0, 0, 0, 1, 2]));
    assert_eq!(Err(ReplyError::Malformed), peer.read_reply(&[0, 0, 0, 1, 9]));
    assert_eq!(Err(ReplyError::Malformed), peer.read_reply(&[0, 0]));
}

#[test]
fn tracker_starts_fresh() {
    let tracker = sample_tracker();
    assert_eq!(0, tracker.downloaded);
    assert!(tracker.interval.is_none());
    assert!(tracker.error.is_none());
    assert_eq!(100, tracker.torrent.files[0].size);
}

#[test]
fn tracker_params() {
    let mut tracker = sample_tracker();
    tracker.downloaded = 40;
    let params = tracker.get_tracker_params(6881);
    assert_eq!(6, params.len());
    assert_eq!(("info_hash", tracker.torrent.info_hash.to_vec()), params[0]);
    assert_eq!(("peer_id", tracker.peer_id.to_vec()), params[1]);
    assert_eq!(("uploaded", b"0".to_vec()), params[2]);
    assert_eq!(("downloaded", b"40".to_vec()), params[3]);
    assert_eq!(("port", b"6881".to_vec()), params[4]);
    assert_eq!(("left", b"60".to_vec()), params[5]);
}

#[test]
fn tracker_response_gives_peers() {
    let mut tracker = sample_tracker();
    let body = b"d8:intervali900e5:peers12:\x7f\x00\x00\x01\x1a\xe1\x0a\x00\x00\x02\x00\x50e";
    let peers = tracker.on_response(body).unwrap();
    assert_eq!(Some(900), tracker.interval);
    assert!(tracker.error.is_none());
    assert_eq!(2, peers.len());
    assert_eq!(PeerAddr { ip: [127, 0, 0, 1], port: 6881 }, peers[0].addr);
    assert_eq!(PeerAddr { ip: [10, 0, 0, 2], port: 80 }, peers[1].addr);
    assert_eq!(900, peers[0].timeout);
    assert!(peers[1].choked);
}

#[test]
fn tracker_response_prefers_min_interval() {
    let mut tracker = sample_tracker();
    let peers = tracker.on_response(b"d8:intervali900e12:min intervali60e5:peers0:e").unwrap();
    assert!(peers.is_empty());
    assert_eq!(Some(60), tracker.interval);
}

#[test]
fn tracker_response_faults() {
    let mut tracker = sample_tracker();
    assert_eq!(Err(ResponseFault::Undecodable), tracker.on_response(b"x").map(|_| ()));
    assert_eq!(Err(ResponseFault::NotDictionary), tracker.on_response(b"i1e").map(|_| ()));
    assert_eq!(
        Err(ResponseFault::NoPeers),
        tracker.on_response(b"d14:failure reason5:nope!e").map(|_| ())
    );
    assert_eq!("nope!", tracker.error.as_ref().unwrap().text);
    assert!(tracker.interval.is_none());
    assert_eq!(
        Err(ResponseFault::BadPeerList),
        tracker.on_response(b"d8:intervali1e5:peers5:abcdee").map(|_| ())
    );
    assert_eq!(
        Err(ResponseFault::NoInterval),
        tracker.on_response(b"d5:peers6:abcdefe").map(|_| ())
    );
}

#[test]
fn left_is_defined_while_something_is_left() {
    let mut tracker = sample_tracker();
    assert!(tracker.left_is_defined());
    tracker.downloaded = 99;
    assert!(tracker.left_is_defined());
    tracker.downloaded = 100;
    assert!(!tracker.left_is_defined());
    tracker.downloaded = 0;
    tracker.torrent.files.push(TorrentFile::new(String::from("neg"), -1));
    assert!(!tracker.left_is_defined());
}

#[test]
fn form_query_encodes_names_and_values() {
    let params: Vec<(&'static str, Vec<u8>)> =
        vec![("a b", vec![0x00, b'*', b'~', 0xff]), ("x", b"Az09-._".to_vec()), ("e", vec![])];
    assert_eq!("a+b=%00*%7E%FF&x=Az09-._&e=", form_query(&params));
    assert_eq!("", form_query(&vec![]));
}

#[test]
fn announce_query_holds_the_encoded_parameters() {
    let mut tracker = sample_tracker();
    tracker.downloaded = 40;
    let query = tracker.announce_query(6881);
    let encode = |b: &[u8]| form_urlencoded::byte_serialize(b).collect::<String>();
    let expected = format!(
        "info_hash={}&peer_id={}&uploaded=0&downloaded=40&port=6881&left=60",
        encode(&tracker.torrent.info_hash),
        encode(&tracker.peer_id)
    );
    assert_eq!(expected, query);
    let url = reqwest::Url::parse_with_params("http://t.org/an", &[("k", "v w&x")]).unwrap();
    let same = form_query(&vec![("k", b"v w&x".to_vec())]);
    assert_eq!(Some(same.as_str()), url.query());
}

#[test]
fn piece_request_and_payload() {
    assert_eq!(
        &[0u8, 0, 0, 13, 6, 0, 0, 0, 2, 0, 0, 2, 0, 0, 0, 0, 2][..],
        piece_request(2, 16).as_ref()
    );
    let answer: Vec<u8> = (0u8..20).collect();
    assert_eq!(vec![14u8, 15, 16, 17, 18, 19], piece_payload(&answer));
    assert_eq!(Vec::<u8>::new(), piece_payload(&answer[..14]));
}

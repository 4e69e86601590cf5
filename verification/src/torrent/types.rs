//! The client's data: a torrent's metainfo, peers, wire messages, the
//! tracker's state.
use vstd::prelude::*;

verus! {

pub type Sha1Hash = [u8; 20];

#[derive(Debug, Clone)]
pub struct TorrentFile {
    pub path: String,
    pub size: i64,
}

#[derive(Debug, Clone)]
pub struct Torrent {
    pub announce: String,
    pub announce_list: Vec<Vec<String>>,
    pub files: Vec<TorrentFile>,
    pub pieces: Vec<Sha1Hash>,
    pub piece_size: i64,
    pub info_hash: Sha1Hash,
}

/// The model of a torrent's metainfo.
pub struct TorrentModel {
    pub announce: Seq<char>,
    pub announce_list: Seq<Seq<Seq<char>>>,
    /// The path and the size of each file.
    pub files: Seq<(Seq<char>, int)>,
    pub pieces: Seq<Seq<u8>>,
    pub piece_size: int,
    pub info_hash: Seq<u8>,
}

/// The texts of a list of lists of strings.
pub open spec fn tiers_view(v: Seq<Vec<String>>) -> Seq<Seq<Seq<char>>> {
    Seq::new(v.len(), |i: int| strings_view(v[i]@))
}

pub open spec fn strings_view(v: Seq<String>) -> Seq<Seq<char>> {
    Seq::new(v.len(), |j: int| v[j]@)
}

pub open spec fn files_view(v: Seq<TorrentFile>) -> Seq<(Seq<char>, int)> {
    Seq::new(v.len(), |i: int| (v[i].path@, v[i].size as int))
}

pub open spec fn hashes_view(v: Seq<Sha1Hash>) -> Seq<Seq<u8>> {
    Seq::new(v.len(), |i: int| v[i]@)
}

impl View for Torrent {
    type V = TorrentModel;

    open spec fn view(&self) -> TorrentModel {
        TorrentModel {
            announce: self.announce@,
            announce_list: tiers_view(self.announce_list@),
            files: files_view(self.files@),
            pieces: hashes_view(self.pieces@),
            piece_size: self.piece_size as int,
            info_hash: self.info_hash@,
        }
    }
}

#[derive(Debug, Clone)]
pub enum PeerStatus {
    AmChoking,
    AmIntereseted,
    PeerChoking,
    PeerInterested,
}

/// A message of the peer wire protocol, with its bytes as sent.
pub enum PeerMsg {
    KeepAlive(Vec<u8>),
    Have(Vec<u8>),
    Choke(Vec<u8>),
    Unchoke(Vec<u8>),
    Request(Vec<u8>),
    BitField(Vec<u8>),
    Handshake(Vec<u8>),
    Interested(Vec<u8>),
    NotInterested(Vec<u8>),
}

/// The kinds of peer wire messages.
pub enum MsgKind {
    KeepAlive,
    Have,
    Choke,
    Unchoke,
    Request,
    BitField,
    Handshake,
    Interested,
    NotInterested,
}

impl View for PeerMsg {
    type V = (MsgKind, Seq<u8>);

    open spec fn view(&self) -> (MsgKind, Seq<u8>) {
        match self {
            PeerMsg::KeepAlive(x) => (MsgKind::KeepAlive, x@),
            PeerMsg::Have(x) => (MsgKind::Have, x@),
            PeerMsg::Choke(x) => (MsgKind::Choke, x@),
            PeerMsg::Unchoke(x) => (MsgKind::Unchoke, x@),
            PeerMsg::Request(x) => (MsgKind::Request, x@),
            PeerMsg::BitField(x) => (MsgKind::BitField, x@),
            PeerMsg::Handshake(x) => (MsgKind::Handshake, x@),
            PeerMsg::Interested(x) => (MsgKind::Interested, x@),
            PeerMsg::NotInterested(x) => (MsgKind::NotInterested, x@),
        }
    }
}

/// The IPv4 address and port of a peer.
#[derive(Debug, Clone, Copy, PartialEq, Eq)]
pub struct PeerAddr {
    pub ip: [u8; 4],
    pub port: u16,
}

#[derive(Debug, Clone)]
pub struct Peer {
    pub choked: bool,
    pub timeout: u32,
    //pub have: Vec<u32>,
    pub bitfield: Option<Vec<u8>>,
    pub addr: PeerAddr,
}

#[derive(Debug)]
pub struct TrackerError {
    pub text: String,
}

#[derive(Debug)]
pub struct TrackerResponse<'a> {
    pub peers: &'a Option<Vec<Peer>>,
    pub interval: &'a Option<u32>,
    pub error: &'a Option<TrackerError>,
}

#[verifier::external_type_specification]
#[verifier::external_body]
pub struct ExClient(reqwest::Client);

#[derive(Debug)]
pub struct Tracker {
    pub downloaded: usize,
    pub peer_id: [u8; 20],
    pub client: reqwest::Client,
    pub torrent: Torrent,
    // set after request is sent
    //pub peers: Vec<Peer>,
    pub interval: Option<u32>,
    pub error: Option<TrackerError>,
}

} // verus!

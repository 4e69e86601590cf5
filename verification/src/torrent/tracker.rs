//! The tracker: the state that the client keeps of it, the parameters of an
//! announce, and what a response does to the state.
use rand::Rng;
use vstd::prelude::*;
use vstd::utf8::{decode_utf8, encode_utf8};
use crate::bencode::decode::decode_any_spec;
use crate::bencode::encode::entries_view;
use crate::bencode::types::{BencodeDecoder, BencodeItem, Bencoded, Pair, TryAsRef};
use crate::decimal::{decimal, decimal_string, integer_text, lemma_integer_text_decimal};
use crate::outcome::Outcome;
use crate::torrent::format::{get_bin_by_key, get_num_by_key, get_owned_str_by_key, lookup, text_by_key};
use crate::torrent::query::{form_query, params_view, query_text};
use crate::torrent::types::{Peer, PeerAddr, Torrent, TorrentFile, Tracker, TrackerError};

verus! {

/// A peer id of 20 random bytes (`rand::rng()` and `Rng::fill`). Trusted to
/// return; the bytes are random, so nothing is stated of them.
#[verifier::external_body]
fn gen_peer_id() -> [u8; 20] {
    let mut id = [0u8; 20];
    let mut rng = rand::rng();
    rng.fill(&mut id);
    id
}

/// The sum of the sizes of the files.
pub open spec fn total_size(files: Seq<TorrentFile>) -> int
    decreases files.len(),
{
    if files.len() == 0 {
        0
    } else {
        total_size(files.drop_last()) + files.last().size
    }
}

/// The total size of no files is 0, and one more file adds its size.
pub proof fn lemma_total_size_push(files: Seq<TorrentFile>, f: TorrentFile)
    ensures
        total_size(Seq::<TorrentFile>::empty()) == 0,
        total_size(files.push(f)) == total_size(files) + f.size,
{
    assert(files.push(f).drop_last() =~= files);
}

/// The total size of two runs of files is the sum of their total sizes.
pub proof fn lemma_total_size_append(a: Seq<TorrentFile>, b: Seq<TorrentFile>)
    ensures
        total_size(a + b) == total_size(a) + total_size(b),
    decreases b.len(),
{
    if b.len() == 0 {
        assert(a + b =~= a);
    } else {
        lemma_total_size_append(a, b.drop_last());
        assert((a + b).drop_last() =~= a + b.drop_last());
        lemma_total_size_push(a + b.drop_last(), b.last());
    }
}

/// The total size is the sum of the sizes of the files, one by one: each
/// file's size counts once.
pub proof fn lemma_total_size_each(files: Seq<TorrentFile>, i: int)
    requires
        0 <= i < files.len(),
    ensures
        total_size(files) == total_size(files.subrange(0, i)) + files[i].size + total_size(
            files.subrange(i + 1, files.len() as int),
        ),
{
    let a = files.subrange(0, i);
    let c = files.subrange(i + 1, files.len() as int);
    assert(files =~= a.push(files[i]) + c);
    lemma_total_size_append(a.push(files[i]), c);
    lemma_total_size_push(a, files[i]);
}

/// Every size is at least 0, and the sizes add up to at most `usize::MAX`
/// and to more than what was downloaded: what `get_how_much_left` needs.
pub open spec fn left_defined(t: Tracker) -> bool {
    &&& forall|i: int| 0 <= i < t.torrent.files@.len() ==> #[trigger] t.torrent.files@[i].size >= 0
    &&& total_size(t.torrent.files@) <= usize::MAX
    &&& total_size(t.torrent.files@) > t.downloaded
}

/// The interval of a response: `min interval` where it is an integer, else
/// `interval`, taken as a `u32`; nothing without an integer `interval`.
pub open spec fn interval_spec(p: Seq<(Seq<char>, Bencoded)>) -> Option<u32> {
    match lookup(p, "interval"@) {
        Some(Bencoded::Num(n)) => match lookup(p, "min interval"@) {
            Some(Bencoded::Num(m)) => Some(m as u32),
            _ => Some(n as u32),
        },
        _ => None,
    }
}

/// The peer at `6 * k` in a compact peer list: four bytes of IPv4 address,
/// then the port, most significant byte first.
pub open spec fn peer_addr_at(b: Seq<u8>, k: int) -> PeerAddr {
    PeerAddr {
        ip: [b[6 * k], b[6 * k + 1], b[6 * k + 2], b[6 * k + 3]],
        port: (b[6 * k + 4] as int * 256 + b[6 * k + 5] as int) as u16,
    }
}

/// The six bytes of a peer address in a compact peer list: the four bytes
/// of the IPv4 address, then the port, most significant byte first.
pub open spec fn compact_peer(a: PeerAddr) -> Seq<u8> {
    a.ip@ + seq![(a.port / 256) as u8, (a.port % 256) as u8]
}

/// Reading the peer at `6 * k` gives back the six bytes it was read from.
pub proof fn lemma_peer_addr_bytes(b: Seq<u8>, k: int)
    requires
        0 <= k,
        6 * k + 6 <= b.len(),
    ensures
        compact_peer(peer_addr_at(b, k)) == b.subrange(6 * k, 6 * k + 6),
{
    let a = peer_addr_at(b, k);
    let hi = b[6 * k + 4] as int;
    let lo = b[6 * k + 5] as int;
    assert(a.port as int == hi * 256 + lo);
    assert((hi * 256 + lo) / 256 == hi && (hi * 256 + lo) % 256 == lo) by (nonlinear_arith)
        requires
            0 <= hi < 256,
            0 <= lo < 256,
    ;
    assert(compact_peer(a) =~= b.subrange(6 * k, 6 * k + 6));
}

/// `v` holds a fresh peer for each six bytes of `b`, in order, each with the
/// timeout `timeout`.
pub open spec fn peers_from(v: Seq<Peer>, b: Seq<u8>, timeout: u32) -> bool {
    &&& v.len() == b.len() / 6
    &&& forall|k: int|
        0 <= k < v.len() ==> {
            &&& (#[trigger] v[k]).addr == peer_addr_at(b, k)
            &&& v[k].timeout == timeout
            &&& v[k].choked
            &&& v[k].bitfield is None
        }
}

impl Tracker {
    fn get_how_much_left(&self) -> (r: String)
        requires
            left_defined(*self),
        ensures
            r@ == decode_utf8(decimal((total_size(self.torrent.files@) - self.downloaded) as nat)),
    {
        let mut total = 0usize;
        let mut i: usize = 0;
        while i < self.torrent.files.len()
            invariant
                i <= self.torrent.files@.len(),
                left_defined(*self),
                total == total_size(self.torrent.files@.subrange(0, i as int)),
            decreases self.torrent.files@.len() - i,
        {
            proof {
                let s = self.torrent.files@.subrange(0, i + 1);
                assert(s.drop_last() =~= self.torrent.files@.subrange(0, i as int));
                lemma_total_size_prefix(self.torrent.files@, i + 1);
            }
            let file = &self.torrent.files[i];
            total = total + file.size as usize;
            i = i + 1;
        }
        assert(self.torrent.files@.subrange(0, i as int) =~= self.torrent.files@);
        decimal_string((total - self.downloaded) as u64)
    }

    /// Whether the amount left to download is defined (`left_defined`):
    /// what must hold before the parameters of an announce are asked for.
    pub fn left_is_defined(&self) -> (r: bool)
        ensures
            r == left_defined(*self),
    {
        let mut total: usize = 0;
        let mut i: usize = 0;
        while i < self.torrent.files.len()
            invariant
                i <= self.torrent.files@.len(),
                forall|k: int| 0 <= k < i ==> #[trigger] self.torrent.files@[k].size >= 0,
                total == total_size(self.torrent.files@.subrange(0, i as int)),
            decreases self.torrent.files@.len() - i,
        {
            let size = self.torrent.files[i].size;
            proof {
                let s = self.torrent.files@.subrange(0, i + 1);
                assert(s.drop_last() =~= self.torrent.files@.subrange(0, i as int));
            }
            if size < 0 {
                return false;
            }
            if size as u64 > (usize::MAX - total) as u64 {
                proof {
                    if left_defined(*self) {
                        lemma_total_size_prefix(self.torrent.files@, i + 1);
                    }
                }
                return false;
            }
            total = total + size as usize;
            i = i + 1;
        }
        assert(self.torrent.files@.subrange(0, i as int) =~= self.torrent.files@);
        total > self.downloaded
    }

    fn get_how_much_uploaded(&self) -> (r: String)
        ensures
            r@ == "0"@,
    {
        "0".to_owned()
    }

    fn get_how_much_downloaded(&self) -> (r: String)
        ensures
            r@ == decode_utf8(decimal(self.downloaded as nat)),
    {
        decimal_string(self.downloaded as u64)
    }

    /// The parameters of an announce, the client listening on `port`: the
    /// info hash and the peer id as raw bytes, then the uploaded, downloaded,
    /// port and left counts in decimal.
    pub fn get_tracker_params(&self, port: u16) -> (r: Vec<(&'static str, Vec<u8>)>)
        requires
            left_defined(*self),
        ensures
            r@.len() == 6,
            r@[0].0@ == "info_hash"@ && r@[0].1@ == self.torrent.info_hash@,
            r@[1].0@ == "peer_id"@ && r@[1].1@ == self.peer_id@,
            r@[2].0@ == "uploaded"@ && r@[2].1@ == decimal(0),
            r@[3].0@ == "downloaded"@ && r@[3].1@ == decimal(self.downloaded as nat),
            r@[4].0@ == "port"@ && r@[4].1@ == decimal(port as nat),
            r@[5].0@ == "left"@ && r@[5].1@ == decimal(
                (total_size(self.torrent.files@) - self.downloaded) as nat,
            ),
    {
        let uploaded = self.get_how_much_uploaded();
        let downloaded = self.get_how_much_downloaded();
        let port_text = decimal_string(port as u64);
        let left = self.get_how_much_left();
        proof {
            crate::decimal::lemma_decimal_valid_utf8(self.downloaded as nat);
            crate::decimal::lemma_decimal_valid_utf8((total_size(self.torrent.files@) - self.downloaded) as nat);
            vstd::utf8::decode_utf8_encode_utf8(decimal(self.downloaded as nat));
            vstd::utf8::decode_utf8_encode_utf8(decimal(port as nat));
            vstd::utf8::decode_utf8_encode_utf8(
                decimal((total_size(self.torrent.files@) - self.downloaded) as nat),
            );
            reveal_strlit("0");
            assert(decimal(0) =~= seq![48u8]);
            assert(vstd::utf8::encode_utf8("0"@) =~= seq![48u8]) by {
                let z = "0"@;
                assert(z.len() == 1 && z[0] == '0');
                assert(z[0] as u32 == 48);
                assert((48u32 & 0x7Fu32) as u8 == 48u8) by (bit_vector);
                assert(z.drop_first() =~= Seq::<char>::empty());
                assert(vstd::utf8::encode_utf8(z.drop_first()) =~= Seq::<u8>::empty());
            }
        }
        vec![
            ("info_hash", vstd::slice::slice_to_vec(self.torrent.info_hash.as_slice())),
            ("peer_id", vstd::slice::slice_to_vec(self.peer_id.as_slice())),
            ("uploaded", vstd::slice::slice_to_vec(uploaded.as_str().as_bytes())),
            ("downloaded", vstd::slice::slice_to_vec(downloaded.as_str().as_bytes())),
            ("port", vstd::slice::slice_to_vec(port_text.as_str().as_bytes())),
            ("left", vstd::slice::slice_to_vec(left.as_str().as_bytes())),
        ]
    }
}

/// The parameters of an announce of `t`, the client listening on `port`,
/// names as UTF-8 bytes: as `get_tracker_params` gives them.
pub open spec fn announce_params(t: Tracker, port: u16) -> Seq<(Seq<u8>, Seq<u8>)> {
    seq![
        (encode_utf8("info_hash"@), t.torrent.info_hash@),
        (encode_utf8("peer_id"@), t.peer_id@),
        (encode_utf8("uploaded"@), decimal(0)),
        (encode_utf8("downloaded"@), decimal(t.downloaded as nat)),
        (encode_utf8("port"@), decimal(port as nat)),
        (encode_utf8("left"@), decimal((total_size(t.torrent.files@) - t.downloaded) as nat)),
    ]
}

/// The parameters of an announce read back: the info hash and the peer id
/// as they are, and the decimal texts of the uploaded count (0), the
/// downloaded count, the port and what is left (the total size of all the
/// files minus what was downloaded).
pub proof fn lemma_announce_params(t: Tracker, port: u16)
    requires
        left_defined(t),
    ensures
        ({
            let a = announce_params(t, port);
            &&& a.len() == 6
            &&& a[0].1 == t.torrent.info_hash@
            &&& a[1].1 == t.peer_id@
            &&& integer_text(a[2].1, false) == Some(0int)
            &&& integer_text(a[3].1, false) == Some(t.downloaded as int)
            &&& integer_text(a[4].1, false) == Some(port as int)
            &&& integer_text(a[5].1, false) == Some(total_size(t.torrent.files@) - t.downloaded)
        }),
{
    lemma_integer_text_decimal(0);
    lemma_integer_text_decimal(t.downloaded as nat);
    lemma_integer_text_decimal(port as nat);
    lemma_integer_text_decimal((total_size(t.torrent.files@) - t.downloaded) as nat);
}

impl Tracker {
    /// The query of an announce, the client listening on `port`: the
    /// parameters of `get_tracker_params`, form-urlencoded as a URL's query
    /// pairs are.
    pub fn announce_query(&self, port: u16) -> (r: String)
        requires
            left_defined(*self),
        ensures
            r@ == query_text(announce_params(*self, port)),
    {
        let params = self.get_tracker_params(port);
        assert(params_view(params@) =~= announce_params(*self, port));
        form_query(&params)
    }
}

proof fn lemma_total_size_prefix(files: Seq<TorrentFile>, k: int)
    requires
        0 <= k <= files.len(),
        forall|i: int| 0 <= i < files.len() ==> #[trigger] files[i].size >= 0,
    ensures
        0 <= total_size(files.subrange(0, k)) <= total_size(files),
    decreases files.len(),
{
    if k == files.len() {
        assert(files.subrange(0, k) =~= files);
        if files.len() > 0 {
            lemma_total_size_prefix(files.drop_last(), k - 1);
            assert(files.drop_last().subrange(0, k - 1) =~= files.drop_last());
        }
    } else {
        lemma_total_size_prefix(files.drop_last(), k);
        assert(files.drop_last().subrange(0, k) =~= files.subrange(0, k));
        assert(files.last().size >= 0);
    }
}

impl Tracker {
    pub fn new(torrent: Torrent, client: reqwest::Client) -> (r: Self)
        ensures
            r.downloaded == 0,
            r.torrent == torrent,
            r.client == client,
            r.interval is None,
            r.error is None,
    {
        Self {
            downloaded: 0,
            peer_id: gen_peer_id(),
            client: client,
            torrent: torrent,
            interval: None,
            error: None,
        }
    }
}

/// Why a tracker's response cannot be taken in.
#[derive(Debug, PartialEq, Eq)]
pub enum ResponseFault {
    /// The body is no bencoding that the decoder reads.
    Undecodable,
    /// The body is no dictionary.
    NotDictionary,
    /// The response has no byte string `peers`.
    NoPeers,
    /// The length of `peers` is no multiple of 6.
    BadPeerList,
    /// There are peers but no interval to give them as timeout.
    NoInterval,
}

/// `e` is the error of a response with this `failure reason`.
pub open spec fn error_is(e: Option<TrackerError>, reason: Option<Seq<char>>) -> bool {
    match reason {
        Some(t) => e matches Some(x) && x.text@ == t,
        None => e is None,
    }
}

impl Tracker {
    fn get_peers(&self, pair: &Pair) -> (r: Option<Vec<Peer>>)
        requires
            lookup(entries_view(pair@), "peers"@) matches Some(Bencoded::Bin(b)) ==> b.len() % 6
                == 0 && (b.len() > 0 ==> self.interval is Some),
        ensures
            match lookup(entries_view(pair@), "peers"@) {
                Some(Bencoded::Bin(b)) => r matches Some(v) && peers_from(v@, b, self.interval->0),
                _ => r is None,
            },
    {
        let mut peers: Vec<Peer> = vec![];
        let from = match get_bin_by_key("peers", pair) {
            Some(f) => f,
            None => return None,
        };
        let mut i: usize = 0;
        while i < from.len()
            invariant
                i % 6 == 0,
                i <= from@.len(),
                from@.len() % 6 == 0,
                from@.len() > 0 ==> self.interval is Some,
                peers@.len() == i / 6,
                forall|k: int|
                    0 <= k < peers@.len() ==> {
                        &&& (#[trigger] peers@[k]).addr == peer_addr_at(from@, k)
                        &&& peers@[k].timeout == self.interval->0
                        &&& peers@[k].choked
                        &&& peers@[k].bitfield is None
                    },
            decreases from@.len() - i,
        {
            assert(i + 6 <= from@.len()) by (nonlinear_arith)
                requires
                    i % 6 == 0,
                    from@.len() % 6 == 0,
                    i < from@.len(),
            ;
            let ipv4 = [from[i + 0], from[i + 1], from[i + 2], from[i + 3]];
            let a = from[i + 4];
            let b = from[i + 5];
            let port = (a as u16) << 8u16 | b as u16;
            assert((a as u16) << 8u16 | b as u16 == (a as int * 256 + b as int) as u16) by (bit_vector);
            let addr = PeerAddr { ip: ipv4, port: port };
            let ghost k: int = i as int / 6;
            assert(6 * k == i);
            assert(addr == peer_addr_at(from@, k));
            peers.push(Peer::new(self.interval.unwrap(), addr));
            i = i + 6;
        }
        Some(peers)
    }

    fn get_interval(&self, pair: &Pair) -> (r: Option<u32>)
        ensures
            r == interval_spec(entries_view(pair@)),
    {
        let mut max = match get_num_by_key("interval", pair) {
            Some(n) => *n,
            None => return None,
        };
        if let Some(min) = get_num_by_key("min interval", pair) {
            max = *min;
        }
        Some(max as u32)
    }

    fn get_error(&self, pair: &Pair) -> (r: Option<TrackerError>)
        ensures
            error_is(r, text_by_key(entries_view(pair@), "failure reason"@)),
    {
        let reason = get_owned_str_by_key("failure reason", pair);
        match reason {
            None => None,
            Some(x) => Some(TrackerError { text: x }),
        }
    }

    /// Takes in a tracker's response (`response` holds its body): a
    /// dictionary whose interval and failure reason are kept, and whose
    /// compact `peers` list gives the peers, each with the interval as its
    /// timeout.
    pub fn on_response(&mut self, response: &[u8]) -> (r: Result<Vec<Peer>, ResponseFault>)
        ensures
            final(self).downloaded == old(self).downloaded,
            final(self).peer_id == old(self).peer_id,
            final(self).torrent == old(self).torrent,
            final(self).client == old(self).client,
            match decode_any_spec(response@) {
                Outcome::Success(Bencoded::Pair(p)) => {
                    &&& final(self).interval == interval_spec(p)
                    &&& error_is(final(self).error, text_by_key(p, "failure reason"@))
                    &&& match lookup(p, "peers"@) {
                        Some(Bencoded::Bin(b)) => if b.len() % 6 != 0 {
                            r == Err::<Vec<Peer>, ResponseFault>(ResponseFault::BadPeerList)
                        } else if b.len() > 0 && interval_spec(p) is None {
                            r == Err::<Vec<Peer>, ResponseFault>(ResponseFault::NoInterval)
                        } else {
                            r matches Ok(v) && peers_from(v@, b, interval_spec(p)->0)
                        },
                        _ => r == Err::<Vec<Peer>, ResponseFault>(ResponseFault::NoPeers),
                    }
                },
                Outcome::Success(_) => {
                    &&& r == Err::<Vec<Peer>, ResponseFault>(ResponseFault::NotDictionary)
                    &&& final(self).interval == old(self).interval
                    &&& final(self).error == old(self).error
                },
                _ => {
                    &&& r == Err::<Vec<Peer>, ResponseFault>(ResponseFault::Undecodable)
                    &&& final(self).interval == old(self).interval
                    &&& final(self).error == old(self).error
                },
            },
    {
        let root = match BencodeDecoder::try_decode(response) {
            Ok(Some(root)) => root,
            _ => return Err(ResponseFault::Undecodable),
        };
        let pair: Option<&Pair> = root.try_as_ref();
        let pair = match pair {
            Some(p) => p,
            None => return Err(ResponseFault::NotDictionary),
        };
        proof {
            crate::bencode::encode::lemma_view_pair(*pair);
        }
        self.interval = self.get_interval(pair);
        self.error = self.get_error(pair);
        let peers = match get_bin_by_key("peers", pair) {
            None => return Err(ResponseFault::NoPeers),
            Some(from) => {
                if from.len() % 6 != 0 {
                    return Err(ResponseFault::BadPeerList);
                }
                if from.len() > 0 && self.interval.is_none() {
                    return Err(ResponseFault::NoInterval);
                }
                self.get_peers(pair)
            },
        };
        match peers {
            Some(p) => Ok(p),
            None => Err(ResponseFault::NoPeers),
        }
    }
}

} // verus!

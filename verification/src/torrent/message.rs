//! Peer wire messages: building them and reading them from bytes.
use vstd::prelude::*;
use crate::outcome::{Outcome, Overrun};
use crate::scan::bytes_eq;
use crate::torrent::types::{MsgKind, PeerMsg, Tracker};

verus! {

pub const PEER_MSG_CHOKE: u8 = 0;

pub const PEER_MSG_UNCHOKE: u8 = 1;

pub const PEER_MSG_INTERESTED: u8 = 2;

pub const PEER_MSG_NOT_INTERESTED: u8 = 3;

pub const PEER_MSG_HAVE: u8 = 4;

//const PEER_MSG_BITFIELD: u8 = 5;
pub const PEER_MSG_REQUEST: u8 = 6;

//const PEER_MSG_PIECE: u8 = 7;
//const PEER_MSG_CANCEL: u8 = 8;
//const PEER_MSG_PORT: u8 = 9;

/// The unsigned integer of four bytes, most significant first.
pub open spec fn be_u32(s: Seq<u8>) -> int {
    s[0] as int * 16777216 + s[1] as int * 65536 + s[2] as int * 256 + s[3] as int
}

/// The four bytes of `x`, most significant first (`u32::to_be_bytes`).
pub open spec fn be_bytes(x: u32) -> Seq<u8> {
    seq![
        (x / 16777216) as u8,
        ((x / 65536) % 256) as u8,
        ((x / 256) % 256) as u8,
        (x % 256) as u8,
    ]
}

/// `BitTorrent protocol`, the name that a handshake starts with.
pub open spec fn protocol_name() -> Seq<u8> {
    seq![
        66u8, 105u8, 116u8, 84u8, 111u8, 114u8, 114u8, 101u8, 110u8, 116u8, 32u8, 112u8,
        114u8, 111u8, 116u8, 111u8, 99u8, 111u8, 108u8,
    ]
}

/// A message of one byte after its length.
pub open spec fn short_message(id: u8) -> Seq<u8> {
    be_bytes(1) + seq![id]
}

pub open spec fn have_message(piece: u32) -> Seq<u8> {
    be_bytes(5) + seq![PEER_MSG_HAVE] + be_bytes(piece)
}

pub open spec fn request_message(index: u32, begin: u32, length: u32) -> Seq<u8> {
    be_bytes(13) + seq![PEER_MSG_REQUEST] + be_bytes(index) + be_bytes(
        ((begin as nat * length as nat) % 0x1_0000_0000) as u32,
    ) + be_bytes(index)
}

pub open spec fn handshake_message(info_hash: Seq<u8>, peer_id: Seq<u8>) -> Seq<u8> {
    seq![19u8] + protocol_name() + Seq::new(8, |i: int| 0u8) + info_hash + peer_id
}

/// What `try_parse` reads from `s`: the length in the first four bytes, then
/// the message id. A length of 1 takes choke, unchoke, interested and not
/// interested; `have` needs a length of 4 (and its piece index after the id);
/// any other id is read as a handshake (`19`, the protocol name, and 69 bytes
/// in all). Where the id, the piece index or the 69th byte of a handshake is
/// missing, the reading would index out of bounds: `Overrun`.
#[verifier::opaque]
pub open spec fn parse_msg_spec(s: Seq<u8>) -> Outcome<(MsgKind, Seq<u8>)> {
    if s.len() < 4 {
        Outcome::Failure
    } else if be_u32(s) == 0 {
        Outcome::Success((MsgKind::KeepAlive, be_bytes(0)))
    } else if s.len() < 5 {
        Outcome::Overrun
    } else if be_u32(s) == 1 {
        if s[4] == PEER_MSG_CHOKE {
            Outcome::Success((MsgKind::Choke, short_message(PEER_MSG_CHOKE)))
        } else if s[4] == PEER_MSG_UNCHOKE {
            Outcome::Success((MsgKind::Unchoke, short_message(PEER_MSG_UNCHOKE)))
        } else if s[4] == PEER_MSG_INTERESTED {
            Outcome::Success((MsgKind::Interested, short_message(PEER_MSG_INTERESTED)))
        } else if s[4] == PEER_MSG_NOT_INTERESTED {
            Outcome::Success((MsgKind::NotInterested, short_message(PEER_MSG_NOT_INTERESTED)))
        } else {
            Outcome::Failure
        }
    } else if s[4] == PEER_MSG_HAVE {
        if be_u32(s) != 4 {
            Outcome::Failure
        } else if s.len() < 9 {
            Outcome::Overrun
        } else {
            Outcome::Success((MsgKind::Have, have_message(be_u32(s.subrange(5, 9)) as u32)))
        }
    } else if s.len() < 68 || s[0] != 19 || s.subrange(1, 20) != protocol_name() {
        Outcome::Failure
    } else if s.len() < 69 {
        Outcome::Overrun
    } else {
        Outcome::Success((MsgKind::Handshake, s.subrange(0, 69)))
    }
}

/// The four bytes of `x` read back as `x`.
pub proof fn lemma_be_u32_bytes(x: u32)
    ensures
        be_bytes(x).len() == 4,
        be_u32(be_bytes(x)) == x as int,
{
    let b = be_bytes(x);
    let a0 = x as int / 16777216;
    let a1 = (x as int / 65536) % 256;
    let a2 = (x as int / 256) % 256;
    let a3 = x as int % 256;
    assert(0 <= a0 < 256);
    assert(b[0] as int == a0);
    assert(b[1] as int == a1);
    assert(b[2] as int == a2);
    assert(b[3] as int == a3);
    assert(a0 * 16777216 + a1 * 65536 + a2 * 256 + a3 == x as int) by (nonlinear_arith)
        requires
            0 <= x < 4294967296,
            a0 == x / 16777216,
            a1 == (x / 65536) % 256,
            a2 == (x / 256) % 256,
            a3 == x % 256,
    ;
}

/// Four bytes whose value is `x` are the bytes of `x`.
pub proof fn lemma_be_bytes_u32(s: Seq<u8>)
    requires
        s.len() == 4,
    ensures
        be_bytes(be_u32(s) as u32) == s,
        0 <= be_u32(s) < 4294967296,
{
    let x = be_u32(s);
    assert(0 <= x < 4294967296);
    let y = x as u32;
    assert(y as int == x);
    assert(x / 16777216 == s[0] as int && (x / 65536) % 256 == s[1] as int && (x / 256) % 256
        == s[2] as int && x % 256 == s[3] as int) by (nonlinear_arith)
        requires
            x == s[0] as int * 16777216 + s[1] as int * 65536 + s[2] as int * 256 + s[3] as int,
            0 <= s[0] < 256,
            0 <= s[1] < 256,
            0 <= s[2] < 256,
            0 <= s[3] < 256,
    ;
    assert(be_bytes(y) =~= s);
}

/// The fields of each built message read back: the length in the first four
/// bytes, then the id, then the integers of `have` and `request`; a
/// handshake holds 19, the protocol name, eight zero bytes, the info hash
/// and the peer id, in that order.
pub proof fn lemma_message_fields(piece: u32, index: u32, begin: u32, length: u32, info_hash: Seq<u8>, peer_id: Seq<u8>, id: u8)
    ensures
        be_u32(be_bytes(0)) == 0,
        short_message(id).len() == 5 && be_u32(short_message(id)) == 1 && short_message(id)[4] == id,
        ({
            let m = have_message(piece);
            &&& m.len() == 9
            &&& be_u32(m) == 5
            &&& m[4] == PEER_MSG_HAVE
            &&& be_u32(m.subrange(5, 9)) == piece as int
        }),
        ({
            let m = request_message(index, begin, length);
            &&& m.len() == 17
            &&& be_u32(m) == 13
            &&& m[4] == PEER_MSG_REQUEST
            &&& be_u32(m.subrange(5, 9)) == index as int
            &&& be_u32(m.subrange(9, 13)) == (begin as int * length as int) % 4294967296
            &&& be_u32(m.subrange(13, 17)) == index as int
        }),
        ({
            let m = handshake_message(info_hash, peer_id);
            &&& m.len() == 28 + info_hash.len() + peer_id.len()
            &&& m[0] == 19
            &&& m.subrange(1, 20) == protocol_name()
            &&& forall|i: int| 20 <= i < 28 ==> m[i] == 0
            &&& m.subrange(28, 28 + info_hash.len() as int) == info_hash
            &&& m.subrange(28 + info_hash.len() as int, m.len() as int) == peer_id
        }),
{
    lemma_be_u32_bytes(0);
    lemma_be_u32_bytes(1);
    lemma_be_u32_bytes(5);
    lemma_be_u32_bytes(13);
    lemma_be_u32_bytes(piece);
    lemma_be_u32_bytes(index);
    let off = ((begin as nat * length as nat) % 0x1_0000_0000) as u32;
    lemma_be_u32_bytes(off);
    assert(be_u32(short_message(id)) == be_u32(be_bytes(1)));
    let h = have_message(piece);
    assert(be_u32(h) == be_u32(be_bytes(5)));
    assert(h.subrange(5, 9) =~= be_bytes(piece));
    let r = request_message(index, begin, length);
    assert(be_u32(r) == be_u32(be_bytes(13)));
    assert(r.subrange(5, 9) =~= be_bytes(index));
    assert(r.subrange(9, 13) =~= be_bytes(off));
    assert(r.subrange(13, 17) =~= be_bytes(index));
    let m = handshake_message(info_hash, peer_id);
    assert(m.subrange(1, 20) =~= protocol_name());
    assert forall|i: int| 20 <= i < 28 implies m[i] == 0 by {
        assert(m[i] == Seq::new(8, |j: int| 0u8)[i - 20]);
    }
    assert(m.subrange(28, 28 + info_hash.len() as int) =~= info_hash);
    assert(m.subrange(28 + info_hash.len() as int, m.len() as int) =~= peer_id);
}

/// What follows a message does not change it: a message read from `s` is
/// read the same from `s` followed by anything. Its bytes are at most those
/// of `s`; those of a handshake are the first 69 bytes of `s`, and those of
/// any other message but `have` are the first bytes of `s`. A `have`
/// message keeps the piece index of `s`.
pub proof fn lemma_parse_msg_prefix(s: Seq<u8>, tail: Seq<u8>)
    requires
        parse_msg_spec(s) is Success,
    ensures
        parse_msg_spec(s + tail) == parse_msg_spec(s),
        ({
            let (k, b) = parse_msg_spec(s)->Success_0;
            &&& b.len() <= s.len()
            &&& (k is Handshake ==> b == s.subrange(0, 69))
            &&& (!(k is Have) ==> b == s.subrange(0, b.len() as int))
            &&& (k is Have ==> be_u32(b.subrange(5, 9)) == be_u32(s.subrange(5, 9)))
        }),
{
    reveal(parse_msg_spec);
    let t = s + tail;
    assert(s.len() >= 4);
    assert(t.subrange(0, 4) =~= s.subrange(0, 4));
    assert(be_u32(t) == be_u32(s));
    if s.len() >= 5 {
        assert(t[4] == s[4]);
    }
    if s.len() >= 9 {
        assert(t.subrange(5, 9) =~= s.subrange(5, 9));
        lemma_be_bytes_u32(s.subrange(5, 9));
        let piece = be_u32(s.subrange(5, 9)) as u32;
        lemma_be_u32_bytes(piece);
        assert(have_message(piece).subrange(5, 9) =~= be_bytes(piece));
    }
    if s.len() >= 20 {
        assert(t.subrange(1, 20) =~= s.subrange(1, 20));
    }
    if s.len() >= 69 {
        assert(t.subrange(0, 69) =~= s.subrange(0, 69));
    }
    let (k, b) = parse_msg_spec(s)->Success_0;
    if be_u32(s) == 0 {
        assert(s[0] == 0 && s[1] == 0 && s[2] == 0 && s[3] == 0);
        assert(b =~= s.subrange(0, 4));
    } else if be_u32(s) == 1 {
        assert(s[0] == 0 && s[1] == 0 && s[2] == 0 && s[3] == 1);
        assert(b =~= s.subrange(0, 5));
    }
}

/// Reading the bytes of a keep-alive, choke, unchoke, interested or not
/// interested message gives that message back.
pub proof fn lemma_parse_short_messages()
    ensures
        parse_msg_spec(be_bytes(0)) == Outcome::Success((MsgKind::KeepAlive, be_bytes(0))),
        parse_msg_spec(short_message(PEER_MSG_CHOKE)) == Outcome::Success(
            (MsgKind::Choke, short_message(PEER_MSG_CHOKE)),
        ),
        parse_msg_spec(short_message(PEER_MSG_UNCHOKE)) == Outcome::Success(
            (MsgKind::Unchoke, short_message(PEER_MSG_UNCHOKE)),
        ),
        parse_msg_spec(short_message(PEER_MSG_INTERESTED)) == Outcome::Success(
            (MsgKind::Interested, short_message(PEER_MSG_INTERESTED)),
        ),
        parse_msg_spec(short_message(PEER_MSG_NOT_INTERESTED)) == Outcome::Success(
            (MsgKind::NotInterested, short_message(PEER_MSG_NOT_INTERESTED)),
        ),
{
    reveal(parse_msg_spec);
    assert(be_bytes(0) =~= seq![0u8, 0u8, 0u8, 0u8]);
    assert(be_bytes(1) =~= seq![0u8, 0u8, 0u8, 1u8]);
}

/// The outcome that an executable reading result stands for.
pub open spec fn msg_result_view(r: Result<Option<PeerMsg>, Overrun>) -> Outcome<(MsgKind, Seq<u8>)> {
    match r {
        Ok(Some(m)) => Outcome::Success(m@),
        Ok(None) => Outcome::Failure,
        Err(_) => Outcome::Overrun,
    }
}

/// Appends the four bytes of `x`, most significant first.
fn push_u32_be(x: u32, to: &mut Vec<u8>)
    ensures
        final(to)@ == old(to)@ + be_bytes(x),
{
    assert((x >> 24u32) as u8 == (x / 16777216) as u8) by (bit_vector);
    assert((x >> 16u32) as u8 == ((x / 65536) % 256) as u8) by (bit_vector);
    assert((x >> 8u32) as u8 == ((x / 256) % 256) as u8) by (bit_vector);
    assert(x as u8 == (x % 256) as u8) by (bit_vector);
    to.push((x >> 24u32) as u8);
    to.push((x >> 16u32) as u8);
    to.push((x >> 8u32) as u8);
    to.push(x as u8);
    assert(final(to)@ =~= old(to)@ + be_bytes(x));
}

/// Appends the bytes of `s`.
fn push_all(s: &[u8], to: &mut Vec<u8>)
    ensures
        final(to)@ == old(to)@ + s@,
{
    let mut i: usize = 0;
    while i < s.len()
        invariant
            i <= s@.len(),
            to@ == old(to)@ + s@.subrange(0, i as int),
        decreases s@.len() - i,
    {
        to.push(s[i]);
        i = i + 1;
        assert(to@ =~= old(to)@ + s@.subrange(0, i as int));
    }
    assert(s@.subrange(0, i as int) =~= s@);
}

fn protocol_bytes() -> (r: Vec<u8>)
    ensures
        r@ == protocol_name(),
{
    let v = vec![66u8, 105u8, 116u8, 84u8, 111u8, 114u8, 114u8, 101u8, 110u8, 116u8, 32u8, 112u8, 114u8, 111u8, 116u8, 111u8, 99u8, 111u8, 108u8];
    assert(v@ =~= protocol_name());
    v
}

impl PeerMsg {
    /// The bytes of the message.
    pub fn as_ref(&self) -> (r: &[u8])
        ensures
            r@ == self@.1,
    {
        match self {
            PeerMsg::Have(x) | PeerMsg::Choke(x) | PeerMsg::Unchoke(x) | PeerMsg::Request(x)
            | PeerMsg::BitField(x) | PeerMsg::KeepAlive(x) | PeerMsg::Handshake(x)
            | PeerMsg::Interested(x) | PeerMsg::NotInterested(x) => x.as_slice(),
        }
    }
}

impl PeerMsg {
    fn u32_from_be(from: &[u8]) -> (r: u32)
        requires
            from@.len() >= 4,
        ensures
            r == be_u32(from@),
    {
        let a = from[0];
        let b = from[1];
        let c = from[2];
        let d = from[3];
        assert(((a as u32) << 24u32 | (b as u32) << 16u32 | (c as u32) << 8u32 | (d as u32))
            == a as u32 * 16777216 + b as u32 * 65536 + c as u32 * 256 + d as u32) by (bit_vector);
        (a as u32) << 24u32 | (b as u32) << 16u32 | (c as u32) << 8u32 | (d as u32)
    }

    fn try_parse_have(length: u32, from: &[u8]) -> (r: Result<Option<Self>, Overrun>)
        requires
            from@.len() >= 5,
            length == be_u32(from@),
            length != 0,
            length != 1,
            from@[4] == PEER_MSG_HAVE,
        ensures
            msg_result_view(r) == parse_msg_spec(from@),
    {
        reveal(parse_msg_spec);
        if length != 4 {
            return Ok(None);
        }
        if from.len() < 9 {
            return Err(Overrun);
        }
        let piece = Self::u32_from_be(&from[5..from.len()]);
        assert(from@.subrange(5, from@.len() as int).subrange(0, 4) =~= from@.subrange(5, 9));
        Ok(Some(Self::new_have(piece)))
    }

    fn try_parse_handshake(from: &[u8]) -> (r: Result<Option<Self>, Overrun>)
        requires
            from@.len() >= 5,
            be_u32(from@) != 0,
            be_u32(from@) != 1,
            from@[4] != PEER_MSG_HAVE,
        ensures
            msg_result_view(r) == parse_msg_spec(from@),
    {
        reveal(parse_msg_spec);
        if from.len() < 68 || from[0] != 19 {
            return Ok(None);
        }
        if !bytes_eq(protocol_bytes().as_slice(), &from[1..20]) {
            return Ok(None);
        }
        if from.len() < 69 {
            return Err(Overrun);
        }
        Ok(Some(Self::Handshake(vstd::slice::slice_to_vec(&from[0..69]))))
    }

    /// Reads a message from `from`, as `try_parse` does, and tells the inputs
    /// on which `try_parse` would index out of bounds.
    pub fn try_parse_checked(from: &[u8]) -> (r: Result<Option<Self>, Overrun>)
        ensures
            msg_result_view(r) == parse_msg_spec(from@),
    {
        reveal(parse_msg_spec);
        if from.len() < 4 {
            return Ok(None);
        }
        let length = Self::u32_from_be(from);
        if length == 0 {
            return Ok(Some(Self::new_keep_alive()));
        }
        if from.len() < 5 {
            return Err(Overrun);
        }
        let message = from[4];
        if length == 1 {
            return Ok(
                if message == PEER_MSG_CHOKE {
                    Some(Self::new_choke())
                } else if message == PEER_MSG_UNCHOKE {
                    Some(Self::new_unchoke())
                } else if message == PEER_MSG_INTERESTED {
                    Some(Self::new_interested())
                } else if message == PEER_MSG_NOT_INTERESTED {
                    Some(Self::new_not_interested())
                } else {
                    None
                },
            );
        }
        if message == PEER_MSG_HAVE {
            Self::try_parse_have(length, from)
        } else {
            //PEER_MSG_BITFIELD, PEER_MSG_REQUEST, PEER_MSG_PIECE, PEER_MSG_CANCEL
            //and PEER_MSG_PORT are not read yet
            Self::try_parse_handshake(from)
        }
    }

    /// Reads a message from `from`; `None` where `from` holds no message that
    /// is read. `from` must not be one of the inputs on which the reading
    /// indexes out of bounds (see `try_parse_checked`).
    pub fn try_parse(from: &[u8]) -> (r: Option<Self>)
        requires
            !(parse_msg_spec(from@) is Overrun),
        ensures
            match parse_msg_spec(from@) {
                Outcome::Success(m) => r matches Some(x) && x@ == m,
                _ => r is None,
            },
    {
        match Self::try_parse_checked(from) {
            Ok(r) => r,
            Err(_) => None,
        }
    }
}

impl PeerMsg {
    pub fn new_keep_alive() -> (r: Self)
        ensures
            r@ == (MsgKind::KeepAlive, be_bytes(0)),
    {
        let mut message = Vec::with_capacity(1);
        push_u32_be(0, &mut message);
        assert(message@ =~= be_bytes(0));
        Self::KeepAlive(message)
    }

    pub fn new_choke() -> (r: Self)
        ensures
            r@ == (MsgKind::Choke, short_message(PEER_MSG_CHOKE)),
    {
        let mut message = Vec::with_capacity(5);
        push_u32_be(1, &mut message);
        message.push(PEER_MSG_CHOKE);
        assert(message@ =~= short_message(PEER_MSG_CHOKE));
        Self::Choke(message)
    }

    pub fn new_unchoke() -> (r: Self)
        ensures
            r@ == (MsgKind::Unchoke, short_message(PEER_MSG_UNCHOKE)),
    {
        let mut message = Vec::with_capacity(5);
        push_u32_be(1, &mut message);
        message.push(PEER_MSG_UNCHOKE);
        assert(message@ =~= short_message(PEER_MSG_UNCHOKE));
        Self::Unchoke(message)
    }

    pub fn new_interested() -> (r: Self)
        ensures
            r@ == (MsgKind::Interested, short_message(PEER_MSG_INTERESTED)),
    {
        let mut message = Vec::with_capacity(5);
        push_u32_be(1, &mut message);
        message.push(PEER_MSG_INTERESTED);
        assert(message@ =~= short_message(PEER_MSG_INTERESTED));
        Self::Interested(message)
    }

    pub fn new_not_interested() -> (r: Self)
        ensures
            r@ == (MsgKind::NotInterested, short_message(PEER_MSG_NOT_INTERESTED)),
    {
        let mut message = Vec::with_capacity(5);
        push_u32_be(1, &mut message);
        message.push(PEER_MSG_NOT_INTERESTED);
        assert(message@ =~= short_message(PEER_MSG_NOT_INTERESTED));
        Self::NotInterested(message)
    }

    pub fn new_have(piece: u32) -> (r: Self)
        ensures
            r@ == (MsgKind::Have, have_message(piece)),
    {
        let mut message = Vec::with_capacity(9);
        push_u32_be(5, &mut message);
        message.push(PEER_MSG_HAVE);
        push_u32_be(piece, &mut message);
        assert(message@ =~= have_message(piece));
        Self::Have(message)
    }

    /// A request for a block: the piece index, then `begin * length` (each
    /// taken as a `u32`, the product wrapping), then the piece index again.
    pub fn new_request(index: usize, begin: usize, length: usize) -> (r: Self)
        ensures
            r@ == (MsgKind::Request, request_message(index as u32, begin as u32, length as u32)),
    {
        let mut message = Vec::with_capacity(14);
        push_u32_be(13, &mut message);
        message.push(PEER_MSG_REQUEST);
        push_u32_be(index as u32, &mut message);
        // offsets past 4 GiB wrap
        let offset = (begin as u32).wrapping_mul(length as u32);
        push_u32_be(offset, &mut message);
        push_u32_be(index as u32, &mut message);
        assert(message@ =~= request_message(index as u32, begin as u32, length as u32));
        Self::Request(message)
    }
}

impl PeerMsg {
    /// The handshake: 19, the protocol name, eight zero bytes, the torrent's
    /// info hash and the client's peer id.
    pub fn new_handshake(tracker: &Tracker) -> (r: Self)
        ensures
            r@ == (MsgKind::Handshake, handshake_message(
                tracker.torrent.info_hash@,
                tracker.peer_id@,
            )),
    {
        let proto = protocol_bytes();
        let mut message = Vec::with_capacity(49 + proto.len());
        // size of greet message (in bytes)
        message.push(proto.len() as u8);
        // protocol string
        push_all(proto.as_slice(), &mut message);
        // reserved 8 zero bytes
        let mut k: usize = 0;
        while k < 4
            invariant
                k <= 4,
                message@ == seq![19u8] + protocol_name() + Seq::new((2 * k) as nat, |i: int| 0u8),
            decreases 4 - k,
        {
            message.push(0);
            message.push(0);
            k = k + 1;
            assert(message@ =~= seq![19u8] + protocol_name() + Seq::new((2 * k) as nat, |i: int| 0u8));
        }
        // info_hash, 20 bytes
        push_all(tracker.torrent.info_hash.as_slice(), &mut message);
        // peer_id, 20 bytes too
        push_all(tracker.peer_id.as_slice(), &mut message);
        assert(message@ =~= handshake_message(tracker.torrent.info_hash@, tracker.peer_id@));
        Self::Handshake(message)
    }
}

} // verus!

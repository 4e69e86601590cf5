//! A peer: its state, and what its answer to the handshake does to it.
use vstd::prelude::*;
use crate::outcome::Outcome;
use crate::torrent::message::{parse_msg_spec, be_bytes, be_u32, short_message, have_message, request_message, lemma_parse_short_messages, lemma_message_fields, lemma_parse_msg_prefix, lemma_be_u32_bytes, PEER_MSG_CHOKE, PEER_MSG_UNCHOKE, PEER_MSG_INTERESTED, PEER_MSG_HAVE};
use crate::torrent::types::{MsgKind, Peer, PeerAddr, PeerMsg};

verus! {

/// Why a peer's answer to the handshake is refused.
#[derive(Debug, PartialEq, Eq)]
pub enum ReplyError {
    /// A message other than have, choke, unchoke and bitfield.
    Unsupported,
    /// The peer still chokes the client after its answer.
    Choked,
    /// The answer holds bytes that are no message that is read.
    Malformed,
}

/// A message that is read takes between 4 bytes and what it was read from.
pub proof fn lemma_parse_msg_len(s: Seq<u8>)
    ensures
        parse_msg_spec(s) matches Outcome::Success((k, b)) ==> 4 <= b.len() <= s.len(),
{
    reveal(parse_msg_spec);
}

/// What the messages in `s` do to a peer that chokes the client or not
/// (`choked`): the peer's choked state afterwards, and the answer. The
/// messages are read one after the other; have and bitfield change nothing,
/// choke and unchoke set the state, any other message ends the reading with
/// `Unsupported`; after the last message a peer that still chokes gives
/// `Choked`.
pub open spec fn reply_spec(choked: bool, s: Seq<u8>) -> (bool, Result<(), ReplyError>)
    decreases s.len(),
{
    if s.len() == 0 {
        (choked, if choked { Err(ReplyError::Choked) } else { Ok(()) })
    } else {
        match parse_msg_spec(s) {
            Outcome::Success((kind, bytes)) => {
                proof {
                    lemma_parse_msg_len(s);
                }
                let rest = s.subrange(bytes.len() as int, s.len() as int);
                match kind {
                    MsgKind::Have => reply_spec(choked, rest),
                    MsgKind::Choke => reply_spec(true, rest),
                    MsgKind::Unchoke => reply_spec(false, rest),
                    MsgKind::BitField => reply_spec(choked, rest),
                    _ => (choked, Err(ReplyError::Unsupported)),
                }
            },
            _ => (choked, Err(ReplyError::Malformed)),
        }
    }
}

proof fn lemma_reply_step(choked: bool, s: Seq<u8>, m: (MsgKind, Seq<u8>))
    requires
        s.len() > 0,
        parse_msg_spec(s) == Outcome::Success(m),
    ensures
        4 <= m.1.len() <= s.len(),
        reply_spec(choked, s) == match m.0 {
            MsgKind::Have => reply_spec(choked, s.subrange(m.1.len() as int, s.len() as int)),
            MsgKind::Choke => reply_spec(true, s.subrange(m.1.len() as int, s.len() as int)),
            MsgKind::Unchoke => reply_spec(false, s.subrange(m.1.len() as int, s.len() as int)),
            MsgKind::BitField => reply_spec(choked, s.subrange(m.1.len() as int, s.len() as int)),
            _ => (choked, Err(ReplyError::Unsupported)),
        },
{
    lemma_parse_msg_len(s);
}

proof fn lemma_reply_malformed(choked: bool, s: Seq<u8>)
    requires
        s.len() > 0,
        !(parse_msg_spec(s) is Success),
    ensures
        reply_spec(choked, s) == (choked, Err::<(), ReplyError>(ReplyError::Malformed)),
{
}

/// A peer's answer, message by message: a choke leaves the peer choking
/// and an unchoke leaves it not choking, whatever follows; a have message
/// changes nothing; an interested message is refused; at the end, a peer
/// that still chokes is refused and one that does not is accepted.
pub proof fn lemma_reply_messages(choked: bool, rest: Seq<u8>, piece: u32)
    ensures
        reply_spec(choked, Seq::empty()) == (choked, if choked {
            Err::<(), ReplyError>(ReplyError::Choked)
        } else {
            Ok::<(), ReplyError>(())
        }),
        reply_spec(choked, short_message(PEER_MSG_CHOKE) + rest) == reply_spec(true, rest),
        reply_spec(choked, short_message(PEER_MSG_UNCHOKE) + rest) == reply_spec(false, rest),
        reply_spec(choked, short_message(PEER_MSG_INTERESTED) + rest) == (choked, Err::<
            (),
            ReplyError,
        >(ReplyError::Unsupported)),
        reply_spec(choked, be_bytes(4) + seq![PEER_MSG_HAVE] + be_bytes(piece) + rest)
            == reply_spec(choked, rest),
{
    lemma_parse_short_messages();
    lemma_message_fields(piece, 0, 0, 0, Seq::empty(), Seq::empty(), 0);
    let ids = seq![PEER_MSG_CHOKE, PEER_MSG_UNCHOKE, PEER_MSG_INTERESTED];
    assert forall|k: int| 0 <= k < 3 implies ({
        let m = short_message(#[trigger] ids[k]);
        let s = m + rest;
        &&& parse_msg_spec(s) == parse_msg_spec(m)
        &&& s.subrange(5, s.len() as int) == rest
    }) by {
        let m = short_message(ids[k]);
        lemma_parse_msg_prefix(m, rest);
        assert((m + rest).subrange(5, (m + rest).len() as int) =~= rest);
    }
    assert(ids[0] == PEER_MSG_CHOKE && ids[1] == PEER_MSG_UNCHOKE && ids[2] == PEER_MSG_INTERESTED);
    let h = be_bytes(4) + seq![PEER_MSG_HAVE] + be_bytes(piece);
    lemma_be_u32_bytes(4);
    lemma_be_u32_bytes(piece);
    assert(parse_msg_spec(h) == Outcome::Success((MsgKind::Have, have_message(piece)))) by {
        reveal(parse_msg_spec);
        assert(be_u32(h) == be_u32(be_bytes(4)));
        assert(h.subrange(5, 9) =~= be_bytes(piece));
    }
    lemma_parse_msg_prefix(h, rest);
    let s = h + rest;
    assert(s.subrange(9, s.len() as int) =~= rest);
}

impl Peer {
    pub fn new(timeout: u32, addr: PeerAddr) -> (r: Self)
        ensures
            r.timeout == timeout,
            r.bitfield is None,
            r.choked,
            r.addr == addr,
    {
        Self { timeout, bitfield: None, choked: true, addr }
    }

    /// Takes in the messages that the peer sent after the handshake, as
    /// `reply_spec` says.
    pub fn read_reply(&mut self, data: &[u8]) -> (r: Result<(), ReplyError>)
        ensures
            (final(self).choked, r) == reply_spec(old(self).choked, data@),
            final(self).timeout == old(self).timeout,
            final(self).bitfield == old(self).bitfield,
            final(self).addr == old(self).addr,
    {
        let mut rest = data;
        let ghost whole = reply_spec(self.choked, data@);
        while rest.len() != 0
            invariant
                whole == reply_spec(old(self).choked, data@),
                whole == reply_spec(self.choked, rest@),
                self.timeout == old(self).timeout,
                self.bitfield == old(self).bitfield,
                self.addr == old(self).addr,
            decreases rest@.len(),
        {
            let message = match PeerMsg::try_parse_checked(rest) {
                Ok(Some(m)) => m,
                _ => {
                    proof {
                        lemma_reply_malformed(self.choked, rest@);
                    }
                    return Err(ReplyError::Malformed);
                },
            };
            proof {
                lemma_reply_step(self.choked, rest@, message@);
            }
            match &message {
                PeerMsg::Have(_) => (),
                PeerMsg::Choke(_) => self.choked = true,
                PeerMsg::Unchoke(_) => self.choked = false,
                PeerMsg::BitField(_) => (),  //self.bitfield = Some(vec.clone()),
                _ => {
                    return Err(ReplyError::Unsupported);
                },
            }
            let n = message.as_ref().len();
            rest = &rest[n..rest.len()];
        }
        if self.choked {
            return Err(ReplyError::Choked);
        }
        Ok(())
    }
}

/// The request for piece `index` of a torrent whose pieces are
/// `piece_length` bytes long: the piece index, its offset
/// `index * piece_length` and the length.
pub fn piece_request(index: usize, piece_length: usize) -> (r: PeerMsg)
    requires
        index * piece_length <= usize::MAX,
    ensures
        r@ == (MsgKind::Request, request_message(
            index as u32,
            (index * piece_length) as usize as u32,
            piece_length as u32,
        )),
{
    PeerMsg::new_request(index, index * piece_length, piece_length)
}

/// The data of a piece in a peer's answer to a request: what follows the
/// 14 bytes of the message header.
pub fn piece_payload(answer: &[u8]) -> (r: Vec<u8>)
    requires
        answer@.len() >= 14,
    ensures
        r@ == answer@.subrange(14, answer@.len() as int),
{
    vstd::slice::slice_to_vec(&answer[14..answer.len()])
}

} // verus!

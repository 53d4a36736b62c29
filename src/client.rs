use vstd::prelude::*;
use crate::message::{
    be32, check_handshake, frame, handshake_bytes, handshake_serialize, parse_message, push_u32,
    serialize_message, Message, MessageId, PeerError,
};
use crate::torrent::{bitfield_has, bitfield_has_piece};
use crate::tracker::Peer;

verus! {

/// Where a peer session stands, seen from this client.
#[derive(PartialEq, Eq, Structural, Clone, Copy, Debug)]
pub enum PeerState {
    New,
    Handshook,
    Ready,
    Interested,
    Unchoked,
    Closed,
}

/// What a received message hands to the download loop.
pub enum MessageReturn {
    Have(u32),
    Piece((u32, u32, Vec<u8>)),
}

/// The state of one peer session; the connection itself is the caller's.
pub struct Client {
    pub info_hash: Vec<u8>,
    pub peer_id: Vec<u8>,
    pub peer: Peer,
    /// The remote peer chokes us.
    pub choked: bool,
    /// One flag per piece: the remote peer has it.
    pub bitfield: Vec<bool>,
    pub remote_peer_id: Option<Vec<u8>>,
    pub state: PeerState,
}

impl Client {
    /// Well formed: 20-byte ids, and the remote peer chokes us exactly
    /// while we wait in `Interested`, never once `Unchoked`.
    pub open spec fn wf(&self) -> bool {
        &&& self.info_hash@.len() == 20
        &&& self.peer_id@.len() == 20
        &&& self.state == PeerState::Unchoked ==> !self.choked
        &&& self.state == PeerState::Interested ==> self.choked
    }

    /// A session with `peer`, before the handshake.
    pub fn new(info_hash: &Vec<u8>, peer_id: &Vec<u8>, peer: Peer, piece_count: u32) -> (r: Client)
        requires
            info_hash@.len() == 20,
            peer_id@.len() == 20,
        ensures
            r.wf(),
            r.info_hash@ == info_hash@,
            r.peer_id@ == peer_id@,
            r.peer == peer,
            r.choked,
            r.state == PeerState::New,
            r.remote_peer_id is None,
            r.bitfield@.len() == piece_count,
            forall|i: int| 0 <= i < piece_count ==> !#[trigger] r.bitfield@[i],
    {
        let mut bits: Vec<bool> = Vec::new();
        let mut i: u32 = 0;
        while i < piece_count
            invariant
                i <= piece_count,
                bits@.len() == i,
                forall|j: int| 0 <= j < i ==> !#[trigger] bits@[j],
            decreases piece_count - i,
        {
            bits.push(false);
            i += 1;
        }
        Client {
            info_hash: crate::utility::to_vec(info_hash.as_slice()),
            peer_id: crate::utility::to_vec(peer_id.as_slice()),
            peer,
            choked: true,
            bitfield: bits,
            remote_peer_id: None,
            state: PeerState::New,
        }
    }

    /// The handshake to send.
    pub fn handshake(&self) -> (r: Vec<u8>)
        requires
            self.wf(),
        ensures
            r@ == handshake_bytes(self.info_hash@, self.peer_id@),
    {
        handshake_serialize(&self.info_hash, &self.peer_id)
    }

    /// Takes the peer's handshake: with our info hash the session is
    /// `Handshook`; otherwise it is `Closed`.
    pub fn on_handshake(&mut self, response: &Vec<u8>) -> (r: Result<(), PeerError>)
        requires
            old(self).wf(),
        ensures
            final(self).wf(),
            final(self).info_hash == old(self).info_hash,
            final(self).peer_id == old(self).peer_id,
            final(self).bitfield == old(self).bitfield,
            final(self).choked == old(self).choked,
            r is Ok ==> final(self).state == PeerState::Handshook && final(self).remote_peer_id is Some,
            r is Err ==> final(self).state == PeerState::Closed,
            r is Ok <==> {
                let h = crate::message::hash_at(response@[0] as int);
                response@.len() > 0 && response@.len() >= h + 40 && response@.subrange(h, h + 20)
                    == old(self).info_hash@
            },
            r == Err::<(), PeerError>(PeerError::HandshakeMismatch) <==> {
                let h = crate::message::hash_at(response@[0] as int);
                response@.len() > 0 && response@.len() >= h + 40 && response@.subrange(h, h + 20)
                    != old(self).info_hash@
            },
    {
        match check_handshake(response, &self.info_hash) {
            Ok(id) => {
                self.remote_peer_id = Some(id);
                self.state = PeerState::Handshook;
                Ok(())
            },
            Err(e) => {
                self.state = PeerState::Closed;
                Err(e)
            },
        }
    }

    pub fn is_choked(&self) -> (r: bool)
        ensures
            r == self.choked,
    {
        self.choked
    }

    /// The remote peer has piece `index`.
    pub fn has_piece(&self, index: u32) -> (r: bool)
        ensures
            r == (index < self.bitfield@.len() && self.bitfield@[index as int]),
    {
        (index as usize) < self.bitfield.len() && self.bitfield[index as usize]
    }

    /// Takes a frame body from the peer and updates the session:
    /// a bitfield counts only as the first message after the handshake,
    /// `Have` sets one flag, `Choke` and `Unchoke` move between
    /// `Interested` and `Unchoked`. A malformed frame closes the session.
    pub fn receive_message(&mut self, body: &Vec<u8>) -> (r: Result<Message, PeerError>)
        requires
            old(self).wf(),
            old(self).state != PeerState::New,
            old(self).state != PeerState::Closed,
        ensures
            final(self).wf(),
            final(self).info_hash == old(self).info_hash,
            final(self).peer_id == old(self).peer_id,
            final(self).bitfield@.len() == old(self).bitfield@.len(),
            r is Err <==> !crate::message::body_ok(body@),
            body@.len() == 0 ==> r matches Ok(Message::KeepAlive),
            r is Err ==> r == Err::<Message, PeerError>(PeerError::Protocol) && final(self).state
                == PeerState::Closed,
            r matches Ok(m) ==> {
                &&& crate::message::message_matches(body@, m)
                &&& final(self).state == next_state(old(self).state, m)
                &&& final(self).choked == match m {
                    Message::Choke => true,
                    Message::Unchoke => false,
                    _ => old(self).choked,
                }
                &&& forall|i: int|
                    0 <= i < final(self).bitfield@.len() ==> #[trigger] final(self).bitfield@[i] == match m {
                        Message::Bitfield(b) => if old(self).state == PeerState::Handshook {
                            bitfield_has(b@, i)
                        } else {
                            old(self).bitfield@[i]
                        },
                        Message::Have(k) => old(self).bitfield@[i] || i == k,
                        _ => old(self).bitfield@[i],
                    }
            },
    {
        let m = match parse_message(body) {
            Ok(m) => m,
            Err(e) => {
                self.state = PeerState::Closed;
                return Err(e);
            },
        };
        let first = self.state == PeerState::Handshook;
        if first {
            self.state = PeerState::Ready;
        }
        match &m {
            Message::Choke => {
                self.choked = true;
                if self.state == PeerState::Unchoked {
                    self.state = PeerState::Interested;
                }
            },
            Message::Unchoke => {
                self.choked = false;
                if self.state == PeerState::Interested {
                    self.state = PeerState::Unchoked;
                }
            },
            Message::Have(k) => {
                let k = *k;
                if (k as usize) < self.bitfield.len() {
                    self.bitfield.set(k as usize, true);
                }
            },
            Message::Bitfield(b) => {
                if first {
                    let n = self.bitfield.len();
                    let mut i: usize = 0;
                    while i < n
                        invariant
                            n == self.bitfield@.len(),
                            i <= n,
                            self.info_hash == old(self).info_hash,
                            self.peer_id == old(self).peer_id,
                            self.choked == old(self).choked,
                            self.state == PeerState::Ready,
                            self.info_hash@.len() == 20,
                            self.peer_id@.len() == 20,
                            forall|j: int| 0 <= j < i ==> #[trigger] self.bitfield@[j] == bitfield_has(b@, j),
                            forall|j: int| i <= j < n ==> #[trigger] self.bitfield@[j] == old(self).bitfield@[j],
                        decreases n - i,
                    {
                        let v = bitfield_has_piece(b.as_slice(), i);
                        self.bitfield.set(i, v);
                        i += 1;
                    }
                }
            },
            _ => {},
        }
        Ok(m)
    }

    /// The `Interested` frame. A `Ready` session becomes `Interested`, or
    /// `Unchoked` at once when the peer no longer chokes us.
    pub fn send_interested(&mut self) -> (r: Vec<u8>)
        requires
            old(self).wf(),
        ensures
            final(self).wf(),
            r@ == frame(MessageId::Interested, Seq::empty()),
            final(self).state == if old(self).state == PeerState::Ready {
                if old(self).choked {
                    PeerState::Interested
                } else {
                    PeerState::Unchoked
                }
            } else {
                old(self).state
            },
            final(self).info_hash == old(self).info_hash,
            final(self).peer_id == old(self).peer_id,
            final(self).bitfield == old(self).bitfield,
            final(self).choked == old(self).choked,
    {
        if self.state == PeerState::Ready {
            if self.choked {
                self.state = PeerState::Interested;
            } else {
                self.state = PeerState::Unchoked;
            }
        }
        serialize_message(MessageId::Interested, None)
    }

    /// The `Have` frame for piece `index`.
    pub fn send_have(&self, index: u32) -> (r: Vec<u8>)
        ensures
            r@ == frame(MessageId::Have, be32(index)),
    {
        let mut p: Vec<u8> = Vec::new();
        push_u32(index, &mut p);
        assert(p@ =~= be32(index));
        serialize_message(MessageId::Have, Some(p))
    }

    /// The `Request` frame for a block; only an unchoked session may send
    /// one, so none while the peer chokes us.
    pub fn send_request(&self, index: u32, begin: u32, length: u32) -> (r: Option<Vec<u8>>)
        requires
            self.wf(),
        ensures
            self.choked ==> r is None,
            self.state != PeerState::Unchoked ==> r is None,
            self.state == PeerState::Unchoked ==> (r matches Some(f) && f@ == frame(
                MessageId::Request,
                be32(index) + be32(begin) + be32(length),
            )),
    {
        if self.state != PeerState::Unchoked {
            return None;
        }
        let mut p: Vec<u8> = Vec::new();
        push_u32(index, &mut p);
        push_u32(begin, &mut p);
        push_u32(length, &mut p);
        assert(p@ =~= be32(index) + be32(begin) + be32(length));
        Some(serialize_message(MessageId::Request, Some(p)))
    }

    /// Ends the session.
    pub fn close(&mut self)
        requires
            old(self).wf(),
        ensures
            final(self).wf(),
            final(self).state == PeerState::Closed,
            final(self).info_hash == old(self).info_hash,
            final(self).peer_id == old(self).peer_id,
    {
        self.state = PeerState::Closed;
    }
}

/// The session state after a message: the first message after the
/// handshake makes it `Ready`; `Unchoke` unchokes an interested session,
/// `Choke` chokes an unchoked one.
pub open spec fn next_state(s: PeerState, m: Message) -> PeerState {
    let settled = if s == PeerState::Handshook { PeerState::Ready } else { s };
    match m {
        Message::Unchoke => if settled == PeerState::Interested { PeerState::Unchoked } else { settled },
        Message::Choke => if settled == PeerState::Unchoked { PeerState::Interested } else { settled },
        _ => settled,
    }
}

} // verus!

use vstd::prelude::*;

verus! {

/// Identifier byte of a peer-wire message.
#[derive(PartialEq, Eq, Structural, Clone, Copy, Debug)]
pub enum MessageId {
    Choke,
    UnChoke,
    Interested,
    NotInterested,
    Have,
    Bitfield,
    Request,
    Piece,
    Cancel,
    Port,
}

/// A decoded peer-wire message.
pub enum Message {
    KeepAlive,
    Choke,
    Unchoke,
    Interested,
    NotInterested,
    Have(u32),
    Bitfield(Vec<u8>),
    Request(u32, u32, u32),
    Piece(u32, u32, Vec<u8>),
    Cancel(u32, u32, u32),
    Port(u16),
    /// An id this client does not know; it is dropped.
    Unknown(u8),
}

/// Why a peer session ends.
#[derive(PartialEq, Eq, Structural, Clone, Copy, Debug)]
pub enum PeerError {
    Connect,
    HandshakeMismatch,
    Protocol,
    Timeout,
    Io,
    HashMismatch,
}

/// Largest frame body accepted: 128 KiB.
pub const MAX_FRAME: usize = 131072;

pub open spec fn id_byte(id: MessageId) -> u8 {
    match id {
        MessageId::Choke => 0,
        MessageId::UnChoke => 1,
        MessageId::Interested => 2,
        MessageId::NotInterested => 3,
        MessageId::Have => 4,
        MessageId::Bitfield => 5,
        MessageId::Request => 6,
        MessageId::Piece => 7,
        MessageId::Cancel => 8,
        MessageId::Port => 9,
    }
}

pub fn id_value(id: MessageId) -> (r: u8)
    ensures
        r == id_byte(id),
{
    match id {
        MessageId::Choke => 0,
        MessageId::UnChoke => 1,
        MessageId::Interested => 2,
        MessageId::NotInterested => 3,
        MessageId::Have => 4,
        MessageId::Bitfield => 5,
        MessageId::Request => 6,
        MessageId::Piece => 7,
        MessageId::Cancel => 8,
        MessageId::Port => 9,
    }
}

/// Big-endian bytes of a `u32`.
pub open spec fn be32(n: u32) -> Seq<u8> {
    seq![(n >> 24u32) as u8, (n >> 16u32) as u8, (n >> 8u32) as u8, n as u8]
}

/// The `u32` that four big-endian bytes spell.
pub open spec fn be32_value(b: Seq<u8>) -> u32 {
    ((b[0] as u32) << 24u32) | ((b[1] as u32) << 16u32) | ((b[2] as u32) << 8u32) | (b[3] as u32)
}

pub fn push_u32(n: u32, out: &mut Vec<u8>)
    ensures
        final(out)@ == old(out)@ + be32(n),
{
    out.push((n >> 24u32) as u8);
    out.push((n >> 16u32) as u8);
    out.push((n >> 8u32) as u8);
    out.push(n as u8);
    assert(final(out)@ =~= old(out)@ + be32(n));
}

/// Reads a big-endian `u32` at `at`.
pub fn read_u32(b: &[u8], at: usize) -> (r: u32)
    requires
        at + 4 <= b@.len(),
    ensures
        r == be32_value(b@.subrange(at as int, at + 4)),
{
    ((b[at] as u32) << 24u32) | ((b[at + 1] as u32) << 16u32) | ((b[at + 2] as u32) << 8u32) | (
    b[at + 3] as u32)
}

fn push_all(src: &Vec<u8>, out: &mut Vec<u8>)
    ensures
        final(out)@ == old(out)@ + src@,
{
    let mut i: usize = 0;
    let ghost start = out@;
    while i < src.len()
        invariant
            i <= src@.len(),
            out@ == start + src@.subrange(0, i as int),
        decreases src.len() - i,
    {
        out.push(src[i]);
        i += 1;
        assert(out@ =~= start + src@.subrange(0, i as int));
    }
    assert(src@.subrange(0, src.len() as int) =~= src@);
}

/// A frame: the big-endian length of what follows, the id, the payload.
pub open spec fn frame(id: MessageId, payload: Seq<u8>) -> Seq<u8> {
    be32((1 + payload.len()) as u32) + seq![id_byte(id)] + payload
}

/// The frame of a message. `Bitfield` and `Piece` carry a payload.
pub fn serialize_message(id: MessageId, payload: Option<Vec<u8>>) -> (r: Vec<u8>)
    requires
        id == MessageId::Bitfield || id == MessageId::Piece ==> payload is Some,
        payload matches Some(p) ==> p@.len() < u32::MAX,
    ensures
        r@ == frame(
            id,
            match payload {
                Some(p) => p@,
                None => Seq::empty(),
            },
        ),
{
    let mut message: Vec<u8> = Vec::new();
    let length: u32 = match &payload {
        Some(p) => (p.len() + 1) as u32,
        None => 1,
    };
    push_u32(length, &mut message);
    message.push(id_value(id));
    match &payload {
        Some(p) => {
            push_all(p, &mut message);
        },
        None => {},
    }
    message
}

/// Payload length of a fixed-size message; `None` for the others.
pub fn length_prefix(id: MessageId) -> (r: Option<usize>)
    ensures
        r == fixed_payload(id_byte(id)),
{
    match id {
        MessageId::Choke | MessageId::UnChoke | MessageId::Interested | MessageId::NotInterested => Some(0),
        MessageId::Have => Some(4),
        MessageId::Request | MessageId::Cancel => Some(12),
        MessageId::Port => Some(2),
        _ => None,
    }
}

/// Payload length that a message of this id must have, when fixed.
pub open spec fn fixed_payload(id: u8) -> Option<usize> {
    if id <= 3 {
        Some(0)
    } else if id == 4 {
        Some(4)
    } else if id == 6 || id == 8 {
        Some(12)
    } else if id == 9 {
        Some(2)
    } else {
        None
    }
}

/// A frame body that `parse_message` accepts.
pub open spec fn body_ok(body: Seq<u8>) -> bool {
    &&& body.len() <= MAX_FRAME
    &&& body.len() > 0 ==> match fixed_payload(body[0]) {
        Some(n) => body.len() == n + 1,
        None => body[0] == 7 ==> body.len() >= 9,
    }
}

pub open spec fn u32_at(body: Seq<u8>, at: int) -> u32 {
    be32_value(body.subrange(at, at + 4))
}

/// `m` is what the frame body says.
pub open spec fn message_matches(body: Seq<u8>, m: Message) -> bool {
    match m {
        Message::KeepAlive => body.len() == 0,
        Message::Choke => body.len() == 1 && body[0] == 0,
        Message::Unchoke => body.len() == 1 && body[0] == 1,
        Message::Interested => body.len() == 1 && body[0] == 2,
        Message::NotInterested => body.len() == 1 && body[0] == 3,
        Message::Have(i) => body.len() == 5 && body[0] == 4 && i == u32_at(body, 1),
        Message::Bitfield(b) => body.len() > 0 && body[0] == 5 && b@ == body.subrange(1, body.len() as int),
        Message::Request(i, b, l) => body.len() == 13 && body[0] == 6 && i == u32_at(body, 1) && b == u32_at(body, 5) && l == u32_at(body, 9),
        Message::Piece(i, b, blk) => body.len() >= 9 && body[0] == 7 && i == u32_at(body, 1) && b == u32_at(body, 5) && blk@ == body.subrange(9, body.len() as int),
        Message::Cancel(i, b, l) => body.len() == 13 && body[0] == 8 && i == u32_at(body, 1) && b == u32_at(body, 5) && l == u32_at(body, 9),
        Message::Port(p) => body.len() == 3 && body[0] == 9 && p as int == body[1] as int * 256 + body[2] as int,
        Message::Unknown(id) => body.len() > 0 && id == body[0] && id > 9,
    }
}

/// What a frame body (what follows the length prefix) says.
pub fn parse_message(body: &Vec<u8>) -> (r: Result<Message, PeerError>)
    ensures
        r is Ok <==> body_ok(body@),
        r is Err ==> r == Err::<Message, PeerError>(PeerError::Protocol),
        r matches Ok(m) ==> message_matches(body@, m),
        body@.len() == 0 ==> r matches Ok(Message::KeepAlive),
{
    let n = body.len();
    if n > MAX_FRAME {
        return Err(PeerError::Protocol);
    }
    if n == 0 {
        return Ok(Message::KeepAlive);
    }
    let id = body[0];
    let fixed: Option<usize> = if id <= 3 {
        Some(0)
    } else if id == 4 {
        Some(4)
    } else if id == 6 || id == 8 {
        Some(12)
    } else if id == 9 {
        Some(2)
    } else {
        None
    };
    match fixed {
        Some(k) => {
            if n != k + 1 {
                return Err(PeerError::Protocol);
            }
        },
        None => {
            if id == 7 && n < 9 {
                return Err(PeerError::Protocol);
            }
        },
    }
    let s = body.as_slice();
    if id == 0 {
        Ok(Message::Choke)
    } else if id == 1 {
        Ok(Message::Unchoke)
    } else if id == 2 {
        Ok(Message::Interested)
    } else if id == 3 {
        Ok(Message::NotInterested)
    } else if id == 4 {
        Ok(Message::Have(read_u32(s, 1)))
    } else if id == 5 {
        Ok(Message::Bitfield(slice_from(body, 1)))
    } else if id == 6 {
        Ok(Message::Request(read_u32(s, 1), read_u32(s, 5), read_u32(s, 9)))
    } else if id == 7 {
        Ok(Message::Piece(read_u32(s, 1), read_u32(s, 5), slice_from(body, 9)))
    } else if id == 8 {
        Ok(Message::Cancel(read_u32(s, 1), read_u32(s, 5), read_u32(s, 9)))
    } else if id == 9 {
        Ok(Message::Port((body[1] as u16) * 256 + body[2] as u16))
    } else {
        Ok(Message::Unknown(id))
    }
}

/// The bytes of `v` from `from` on.
pub fn slice_from(v: &Vec<u8>, from: usize) -> (r: Vec<u8>)
    requires
        from <= v@.len(),
    ensures
        r@ == v@.subrange(from as int, v@.len() as int),
{
    let mut out: Vec<u8> = Vec::new();
    let mut i: usize = from;
    while i < v.len()
        invariant
            from <= i <= v@.len(),
            out@ == v@.subrange(from as int, i as int),
        decreases v.len() - i,
    {
        out.push(v[i]);
        i += 1;
        assert(out@ =~= v@.subrange(from as int, i as int));
    }
    out
}

// ---------------------------------------------------------------------
// Handshake
// ---------------------------------------------------------------------

/// `BitTorrent protocol`
pub open spec fn pstr() -> Seq<u8> {
    seq![66u8, 105, 116, 84, 111, 114, 114, 101, 110, 116, 32, 112, 114, 111, 116, 111, 99, 111, 108]
}

/// The 68-byte handshake: 19, the protocol string, 8 zero bytes, the info
/// hash, the peer id.
pub open spec fn handshake_bytes(info_hash: Seq<u8>, peer_id: Seq<u8>) -> Seq<u8> {
    seq![19u8] + pstr() + Seq::new(8, |i: int| 0u8) + info_hash + peer_id
}

pub fn handshake_serialize(info_hash: &Vec<u8>, peer_id: &Vec<u8>) -> (r: Vec<u8>)
    requires
        info_hash@.len() == 20,
        peer_id@.len() == 20,
    ensures
        r@ == handshake_bytes(info_hash@, peer_id@),
        r@.len() == 68,
{
    let mut m: Vec<u8> = vec![
        19u8, 66, 105, 116, 84, 111, 114, 114, 101, 110, 116, 32, 112, 114, 111, 116, 111, 99, 111, 108,
        0, 0, 0, 0, 0, 0, 0, 0,
    ];
    assert(m@ =~= seq![19u8] + pstr() + Seq::new(8, |i: int| 0u8));
    push_all(info_hash, &mut m);
    push_all(peer_id, &mut m);
    m
}

/// Where the info hash of a handshake with protocol string length `n` starts.
pub open spec fn hash_at(n: int) -> int {
    1 + n + 8
}

/// Checks the handshake a peer sent back: its info hash must be ours.
/// Returns the peer's id.
pub fn check_handshake(response: &Vec<u8>, info_hash: &Vec<u8>) -> (r: Result<Vec<u8>, PeerError>)
    requires
        info_hash@.len() == 20,
    ensures
        response@.len() == 0 || response@.len() < hash_at(response@[0] as int) + 40 ==> r
            == Err::<Vec<u8>, PeerError>(PeerError::Protocol),
        response@.len() > 0 && response@.len() >= hash_at(response@[0] as int) + 40 ==> {
            let h = hash_at(response@[0] as int);
            if response@.subrange(h, h + 20) == info_hash@ {
                r matches Ok(id) && id@ == response@.subrange(h + 20, h + 40)
            } else {
                r == Err::<Vec<u8>, PeerError>(PeerError::HandshakeMismatch)
            }
        },
{
    let n = response.len();
    if n == 0 {
        return Err(PeerError::Protocol);
    }
    let h: usize = 1 + response[0] as usize + 8;
    if n < h + 40 {
        return Err(PeerError::Protocol);
    }
    let mut i: usize = 0;
    while i < 20
        invariant
            h + 40 <= n == response@.len(),
            n > 0,
            h == hash_at(response@[0] as int),
            info_hash@.len() == 20,
            i <= 20,
            response@.subrange(h as int, h + i) == info_hash@.subrange(0, i as int),
        decreases 20 - i,
    {
        if response[h + i] != info_hash[i] {
            assert(response@.subrange(h as int, h + 20)[i as int] != info_hash@[i as int]);
            return Err(PeerError::HandshakeMismatch);
        }
        i += 1;
        assert(response@.subrange(h as int, h + i) =~= info_hash@.subrange(0, i as int));
    }
    assert(info_hash@.subrange(0, 20) =~= info_hash@);
    let mut id: Vec<u8> = Vec::new();
    let mut k: usize = 0;
    while k < 20
        invariant
            h + 40 <= n == response@.len(),
            k <= 20,
            id@ == response@.subrange(h + 20, h + 20 + k),
        decreases 20 - k,
    {
        id.push(response[h + 20 + k]);
        k += 1;
        assert(id@ =~= response@.subrange(h + 20, h + 20 + k));
    }
    Ok(id)
}

} // verus!

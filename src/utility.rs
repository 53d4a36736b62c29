use vstd::prelude::*;
use sha1::Digest;
use crate::bencoding::{encode_value, BDict, BType};

verus! {

/// The port announced to trackers.
pub const PORT: u16 = 6882;

/// SHA-1 digest of a byte sequence.
pub uninterp spec fn sha1_of(data: Seq<u8>) -> Seq<u8>;

/// The text that a byte sequence spells in UTF-8, if it is valid UTF-8.
pub uninterp spec fn utf8_text(data: Seq<u8>) -> Option<Seq<char>>;

pub open spec fn is_ascii_bytes(b: Seq<u8>) -> bool {
    forall|i: int| 0 <= i < b.len() ==> #[trigger] b[i] < 128
}

pub open spec fn text_view(r: Option<String>) -> Option<Seq<char>> {
    match r {
        Some(s) => Some(s@),
        None => None,
    }
}

pub open spec fn ascii_chars(b: Seq<u8>) -> Seq<char> {
    b.map_values(|c: u8| c as char)
}

/// Relies on `sha1::Sha1::digest` (through `Digest`): the 20-byte SHA-1 of the input.
#[verifier::external_body]
pub fn hash(input: Vec<u8>) -> (r: Vec<u8>)
    ensures
        r@ == sha1_of(input@),
        r@.len() == 20,
{
    sha1::Sha1::digest(&input).to_vec()
}

/// Relies on `String::from_utf8`: `Ok` exactly for valid UTF-8, and ASCII is
/// valid UTF-8 with one character per byte.
#[verifier::external_body]
pub(crate) fn utf8_string(bytes: &Vec<u8>) -> (r: Option<String>)
    ensures
        text_view(r) == utf8_text(bytes@),
        is_ascii_bytes(bytes@) ==> text_view(r) == Some(ascii_chars(bytes@)),
{
    String::from_utf8(bytes.clone()).ok()
}

/// Relies on `rand::random::<u64>`: a value drawn from the thread-local generator.
#[verifier::external_body]
pub(crate) fn random_u64() -> (r: u64) {
    rand::random::<u64>()
}

/// Lower-case hexadecimal digit of a value below 16.
pub open spec fn hex_digit(d: u8) -> u8 {
    if d < 10 { (d + 48) as u8 } else { (d + 87) as u8 }
}

/// Two lower-case hex digits per byte.
pub open spec fn hex_of(b: Seq<u8>) -> Seq<u8>
    decreases b.len(),
{
    if b.len() == 0 {
        Seq::empty()
    } else {
        hex_of(b.subrange(0, b.len() - 1)) + seq![
            hex_digit(b[b.len() - 1] / 16),
            hex_digit(b[b.len() - 1] % 16),
        ]
    }
}

fn hex_digit_exec(d: u8) -> (r: u8)
    requires
        d < 16,
    ensures
        r == hex_digit(d),
        r < 128,
{
    if d < 10 { d + 48 } else { d + 87 }
}

proof fn lemma_hex_ascii(b: Seq<u8>)
    ensures
        is_ascii_bytes(hex_of(b)),
        hex_of(b).len() == 2 * b.len(),
    decreases b.len(),
{
    if b.len() > 0 {
        let p = b.subrange(0, b.len() - 1);
        lemma_hex_ascii(p);
        let x = b[b.len() - 1];
        assert(hex_digit(x / 16) < 128 && hex_digit(x % 16) < 128);
        let h = hex_of(b);
        assert forall|i: int| 0 <= i < h.len() implies #[trigger] h[i] < 128 by {
            if i < hex_of(p).len() {
                assert(h[i] == hex_of(p)[i]);
            }
        }
    }
}

/// The bytes written as lower-case hexadecimal text.
pub fn encode_hex(bytes: &[u8]) -> (r: String)
    requires
        bytes@.len() <= usize::MAX / 2,
    ensures
        r@ == ascii_chars(hex_of(bytes@)),
{
    let mut out: Vec<u8> = Vec::new();
    let mut i: usize = 0;
    while i < bytes.len()
        invariant
            i <= bytes@.len(),
            out@ == hex_of(bytes@.subrange(0, i as int)),
        decreases bytes.len() - i,
    {
        let b = bytes[i];
        out.push(hex_digit_exec(b / 16));
        out.push(hex_digit_exec(b % 16));
        assert(bytes@.subrange(0, i + 1).subrange(0, i as int) =~= bytes@.subrange(0, i as int));
        i += 1;
        assert(out@ =~= hex_of(bytes@.subrange(0, i as int)));
    }
    assert(bytes@.subrange(0, bytes.len() as int) =~= bytes@);
    proof {
        lemma_hex_ascii(bytes@);
    }
    match utf8_string(&out) {
        Some(s) => s,
        None => {
            assert(false);
            String::new()
        },
    }
}

/// A copy of the bytes.
pub fn to_vec(data: &[u8]) -> (r: Vec<u8>)
    ensures
        r@ == data@,
{
    let mut out: Vec<u8> = Vec::new();
    let mut i: usize = 0;
    while i < data.len()
        invariant
            i <= data@.len(),
            out@ == data@.subrange(0, i as int),
        decreases data.len() - i,
    {
        out.push(data[i]);
        i += 1;
        assert(out@ =~= data@.subrange(0, i as int));
    }
    assert(out@ =~= data@);
    out
}

/// The key `info`.
pub open spec fn info_key() -> Seq<u8> {
    seq![105u8, 110, 102, 111]
}

/// The SHA-1 of the `info` dictionary of a metainfo dictionary, in its
/// bencoded form; `None` when there is no such dictionary.
pub fn generate_info_hash(torrent: &BDict) -> (r: Option<Vec<u8>>)
    requires
        torrent.wf(),
    ensures
        r is Some <==> torrent.lookup(info_key()) matches Some(BType::BDict(_)),
        r matches Some(h) ==> torrent.lookup(info_key()) matches Some(BType::BDict(info)) && h@
            == sha1_of(encode_value(BType::BDict(info))),
{
    let key: [u8; 4] = [105, 110, 102, 111];
    assert(key@ =~= info_key());
    match torrent.get_dict(key.as_slice()) {
        Some(info) => Some(hash(info.encode())),
        None => None,
    }
}

/// The fixed start of every peer id this client chooses: `-tr0100-`.
pub open spec fn peer_id_prefix() -> Seq<u8> {
    seq![45u8, 116, 114, 48, 49, 48, 48, 45]
}

/// The last `k` decimal digits of `x`, zero padded.
pub open spec fn seed_digits(x: nat, k: nat) -> Seq<u8>
    decreases k,
{
    if k == 0 {
        Seq::empty()
    } else {
        seed_digits(x / 10, (k - 1) as nat).push((x % 10 + 48) as u8)
    }
}

/// The peer id made from a random seed: the prefix, then twelve digits.
pub open spec fn peer_id_of_seed(seed: nat) -> Seq<u8> {
    peer_id_prefix() + seed_digits(seed, 12)
}

proof fn lemma_seed_digits_len(x: nat, k: nat)
    ensures
        seed_digits(x, k).len() == k,
    decreases k,
{
    if k > 0 {
        lemma_seed_digits_len(x / 10, (k - 1) as nat);
    }
}

fn push_seed_digits(x: u64, k: u8, out: &mut Vec<u8>)
    ensures
        final(out)@ == old(out)@ + seed_digits(x as nat, k as nat),
    decreases k,
{
    if k > 0 {
        push_seed_digits(x / 10, k - 1, out);
        out.push((x % 10) as u8 + 48);
    }
    assert(final(out)@ =~= old(out)@ + seed_digits(x as nat, k as nat));
}

/// The 20-byte peer id for a given seed.
pub fn peer_id_from_seed(seed: u64) -> (r: Vec<u8>)
    ensures
        r@ == peer_id_of_seed(seed as nat),
        r@.len() == 20,
{
    let mut out: Vec<u8> = vec![45u8, 116, 114, 48, 49, 48, 48, 45];
    assert(out@ =~= peer_id_prefix());
    push_seed_digits(seed, 12, &mut out);
    proof {
        lemma_seed_digits_len(seed as nat, 12);
    }
    out
}

/// The client's peer id, chosen on first use and kept for the process.
pub struct PeerId(Option<Vec<u8>>);

impl PeerId {
    /// The id, once chosen.
    pub closed spec fn chosen(&self) -> Option<Seq<u8>> {
        match self.0 {
            Some(v) => Some(v@),
            None => None,
        }
    }

    /// A chosen id has the client's shape.
    pub closed spec fn wf(&self) -> bool {
        self.0 matches Some(v) ==> v@.len() == 20 && v@.subrange(0, 8) == peer_id_prefix()
    }

    pub fn new() -> (r: PeerId)
        ensures
            r.chosen() is None,
            r.wf(),
    {
        PeerId(None)
    }

    /// The id: the one chosen before, or a fresh one from a random seed.
    pub fn value(&mut self) -> (r: Vec<u8>)
        requires
            old(self).wf(),
        ensures
            final(self).wf(),
            final(self).chosen() == Some(r@),
            r@.len() == 20,
            r@.subrange(0, 8) == peer_id_prefix(),
            old(self).chosen() is Some ==> old(self).chosen() == Some(r@),
            old(self).chosen() is None ==> exists|seed: nat| r@ == peer_id_of_seed(seed),
    {
        match &self.0 {
            Some(v) => {
                let r = v.clone();
                assert(r@ =~= v@);
                r
            },
            None => {
                let seed = random_u64();
                let id = peer_id_from_seed(seed);
                let kept = id.clone();
                assert(kept@ =~= id@);
                self.0 = Some(kept);
                assert(id@.subrange(0, 8) =~= peer_id_prefix());
                id
            },
        }
    }
}

} // verus!

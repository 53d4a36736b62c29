use vstd::prelude::*;
use crate::bencoding::{
    all_digits, decode_all, digits_value, encode_value, int_text, is_digit, is_value_text,
    lemma_digits_text, lemma_first_byte, lemma_nat_digits_shape, nat_digits, push_int, push_nat,
    wf_value, BDict, BType, DIGIT_0, DIGIT_9,
};
use crate::message::{be32, be32_value, push_u32, read_u32};
use vstd::arithmetic::power2::pow2;

verus! {

/// A peer: IPv4 address (big-endian `u32`) and TCP port.
#[derive(PartialEq, Eq, Structural, Clone, Copy, Debug)]
pub struct Peer {
    pub ip: u32,
    pub port: u16,
}

impl Peer {
    pub fn new(ip: u32, port: u16) -> (r: Peer)
        ensures
            r.ip == ip && r.port == port,
    {
        Peer { ip, port }
    }

    pub fn get_ip(&self) -> (r: u32)
        ensures
            r == self.ip,
    {
        self.ip
    }

    pub fn get_port(&self) -> (r: u16)
        ensures
            r == self.port,
    {
        self.port
    }
}

/// What an announce returns.
pub struct TrackerResponse {
    pub interval: u32,
    pub complete: u32,
    pub incomplete: u32,
    pub peer_list: Vec<Peer>,
}

impl TrackerResponse {
    pub fn get_peer_list(&self) -> (r: Vec<Peer>)
        ensures
            r@ == self.peer_list@,
    {
        let mut out: Vec<Peer> = Vec::new();
        let mut i: usize = 0;
        while i < self.peer_list.len()
            invariant
                i <= self.peer_list@.len(),
                out@ == self.peer_list@.subrange(0, i as int),
            decreases self.peer_list.len() - i,
        {
            out.push(self.peer_list[i]);
            i += 1;
            assert(out@ =~= self.peer_list@.subrange(0, i as int));
        }
        assert(out@ =~= self.peer_list@);
        out
    }
}

/// Why an announce failed.
#[derive(Debug)]
pub enum TrackerError {
    Network,
    HttpStatus(u16),
    Protocol,
    /// The tracker's `failure reason`.
    Failure(Vec<u8>),
}

/// The peer in the 6-byte record at `k`: 4 address bytes, 2 port bytes.
pub open spec fn peer_record(b: Seq<u8>, k: int) -> Peer {
    Peer {
        ip: be32_value(b.subrange(6 * k, 6 * k + 4)),
        port: (b[6 * k + 4] as int * 256 + b[6 * k + 5] as int) as u16,
    }
}

/// The peers of a compact list.
pub open spec fn compact_peers(b: Seq<u8>) -> Seq<Peer> {
    Seq::new((b.len() / 6) as nat, |k: int| peer_record(b, k))
}

/// Decodes a compact peer list: 6 bytes per peer.
pub fn parse_peers_string(peers_string: &[u8]) -> (r: Result<Vec<Peer>, TrackerError>)
    ensures
        peers_string@.len() % 6 != 0 ==> r == Err::<Vec<Peer>, TrackerError>(TrackerError::Protocol),
        peers_string@.len() % 6 == 0 ==> (r matches Ok(v) && v@ == compact_peers(peers_string@)),
{
    let n = peers_string.len();
    if n % 6 != 0 {
        return Err(TrackerError::Protocol);
    }
    let count = n / 6;
    let mut out: Vec<Peer> = Vec::new();
    let mut k: usize = 0;
    while k < count
        invariant
            n == peers_string@.len(),
            n % 6 == 0,
            count == n / 6,
            k <= count,
            out@ == compact_peers(peers_string@).subrange(0, k as int),
        decreases count - k,
    {
        assert(6 * k + 6 <= n) by (nonlinear_arith)
            requires
                k < count,
                count == n / 6,
                n % 6 == 0,
        ;
        let at = 6 * k;
        let ip = read_u32(peers_string, at);
        let port: u16 = (peers_string[at + 4] as u16) * 256 + peers_string[at + 5] as u16;
        out.push(Peer { ip, port });
        k += 1;
        assert(out@ =~= compact_peers(peers_string@).subrange(0, k as int));
    }
    assert(compact_peers(peers_string@).subrange(0, count as int) =~= compact_peers(peers_string@));
    Ok(out)
}

// ---------------------------------------------------------------------
// Dotted IPv4 text
// ---------------------------------------------------------------------

/// `a.b.c.d` in decimal, without leading zeros.
pub open spec fn quad_text(a: nat, b: nat, c: nat, d: nat) -> Seq<u8> {
    nat_digits(a) + seq![46u8] + nat_digits(b) + seq![46u8] + nat_digits(c) + seq![46u8] + nat_digits(d)
}

pub open spec fn quad_ok(s: Seq<u8>, a: nat, b: nat, c: nat, d: nat) -> bool {
    a <= 255 && b <= 255 && c <= 255 && d <= 255 && s == quad_text(a, b, c, d)
}

pub open spec fn quad_value(a: nat, b: nat, c: nat, d: nat) -> u32 {
    (a * 16777216 + b * 65536 + c * 256 + d) as u32
}

/// The address that dotted text spells, if it is dotted IPv4 text.
pub open spec fn ipv4_of(s: Seq<u8>) -> Option<u32> {
    if exists|a: nat, b: nat, c: nat, d: nat| #[trigger] quad_ok(s, a, b, c, d) {
        let (a, b, c, d) = choose|a: nat, b: nat, c: nat, d: nat| #[trigger] quad_ok(s, a, b, c, d);
        Some(quad_value(a, b, c, d))
    } else {
        None
    }
}

/// A number's text followed by a non-digit determines the number.
proof fn lemma_digits_unique(n: nat, m: nat, x: Seq<u8>, y: Seq<u8>)
    requires
        nat_digits(n) + x == nat_digits(m) + y,
        x.len() == 0 || !is_digit(x[0]),
        y.len() == 0 || !is_digit(y[0]),
    ensures
        n == m,
        x == y,
{
    let dn = nat_digits(n);
    let dm = nat_digits(m);
    lemma_nat_digits_shape(n);
    lemma_nat_digits_shape(m);
    let t = dn + x;
    if dn.len() < dm.len() {
        assert(t[dn.len() as int] == dm[dn.len() as int]);
        if x.len() == 0 {
            assert(t.len() == dn.len());
        } else {
            assert(t[dn.len() as int] == x[0]);
        }
    } else if dm.len() < dn.len() {
        assert(t[dm.len() as int] == dn[dm.len() as int]);
        if y.len() == 0 {
            assert(t.len() == dm.len());
        } else {
            assert(t[dm.len() as int] == y[0]);
        }
    }
    assert(dn.len() == dm.len());
    assert(t.subrange(0, dn.len() as int) =~= dn);
    assert((dm + y).subrange(0, dm.len() as int) =~= dm);
    assert(t.subrange(dn.len() as int, t.len() as int) =~= x);
    assert((dm + y).subrange(dm.len() as int, t.len() as int) =~= y);
}

proof fn lemma_group_step(n: nat, m: nat, x: Seq<u8>, y: Seq<u8>)
    requires
        nat_digits(n) + (seq![46u8] + x) == nat_digits(m) + (seq![46u8] + y),
    ensures
        n == m,
        x == y,
{
    assert((seq![46u8] + x)[0] == 46u8);
    assert((seq![46u8] + y)[0] == 46u8);
    lemma_digits_unique(n, m, seq![46u8] + x, seq![46u8] + y);
    assert((seq![46u8] + x).subrange(1, x.len() as int + 1) =~= x);
    assert((seq![46u8] + y).subrange(1, y.len() as int + 1) =~= y);
}

proof fn lemma_quad_shape(a: nat, b: nat, c: nat, d: nat)
    ensures
        quad_text(a, b, c, d) == nat_digits(a) + (seq![46u8] + (nat_digits(b) + (seq![46u8] + (
        nat_digits(c) + (seq![46u8] + nat_digits(d)))))),
{
    let x = nat_digits(a);
    let y = nat_digits(b);
    let z = nat_digits(c);
    let w = nat_digits(d);
    let dot = seq![46u8];
    assert(x + dot + y + dot + z + dot + w =~= x + (dot + (y + (dot + (z + (dot + w))))));
}

proof fn lemma_quad_unique(s: Seq<u8>, a: nat, b: nat, c: nat, d: nat, e: nat, f: nat, g: nat, h: nat)
    requires
        quad_ok(s, a, b, c, d),
        quad_ok(s, e, f, g, h),
    ensures
        a == e && b == f && c == g && d == h,
{
    let dot = seq![46u8];
    let t1 = nat_digits(b) + (dot + (nat_digits(c) + (dot + nat_digits(d))));
    let t2 = nat_digits(f) + (dot + (nat_digits(g) + (dot + nat_digits(h))));
    lemma_quad_shape(a, b, c, d);
    lemma_quad_shape(e, f, g, h);
    lemma_group_step(a, e, t1, t2);
    lemma_group_step(b, f, nat_digits(c) + (dot + nat_digits(d)), nat_digits(g) + (dot + nat_digits(h)));
    lemma_group_step(c, g, nat_digits(d), nat_digits(h));
    assert(nat_digits(d) =~= nat_digits(d) + Seq::<u8>::empty());
    assert(nat_digits(h) =~= nat_digits(h) + Seq::<u8>::empty());
    lemma_digits_unique(d, h, Seq::<u8>::empty(), Seq::<u8>::empty());
}

/// The text of `n` stands at `pos`, followed by a non-digit or the end.
pub open spec fn octet_at(s: Seq<u8>, pos: int, n: nat) -> bool {
    &&& n <= 255
    &&& pos + nat_digits(n).len() <= s.len()
    &&& s.subrange(pos, pos + nat_digits(n).len()) == nat_digits(n)
    &&& (pos + nat_digits(n).len() == s.len() || !is_digit(s[pos + nat_digits(n).len()]))
}

/// Reads the run of digits at `pos` as a number up to 255 without a
/// leading zero.
fn read_octet(s: &[u8], pos: usize, Ghost(target): Ghost<Option<nat>>) -> (r: Option<(u32, usize)>)
    requires
        pos <= s@.len(),
    ensures
        r matches Some((v, next)) ==> {
            &&& pos < next <= s@.len()
            &&& v <= 255
            &&& s@.subrange(pos as int, next as int) == nat_digits(v as nat)
            &&& (next == s@.len() || !is_digit(s@[next as int]))
        },
        target is Some && octet_at(s@, pos as int, target->0) ==> r == Some(
            (target->0 as u32, (pos + nat_digits(target->0).len()) as usize),
        ),
{
    let len = s.len();
    let ghost hyp = target is Some && octet_at(s@, pos as int, target->0);
    let ghost n = target->0;
    let ghost dn = nat_digits(n);
    proof {
        lemma_nat_digits_shape(n);
        if hyp {
            assert(s@[pos as int] == s@.subrange(pos as int, pos + dn.len())[0]);
            assert forall|i: int| pos <= i < pos + dn.len() implies s@[i] == #[trigger] dn[i - pos] by {
                assert(s@[i] == s@.subrange(pos as int, pos + dn.len())[i - pos]);
            }
        }
    }
    if pos >= len || !(DIGIT_0 <= s[pos] && s[pos] <= DIGIT_9) {
        return None;
    }
    let mut p: usize = pos + 1;
    let mut acc: u32 = (s[pos] - DIGIT_0) as u32;
    proof {
        let one = s@.subrange(pos as int, p as int);
        assert(one.subrange(0, 0) =~= Seq::<u8>::empty());
        assert(digits_value(Seq::<u8>::empty()) == 0);
        assert(one[0] == s@[pos as int]);
        assert(digits_value(one) == acc);
        assert(all_digits(one));
    }
    if s[pos] != DIGIT_0 {
        while p < len && DIGIT_0 <= s[p] && s[p] <= DIGIT_9
            invariant
                pos < p <= len == s@.len(),
                s@[pos as int] != DIGIT_0,
                is_digit(s@[pos as int]),
                all_digits(s@.subrange(pos as int, p as int)),
                acc as nat == digits_value(s@.subrange(pos as int, p as int)),
                acc <= 255,
                hyp == (target is Some && octet_at(s@, pos as int, target->0)),
                n == target->0,
                dn == nat_digits(n),
                hyp ==> {
                    &&& p <= pos + dn.len()
                    &&& forall|i: int| pos <= i < pos + dn.len() ==> s@[i] == #[trigger] dn[i - pos]
                    &&& all_digits(dn)
                    &&& digits_value(dn) == n
                },
            decreases len - p,
        {
            let d: u32 = (s[p] - DIGIT_0) as u32;
            assert(s@.subrange(pos as int, p + 1).subrange(0, p - pos) =~= s@.subrange(pos as int, p as int));
            if acc * 10 + d > 255 {
                proof {
                    if hyp {
                        if p == pos + dn.len() {
                            assert(is_digit(s@[p as int]));
                        }
                        assert forall|j: int| 0 <= j < p + 1 - pos implies #[trigger] s@.subrange(
                            pos as int,
                            p + 1,
                        )[j] == dn.subrange(0, p + 1 - pos)[j] by {
                            assert(s@[pos + j] == dn[pos + j - pos]);
                        }
                        assert(s@.subrange(pos as int, p + 1) =~= dn.subrange(0, p + 1 - pos));
                        crate::bencoding::lemma_digits_value_prefix(dn, p + 1 - pos);
                    }
                }
                return None;
            }
            acc = acc * 10 + d;
            p += 1;
        }
        proof {
            if hyp {
                if p < pos + dn.len() {
                    assert(is_digit(dn[p - pos]));
                }
                assert(p == pos + dn.len());
                assert forall|j: int| 0 <= j < dn.len() implies #[trigger] s@.subrange(
                    pos as int,
                    p as int,
                )[j] == dn[j] by {
                    assert(s@[pos + j] == dn[pos + j - pos]);
                }
                assert(s@.subrange(pos as int, p as int) =~= dn);
            }
        }
    } else {
        proof {
            if hyp {
                assert(n == 0);
                assert(dn.len() == 1);
            }
        }
    }
    if p < len && DIGIT_0 <= s[p] && s[p] <= DIGIT_9 {
        return None;
    }
    proof {
        let ds = s@.subrange(pos as int, p as int);
        if s@[pos as int] == DIGIT_0 {
            assert(ds =~= seq![DIGIT_0]);
            lemma_nat_digits_shape(0);
        } else {
            assert(ds[0] == s@[pos as int]);
            lemma_digits_text(ds);
        }
    }
    Some((acc, p))
}

proof fn lemma_quad_positions(s: Seq<u8>, a: nat, b: nat, c: nat, d: nat)
    requires
        s == quad_text(a, b, c, d),
    ensures
        ({
            let at_b = nat_digits(a).len() as int;
            let at_c = at_b + 1 + nat_digits(b).len();
            let at_d = at_c + 1 + nat_digits(c).len();
            &&& at_d + 1 + nat_digits(d).len() == s.len()
            &&& s.subrange(0, at_b) == nat_digits(a)
            &&& s[at_b] == 46u8
            &&& s.subrange(at_b + 1, at_c) == nat_digits(b)
            &&& s[at_c] == 46u8
            &&& s.subrange(at_c + 1, at_d) == nat_digits(c)
            &&& s[at_d] == 46u8
            &&& s.subrange(at_d + 1, s.len() as int) == nat_digits(d)
        }),
{
    let at_b = nat_digits(a).len() as int;
    let at_c = at_b + 1 + nat_digits(b).len();
    let at_d = at_c + 1 + nat_digits(c).len();
    assert(s.subrange(0, at_b) =~= nat_digits(a));
    assert(s.subrange(at_b + 1, at_c) =~= nat_digits(b));
    assert(s.subrange(at_c + 1, at_d) =~= nat_digits(c));
    assert(s.subrange(at_d + 1, s.len() as int) =~= nat_digits(d));
}

/// The address that dotted IPv4 text spells: four numbers up to 255,
/// without leading zeros, joined by dots.
#[verifier::rlimit(40)]
pub fn parse_ipv4(s: &[u8]) -> (r: Option<u32>)
    ensures
        r == ipv4_of(s@),
{
    let ghost has = exists|a: nat, b: nat, c: nat, d: nat| #[trigger] quad_ok(s@, a, b, c, d);
    let ghost (wa, wb, wc, wd) = if has {
        choose|a: nat, b: nat, c: nat, d: nat| #[trigger] quad_ok(s@, a, b, c, d)
    } else {
        (0nat, 0nat, 0nat, 0nat)
    };
    let ghost at_b = nat_digits(wa).len() as int;
    let ghost at_c = at_b + 1 + nat_digits(wb).len();
    let ghost at_d = at_c + 1 + nat_digits(wc).len();
    proof {
        if has {
            lemma_quad_positions(s@, wa, wb, wc, wd);
            assert(!is_digit(46u8));
            assert(octet_at(s@, 0, wa));
            assert(octet_at(s@, at_b + 1, wb));
            assert(octet_at(s@, at_c + 1, wc));
            assert(octet_at(s@, at_d + 1, wd));
        }
    }
    let len = s.len();
    assert(has ==> at_d + 1 + nat_digits(wd).len() == len);
    let (a, end_a) = match read_octet(s, 0, Ghost(if has { Some(wa) } else { None })) {
        Some(x) => x,
        None => {
            return None;
        },
    };
    if end_a >= len || s[end_a] != 46 {
        return None;
    }
    let (b, end_b) = match read_octet(s, end_a + 1, Ghost(if has { Some(wb) } else { None })) {
        Some(x) => x,
        None => {
            return None;
        },
    };
    if end_b >= len || s[end_b] != 46 {
        return None;
    }
    let (c, end_c) = match read_octet(s, end_b + 1, Ghost(if has { Some(wc) } else { None })) {
        Some(x) => x,
        None => {
            return None;
        },
    };
    if end_c >= len || s[end_c] != 46 {
        return None;
    }
    let (d, end_d) = match read_octet(s, end_c + 1, Ghost(if has { Some(wd) } else { None })) {
        Some(x) => x,
        None => {
            return None;
        },
    };
    if end_d != len {
        return None;
    }
    proof {
        assert(s@ =~= quad_text(a as nat, b as nat, c as nat, d as nat));
        assert(quad_ok(s@, a as nat, b as nat, c as nat, d as nat));
        let (x, y, z, w) = choose|x: nat, y: nat, z: nat, w: nat| #[trigger] quad_ok(s@, x, y, z, w);
        lemma_quad_unique(s@, a as nat, b as nat, c as nat, d as nat, x, y, z, w);
    }
    Some(a * 16777216 + b * 65536 + c * 256 + d)
}

pub open spec fn key_ip() -> Seq<u8> {
    seq![105u8, 112]
}

pub open spec fn key_port() -> Seq<u8> {
    seq![112u8, 111, 114, 116]
}

/// The peer of a non-compact list entry: a dictionary with `ip`, dotted
/// IPv4 text, and `port`, an integer that fits a `u16`.
pub open spec fn peer_entry(v: BType) -> Option<Peer> {
    match v {
        BType::BDict(e) => match (e.lookup(key_ip()), e.lookup(key_port())) {
            (Some(BType::BString(ip)), Some(BType::BInt(port))) => match ipv4_of(ip.0@) {
                Some(addr) => if 0 <= port.0 <= 65535 {
                    Some(Peer { ip: addr, port: port.0 as u16 })
                } else {
                    None
                },
                None => None,
            },
            _ => None,
        },
        _ => None,
    }
}

/// The peers of a non-compact list, in order; entries that are not IPv4
/// peers are passed over.
pub open spec fn listed_peers(items: Seq<BType>) -> Seq<Peer>
    decreases items.len(),
{
    if items.len() == 0 {
        Seq::empty()
    } else {
        listed_peers(items.subrange(0, items.len() - 1)) + match peer_entry(items[items.len() - 1]) {
            Some(p) => seq![p],
            None => Seq::empty(),
        }
    }
}

fn entry_peer(v: &BType) -> (r: Option<Peer>)
    requires
        wf_value(*v),
    ensures
        r == peer_entry(*v),
{
    match v {
        BType::BDict(e) => {
            let ik: [u8; 2] = [105, 112];
            let pk: [u8; 4] = [112, 111, 114, 116];
            assert(ik@ =~= key_ip());
            assert(pk@ =~= key_port());
            match (e.get(ik.as_slice()), e.get(pk.as_slice())) {
                (Some(BType::BString(ip)), Some(BType::BInt(port))) => match parse_ipv4(ip.0.as_slice()) {
                    Some(addr) => {
                        if 0 <= port.0 && port.0 <= 65535 {
                            Some(Peer { ip: addr, port: port.0 as u16 })
                        } else {
                            None
                        }
                    },
                    None => None,
                },
                _ => None,
            }
        },
        _ => None,
    }
}

/// Decodes a non-compact peer list.
pub fn parse_peer_list(items: &Vec<BType>) -> (r: Vec<Peer>)
    requires
        forall|j: int| 0 <= j < items@.len() ==> wf_value(#[trigger] items@[j]),
    ensures
        r@ == listed_peers(items@),
{
    let mut out: Vec<Peer> = Vec::new();
    let mut i: usize = 0;
    while i < items.len()
        invariant
            i <= items@.len(),
            forall|j: int| 0 <= j < items@.len() ==> wf_value(#[trigger] items@[j]),
            out@ == listed_peers(items@.subrange(0, i as int)),
        decreases items.len() - i,
    {
        let e = entry_peer(&items[i]);
        let ghost before = out@;
        match e {
            Some(p) => {
                out.push(p);
            },
            None => {},
        }
        assert(items@.subrange(0, i + 1).subrange(0, i as int) =~= items@.subrange(0, i as int));
        i += 1;
        assert(out@ =~= listed_peers(items@.subrange(0, i as int)));
    }
    assert(items@.subrange(0, items.len() as int) =~= items@);
    out
}

// ---------------------------------------------------------------------
// HTTP tracker responses
// ---------------------------------------------------------------------

pub open spec fn key_failure() -> Seq<u8> {
    seq![102u8, 97, 105, 108, 117, 114, 101, 32, 114, 101, 97, 115, 111, 110]
}

pub open spec fn key_interval() -> Seq<u8> {
    seq![105u8, 110, 116, 101, 114, 118, 97, 108]
}

pub open spec fn key_complete() -> Seq<u8> {
    seq![99u8, 111, 109, 112, 108, 101, 116, 101]
}

pub open spec fn key_incomplete() -> Seq<u8> {
    seq![105u8, 110, 99, 111, 109, 112, 108, 101, 116, 101]
}

pub open spec fn key_peers() -> Seq<u8> {
    seq![112u8, 101, 101, 114, 115]
}

/// A count field: absent is 0; present, an integer that fits a `u32`.
pub open spec fn count_field(d: BDict, k: Seq<u8>) -> Option<u32> {
    match d.lookup(k) {
        None => Some(0u32),
        Some(BType::BInt(i)) => if 0 <= i.0 <= u32::MAX {
            Some(i.0 as u32)
        } else {
            None
        },
        _ => None,
    }
}

fn count_of(d: &BDict, key: &[u8]) -> (r: Option<u32>)
    requires
        d.wf(),
    ensures
        r == count_field(*d, key@),
{
    match d.get(key) {
        None => Some(0),
        Some(BType::BInt(i)) => {
            if 0 <= i.0 && i.0 <= 4294967295 {
                Some(i.0 as u32)
            } else {
                None
            }
        },
        _ => None,
    }
}

/// The peers a `peers` value lists: a compact string, or a list of
/// dictionaries; `None` for anything else.
pub open spec fn peers_field(v: BType) -> Option<Seq<Peer>> {
    match v {
        BType::BString(p) => if p.0@.len() % 6 == 0 {
            Some(compact_peers(p.0@))
        } else {
            None
        },
        BType::BList(l) => Some(listed_peers(l.0@)),
        _ => None,
    }
}

/// `r` is what a response dictionary `d` says: a `failure reason` is a
/// failure; otherwise `interval` is required, `complete` and `incomplete`
/// count 0 when absent, and `peers` is a compact string or a list of
/// peer dictionaries.
pub open spec fn reply_matches(d: BDict, r: Result<TrackerResponse, TrackerError>) -> bool {
    match d.lookup(key_failure()) {
        Some(BType::BString(s)) => r matches Err(TrackerError::Failure(t)) && t@ == s.0@,
        Some(_) => r == Err::<TrackerResponse, TrackerError>(TrackerError::Protocol),
        None => {
            if d.lookup(key_interval()) is None || count_field(d, key_interval()) is None
                || count_field(d, key_complete()) is None || count_field(d, key_incomplete()) is None
                || !(d.lookup(key_peers()) matches Some(v) && peers_field(v) is Some) {
                r == Err::<TrackerResponse, TrackerError>(TrackerError::Protocol)
            } else {
                &&& r matches Ok(t)
                &&& t.interval == count_field(d, key_interval())->0
                &&& t.complete == count_field(d, key_complete())->0
                &&& t.incomplete == count_field(d, key_incomplete())->0
                &&& t.peer_list@ == peers_field(d.lookup(key_peers())->0)->0
            }
        },
    }
}

/// The tracker's answer in a decoded response dictionary.
pub fn parse_tracker_response(tracker_response: &BDict) -> (r: Result<TrackerResponse, TrackerError>)
    requires
        wf_value(BType::BDict(*tracker_response)),
    ensures
        reply_matches(*tracker_response, r),
{
    let fk: [u8; 14] = [102, 97, 105, 108, 117, 114, 101, 32, 114, 101, 97, 115, 111, 110];
    let ik: [u8; 8] = [105, 110, 116, 101, 114, 118, 97, 108];
    let ck: [u8; 8] = [99, 111, 109, 112, 108, 101, 116, 101];
    let nk: [u8; 10] = [105, 110, 99, 111, 109, 112, 108, 101, 116, 101];
    let pk: [u8; 5] = [112, 101, 101, 114, 115];
    assert(fk@ =~= key_failure());
    assert(ik@ =~= key_interval());
    assert(ck@ =~= key_complete());
    assert(nk@ =~= key_incomplete());
    assert(pk@ =~= key_peers());
    match tracker_response.get(fk.as_slice()) {
        Some(BType::BString(s)) => {
            return Err(TrackerError::Failure(s.0.clone()));
        },
        Some(_) => {
            return Err(TrackerError::Protocol);
        },
        None => {},
    }
    if tracker_response.get(ik.as_slice()).is_none() {
        return Err(TrackerError::Protocol);
    }
    let interval = match count_of(tracker_response, ik.as_slice()) {
        Some(v) => v,
        None => {
            return Err(TrackerError::Protocol);
        },
    };
    let complete = match count_of(tracker_response, ck.as_slice()) {
        Some(v) => v,
        None => {
            return Err(TrackerError::Protocol);
        },
    };
    let incomplete = match count_of(tracker_response, nk.as_slice()) {
        Some(v) => v,
        None => {
            return Err(TrackerError::Protocol);
        },
    };
    proof {
        crate::bencoding::lemma_lookup_wf(tracker_response.0@, key_peers());
    }
    let peer_list = match tracker_response.get(pk.as_slice()) {
        Some(BType::BString(p)) => parse_peers_string(p.0.as_slice())?,
        Some(BType::BList(l)) => {
            proof {
                crate::bencoding::lemma_items_wf(l.0@);
            }
            parse_peer_list(&l.0)
        },
        _ => {
            return Err(TrackerError::Protocol);
        },
    };
    Ok(TrackerResponse { interval, complete, incomplete, peer_list })
}

/// What an HTTP tracker answered: the status must be 200 and the body the
/// text of one dictionary, which then says what `reply_matches` states.
pub fn http_response(status: u16, body: &Vec<u8>) -> (r: Result<TrackerResponse, TrackerError>)
    ensures
        status != 200 ==> r == Err::<TrackerResponse, TrackerError>(TrackerError::HttpStatus(status)),
        status == 200 ==> {
            ||| (exists|d: BDict|
                wf_value(BType::BDict(d)) && #[trigger] encode_value(BType::BDict(d)) == body@
                    && reply_matches(d, r))
            ||| (r == Err::<TrackerResponse, TrackerError>(TrackerError::Protocol) && !exists|d: BDict|
                wf_value(BType::BDict(d)) && #[trigger] encode_value(BType::BDict(d)) == body@)
        },
{
    if status != 200 {
        return Err(TrackerError::HttpStatus(status));
    }
    match decode_all(body) {
        Ok(BType::BDict(d)) => {
            let r = parse_tracker_response(&d);
            assert(wf_value(BType::BDict(d)) && encode_value(BType::BDict(d)) == body@);
            r
        },
        Ok(v) => {
            proof {
                lemma_first_byte(v);
                assert forall|d: BDict| wf_value(BType::BDict(d)) implies #[trigger] encode_value(
                    BType::BDict(d),
                ) != body@ by {
                    lemma_first_byte(BType::BDict(d));
                }
            }
            Err(TrackerError::Protocol)
        },
        Err(_) => {
            assert forall|d: BDict| wf_value(BType::BDict(d)) implies #[trigger] encode_value(
                BType::BDict(d),
            ) != body@ by {
                if encode_value(BType::BDict(d)) == body@ {
                    assert(is_value_text(body@));
                }
            }
            Err(TrackerError::Protocol)
        },
    }
}

// ---------------------------------------------------------------------
// UDP trackers
// ---------------------------------------------------------------------

/// The magic constant that opens a UDP connect request.
pub const PROTOCOL_ID: u64 = 0x41727101980;

/// Seconds for which a UDP connection id may be used.
pub const CONNECTION_ID_LIFETIME: u64 = 60;

/// Big-endian bytes of a `u64`.
pub open spec fn be64(n: u64) -> Seq<u8> {
    be32((n >> 32u64) as u32) + be32(n as u32)
}

pub open spec fn be64_value(b: Seq<u8>) -> u64 {
    ((be32_value(b.subrange(0, 4)) as u64) << 32u64) | (be32_value(b.subrange(4, 8)) as u64)
}

fn push_u64(n: u64, out: &mut Vec<u8>)
    ensures
        final(out)@ == old(out)@ + be64(n),
{
    push_u32((n >> 32u64) as u32, out);
    push_u32(n as u32, out);
    assert(final(out)@ =~= old(out)@ + be64(n));
}

fn read_u64(b: &[u8], at: usize) -> (r: u64)
    requires
        at + 8 <= b@.len(),
    ensures
        r == be64_value(b@.subrange(at as int, at + 8)),
{
    let n = b.len();
    let hi = read_u32(b, at);
    let lo = read_u32(b, at + 4);
    assert(b@.subrange(at as int, at + 8).subrange(0, 4) =~= b@.subrange(at as int, at + 4));
    assert(b@.subrange(at as int, at + 8).subrange(4, 8) =~= b@.subrange(at + 4, at + 8));
    ((hi as u64) << 32u64) | (lo as u64)
}

/// The 16-byte connect request.
pub fn build_connect_req(transaction_id: u32) -> (r: Vec<u8>)
    ensures
        r@ == be64(PROTOCOL_ID) + be32(0) + be32(transaction_id),
        r@.len() == 16,
{
    let mut buffer: Vec<u8> = Vec::new();
    push_u64(PROTOCOL_ID, &mut buffer);
    push_u32(0, &mut buffer);
    push_u32(transaction_id, &mut buffer);
    assert(buffer@ =~= be64(PROTOCOL_ID) + be32(0) + be32(transaction_id));
    buffer
}

/// The connection id of a connect response: at least 16 bytes, action 0,
/// our transaction id.
pub fn parse_connect_resp(buffer: &[u8], transaction_id: u32) -> (r: Result<u64, TrackerError>)
    ensures
        ({
            let b = buffer@;
            if b.len() >= 16 && be32_value(b.subrange(0, 4)) == 0 && be32_value(b.subrange(4, 8))
                == transaction_id {
                r == Ok::<u64, TrackerError>(be64_value(b.subrange(8, 16)))
            } else {
                r == Err::<u64, TrackerError>(TrackerError::Protocol)
            }
        }),
{
    if buffer.len() < 16 {
        return Err(TrackerError::Protocol);
    }
    if read_u32(buffer, 0) != 0 {
        return Err(TrackerError::Protocol);
    }
    if read_u32(buffer, 4) != transaction_id {
        return Err(TrackerError::Protocol);
    }
    Ok(read_u64(buffer, 8))
}

/// The event of an announce.
#[derive(PartialEq, Eq, Structural, Clone, Copy, Debug)]
pub enum AnnounceEvent {
    Started,
    Completed,
    Stopped,
}

/// Event code of a UDP announce: 0 none, 1 completed, 2 started, 3 stopped.
pub open spec fn event_code(event: Option<AnnounceEvent>) -> u32 {
    match event {
        None => 0,
        Some(AnnounceEvent::Completed) => 1,
        Some(AnnounceEvent::Started) => 2,
        Some(AnnounceEvent::Stopped) => 3,
    }
}

fn event_value(event: Option<AnnounceEvent>) -> (r: u32)
    ensures
        r == event_code(event),
{
    match event {
        None => 0,
        Some(AnnounceEvent::Completed) => 1,
        Some(AnnounceEvent::Started) => 2,
        Some(AnnounceEvent::Stopped) => 3,
    }
}

fn push_bytes_all(src: &Vec<u8>, out: &mut Vec<u8>)
    ensures
        final(out)@ == old(out)@ + src@,
{
    let mut i: usize = 0;
    let ghost start = out@;
    while i < src.len()
        invariant
            i <= src@.len(),
            out@ == start + src@.subrange(0, i as int),
        decreases src.len() - i,
    {
        out.push(src[i]);
        i += 1;
        assert(out@ =~= start + src@.subrange(0, i as int));
    }
    assert(src@.subrange(0, src.len() as int) =~= src@);
}

/// The 98-byte announce request.
pub open spec fn announce_bytes(
    connection_id: u64,
    transaction_id: u32,
    info_hash: Seq<u8>,
    peer_id: Seq<u8>,
    downloaded: i64,
    left: i64,
    uploaded: i64,
    event: Option<AnnounceEvent>,
    key: u32,
    port: u16,
) -> Seq<u8> {
    be64(connection_id) + be32(1) + be32(transaction_id) + info_hash + peer_id + be64(
        downloaded as u64,
    ) + be64(left as u64) + be64(uploaded as u64) + be32(event_code(event)) + be32(0) + be32(key)
        + be32(0xffffffffu32) + seq![(port >> 8u16) as u8, port as u8]
}

pub fn build_announce_req(
    connection_id: u64,
    transaction_id: u32,
    info_hash: &Vec<u8>,
    peer_id: &Vec<u8>,
    downloaded: i64,
    left: i64,
    uploaded: i64,
    event: Option<AnnounceEvent>,
    key: u32,
    port: u16,
) -> (r: Vec<u8>)
    requires
        info_hash@.len() == 20,
        peer_id@.len() == 20,
    ensures
        r@ == announce_bytes(
            connection_id,
            transaction_id,
            info_hash@,
            peer_id@,
            downloaded,
            left,
            uploaded,
            event,
            key,
            port,
        ),
        r@.len() == 98,
{
    let mut buffer: Vec<u8> = Vec::new();
    push_u64(connection_id, &mut buffer);
    push_u32(1, &mut buffer);
    push_u32(transaction_id, &mut buffer);
    push_bytes_all(info_hash, &mut buffer);
    push_bytes_all(peer_id, &mut buffer);
    push_u64(downloaded as u64, &mut buffer);
    push_u64(left as u64, &mut buffer);
    push_u64(uploaded as u64, &mut buffer);
    push_u32(event_value(event), &mut buffer);
    push_u32(0, &mut buffer);
    push_u32(key, &mut buffer);
    push_u32(0xffffffff, &mut buffer);
    buffer.push((port >> 8u16) as u8);
    buffer.push(port as u8);
    assert(buffer@ =~= announce_bytes(
        connection_id,
        transaction_id,
        info_hash@,
        peer_id@,
        downloaded,
        left,
        uploaded,
        event,
        key,
        port,
    ));
    buffer
}

/// An announce response: at least 20 bytes, action 1, our transaction id,
/// then interval, leechers, seeders, and 6-byte peer records.
pub fn parse_announce_resp(buffer: &[u8], transaction_id: u32) -> (r: Result<TrackerResponse, TrackerError>)
    ensures
        ({
            let b = buffer@;
            if b.len() >= 20 && be32_value(b.subrange(0, 4)) == 1 && be32_value(b.subrange(4, 8))
                == transaction_id && (b.len() - 20) % 6 == 0 {
                &&& r matches Ok(t)
                &&& t.interval == be32_value(b.subrange(8, 12))
                &&& t.incomplete == be32_value(b.subrange(12, 16))
                &&& t.complete == be32_value(b.subrange(16, 20))
                &&& t.peer_list@ == compact_peers(b.subrange(20, b.len() as int))
            } else {
                r == Err::<TrackerResponse, TrackerError>(TrackerError::Protocol)
            }
        }),
{
    let n = buffer.len();
    if n < 20 {
        return Err(TrackerError::Protocol);
    }
    if read_u32(buffer, 0) != 1 {
        return Err(TrackerError::Protocol);
    }
    if read_u32(buffer, 4) != transaction_id {
        return Err(TrackerError::Protocol);
    }
    let interval = read_u32(buffer, 8);
    let incomplete = read_u32(buffer, 12);
    let complete = read_u32(buffer, 16);
    let peers = crate::message::slice_from(&crate::utility::to_vec(buffer), 20);
    let peer_list = parse_peers_string(peers.as_slice())?;
    Ok(TrackerResponse { interval, complete, incomplete, peer_list })
}

/// The connection id of a UDP tracker and when it was obtained.
pub struct UdpSession {
    pub connection: Option<(u64, u64)>,
}

/// The connection id that may be used at `now`, if any: one obtained less
/// than a minute before.
pub open spec fn usable_id(connection: Option<(u64, u64)>, now: u64) -> Option<u64> {
    match connection {
        Some((id, at)) => if at <= now && now - at < CONNECTION_ID_LIFETIME {
            Some(id)
        } else {
            None
        },
        None => None,
    }
}

impl UdpSession {
    pub fn new() -> (r: UdpSession)
        ensures
            r.connection is None,
    {
        UdpSession { connection: None }
    }

    /// The connection id to announce with at `now`; `None` means a connect
    /// request must come first.
    pub fn connection_id(&self, now: u64) -> (r: Option<u64>)
        ensures
            r == usable_id(self.connection, now),
    {
        match self.connection {
            Some((id, at)) => {
                if at <= now && now - at < CONNECTION_ID_LIFETIME {
                    Some(id)
                } else {
                    None
                }
            },
            None => None,
        }
    }

    /// Records the id of a connect response received at `now`.
    pub fn on_connected(&mut self, connection_id: u64, now: u64)
        ensures
            final(self).connection == Some((connection_id, now)),
    {
        self.connection = Some((connection_id, now));
    }
}

/// A connection id obtained at `t` serves every announce until a minute
/// has passed: no new connect is needed within that window.
pub proof fn lemma_connection_id_reused(s: UdpSession, id: u64, t: u64, later: u64)
    requires
        s.connection == Some((id, t)),
        t <= later,
        later - t < CONNECTION_ID_LIFETIME,
    ensures
        usable_id(s.connection, later) == Some(id),
{
}

/// Seconds to wait for the `n`-th try of a UDP request: 15 · 2^n, for n up
/// to 8; `None` after that, when the tracker is given up.
pub fn retry_timeout(n: u32) -> (r: Option<u64>)
    ensures
        n <= 8 ==> r == Some((15 * pow2(n as nat)) as u64),
        n > 8 ==> r is None,
{
    if n > 8 {
        return None;
    }
    let mut t: u64 = 15;
    let mut k: u32 = 0;
    proof {
        vstd::arithmetic::power2::lemma2_to64();
    }
    while k < n
        invariant
            k <= n <= 8,
            t == 15 * pow2(k as nat),
        decreases n - k,
    {
        proof {
            vstd::arithmetic::power2::lemma_pow2_unfold((k + 1) as nat);
            vstd::arithmetic::power2::lemma_pow2_strictly_increases(k as nat, 8);
            vstd::arithmetic::power2::lemma2_to64();
        }
        t = t * 2;
        k += 1;
    }
    Some(t)
}

// ---------------------------------------------------------------------
// HTTP announce query
// ---------------------------------------------------------------------

/// Bytes a URL carries as they are: ASCII letters, digits and `-._~`.
pub open spec fn unreserved(b: u8) -> bool {
    (48 <= b <= 57) || (65 <= b <= 90) || (97 <= b <= 122) || b == 45 || b == 46 || b == 95 || b
        == 126
}

pub open spec fn upper_hex(d: u8) -> u8 {
    if d < 10 { (d + 48) as u8 } else { (d + 55) as u8 }
}

/// Percent encoding of one byte: an unreserved byte stays, any other is
/// `%` and two upper-case hex digits.
pub open spec fn percent_byte(b: u8) -> Seq<u8> {
    if unreserved(b) {
        seq![b]
    } else {
        seq![37u8, upper_hex(b / 16), upper_hex(b % 16)]
    }
}

pub open spec fn percent_encoded(s: Seq<u8>) -> Seq<u8>
    decreases s.len(),
{
    if s.len() == 0 {
        Seq::empty()
    } else {
        percent_encoded(s.subrange(0, s.len() - 1)) + percent_byte(s[s.len() - 1])
    }
}

fn hex_upper(d: u8) -> (r: u8)
    requires
        d < 16,
    ensures
        r == upper_hex(d),
{
    if d < 10 { d + 48 } else { d + 55 }
}

/// Percent-encodes raw bytes for a query string.
pub fn percent_encode(b: &Vec<u8>) -> (r: Vec<u8>)
    ensures
        r@ == percent_encoded(b@),
{
    let mut out: Vec<u8> = Vec::new();
    let mut i: usize = 0;
    while i < b.len()
        invariant
            i <= b@.len(),
            out@ == percent_encoded(b@.subrange(0, i as int)),
        decreases b.len() - i,
    {
        let c = b[i];
        let ghost before = out@;
        if (48 <= c && c <= 57) || (65 <= c && c <= 90) || (97 <= c && c <= 122) || c == 45 || c == 46
            || c == 95 || c == 126 {
            out.push(c);
        } else {
            out.push(37);
            out.push(hex_upper(c / 16));
            out.push(hex_upper(c % 16));
        }
        assert(b@.subrange(0, i + 1).subrange(0, i as int) =~= b@.subrange(0, i as int));
        i += 1;
        assert(out@ =~= percent_encoded(b@.subrange(0, i as int)));
    }
    assert(b@.subrange(0, b.len() as int) =~= b@);
    out
}

pub open spec fn event_name(e: AnnounceEvent) -> Seq<u8> {
    match e {
        AnnounceEvent::Started => seq![115u8, 116, 97, 114, 116, 101, 100],
        AnnounceEvent::Completed => seq![99u8, 111, 109, 112, 108, 101, 116, 101, 100],
        AnnounceEvent::Stopped => seq![115u8, 116, 111, 112, 112, 101, 100],
    }
}

/// The query of an HTTP announce, in the order `peer_id`, `port`,
/// `uploaded`, `downloaded`, `left`, `compact=1`, `event` if any,
/// `info_hash`; the raw hash and id bytes are percent-encoded.
pub open spec fn query_bytes(
    info_hash: Seq<u8>,
    peer_id: Seq<u8>,
    port: u16,
    uploaded: i64,
    downloaded: i64,
    left: i64,
    event: Option<AnnounceEvent>,
) -> Seq<u8> {
    seq![112u8, 101, 101, 114, 95, 105, 100, 61] + percent_encoded(peer_id) + seq![38u8, 112, 111, 114, 116, 61]
        + nat_digits(port as nat) + seq![38u8, 117, 112, 108, 111, 97, 100, 101, 100, 61] + int_text(
        uploaded as int,
    ) + seq![38u8, 100, 111, 119, 110, 108, 111, 97, 100, 101, 100, 61] + int_text(downloaded as int)
        + seq![38u8, 108, 101, 102, 116, 61] + int_text(left as int) + seq![38u8, 99, 111, 109, 112, 97, 99, 116, 61, 49]
        + match event {
        Some(e) => seq![38u8, 101, 118, 101, 110, 116, 61] + event_name(e),
        None => Seq::empty(),
    } + seq![38u8, 105, 110, 102, 111, 95, 104, 97, 115, 104, 61] + percent_encoded(info_hash)
}

fn push_slice(src: &[u8], out: &mut Vec<u8>)
    ensures
        final(out)@ == old(out)@ + src@,
{
    let mut i: usize = 0;
    let ghost start = out@;
    while i < src.len()
        invariant
            i <= src@.len(),
            out@ == start + src@.subrange(0, i as int),
        decreases src.len() - i,
    {
        out.push(src[i]);
        i += 1;
        assert(out@ =~= start + src@.subrange(0, i as int));
    }
    assert(src@.subrange(0, src.len() as int) =~= src@);
}

/// The query string of an HTTP announce.
pub fn create_tracker_query(
    info_hash: &Vec<u8>,
    peer_id: &Vec<u8>,
    port: u16,
    uploaded: i64,
    downloaded: i64,
    left: i64,
    event: Option<AnnounceEvent>,
) -> (r: Vec<u8>)
    ensures
        r@ == query_bytes(info_hash@, peer_id@, port, uploaded, downloaded, left, event),
{
    let k_peer: [u8; 8] = [112, 101, 101, 114, 95, 105, 100, 61];
    let k_port: [u8; 6] = [38, 112, 111, 114, 116, 61];
    let k_up: [u8; 10] = [38, 117, 112, 108, 111, 97, 100, 101, 100, 61];
    let k_down: [u8; 12] = [38, 100, 111, 119, 110, 108, 111, 97, 100, 101, 100, 61];
    let k_left: [u8; 6] = [38, 108, 101, 102, 116, 61];
    let k_compact: [u8; 10] = [38, 99, 111, 109, 112, 97, 99, 116, 61, 49];
    let k_event: [u8; 7] = [38, 101, 118, 101, 110, 116, 61];
    let k_hash: [u8; 11] = [38, 105, 110, 102, 111, 95, 104, 97, 115, 104, 61];
    let mut q: Vec<u8> = Vec::new();
    push_slice(k_peer.as_slice(), &mut q);
    let pid = percent_encode(peer_id);
    push_slice(pid.as_slice(), &mut q);
    push_slice(k_port.as_slice(), &mut q);
    push_nat(port as u64, &mut q);
    push_slice(k_up.as_slice(), &mut q);
    push_int(uploaded, &mut q);
    push_slice(k_down.as_slice(), &mut q);
    push_int(downloaded, &mut q);
    push_slice(k_left.as_slice(), &mut q);
    push_int(left, &mut q);
    push_slice(k_compact.as_slice(), &mut q);
    match event {
        Some(e) => {
            push_slice(k_event.as_slice(), &mut q);
            match e {
                AnnounceEvent::Started => {
                    let n: [u8; 7] = [115, 116, 97, 114, 116, 101, 100];
                    assert(n@ =~= event_name(e));
                    push_slice(n.as_slice(), &mut q);
                },
                AnnounceEvent::Completed => {
                    let n: [u8; 9] = [99, 111, 109, 112, 108, 101, 116, 101, 100];
                    assert(n@ =~= event_name(e));
                    push_slice(n.as_slice(), &mut q);
                },
                AnnounceEvent::Stopped => {
                    let n: [u8; 7] = [115, 116, 111, 112, 112, 101, 100];
                    assert(n@ =~= event_name(e));
                    push_slice(n.as_slice(), &mut q);
                },
            }
        },
        None => {},
    }
    push_slice(k_hash.as_slice(), &mut q);
    let ih = percent_encode(info_hash);
    push_slice(ih.as_slice(), &mut q);
    assert(q@ =~= query_bytes(info_hash@, peer_id@, port, uploaded, downloaded, left, event));
    q
}

/// The transport an announce URL asks for.
#[derive(PartialEq, Eq, Structural, Clone, Copy, Debug)]
pub enum Transport {
    Http,
    Udp,
}

/// The scheme of a URL, as the `url` crate parses it.
pub uninterp spec fn url_scheme(s: Seq<char>) -> Option<Seq<u8>>;

/// Relies on `url::Url::parse` and `Url::scheme`: the scheme of the URL,
/// `None` when it does not parse.
#[verifier::external_body]
fn scheme_of(url: &str) -> (r: Option<Vec<u8>>)
    ensures
        match r {
            Some(v) => url_scheme(url@) == Some(v@),
            None => url_scheme(url@) is None,
        },
{
    url::Url::parse(url).ok().map(|u| u.scheme().as_bytes().to_vec())
}

pub open spec fn transport_of(scheme: Seq<u8>) -> Option<Transport> {
    if scheme == seq![104u8, 116, 116, 112] || scheme == seq![104u8, 116, 116, 112, 115] {
        Some(Transport::Http)
    } else if scheme == seq![117u8, 100, 112] {
        Some(Transport::Udp)
    } else {
        None
    }
}

/// `http` and `https` go over HTTP, `udp` over UDP; nothing else is known.
pub fn transport_for_scheme(scheme: &[u8]) -> (r: Option<Transport>)
    ensures
        r == transport_of(scheme@),
{
    let http: [u8; 4] = [104, 116, 116, 112];
    let https: [u8; 5] = [104, 116, 116, 112, 115];
    let udp: [u8; 3] = [117, 100, 112];
    assert(http@ =~= seq![104u8, 116, 116, 112]);
    assert(https@ =~= seq![104u8, 116, 116, 112, 115]);
    assert(udp@ =~= seq![117u8, 100, 112]);
    if crate::bencoding::compare_bytes(scheme, http.as_slice()) == 0
        || crate::bencoding::compare_bytes(scheme, https.as_slice()) == 0 {
        Some(Transport::Http)
    } else if crate::bencoding::compare_bytes(scheme, udp.as_slice()) == 0 {
        Some(Transport::Udp)
    } else {
        None
    }
}

/// The transport of an announce URL; a URL that does not parse, or whose
/// scheme is not known, is a protocol error.
pub fn tracker_transport(announce_url: &str) -> (r: Result<Transport, TrackerError>)
    ensures
        match url_scheme(announce_url@) {
            Some(s) => match transport_of(s) {
                Some(t) => r == Ok::<Transport, TrackerError>(t),
                None => r == Err::<Transport, TrackerError>(TrackerError::Protocol),
            },
            None => r == Err::<Transport, TrackerError>(TrackerError::Protocol),
        },
{
    match scheme_of(announce_url) {
        Some(s) => match transport_for_scheme(s.as_slice()) {
            Some(t) => Ok(t),
            None => Err(TrackerError::Protocol),
        },
        None => Err(TrackerError::Protocol),
    }
}

} // verus!

use vstd::prelude::*;
use crate::utility::{text_view, utf8_string, utf8_text};

verus! {

pub const TAG_INT: u8 = 105;
pub const TAG_LIST: u8 = 108;
pub const TAG_DICT: u8 = 100;
pub const TAG_END: u8 = 101;
pub const COLON: u8 = 58;
pub const MINUS: u8 = 45;
pub const DIGIT_0: u8 = 48;
pub const DIGIT_9: u8 = 57;

/// A bencoded integer.
pub struct BInt(pub i64);

/// A bencoded byte string; the bytes need not be UTF-8.
pub struct BString(pub Vec<u8>);

/// A bencoded list.
pub struct BList(pub Vec<BType>);

/// A bencoded dictionary: entries kept in strictly ascending key order.
pub struct BDict(pub Vec<(BString, BType)>);

/// A bencoded value: one of the four shapes of the format.
pub enum BType {
    BInt(BInt),
    BString(BString),
    BList(BList),
    BDict(BDict),
}

/// Why a byte buffer is not a bencoded value.
#[derive(PartialEq, Eq, Structural, Debug, Clone, Copy)]
pub enum BencodeError {
    UnexpectedEOF,
    InvalidHeader,
    InvalidInteger,
    KeyOrder,
    DuplicateKey,
    TrailingData,
}

// ---------------------------------------------------------------------
// The textual model
// ---------------------------------------------------------------------

pub open spec fn is_digit(b: u8) -> bool {
    DIGIT_0 <= b && b <= DIGIT_9
}

/// Decimal digits of `n`, most significant first, without leading zeros.
pub open spec fn nat_digits(n: nat) -> Seq<u8>
    decreases n,
{
    if n < 10 {
        seq![(n + 48) as u8]
    } else {
        nat_digits(n / 10).push((n % 10 + 48) as u8)
    }
}

/// Decimal text of a signed integer.
pub open spec fn int_text(n: int) -> Seq<u8> {
    if n < 0 {
        seq![MINUS] + nat_digits((-n) as nat)
    } else {
        nat_digits(n as nat)
    }
}

/// `<len>:<bytes>`
pub open spec fn encode_bytes(s: Seq<u8>) -> Seq<u8> {
    nat_digits(s.len()) + seq![COLON] + s
}

pub open spec fn encode_value(v: BType) -> Seq<u8>
    decreases v,
{
    match v {
        BType::BInt(i) => seq![TAG_INT] + int_text(i.0 as int) + seq![TAG_END],
        BType::BString(s) => encode_bytes(s.0@),
        BType::BList(l) => seq![TAG_LIST] + encode_items(l.0@) + seq![TAG_END],
        BType::BDict(d) => seq![TAG_DICT] + encode_entries(d.0@) + seq![TAG_END],
    }
}

pub open spec fn encode_items(s: Seq<BType>) -> Seq<u8>
    decreases s,
{
    if s.len() == 0 {
        Seq::empty()
    } else {
        encode_items(s.subrange(0, s.len() - 1)) + encode_value(s[s.len() - 1])
    }
}

pub open spec fn encode_entries(s: Seq<(BString, BType)>) -> Seq<u8>
    decreases s,
{
    if s.len() == 0 {
        Seq::empty()
    } else {
        encode_entries(s.subrange(0, s.len() - 1)) + encode_bytes(s[s.len() - 1].0.0@)
            + encode_value(s[s.len() - 1].1)
    }
}

/// Lexicographic byte order, a proper prefix coming first.
pub open spec fn lex_lt(a: Seq<u8>, b: Seq<u8>) -> bool
    decreases a.len(),
{
    if a.len() == 0 {
        b.len() > 0
    } else if b.len() == 0 {
        false
    } else if a[0] != b[0] {
        a[0] < b[0]
    } else {
        lex_lt(a.subrange(1, a.len() as int), b.subrange(1, b.len() as int))
    }
}

pub open spec fn keys_sorted(s: Seq<(BString, BType)>) -> bool {
    forall|i: int, j: int| 0 <= i < j < s.len() ==> lex_lt(#[trigger] s[i].0.0@, #[trigger] s[j].0.0@)
}

/// A value that the encoder maps one to one onto its text: every dictionary
/// holds its keys in strictly ascending order.
pub open spec fn wf_value(v: BType) -> bool
    decreases v,
{
    match v {
        BType::BInt(_) => true,
        BType::BString(_) => true,
        BType::BList(l) => wf_items(l.0@),
        BType::BDict(d) => keys_sorted(d.0@) && wf_entries(d.0@),
    }
}

pub open spec fn wf_items(s: Seq<BType>) -> bool
    decreases s,
{
    if s.len() == 0 {
        true
    } else {
        wf_items(s.subrange(0, s.len() - 1)) && wf_value(s[s.len() - 1])
    }
}

pub open spec fn wf_entries(s: Seq<(BString, BType)>) -> bool
    decreases s,
{
    if s.len() == 0 {
        true
    } else {
        wf_entries(s.subrange(0, s.len() - 1)) && wf_value(s[s.len() - 1].1)
    }
}

/// The value stored under `key`, the last entry winning.
pub open spec fn dict_get(s: Seq<(BString, BType)>, key: Seq<u8>) -> Option<BType>
    decreases s.len(),
{
    if s.len() == 0 {
        None
    } else if s[s.len() - 1].0.0@ == key {
        Some(s[s.len() - 1].1)
    } else {
        dict_get(s.subrange(0, s.len() - 1), key)
    }
}

// ---------------------------------------------------------------------
// Encoding
// ---------------------------------------------------------------------

pub(crate) fn push_nat(n: u64, out: &mut Vec<u8>)
    ensures
        final(out)@ == old(out)@ + nat_digits(n as nat),
    decreases n,
{
    if n >= 10 {
        push_nat(n / 10, out);
    }
    out.push((n % 10) as u8 + 48);
    assert(final(out)@ =~= old(out)@ + nat_digits(n as nat));
}

pub(crate) fn push_int(n: i64, out: &mut Vec<u8>)
    ensures
        final(out)@ == old(out)@ + int_text(n as int),
{
    if n < 0 {
        out.push(MINUS);
        let k: i64 = n + 1;
        let m: u64 = (0 - k) as u64 + 1;
        push_nat(m, out);
    } else {
        push_nat(n as u64, out);
    }
    assert(final(out)@ =~= old(out)@ + int_text(n as int));
}

fn push_bytes(s: &Vec<u8>, out: &mut Vec<u8>)
    ensures
        final(out)@ == old(out)@ + encode_bytes(s@),
{
    push_nat(s.len() as u64, out);
    let ghost start = out@;
    out.push(COLON);
    let mut i: usize = 0;
    while i < s.len()
        invariant
            i <= s.len(),
            out@ == start + seq![COLON] + s@.subrange(0, i as int),
        decreases s.len() - i,
    {
        out.push(s[i]);
        i += 1;
        assert(out@ =~= start + seq![COLON] + s@.subrange(0, i as int));
    }
    assert(s@.subrange(0, s.len() as int) =~= s@);
    assert(final(out)@ =~= old(out)@ + encode_bytes(s@));
}

fn encode_into(v: &BType, out: &mut Vec<u8>)
    ensures
        final(out)@ == old(out)@ + encode_value(*v),
    decreases *v,
{
    match v {
        BType::BInt(i) => {
            out.push(TAG_INT);
            push_int(i.0, out);
            out.push(TAG_END);
        },
        BType::BString(s) => {
            push_bytes(&s.0, out);
        },
        BType::BList(l) => {
            out.push(TAG_LIST);
            let ghost start = out@;
            proof {
                let lv = *l;
                assert(decreases_to!(*v => (*v)->BList_0));
                assert(decreases_to!(lv => lv.0));
                assert(decreases_to!(lv.0 => lv.0@));
            }
            let mut i: usize = 0;
            while i < l.0.len()
                invariant
                    i <= l.0.len(),
                    out@ == start + encode_items(l.0@.subrange(0, i as int)),
                    decreases_to!(*v => l.0@),
                decreases l.0.len() - i,
            {
                assert(decreases_to!(l.0@ => l.0@[i as int]));
                encode_into(&l.0[i], out);
                assert(l.0@.subrange(0, i + 1).subrange(0, i as int) =~= l.0@.subrange(0, i as int));
                i += 1;
            }
            assert(l.0@.subrange(0, l.0.len() as int) =~= l.0@);
            out.push(TAG_END);
        },
        BType::BDict(d) => {
            encode_dict_into(d, out);
        },
    }
    assert(final(out)@ =~= old(out)@ + encode_value(*v));
}

fn encode_dict_into(d: &BDict, out: &mut Vec<u8>)
    ensures
        final(out)@ == old(out)@ + encode_value(BType::BDict(*d)),
    decreases *d,
{
    out.push(TAG_DICT);
    let ghost start = out@;
    proof {
        let dv = *d;
        assert(decreases_to!(dv => dv.0));
        assert(decreases_to!(dv.0 => dv.0@));
    }
    let mut i: usize = 0;
    while i < d.0.len()
        invariant
            i <= d.0.len(),
            out@ == start + encode_entries(d.0@.subrange(0, i as int)),
            decreases_to!(*d => d.0@),
        decreases d.0.len() - i,
    {
        push_bytes(&d.0[i].0.0, out);
        assert(decreases_to!(d.0@ => d.0@[i as int]));
        assert(decreases_to!(d.0@[i as int] => d.0@[i as int].1));
        encode_into(&d.0[i].1, out);
        assert(d.0@.subrange(0, i + 1).subrange(0, i as int) =~= d.0@.subrange(0, i as int));
        i += 1;
    }
    assert(d.0@.subrange(0, d.0.len() as int) =~= d.0@);
    out.push(TAG_END);
    assert(final(out)@ =~= old(out)@ + encode_value(BType::BDict(*d)));
}

impl BType {
    /// The bencoded text of this value.
    pub fn encode(&self) -> (r: Vec<u8>)
        ensures
            r@ == encode_value(*self),
    {
        let mut out: Vec<u8> = Vec::new();
        encode_into(self, &mut out);
        assert(out@ =~= encode_value(*self));
        out
    }
}

impl BDict {
    /// The bencoded text of this dictionary.
    pub fn encode(&self) -> (r: Vec<u8>)
        ensures
            r@ == encode_value(BType::BDict(*self)),
    {
        let mut out: Vec<u8> = Vec::new();
        encode_dict_into(self, &mut out);
        assert(out@ =~= encode_value(BType::BDict(*self)));
        out
    }
}


// ---------------------------------------------------------------------
// Facts about the textual model
// ---------------------------------------------------------------------

/// Value of a run of decimal digits, most significant first.
pub open spec fn digits_value(s: Seq<u8>) -> nat
    decreases s.len(),
{
    if s.len() == 0 {
        0
    } else {
        digits_value(s.subrange(0, s.len() - 1)) * 10 + (s[s.len() - 1] - DIGIT_0) as nat
    }
}

pub open spec fn all_digits(s: Seq<u8>) -> bool {
    forall|i: int| 0 <= i < s.len() ==> is_digit(#[trigger] s[i])
}

proof fn lemma_digits_value_pos(s: Seq<u8>)
    requires
        s.len() > 0,
        all_digits(s),
        s[0] != DIGIT_0,
    ensures
        digits_value(s) >= 1,
        s.len() > 1 ==> digits_value(s) >= 10,
    decreases s.len(),
{
    if s.len() > 1 {
        let p = s.subrange(0, s.len() - 1);
        assert(p[0] == s[0]);
        lemma_digits_value_pos(p);
    }
}

/// A digit run without a leading zero is the text of its own value.
pub proof fn lemma_digits_text(s: Seq<u8>)
    requires
        s.len() > 0,
        all_digits(s),
        s[0] != DIGIT_0 || s.len() == 1,
    ensures
        nat_digits(digits_value(s)) == s,
    decreases s.len(),
{
    let n = digits_value(s);
    let d = s[s.len() - 1];
    if s.len() == 1 {
        assert(s.subrange(0, 0).len() == 0);
        assert(is_digit(s[0]));
        assert(digits_value(s.subrange(0, 0)) == 0);
        assert(n == (d - DIGIT_0) as nat);
        assert(n < 10);
        assert(nat_digits(n) =~= seq![(n + 48) as u8]);
        assert(nat_digits(n) =~= s);
    } else {
        let p = s.subrange(0, s.len() - 1);
        assert(p[0] == s[0]);
        assert(all_digits(p));
        lemma_digits_text(p);
        lemma_digits_value_pos(s);
        lemma_digits_value_pos(p);
        let a = digits_value(p);
        assert(is_digit(d));
        assert(n == a * 10 + (d - DIGIT_0) as nat);
        assert(n / 10 == a && n % 10 == (d - DIGIT_0) as nat) by (nonlinear_arith)
            requires
                n == a * 10 + (d - DIGIT_0) as nat,
                0 <= d - DIGIT_0 < 10,
        ;
        assert(n >= 10);
        assert((n % 10 + 48) as u8 == d);
        assert(nat_digits(n) == nat_digits(n / 10).push((n % 10 + 48) as u8));
        assert(s =~= p.push(d));
    }
}

proof fn lemma_lex_suffix(a: Seq<u8>, b: Seq<u8>, i: int)
    requires
        0 <= i <= a.len(),
        i <= b.len(),
        a.subrange(0, i) == b.subrange(0, i),
    ensures
        lex_lt(a, b) == lex_lt(a.subrange(i, a.len() as int), b.subrange(i, b.len() as int)),
    decreases i,
{
    if i == 0 {
        assert(a.subrange(0, a.len() as int) =~= a);
        assert(b.subrange(0, b.len() as int) =~= b);
    } else {
        assert(a[0] == a.subrange(0, i)[0]);
        assert(b[0] == b.subrange(0, i)[0]);
        let a1 = a.subrange(1, a.len() as int);
        let b1 = b.subrange(1, b.len() as int);
        assert(a1.subrange(0, i - 1) =~= a.subrange(0, i).subrange(1, i));
        assert(b1.subrange(0, i - 1) =~= b.subrange(0, i).subrange(1, i));
        lemma_lex_suffix(a1, b1, i - 1);
        assert(a1.subrange(i - 1, a1.len() as int) =~= a.subrange(i, a.len() as int));
        assert(b1.subrange(i - 1, b1.len() as int) =~= b.subrange(i, b.len() as int));
    }
}

pub proof fn lemma_lex_irreflexive(a: Seq<u8>)
    ensures
        !lex_lt(a, a),
    decreases a.len(),
{
    if a.len() > 0 {
        lemma_lex_irreflexive(a.subrange(1, a.len() as int));
    }
}

pub proof fn lemma_lex_asymmetric(a: Seq<u8>, b: Seq<u8>)
    ensures
        !(lex_lt(a, b) && lex_lt(b, a)),
    decreases a.len(),
{
    if a.len() > 0 && b.len() > 0 && a[0] == b[0] {
        lemma_lex_asymmetric(a.subrange(1, a.len() as int), b.subrange(1, b.len() as int));
    }
}

pub proof fn lemma_lex_total(a: Seq<u8>, b: Seq<u8>)
    ensures
        a == b || lex_lt(a, b) || lex_lt(b, a),
    decreases a.len(),
{
    if a.len() > 0 && b.len() > 0 && a[0] == b[0] {
        let a1 = a.subrange(1, a.len() as int);
        let b1 = b.subrange(1, b.len() as int);
        lemma_lex_total(a1, b1);
        if a1 == b1 {
            assert(a =~= seq![a[0]] + a1);
            assert(b =~= seq![b[0]] + b1);
        }
    } else if a.len() == 0 && b.len() == 0 {
        assert(a =~= b);
    }
}

pub proof fn lemma_lex_transitive(a: Seq<u8>, b: Seq<u8>, c: Seq<u8>)
    requires
        lex_lt(a, b),
        lex_lt(b, c),
    ensures
        lex_lt(a, c),
    decreases a.len(),
{
    if a.len() > 0 && b.len() > 0 && c.len() > 0 && a[0] == b[0] && b[0] == c[0] {
        lemma_lex_transitive(
            a.subrange(1, a.len() as int),
            b.subrange(1, b.len() as int),
            c.subrange(1, c.len() as int),
        );
    }
}

proof fn lemma_items_push(s: Seq<BType>, x: BType)
    ensures
        encode_items(s.push(x)) == encode_items(s) + encode_value(x),
        wf_items(s.push(x)) == (wf_items(s) && wf_value(x)),
{
    assert(s.push(x).subrange(0, s.len() as int) =~= s);
}

proof fn lemma_entries_push(s: Seq<(BString, BType)>, x: (BString, BType))
    ensures
        encode_entries(s.push(x)) == encode_entries(s) + encode_bytes(x.0.0@) + encode_value(x.1),
        wf_entries(s.push(x)) == (wf_entries(s) && wf_value(x.1)),
{
    assert(s.push(x).subrange(0, s.len() as int) =~= s);
}

// ---------------------------------------------------------------------
// Byte-string order
// ---------------------------------------------------------------------

/// Three-way comparison of byte strings in lexicographic order.
pub fn compare_bytes(a: &[u8], b: &[u8]) -> (r: i8)
    ensures
        r < 0 <==> lex_lt(a@, b@),
        r == 0 <==> a@ == b@,
        r > 0 <==> lex_lt(b@, a@),
{
    let mut i: usize = 0;
    while i < a.len() && i < b.len()
        invariant
            i <= a.len(),
            i <= b.len(),
            a@.subrange(0, i as int) == b@.subrange(0, i as int),
        decreases a.len() - i,
    {
        if a[i] != b[i] {
            proof {
                lemma_lex_suffix(a@, b@, i as int);
                lemma_lex_suffix(b@, a@, i as int);
                lemma_lex_asymmetric(a@, b@);
                let sa = a@.subrange(i as int, a.len() as int);
                let sb = b@.subrange(i as int, b.len() as int);
                assert(sa[0] == a@[i as int]);
                assert(sb[0] == b@[i as int]);
                assert(a@[i as int] != b@[i as int]);
            }
            if a[i] < b[i] {
                return -1;
            } else {
                return 1;
            }
        }
        assert(a@.subrange(0, i + 1) =~= a@.subrange(0, i as int).push(a@[i as int]));
        assert(b@.subrange(0, i + 1) =~= b@.subrange(0, i as int).push(b@[i as int]));
        i += 1;
    }
    proof {
        lemma_lex_suffix(a@, b@, i as int);
        lemma_lex_suffix(b@, a@, i as int);
        lemma_lex_irreflexive(a@);
        lemma_lex_asymmetric(a@, b@);
        if a.len() == b.len() {
            assert(a@ =~= a@.subrange(0, i as int));
            assert(b@ =~= b@.subrange(0, i as int));
        }
    }
    if a.len() < b.len() {
        -1
    } else if a.len() == b.len() {
        0
    } else {
        1
    }
}

/// The text of a number is a run of digits, without a leading zero, whose
/// value is the number.
pub proof fn lemma_nat_digits_shape(n: nat)
    ensures
        nat_digits(n).len() >= 1,
        all_digits(nat_digits(n)),
        nat_digits(n)[0] == DIGIT_0 ==> n == 0,
        n == 0 ==> nat_digits(n) == seq![DIGIT_0],
        digits_value(nat_digits(n)) == n,
    decreases n,
{
    let d = nat_digits(n);
    if n < 10 {
        assert(d =~= seq![(n + 48) as u8]);
        assert(d.subrange(0, 0).len() == 0);
        assert(digits_value(d.subrange(0, 0)) == 0);
    } else {
        let q = nat_digits(n / 10);
        lemma_nat_digits_shape(n / 10);
        assert(d == q.push((n % 10 + 48) as u8));
        assert(d.subrange(0, d.len() - 1) =~= q);
        assert(d[0] == q[0]);
        assert forall|i: int| 0 <= i < d.len() implies is_digit(#[trigger] d[i]) by {
            if i < q.len() {
                assert(d[i] == q[i]);
            }
        }
        assert(n / 10 * 10 + n % 10 == n) by (nonlinear_arith);
    }
}

pub proof fn lemma_digits_value_prefix(s: Seq<u8>, k: int)
    requires
        all_digits(s),
        0 <= k <= s.len(),
    ensures
        digits_value(s.subrange(0, k)) <= digits_value(s),
    decreases s.len(),
{
    if k < s.len() {
        let p = s.subrange(0, s.len() - 1);
        assert(p.subrange(0, k) =~= s.subrange(0, k));
        assert(all_digits(p)) by {
            assert forall|i: int| 0 <= i < p.len() implies is_digit(#[trigger] p[i]) by {
                assert(p[i] == s[i]);
            }
        }
        lemma_digits_value_prefix(p, k);
        assert(is_digit(s[s.len() - 1]));
    } else {
        assert(s.subrange(0, k) =~= s);
    }
}

/// `e` stands in `input` at `pos`.
pub open spec fn encodes_at(input: Seq<u8>, pos: int, e: Seq<u8>) -> bool {
    0 <= pos && pos + e.len() <= input.len() && input.subrange(pos, pos + e.len()) == e
}

/// The header `<n>:` stands at `pos` and `n` bytes follow it.
pub open spec fn length_at(input: Seq<u8>, pos: int, n: nat) -> bool {
    &&& encodes_at(input, pos, nat_digits(n) + seq![COLON])
    &&& pos + nat_digits(n).len() + 1 + n <= input.len()
}

// ---------------------------------------------------------------------
// Decoding
// ---------------------------------------------------------------------

/// A byte that can start a value: a digit, `i`, `l` or `d`.
pub open spec fn value_tag(b: u8) -> bool {
    is_digit(b) || b == TAG_INT || b == TAG_LIST || b == TAG_DICT
}

/// The integer at `pos` (its `i`) goes wrong before its end: after an
/// optional `-` comes no digit, or a `0` that is negative or followed by
/// more than the closing `e`.
pub open spec fn int_malformed(s: Seq<u8>, pos: int) -> bool {
    let neg = pos + 1 < s.len() && s[pos + 1] == MINUS;
    let f = if neg { pos + 2 } else { pos + 1 };
    f < s.len() && (!is_digit(s[f]) || (s[f] == DIGIT_0 && (neg || (f + 1 < s.len() && s[f + 1]
        != TAG_END))))
}

/// The error is not the one kept for bytes after a complete value.
pub open spec fn not_trailing<T>(r: Result<T, BencodeError>) -> bool {
    !(r matches Err(BencodeError::TrailingData))
}

/// What a successful decode at `pos` promises: the value is well formed and
/// its text is exactly the input from `pos` up to `end`.
pub open spec fn decoded_at(input: Seq<u8>, pos: int, v: BType, end: int) -> bool {
    &&& pos < end <= input.len()
    &&& wf_value(v)
    &&& input.subrange(pos, end) == encode_value(v)
}

fn is_digit_byte(b: u8) -> (r: bool)
    ensures
        r == is_digit(b),
{
    DIGIT_0 <= b && b <= DIGIT_9
}

/// The bytes from `pos` on agree with `e` as far as both go, and end
/// before `e` does.
pub open spec fn cut_at(input: Seq<u8>, pos: int, e: Seq<u8>) -> bool {
    &&& 0 <= pos <= input.len()
    &&& input.len() - pos < e.len()
    &&& input.subrange(pos, input.len() as int) == e.subrange(0, input.len() - pos)
}

/// The header `<n>:` stands at `pos` as far as the input goes, and the
/// input ends before its `n` bytes do.
pub open spec fn length_cut_at(input: Seq<u8>, pos: int, n: nat) -> bool {
    let h = nat_digits(n) + seq![COLON];
    &&& 0 <= pos <= input.len()
    &&& input.len() < pos + h.len() + n
    &&& forall|i: int| pos <= i < input.len() && i < pos + h.len() ==> #[trigger] input[i] == h[i - pos]
}

/// Reads `<len>:` at `pos`; returns the length and the position of the
/// first content byte.
fn decode_length(input: &Vec<u8>, pos: usize, Ghost(target): Ghost<Option<nat>>) -> (r: Result<
    (usize, usize),
    BencodeError,
>)
    requires
        pos < input.len(),
        is_digit(input@[pos as int]),
    ensures
        not_trailing(r),
        r matches Ok((n, start)) ==> {
            &&& pos < start <= input.len()
            &&& n <= input.len() - start
            &&& input@.subrange(pos as int, start as int) == nat_digits(n as nat) + seq![COLON]
        },
        target is Some && length_at(input@, pos as int, target->0) ==> (r matches Ok((m, start))
            && m == target->0 && start == pos + nat_digits(target->0).len() + 1),
        target is Some && length_cut_at(input@, pos as int, target->0) ==> r == Err::<
            (usize, usize),
            BencodeError,
        >(BencodeError::UnexpectedEOF),
{
    let len = input.len();
    let mut p: usize = pos;
    let mut acc: usize = 0;
    let ghost hyp = target is Some && length_at(input@, pos as int, target->0);
    let ghost trunc = target is Some && length_cut_at(input@, pos as int, target->0);
    let ghost n = target->0;
    let ghost dd = nat_digits(n);
    let ghost dl = dd.len();
    proof {
        lemma_nat_digits_shape(n);
        if trunc {
            let h = dd + seq![COLON];
            assert(input@[pos as int] == h[0]);
            assert forall|i: int| pos <= i < pos + dl && i < len implies input@[i] == #[trigger] dd[i - pos] by {
                assert(input@[i] == h[i - pos]);
            }
            if pos + dl < len {
                assert(input@[pos + dl] == h[dl as int]);
            }
        }
        if hyp {
            assert(input@[pos as int] == input@.subrange(pos as int, pos + dl + 1)[0]);
            assert(input@[pos + dl] == input@.subrange(pos as int, pos + dl + 1)[dl as int]);
            assert(forall|i: int| pos <= i < pos + dl ==> input@[i] == #[trigger] dd[i - pos]) by {
                assert forall|i: int| pos <= i < pos + dl implies input@[i] == #[trigger] dd[i - pos] by {
                    assert(input@[i] == input@.subrange(pos as int, pos + dl + 1)[i - pos]);
                }
            }
        }
    }
    if input[pos] == DIGIT_0 {
        p = pos + 1;
    } else {
        while p < len && is_digit_byte(input[p])
            invariant
                pos < len == input.len(),
                pos <= p <= len,
                is_digit(input@[pos as int]),
                input@[pos as int] != DIGIT_0,
                p == pos ==> acc == 0,
                all_digits(input@.subrange(pos as int, p as int)),
                acc == digits_value(input@.subrange(pos as int, p as int)),
                acc <= len,
                hyp ==> {
                    &&& length_at(input@, pos as int, n)
                    &&& p <= pos + dl
                    &&& input@[pos + dl] == COLON
                    &&& forall|i: int| pos <= i < pos + dl ==> input@[i] == #[trigger] dd[i - pos]
                    &&& all_digits(dd)
                    &&& digits_value(dd) == n
                },
                dd == nat_digits(n),
                dl == dd.len(),
                hyp == (target is Some && length_at(input@, pos as int, target->0)),
                trunc == (target is Some && length_cut_at(input@, pos as int, target->0)),
                trunc ==> {
                    &&& p <= pos + dl
                    &&& forall|i: int| pos <= i < pos + dl && i < len ==> input@[i] == #[trigger] dd[i - pos]
                    &&& (pos + dl < len ==> input@[pos + dl] == COLON)
                    &&& all_digits(dd)
                    &&& digits_value(dd) == n
                    &&& len < pos + dl + 1 + n
                },
                n == target->0,
            decreases len - p,
        {
            let d: usize = (input[p] - DIGIT_0) as usize;
            if d > len || acc > (len - d) / 10 {
                proof {
                    if hyp {
                        assert(p < pos + dl);
                        assert(input@.subrange(pos as int, p + 1) =~= dd.subrange(0, p + 1 - pos));
                        assert(input@.subrange(pos as int, p + 1).subrange(0, p - pos) =~= input@.subrange(
                            pos as int,
                            p as int,
                        ));
                        lemma_digits_value_prefix(dd, p + 1 - pos);
                        assert(acc * 10 + d <= len);
                        assert(false) by (nonlinear_arith)
                            requires
                                acc * 10 + d <= len,
                                d > len || acc > (len - d) / 10,
                                d <= 9,
                        ;
                    }
                }
                return Err(BencodeError::UnexpectedEOF);
            }
            assert(input@.subrange(pos as int, p + 1).subrange(0, p - pos) =~= input@.subrange(
                pos as int,
                p as int,
            ));
            assert(acc * 10 + d <= len) by (nonlinear_arith)
                requires
                    acc <= (len - d) / 10,
                    d <= 9,
                    d <= len,
            ;
            acc = acc * 10 + d;
            p += 1;
        }
    }
    proof {
        if trunc {
            if input@[pos as int] == DIGIT_0 {
                assert(dd[0] == DIGIT_0);
                assert(n == 0);
                assert(dl == 1);
            } else if p < len {
                if p < pos + dl {
                    assert(is_digit(dd[p - pos]));
                }
                assert(p == pos + dl);
                assert forall|j: int| 0 <= j < dl implies #[trigger] input@.subrange(pos as int, p as int)[j] == dd[j] by {
                    assert(input@[pos + j] == dd[pos + j - pos]);
                }
                assert(input@.subrange(pos as int, p as int) =~= dd);
            }
        }
    }
    proof {
        if hyp {
            if input@[pos as int] == DIGIT_0 {
                assert(dd[0] == DIGIT_0);
                assert(n == 0);
                assert(dl == 1);
            } else {
                if p < pos + dl {
                    assert(is_digit(dd[p - pos]));
                }
                assert(p == pos + dl);
                assert(input@.subrange(pos as int, p as int) =~= dd);
            }
        }
    }
    if p >= len {
        return Err(BencodeError::UnexpectedEOF);
    }
    if input[p] != COLON {
        return Err(BencodeError::InvalidHeader);
    }
    if acc > len - (p + 1) {
        return Err(BencodeError::UnexpectedEOF);
    }
    proof {
        let ds = input@.subrange(pos as int, p as int);
        if input@[pos as int] == DIGIT_0 {
            assert(ds =~= seq![DIGIT_0]);
            assert(nat_digits(0) =~= ds);
        } else {
            assert(ds[0] == input@[pos as int]);
            lemma_digits_text(ds);
        }
        assert(input@.subrange(pos as int, p + 1) =~= ds + seq![COLON]);
    }
    Ok((acc, p + 1))
}

fn decode_string_at(
    input: &Vec<u8>,
    pos: usize,
    Ghost(target): Ghost<Option<Seq<u8>>>,
    Ghost(cut): Ghost<Option<Seq<u8>>>,
) -> (r: Result<(BString, usize), BencodeError>)
    requires
        pos < input.len(),
        is_digit(input@[pos as int]),
    ensures
        not_trailing(r),
        r matches Ok((s, end)) ==> pos < end <= input.len() && input@.subrange(pos as int, end as int)
            == encode_bytes(s.0@),
        target is Some && encodes_at(input@, pos as int, encode_bytes(target->0)) ==> (r matches Ok(
            (s, end),
        ) && s.0@ == target->0 && end == pos + encode_bytes(target->0).len()),
        target is None && cut is Some && cut_at(input@, pos as int, encode_bytes(cut->0)) ==> r == Err::<
            (BString, usize),
            BencodeError,
        >(BencodeError::UnexpectedEOF),
{
    let ghost hyp = target is Some && encodes_at(input@, pos as int, encode_bytes(target->0));
    let ghost hc = target is None && cut is Some && cut_at(input@, pos as int, encode_bytes(cut->0));
    let ghost t = target->0;
    proof {
        if hc {
            let c = cut->0;
            let h = nat_digits(c.len()) + seq![COLON];
            let len = input@.len();
            assert(encode_bytes(c) =~= h + c);
            assert forall|i: int| pos <= i < len && i < pos + h.len() implies #[trigger] input@[i] == h[i
                - pos] by {
                assert(input@[i] == input@.subrange(pos as int, len as int)[i - pos]);
                assert(encode_bytes(c)[i - pos] == h[i - pos]);
            }
            assert(length_cut_at(input@, pos as int, c.len()));
        }
        if hyp {
            let d = nat_digits(t.len());
            let e = encode_bytes(t);
            assert(e.subrange(0, d.len() as int + 1) =~= d + seq![COLON]);
            assert(input@.subrange(pos as int, pos + d.len() as int + 1) =~= e.subrange(0, d.len() as int + 1));
            assert(length_at(input@, pos as int, t.len()));
        }
    }
    let (n, start) = match decode_length(
        input,
        pos,
        Ghost(
            if hyp {
                Some(t.len())
            } else if hc {
                Some(cut->0.len())
            } else {
                None
            },
        ),
    ) {
        Ok(x) => x,
        Err(e) => {
            return Err(e);
        },
    };
    let mut bytes: Vec<u8> = Vec::new();
    let mut i: usize = 0;
    while i < n
        invariant
            start + n <= input.len(),
            i <= n,
            bytes@ == input@.subrange(start as int, start + i),
        decreases n - i,
    {
        bytes.push(input[start + i]);
        i += 1;
        assert(bytes@ =~= input@.subrange(start as int, start + i));
    }
    assert(input@.subrange(pos as int, start + n) =~= input@.subrange(pos as int, start as int)
        + bytes@);
    proof {
        if hyp {
            let e = encode_bytes(t);
            let d = nat_digits(t.len());
            assert(bytes@ =~= e.subrange(d.len() as int + 1, e.len() as int));
            assert(e.subrange(d.len() as int + 1, e.len() as int) =~= t);
        }
    }
    Ok((BString(bytes), start + n))
}

/// 2^63, the magnitude of the least `i64`.
const MAGNITUDE_LIMIT: u64 = 9223372036854775808;

/// Magnitude of an integer, as a natural number.
pub open spec fn magnitude(n: int) -> nat {
    if n < 0 { (-n) as nat } else { n as nat }
}

fn decode_int_at(
    input: &Vec<u8>,
    pos: usize,
    Ghost(target): Ghost<Option<i64>>,
    Ghost(cut): Ghost<Option<i64>>,
) -> (r: Result<(BInt, usize), BencodeError>)
    requires
        pos < input.len(),
        input@[pos as int] == TAG_INT,
    ensures
        int_malformed(input@, pos as int) ==> r == Err::<(BInt, usize), BencodeError>(
            BencodeError::InvalidInteger,
        ),
        not_trailing(r),
        r matches Ok((v, end)) ==> pos < end <= input.len() && input@.subrange(pos as int, end as int)
            == encode_value(BType::BInt(v)),
        target is Some && encodes_at(input@, pos as int, encode_value(BType::BInt(BInt(target->0))))
            ==> (r matches Ok((v, end)) && end == pos + encode_value(BType::BInt(BInt(target->0))).len()),
        target is None && cut is Some && cut_at(input@, pos as int, encode_value(BType::BInt(BInt(cut->0))))
            ==> r == Err::<(BInt, usize), BencodeError>(BencodeError::UnexpectedEOF),
{
    let len = input.len();
    let ghost hyp = target is Some && encodes_at(
        input@,
        pos as int,
        encode_value(BType::BInt(BInt(target->0))),
    );
    let ghost hc = target is None && cut is Some && cut_at(
        input@,
        pos as int,
        encode_value(BType::BInt(BInt(cut->0))),
    );
    let ghost follow = hyp || hc;
    let ghost tv: i64 = if hyp { target->0 } else { cut->0 };
    let ghost tn = tv as int;
    let ghost dd = nat_digits(magnitude(tn));
    let ghost dl = dd.len();
    let ghost sl: int = if tn < 0 { 1 } else { 0 };
    let ghost enc = encode_value(BType::BInt(BInt(tv)));
    proof {
        lemma_nat_digits_shape(magnitude(tn));
        if follow {
            assert(enc =~= seq![TAG_INT] + int_text(tn) + seq![TAG_END]);
            assert(enc.len() == 2 + sl + dl);
            assert forall|i: int| pos <= i < pos + enc.len() && i < len implies input@[i] == #[trigger] enc[i - pos] by {
                if hyp {
                    assert(input@[i] == input@.subrange(pos as int, pos + enc.len())[i - pos]);
                } else {
                    assert(input@[i] == input@.subrange(pos as int, len as int)[i - pos]);
                }
            }
            assert(enc[1 + sl + dl] == TAG_END);
            assert forall|i: int| 0 <= i < dl implies #[trigger] enc[1 + sl + i] == dd[i] by {}
            if tn < 0 {
                assert(enc[1] == MINUS);
            } else {
                assert(enc[1] == dd[0]);
            }
        }
    }
    let mut p: usize = pos + 1;
    if p >= len {
        return Err(BencodeError::UnexpectedEOF);
    }
    let neg = input[p] == MINUS;
    proof {
        if follow {
            if hyp {
                assert(input@[pos + 1] == input@.subrange(pos as int, pos + enc.len())[1]);
            } else {
                assert(input@[pos + 1] == input@.subrange(pos as int, len as int)[1]);
            }
            assert(input@[pos + 1] == enc[1]);
            assert(is_digit(dd[0]));
            assert(neg == (tn < 0));
        }
    }
    if neg {
        p = p + 1;
        if p >= len {
            return Err(BencodeError::UnexpectedEOF);
        }
    }
    let first = p;
    proof {
        if follow {
            assert(first == pos + 1 + sl);
            if hyp {
                assert(input@[first as int] == input@.subrange(pos as int, pos + enc.len())[1 + sl]);
            } else {
                assert(input@[first as int] == input@.subrange(pos as int, len as int)[1 + sl]);
            }
            assert(input@[first as int] == enc[1 + sl + 0]);
        }
    }
    if !is_digit_byte(input[first]) {
        return Err(BencodeError::InvalidInteger);
    }
    let mut acc: u64 = 0;
    if input[first] == DIGIT_0 {
        if neg {
            return Err(BencodeError::InvalidInteger);
        }
        p = first + 1;
        proof {
            if follow {
                assert(magnitude(tn) == 0);
                assert(dl == 1);
            }
        }
    } else {
        proof {
            if follow {
                assert(first == pos + 1 + sl);
                assert forall|i: int| first <= i < first + dl && i < len implies input@[i] == #[trigger] dd[i
                    - first] by {
                    assert(input@[i] == enc[i - pos]);
                    assert(enc[1 + sl + (i - first)] == dd[i - first]);
                }
                if first + dl < len {
                    assert(input@[first + dl] == enc[1 + sl + dl]);
                }
                assert(magnitude(tn) <= MAGNITUDE_LIMIT);
            }
        }
        while p < len && is_digit_byte(input[p])
            invariant
                first < len == input.len(),
                first <= p <= len,
                is_digit(input@[first as int]),
                input@[first as int] != DIGIT_0,
                all_digits(input@.subrange(first as int, p as int)),
                acc == digits_value(input@.subrange(first as int, p as int)),
                acc <= MAGNITUDE_LIMIT,
                hyp ==> first + dl < len,
                hc ==> len < first + dl + 1,
                follow ==> {
                    &&& p <= first + dl
                    &&& (first + dl < len ==> input@[first + dl] == TAG_END)
                    &&& forall|i: int| first <= i < first + dl && i < len ==> input@[i] == #[trigger] dd[i - first]
                    &&& all_digits(dd)
                    &&& digits_value(dd) == magnitude(tn)
                    &&& magnitude(tn) <= MAGNITUDE_LIMIT
                },
                dd == nat_digits(magnitude(tn)),
                dl == dd.len(),
                hyp == (target is Some && encodes_at(
                    input@,
                    pos as int,
                    encode_value(BType::BInt(BInt(target->0))),
                )),
                hc == (target is None && cut is Some && cut_at(
                    input@,
                    pos as int,
                    encode_value(BType::BInt(BInt(cut->0))),
                )),
                follow == (hyp || hc),
                tn == tv as int,
                tv == (if hyp { target->0 } else { cut->0 }),
            decreases len - p,
        {
            let d: u64 = (input[p] - DIGIT_0) as u64;
            if acc > (MAGNITUDE_LIMIT - d) / 10 {
                proof {
                    if follow {
                        assert(p < first + dl);
                        assert forall|j: int| 0 <= j < p + 1 - first implies #[trigger] input@.subrange(first as int, p + 1)[j] == dd.subrange(0, p + 1 - first)[j] by {
                            assert(input@[first + j] == dd[first + j - first]);
                        }
                        assert(input@.subrange(first as int, p + 1) =~= dd.subrange(0, p + 1 - first));
                        assert(input@.subrange(first as int, p + 1).subrange(0, p - first) =~= input@.subrange(
                            first as int,
                            p as int,
                        ));
                        lemma_digits_value_prefix(dd, p + 1 - first);
                        assert(acc * 10 + d <= MAGNITUDE_LIMIT);
                        assert(false) by (nonlinear_arith)
                            requires
                                acc * 10 + d <= MAGNITUDE_LIMIT,
                                acc > (MAGNITUDE_LIMIT - d) / 10,
                                d <= 9,
                        ;
                    }
                }
                return Err(BencodeError::InvalidInteger);
            }
            assert(input@.subrange(first as int, p + 1).subrange(0, p - first) =~= input@.subrange(
                first as int,
                p as int,
            ));
            assert(acc * 10 + d <= MAGNITUDE_LIMIT) by (nonlinear_arith)
                requires
                    acc <= (MAGNITUDE_LIMIT - d) / 10,
                    d <= 9,
            ;
            acc = acc * 10 + d;
            p += 1;
        }
        proof {
            if hc && p < len {
                if p < first + dl {
                    assert(is_digit(dd[p - first]));
                }
                assert(p == first + dl);
                assert(false);
            }
            if hyp {
                if p < first + dl {
                    assert(is_digit(dd[p - first]));
                }
                assert(p == first + dl);
                assert forall|j: int| 0 <= j < dl implies #[trigger] input@.subrange(first as int, p as int)[j] == dd[j] by {
                    assert(input@[first + j] == dd[first + j - first]);
                }
                assert(input@.subrange(first as int, p as int) =~= dd);
            }
        }
    }
    if p >= len {
        return Err(BencodeError::UnexpectedEOF);
    }
    if input[p] != TAG_END {
        return Err(BencodeError::InvalidInteger);
    }
    let value: i64;
    if neg {
        if acc == MAGNITUDE_LIMIT {
            value = i64::MIN;
        } else {
            value = 0 - (acc as i64);
        }
    } else {
        if acc == MAGNITUDE_LIMIT {
            return Err(BencodeError::InvalidInteger);
        }
        value = acc as i64;
    }
    proof {
        let ds = input@.subrange(first as int, p as int);
        if input@[first as int] == DIGIT_0 {
            assert(ds =~= seq![DIGIT_0]);
            assert(nat_digits(0) =~= ds);
        } else {
            assert(ds[0] == input@[first as int]);
            lemma_digits_text(ds);
        }
        if neg {
            assert(input@.subrange(pos as int, p + 1) =~= seq![TAG_INT] + (seq![MINUS] + ds) + seq![
                TAG_END,
            ]);
        } else {
            assert(input@.subrange(pos as int, p + 1) =~= seq![TAG_INT] + ds + seq![TAG_END]);
        }
    }
    Ok((BInt(value), p + 1))
}

/// The first byte of a value's text tells its shape.
pub proof fn lemma_first_byte(w: BType)
    ensures
        encode_value(w).len() >= 1,
        w is BString ==> is_digit(encode_value(w)[0]),
        w is BInt ==> encode_value(w)[0] == TAG_INT,
        w is BList ==> encode_value(w)[0] == TAG_LIST,
        w is BDict ==> encode_value(w)[0] == TAG_DICT,
{
    match w {
        BType::BString(s) => {
            lemma_nat_digits_shape(s.0@.len());
            assert(encode_value(w)[0] == nat_digits(s.0@.len())[0]);
        },
        _ => {},
    }
}

proof fn lemma_items_concat(a: Seq<BType>, b: Seq<BType>)
    ensures
        encode_items(a + b) == encode_items(a) + encode_items(b),
    decreases b.len(),
{
    if b.len() == 0 {
        assert(a + b =~= a);
        assert(encode_items(a) + encode_items(b) =~= encode_items(a));
    } else {
        let bl = b.subrange(0, b.len() - 1);
        lemma_items_concat(a, bl);
        assert((a + b).subrange(0, (a + b).len() - 1) =~= a + bl);
        assert(encode_items(a + b) =~= encode_items(a) + encode_items(b));
    }
}

/// The items' text is the text of the first `k`, then item `k`, then the rest.
proof fn lemma_items_split(ws: Seq<BType>, k: int)
    requires
        0 <= k < ws.len(),
    ensures
        encode_items(ws) == encode_items(ws.subrange(0, k)) + encode_value(ws[k]) + encode_items(
            ws.subrange(k + 1, ws.len() as int),
        ),
        encode_items(ws.subrange(0, k + 1)) == encode_items(ws.subrange(0, k)) + encode_value(ws[k]),
{
    assert(ws =~= ws.subrange(0, k + 1) + ws.subrange(k + 1, ws.len() as int));
    lemma_items_concat(ws.subrange(0, k + 1), ws.subrange(k + 1, ws.len() as int));
    assert(ws.subrange(0, k + 1).subrange(0, k) =~= ws.subrange(0, k));
}

proof fn lemma_entries_concat(a: Seq<(BString, BType)>, b: Seq<(BString, BType)>)
    ensures
        encode_entries(a + b) == encode_entries(a) + encode_entries(b),
    decreases b.len(),
{
    if b.len() == 0 {
        assert(a + b =~= a);
        assert(encode_entries(a) + encode_entries(b) =~= encode_entries(a));
    } else {
        let bl = b.subrange(0, b.len() - 1);
        lemma_entries_concat(a, bl);
        assert((a + b).subrange(0, (a + b).len() - 1) =~= a + bl);
        assert(encode_entries(a + b) =~= encode_entries(a) + encode_entries(b));
    }
}

proof fn lemma_entries_split(es: Seq<(BString, BType)>, k: int)
    requires
        0 <= k < es.len(),
    ensures
        encode_entries(es) == encode_entries(es.subrange(0, k)) + encode_bytes(es[k].0.0@)
            + encode_value(es[k].1) + encode_entries(es.subrange(k + 1, es.len() as int)),
        encode_entries(es.subrange(0, k + 1)) == encode_entries(es.subrange(0, k)) + encode_bytes(
            es[k].0.0@,
        ) + encode_value(es[k].1),
{
    assert(es =~= es.subrange(0, k + 1) + es.subrange(k + 1, es.len() as int));
    lemma_entries_concat(es.subrange(0, k + 1), es.subrange(k + 1, es.len() as int));
    assert(es.subrange(0, k + 1).subrange(0, k) =~= es.subrange(0, k));
}

proof fn lemma_middle(a: Seq<u8>, b: Seq<u8>, c: Seq<u8>)
    ensures
        (a + b + c).subrange(a.len() as int, (a.len() + b.len()) as int) == b,
        (a + b + c).len() == a.len() + b.len() + c.len(),
{
    assert((a + b + c).subrange(a.len() as int, (a.len() + b.len()) as int) =~= b);
}

/// `e` stands at `pos`; then `f`, a part of `e` starting `off` bytes in,
/// stands at `pos + off`.
proof fn lemma_encodes_part(input: Seq<u8>, pos: int, e: Seq<u8>, off: int, f: Seq<u8>)
    requires
        encodes_at(input, pos, e),
        0 <= off,
        off + f.len() <= e.len(),
        e.subrange(off, off + f.len()) == f,
    ensures
        encodes_at(input, pos + off, f),
{
    assert(input.subrange(pos + off, pos + off + f.len()) =~= e.subrange(off, off + f.len()));
}

/// A cut value either ends inside its first part, or holds that part whole
/// and ends inside the rest.
proof fn lemma_cut_split(input: Seq<u8>, pos: int, a: Seq<u8>, b: Seq<u8>)
    requires
        cut_at(input, pos, a + b),
    ensures
        cut_at(input, pos, a) || (encodes_at(input, pos, a) && cut_at(input, pos + a.len(), b)),
{
    let len = input.len();
    let e = a + b;
    if len - pos < a.len() {
        assert(input.subrange(pos, len as int) =~= e.subrange(0, len - pos));
        assert(a.subrange(0, len - pos) =~= e.subrange(0, len - pos));
    } else {
        assert(input.subrange(pos, pos + a.len()) =~= input.subrange(pos, len as int).subrange(0, a.len() as int));
        assert(e.subrange(0, len - pos).subrange(0, a.len() as int) =~= a);
        assert(input.subrange(pos + a.len(), len as int) =~= input.subrange(pos, len as int).subrange(
            a.len() as int,
            len - pos,
        ));
        assert(e.subrange(0, len - pos).subrange(a.len() as int, len - pos) =~= b.subrange(0, len - pos - a.len()));
    }
}

/// A cut value that has not ended at `pos` shows its first byte there.
proof fn lemma_cut_first(input: Seq<u8>, pos: int, e: Seq<u8>)
    requires
        cut_at(input, pos, e),
        pos < input.len(),
    ensures
        input[pos] == e[0],
{
    assert(input[pos] == input.subrange(pos, input.len() as int)[0]);
}

proof fn lemma_items_front(ws: Seq<BType>, k: int)
    requires
        0 <= k < ws.len(),
    ensures
        encode_items(ws.subrange(k, ws.len() as int)) == encode_value(ws[k]) + encode_items(
            ws.subrange(k + 1, ws.len() as int),
        ),
{
    let t = ws.subrange(k, ws.len() as int);
    assert(t =~= seq![ws[k]] + ws.subrange(k + 1, ws.len() as int));
    lemma_items_concat(seq![ws[k]], ws.subrange(k + 1, ws.len() as int));
    let one = seq![ws[k]];
    assert(one[0] == ws[k]);
    assert(one.subrange(0, 0) =~= Seq::<BType>::empty());
    assert(encode_items(Seq::<BType>::empty()) == Seq::<u8>::empty());
    assert(encode_items(one) == encode_items(one.subrange(0, 0)) + encode_value(one[0]));
    assert(encode_items(one) =~= encode_value(ws[k]));
}

proof fn lemma_entries_front(es: Seq<(BString, BType)>, k: int)
    requires
        0 <= k < es.len(),
    ensures
        encode_entries(es.subrange(k, es.len() as int)) == encode_bytes(es[k].0.0@) + encode_value(
            es[k].1,
        ) + encode_entries(es.subrange(k + 1, es.len() as int)),
{
    let t = es.subrange(k, es.len() as int);
    assert(t =~= seq![es[k]] + es.subrange(k + 1, es.len() as int));
    lemma_entries_concat(seq![es[k]], es.subrange(k + 1, es.len() as int));
    let one = seq![es[k]];
    assert(one[0] == es[k]);
    assert(one.subrange(0, 0) =~= Seq::<(BString, BType)>::empty());
    assert(encode_entries(Seq::<(BString, BType)>::empty()) == Seq::<u8>::empty());
    assert(encode_entries(one) == encode_entries(one.subrange(0, 0)) + encode_bytes(one[0].0.0@)
        + encode_value(one[0].1));
    assert(encode_entries(one) =~= encode_bytes(es[k].0.0@) + encode_value(es[k].1));
}

fn decode_list_at(
    input: &Vec<u8>,
    pos: usize,
    Ghost(target): Ghost<Option<BType>>,
    Ghost(cut): Ghost<Option<BType>>,
) -> (r: Result<(BList, usize), BencodeError>)
    requires
        pos < input.len(),
        input@[pos as int] == TAG_LIST,
    ensures
        not_trailing(r),
        r matches Ok((v, end)) ==> decoded_at(input@, pos as int, BType::BList(v), end as int),
        target matches Some(w) && w is BList && wf_value(w) && encodes_at(input@, pos as int, encode_value(w))
            ==> (r matches Ok((v, end)) && end == pos + encode_value(target->0).len()),
        target is None && cut is Some && cut->0 is BList && wf_value(cut->0) && cut_at(
            input@,
            pos as int,
            encode_value(cut->0),
        ) ==> r == Err::<(BList, usize), BencodeError>(BencodeError::UnexpectedEOF),
    decreases input.len() - pos, 1int,
{
    let len = input.len();
    let ghost hyp = target is Some && target->0 is BList && wf_value(target->0) && encodes_at(
        input@,
        pos as int,
        encode_value(target->0),
    );
    let ghost w = target->0;
    let ghost ws: Seq<BType> = if w is BList { w->BList_0.0@ } else { Seq::empty() };
    let ghost enc = encode_value(w);
    let ghost hc = target is None && cut is Some && cut->0 is BList && wf_value(cut->0) && cut_at(
        input@,
        pos as int,
        encode_value(cut->0),
    );
    let ghost cs: Seq<BType> = if hc { cut->0->BList_0.0@ } else { Seq::empty() };
    proof {
        if hyp {
            assert(enc == seq![TAG_LIST] + encode_items(ws) + seq![TAG_END]);
            lemma_items_wf(ws);
        }
        if hc {
            let ce = encode_value(cut->0);
            assert(ce =~= seq![TAG_LIST] + (encode_items(cs) + seq![TAG_END]));
            lemma_cut_split(input@, pos as int, seq![TAG_LIST], encode_items(cs) + seq![TAG_END]);
            assert(cs.subrange(0, cs.len() as int) =~= cs);
            lemma_items_wf(cs);
        }
    }
    let mut items: Vec<BType> = Vec::new();
    let mut p: usize = pos + 1;
    assert(input@.subrange(pos as int, p as int) =~= seq![TAG_LIST] + encode_items(items@));
    assert(ws.subrange(0, 0) =~= Seq::<BType>::empty());
    loop
        invariant
            pos < p <= len == input.len(),
            input@[pos as int] == TAG_LIST,
            wf_items(items@),
            input@.subrange(pos as int, p as int) == seq![TAG_LIST] + encode_items(items@),
            hyp == (target is Some && target->0 is BList && wf_value(target->0) && encodes_at(
                input@,
                pos as int,
                encode_value(target->0),
            )),
            w == target->0,
            ws == (if w is BList { w->BList_0.0@ } else { Seq::<BType>::empty() }),
            enc == encode_value(w),
            hc == (target is None && cut is Some && cut->0 is BList && wf_value(cut->0) && cut_at(
                input@,
                pos as int,
                encode_value(cut->0),
            )),
            cs == (if hc { cut->0->BList_0.0@ } else { Seq::<BType>::empty() }),
            hc ==> {
                &&& forall|j: int| 0 <= j < cs.len() ==> wf_value(#[trigger] cs[j])
                &&& items@.len() <= cs.len()
                &&& cut_at(
                    input@,
                    p as int,
                    encode_items(cs.subrange(items@.len() as int, cs.len() as int)) + seq![TAG_END],
                )
            },
            hyp ==> {
                &&& encodes_at(input@, pos as int, enc)
                &&& enc == seq![TAG_LIST] + encode_items(ws) + seq![TAG_END]
                &&& forall|j: int| 0 <= j < ws.len() ==> wf_value(#[trigger] ws[j])
                &&& items@.len() <= ws.len()
                &&& p == pos + 1 + encode_items(ws.subrange(0, items@.len() as int)).len()
            },
        ensures
            pos < p < len,
            input@[p as int] == TAG_END,
            wf_items(items@),
            input@.subrange(pos as int, p as int) == seq![TAG_LIST] + encode_items(items@),
            hyp ==> p + 1 == pos + enc.len(),
            !hc,
        decreases len - p,
    {
        let ghost k = items@.len() as int;
        let ghost whole = hc && k < cs.len() && encodes_at(input@, p as int, encode_value(cs[k]));
        proof {
            if hc && p < len {
                if k < cs.len() {
                    lemma_items_front(cs, k);
                    let ev = encode_value(cs[k]);
                    let more = encode_items(cs.subrange(k + 1, cs.len() as int)) + seq![TAG_END];
                    assert(encode_items(cs.subrange(k, cs.len() as int)) + seq![TAG_END] =~= ev + more);
                    lemma_cut_first(input@, p as int, ev + more);
                    lemma_first_byte(cs[k]);
                    assert((ev + more)[0] == ev[0]);
                    lemma_cut_split(input@, p as int, ev, more);
                } else {
                    assert(cs.subrange(k, cs.len() as int) =~= Seq::<BType>::empty());
                    assert(encode_items(Seq::<BType>::empty()) =~= Seq::<u8>::empty());
                    assert(Seq::<u8>::empty() + seq![TAG_END] =~= seq![TAG_END]);
                }
            }
            if hyp {
                if k < ws.len() {
                    lemma_items_split(ws, k);
                    lemma_first_byte(ws[k]);
                    let pre = seq![TAG_LIST] + encode_items(ws.subrange(0, k));
                    let ev = encode_value(ws[k]);
                    let post = encode_items(ws.subrange(k + 1, ws.len() as int)) + seq![TAG_END];
                    assert(enc =~= pre + ev + post);
                    lemma_middle(pre, ev, post);
                    lemma_encodes_part(input@, pos as int, enc, pre.len() as int, ev);
                    assert(input@[p as int] == input@.subrange(p as int, p + ev.len())[0]);
                    assert(input@[p as int] != TAG_END);
                    assert(p < len);
                } else {
                    assert(ws.subrange(0, k) =~= ws);
                    assert(input@[p as int] == input@.subrange(pos as int, pos + enc.len())[p - pos]);
                    assert(input@[p as int] == TAG_END);
                }
            }
        }
        if p >= len {
            return Err(BencodeError::UnexpectedEOF);
        }
        if input[p] == TAG_END {
            break;
        }
        let ghost sub = if hyp && k < ws.len() {
            Some(ws[k])
        } else if whole {
            Some(cs[k])
        } else {
            None
        };
        let ghost csub = if hc && !whole && k < cs.len() { Some(cs[k]) } else { None };
        let (item, next) = match decode_at(input, p, Ghost(sub), Ghost(None), Ghost(csub)) {
            Ok(x) => x,
            Err(e) => {
                return Err(e);
            },
        };
        proof {
            lemma_items_push(items@, item);
            assert(input@.subrange(pos as int, next as int) =~= input@.subrange(pos as int, p as int)
                + input@.subrange(p as int, next as int));
            if hyp {
                lemma_items_split(ws, k);
            }
            if hc {
                lemma_items_front(cs, k);
                let ev = encode_value(cs[k]);
                let more = encode_items(cs.subrange(k + 1, cs.len() as int)) + seq![TAG_END];
                assert(encode_items(cs.subrange(k, cs.len() as int)) + seq![TAG_END] =~= ev + more);
            }
        }
        items.push(item);
        p = next;
    }
    assert(input@.subrange(pos as int, p + 1) =~= input@.subrange(pos as int, p as int) + seq![
        TAG_END,
    ]);
    Ok((BList(items), p + 1))
}

/// The dictionary at `pos` opens with the entries `es`, well formed and in
/// ascending key order, and then with a key `k` that is not above the last
/// of them.
pub open spec fn key_misplaced_at(input: Seq<u8>, pos: int, es: Seq<(BString, BType)>, k: Seq<u8>) -> bool {
    &&& es.len() > 0
    &&& keys_sorted(es)
    &&& forall|j: int| 0 <= j < es.len() ==> wf_value((#[trigger] es[j]).1)
    &&& encodes_at(input, pos, seq![TAG_DICT] + encode_entries(es) + encode_bytes(k))
    &&& !lex_lt(es[es.len() - 1].0.0@, k)
}

pub open spec fn bad_entries(bad: Option<(Seq<(BString, BType)>, Seq<u8>)>) -> Seq<(BString, BType)> {
    match bad {
        Some((es, _)) => es,
        None => Seq::empty(),
    }
}

pub open spec fn bad_key(bad: Option<(Seq<(BString, BType)>, Seq<u8>)>) -> Seq<u8> {
    match bad {
        Some((_, k)) => k,
        None => Seq::empty(),
    }
}

/// A key equal to the one before it is a duplicate; one below it is out
/// of order.
pub open spec fn misplaced_error(es: Seq<(BString, BType)>, k: Seq<u8>) -> BencodeError {
    if k == es[es.len() - 1].0.0@ {
        BencodeError::DuplicateKey
    } else {
        BencodeError::KeyOrder
    }
}

/// Entries `es` and then `trailer` stand at `pos` after the `d`; the bytes
/// of entry `m` stand where the first `m` entries end.
proof fn lemma_dict_step(
    input: Seq<u8>,
    pos: int,
    es: Seq<(BString, BType)>,
    trailer: Seq<u8>,
    m: int,
)
    requires
        encodes_at(input, pos, seq![TAG_DICT] + encode_entries(es) + trailer),
        0 <= m < es.len(),
    ensures
        ({
            let p = pos + 1 + encode_entries(es.subrange(0, m)).len();
            let kb = encode_bytes(es[m].0.0@);
            &&& encodes_at(input, p, kb)
            &&& p < input.len()
            &&& is_digit(input[p])
            &&& encodes_at(input, p + kb.len(), encode_value(es[m].1))
            &&& p + kb.len() < input.len()
            &&& encode_entries(es.subrange(0, m + 1)) == encode_entries(es.subrange(0, m)) + kb
                + encode_value(es[m].1)
        }),
{
    let enc = seq![TAG_DICT] + encode_entries(es) + trailer;
    lemma_entries_split(es, m);
    let kb = encode_bytes(es[m].0.0@);
    let vb = encode_value(es[m].1);
    lemma_nat_digits_shape(es[m].0.0@.len());
    lemma_first_byte(es[m].1);
    assert(kb[0] == nat_digits(es[m].0.0@.len())[0]);
    let pre = seq![TAG_DICT] + encode_entries(es.subrange(0, m));
    let rest = encode_entries(es.subrange(m + 1, es.len() as int)) + trailer;
    assert(enc =~= pre + kb + (vb + rest));
    lemma_middle(pre, kb, vb + rest);
    lemma_encodes_part(input, pos, enc, pre.len() as int, kb);
    assert(enc =~= (pre + kb) + vb + rest);
    lemma_middle(pre + kb, vb, rest);
    lemma_encodes_part(input, pos, enc, (pre + kb).len() as int, vb);
    let p = pos + 1 + encode_entries(es.subrange(0, m)).len();
    assert(input[p] == input.subrange(p, p + kb.len())[0]);
}

/// After all of `es`, the trailer stands.
proof fn lemma_dict_trailer(input: Seq<u8>, pos: int, es: Seq<(BString, BType)>, trailer: Seq<u8>)
    requires
        encodes_at(input, pos, seq![TAG_DICT] + encode_entries(es) + trailer),
    ensures
        encodes_at(input, pos + 1 + encode_entries(es).len(), trailer),
{
    let pre = seq![TAG_DICT] + encode_entries(es);
    lemma_middle(pre, trailer, Seq::<u8>::empty());
    assert(pre + trailer + Seq::<u8>::empty() =~= seq![TAG_DICT] + encode_entries(es) + trailer);
    lemma_encodes_part(input, pos, seq![TAG_DICT] + encode_entries(es) + trailer, pre.len() as int, trailer);
}

#[verifier::rlimit(100)]
fn decode_dict_at(
    input: &Vec<u8>,
    pos: usize,
    Ghost(target): Ghost<Option<BType>>,
    Ghost(bad): Ghost<Option<(Seq<(BString, BType)>, Seq<u8>)>>,
    Ghost(cut): Ghost<Option<BType>>,
) -> (r: Result<(BDict, usize), BencodeError>)
    requires
        pos < input.len(),
        input@[pos as int] == TAG_DICT,
    ensures
        not_trailing(r),
        r matches Ok((v, end)) ==> decoded_at(input@, pos as int, BType::BDict(v), end as int),
        target matches Some(w) && w is BDict && wf_value(w) && encodes_at(input@, pos as int, encode_value(w))
            ==> (r matches Ok((v, end)) && end == pos + encode_value(target->0).len()),
        target is None && bad is Some && key_misplaced_at(input@, pos as int, bad_entries(bad), bad_key(bad)) ==> r
            == Err::<(BDict, usize), BencodeError>(misplaced_error(bad_entries(bad), bad_key(bad))),
        target is None && bad is None && cut is Some && cut->0 is BDict && wf_value(cut->0) && cut_at(
            input@,
            pos as int,
            encode_value(cut->0),
        ) ==> r == Err::<(BDict, usize), BencodeError>(BencodeError::UnexpectedEOF),
    decreases input.len() - pos, 1int,
{
    let len = input.len();
    let ghost hyp = target is Some && target->0 is BDict && wf_value(target->0) && encodes_at(
        input@,
        pos as int,
        encode_value(target->0),
    );
    let ghost hb = target is None && bad is Some && key_misplaced_at(
        input@,
        pos as int,
        bad_entries(bad),
        bad_key(bad),
    );
    let ghost w = target->0;
    let ghost es: Seq<(BString, BType)> = if hyp { w->BDict_0.0@ } else { bad_entries(bad) };
    let ghost trailer: Seq<u8> = if hyp { seq![TAG_END] } else { encode_bytes(bad_key(bad)) };
    let ghost follow = hyp || hb;
    let ghost hc = target is None && bad is None && cut is Some && cut->0 is BDict && wf_value(cut->0)
        && cut_at(input@, pos as int, encode_value(cut->0));
    let ghost cs: Seq<(BString, BType)> = if hc { cut->0->BDict_0.0@ } else { Seq::empty() };
    proof {
        if hc {
            let ce = encode_value(cut->0);
            assert(ce =~= seq![TAG_DICT] + (encode_entries(cs) + seq![TAG_END]));
            lemma_cut_split(input@, pos as int, seq![TAG_DICT], encode_entries(cs) + seq![TAG_END]);
            assert(cs.subrange(0, cs.len() as int) =~= cs);
            lemma_wf_entries_all(cs);
        }
        if hyp {
            assert(encode_value(w) == seq![TAG_DICT] + encode_entries(es) + seq![TAG_END]);
            lemma_wf_entries_all(es);
        }
    }
    let mut entries: Vec<(BString, BType)> = Vec::new();
    let mut p: usize = pos + 1;
    assert(input@.subrange(pos as int, p as int) =~= seq![TAG_DICT] + encode_entries(entries@));
    assert(es.subrange(0, 0) =~= Seq::<(BString, BType)>::empty());
    loop
        invariant
            pos < p <= len == input.len(),
            input@[pos as int] == TAG_DICT,
            wf_entries(entries@),
            keys_sorted(entries@),
            input@.subrange(pos as int, p as int) == seq![TAG_DICT] + encode_entries(entries@),
            hyp == (target is Some && target->0 is BDict && wf_value(target->0) && encodes_at(
                input@,
                pos as int,
                encode_value(target->0),
            )),
            hb == (target is None && bad is Some && key_misplaced_at(
                input@,
                pos as int,
                bad_entries(bad),
                bad_key(bad),
            )),
            w == target->0,
            es == (if hyp { w->BDict_0.0@ } else { bad_entries(bad) }),
            trailer == (if hyp { seq![TAG_END] } else { encode_bytes(bad_key(bad)) }),
            follow == (hyp || hb),
            hc == (target is None && bad is None && cut is Some && cut->0 is BDict && wf_value(cut->0)
                && cut_at(input@, pos as int, encode_value(cut->0))),
            cs == (if hc { cut->0->BDict_0.0@ } else { Seq::<(BString, BType)>::empty() }),
            hc ==> {
                &&& forall|j: int| 0 <= j < cs.len() ==> wf_value((#[trigger] cs[j]).1)
                &&& keys_sorted(cs)
                &&& entries@.len() <= cs.len()
                &&& cut_at(
                    input@,
                    p as int,
                    encode_entries(cs.subrange(entries@.len() as int, cs.len() as int)) + seq![TAG_END],
                )
                &&& entries@.len() > 0 ==> entries@[entries@.len() - 1].0.0@ == cs[entries@.len() - 1].0.0@
            },
            hyp ==> encode_value(w) == seq![TAG_DICT] + encode_entries(es) + seq![TAG_END],
            follow ==> {
                &&& encodes_at(input@, pos as int, seq![TAG_DICT] + encode_entries(es) + trailer)
                &&& forall|j: int| 0 <= j < es.len() ==> wf_value((#[trigger] es[j]).1)
                &&& keys_sorted(es)
                &&& entries@.len() <= es.len()
                &&& p == pos + 1 + encode_entries(es.subrange(0, entries@.len() as int)).len()
                &&& entries@.len() > 0 ==> entries@[entries@.len() - 1].0.0@ == es[entries@.len() - 1].0.0@
            },
        ensures
            pos < p < len,
            input@[p as int] == TAG_END,
            wf_entries(entries@),
            keys_sorted(entries@),
            input@.subrange(pos as int, p as int) == seq![TAG_DICT] + encode_entries(entries@),
            hyp ==> p + 1 == pos + encode_value(w).len(),
            !hb,
            !hc,
        decreases len - p,
    {
        let ghost k = entries@.len() as int;
        let ghost ckb = if hc && k < cs.len() { encode_bytes(cs[k].0.0@) } else { Seq::<u8>::empty() };
        let ghost cvb = if hc && k < cs.len() { encode_value(cs[k].1) } else { Seq::<u8>::empty() };
        let ghost cmore = if hc && k < cs.len() {
            encode_entries(cs.subrange(k + 1, cs.len() as int)) + seq![TAG_END]
        } else {
            Seq::<u8>::empty()
        };
        let ghost key_whole = hc && k < cs.len() && encodes_at(input@, p as int, ckb);
        proof {
            if hc && p < len {
                if k < cs.len() {
                    lemma_entries_front(cs, k);
                    assert(encode_entries(cs.subrange(k, cs.len() as int)) + seq![TAG_END] =~= ckb + (
                    cvb + cmore));
                    lemma_cut_first(input@, p as int, ckb + (cvb + cmore));
                    lemma_nat_digits_shape(cs[k].0.0@.len());
                    assert(ckb[0] == nat_digits(cs[k].0.0@.len())[0]);
                    assert((ckb + (cvb + cmore))[0] == ckb[0]);
                    lemma_cut_split(input@, p as int, ckb, cvb + cmore);
                } else {
                    assert(cs.subrange(k, cs.len() as int) =~= Seq::<(BString, BType)>::empty());
                    assert(encode_entries(Seq::<(BString, BType)>::empty()) =~= Seq::<u8>::empty());
                    assert(Seq::<u8>::empty() + seq![TAG_END] =~= seq![TAG_END]);
                }
            }
            if follow {
                if k < es.len() {
                    lemma_dict_step(input@, pos as int, es, trailer, k);
                } else {
                    assert(es.subrange(0, k) =~= es);
                    lemma_dict_trailer(input@, pos as int, es, trailer);
                    if hyp {
                        assert(input@[p as int] == input@.subrange(p as int, p + 1)[0]);
                    } else {
                        let kb = encode_bytes(bad_key(bad));
                        lemma_nat_digits_shape(bad_key(bad).len());
                        assert(kb[0] == nat_digits(bad_key(bad).len())[0]);
                        assert(input@[p as int] == input@.subrange(p as int, p + kb.len())[0]);
                    }
                }
            }
        }
        if p >= len {
            return Err(BencodeError::UnexpectedEOF);
        }
        if input[p] == TAG_END {
            break;
        }
        if !is_digit_byte(input[p]) {
            return Err(BencodeError::InvalidHeader);
        }
        let ghost ksub = if follow && k < es.len() {
            Some(es[k].0.0@)
        } else if hb {
            Some(bad_key(bad))
        } else if key_whole {
            Some(cs[k].0.0@)
        } else {
            None
        };
        let ghost kcut = if hc && k < cs.len() && !key_whole { Some(cs[k].0.0@) } else { None };
        let (key, after_key) = match decode_string_at(input, p, Ghost(ksub), Ghost(kcut)) {
            Ok(x) => x,
            Err(e) => {
                return Err(e);
            },
        };
        let n = entries.len();
        proof {
            if follow && k < es.len() && n > 0 {
                assert(lex_lt(es[n - 1].0.0@, es[k].0.0@));
            }
            if hb && k == es.len() {
                lemma_lex_total(es[n - 1].0.0@, key.0@);
            }
            if hc && n > 0 {
                assert(lex_lt(cs[n - 1].0.0@, cs[k].0.0@));
            }
        }
        if n > 0 {
            let c = compare_bytes(entries[n - 1].0.0.as_slice(), key.0.as_slice());
            if c == 0 {
                return Err(BencodeError::DuplicateKey);
            }
            if c > 0 {
                proof {
                    if follow && k < es.len() {
                        lemma_lex_asymmetric(es[n - 1].0.0@, es[k].0.0@);
                    }
                    if hc {
                        lemma_lex_asymmetric(cs[n - 1].0.0@, cs[k].0.0@);
                    }
                }
                return Err(BencodeError::KeyOrder);
            }
        }
        proof {
            if hc {
                lemma_cut_split(input@, after_key as int, cvb, cmore);
                lemma_first_byte(cs[k].1);
            }
        }
        if after_key >= len {
            return Err(BencodeError::UnexpectedEOF);
        }
        let ghost val_whole = hc && encodes_at(input@, after_key as int, cvb);
        let ghost vsub = if follow && k < es.len() {
            Some(es[k].1)
        } else if val_whole {
            Some(cs[k].1)
        } else {
            None
        };
        let ghost vcut = if hc && !val_whole { Some(cs[k].1) } else { None };
        let (value, next) = match decode_at(input, after_key, Ghost(vsub), Ghost(None), Ghost(vcut)) {
            Ok(x) => x,
            Err(e) => {
                return Err(e);
            },
        };
        proof {
            let e = (key, value);
            lemma_entries_push(entries@, e);
            assert(input@.subrange(pos as int, next as int) =~= input@.subrange(pos as int, p as int)
                + input@.subrange(p as int, after_key as int) + input@.subrange(
                after_key as int,
                next as int,
            ));
            let grown = entries@.push(e);
            assert forall|i: int, j: int| 0 <= i < j < grown.len() implies lex_lt(
                #[trigger] grown[i].0.0@,
                #[trigger] grown[j].0.0@,
            ) by {
                if j == n {
                    if i < n - 1 {
                        assert(lex_lt(entries@[i].0.0@, entries@[n - 1].0.0@));
                        lemma_lex_transitive(
                            entries@[i].0.0@,
                            entries@[n - 1].0.0@,
                            key.0@,
                        );
                    }
                } else {
                    assert(grown[i] == entries@[i] && grown[j] == entries@[j]);
                }
            }
        }
        entries.push((key, value));
        p = next;
    }
    assert(input@.subrange(pos as int, p + 1) =~= input@.subrange(pos as int, p as int) + seq![
        TAG_END,
    ]);
    Ok((BDict(entries), p + 1))
}

fn decode_at(
    input: &Vec<u8>,
    pos: usize,
    Ghost(target): Ghost<Option<BType>>,
    Ghost(bad): Ghost<Option<(Seq<(BString, BType)>, Seq<u8>)>>,
    Ghost(cut): Ghost<Option<BType>>,
) -> (r: Result<(BType, usize), BencodeError>)
    requires
        pos < input.len(),
    ensures
        target is None && bad is None && cut is Some && wf_value(cut->0) && cut_at(
            input@,
            pos as int,
            encode_value(cut->0),
        ) ==> r == Err::<(BType, usize), BencodeError>(BencodeError::UnexpectedEOF),
        target is None && bad is Some && key_misplaced_at(input@, pos as int, bad_entries(bad), bad_key(bad)) ==> r
            == Err::<(BType, usize), BencodeError>(misplaced_error(bad_entries(bad), bad_key(bad))),
        !value_tag(input@[pos as int]) ==> r == Err::<(BType, usize), BencodeError>(
            BencodeError::InvalidHeader,
        ),
        input@[pos as int] == TAG_INT && int_malformed(input@, pos as int) ==> r == Err::<
            (BType, usize),
            BencodeError,
        >(BencodeError::InvalidInteger),
        not_trailing(r),
        r matches Ok((v, end)) ==> decoded_at(input@, pos as int, v, end as int),
        target matches Some(w) && wf_value(w) && encodes_at(input@, pos as int, encode_value(w)) ==> (
        r matches Ok((v, end)) && end == pos + encode_value(target->0).len()),
    decreases input.len() - pos, 2int,
{
    let ghost hyp = target matches Some(w) && wf_value(w) && encodes_at(
        input@,
        pos as int,
        encode_value(w),
    );
    let ghost w = target->0;
    proof {
        if hyp {
            lemma_first_byte(w);
            assert(input@[pos as int] == input@.subrange(pos as int, pos + encode_value(w).len())[0]);
        }
    }
    proof {
        if target is None && bad is Some && key_misplaced_at(input@, pos as int, bad_entries(bad), bad_key(bad)) {
            let e = seq![TAG_DICT] + encode_entries(bad_entries(bad)) + encode_bytes(bad_key(bad));
            assert(input@[pos as int] == input@.subrange(pos as int, pos + e.len())[0]);
        }
    }
    let ghost hc = target is None && bad is None && cut is Some && wf_value(cut->0) && cut_at(
        input@,
        pos as int,
        encode_value(cut->0),
    );
    let ghost c = cut->0;
    proof {
        if hc {
            lemma_first_byte(c);
            lemma_cut_first(input@, pos as int, encode_value(c));
        }
    }
    let b = input[pos];
    if is_digit_byte(b) {
        let ghost sub = if hyp && w is BString { Some(w->BString_0.0@) } else { None };
        let ghost csub = if hc && c is BString { Some(c->BString_0.0@) } else { None };
        match decode_string_at(input, pos, Ghost(sub), Ghost(csub)) {
            Ok((s, end)) => Ok((BType::BString(s), end)),
            Err(e) => Err(e),
        }
    } else if b == TAG_INT {
        let ghost sub = if hyp && w is BInt { Some(w->BInt_0.0) } else { None };
        let ghost csub = if hc && c is BInt { Some(c->BInt_0.0) } else { None };
        proof {
            if hyp {
                assert(BType::BInt(BInt(w->BInt_0.0)) == w);
            }
            if hc {
                assert(BType::BInt(BInt(c->BInt_0.0)) == c);
            }
        }
        match decode_int_at(input, pos, Ghost(sub), Ghost(csub)) {
            Ok((i, end)) => Ok((BType::BInt(i), end)),
            Err(e) => Err(e),
        }
    } else if b == TAG_LIST {
        match decode_list_at(
            input,
            pos,
            Ghost(if hyp { Some(w) } else { None }),
            Ghost(if hc { Some(c) } else { None }),
        ) {
            Ok((l, end)) => Ok((BType::BList(l), end)),
            Err(e) => Err(e),
        }
    } else if b == TAG_DICT {
        match decode_dict_at(
            input,
            pos,
            Ghost(if hyp { Some(w) } else { None }),
            Ghost(if target is None { bad } else { None }),
            Ghost(if hc { Some(c) } else { None }),
        ) {
            Ok((d, end)) => Ok((BType::BDict(d), end)),
            Err(e) => Err(e),
        }
    } else {
        Err(BencodeError::InvalidHeader)
    }
}

/// The input opens a dictionary whose next key repeats the one before.
pub open spec fn duplicate_key_at(input: Seq<u8>) -> bool {
    exists|es: Seq<(BString, BType)>, k: Seq<u8>|
        #[trigger] key_misplaced_at(input, 0, es, k) && k == es[es.len() - 1].0.0@
}

/// The input opens a dictionary whose next key is below the one before.
pub open spec fn misordered_key_at(input: Seq<u8>) -> bool {
    exists|es: Seq<(BString, BType)>, k: Seq<u8>|
        #[trigger] key_misplaced_at(input, 0, es, k) && k != es[es.len() - 1].0.0@
}

/// The witness the decoder follows for a misplaced key, a repeated one
/// first.
pub open spec fn misplaced_witness(input: Seq<u8>) -> Option<(Seq<(BString, BType)>, Seq<u8>)> {
    if duplicate_key_at(input) {
        Some(
            choose|es: Seq<(BString, BType)>, k: Seq<u8>|
                #[trigger] key_misplaced_at(input, 0, es, k) && k == es[es.len() - 1].0.0@,
        )
    } else if misordered_key_at(input) {
        Some(
            choose|es: Seq<(BString, BType)>, k: Seq<u8>|
                #[trigger] key_misplaced_at(input, 0, es, k) && k != es[es.len() - 1].0.0@,
        )
    } else {
        None
    }
}

/// The input ends inside the text of a well-formed value.
pub open spec fn truncated_value(input: Seq<u8>) -> bool {
    exists|w: BType| wf_value(w) && #[trigger] cut_at(input, 0, encode_value(w))
}

/// The value whose text the input ends inside, if it ends inside one.
pub open spec fn truncated_witness(input: Seq<u8>) -> Option<BType> {
    if truncated_value(input) {
        Some(choose|w: BType| wf_value(w) && #[trigger] cut_at(input, 0, encode_value(w)))
    } else {
        None
    }
}

/// The input starts with the text of a well-formed value.
pub open spec fn starts_with_value(input: Seq<u8>) -> bool {
    exists|w: BType| wf_value(w) && #[trigger] encodes_at(input, 0, encode_value(w))
}

/// The input is the text of a well-formed value.
pub open spec fn is_value_text(input: Seq<u8>) -> bool {
    exists|w: BType| wf_value(w) && #[trigger] encode_value(w) == input
}

/// Decodes the value at the start of `input`; returns it with the number
/// of bytes it spans. It succeeds exactly when the input starts with the
/// text of a well-formed value. A first byte that starts no value is
/// `InvalidHeader`; a malformed integer `InvalidInteger`; a dictionary key
/// equal to or below the one before it `DuplicateKey` or `KeyOrder`; input
/// that ends inside a value `UnexpectedEOF`.
pub fn decode(input: &Vec<u8>) -> (r: Result<(BType, usize), BencodeError>)
    ensures
        r matches Ok((v, n)) ==> decoded_at(input@, 0, v, n as int),
        r is Ok <==> starts_with_value(input@),
        not_trailing(r),
        input@.len() > 0 && !value_tag(input@[0]) ==> r == Err::<(BType, usize), BencodeError>(
            BencodeError::InvalidHeader,
        ),
        input@.len() > 0 && input@[0] == TAG_INT && int_malformed(input@, 0) ==> r == Err::<
            (BType, usize),
            BencodeError,
        >(BencodeError::InvalidInteger),
        !starts_with_value(input@) && duplicate_key_at(input@) ==> r == Err::<
            (BType, usize),
            BencodeError,
        >(BencodeError::DuplicateKey),
        !starts_with_value(input@) && misordered_key_at(input@) && !duplicate_key_at(input@) ==> r
            == Err::<(BType, usize), BencodeError>(BencodeError::KeyOrder),
        !starts_with_value(input@) && !duplicate_key_at(input@) && !misordered_key_at(input@)
            && truncated_value(input@) ==> r == Err::<(BType, usize), BencodeError>(
            BencodeError::UnexpectedEOF,
        ),
        input@.len() == 0 ==> r == Err::<(BType, usize), BencodeError>(BencodeError::UnexpectedEOF),
{
    let ghost target = if starts_with_value(input@) {
        Some(choose|w: BType| wf_value(w) && #[trigger] encodes_at(input@, 0, encode_value(w)))
    } else {
        None
    };
    proof {
        if starts_with_value(input@) {
            lemma_first_byte(target->0);
        }
    }
    if input.len() == 0 {
        return Err(BencodeError::UnexpectedEOF);
    }
    let ghost bad = misplaced_witness(input@);
    let ghost cut = if bad is None { truncated_witness(input@) } else { None };
    let r = decode_at(input, 0, Ghost(target), Ghost(bad), Ghost(cut));
    proof {
        if r is Ok {
            let v = r->Ok_0.0;
            assert(encodes_at(input@, 0, encode_value(v)));
        }
    }
    r
}

/// Decodes a whole buffer that must hold exactly one value. It succeeds
/// exactly when the buffer is the text of a well-formed value, and then the
/// value encodes back to the very same bytes.
pub fn decode_all(input: &Vec<u8>) -> (r: Result<BType, BencodeError>)
    ensures
        r matches Ok(v) ==> wf_value(v) && encode_value(v) == input@,
        r is Ok <==> is_value_text(input@),
        r == Err::<BType, BencodeError>(BencodeError::TrailingData) <==> starts_with_value(input@)
            && !is_value_text(input@),
        input@.len() > 0 && !value_tag(input@[0]) ==> r == Err::<BType, BencodeError>(
            BencodeError::InvalidHeader,
        ),
        input@.len() > 0 && input@[0] == TAG_INT && int_malformed(input@, 0) ==> r == Err::<
            BType,
            BencodeError,
        >(BencodeError::InvalidInteger),
        !starts_with_value(input@) && duplicate_key_at(input@) ==> r == Err::<BType, BencodeError>(
            BencodeError::DuplicateKey,
        ),
        !starts_with_value(input@) && misordered_key_at(input@) && !duplicate_key_at(input@) ==> r
            == Err::<BType, BencodeError>(BencodeError::KeyOrder),
        !starts_with_value(input@) && !duplicate_key_at(input@) && !misordered_key_at(input@)
            && truncated_value(input@) ==> r == Err::<BType, BencodeError>(BencodeError::UnexpectedEOF),
{
    let ghost bad = misplaced_witness(input@);
    let ghost target = if is_value_text(input@) {
        Some(choose|w: BType| wf_value(w) && #[trigger] encode_value(w) == input@)
    } else if starts_with_value(input@) {
        Some(choose|w: BType| wf_value(w) && #[trigger] encodes_at(input@, 0, encode_value(w)))
    } else {
        None
    };
    proof {
        if is_value_text(input@) {
            lemma_first_byte(target->0);
            assert(input@.subrange(0, input@.len() as int) =~= input@);
            assert(encodes_at(input@, 0, encode_value(target->0)));
        } else if starts_with_value(input@) {
            lemma_first_byte(target->0);
        }
    }
    if input.len() == 0 {
        return Err(BencodeError::UnexpectedEOF);
    }
    let ghost cut = if bad is None { truncated_witness(input@) } else { None };
    let (v, n) = match decode_at(input, 0, Ghost(target), Ghost(bad), Ghost(cut)) {
        Ok(x) => x,
        Err(e) => {
            return Err(e);
        },
    };
    if n != input.len() {
        assert(encodes_at(input@, 0, encode_value(v)));
        return Err(BencodeError::TrailingData);
    }
    assert(input@.subrange(0, n as int) =~= input@);
    assert(encode_value(v) == input@);
    assert(encodes_at(input@, 0, encode_value(v)));
    Ok(v)
}

// ---------------------------------------------------------------------
// Dictionary lookup
// ---------------------------------------------------------------------

proof fn lemma_dict_get_at(s: Seq<(BString, BType)>, i: int)
    requires
        keys_sorted(s),
        0 <= i < s.len(),
    ensures
        dict_get(s, s[i].0.0@) == Some(s[i].1),
    decreases s.len(),
{
    let n = s.len() - 1;
    if i < n {
        assert(lex_lt(s[i].0.0@, s[n].0.0@));
        lemma_lex_irreflexive(s[i].0.0@);
        let p = s.subrange(0, n);
        assert(p[i] == s[i]);
        lemma_dict_get_at(p, i);
    }
}

proof fn lemma_dict_get_absent(s: Seq<(BString, BType)>, k: Seq<u8>)
    requires
        forall|i: int| 0 <= i < s.len() ==> (#[trigger] s[i]).0.0@ != k,
    ensures
        dict_get(s, k) == None::<BType>,
    decreases s.len(),
{
    if s.len() > 0 {
        let p = s.subrange(0, s.len() - 1);
        assert forall|i: int| 0 <= i < p.len() implies (#[trigger] p[i]).0.0@ != k by {
            assert(p[i] == s[i]);
        }
        lemma_dict_get_absent(p, k);
    }
}

/// Lookup in a sorted entry list: present exactly at the index holding the key.
proof fn lemma_dict_get(s: Seq<(BString, BType)>, k: Seq<u8>)
    requires
        keys_sorted(s),
    ensures
        dict_get(s, k) is None <==> forall|i: int| 0 <= i < s.len() ==> (#[trigger] s[i]).0.0@ != k,
        forall|i: int| 0 <= i < s.len() && (#[trigger] s[i]).0.0@ == k ==> dict_get(s, k) == Some(
            s[i].1,
        ),
{
    assert forall|i: int| 0 <= i < s.len() && (#[trigger] s[i]).0.0@ == k implies dict_get(s, k)
        == Some(s[i].1) by {
        lemma_dict_get_at(s, i);
    }
    if forall|i: int| 0 <= i < s.len() ==> (#[trigger] s[i]).0.0@ != k {
        lemma_dict_get_absent(s, k);
    }
}

// ---------------------------------------------------------------------
// The value types
// ---------------------------------------------------------------------

impl BInt {
    pub fn new(data: i64) -> (r: BInt)
        ensures
            r.0 == data,
    {
        BInt(data)
    }

    pub fn into_int(&self) -> (r: i64)
        ensures
            r == self.0,
    {
        self.0
    }
}

impl BString {
    pub fn new(data: &Vec<u8>) -> (r: BString)
        ensures
            r.0@ == data@,
    {
        BString(data.clone())
    }

    /// The bytes as text, when they are valid UTF-8.
    pub fn into_string(&self) -> (r: Option<String>)
        ensures
            text_view(r) == utf8_text(self.0@),
    {
        utf8_string(&self.0)
    }

    /// The raw bytes.
    pub fn as_bytes(&self) -> (r: &Vec<u8>)
        ensures
            r@ == self.0@,
    {
        &self.0
    }
}

impl BList {
    pub fn new(data: Vec<BType>) -> (r: BList)
        ensures
            r.0@ == data@,
    {
        BList(data)
    }

    pub fn push(&mut self, data: BType)
        ensures
            final(self).0@ == old(self).0@.push(data),
    {
        self.0.push(data);
    }

    pub fn get(&self) -> (r: &Vec<BType>)
        ensures
            r@ == self.0@,
    {
        &self.0
    }
}

impl BDict {
    /// Entries strictly ascending by key.
    pub open spec fn wf(&self) -> bool {
        keys_sorted(self.0@)
    }

    /// The value stored under `key`, if any.
    pub open spec fn lookup(&self, key: Seq<u8>) -> Option<BType> {
        dict_get(self.0@, key)
    }

    pub fn new() -> (r: BDict)
        ensures
            r.wf(),
            r.0@.len() == 0,
    {
        BDict(Vec::new())
    }

    /// Stores `value` under `key`, replacing what was there; keys stay sorted.
    pub fn insert(&mut self, key: BString, value: BType)
        requires
            old(self).wf(),
        ensures
            final(self).wf(),
            forall|k: Seq<u8>| #[trigger]
                final(self).lookup(k) == if k == key.0@ {
                    Some(value)
                } else {
                    old(self).lookup(k)
                },
            wf_entries(old(self).0@) && wf_value(value) ==> wf_entries(final(self).0@),
    {
        let ghost prior = self.0@;
        let ghost kv = key.0@;
        let n = self.0.len();
        let mut i: usize = 0;
        while i < n && compare_bytes(self.0[i].0.0.as_slice(), key.0.as_slice()) < 0
            invariant
                n == self.0.len(),
                self.0@ == prior,
                kv == key.0@,
                keys_sorted(prior),
                i <= n,
                forall|j: int| 0 <= j < i ==> lex_lt((#[trigger] prior[j]).0.0@, kv),
            decreases n - i,
        {
            i += 1;
        }
        let same = i < n && compare_bytes(self.0[i].0.0.as_slice(), key.0.as_slice()) == 0;
        // Every entry from `i` on has a key not below `key`.
        proof {
            assert forall|j: int| i <= j < n implies !lex_lt((#[trigger] prior[j]).0.0@, kv) by {
                if j > i {
                    assert(lex_lt(prior[i as int].0.0@, prior[j].0.0@));
                    if lex_lt(prior[j].0.0@, kv) {
                        lemma_lex_transitive(prior[i as int].0.0@, prior[j].0.0@, kv);
                    }
                }
            }
        }
        if same {
            self.0.remove(i);
        }
        self.0.insert(i, (key, value));
        proof {
            let after = self.0@;
            let e = (key, value);
            assert(after[i as int] == e);
            assert forall|a: int, b: int| 0 <= a < b < after.len() implies lex_lt(
                #[trigger] after[a].0.0@,
                #[trigger] after[b].0.0@,
            ) by {
                let oa = if a < i { a } else if a == i { -1 } else if same { a } else { a - 1 };
                let ob = if b < i { b } else if b == i { -1 } else if same { b } else { b - 1 };
                if a != i && b != i {
                    assert(after[a] == prior[oa]);
                    assert(after[b] == prior[ob]);
                } else if a == i {
                    assert(after[b] == prior[ob]);
                    assert(!lex_lt(prior[ob].0.0@, kv));
                    lemma_lex_total(prior[ob].0.0@, kv);
                    if same && ob == i {
                    } else if prior[ob].0.0@ == kv {
                        assert(lex_lt(prior[i as int].0.0@, prior[ob].0.0@));
                        lemma_lex_total(prior[i as int].0.0@, kv);
                        lemma_lex_asymmetric(prior[i as int].0.0@, kv);
                    }
                } else {
                    assert(after[a] == prior[oa]);
                    assert(lex_lt(prior[oa].0.0@, kv));
                }
            }
            lemma_dict_get(prior, kv);
            lemma_dict_get(after, kv);
            assert forall|k: Seq<u8>| #[trigger] dict_get(after, k) == if k == kv {
                Some(value)
            } else {
                dict_get(prior, k)
            } by {
                lemma_dict_get(prior, k);
                lemma_dict_get(after, k);
                if k != kv {
                    assert forall|j: int| 0 <= j < prior.len() && (#[trigger] prior[j]).0.0@ == k implies after[
                        if j < i { j } else if same { j } else { j + 1 }
                    ] == prior[j] by {
                        if same && j == i {
                            assert(false);
                        }
                    }
                    assert forall|j: int| 0 <= j < after.len() && (#[trigger] after[j]).0.0@ == k implies prior[
                        if j < i { j } else if same { j } else { j - 1 }
                    ] == after[j] by {
                    }
                }
            }
            if wf_entries(prior) && wf_value(value) {
                lemma_wf_entries_all(prior);
                lemma_wf_entries_all(after);
                assert forall|j: int| 0 <= j < after.len() implies wf_value((#[trigger] after[j]).1) by {
                    if j != i {
                        let oj = if j < i { j } else if same { j } else { j - 1 };
                        assert(after[j] == prior[oj]);
                    }
                }
            }
        }
    }

    /// The value under `key`.
    pub fn get(&self, key: &[u8]) -> (r: Option<&BType>)
        requires
            self.wf(),
        ensures
            r == match self.lookup(key@) {
                Some(v) => Some(&v),
                None => None,
            },
    {
        let n = self.0.len();
        let mut i: usize = 0;
        while i < n
            invariant
                n == self.0.len(),
                self.wf(),
                i <= n,
                forall|j: int| 0 <= j < i ==> (#[trigger] self.0@[j]).0.0@ != key@,
            decreases n - i,
        {
            if compare_bytes(self.0[i].0.0.as_slice(), key) == 0 {
                proof {
                    lemma_dict_get(self.0@, key@);
                }
                return Some(&self.0[i].1);
            }
            i += 1;
        }
        proof {
            lemma_dict_get(self.0@, key@);
        }
        None
    }

    /// The integer under `key`; `None` when absent or of another shape.
    pub fn get_int(&self, key: &[u8]) -> (r: Option<i64>)
        requires
            self.wf(),
        ensures
            r == match self.lookup(key@) {
                Some(BType::BInt(i)) => Some(i.0),
                _ => None::<i64>,
            },
    {
        match self.get(key) {
            Some(BType::BInt(i)) => Some(i.0),
            _ => None,
        }
    }

    /// The byte string under `key`; `None` when absent or of another shape.
    pub fn get_bytes(&self, key: &[u8]) -> (r: Option<&Vec<u8>>)
        requires
            self.wf(),
        ensures
            r == match self.lookup(key@) {
                Some(BType::BString(s)) => Some(&s.0),
                _ => None::<&Vec<u8>>,
            },
    {
        match self.get(key) {
            Some(BType::BString(s)) => Some(&s.0),
            _ => None,
        }
    }

    /// The list under `key`; `None` when absent or of another shape.
    pub fn get_list(&self, key: &[u8]) -> (r: Option<&BList>)
        requires
            self.wf(),
        ensures
            r == match self.lookup(key@) {
                Some(BType::BList(l)) => Some(&l),
                _ => None::<&BList>,
            },
    {
        match self.get(key) {
            Some(BType::BList(l)) => Some(l),
            _ => None,
        }
    }

    /// The dictionary under `key`; `None` when absent or of another shape.
    pub fn get_dict(&self, key: &[u8]) -> (r: Option<&BDict>)
        requires
            self.wf(),
        ensures
            r == match self.lookup(key@) {
                Some(BType::BDict(d)) => Some(&d),
                _ => None::<&BDict>,
            },
    {
        match self.get(key) {
            Some(BType::BDict(d)) => Some(d),
            _ => None,
        }
    }
}

proof fn lemma_wf_entries_all(s: Seq<(BString, BType)>)
    ensures
        wf_entries(s) <==> forall|j: int| 0 <= j < s.len() ==> wf_value((#[trigger] s[j]).1),
    decreases s.len(),
{
    if s.len() > 0 {
        let p = s.subrange(0, s.len() - 1);
        lemma_wf_entries_all(p);
        assert forall|j: int| 0 <= j < p.len() implies p[j] == s[j] by {}
    }
}

/// A value found in a dictionary is well formed when the dictionary is.
pub proof fn lemma_lookup_wf(s: Seq<(BString, BType)>, k: Seq<u8>)
    requires
        wf_entries(s),
    ensures
        dict_get(s, k) matches Some(v) ==> wf_value(v),
    decreases s.len(),
{
    if s.len() > 0 {
        lemma_wf_entries_all(s);
        let p = s.subrange(0, s.len() - 1);
        lemma_wf_entries_all(p);
        assert forall|j: int| 0 <= j < p.len() implies wf_value((#[trigger] p[j]).1) by {
            assert(p[j] == s[j]);
        }
        lemma_lookup_wf(p, k);
    }
}

/// Every item of a well-formed list is well formed.
pub proof fn lemma_items_wf(s: Seq<BType>)
    ensures
        wf_items(s) <==> forall|j: int| 0 <= j < s.len() ==> wf_value(#[trigger] s[j]),
    decreases s.len(),
{
    if s.len() > 0 {
        let p = s.subrange(0, s.len() - 1);
        lemma_items_wf(p);
        assert forall|j: int| 0 <= j < p.len() implies p[j] == s[j] by {}
    }
}

proof fn lemma_sorted_prefix(s: Seq<(BString, BType)>)
    requires
        keys_sorted(s),
        s.len() > 0,
    ensures
        keys_sorted(s.subrange(0, s.len() - 1)),
        forall|k: Seq<u8>|
            k != s[s.len() - 1].0.0@ ==> #[trigger] dict_get(s, k) == dict_get(s.subrange(0, s.len() - 1), k),
        dict_get(s.subrange(0, s.len() - 1), s[s.len() - 1].0.0@) is None,
{
    let p = s.subrange(0, s.len() - 1);
    let x = s[s.len() - 1].0.0@;
    assert forall|i: int, j: int| 0 <= i < j < p.len() implies lex_lt(
        #[trigger] p[i].0.0@,
        #[trigger] p[j].0.0@,
    ) by {
        assert(p[i] == s[i] && p[j] == s[j]);
    }
    assert forall|i: int| 0 <= i < p.len() implies (#[trigger] p[i]).0.0@ != x by {
        assert(p[i] == s[i]);
        assert(lex_lt(s[i].0.0@, x));
        lemma_lex_irreflexive(x);
    }
    lemma_dict_get(p, x);
}

proof fn lemma_sorted_same_entries(s: Seq<(BString, BType)>, t: Seq<(BString, BType)>)
    requires
        keys_sorted(s),
        keys_sorted(t),
        forall|k: Seq<u8>| #[trigger] dict_get(s, k) == dict_get(t, k),
    ensures
        encode_entries(s) == encode_entries(t),
    decreases s.len(),
{
    if s.len() == 0 {
        if t.len() > 0 {
            lemma_dict_get_at(t, 0);
            assert(dict_get(s, t[0].0.0@) == dict_get(t, t[0].0.0@));
        }
    } else if t.len() == 0 {
        lemma_dict_get_at(s, 0);
        assert(dict_get(s, s[0].0.0@) == dict_get(t, s[0].0.0@));
    } else {
        let ls = s.len() - 1;
        let lt = t.len() - 1;
        let x = s[ls].0.0@;
        let y = t[lt].0.0@;
        lemma_dict_get_at(s, ls);
        lemma_dict_get_at(t, lt);
        lemma_dict_get(t, x);
        lemma_dict_get(s, y);
        assert(dict_get(s, x) == dict_get(t, x));
        assert(dict_get(s, y) == dict_get(t, y));
        if x != y {
            let j = choose|j: int| 0 <= j < t.len() && (#[trigger] t[j]).0.0@ == x;
            let i = choose|i: int| 0 <= i < s.len() && (#[trigger] s[i]).0.0@ == y;
            assert(j < lt);
            assert(i < ls);
            assert(lex_lt(x, y));
            assert(lex_lt(y, x));
            lemma_lex_asymmetric(x, y);
        }
        assert(s[ls].1 == t[lt].1);
        lemma_sorted_prefix(s);
        lemma_sorted_prefix(t);
        let ps = s.subrange(0, ls);
        let pt = t.subrange(0, lt);
        assert forall|k: Seq<u8>| #[trigger] dict_get(ps, k) == dict_get(pt, k) by {
            if k != x {
                assert(dict_get(s, k) == dict_get(ps, k));
                assert(dict_get(t, k) == dict_get(pt, k));
                assert(dict_get(s, k) == dict_get(t, k));
            }
        }
        lemma_sorted_same_entries(ps, pt);
    }
}

/// Encoding is canonical: two well-formed dictionaries that map every key
/// to the same value have the same bytes.
pub proof fn lemma_encoding_canonical(a: BDict, b: BDict)
    requires
        a.wf(),
        b.wf(),
        forall|k: Seq<u8>| #[trigger] a.lookup(k) == b.lookup(k),
    ensures
        encode_value(BType::BDict(a)) == encode_value(BType::BDict(b)),
{
    assert forall|k: Seq<u8>| #[trigger] dict_get(a.0@, k) == dict_get(b.0@, k) by {
        assert(a.lookup(k) == b.lookup(k));
    }
    lemma_sorted_same_entries(a.0@, b.0@);
}

} // verus!

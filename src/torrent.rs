use vstd::prelude::*;
use crate::bencoding::{
    lemma_items_wf, lemma_lookup_wf, wf_value, BDict, BList, BType,
};
use crate::bencoding::compare_bytes;
use crate::utility::{hash, info_key, random_u64, sha1_of, text_view, to_vec, utf8_string, utf8_text};

verus! {

// ---------------------------------------------------------------------
// Keys of the metainfo dictionary
// ---------------------------------------------------------------------

pub open spec fn key_announce() -> Seq<u8> {
    seq![97u8, 110, 110, 111, 117, 110, 99, 101]
}

pub open spec fn key_name() -> Seq<u8> {
    seq![110u8, 97, 109, 101]
}

pub open spec fn key_piece_length() -> Seq<u8> {
    seq![112u8, 105, 101, 99, 101, 32, 108, 101, 110, 103, 116, 104]
}

pub open spec fn key_pieces() -> Seq<u8> {
    seq![112u8, 105, 101, 99, 101, 115]
}

pub open spec fn key_length() -> Seq<u8> {
    seq![108u8, 101, 110, 103, 116, 104]
}

pub open spec fn key_files() -> Seq<u8> {
    seq![102u8, 105, 108, 101, 115]
}

pub open spec fn key_path() -> Seq<u8> {
    seq![112u8, 97, 116, 104]
}

// ---------------------------------------------------------------------
// What a metainfo dictionary must hold
// ---------------------------------------------------------------------

pub open spec fn str_at(d: BDict, k: Seq<u8>) -> Option<Seq<u8>> {
    match d.lookup(k) {
        Some(BType::BString(s)) => Some(s.0@),
        _ => None,
    }
}

pub open spec fn text_at(d: BDict, k: Seq<u8>) -> Option<Seq<char>> {
    match str_at(d, k) {
        Some(b) => utf8_text(b),
        None => None,
    }
}

pub open spec fn int_at(d: BDict, k: Seq<u8>) -> Option<i64> {
    match d.lookup(k) {
        Some(BType::BInt(i)) => Some(i.0),
        _ => None,
    }
}

pub open spec fn segment_text(v: BType) -> Option<Seq<char>> {
    match v {
        BType::BString(s) => utf8_text(s.0@),
        _ => None,
    }
}

/// A `files` entry: a dictionary with a non-negative `length` and a
/// non-empty `path` list of UTF-8 segments.
pub open spec fn file_entry_ok(v: BType) -> bool {
    match v {
        BType::BDict(fd) => {
            &&& int_at(fd, key_length()) matches Some(l) && l >= 0
            &&& fd.lookup(key_path()) matches Some(BType::BList(pl)) && pl.0@.len() > 0 && forall|
                i: int,
            | 0 <= i < pl.0@.len() ==> (#[trigger] segment_text(pl.0@[i])) is Some
        },
        _ => false,
    }
}

pub open spec fn entry_length(v: BType) -> int {
    match v {
        BType::BDict(fd) => match int_at(fd, key_length()) {
            Some(l) => l as int,
            None => 0,
        },
        _ => 0,
    }
}

pub open spec fn entry_path(v: BType) -> Seq<Seq<char>> {
    match v {
        BType::BDict(fd) => match fd.lookup(key_path()) {
            Some(BType::BList(pl)) => pl.0@.map_values(|s: BType| segment_text(s)->0),
            _ => Seq::empty(),
        },
        _ => Seq::empty(),
    }
}

/// Sum of the lengths of the first entries of a `files` list.
pub open spec fn lengths_sum(s: Seq<BType>) -> int
    decreases s.len(),
{
    if s.len() == 0 {
        0
    } else {
        lengths_sum(s.subrange(0, s.len() - 1)) + entry_length(s[s.len() - 1])
    }
}

pub open spec fn files_of(info: BDict) -> Option<Seq<BType>> {
    match info.lookup(key_files()) {
        Some(BType::BList(l)) => Some(l.0@),
        _ => None,
    }
}

/// Exactly one of `length` and `files`, each of its proper shape.
pub open spec fn layout_ok(info: BDict) -> bool {
    ||| int_at(info, key_length()) matches Some(n) && n >= 0 && info.lookup(key_files()) is None
    ||| files_of(info) matches Some(fs) && info.lookup(key_length()) is None && forall|i: int|
        0 <= i < fs.len() ==> #[trigger] file_entry_ok(fs[i])
}

pub open spec fn total_of(info: BDict) -> int {
    match files_of(info) {
        Some(fs) => lengths_sum(fs),
        None => match int_at(info, key_length()) {
            Some(n) => n as int,
            None => 0,
        },
    }
}

/// Number of pieces that cover `total` bytes.
pub open spec fn pieces_for(total: int, piece_length: int) -> int {
    (total + piece_length - 1) / piece_length
}

pub open spec fn info_ok(info: BDict) -> bool {
    &&& text_at(info, key_name()) is Some
    &&& int_at(info, key_piece_length()) matches Some(pl) && pl > 0
    &&& str_at(info, key_pieces()) matches Some(p) && p.len() % 20 == 0
    &&& layout_ok(info)
    &&& total_of(info) <= i64::MAX
    &&& str_at(info, key_pieces())->0.len() / 20 == pieces_for(
        total_of(info),
        int_at(info, key_piece_length())->0 as int,
    )
    &&& str_at(info, key_pieces())->0.len() / 20 <= u32::MAX
}

pub open spec fn info_of(d: BDict) -> Option<BDict> {
    match d.lookup(info_key()) {
        Some(BType::BDict(info)) => Some(info),
        _ => None,
    }
}

/// A metainfo dictionary that `parse_torrent_data` accepts.
pub open spec fn metainfo_ok(d: BDict) -> bool {
    &&& text_at(d, key_announce()) is Some
    &&& info_of(d) matches Some(info) && info_ok(info)
}

// ---------------------------------------------------------------------
// The model
// ---------------------------------------------------------------------

/// Where a piece stands in the download.
#[derive(PartialEq, Eq, Structural, Clone, Copy, Debug)]
pub enum PieceState {
    Missing,
    /// Assigned to the peer with this id.
    InFlight(u64),
    Have,
}

/// One file of a multi-file torrent.
pub struct File {
    pub length: i64,
    pub path: Vec<String>,
    /// Offset of the file's first byte in the torrent's byte stream.
    pub offset: i64,
    /// First and last piece that hold bytes of the file.
    pub piece_ext: (u32, u32),
}

pub struct SingleFileInfo {
    pub name: String,
    pub length: i64,
    pub piece_length: i64,
    pub pieces: Vec<Vec<u8>>,
}

pub struct SingleFileMetaInfo {
    pub info: SingleFileInfo,
    pub announce: String,
    pub pieces: Progress,
}

pub struct MultiFileInfo {
    pub name: String,
    pub files: Vec<File>,
    pub piece_length: i64,
    pub pieces: Vec<Vec<u8>>,
}

pub struct MultiFileMetaInfo {
    pub info: MultiFileInfo,
    pub announce: String,
    pub pieces: Progress,
}

/// The download state of every piece.
pub struct Progress {
    pub states: Vec<PieceState>,
    /// Bytes of the pieces that passed their hash check.
    pub verified_bytes: u64,
    /// The bytes accepted for each piece that passed its hash check.
    pub accepted: Ghost<Map<int, Seq<u8>>>,
}

/// Length of piece `i` of a `total`-byte stream cut in `piece_length` pieces.
pub open spec fn piece_size_of(total: int, piece_length: int, i: int) -> int {
    if total - i * piece_length < piece_length {
        total - i * piece_length
    } else {
        piece_length
    }
}

/// Bytes covered by the pieces marked `Have` among the first `states`.
pub open spec fn have_total(states: Seq<PieceState>, total: int, piece_length: int) -> int
    decreases states.len(),
{
    if states.len() == 0 {
        0
    } else {
        have_total(states.subrange(0, states.len() - 1), total, piece_length) + if states[states.len()
            - 1] == PieceState::Have {
            piece_size_of(total, piece_length, states.len() - 1)
        } else {
            0
        }
    }
}

impl Progress {
    /// The counter matches the pieces held, and every piece held was
    /// accepted with the right length and digest.
    pub open spec fn wf(&self, total: int, piece_length: int, hashes: Seq<Seq<u8>>) -> bool {
        &&& self.states@.len() == hashes.len()
        &&& self.verified_bytes as int == have_total(self.states@, total, piece_length)
        &&& forall|i: int|
            0 <= i < self.states@.len() && #[trigger] self.states@[i] == PieceState::Have ==> {
                &&& self.accepted@.contains_key(i)
                &&& sha1_of(self.accepted@[i]) == hashes[i]
                &&& self.accepted@[i].len() == piece_size_of(total, piece_length, i)
            }
    }
}

pub enum Torrent {
    SingleFileTorrent(SingleFileMetaInfo),
    MultiFileTorrent(MultiFileMetaInfo),
}

/// Why a dictionary is not a usable metainfo.
#[derive(PartialEq, Eq, Structural, Clone, Copy, Debug)]
pub enum MalformedMetainfo {
    Announce,
    Info,
    Name,
    PieceLength,
    Pieces,
    Layout,
    FileEntry,
    PieceCount,
}

/// The first thing wrong with a metainfo dictionary, in the order: the
/// announce URL, the info dictionary, its name, piece length, pieces
/// string, layout (`length` or `files`), file entries, piece count.
pub open spec fn metainfo_fault(d: BDict) -> Option<MalformedMetainfo> {
    if text_at(d, key_announce()) is None {
        Some(MalformedMetainfo::Announce)
    } else if info_of(d) is None {
        Some(MalformedMetainfo::Info)
    } else {
        info_fault(info_of(d)->0)
    }
}

pub open spec fn info_fault(info: BDict) -> Option<MalformedMetainfo> {
    if text_at(info, key_name()) is None {
        Some(MalformedMetainfo::Name)
    } else if !(int_at(info, key_piece_length()) matches Some(pl) && pl > 0) {
        Some(MalformedMetainfo::PieceLength)
    } else if !(str_at(info, key_pieces()) matches Some(p) && p.len() % 20 == 0) {
        Some(MalformedMetainfo::Pieces)
    } else if match info.lookup(key_files()) {
        Some(BType::BList(_)) => info.lookup(key_length()) is Some,
        Some(_) => true,
        None => !(int_at(info, key_length()) matches Some(n) && n >= 0),
    } {
        Some(MalformedMetainfo::Layout)
    } else if files_of(info) matches Some(fs) && !((forall|i: int|
        0 <= i < fs.len() ==> #[trigger] file_entry_ok(fs[i])) && lengths_sum(fs) <= i64::MAX) {
        Some(MalformedMetainfo::FileEntry)
    } else if str_at(info, key_pieces())->0.len() / 20 != pieces_for(
        total_of(info),
        int_at(info, key_piece_length())->0 as int,
    ) || str_at(info, key_pieces())->0.len() / 20 > u32::MAX {
        Some(MalformedMetainfo::PieceCount)
    } else {
        None
    }
}

/// The 20-byte hashes packed in a `pieces` string.
pub open spec fn split_hashes(p: Seq<u8>) -> Seq<Seq<u8>> {
    Seq::new((p.len() / 20) as nat, |i: int| p.subrange(20 * i, 20 * i + 20))
}

pub open spec fn path_view(p: Seq<String>) -> Seq<Seq<char>> {
    p.map_values(|s: String| s@)
}

/// First and last piece holding bytes of a file at `offset` of `length` bytes.
pub open spec fn extents(offset: int, length: int, piece_length: int) -> (int, int) {
    (
        offset / piece_length,
        if length > 0 {
            (offset + length - 1) / piece_length
        } else {
            offset / piece_length
        },
    )
}

pub open spec fn file_total(fs: Seq<File>) -> int
    decreases fs.len(),
{
    if fs.len() == 0 {
        0
    } else {
        file_total(fs.subrange(0, fs.len() - 1)) + fs[fs.len() - 1].length
    }
}

/// The files lie end to end from offset 0, each with its piece extent.
pub open spec fn files_wf(fs: Seq<File>, piece_length: int) -> bool {
    forall|j: int|
        0 <= j < fs.len() ==> {
            &&& (#[trigger] fs[j]).length >= 0
            &&& fs[j].offset == file_total(fs.subrange(0, j))
            &&& fs[j].piece_ext.0 as int == extents(fs[j].offset as int, fs[j].length as int, piece_length).0
            &&& fs[j].piece_ext.1 as int == extents(fs[j].offset as int, fs[j].length as int, piece_length).1
        }
}

impl Torrent {
    pub open spec fn announce_text(&self) -> Seq<char> {
        match self {
            Torrent::SingleFileTorrent(m) => m.announce@,
            Torrent::MultiFileTorrent(m) => m.announce@,
        }
    }

    pub open spec fn name_text(&self) -> Seq<char> {
        match self {
            Torrent::SingleFileTorrent(m) => m.info.name@,
            Torrent::MultiFileTorrent(m) => m.info.name@,
        }
    }

    pub open spec fn piece_len(&self) -> int {
        match self {
            Torrent::SingleFileTorrent(m) => m.info.piece_length as int,
            Torrent::MultiFileTorrent(m) => m.info.piece_length as int,
        }
    }

    pub open spec fn hashes(&self) -> Seq<Seq<u8>> {
        match self {
            Torrent::SingleFileTorrent(m) => m.info.pieces@.map_values(|h: Vec<u8>| h@),
            Torrent::MultiFileTorrent(m) => m.info.pieces@.map_values(|h: Vec<u8>| h@),
        }
    }

    pub open spec fn states(&self) -> Seq<PieceState> {
        match self {
            Torrent::SingleFileTorrent(m) => m.pieces.states@,
            Torrent::MultiFileTorrent(m) => m.pieces.states@,
        }
    }

    /// Length of the torrent's byte stream.
    pub open spec fn total(&self) -> int {
        match self {
            Torrent::SingleFileTorrent(m) => m.info.length as int,
            Torrent::MultiFileTorrent(m) => file_total(m.info.files@),
        }
    }

    pub open spec fn progress(&self) -> Progress {
        match self {
            Torrent::SingleFileTorrent(m) => m.pieces,
            Torrent::MultiFileTorrent(m) => m.pieces,
        }
    }

    /// Length of piece `i`: the piece length, but for a shorter last piece.
    pub open spec fn piece_size(&self, i: int) -> int {
        piece_size_of(self.total(), self.piece_len(), i)
    }

    pub open spec fn wf(&self) -> bool {
        &&& self.piece_len() > 0
        &&& 0 <= self.total() <= i64::MAX
        &&& self.hashes().len() == pieces_for(self.total(), self.piece_len())
        &&& self.hashes().len() <= u32::MAX
        &&& forall|i: int| 0 <= i < self.hashes().len() ==> (#[trigger] self.hashes()[i]).len() == 20
        &&& self.progress().wf(self.total(), self.piece_len(), self.hashes())
        &&& self matches Torrent::MultiFileTorrent(m) ==> files_wf(m.info.files@, self.piece_len())
    }
}

/// A file built from entry `e` of a `files` list at `offset`.
pub open spec fn file_from_entry(f: File, e: BType, offset: int, piece_length: int) -> bool {
    &&& f.length as int == entry_length(e)
    &&& f.offset as int == offset
    &&& path_view(f.path@) == entry_path(e)
    &&& f.piece_ext.0 as int == extents(offset, entry_length(e), piece_length).0
    &&& f.piece_ext.1 as int == extents(offset, entry_length(e), piece_length).1
}

/// `t` holds what the metainfo dictionary `d` describes, with no piece yet.
pub open spec fn parsed_from(t: Torrent, d: BDict) -> bool {
    &&& t.announce_text() == text_at(d, key_announce())->0
    &&& info_of(d) matches Some(info) && {
        &&& t.name_text() == text_at(info, key_name())->0
        &&& t.piece_len() == int_at(info, key_piece_length())->0 as int
        &&& t.hashes() == split_hashes(str_at(info, key_pieces())->0)
        &&& t.total() == total_of(info)
        &&& (files_of(info) is None <==> t is SingleFileTorrent)
        &&& t matches Torrent::MultiFileTorrent(m) ==> {
            &&& m.info.files@.len() == files_of(info)->0.len()
            &&& forall|j: int|
                0 <= j < m.info.files@.len() ==> file_from_entry(
                    #[trigger] m.info.files@[j],
                    files_of(info)->0[j],
                    lengths_sum(files_of(info)->0.subrange(0, j)),
                    t.piece_len(),
                )
        }
    }
    &&& forall|i: int| 0 <= i < t.states().len() ==> #[trigger] t.states()[i] == PieceState::Missing
}

// ---------------------------------------------------------------------
// Parsing
// ---------------------------------------------------------------------

fn text_field(d: &BDict, key: &[u8]) -> (r: Option<String>)
    requires
        d.wf(),
    ensures
        text_view(r) == text_at(*d, key@),
{
    match d.get_bytes(key) {
        Some(b) => utf8_string(b),
        None => None,
    }
}

/// Splits a `pieces` string into its 20-byte hashes.
fn make_pieces(pieces: &Vec<u8>) -> (r: Vec<Vec<u8>>)
    requires
        pieces@.len() % 20 == 0,
    ensures
        r@.map_values(|h: Vec<u8>| h@) == split_hashes(pieces@),
{
    let len = pieces.len();
    let n = len / 20;
    let mut out: Vec<Vec<u8>> = Vec::new();
    let mut i: usize = 0;
    while i < n
        invariant
            len == pieces@.len(),
            n == pieces@.len() / 20,
            pieces@.len() % 20 == 0,
            i <= n,
            out@.len() == i,
            forall|j: int| 0 <= j < i ==> (#[trigger] out@[j])@ == pieces@.subrange(20 * j, 20 * j + 20),
        decreases n - i,
    {
        let mut h: Vec<u8> = Vec::new();
        let mut k: usize = 0;
        assert(20 * i + 20 <= pieces@.len()) by (nonlinear_arith)
            requires
                i < n,
                n == pieces@.len() / 20,
        ;
        let base: usize = 20 * i;
        while k < 20
            invariant
                len == pieces@.len(),
                base == 20 * i,
                base + 20 <= pieces@.len(),
                k <= 20,
                h@ == pieces@.subrange(20 * i, 20 * i + k),
            decreases 20 - k,
        {
            h.push(pieces[base + k]);
            k += 1;
            assert(h@ =~= pieces@.subrange(20 * i, 20 * i + k));
        }
        out.push(h);
        i += 1;
    }
    assert(out@.map_values(|h: Vec<u8>| h@) =~= split_hashes(pieces@));
    out
}

fn segment_ok(v: &BType) -> (r: bool)
    ensures
        r == (segment_text(*v) is Some),
{
    match v {
        BType::BString(s) => {
            let t = s.into_string();
            t.is_some()
        },
        _ => false,
    }
}

fn entry_ok(v: &BType) -> (r: bool)
    requires
        wf_value(*v),
    ensures
        r == file_entry_ok(*v),
{
    match v {
        BType::BDict(fd) => {
            let lk: [u8; 6] = [108, 101, 110, 103, 116, 104];
            let pk: [u8; 4] = [112, 97, 116, 104];
            assert(lk@ =~= key_length());
            assert(pk@ =~= key_path());
            match fd.get_int(lk.as_slice()) {
                Some(l) => {
                    if l < 0 {
                        return false;
                    }
                },
                None => {
                    return false;
                },
            }
            match fd.get_list(pk.as_slice()) {
                Some(pl) => {
                    let n = pl.0.len();
                    if n == 0 {
                        return false;
                    }
                    let mut i: usize = 0;
                    while i < n
                        invariant
                            n == pl.0@.len(),
                            i <= n,
                            *v == BType::BDict(*fd),
                            fd.lookup(key_path()) == Some(BType::BList(*pl)),
                            int_at(*fd, key_length()) matches Some(l) && l >= 0,
                            forall|j: int| 0 <= j < i ==> (#[trigger] segment_text(pl.0@[j])) is Some,
                        decreases n - i,
                    {
                        if !segment_ok(&pl.0[i]) {
                            assert(segment_text(pl.0@[i as int]) is None);
                            return false;
                        }
                        i += 1;
                    }
                    true
                },
                None => false,
            }
        },
        _ => false,
    }
}

proof fn lemma_lengths_sum_mono(s: Seq<BType>, j: int)
    requires
        0 <= j <= s.len(),
        forall|i: int| 0 <= i < s.len() ==> #[trigger] file_entry_ok(s[i]),
    ensures
        lengths_sum(s.subrange(0, j)) <= lengths_sum(s),
        lengths_sum(s) >= 0,
    decreases s.len(),
{
    if s.len() > 0 {
        let p = s.subrange(0, s.len() - 1);
        assert forall|i: int| 0 <= i < p.len() implies #[trigger] file_entry_ok(p[i]) by {
            assert(p[i] == s[i]);
        }
        assert(file_entry_ok(s[s.len() - 1]));
        if j < s.len() {
            assert(p.subrange(0, j) =~= s.subrange(0, j));
            lemma_lengths_sum_mono(p, j);
        } else {
            assert(s.subrange(0, j) =~= s);
            lemma_lengths_sum_mono(p, 0);
        }
    } else {
        assert(s.subrange(0, j) =~= s);
    }
}

/// Checks every entry of a `files` list and sums their lengths.
fn files_total(fs: &Vec<BType>) -> (r: Option<i64>)
    requires
        forall|j: int| 0 <= j < fs@.len() ==> wf_value(#[trigger] fs@[j]),
    ensures
        r is Some <==> (forall|j: int| 0 <= j < fs@.len() ==> #[trigger] file_entry_ok(fs@[j]))
            && lengths_sum(fs@) <= i64::MAX,
        r matches Some(t) ==> t as int == lengths_sum(fs@) && t >= 0,
{
    let n = fs.len();
    let mut i: usize = 0;
    let mut total: i64 = 0;
    while i < n
        invariant
            n == fs@.len(),
            i <= n,
            forall|j: int| 0 <= j < fs@.len() ==> wf_value(#[trigger] fs@[j]),
            forall|j: int| 0 <= j < i ==> #[trigger] file_entry_ok(fs@[j]),
            total as int == lengths_sum(fs@.subrange(0, i as int)),
            total >= 0,
        decreases n - i,
    {
        if !entry_ok(&fs[i]) {
            return None;
        }
        let l: i64 = match &fs[i] {
            BType::BDict(fd) => {
                let lk: [u8; 6] = [108, 101, 110, 103, 116, 104];
                assert(lk@ =~= key_length());
                match fd.get_int(lk.as_slice()) {
                    Some(l) => l,
                    None => 0,
                }
            },
            _ => 0,
        };
        assert(fs@.subrange(0, i + 1).subrange(0, i as int) =~= fs@.subrange(0, i as int));
        if l > i64::MAX - total {
            proof {
                if forall|j: int| 0 <= j < fs@.len() ==> #[trigger] file_entry_ok(fs@[j]) {
                    lemma_lengths_sum_mono(fs@, i + 1);
                }
            }
            return None;
        }
        total = total + l;
        i += 1;
    }
    assert(fs@.subrange(0, n as int) =~= fs@);
    Some(total)
}

/// Builds the file for a checked `files` entry at `offset`.
fn build_file(v: &BType, offset: i64, piece_length: i64) -> (r: File)
    requires
        wf_value(*v),
        file_entry_ok(*v),
        piece_length > 0,
        offset >= 0,
        offset + entry_length(*v) <= i64::MAX,
        (offset + entry_length(*v)) / (piece_length as int) <= u32::MAX,
    ensures
        file_from_entry(r, *v, offset as int, piece_length as int),
{
    let lk: [u8; 6] = [108, 101, 110, 103, 116, 104];
    let pk: [u8; 4] = [112, 97, 116, 104];
    assert(lk@ =~= key_length());
    assert(pk@ =~= key_path());
    let mut length: i64 = 0;
    let mut path: Vec<String> = Vec::new();
    match v {
        BType::BDict(fd) => {
            match fd.get_int(lk.as_slice()) {
                Some(l) => {
                    length = l;
                },
                None => {},
            }
            match fd.get_list(pk.as_slice()) {
                Some(pl) => {
                    let n = pl.0.len();
                    let mut i: usize = 0;
                    while i < n
                        invariant
                            n == pl.0@.len(),
                            i <= n,
                            forall|j: int| 0 <= j < n ==> (#[trigger] segment_text(pl.0@[j])) is Some,
                            path@.len() == i,
                            forall|j: int| 0 <= j < i ==> (#[trigger] path@[j])@ == segment_text(pl.0@[j])->0,
                        decreases n - i,
                    {
                        assert(segment_text(pl.0@[i as int]) is Some);
                        match &pl.0[i] {
                            BType::BString(s) => match s.into_string() {
                                Some(t) => {
                                    path.push(t);
                                },
                                None => {
                                    assert(false);
                                },
                            },
                            _ => {
                                assert(false);
                            },
                        }
                        i += 1;
                    }
                    assert(path_view(path@) =~= entry_path(*v));
                },
                None => {},
            }
        },
        _ => {},
    }
    let first = (offset / piece_length) as u32;
    let last = if length > 0 {
        ((offset + length - 1) / piece_length) as u32
    } else {
        first
    };
    let ghost o = offset as int;
    let ghost ln = length as int;
    let ghost pl = piece_length as int;
    assert(o / pl <= (o + ln) / pl) by (nonlinear_arith)
        requires pl > 0, o >= 0, ln >= 0;
    assert(ln > 0 ==> (o + ln - 1) / pl <= (o + ln) / pl) by (nonlinear_arith)
        requires pl > 0, o >= 0;
    File { length, path, offset, piece_ext: (first, last) }
}

proof fn lemma_have_total_none(states: Seq<PieceState>, total: int, piece_length: int)
    requires
        forall|j: int| 0 <= j < states.len() ==> #[trigger] states[j] != PieceState::Have,
    ensures
        have_total(states, total, piece_length) == 0,
    decreases states.len(),
{
    if states.len() > 0 {
        let p = states.subrange(0, states.len() - 1);
        assert forall|j: int| 0 <= j < p.len() implies #[trigger] p[j] != PieceState::Have by {
            assert(p[j] == states[j]);
        }
        lemma_have_total_none(p, total, piece_length);
    }
}

/// Builds the files of a checked `files` list, end to end from offset 0.
fn build_files(l: &BList, total: i64, piece_length: i64) -> (r: Vec<File>)
    requires
        piece_length > 0,
        forall|j: int| 0 <= j < l.0@.len() ==> wf_value(#[trigger] l.0@[j]),
        forall|j: int| 0 <= j < l.0@.len() ==> #[trigger] file_entry_ok(l.0@[j]),
        lengths_sum(l.0@) == total as int,
        total as int / piece_length as int <= u32::MAX,
    ensures
        r@.len() == l.0@.len(),
        file_total(r@) == total as int,
        forall|j: int|
            0 <= j < r@.len() ==> file_from_entry(
                #[trigger] r@[j],
                l.0@[j],
                lengths_sum(l.0@.subrange(0, j)),
                piece_length as int,
            ),
        files_wf(r@, piece_length as int),
{
    let ghost fs = l.0@;
    let n = l.0.len();
    let mut files: Vec<File> = Vec::new();
    let mut offset: i64 = 0;
    let mut i: usize = 0;
    while i < n
        invariant
            n == fs.len(),
            fs == l.0@,
            i <= n,
            piece_length > 0,
            forall|j: int| 0 <= j < n ==> wf_value(#[trigger] fs[j]),
            forall|j: int| 0 <= j < n ==> #[trigger] file_entry_ok(fs[j]),
            lengths_sum(fs) == total as int,
            total as int / piece_length as int <= u32::MAX,
            offset as int == lengths_sum(fs.subrange(0, i as int)),
            offset >= 0,
            files@.len() == i,
            file_total(files@) == offset as int,
            forall|j: int|
                0 <= j < i ==> (#[trigger] files@[j]).offset == file_total(files@.subrange(0, j)),
            forall|j: int|
                0 <= j < i ==> file_from_entry(
                    #[trigger] files@[j],
                    fs[j],
                    lengths_sum(fs.subrange(0, j)),
                    piece_length as int,
                ),
        decreases n - i,
    {
        proof {
            assert(file_entry_ok(fs[i as int]));
            assert(entry_length(fs[i as int]) >= 0);
            lemma_lengths_sum_mono(fs, i + 1);
            assert(fs.subrange(0, i + 1).subrange(0, i as int) =~= fs.subrange(0, i as int));
            assert(offset + entry_length(fs[i as int]) <= total);
            assert((offset + entry_length(fs[i as int])) / (piece_length as int) <= (total as int)
                / (piece_length as int)) by (nonlinear_arith)
                requires
                    offset + entry_length(fs[i as int]) <= total,
                    offset >= 0,
                    entry_length(fs[i as int]) >= 0,
                    piece_length > 0,
            ;
        }
        let f = build_file(&l.0[i], offset, piece_length);
        let ghost before = files@;
        let ghost fv = f;
        offset = offset + f.length;
        files.push(f);
        proof {
            assert(files@.subrange(0, i as int) =~= before);
            assert(file_total(files@) == file_total(before) + fv.length);
            assert forall|j: int| 0 <= j < i + 1 implies (#[trigger] files@[j]).offset
                == file_total(files@.subrange(0, j)) by {
                if j < i {
                    assert(files@.subrange(0, j) =~= before.subrange(0, j));
                    assert(files@[j] == before[j]);
                }
            }
        }
        i += 1;
    }
    assert(fs.subrange(0, n as int) =~= fs);
    proof {
        assert forall|j: int| 0 <= j < files@.len() implies {
            &&& (#[trigger] files@[j]).length >= 0
            &&& files@[j].offset == file_total(files@.subrange(0, j))
            &&& files@[j].piece_ext.0 as int == extents(files@[j].offset as int, files@[j].length as int, piece_length as int).0
            &&& files@[j].piece_ext.1 as int == extents(files@[j].offset as int, files@[j].length as int, piece_length as int).1
        } by {
            assert(file_from_entry(files@[j], fs[j], lengths_sum(fs.subrange(0, j)), piece_length as int));
            assert(file_entry_ok(fs[j]));
        }
    }
    files
}

fn missing_states(count: usize) -> (r: Vec<PieceState>)
    ensures
        r@.len() == count,
        forall|j: int| 0 <= j < count ==> #[trigger] r@[j] == PieceState::Missing,
{
    let mut states: Vec<PieceState> = Vec::new();
    let mut i: usize = 0;
    while i < count
        invariant
            i <= count,
            states@.len() == i,
            forall|j: int| 0 <= j < i ==> #[trigger] states@[j] == PieceState::Missing,
        decreases count - i,
    {
        states.push(PieceState::Missing);
        i += 1;
    }
    states
}

/// The typed metainfo of a metainfo dictionary.
pub fn parse_torrent_data(torrent_meta_data: &BDict) -> (r: Result<Torrent, MalformedMetainfo>)
    requires
        wf_value(BType::BDict(*torrent_meta_data)),
    ensures
        r is Ok <==> metainfo_ok(*torrent_meta_data),
        match r {
            Ok(_) => metainfo_fault(*torrent_meta_data) is None,
            Err(e) => metainfo_fault(*torrent_meta_data) == Some(e),
        },
        r matches Ok(t) ==> t.wf() && parsed_from(t, *torrent_meta_data),
{
    let d = torrent_meta_data;
    proof {
        lemma_lookup_wf(d.0@, info_key());
    }
    let ak: [u8; 8] = [97, 110, 110, 111, 117, 110, 99, 101];
    let ik: [u8; 4] = [105, 110, 102, 111];
    let nk: [u8; 4] = [110, 97, 109, 101];
    let plk: [u8; 12] = [112, 105, 101, 99, 101, 32, 108, 101, 110, 103, 116, 104];
    let pk: [u8; 6] = [112, 105, 101, 99, 101, 115];
    let lk: [u8; 6] = [108, 101, 110, 103, 116, 104];
    let fk: [u8; 5] = [102, 105, 108, 101, 115];
    assert(ak@ =~= key_announce());
    assert(ik@ =~= info_key());
    assert(nk@ =~= key_name());
    assert(plk@ =~= key_piece_length());
    assert(pk@ =~= key_pieces());
    assert(lk@ =~= key_length());
    assert(fk@ =~= key_files());
    let announce = match text_field(d, ak.as_slice()) {
        Some(a) => a,
        None => {
            return Err(MalformedMetainfo::Announce);
        },
    };
    let info = match d.get_dict(ik.as_slice()) {
        Some(i) => i,
        None => {
            return Err(MalformedMetainfo::Info);
        },
    };
    assert(info_of(*d) == Some(*info));
    proof {
        lemma_lookup_wf(info.0@, key_files());
    }
    let name = match text_field(info, nk.as_slice()) {
        Some(n) => n,
        None => {
            return Err(MalformedMetainfo::Name);
        },
    };
    let piece_length = match info.get_int(plk.as_slice()) {
        Some(pl) => pl,
        None => {
            return Err(MalformedMetainfo::PieceLength);
        },
    };
    if piece_length <= 0 {
        return Err(MalformedMetainfo::PieceLength);
    }
    let packed = match info.get_bytes(pk.as_slice()) {
        Some(p) => p,
        None => {
            return Err(MalformedMetainfo::Pieces);
        },
    };
    if packed.len() % 20 != 0 {
        return Err(MalformedMetainfo::Pieces);
    }
    let has_length = info.get(lk.as_slice()).is_some();
    let files_list: Option<&BList> = match info.get(fk.as_slice()) {
        Some(BType::BList(l)) => Some(l),
        Some(_) => {
            return Err(MalformedMetainfo::Layout);
        },
        None => None,
    };
    let total: i64 = match files_list {
        Some(l) => {
            if has_length {
                return Err(MalformedMetainfo::Layout);
            }
            proof {
                lemma_items_wf(l.0@);
            }
            match files_total(&l.0) {
                Some(t) => t,
                None => {
                    return Err(MalformedMetainfo::FileEntry);
                },
            }
        },
        None => match info.get_int(lk.as_slice()) {
            Some(n) => {
                if n < 0 {
                    return Err(MalformedMetainfo::Layout);
                }
                n
            },
            None => {
                return Err(MalformedMetainfo::Layout);
            },
        },
    };
    let count = packed.len() / 20;
    // pieces_for(total, piece_length), without overflow
    let q = total / piece_length;
    let rem = total % piece_length;
    proof {
        let t = total as int;
        let pl = piece_length as int;
        assert(rem != 0 ==> q < i64::MAX) by (nonlinear_arith)
            requires
                q == t / pl,
                rem == t % pl,
                pl > 0,
                t >= 0,
                t <= i64::MAX,
        ;
    }
    let needed: i64 = if rem == 0 { q } else { q + 1 };
    proof {
        let t = total as int;
        let pl = piece_length as int;
        assert(needed == pieces_for(t, pl)) by (nonlinear_arith)
            requires
                q == t / pl,
                rem == t % pl,
                needed == (if rem == 0 { q as int } else { q + 1 }),
                pl > 0,
                t >= 0,
        ;
    }
    if count as i64 != needed {
        return Err(MalformedMetainfo::PieceCount);
    }
    if count > 4294967295 {
        return Err(MalformedMetainfo::PieceCount);
    }
    let hashes = make_pieces(packed);
    proof {
        assert(metainfo_ok(*d));
    }
    let torrent = match files_list {
        None => {
            let states = missing_states(count);
            Torrent::SingleFileTorrent(SingleFileMetaInfo {
                info: SingleFileInfo { name, length: total, piece_length, pieces: hashes },
                announce,
                pieces: Progress { states, verified_bytes: 0, accepted: Ghost(Map::empty()) },
            })
        },
        Some(l) => {
            proof {
                lemma_items_wf(l.0@);
            }
            let files = build_files(l, total, piece_length);
            let states = missing_states(count);
            Torrent::MultiFileTorrent(MultiFileMetaInfo {
                info: MultiFileInfo { name, files, piece_length, pieces: hashes },
                announce,
                pieces: Progress { states, verified_bytes: 0, accepted: Ghost(Map::empty()) },
            })
        },
    };
    proof {
        lemma_have_total_none(torrent.states(), torrent.total(), torrent.piece_len());
    }
    Ok(torrent)
}

// ---------------------------------------------------------------------
// Piece bookkeeping
// ---------------------------------------------------------------------

/// Piece `i` is set in a packed bitfield: piece 0 is the high bit of byte 0.
pub open spec fn bitfield_has(bits: Seq<u8>, i: int) -> bool {
    0 <= i && i / 8 < bits.len() && (bits[i / 8] >> ((7 - i % 8) as u8)) & 1u8 == 1u8
}

/// Whether a packed bitfield has piece `index`; bits past its end are unset.
pub fn bitfield_has_piece(bits: &[u8], index: usize) -> (r: bool)
    ensures
        r == bitfield_has(bits@, index as int),
{
    let byte = index / 8;
    if byte >= bits.len() {
        return false;
    }
    let shift: u8 = (7 - index % 8) as u8;
    (bits[byte] >> shift) & 1u8 == 1u8
}

/// The peer has piece `i`: flags past the end are unset.
pub open spec fn peer_has(has: Seq<bool>, i: int) -> bool {
    0 <= i < has.len() && has[i]
}

/// Index reached `k` steps after `start`, going round `n` indices.
pub open spec fn cyclic(start: int, k: int, n: int) -> int {
    (start + k) % n
}

/// Steps from `start` round to `i` among `n` indices.
pub open spec fn steps(start: int, i: int, n: int) -> int {
    (i - start + n) % n
}

/// Picks the first candidate at or after `seed % n`, going round.
pub fn pick_from(candidates: &Vec<bool>, seed: u64) -> (r: Option<usize>)
    ensures
        r is None <==> forall|i: int| 0 <= i < candidates@.len() ==> !#[trigger] candidates@[i],
        r matches Some(i) ==> {
            &&& i < candidates@.len()
            &&& candidates@[i as int]
            &&& forall|k2: int|
                0 <= k2 < steps(seed as int % candidates@.len() as int, i as int, candidates@.len() as int)
                    ==> !#[trigger] candidates@[cyclic(
                    seed as int % candidates@.len() as int,
                    k2,
                    candidates@.len() as int,
                )]
        },
{
    let n = candidates.len();
    if n == 0 {
        return None;
    }
    let start = (seed % (n as u64)) as usize;
    let mut k: usize = 0;
    while k < n
        invariant
            n == candidates@.len(),
            n > 0,
            start < n,
            start as int == seed as int % n as int,
            k <= n,
            forall|k2: int| 0 <= k2 < k ==> !#[trigger] candidates@[cyclic(start as int, k2, n as int)],
        decreases n - k,
    {
        let i = if k < n - start { start + k } else { k - (n - start) };
        assert(i == cyclic(start as int, k as int, n as int)) by (nonlinear_arith)
            requires
                i == (if k < n - start { start + k } else { k - (n - start) }),
                0 <= start < n,
                0 <= k < n,
        ;
        if candidates[i] {
            assert(steps(start as int, i as int, n as int) == k) by (nonlinear_arith)
                requires
                    i == (start + k) % (n as int),
                    0 <= start < n,
                    0 <= k < n,
            ;
            return Some(i);
        }
        k += 1;
    }
    proof {
        assert forall|i: int| 0 <= i < n implies !#[trigger] candidates@[i] by {
            let k2 = if i >= start { i - start } else { i + n - start };
            assert(cyclic(start as int, k2, n as int) == i) by (nonlinear_arith)
                requires
                    k2 == (if i >= start { i - start } else { i + n - start }),
                    0 <= i < n,
                    0 <= start < n,
            ;
        }
    }
    None
}

proof fn lemma_have_total_update(
    states: Seq<PieceState>,
    i: int,
    x: PieceState,
    total: int,
    piece_length: int,
)
    requires
        0 <= i < states.len(),
    ensures
        have_total(states.update(i, x), total, piece_length) == have_total(states, total, piece_length)
            - (if states[i] == PieceState::Have {
            piece_size_of(total, piece_length, i)
        } else {
            0
        }) + (if x == PieceState::Have {
            piece_size_of(total, piece_length, i)
        } else {
            0
        }),
    decreases states.len(),
{
    let n = states.len();
    let u = states.update(i, x);
    if i < n - 1 {
        assert(u.subrange(0, n - 1) =~= states.subrange(0, n - 1).update(i, x));
        lemma_have_total_update(states.subrange(0, n - 1), i, x, total, piece_length);
    } else {
        assert(u.subrange(0, n - 1) =~= states.subrange(0, n - 1));
    }
}

proof fn lemma_have_total_bound(states: Seq<PieceState>, total: int, piece_length: int)
    requires
        piece_length > 0,
    ensures
        have_total(states, total, piece_length) <= states.len() * piece_length,
    decreases states.len(),
{
    if states.len() > 0 {
        let n = states.len();
        lemma_have_total_bound(states.subrange(0, n - 1), total, piece_length);
        assert((n - 1) * piece_length + piece_length == n * piece_length) by (nonlinear_arith);
    }
}

pub proof fn lemma_piece_in_range(i: int, total: int, piece_length: int)
    requires
        piece_length > 0,
        total >= 0,
        0 <= i < pieces_for(total, piece_length),
    ensures
        i * piece_length < total,
        0 < piece_size_of(total, piece_length, i) <= piece_length,
        pieces_for(total, piece_length) * piece_length <= total + piece_length - 1,
{
    let n = pieces_for(total, piece_length);
    assert(n * piece_length <= total + piece_length - 1) by (nonlinear_arith)
        requires
            n == (total + piece_length - 1) / piece_length,
            piece_length > 0,
            total >= 0,
    ;
    assert(i * piece_length <= n * piece_length - piece_length) by (nonlinear_arith)
        requires
            i < n,
            piece_length > 0,
            i >= 0,
    ;
}

impl Progress {
    /// Sets the state of piece `i` to one that is not `Have`.
    fn set_open(
        &mut self,
        i: usize,
        st: PieceState,
        Ghost(total): Ghost<int>,
        Ghost(piece_length): Ghost<int>,
        Ghost(hashes): Ghost<Seq<Seq<u8>>>,
    )
        requires
            old(self).wf(total, piece_length, hashes),
            i < old(self).states@.len(),
            old(self).states@[i as int] != PieceState::Have,
            st != PieceState::Have,
        ensures
            final(self).wf(total, piece_length, hashes),
            final(self).states@ == old(self).states@.update(i as int, st),
            final(self).verified_bytes == old(self).verified_bytes,
    {
        proof {
            lemma_have_total_update(self.states@, i as int, st, total, piece_length);
        }
        self.states.set(i, st);
    }

    /// Marks piece `i` held, with the bytes that passed its check.
    fn set_have(
        &mut self,
        i: usize,
        size: u64,
        Ghost(data): Ghost<Seq<u8>>,
        Ghost(total): Ghost<int>,
        Ghost(piece_length): Ghost<int>,
        Ghost(hashes): Ghost<Seq<Seq<u8>>>,
    )
        requires
            old(self).wf(total, piece_length, hashes),
            i < old(self).states@.len(),
            old(self).states@[i as int] != PieceState::Have,
            piece_length > 0,
            old(self).states@.len() * piece_length <= u64::MAX,
            size as int == piece_size_of(total, piece_length, i as int),
            data.len() == size,
            sha1_of(data) == hashes[i as int],
        ensures
            final(self).wf(total, piece_length, hashes),
            final(self).states@ == old(self).states@.update(i as int, PieceState::Have),
            final(self).verified_bytes == old(self).verified_bytes + size,
            final(self).accepted@ == old(self).accepted@.insert(i as int, data),
    {
        proof {
            lemma_have_total_update(self.states@, i as int, PieceState::Have, total, piece_length);
            lemma_have_total_bound(self.states@.update(i as int, PieceState::Have), total, piece_length);
        }
        self.states.set(i, PieceState::Have);
        self.verified_bytes = self.verified_bytes + size;
        self.accepted = Ghost(self.accepted@.insert(i as int, data));
    }
}

impl SingleFileMetaInfo {
    pub fn get_name(&self) -> (r: &str)
        ensures
            r@ == self.info.name@,
    {
        self.info.name.as_str()
    }
}

impl MultiFileMetaInfo {
    /// Indices of the files that hold bytes of piece `piece_index`,
    /// ascending; a zero-length file holds none.
    pub fn get_files(&self, piece_index: u32) -> (r: Vec<usize>)
        ensures
            forall|k: int| 0 <= k < r@.len() ==> (#[trigger] r@[k]) < self.info.files@.len(),
            forall|k: int, m: int| 0 <= k < m < r@.len() ==> r@[k] < r@[m],
            forall|j: int|
                0 <= j < self.info.files@.len() ==> (r@.contains(j as usize) <==> {
                    let f = #[trigger] self.info.files@[j];
                    f.length > 0 && f.piece_ext.0 <= piece_index <= f.piece_ext.1
                }),
    {
        let mut out: Vec<usize> = Vec::new();
        let n = self.info.files.len();
        let mut j: usize = 0;
        while j < n
            invariant
                n == self.info.files@.len(),
                j <= n,
                forall|k: int| 0 <= k < out@.len() ==> (#[trigger] out@[k]) < j,
                forall|k: int, m: int| 0 <= k < m < out@.len() ==> out@[k] < out@[m],
                forall|i: int|
                    0 <= i < j ==> (out@.contains(i as usize) <==> {
                        let f = #[trigger] self.info.files@[i];
                        f.length > 0 && f.piece_ext.0 <= piece_index <= f.piece_ext.1
                    }),
            decreases n - j,
        {
            let f = &self.info.files[j];
            let ghost before = out@;
            if f.length > 0 && f.piece_ext.0 <= piece_index && piece_index <= f.piece_ext.1 {
                out.push(j);
                assert(out@[before.len() as int] == j);
            }
            assert forall|i: int| 0 <= i < j implies (out@.contains(i as usize) <==> #[trigger] before.contains(
                i as usize,
            )) by {
                if out@.contains(i as usize) {
                    let k = choose|k: int| 0 <= k < out@.len() && out@[k] == i as usize;
                    if k == before.len() {
                    } else {
                        assert(before[k] == out@[k]);
                    }
                }
                if before.contains(i as usize) {
                    let k = choose|k: int| 0 <= k < before.len() && before[k] == i as usize;
                    assert(out@[k] == before[k]);
                }
            }
            proof {
                if out@.contains(j) && !(f.length > 0 && f.piece_ext.0 <= piece_index && piece_index <= f.piece_ext.1) {
                    let k = choose|k: int| 0 <= k < out@.len() && out@[k] == j;
                    assert(out@[k] < j);
                }
            }
            j += 1;
        }
        out
    }

    pub fn get_name(&self) -> (r: &str)
        ensures
            r@ == self.info.name@,
    {
        self.info.name.as_str()
    }
}

impl File {
    pub fn get_length(&self) -> (r: i64)
        ensures
            r == self.length,
    {
        self.length
    }

    pub fn get_path(&self) -> (r: Vec<String>)
        ensures
            path_view(r@) == path_view(self.path@),
    {
        let r = self.path.clone();
        assert(path_view(r@) =~= path_view(self.path@));
        r
    }

    pub fn get_start_index(&self) -> (r: u32)
        ensures
            r == self.piece_ext.0,
    {
        self.piece_ext.0
    }

    pub fn get_end_index(&self) -> (r: u32)
        ensures
            r == self.piece_ext.1,
    {
        self.piece_ext.1
    }
}

impl Torrent {
    /// The same torrent with its piece bookkeeping replaced.
    pub open spec fn with_progress(&self, p: Progress) -> Torrent {
        match self {
            Torrent::SingleFileTorrent(m) => Torrent::SingleFileTorrent(
                SingleFileMetaInfo { info: m.info, announce: m.announce, pieces: p },
            ),
            Torrent::MultiFileTorrent(m) => Torrent::MultiFileTorrent(
                MultiFileMetaInfo { info: m.info, announce: m.announce, pieces: p },
            ),
        }
    }

    pub fn get_announce(&self) -> (r: String)
        ensures
            r@ == self.announce_text(),
    {
        match self {
            Torrent::SingleFileTorrent(m) => m.announce.clone(),
            Torrent::MultiFileTorrent(m) => m.announce.clone(),
        }
    }

    /// Length of the torrent's byte stream.
    pub fn get_length(&self) -> (r: i64)
        requires
            self.wf(),
        ensures
            r == self.total(),
    {
        match self {
            Torrent::SingleFileTorrent(m) => m.info.length,
            Torrent::MultiFileTorrent(m) => {
                let n = m.info.files.len();
                if n == 0 {
                    0
                } else {
                    let f = &m.info.files[n - 1];
                    assert(files_wf(m.info.files@, self.piece_len()));
                    assert(m.info.files@[n - 1].offset == file_total(m.info.files@.subrange(0, n - 1)));
                    f.offset + f.length
                }
            },
        }
    }

    pub fn get_piece_length(&self) -> (r: i64)
        ensures
            r == self.piece_len(),
    {
        match self {
            Torrent::SingleFileTorrent(m) => m.info.piece_length,
            Torrent::MultiFileTorrent(m) => m.info.piece_length,
        }
    }

    /// Number of pieces.
    pub fn piece_count(&self) -> (r: usize)
        ensures
            r == self.hashes().len(),
    {
        match self {
            Torrent::SingleFileTorrent(m) => m.info.pieces.len(),
            Torrent::MultiFileTorrent(m) => m.info.pieces.len(),
        }
    }

    /// The expected SHA-1 of piece `index`.
    pub fn get_piece_hash(&self, index: u32) -> (r: &Vec<u8>)
        requires
            index < self.hashes().len(),
        ensures
            r@ == self.hashes()[index as int],
    {
        match self {
            Torrent::SingleFileTorrent(m) => &m.info.pieces[index as usize],
            Torrent::MultiFileTorrent(m) => &m.info.pieces[index as usize],
        }
    }

    /// Length of piece `index`; the last piece may be shorter.
    pub fn piece_bytes(&self, index: u32) -> (r: u64)
        requires
            self.wf(),
            index < self.hashes().len(),
        ensures
            r as int == self.piece_size(index as int),
            0 < r <= self.piece_len(),
    {
        proof {
            lemma_piece_in_range(index as int, self.total(), self.piece_len());
        }
        let total = self.get_length();
        let pl = self.get_piece_length();
        let start = index as i64 * pl;
        if total - start < pl {
            (total - start) as u64
        } else {
            pl as u64
        }
    }

    /// The state of piece `index`.
    pub fn piece_state(&self, index: u32) -> (r: PieceState)
        requires
            index < self.states().len(),
        ensures
            r == self.states()[index as int],
    {
        match self {
            Torrent::SingleFileTorrent(m) => m.pieces.states[index as usize],
            Torrent::MultiFileTorrent(m) => m.pieces.states[index as usize],
        }
    }

    /// 1 when piece `index` is held, else 0.
    pub fn get_piece(&self, index: u32) -> (r: u8)
        requires
            index < self.states().len(),
        ensures
            r == if self.states()[index as int] == PieceState::Have { 1u8 } else { 0u8 },
    {
        if self.piece_state(index) == PieceState::Have {
            1
        } else {
            0
        }
    }

    /// Bytes of the pieces held.
    pub fn verified_bytes(&self) -> (r: u64)
        ensures
            r == self.progress().verified_bytes,
    {
        match self {
            Torrent::SingleFileTorrent(m) => m.pieces.verified_bytes,
            Torrent::MultiFileTorrent(m) => m.pieces.verified_bytes,
        }
    }

    /// Every piece is held.
    pub fn is_completed(&self) -> (r: bool)
        ensures
            r == forall|i: int| 0 <= i < self.states().len() ==> #[trigger] self.states()[i] == PieceState::Have,
    {
        let states = match self {
            Torrent::SingleFileTorrent(m) => &m.pieces.states,
            Torrent::MultiFileTorrent(m) => &m.pieces.states,
        };
        let n = states.len();
        let mut i: usize = 0;
        while i < n
            invariant
                n == states@.len(),
                states@ == self.states(),
                i <= n,
                forall|j: int| 0 <= j < i ==> #[trigger] states@[j] == PieceState::Have,
            decreases n - i,
        {
            if states[i] != PieceState::Have {
                return false;
            }
            i += 1;
        }
        true
    }

    /// Checks the bytes of piece `index` against its hash. On a match the
    /// piece is held; on a mismatch it goes back to `Missing`. A held piece
    /// stays held.
    pub fn set_piece(&mut self, index: u32, piece: &Vec<u8>) -> (r: bool)
        requires
            old(self).wf(),
            index < old(self).hashes().len(),
        ensures
            final(self).wf(),
            *final(self) == old(self).with_progress(final(self).progress()),
            r == (old(self).states()[index as int] == PieceState::Have || (piece@.len() == old(
                self,
            ).piece_size(index as int) && sha1_of(piece@) == old(self).hashes()[index as int])),
            old(self).states()[index as int] == PieceState::Have ==> final(self).progress()
                == old(self).progress(),
            old(self).states()[index as int] != PieceState::Have ==> {
                &&& final(self).states() == old(self).states().update(
                    index as int,
                    if r { PieceState::Have } else { PieceState::Missing },
                )
                &&& final(self).progress().verified_bytes == old(self).progress().verified_bytes + if r {
                    old(self).piece_size(index as int)
                } else {
                    0
                }
                &&& r ==> final(self).progress().accepted@[index as int] == piece@
            },
    {
        let i = index as usize;
        if self.piece_state(index) == PieceState::Have {
            return true;
        }
        let size = self.piece_bytes(index);
        let digest = hash(to_vec(piece.as_slice()));
        let ok = piece.len() as u64 == size && compare_bytes(
            digest.as_slice(),
            self.get_piece_hash(index).as_slice(),
        ) == 0;
        let ghost total = self.total();
        let ghost pl = self.piece_len();
        let ghost hs = self.hashes();
        proof {
            lemma_piece_in_range(index as int, total, pl);
        }
        match self {
            Torrent::SingleFileTorrent(m) => {
                if ok {
                    m.pieces.set_have(i, size, Ghost(piece@), Ghost(total), Ghost(pl), Ghost(hs));
                } else {
                    m.pieces.set_open(i, PieceState::Missing, Ghost(total), Ghost(pl), Ghost(hs));
                }
            },
            Torrent::MultiFileTorrent(m) => {
                if ok {
                    m.pieces.set_have(i, size, Ghost(piece@), Ghost(total), Ghost(pl), Ghost(hs));
                } else {
                    m.pieces.set_open(i, PieceState::Missing, Ghost(total), Ghost(pl), Ghost(hs));
                }
            },
        }
        ok
    }
}

impl Progress {
    /// Puts back to `Missing` every piece in flight on `peer`.
    fn release_peer(
        &mut self,
        peer: u64,
        Ghost(total): Ghost<int>,
        Ghost(piece_length): Ghost<int>,
        Ghost(hashes): Ghost<Seq<Seq<u8>>>,
    )
        requires
            old(self).wf(total, piece_length, hashes),
        ensures
            final(self).wf(total, piece_length, hashes),
            final(self).verified_bytes == old(self).verified_bytes,
            final(self).states@.len() == old(self).states@.len(),
            forall|i: int|
                0 <= i < old(self).states@.len() ==> #[trigger] final(self).states@[i] == if old(
                    self,
                ).states@[i] == PieceState::InFlight(peer) {
                    PieceState::Missing
                } else {
                    old(self).states@[i]
                },
    {
        let ghost prior = self.states@;
        let n = self.states.len();
        let mut i: usize = 0;
        while i < n
            invariant
                n == self.states@.len() == prior.len(),
                i <= n,
                self.wf(total, piece_length, hashes),
                forall|j: int|
                    0 <= j < i ==> #[trigger] self.states@[j] == if prior[j] == PieceState::InFlight(peer) {
                        PieceState::Missing
                    } else {
                        prior[j]
                    },
                forall|j: int| i <= j < n ==> #[trigger] self.states@[j] == prior[j],
                self.verified_bytes == old(self).verified_bytes,
            decreases n - i,
        {
            if self.states[i] == PieceState::InFlight(peer) {
                self.set_open(i, PieceState::Missing, Ghost(total), Ghost(piece_length), Ghost(hashes));
            }
            i += 1;
        }
    }
}

impl Torrent {
    /// Flags the pieces that are `Missing` and that the peer has.
    fn wanted(&self, has: &Vec<bool>) -> (r: Vec<bool>)
        ensures
            r@.len() == self.states().len(),
            forall|i: int|
                0 <= i < r@.len() ==> #[trigger] r@[i] == (self.states()[i] == PieceState::Missing
                    && peer_has(has@, i)),
    {
        let states = match self {
            Torrent::SingleFileTorrent(m) => &m.pieces.states,
            Torrent::MultiFileTorrent(m) => &m.pieces.states,
        };
        let n = states.len();
        let mut out: Vec<bool> = Vec::new();
        let mut i: usize = 0;
        while i < n
            invariant
                n == states@.len(),
                states@ == self.states(),
                i <= n,
                out@.len() == i,
                forall|j: int|
                    0 <= j < i ==> #[trigger] out@[j] == (states@[j] == PieceState::Missing
                        && peer_has(has@, j)),
            decreases n - i,
        {
            out.push(states[i] == PieceState::Missing && i < has.len() && has[i]);
            i += 1;
        }
        out
    }

    /// Assigns to `peer` a `Missing` piece that it has: the
    /// first such piece from `seed` modulo the piece count, going round.
    /// Only a `Missing` piece is assigned, so no piece is ever in flight on
    /// two peers.
    pub fn assign_piece(&mut self, peer: u64, has: &Vec<bool>, seed: u64) -> (r: Option<u32>)
        requires
            old(self).wf(),
        ensures
            final(self).wf(),
            *final(self) == old(self).with_progress(final(self).progress()),
            r is None <==> forall|i: int|
                0 <= i < old(self).states().len() ==> !(#[trigger] old(self).states()[i]
                    == PieceState::Missing && peer_has(has@, i)),
            r is None ==> final(self).progress() == old(self).progress(),
            r matches Some(i) ==> {
                &&& (i as int) < old(self).states().len()
                &&& old(self).states()[i as int] == PieceState::Missing
                &&& peer_has(has@, i as int)
                &&& final(self).states() == old(self).states().update(i as int, PieceState::InFlight(peer))
                &&& final(self).progress().verified_bytes == old(self).progress().verified_bytes
                &&& forall|k2: int|
                    0 <= k2 < steps(
                        seed as int % old(self).states().len() as int,
                        i as int,
                        old(self).states().len() as int,
                    ) ==> !(#[trigger] old(self).states()[cyclic(
                        seed as int % old(self).states().len() as int,
                        k2,
                        old(self).states().len() as int,
                    )] == PieceState::Missing && peer_has(
                        has@,
                        cyclic(
                            seed as int % old(self).states().len() as int,
                            k2,
                            old(self).states().len() as int,
                        ),
                    ))
            },
    {
        let wanted = self.wanted(has);
        let choice = pick_from(&wanted, seed);
        match choice {
            None => {
                assert forall|i: int| 0 <= i < old(self).states().len() implies !(#[trigger] old(
                    self,
                ).states()[i] == PieceState::Missing && peer_has(has@, i)) by {
                    assert(!wanted@[i]);
                }
                None
            },
            Some(i) => {
                let ghost total = self.total();
                let ghost pl = self.piece_len();
                let ghost hs = self.hashes();
                assert(wanted@[i as int]);
                match self {
                    Torrent::SingleFileTorrent(m) => {
                        m.pieces.set_open(i, PieceState::InFlight(peer), Ghost(total), Ghost(pl), Ghost(hs));
                    },
                    Torrent::MultiFileTorrent(m) => {
                        m.pieces.set_open(i, PieceState::InFlight(peer), Ghost(total), Ghost(pl), Ghost(hs));
                    },
                }
                proof {
                    let n = wanted@.len() as int;
                    let st = seed as int % n;
                    assert forall|k2: int| 0 <= k2 < steps(st, i as int, n) implies !(#[trigger] old(
                        self,
                    ).states()[cyclic(st, k2, n)] == PieceState::Missing && peer_has(
                        has@,
                        cyclic(st, k2, n),
                    )) by {
                        assert(!wanted@[cyclic(st, k2, n)]);
                        assert(0 <= cyclic(st, k2, n) < n) by (nonlinear_arith)
                            requires n > 0, st >= 0, k2 >= 0;
                    }
                }
                Some(i as u32)
            },
        }
    }

    /// Puts piece `index` back to `Missing` if it is in flight.
    pub fn release_piece(&mut self, index: u32)
        requires
            old(self).wf(),
            index < old(self).states().len(),
        ensures
            final(self).wf(),
            *final(self) == old(self).with_progress(final(self).progress()),
            final(self).progress().verified_bytes == old(self).progress().verified_bytes,
            final(self).states() == if old(self).states()[index as int] is InFlight {
                old(self).states().update(index as int, PieceState::Missing)
            } else {
                old(self).states()
            },
    {
        let i = index as usize;
        let ghost total = self.total();
        let ghost pl = self.piece_len();
        let ghost hs = self.hashes();
        match self.piece_state(index) {
            PieceState::InFlight(_) => {
                match self {
                    Torrent::SingleFileTorrent(m) => {
                        m.pieces.set_open(i, PieceState::Missing, Ghost(total), Ghost(pl), Ghost(hs));
                    },
                    Torrent::MultiFileTorrent(m) => {
                        m.pieces.set_open(i, PieceState::Missing, Ghost(total), Ghost(pl), Ghost(hs));
                    },
                }
            },
            _ => {},
        }
    }

    /// Puts back to `Missing` every piece in flight on `peer`.
    pub fn release_peer(&mut self, peer: u64)
        requires
            old(self).wf(),
        ensures
            final(self).wf(),
            *final(self) == old(self).with_progress(final(self).progress()),
            final(self).progress().verified_bytes == old(self).progress().verified_bytes,
            final(self).states().len() == old(self).states().len(),
            forall|i: int|
                0 <= i < old(self).states().len() ==> #[trigger] final(self).states()[i] == if old(
                    self,
                ).states()[i] == PieceState::InFlight(peer) {
                    PieceState::Missing
                } else {
                    old(self).states()[i]
                },
    {
        let ghost total = self.total();
        let ghost pl = self.piece_len();
        let ghost hs = self.hashes();
        match self {
            Torrent::SingleFileTorrent(m) => {
                m.pieces.release_peer(peer, Ghost(total), Ghost(pl), Ghost(hs));
            },
            Torrent::MultiFileTorrent(m) => {
                m.pieces.release_peer(peer, Ghost(total), Ghost(pl), Ghost(hs));
            },
        }
    }

    /// A `Missing` piece, the first from `seed` modulo the piece count,
    /// going round; `None` when no piece is `Missing`.
    pub fn pick_unfinished(&self, seed: u64) -> (r: Option<u32>)
        requires
            self.wf(),
        ensures
            r is None <==> forall|i: int| 0 <= i < self.states().len() ==> #[trigger] self.states()[i]
                != PieceState::Missing,
            r matches Some(i) ==> (i as int) < self.states().len() && self.states()[i as int]
                == PieceState::Missing && forall|k2: int|
                0 <= k2 < steps(
                    seed as int % self.states().len() as int,
                    i as int,
                    self.states().len() as int,
                ) ==> #[trigger] self.states()[cyclic(
                    seed as int % self.states().len() as int,
                    k2,
                    self.states().len() as int,
                )] != PieceState::Missing,
    {
        let states = match self {
            Torrent::SingleFileTorrent(m) => &m.pieces.states,
            Torrent::MultiFileTorrent(m) => &m.pieces.states,
        };
        let n = states.len();
        let mut open: Vec<bool> = Vec::new();
        let mut i: usize = 0;
        while i < n
            invariant
                n == states@.len(),
                states@ == self.states(),
                i <= n,
                open@.len() == i,
                forall|j: int| 0 <= j < i ==> #[trigger] open@[j] == (states@[j] == PieceState::Missing),
            decreases n - i,
        {
            open.push(states[i] == PieceState::Missing);
            i += 1;
        }
        let choice = pick_from(&open, seed);
        match choice {
            None => {
                assert forall|i: int| 0 <= i < self.states().len() implies #[trigger] self.states()[i]
                    != PieceState::Missing by {
                    assert(!open@[i]);
                }
                None
            },
            Some(i) => {
                proof {
                    let st = seed as int % (n as int);
                    assert forall|k2: int| 0 <= k2 < steps(st, i as int, n as int) implies #[trigger] self.states()[cyclic(st, k2, n as int)] != PieceState::Missing by {
                        assert(!open@[cyclic(st, k2, n as int)]);
                        assert(0 <= cyclic(st, k2, n as int) < n) by (nonlinear_arith)
                            requires n > 0, st >= 0, k2 >= 0;
                    }
                }
                Some(i as u32)
            },
        }
    }

    /// A random `Missing` piece; `None` when no piece is `Missing`.
    pub fn generate_piece_index(&self) -> (r: Option<u32>)
        requires
            self.wf(),
        ensures
            r is None <==> forall|i: int| 0 <= i < self.states().len() ==> #[trigger] self.states()[i]
                != PieceState::Missing,
            r matches Some(i) ==> (i as int) < self.states().len() && self.states()[i as int]
                == PieceState::Missing,
    {
        let seed = random_u64();
        self.pick_unfinished(seed)
    }
}

/// A parsed torrent has one hash per piece: `ceil(total / piece_length)`.
pub proof fn lemma_piece_count(t: Torrent)
    requires
        t.wf(),
    ensures
        t.hashes().len() == pieces_for(t.total(), t.piece_len()),
        t.states().len() == t.hashes().len(),
{
}

/// The count of verified bytes is the sum of the sizes of the pieces held,
/// the last piece counted at its own, shorter, size.
pub proof fn lemma_verified_bytes(t: Torrent)
    requires
        t.wf(),
    ensures
        t.progress().verified_bytes as int == have_total(t.states(), t.total(), t.piece_len()),
{
}

/// Every piece held was accepted with the bytes whose SHA-1 the metainfo
/// lists for it, and with the piece's length.
pub proof fn lemma_held_pieces_verified(t: Torrent, i: int)
    requires
        t.wf(),
        0 <= i < t.states().len(),
        t.states()[i] == PieceState::Have,
    ensures
        t.progress().accepted@.contains_key(i),
        sha1_of(t.progress().accepted@[i]) == t.hashes()[i],
        t.progress().accepted@[i].len() == t.piece_size(i),
{
}

/// A piece has one state: it is in flight on at most one peer.
pub proof fn lemma_single_owner(t: Torrent, i: int, p: u64, q: u64)
    requires
        0 <= i < t.states().len(),
        t.states()[i] == PieceState::InFlight(p),
        t.states()[i] == PieceState::InFlight(q),
    ensures
        p == q,
{
}

} // verus!

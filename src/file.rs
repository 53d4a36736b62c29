use vstd::prelude::*;
use crate::torrent::{file_total, files_wf, path_view, File, Torrent};

verus! {

/// One write of a piece's bytes into one file.
pub struct FileWrite {
    /// Index in the torrent's file list; 0 for a single-file torrent.
    pub file_index: usize,
    /// Path segments, starting with the torrent's name.
    pub path: Vec<String>,
    /// Offset in the file.
    pub offset: u64,
    /// Full length of the file.
    pub file_length: u64,
    pub data: Vec<u8>,
}

/// The part of file `j` inside the byte range `[a, b)`, as
/// (file index, offset in file, offset in piece, length).
pub open spec fn slice_of(fs: Seq<File>, j: int, a: int, b: int) -> (int, int, int, int) {
    file_slice(fs[j], j, a, b)
}

pub open spec fn file_slice(f: File, j: int, a: int, b: int) -> (int, int, int, int) {
    let o = f.offset as int;
    let e = o + f.length;
    let lo = if a > o { a } else { o };
    let hi = if b < e { b } else { e };
    (j, lo - o, lo - a, hi - lo)
}

/// The slices of the first `k` files that meet `[a, b)`, in list order.
pub open spec fn slices(fs: Seq<File>, k: int, a: int, b: int) -> Seq<(int, int, int, int)>
    decreases k,
{
    if k <= 0 {
        Seq::empty()
    } else if slice_of(fs, k - 1, a, b).3 > 0 {
        slices(fs, k - 1, a, b).push(slice_of(fs, k - 1, a, b))
    } else {
        slices(fs, k - 1, a, b)
    }
}

/// A write that carries the slice `sl` of `piece` to the file with path `path`.
pub open spec fn write_matches(
    w: FileWrite,
    sl: (int, int, int, int),
    piece: Seq<u8>,
    path: Seq<Seq<char>>,
    file_length: int,
) -> bool {
    &&& w.file_index as int == sl.0
    &&& w.file_length as int == file_length
    &&& w.offset as int == sl.1
    &&& w.data@ == piece.subrange(sl.2, sl.2 + sl.3)
    &&& path_view(w.path@) == path
}

proof fn lemma_file_total_mono(fs: Seq<File>, j: int)
    requires
        0 <= j <= fs.len(),
        forall|i: int| 0 <= i < fs.len() ==> (#[trigger] fs[i]).length >= 0,
    ensures
        file_total(fs.subrange(0, j)) <= file_total(fs),
        0 <= file_total(fs),
    decreases fs.len(),
{
    if fs.len() > 0 {
        let p = fs.subrange(0, fs.len() - 1);
        assert forall|i: int| 0 <= i < p.len() implies (#[trigger] p[i]).length >= 0 by {
            assert(p[i] == fs[i]);
        }
        lemma_file_total_mono(p, 0);
    }
    if j < fs.len() {
        let p = fs.subrange(0, fs.len() - 1);
        assert forall|i: int| 0 <= i < p.len() implies (#[trigger] p[i]).length >= 0 by {
            assert(p[i] == fs[i]);
        }
        assert(p.subrange(0, j) =~= fs.subrange(0, j));
        lemma_file_total_mono(p, j);
    } else {
        assert(fs.subrange(0, j) =~= fs);
    }
}

fn copy_path(name: &String, segments: &Vec<String>) -> (r: Vec<String>)
    ensures
        path_view(r@) == seq![name@] + path_view(segments@),
{
    let mut out: Vec<String> = Vec::new();
    out.push(name.clone());
    let mut i: usize = 0;
    while i < segments.len()
        invariant
            i <= segments@.len(),
            path_view(out@) == seq![name@] + path_view(segments@.subrange(0, i as int)),
        decreases segments.len() - i,
    {
        let ghost before = out@;
        let seg = segments[i].clone();
        out.push(seg);
        assert(path_view(out@) =~= path_view(before).push(segments@[i as int]@));
        assert(path_view(segments@.subrange(0, i + 1)) =~= path_view(segments@.subrange(0, i as int)).push(
            segments@[i as int]@,
        ));
        i += 1;
        assert(path_view(out@) =~= seq![name@] + path_view(segments@.subrange(0, i as int)));
    }
    assert(segments@.subrange(0, segments.len() as int) =~= segments@);
    out
}

fn copy_bytes(piece: &Vec<u8>, from: usize, len: usize) -> (r: Vec<u8>)
    requires
        from + len <= piece@.len(),
    ensures
        r@ == piece@.subrange(from as int, from + len),
{
    let mut out: Vec<u8> = Vec::new();
    let mut i: usize = 0;
    let total = piece.len();
    while i < len
        invariant
            total == piece@.len(),
            from + len <= piece@.len(),
            i <= len,
            out@ == piece@.subrange(from as int, from + i),
        decreases len - i,
    {
        out.push(piece[from + i]);
        i += 1;
        assert(out@ =~= piece@.subrange(from as int, from + i));
    }
    out
}

/// The write of file `f` (index `j`) for the piece bytes at `[a, b)` of the
/// stream, if the file meets that range.
fn slice_write(name: &String, f: &File, j: usize, piece: &Vec<u8>, a: i64, b: i64) -> (r: Option<FileWrite>)
    requires
        0 <= a <= b,
        b - a == piece@.len(),
        f.offset >= 0,
        f.length >= 0,
        f.offset + f.length <= i64::MAX,
    ensures
        r is Some <==> file_slice(*f, j as int, a as int, b as int).3 > 0,
        r matches Some(w) ==> write_matches(
            w,
            file_slice(*f, j as int, a as int, b as int),
            piece@,
            seq![name@] + path_view(f.path@),
            f.length as int,
        ),
{
    let o = f.offset;
    let e = o + f.length;
    let lo = if a > o { a } else { o };
    let hi = if b < e { b } else { e };
    let plen = piece.len();
    if lo < hi {
        assert(hi - a <= plen);
        let path = copy_path(name, &f.path);
        let data = copy_bytes(piece, (lo - a) as usize, (hi - lo) as usize);
        let ghost sl = file_slice(*f, j as int, a as int, b as int);
        assert(sl.1 == lo - o);
        assert(sl.2 == lo - a);
        assert(sl.3 == hi - lo);
        assert(data@ == piece@.subrange(sl.2, sl.2 + sl.3));
        Some(FileWrite { file_index: j, path, offset: (lo - o) as u64, file_length: f.length as u64, data })
    } else {
        None
    }
}

/// The writes that put a verified piece in place. A single-file torrent
/// takes the whole piece at `index · piece_length` of its file. A
/// multi-file torrent is one byte stream, the files end to end: each file
/// that meets the piece's range takes its part, at its own offset.
pub fn write_piece(piece: &Vec<u8>, index: u32, meta_data: &Torrent) -> (r: Vec<FileWrite>)
    requires
        meta_data.wf(),
        index < meta_data.hashes().len(),
        piece@.len() == meta_data.piece_size(index as int),
    ensures
        meta_data matches Torrent::SingleFileTorrent(m) ==> r@.len() == 1 && write_matches(
            r@[0],
            (0, index * meta_data.piece_len(), 0, piece@.len() as int),
            piece@,
            seq![m.info.name@],
            meta_data.total(),
        ),
        meta_data matches Torrent::MultiFileTorrent(m) ==> {
            let a = index * meta_data.piece_len();
            let sl = slices(m.info.files@, m.info.files@.len() as int, a, a + piece@.len());
            &&& r@.len() == sl.len()
            &&& forall|k: int|
                0 <= k < r@.len() ==> write_matches(
                    #[trigger] r@[k],
                    sl[k],
                    piece@,
                    seq![m.info.name@] + path_view(m.info.files@[sl[k].0].path@),
                    m.info.files@[sl[k].0].length as int,
                )
        },
{
    let pl = meta_data.get_piece_length();
    proof {
        crate::torrent::lemma_piece_in_range(index as int, meta_data.total(), pl as int);
    }
    let a: i64 = index as i64 * pl;
    match meta_data {
        Torrent::SingleFileTorrent(m) => {
            let mut out: Vec<FileWrite> = Vec::new();
            let path = copy_path(&m.info.name, &Vec::new());
            assert(path_view(Seq::<String>::empty()) =~= Seq::empty());
            let data = copy_bytes(piece, 0, piece.len());
            let total = meta_data.get_length();
            out.push(FileWrite { file_index: 0, path, offset: a as u64, file_length: total as u64, data });
            assert(seq![m.info.name@] + Seq::<Seq<char>>::empty() =~= seq![m.info.name@]);
            out
        },
        Torrent::MultiFileTorrent(m) => {
            let b: i64 = a + piece.len() as i64;
            let fs = &m.info.files;
            let ghost fsv = fs@;
            let n = fs.len();
            let mut out: Vec<FileWrite> = Vec::new();
            let mut j: usize = 0;
            while j < n
                invariant
                    n == fsv.len(),
                    fsv == fs@,
                    fsv == m.info.files@,
                    j <= n,
                    files_wf(fsv, pl as int),
                    file_total(fsv) == meta_data.total(),
                    meta_data.total() <= i64::MAX,
                    0 <= a <= b <= meta_data.total(),
                    b - a == piece@.len(),
                    out@.len() == slices(fsv, j as int, a as int, b as int).len(),
                    forall|k: int|
                        0 <= k < out@.len() ==> write_matches(
                            #[trigger] out@[k],
                            slices(fsv, j as int, a as int, b as int)[k],
                            piece@,
                            seq![m.info.name@] + path_view(
                                fsv[slices(fsv, j as int, a as int, b as int)[k].0].path@,
                            ),
                            fsv[slices(fsv, j as int, a as int, b as int)[k].0].length as int,
                        ),
                decreases n - j,
            {
                let f = &fs[j];
                proof {
                    assert forall|i: int| 0 <= i < fsv.len() implies (#[trigger] fsv[i]).length >= 0 by {}
                    lemma_file_total_mono(fsv, j + 1);
                    let pre = fsv.subrange(0, j as int);
                    assert forall|i: int| 0 <= i < pre.len() implies (#[trigger] pre[i]).length >= 0 by {
                        assert(pre[i] == fsv[i]);
                    }
                    lemma_file_total_mono(pre, 0);
                    assert(fsv.subrange(0, j + 1).subrange(0, j as int) =~= fsv.subrange(0, j as int));
                    assert(fsv[j as int].offset == file_total(fsv.subrange(0, j as int)));
                }
                let ghost prev = slices(fsv, j as int, a as int, b as int);
                let w = slice_write(&m.info.name, f, j, piece, a, b);
                match w {
                    Some(w) => {
                        out.push(w);
                    },
                    None => {},
                }
                proof {
                    let now = slices(fsv, j + 1, a as int, b as int);
                    assert forall|k: int| 0 <= k < out@.len() implies write_matches(
                        #[trigger] out@[k],
                        now[k],
                        piece@,
                        seq![m.info.name@] + path_view(fsv[now[k].0].path@),
                        fsv[now[k].0].length as int,
                    ) by {
                        if k < prev.len() {
                            assert(now[k] == prev[k]);
                        }
                    }
                }
                j += 1;
            }
            out
        },
    }
}

/// Sum of the lengths of a list of slices.
pub open spec fn slices_total(sl: Seq<(int, int, int, int)>) -> int
    decreases sl.len(),
{
    if sl.len() == 0 {
        0
    } else {
        slices_total(sl.subrange(0, sl.len() - 1)) + sl[sl.len() - 1].3
    }
}

proof fn lemma_slices_total_push(sl: Seq<(int, int, int, int)>, x: (int, int, int, int))
    ensures
        slices_total(sl.push(x)) == slices_total(sl) + x.3,
{
    assert(sl.push(x).subrange(0, sl.len() as int) =~= sl);
}

proof fn lemma_slices_prefix(fs: Seq<File>, k: int, pl: int, a: int, b: int)
    requires
        files_wf(fs, pl),
        0 <= k <= fs.len(),
        0 <= a <= b,
    ensures
        slices_total(slices(fs, k, a, b)) == if b < file_total(fs.subrange(0, k)) {
            b - a
        } else if a < file_total(fs.subrange(0, k)) {
            file_total(fs.subrange(0, k)) - a
        } else {
            0
        },
    decreases k,
{
    if k > 0 {
        lemma_slices_prefix(fs, k - 1, pl, a, b);
        let f = fs[k - 1];
        assert(fs.subrange(0, k).subrange(0, k - 1) =~= fs.subrange(0, k - 1));
        assert(f.offset == file_total(fs.subrange(0, k - 1)));
        assert(fs.subrange(0, k)[k - 1] == f);
        assert(file_total(fs.subrange(0, k)) == f.offset + f.length);
        let sl = slice_of(fs, k - 1, a, b);
        if sl.3 > 0 {
            lemma_slices_total_push(slices(fs, k - 1, a, b), sl);
        }
    } else {
        assert(fs.subrange(0, 0).len() == 0);
    }
}

/// The writes planned for a piece carry exactly its bytes: their lengths
/// add up to the length of the piece's range, whatever files it spans.
pub proof fn lemma_writes_cover_piece(fs: Seq<File>, piece_length: int, a: int, b: int)
    requires
        files_wf(fs, piece_length),
        0 <= a <= b <= file_total(fs),
    ensures
        slices_total(slices(fs, fs.len() as int, a, b)) == b - a,
{
    lemma_slices_prefix(fs, fs.len() as int, piece_length, a, b);
    assert(fs.subrange(0, fs.len() as int) =~= fs);
}

} // verus!

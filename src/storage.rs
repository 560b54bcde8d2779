//! The layout of a torrent's bytes on disk.
//!
//! A torrent's byte space is the concatenation of its files in order, cut
//! into pieces of equal length but for the last. A piece may span several
//! files; it maps to one slice per file that it touches.

use vstd::prelude::*;
use vstd::arithmetic::div_mod::{lemma_fundamental_div_mod, lemma_mod_bound};

verus! {

/// A file of a torrent: its path relative to the download directory, its
/// length, and where its first byte lies in the torrent.
#[derive(Clone, Debug)]
pub struct FileInfo {
    pub path: String,
    pub len: u64,
    pub torrent_offset: u64,
}

/// A contiguous range of bytes within one file.
#[derive(Clone, Copy, Debug, PartialEq, Eq, Structural)]
pub struct FileSlice {
    pub file_index: usize,
    pub offset: u64,
    pub len: u64,
}

/// The sizes that describe a torrent's storage.
#[derive(Clone, Debug)]
pub struct StorageInfo {
    pub piece_count: usize,
    pub piece_len: u32,
    pub last_piece_len: u32,
    pub total_len: u64,
    pub files: Vec<FileInfo>,
}

/// Where in the torrent a slice's first byte lies.
pub open spec fn slice_start(files: Seq<FileInfo>, s: FileSlice) -> int {
    files[s.file_index as int].torrent_offset + s.offset
}

/// The slices, in order, cover the torrent bytes `[start, end)` exactly:
/// each is non-empty and within its file, each begins where the one before
/// ended, and their files come in increasing order.
pub open spec fn covers(files: Seq<FileInfo>, slices: Seq<FileSlice>, start: int, end: int) -> bool {
    &&& forall|j: int| 0 <= j < slices.len() ==> {
        &&& 0 < #[trigger] slices[j].len
        &&& slices[j].file_index < files.len()
        &&& slices[j].offset + slices[j].len <= files[slices[j].file_index as int].len
    }
    &&& forall|j: int| 0 <= j < slices.len() - 1 ==> {
        &&& #[trigger] slices[j].file_index < slices[j + 1].file_index
        &&& slice_start(files, slices[j + 1]) == slice_start(files, slices[j]) + slices[j].len
    }
    &&& slices.len() == 0 ==> start == end
    &&& slices.len() > 0 ==> {
        &&& slice_start(files, slices[0]) == start
        &&& slice_start(files, slices.last()) + slices.last().len == end
    }
}

/// The sum of the lengths in a list of files.
pub open spec fn total_of(files: Seq<(String, u64)>) -> int
    decreases files.len(),
{
    if files.len() == 0 {
        0
    } else {
        total_of(files.drop_last()) + files.last().1
    }
}

/// `x` limited to `[lo, hi]`.
pub open spec fn clamp(x: int, lo: int, hi: int) -> int {
    if x < lo {
        lo
    } else if x > hi {
        hi
    } else {
        x
    }
}

/// A prefix's total exceeds no total of a longer prefix.
proof fn lemma_total_of_prefix(files: Seq<(String, u64)>, k: int)
    requires
        0 <= k <= files.len(),
    ensures
        total_of(files.take(k)) <= total_of(files),
    decreases files.len() - k,
{
    if k < files.len() {
        lemma_total_of_prefix(files, k + 1);
        assert(files.take(k + 1).drop_last() =~= files.take(k));
    } else {
        assert(files.take(k) =~= files);
    }
}

impl StorageInfo {
    /// The files follow each other from the torrent's first byte to its
    /// last, and the pieces cut the same bytes.
    pub open spec fn wf(&self) -> bool {
        let files = self.files@;
        &&& files.len() >= 1
        &&& files[0].torrent_offset == 0
        &&& forall|k: int| 0 <= k < files.len() - 1 ==> #[trigger] files[k + 1].torrent_offset
            == files[k].torrent_offset + files[k].len
        &&& files.last().torrent_offset + files.last().len == self.total_len
        &&& self.piece_len > 0
        &&& self.piece_count >= 1
        &&& 0 < self.last_piece_len <= self.piece_len
        &&& (self.piece_count - 1) * self.piece_len + self.last_piece_len == self.total_len
    }

    /// Lays out files of the given paths and lengths one after the other,
    /// cut into pieces of `piece_len` bytes. There is no layout for a zero
    /// piece length, for no files, for no bytes at all, or for more bytes or
    /// pieces than the integer types hold.
    pub fn new(piece_len: u32, files: Vec<(String, u64)>) -> (r: Option<StorageInfo>)
        ensures
            r matches Some(info) ==> {
                &&& info.wf()
                &&& info.piece_len == piece_len
                &&& info.files@.len() == files@.len()
                &&& forall|k: int| 0 <= k < files@.len() ==> #[trigger] info.files@[k].len == files@[k].1
                    && info.files@[k].path == files@[k].0
            },
            r is None <==> piece_len == 0 || files@.len() == 0 || total_of(files@) == 0 || total_of(files@)
                > u64::MAX || (total_of(files@) - 1) / (piece_len as int) + 1 > usize::MAX,
    {
        if piece_len == 0 || files.len() == 0 {
            return None;
        }
        let mut infos: Vec<FileInfo> = Vec::new();
        let mut total: u64 = 0;
        let mut k: usize = 0;
        while k < files.len()
            invariant
                k <= files@.len(),
                files@.len() >= 1,
                infos@.len() == k,
                k > 0 ==> infos@[0].torrent_offset == 0,
                k > 0 ==> infos@.last().torrent_offset + infos@.last().len == total,
                total == total_of(files@.take(k as int)),
                forall|j: int| 0 <= j < k - 1 ==> #[trigger] infos@[j + 1].torrent_offset
                    == infos@[j].torrent_offset + infos@[j].len,
                forall|j: int| 0 <= j < k ==> #[trigger] infos@[j].len == files@[j].1
                    && infos@[j].path == files@[j].0,
            decreases files@.len() - k,
        {
            let len = files[k].1;
            assert(files@.take(k + 1).drop_last() =~= files@.take(k as int));
            if len > u64::MAX - total {
                proof {
                    lemma_total_of_prefix(files@, k + 1);
                }
                return None;
            }
            let path = files[k].0.clone();
            infos.push(FileInfo { path, len, torrent_offset: total });
            total = total + len;
            k = k + 1;
        }
        assert(files@.take(k as int) =~= files@);
        if total == 0 {
            return None;
        }
        let pl = piece_len as u64;
        let q = (total - 1) / pl;
        if q >= usize::MAX as u64 {
            return None;
        }
        let count = q + 1;
        let last = (total - 1) % pl + 1;
        proof {
            lemma_fundamental_div_mod((total - 1) as int, pl as int);
            lemma_mod_bound((total - 1) as int, pl as int);
            let r = (total - 1) as int % pl as int;
            assert((count - 1) * pl + last == total) by (nonlinear_arith)
                requires
                    pl * q + r == total - 1,
                    count == q + 1,
                    last == r + 1,
            ;
        }
        let info = StorageInfo {
            piece_count: count as usize,
            piece_len,
            last_piece_len: last as u32,
            total_len: total,
            files: infos,
        };
        assert(info.wf());
        assert(forall|k: int| 0 <= k < files@.len() ==> #[trigger] info.files@[k].len == files@[k].1);
        Some(info)
    }

    /// Where piece `index` begins in the torrent.
    pub open spec fn piece_start(&self, index: int) -> int {
        index * self.piece_len
    }

    /// The length of piece `index`: the last piece may be shorter.
    pub open spec fn piece_length(&self, index: int) -> int {
        if index == self.piece_count - 1 {
            self.last_piece_len as int
        } else {
            self.piece_len as int
        }
    }

    /// Where piece `index` begins in the torrent, and its length.
    pub fn piece_range(&self, index: usize) -> (r: (u64, u32))
        requires
            self.wf(),
            index < self.piece_count,
        ensures
            r.0 == self.piece_start(index as int),
            r.1 == self.piece_length(index as int),
            r.0 + r.1 <= self.total_len,
    {
        assert(index * self.piece_len + self.piece_length(index as int) <= self.total_len) by (nonlinear_arith)
            requires
                index < self.piece_count,
                (self.piece_count - 1) * self.piece_len + self.last_piece_len == self.total_len,
                self.piece_length(index as int) == if index == self.piece_count - 1 {
                    self.last_piece_len as int
                } else {
                    self.piece_len as int
                },
                0 < self.last_piece_len <= self.piece_len,
        ;
        let start = index as u64 * self.piece_len as u64;
        let len = if index == self.piece_count - 1 {
            self.last_piece_len
        } else {
            self.piece_len
        };
        (start, len)
    }

    /// Maps the torrent bytes `[start, start + len)` to one slice
    /// per file that they touch, in order.
    pub fn file_slices(&self, start: u64, len: u64) -> (r: Vec<FileSlice>)
        requires
            self.wf(),
            start + len <= self.total_len,
        ensures
            covers(self.files@, r@, start as int, start + len),
    {
        let files = &self.files;
        let end = start + len;
        let mut slices: Vec<FileSlice> = Vec::new();
        let mut k: usize = 0;
        while k < files.len()
            invariant
                self.wf(),
                files == &self.files,
                end == start + len,
                end <= self.total_len,
                k <= files@.len(),
                covers(
                    files@,
                    slices@,
                    start as int,
                    clamp(
                        if k < files@.len() {
                            files@[k as int].torrent_offset as int
                        } else {
                            self.total_len as int
                        },
                        start as int,
                        end as int,
                    ),
                ),
                forall|j: int| 0 <= j < slices@.len() ==> slices@[j].file_index < k,
            decreases files@.len() - k,
        {
            let fo = files[k].torrent_offset;
            let flen = files[k].len;
            proof {
                if k + 1 < files@.len() {
                    assert(files@[k + 1].torrent_offset == fo + flen);
                }
            }
            let lo = if start > fo {
                start
            } else {
                fo
            };
            let file_end = fo + flen;
            let hi = if end < file_end {
                end
            } else {
                file_end
            };
            if lo < hi {
                let ghost before = slices@;
                slices.push(FileSlice { file_index: k, offset: lo - fo, len: hi - lo });
                proof {
                    if before.len() > 0 {
                        assert(slices@[before.len() - 1] == before.last());
                    }
                }
            }
            k = k + 1;
        }
        slices
    }
}

/// The files after `data` is written through `slices`, each slice taking
/// the next bytes of `data` at its offset in its file.
pub open spec fn write_slices(files: Seq<Seq<u8>>, slices: Seq<FileSlice>, data: Seq<u8>) -> Seq<
    Seq<u8>,
>
    decreases slices.len(),
{
    if slices.len() == 0 {
        files
    } else {
        let s = slices[0];
        let f = files[s.file_index as int];
        let written = f.take(s.offset as int) + data.take(s.len as int) + f.skip(s.offset + s.len);
        write_slices(files.update(s.file_index as int, written), slices.drop_first(), data.skip(s.len as int))
    }
}

/// The bytes read through `slices`, in order.
pub open spec fn read_slices(files: Seq<Seq<u8>>, slices: Seq<FileSlice>) -> Seq<u8>
    decreases slices.len(),
{
    if slices.len() == 0 {
        Seq::empty()
    } else {
        let s = slices[0];
        files[s.file_index as int].subrange(s.offset as int, s.offset + s.len) + read_slices(
            files,
            slices.drop_first(),
        )
    }
}

/// The total length of a list of slices.
pub open spec fn slices_len(slices: Seq<FileSlice>) -> int
    decreases slices.len(),
{
    if slices.len() == 0 {
        0
    } else {
        slices[0].len + slices_len(slices.drop_first())
    }
}

/// Each slice lies within its file, and the files come in strictly
/// increasing order.
pub open spec fn slices_fit(files: Seq<Seq<u8>>, slices: Seq<FileSlice>) -> bool {
    &&& forall|j: int| 0 <= j < slices.len() ==> {
        &&& #[trigger] slices[j].file_index < files.len()
        &&& slices[j].offset + slices[j].len <= files[slices[j].file_index as int].len()
    }
    &&& forall|i: int, j: int| 0 <= i < j < slices.len() ==> #[trigger] slices[i].file_index < #[trigger] slices[j].file_index
}

/// Writing through slices touches only the files they name, and keeps every
/// file's length.
proof fn lemma_write_frame(files: Seq<Seq<u8>>, slices: Seq<FileSlice>, data: Seq<u8>, k: int)
    requires
        slices_fit(files, slices),
        slices_len(slices) <= data.len(),
        0 <= k < files.len(),
    ensures
        write_slices(files, slices, data).len() == files.len(),
        write_slices(files, slices, data)[k].len() == files[k].len(),
        (forall|j: int| 0 <= j < slices.len() ==> slices[j].file_index != k) ==> write_slices(
            files,
            slices,
            data,
        )[k] == files[k],
    decreases slices.len(),
{
    if slices.len() > 0 {
        let s = slices[0];
        let f = files[s.file_index as int];
        let written = f.take(s.offset as int) + data.take(s.len as int) + f.skip(s.offset + s.len);
        let f1 = files.update(s.file_index as int, written);
        let rest = slices.drop_first();
        lemma_slices_len_nonneg(rest);
        assert(written.len() == f.len());
        assert(slices_fit(f1, rest)) by {
            assert forall|j: int| 0 <= j < rest.len() implies #[trigger] rest[j].file_index < f1.len()
                && rest[j].offset + rest[j].len <= f1[rest[j].file_index as int].len() by {
                assert(rest[j] == slices[j + 1]);
            }
            assert forall|i: int, j: int| 0 <= i < j < rest.len() implies #[trigger] rest[i].file_index
                < #[trigger] rest[j].file_index by {
                assert(rest[i] == slices[i + 1]);
                assert(rest[j] == slices[j + 1]);
            }
        }
        lemma_write_frame(f1, rest, data.skip(s.len as int), k);
        if forall|j: int| 0 <= j < slices.len() ==> slices[j].file_index != k {
            assert(slices[0].file_index != k);
            assert forall|j: int| 0 <= j < rest.len() implies rest[j].file_index != k by {
                assert(rest[j] == slices[j + 1]);
            }
        }
    }
}

/// Slice lengths are never negative.
proof fn lemma_slices_len_nonneg(slices: Seq<FileSlice>)
    ensures
        slices_len(slices) >= 0,
    decreases slices.len(),
{
    if slices.len() > 0 {
        lemma_slices_len_nonneg(slices.drop_first());
    }
}

/// Reading back through slices that fit their files gives exactly the bytes
/// written through them.
pub proof fn lemma_read_after_write(files: Seq<Seq<u8>>, slices: Seq<FileSlice>, data: Seq<u8>)
    requires
        slices_fit(files, slices),
        slices_len(slices) == data.len(),
    ensures
        read_slices(write_slices(files, slices, data), slices) == data,
    decreases slices.len(),
{
    if slices.len() == 0 {
        assert(data =~= Seq::<u8>::empty());
    } else {
        let s = slices[0];
        let f = files[s.file_index as int];
        let written = f.take(s.offset as int) + data.take(s.len as int) + f.skip(s.offset + s.len);
        let f1 = files.update(s.file_index as int, written);
        let rest = slices.drop_first();
        let d1 = data.skip(s.len as int);
        lemma_slices_len_nonneg(rest);
        assert(slices_fit(f1, rest)) by {
            assert forall|j: int| 0 <= j < rest.len() implies #[trigger] rest[j].file_index < f1.len()
                && rest[j].offset + rest[j].len <= f1[rest[j].file_index as int].len() by {
                assert(rest[j] == slices[j + 1]);
            }
            assert forall|i: int, j: int| 0 <= i < j < rest.len() implies #[trigger] rest[i].file_index
                < #[trigger] rest[j].file_index by {
                assert(rest[i] == slices[i + 1]);
                assert(rest[j] == slices[j + 1]);
            }
        }
        lemma_read_after_write(f1, rest, d1);
        let w = write_slices(f1, rest, d1);
        assert forall|j: int| 0 <= j < rest.len() implies rest[j].file_index != s.file_index by {
            assert(rest[j] == slices[j + 1]);
        }
        lemma_write_frame(f1, rest, d1, s.file_index as int);
        assert(w[s.file_index as int] == written);
        assert(written.subrange(s.offset as int, s.offset + s.len) =~= data.take(s.len as int));
        assert(write_slices(files, slices, data) == w);
        assert(read_slices(w, slices) == written.subrange(s.offset as int, s.offset + s.len) + read_slices(w, rest));
        assert(data.take(s.len as int) + d1 =~= data);
    }
}

/// Slices that cover a byte range have the range's length in all, and fit
/// files that have the lengths the layout gives them.
pub proof fn lemma_covers_fit(
    infos: Seq<FileInfo>,
    files: Seq<Seq<u8>>,
    slices: Seq<FileSlice>,
    start: int,
    end: int,
)
    requires
        covers(infos, slices, start, end),
        files.len() == infos.len(),
        forall|k: int| 0 <= k < files.len() ==> #[trigger] files[k].len() == infos[k].len,
    ensures
        slices_len(slices) == end - start,
        slices_fit(files, slices),
    decreases slices.len(),
{
    if slices.len() > 0 {
        let rest = slices.drop_first();
        let s0 = slices[0];
        let next = start + s0.len;
        assert(covers(infos, rest, next, end)) by {
            assert forall|j: int| 0 <= j < rest.len() implies 0 < #[trigger] rest[j].len by {
                assert(rest[j] == slices[j + 1]);
            }
            assert forall|j: int| 0 <= j < rest.len() - 1 implies #[trigger] rest[j].file_index
                < rest[j + 1].file_index && slice_start(infos, rest[j + 1]) == slice_start(infos, rest[j])
                + rest[j].len by {
                assert(rest[j] == slices[j + 1]);
                assert(rest[j + 1] == slices[j + 2]);
            }
            if rest.len() > 0 {
                assert(rest[0] == slices[1]);
                assert(rest.last() == slices.last());
            } else {
                assert(slices.last() == s0);
            }
        }
        lemma_covers_fit(infos, files, rest, next, end);
        assert forall|i: int, j: int| 0 <= i < j < slices.len() implies #[trigger] slices[i].file_index
            < #[trigger] slices[j].file_index by {
            if i == 0 {
                if j > 1 {
                    assert(rest[0] == slices[1]);
                    assert(rest[j - 1] == slices[j]);
                }
            } else {
                assert(rest[i - 1] == slices[i]);
                assert(rest[j - 1] == slices[j]);
            }
        }
    }
}

/// Writing a piece's bytes through the slices that `file_slices` gives for
/// its range, into files of the layout's lengths, then reading the same
/// slices back, gives the piece's bytes.
pub proof fn lemma_disk_round_trip(
    info: StorageInfo,
    files: Seq<Seq<u8>>,
    start: int,
    end: int,
    slices: Seq<FileSlice>,
    data: Seq<u8>,
)
    requires
        covers(info.files@, slices, start, end),
        data.len() == end - start,
        files.len() == info.files@.len(),
        forall|k: int| 0 <= k < files.len() ==> #[trigger] files[k].len() == info.files@[k].len,
    ensures
        read_slices(write_slices(files, slices, data), slices) == data,
{
    lemma_covers_fit(info.files@, files, slices, start, end);
    lemma_read_after_write(files, slices, data);
}

} // verus!

//! Godot PCK archives: the file table, reading it from bytes and writing it back.

use vstd::prelude::*;
use vstd::utf8::*;
use crate::bytes::{le32_bytes, le64_bytes, le32_value, le64_value, zeros, push_le32, push_le64, push_zeros, push_all};
use crate::reader::{reader_data, reader_pos, reader_is_little_endian, little_endian_reader, read_u32_at, read_u64_at, read_bytes_at};
use crate::text::{replaced, lossy_decoded, decode_lossy, replace, nuls, nul_free, lemma_decode_padded, lemma_strip_nuls};
use crate::bytes::{lemma_le32_roundtrip, lemma_le64_roundtrip};
use binary_reader::BinaryReader;

verus! {

/// The MD5 digest of a byte sequence, as the `md5` crate computes it.
pub uninterp spec fn md5_digest(data: Seq<u8>) -> Seq<u8>;

/// `md5::compute`: the 16 bytes of the MD5 digest of `data`.
#[verifier::external_body]
fn md5_of(data: &[u8]) -> (r: [u8; 16])
    ensures
        r@ == md5_digest(data@),
{
    md5::compute(data).0
}

/// One resource of an archive: its path, where it was read from, its bytes
/// and their MD5 digest.
#[derive(Debug)]
pub struct PckFile {
    path: String,
    offset: u64,
    content: Vec<u8>,
    md5: [u8; 16],
}

/// An archive: the engine version it was packed for, and its resources in order.
#[derive(Debug)]
pub struct PCK {
    version: u8,
    major_version: u8,
    minor_version: u8,
    patch_version: u8,
    files: Vec<PckFile>,
}

/// What a `PckFile` holds.
pub struct PckFileView {
    pub path: Seq<char>,
    pub offset: u64,
    pub content: Seq<u8>,
    pub md5: Seq<u8>,
}

/// What a `PCK` holds.
pub struct PckView {
    pub version: u8,
    pub major_version: u8,
    pub minor_version: u8,
    pub patch_version: u8,
    pub files: Seq<PckFileView>,
}

impl View for PckFile {
    type V = PckFileView;

    closed spec fn view(&self) -> PckFileView {
        PckFileView {
            path: self.path@,
            offset: self.offset,
            content: self.content@,
            md5: self.md5@,
        }
    }
}

/// The views of a sequence of files.
pub open spec fn files_view(files: Seq<PckFile>) -> Seq<PckFileView> {
    files.map_values(|f: PckFile| f@)
}

impl View for PCK {
    type V = PckView;

    closed spec fn view(&self) -> PckView {
        PckView {
            version: self.version,
            major_version: self.major_version,
            minor_version: self.minor_version,
            patch_version: self.patch_version,
            files: files_view(self.files@),
        }
    }
}

/// The index of the first file at or after `i` whose path is `path`.
pub open spec fn path_index_from(files: Seq<PckFileView>, path: Seq<char>, i: int) -> Option<int>
    decreases files.len() - i,
{
    if i < 0 || i >= files.len() {
        None
    } else if files[i].path == path {
        Some(i)
    } else {
        path_index_from(files, path, i + 1)
    }
}

/// The index of the first file whose path is `path`.
pub open spec fn path_index(files: Seq<PckFileView>, path: Seq<char>) -> Option<int> {
    path_index_from(files, path, 0)
}

/// `path_index` finds the first file with the path, and only misses where there is none.
pub proof fn lemma_path_index(files: Seq<PckFileView>, path: Seq<char>, i: int)
    requires
        0 <= i <= files.len(),
    ensures
        path_index_from(files, path, i) matches Some(k) ==> i <= k < files.len() && files[k].path
            == path && forall|j: int| i <= j < k ==> files[j].path != path,
        path_index_from(files, path, i) is None ==> forall|j: int|
            i <= j < files.len() ==> files[j].path != path,
    decreases files.len() - i,
{
    if i < files.len() {
        lemma_path_index(files, path, i + 1);
    }
}

/// Holds of the files whose path is not `path`.
pub open spec fn other_path(path: Seq<char>) -> spec_fn(PckFileView) -> bool {
    |f: PckFileView| f.path != path
}

/// The UTF-8 bytes of a file's path.
pub open spec fn path_bytes(f: PckFileView) -> Seq<u8> {
    encode_utf8(f.path)
}

/// The room a path of `n` bytes takes in the file table: at least one NUL
/// after it, up to the next multiple of four.
pub open spec fn padded_path_len(n: int) -> int {
    n + (4 - n % 4)
}

/// `n` rounded up to a multiple of 16.
pub open spec fn padded_len16(n: int) -> int {
    if n % 16 == 0 {
        n
    } else {
        n + (16 - n % 16)
    }
}

/// The room a file's entry takes in the file table.
pub open spec fn entry_len(f: PckFileView) -> int {
    4 + padded_path_len(path_bytes(f).len() as int) + 8 + 8 + 16
}

/// The length of the file table.
pub open spec fn index_len(files: Seq<PckFileView>) -> int
    decreases files.len(),
{
    if files.len() == 0 {
        0
    } else {
        index_len(files.drop_last()) + entry_len(files.last())
    }
}

/// The room the files' bytes take, each padded to a multiple of 16.
pub open spec fn data_len(files: Seq<PckFileView>) -> int
    decreases files.len(),
{
    if files.len() == 0 {
        0
    } else {
        data_len(files.drop_last()) + padded_len16(files.last().content.len() as int)
    }
}

/// The bytes that open an archive.
pub open spec fn magic() -> Seq<u8> {
    seq![0x47u8, 0x44u8, 0x50u8, 0x43u8]
}

/// Size of the header: magic, four version numbers, 64 reserved bytes and the file count.
pub open spec fn header_len() -> int {
    88
}

/// The header of an archive.
pub open spec fn header_bytes(p: PckView) -> Seq<u8> {
    magic() + le32_bytes(p.version as u32) + le32_bytes(p.major_version as u32) + le32_bytes(
        p.minor_version as u32,
    ) + le32_bytes(p.patch_version as u32) + zeros(64) + le32_bytes(p.files.len() as u32)
}

/// Where the file table ends.
pub open spec fn index_end(p: PckView) -> int {
    header_len() + index_len(p.files)
}

/// Where the files' bytes start: the end of the table, rounded up to 16.
pub open spec fn data_start(p: PckView) -> int {
    padded_len16(index_end(p))
}

/// The length of the whole archive.
pub open spec fn pck_len(p: PckView) -> int {
    data_start(p) + data_len(p.files)
}

/// The table entry of a file whose bytes start at `offset`: the padded path
/// length, the path and its NUL padding, the offset, the padded size, the digest.
pub open spec fn entry_bytes(f: PckFileView, offset: int) -> Seq<u8> {
    let n = path_bytes(f).len() as int;
    le32_bytes(padded_path_len(n) as u32) + path_bytes(f) + zeros((padded_path_len(n) - n) as nat)
        + le64_bytes(offset as u64) + le64_bytes(padded_len16(f.content.len() as int) as u64)
        + f.md5
}

/// The file table, the files' bytes starting at `start`.
pub open spec fn index_bytes(files: Seq<PckFileView>, start: int) -> Seq<u8>
    decreases files.len(),
{
    if files.len() == 0 {
        seq![]
    } else {
        index_bytes(files.drop_last(), start) + entry_bytes(
            files.last(),
            start + data_len(files.drop_last()),
        )
    }
}

/// The files' bytes, each padded with zeros to a multiple of 16.
pub open spec fn data_bytes(files: Seq<PckFileView>) -> Seq<u8>
    decreases files.len(),
{
    if files.len() == 0 {
        seq![]
    } else {
        data_bytes(files.drop_last()) + files.last().content + zeros(
            (padded_len16(files.last().content.len() as int) - files.last().content.len()) as nat,
        )
    }
}

/// An archive written out: header, file table, zeros up to a multiple of 16,
/// then the files' bytes.
pub open spec fn pck_bytes(p: PckView) -> Seq<u8> {
    header_bytes(p) + index_bytes(p.files, data_start(p)) + zeros(
        (data_start(p) - index_end(p)) as nat,
    ) + data_bytes(p.files)
}

/// Every digest has 16 bytes, as the digests of real files do.
pub open spec fn digests_well_formed(files: Seq<PckFileView>) -> bool {
    forall|i: int| 0 <= i < files.len() ==> #[trigger] files[i].md5.len() == 16
}

proof fn lemma_padding_bounds(n: int)
    requires
        0 <= n,
    ensures
        n < padded_path_len(n) <= n + 4,
        n <= padded_len16(n) < n + 16,
        padded_len16(n) % 16 == 0,
{
}

/// The table and data lengths grow with the files taken.
proof fn lemma_lens_monotone(files: Seq<PckFileView>, i: int, j: int)
    requires
        0 <= i <= j <= files.len(),
    ensures
        0 <= index_len(files.take(i)) <= index_len(files.take(j)),
        0 <= data_len(files.take(i)) <= data_len(files.take(j)),
    decreases j - i,
{
    if i < j {
        lemma_lens_monotone(files, i, j - 1);
        assert(files.take(j).drop_last() =~= files.take(j - 1));
        lemma_padding_bounds(path_bytes(files[j - 1]).len() as int);
        lemma_padding_bounds(files[j - 1].content.len() as int);
    } else {
        lemma_lens_nonneg(files.take(i));
    }
}

proof fn lemma_lens_nonneg(files: Seq<PckFileView>)
    ensures
        0 <= index_len(files),
        0 <= data_len(files),
    decreases files.len(),
{
    if files.len() > 0 {
        lemma_lens_nonneg(files.drop_last());
        lemma_padding_bounds(path_bytes(files.last()).len() as int);
        lemma_padding_bounds(files.last().content.len() as int);
    }
}

/// The table has the length `index_len` counts.
proof fn lemma_index_bytes_len(files: Seq<PckFileView>, start: int)
    requires
        digests_well_formed(files),
    ensures
        index_bytes(files, start).len() == index_len(files),
    decreases files.len(),
{
    if files.len() > 0 {
        let init = files.drop_last();
        assert(digests_well_formed(init)) by {
            assert forall|i: int| 0 <= i < init.len() implies #[trigger] init[i].md5.len() == 16 by {
                assert(init[i] == files[i]);
            }
        }
        assert(files.last().md5.len() == 16) by {
            assert(files[files.len() - 1].md5.len() == 16);
        }
        lemma_index_bytes_len(init, start);
        lemma_padding_bounds(path_bytes(files.last()).len() as int);
    }
}

/// The data block has the length `data_len` counts.
proof fn lemma_data_bytes_len(files: Seq<PckFileView>)
    ensures
        data_bytes(files).len() == data_len(files),
    decreases files.len(),
{
    if files.len() > 0 {
        lemma_data_bytes_len(files.drop_last());
        lemma_padding_bounds(files.last().content.len() as int);
    }
}

/// Appends a file's bytes and the zeros that pad them to a multiple of 16;
/// returns the padded length.
fn push_padded_content(out: &mut Vec<u8>, file: &PckFile) -> (n: usize)
    requires
        padded_len16(file@.content.len() as int) <= usize::MAX,
    ensures
        n == padded_len16(file@.content.len() as int),
        final(out)@ == old(out)@ + file@.content + zeros(
            (padded_len16(file@.content.len() as int) - file@.content.len()) as nat,
        ),
{
    push_all(out, file.content.as_slice());
    let mut padded_content_len = file.content.len();
    if padded_content_len % 16 != 0 {
        padded_content_len = padded_content_len + (16 - padded_content_len % 16);
    }
    push_zeros(out, padded_content_len - file.content.len());
    padded_content_len
}

/// Appends a file's table entry, its bytes starting at `offset`.
fn push_entry(out: &mut Vec<u8>, file: &PckFile, offset: usize)
    requires
        padded_path_len(path_bytes(file@).len() as int) <= usize::MAX,
        padded_len16(file@.content.len() as int) <= usize::MAX,
    ensures
        final(out)@ == old(out)@ + entry_bytes(file@, offset as int),
{
    let path_bytes = file.path.as_str().as_bytes();
    let padded_length = path_bytes.len() + (4 - path_bytes.len() % 4);
    push_le32(out, padded_length as u32);
    push_all(out, path_bytes);
    push_zeros(out, padded_length - path_bytes.len());
    push_le64(out, offset as u64);
    let mut padded_content_len = file.content.len();
    if padded_content_len % 16 != 0 {
        padded_content_len = padded_content_len + (16 - padded_content_len % 16);
    }
    push_le64(out, padded_content_len as u64);
    push_all(out, file.md5.as_slice());
    assert(final(out)@ =~= old(out)@ + entry_bytes(file@, offset as int));
}

/// Whether 16-byte chunk `k` of `b` starts with the magic.
pub open spec fn chunk_has_magic(b: Seq<u8>, k: int) -> bool {
    16 * k + 4 <= b.len() && b.subrange(16 * k, 16 * k + 4) == magic()
}

/// The first chunk at or after chunk `k` that starts with the magic.
pub open spec fn magic_chunk_from(b: Seq<u8>, k: int) -> Option<int>
    decreases b.len() + 16 - 16 * k,
{
    if k < 0 || 16 * k >= b.len() {
        None
    } else if chunk_has_magic(b, k) {
        Some(k)
    } else {
        magic_chunk_from(b, k + 1)
    }
}

/// The first 16-byte chunk of `b` that starts with the magic: where the archive begins.
pub open spec fn magic_chunk(b: Seq<u8>) -> Option<int> {
    magic_chunk_from(b, 0)
}

/// The `u32` stored at `p`.
pub open spec fn u32_at(t: Seq<u8>, p: int) -> u32 {
    le32_value(t.subrange(p, p + 4))
}

/// The `u64` stored at `p`.
pub open spec fn u64_at(t: Seq<u8>, p: int) -> u64 {
    le64_value(t.subrange(p, p + 8))
}

/// The path length stored in the table entry at `p`.
pub open spec fn entry_path_len(t: Seq<u8>, p: int) -> int {
    u32_at(t, p) as int
}

/// Where the table entry after the one at `p` starts.
pub open spec fn entry_next(t: Seq<u8>, p: int) -> int {
    p + 4 + entry_path_len(t, p) + 32
}

/// Whether a whole table entry can be read at `p`.
pub open spec fn entry_fits(t: Seq<u8>, p: int) -> bool {
    0 <= p && p + 4 <= t.len() && entry_next(t, p) <= t.len()
}

/// What `iter().skip(offset).take(size)` yields of `b`.
pub open spec fn window(b: Seq<u8>, offset: int, size: int) -> Seq<u8> {
    let start = if offset < b.len() { offset } else { b.len() as int };
    let end = if size < b.len() - start { start + size } else { b.len() as int };
    b.subrange(start, end)
}

/// The file described by the table entry at `p` of `t`, its bytes taken from `file_bytes`.
pub open spec fn entry_at(t: Seq<u8>, p: int, file_bytes: Seq<u8>) -> PckFileView {
    let q = p + 4 + entry_path_len(t, p);
    PckFileView {
        path: replaced(lossy_decoded(t.subrange(p + 4, q)), seq!['\0'], seq![]),
        offset: u64_at(t, q),
        content: window(file_bytes, (u64_at(t, q) as usize) as int, (u64_at(t, q + 8) as usize) as int),
        md5: t.subrange(q + 16, q + 32),
    }
}

/// Whether `count` table entries can be read one after the other from `p`.
pub open spec fn entries_fit(t: Seq<u8>, p: int, count: nat) -> bool
    decreases count,
{
    count == 0 || (entry_fits(t, p) && entries_fit(t, entry_next(t, p), (count - 1) as nat))
}

/// The `count` files whose table entries start at `p`.
pub open spec fn entries_at(t: Seq<u8>, p: int, count: nat, file_bytes: Seq<u8>) -> Seq<PckFileView>
    decreases count,
{
    if count == 0 {
        seq![]
    } else {
        seq![entry_at(t, p, file_bytes)] + entries_at(t, entry_next(t, p), (count - 1) as nat, file_bytes)
    }
}

/// Whether the archive that starts at `t` has a whole header and file table.
pub open spec fn table_fits(t: Seq<u8>) -> bool {
    t.len() >= header_len() && entries_fit(t, header_len(), u32_at(t, 84) as nat)
}

/// The archive read from `t`, its files' bytes taken from `file_bytes`.
pub open spec fn archive_at(t: Seq<u8>, file_bytes: Seq<u8>) -> PckView {
    PckView {
        version: u32_at(t, 4) as u8,
        major_version: u32_at(t, 8) as u8,
        minor_version: u32_at(t, 12) as u8,
        patch_version: u32_at(t, 16) as u8,
        files: entries_at(t, header_len(), u32_at(t, 84) as nat, file_bytes),
    }
}

/// Whether `b` can be read without running off its end: it holds no magic, or
/// the archive from the first magic chunk on has its whole header and table.
pub open spec fn pck_readable(b: Seq<u8>) -> bool {
    match magic_chunk(b) {
        None => true,
        Some(k) => table_fits(b.skip(16 * k)),
    }
}

/// The archive that `b` holds, from its first magic chunk on.
pub open spec fn pck_read(b: Seq<u8>) -> Option<PckView> {
    match magic_chunk(b) {
        None => None,
        Some(k) => Some(archive_at(b.skip(16 * k), b)),
    }
}

/// Copies `b[start..]`.
fn copy_from(b: &[u8], start: usize) -> (r: Vec<u8>)
    requires
        start <= b@.len(),
    ensures
        r@ == b@.skip(start as int),
{
    let mut out: Vec<u8> = Vec::new();
    let mut k: usize = start;
    while k < b.len()
        invariant
            start <= k <= b@.len(),
            out@ == b@.subrange(start as int, k as int),
        decreases b@.len() - k,
    {
        out.push(b[k]);
        k = k + 1;
        assert(out@ =~= b@.subrange(start as int, k as int));
    }
    assert(out@ =~= b@.skip(start as int));
    out
}

/// Copies what `iter().skip(offset).take(size)` yields of `b`.
fn copy_window(b: &[u8], offset: usize, size: usize) -> (r: Vec<u8>)
    ensures
        r@ == window(b@, offset as int, size as int),
{
    let start = if offset < b.len() { offset } else { b.len() };
    let end = if size < b.len() - start { start + size } else { b.len() };
    let mut out: Vec<u8> = Vec::new();
    let mut k: usize = start;
    while k < end
        invariant
            start <= k <= end <= b@.len(),
            out@ == b@.subrange(start as int, k as int),
        decreases end - k,
    {
        out.push(b[k]);
        k = k + 1;
        assert(out@ =~= b@.subrange(start as int, k as int));
    }
    out
}

/// The index of the first 16-byte chunk of `bytes` that starts with the magic.
fn find_magic_chunk(bytes: &[u8]) -> (r: Option<usize>)
    ensures
        match magic_chunk(bytes@) {
            None => r is None,
            Some(k) => r matches Some(j) && j as int == k && 16 * k < bytes@.len(),
        },
{
    let mut k: usize = 0;
    while k < bytes.len() / 16 + 1
        invariant
            16 * k <= bytes@.len() + 16,
            magic_chunk_from(bytes@, k as int) == magic_chunk(bytes@),
        decreases bytes@.len() + 16 - 16 * k,
    {
        let start = k * 16;
        if start >= bytes.len() {
            return None;
        }
        if bytes.len() - start >= 4 && bytes[start] == 0x47u8 && bytes[start + 1] == 0x44u8
            && bytes[start + 2] == 0x50u8 && bytes[start + 3] == 0x43u8 {
            assert(bytes@.subrange(16 * k, 16 * k + 4) =~= magic());
            return Some(k);
        }
        assert(!chunk_has_magic(bytes@, k as int)) by {
            if 16 * k + 4 <= bytes@.len() && bytes@.subrange(16 * k, 16 * k + 4) == magic() {
                assert(bytes@.subrange(16 * k, 16 * k + 4)[0] == bytes@[16 * k]);
                assert(bytes@.subrange(16 * k, 16 * k + 4)[1] == bytes@[16 * k + 1]);
                assert(bytes@.subrange(16 * k, 16 * k + 4)[2] == bytes@[16 * k + 2]);
                assert(bytes@.subrange(16 * k, 16 * k + 4)[3] == bytes@[16 * k + 3]);
            }
        }
        k = k + 1;
    }
    None
}

/// The table written for `files` starts with the table written for any prefix of them.
proof fn lemma_index_prefix(files: Seq<PckFileView>, start: int, j: int)
    requires
        0 <= j <= files.len(),
        digests_well_formed(files),
    ensures
        index_bytes(files, start).subrange(0, index_len(files.take(j))) == index_bytes(files.take(j), start),
    decreases files.len(),
{
    lemma_index_bytes_len(files, start);
    if j == files.len() {
        assert(files.take(j) =~= files);
        assert(index_bytes(files, start).subrange(0, index_len(files)) =~= index_bytes(files, start));
    } else {
        let init = files.drop_last();
        assert(digests_well_formed(init)) by {
            assert forall|i: int| 0 <= i < init.len() implies #[trigger] init[i].md5.len() == 16 by {
                assert(init[i] == files[i]);
            }
        }
        lemma_index_bytes_len(init, start);
        lemma_lens_monotone(files, j, files.len() - 1);
        assert(files.take(files.len() - 1) =~= init);
        assert(init.take(j) =~= files.take(j));
        lemma_index_prefix(init, start, j);
        assert(index_bytes(files, start).subrange(0, index_len(files.take(j))) =~= index_bytes(init, start).subrange(0, index_len(files.take(j))));
    }
}

/// The data block written for `files` starts with the block written for any prefix of them.
proof fn lemma_data_prefix(files: Seq<PckFileView>, j: int)
    requires
        0 <= j <= files.len(),
    ensures
        data_bytes(files).subrange(0, data_len(files.take(j))) == data_bytes(files.take(j)),
    decreases files.len(),
{
    lemma_data_bytes_len(files);
    if j == files.len() {
        assert(files.take(j) =~= files);
        assert(data_bytes(files).subrange(0, data_len(files)) =~= data_bytes(files));
    } else {
        let init = files.drop_last();
        lemma_data_bytes_len(init);
        lemma_lens_monotone(files, j, files.len() - 1);
        assert(files.take(files.len() - 1) =~= init);
        assert(init.take(j) =~= files.take(j));
        lemma_data_prefix(init, j);
        assert(data_bytes(files).subrange(0, data_len(files.take(j))) =~= data_bytes(init).subrange(0, data_len(files.take(j))));
    }
}

/// Where file `i`'s table entry starts in a written archive.
pub open spec fn entry_pos(files: Seq<PckFileView>, i: int) -> int {
    header_len() + index_len(files.take(i))
}

/// Where file `i`'s bytes start in a written archive.
pub open spec fn content_pos(p: PckView, i: int) -> int {
    data_start(p) + data_len(p.files.take(i))
}

/// The files that reading back a written archive gives: same paths, digests
/// and order, bytes padded with zeros to a multiple of 16, and the offset
/// where they were written.
pub open spec fn written_files(p: PckView) -> Seq<PckFileView> {
    Seq::new(
        p.files.len(),
        |i: int|
            PckFileView {
                path: p.files[i].path,
                offset: content_pos(p, i) as u64,
                content: p.files[i].content + zeros(
                    (padded_len16(p.files[i].content.len() as int) - p.files[i].content.len()) as nat,
                ),
                md5: p.files[i].md5,
            },
    )
}

/// What a written archive needs for reading it back to give its files back:
/// 16-byte digests, NUL-free paths, and counts and lengths that fit the
/// 32-bit fields and the address space.
pub open spec fn round_trippable(p: PckView) -> bool {
    &&& digests_well_formed(p.files)
    &&& p.files.len() <= u32::MAX
    &&& pck_len(p) <= usize::MAX
    &&& forall|i: int| 0 <= i < p.files.len() ==> nul_free(#[trigger] p.files[i].path)
    &&& forall|i: int|
        0 <= i < p.files.len() ==> padded_path_len(path_bytes(#[trigger] p.files[i]).len() as int)
            <= u32::MAX
}

/// A range inside the second part of a concatenation.
proof fn lemma_subrange_in_second(x: Seq<u8>, y: Seq<u8>, z: Seq<u8>, a: int, b: int)
    requires
        0 <= a <= b <= y.len(),
    ensures
        (x + y + z).subrange(x.len() + a, x.len() + b) == y.subrange(a, b),
{
    assert((x + y + z).subrange(x.len() + a, x.len() + b) =~= y.subrange(a, b));
}

/// A range inside the last part of a concatenation.
proof fn lemma_subrange_in_last(x: Seq<u8>, y: Seq<u8>, a: int, b: int)
    requires
        0 <= a <= b <= y.len(),
    ensures
        (x + y).subrange(x.len() + a, x.len() + b) == y.subrange(a, b),
{
    assert((x + y).subrange(x.len() + a, x.len() + b) =~= y.subrange(a, b));
}

/// A prefix of files keeps 16-byte digests.
proof fn lemma_digests_take(fs: Seq<PckFileView>, i: int)
    requires
        digests_well_formed(fs),
        0 <= i <= fs.len(),
    ensures
        digests_well_formed(fs.take(i)),
{
    assert forall|k: int| 0 <= k < fs.take(i).len() implies #[trigger] fs.take(i)[k].md5.len() == 16 by {
        assert(fs.take(i)[k] == fs[k]);
    }
}

/// In a written archive, file `i`'s table entry stands where the layout puts it.
#[verifier::rlimit(80)]
proof fn lemma_entry_layout(p: PckView, i: int)
    requires
        round_trippable(p),
        0 <= i < p.files.len(),
    ensures
        pck_bytes(p).subrange(entry_pos(p.files, i), entry_pos(p.files, i + 1)) == entry_bytes(
            p.files[i],
            content_pos(p, i),
        ),
        entry_pos(p.files, i + 1) == entry_pos(p.files, i) + entry_len(p.files[i]),
        entry_pos(p.files, i + 1) <= index_end(p),
        pck_bytes(p).len() == pck_len(p),
{
    let fs = p.files;
    let st = data_start(p);
    let ib = index_bytes(fs, st);
    lemma_index_bytes_len(fs, st);
    lemma_data_bytes_len(fs);
    lemma_padding_bounds(index_end(p));
    lemma_lens_monotone(fs, i, i + 1);
    lemma_lens_monotone(fs, i + 1, fs.len() as int);
    assert(fs.take(fs.len() as int) =~= fs);
    assert(fs.take(i + 1).drop_last() =~= fs.take(i));
    assert(fs.take(i + 1).last() == fs[i]);
    lemma_index_prefix(fs, st, i + 1);
    let pre = index_bytes(fs.take(i + 1), st);
    lemma_digests_take(fs, i);
    lemma_digests_take(fs, i + 1);
    lemma_index_bytes_len(fs.take(i + 1), st);
    lemma_index_bytes_len(fs.take(i), st);
    let a = index_len(fs.take(i));
    let b = index_len(fs.take(i + 1));
    let e = entry_bytes(fs[i], content_pos(p, i));
    assert(pre == index_bytes(fs.take(i), st) + e);
    lemma_subrange_in_last(index_bytes(fs.take(i), st), e, 0, e.len() as int);
    assert(e.subrange(0, e.len() as int) =~= e);
    assert(pre.subrange(a, b) == e);
    assert(ib.subrange(a, b) =~= pre.subrange(a, b));
    let z = zeros((data_start(p) - index_end(p)) as nat);
    lemma_subrange_in_second(header_bytes(p), ib, z + data_bytes(fs), a, b);
    assert(pck_bytes(p) =~= header_bytes(p) + ib + (z + data_bytes(fs)));
}

/// In a written archive, file `i`'s bytes stand where the layout puts them.
proof fn lemma_content_layout(p: PckView, i: int)
    requires
        round_trippable(p),
        0 <= i < p.files.len(),
    ensures
        pck_bytes(p).subrange(content_pos(p, i), content_pos(p, i + 1)) == p.files[i].content
            + zeros(
            (padded_len16(p.files[i].content.len() as int) - p.files[i].content.len()) as nat,
        ),
        content_pos(p, i + 1) == content_pos(p, i) + padded_len16(p.files[i].content.len() as int),
        content_pos(p, i + 1) <= pck_len(p),
        pck_bytes(p).len() == pck_len(p),
{
    let fs = p.files;
    let st = data_start(p);
    let db = data_bytes(fs);
    lemma_index_bytes_len(fs, st);
    lemma_data_bytes_len(fs);
    lemma_padding_bounds(index_end(p));
    lemma_lens_monotone(fs, i, i + 1);
    lemma_lens_monotone(fs, i + 1, fs.len() as int);
    assert(fs.take(fs.len() as int) =~= fs);
    assert(fs.take(i + 1).drop_last() =~= fs.take(i));
    assert(fs.take(i + 1).last() == fs[i]);
    lemma_data_prefix(fs, i + 1);
    let dpre = data_bytes(fs.take(i + 1));
    lemma_data_bytes_len(fs.take(i));
    lemma_data_bytes_len(fs.take(i + 1));
    lemma_padding_bounds(fs[i].content.len() as int);
    let a = data_len(fs.take(i));
    let b = data_len(fs.take(i + 1));
    assert(dpre.subrange(a, b) =~= fs[i].content + zeros(
        (padded_len16(fs[i].content.len() as int) - fs[i].content.len()) as nat));
    assert(db.subrange(a, b) =~= dpre.subrange(a, b));
    let front = header_bytes(p) + index_bytes(fs, st) + zeros((data_start(p) - index_end(p)) as nat);
    assert(front.len() == data_start(p));
    lemma_subrange_in_last(front, db, a, b);
}

/// The fields read from bytes that hold a written table entry.
proof fn lemma_entry_fields(sb: Seq<u8>, pos: int, f: PckFileView, off: int)
    requires
        0 <= pos,
        pos + entry_len(f) <= sb.len(),
        sb.subrange(pos, pos + entry_len(f)) == entry_bytes(f, off),
        f.md5.len() == 16,
        nul_free(f.path),
        padded_path_len(path_bytes(f).len() as int) <= u32::MAX,
        0 <= off <= u64::MAX,
        padded_len16(f.content.len() as int) <= u64::MAX,
    ensures
        entry_path_len(sb, pos) == padded_path_len(path_bytes(f).len() as int),
        entry_fits(sb, pos),
        entry_next(sb, pos) == pos + entry_len(f),
        replaced(lossy_decoded(sb.subrange(pos + 4, pos + 4 + entry_path_len(sb, pos))), seq!['\0'], seq![]) == f.path,
        u64_at(sb, pos + 4 + entry_path_len(sb, pos)) == off,
        u64_at(sb, pos + 4 + entry_path_len(sb, pos) + 8) == padded_len16(f.content.len() as int),
        sb.subrange(pos + 4 + entry_path_len(sb, pos) + 16, pos + 4 + entry_path_len(sb, pos) + 32) == f.md5,
{
    let n = path_bytes(f).len() as int;
    let ppl = padded_path_len(n);
    let pcl = padded_len16(f.content.len() as int);
    lemma_padding_bounds(n);
    let e = entry_bytes(f, off);
    assert(e.len() == entry_len(f));
    assert(sb.subrange(pos, pos + 4) =~= e.subrange(0, 4));
    assert(e.subrange(0, 4) =~= le32_bytes(ppl as u32));
    lemma_le32_roundtrip(ppl as u32);
    let q = pos + 4 + ppl;
    assert(sb.subrange(pos + 4, q) =~= e.subrange(4, 4 + ppl));
    assert(e.subrange(4, 4 + ppl) =~= path_bytes(f) + zeros((ppl - n) as nat));
    lemma_decode_padded(f.path, (ppl - n) as nat);
    assert(zeros((ppl - n) as nat) =~= Seq::new((ppl - n) as nat, |k: int| 0u8));
    lemma_strip_nuls(f.path, (ppl - n) as nat);
    assert(sb.subrange(q, q + 8) =~= e.subrange(4 + ppl, 12 + ppl));
    assert(e.subrange(4 + ppl, 12 + ppl) =~= le64_bytes(off as u64));
    lemma_le64_roundtrip(off as u64);
    assert(sb.subrange(q + 8, q + 16) =~= e.subrange(12 + ppl, 20 + ppl));
    assert(e.subrange(12 + ppl, 20 + ppl) =~= le64_bytes(pcl as u64));
    lemma_le64_roundtrip(pcl as u64);
    assert(sb.subrange(q + 16, q + 32) =~= e.subrange(20 + ppl, 36 + ppl));
    assert(e.subrange(20 + ppl, 36 + ppl) =~= f.md5);
}

/// File `i` of a written archive as a reader that takes the files' bytes from
/// `b` gives it: its path, digest and stored offset, and the bytes of `b`
/// at that offset, as many as the padded file has.
pub open spec fn file_read_over(p: PckView, i: int, b: Seq<u8>) -> PckFileView {
    PckFileView {
        path: p.files[i].path,
        offset: content_pos(p, i) as u64,
        content: window(b, content_pos(p, i), padded_len16(p.files[i].content.len() as int)),
        md5: p.files[i].md5,
    }
}

/// The files of a written archive, their bytes taken from `b` (`file_read_over`).
pub open spec fn files_read_over(p: PckView, b: Seq<u8>) -> Seq<PckFileView> {
    Seq::new(p.files.len(), |i: int| file_read_over(p, i, b))
}

/// Reading the table entry of file `i` of a written archive gives it back as
/// `written_files` describes it.
proof fn lemma_read_entry(p: PckView, i: int)
    requires
        round_trippable(p),
        0 <= i < p.files.len(),
    ensures
        entry_fits(pck_bytes(p), entry_pos(p.files, i)),
        entry_next(pck_bytes(p), entry_pos(p.files, i)) == entry_pos(p.files, i + 1),
        entry_at(pck_bytes(p), entry_pos(p.files, i), pck_bytes(p)) == written_files(p)[i],
        forall|fb: Seq<u8>| #[trigger] entry_at(pck_bytes(p), entry_pos(p.files, i), fb) == file_read_over(p, i, fb),
{
    let fs = p.files;
    let f = fs[i];
    let sb = pck_bytes(p);
    let pos = entry_pos(fs, i);
    let off = content_pos(p, i);
    lemma_entry_layout(p, i);
    lemma_content_layout(p, i);
    lemma_lens_nonneg(fs.take(i));
    lemma_padding_bounds(index_end(p));
    lemma_padding_bounds(f.content.len() as int);
    lemma_lens_nonneg(fs);
    assert(f.md5.len() == 16);
    assert(nul_free(f.path));
    assert(padded_path_len(path_bytes(f).len() as int) <= u32::MAX);
    lemma_entry_fields(sb, pos, f, off);
    let pcl = padded_len16(f.content.len() as int);
    let q = pos + 4 + entry_path_len(sb, pos);
    assert(window(sb, (u64_at(sb, q) as usize) as int, (u64_at(sb, q + 8) as usize) as int)
        == sb.subrange(off, off + pcl));
    assert(entry_at(sb, pos, sb) =~= written_files(p)[i]);
    assert forall|fb: Seq<u8>| #[trigger] entry_at(sb, pos, fb) == file_read_over(p, i, fb) by {
        assert(entry_at(sb, pos, fb) =~= file_read_over(p, i, fb));
    }
}

/// Reading the table of a written archive from entry `i` on gives back its
/// files from `i` on.
proof fn lemma_read_entries(p: PckView, i: int)
    requires
        round_trippable(p),
        0 <= i <= p.files.len(),
    ensures
        entries_fit(pck_bytes(p), entry_pos(p.files, i), (p.files.len() - i) as nat),
        entries_at(pck_bytes(p), entry_pos(p.files, i), (p.files.len() - i) as nat, pck_bytes(p))
            == written_files(p).skip(i),
    decreases p.files.len() - i,
{
    if i == p.files.len() {
        assert(written_files(p).skip(i) =~= Seq::<PckFileView>::empty());
    } else {
        lemma_read_entry(p, i);
        lemma_read_entries(p, i + 1);
        assert(((p.files.len() - i) as nat - 1) as nat == (p.files.len() - (i + 1)) as nat);
        assert(written_files(p).skip(i) =~= seq![written_files(p)[i]] + written_files(p).skip(i + 1));
    }
}

/// Reading the table of a written archive from entry `i` on, the files'
/// bytes taken from `b`, gives its files from `i` on as `files_read_over` says.
proof fn lemma_read_entries_over(p: PckView, i: int, b: Seq<u8>)
    requires
        round_trippable(p),
        0 <= i <= p.files.len(),
    ensures
        entries_fit(pck_bytes(p), entry_pos(p.files, i), (p.files.len() - i) as nat),
        entries_at(pck_bytes(p), entry_pos(p.files, i), (p.files.len() - i) as nat, b)
            == files_read_over(p, b).skip(i),
    decreases p.files.len() - i,
{
    if i == p.files.len() {
        assert(files_read_over(p, b).skip(i) =~= Seq::<PckFileView>::empty());
    } else {
        lemma_read_entry(p, i);
        lemma_read_entries_over(p, i + 1, b);
        assert(((p.files.len() - i) as nat - 1) as nat == (p.files.len() - (i + 1)) as nat);
        assert(files_read_over(p, b).skip(i) =~= seq![files_read_over(p, b)[i]] + files_read_over(p, b).skip(i + 1));
    }
}

/// The first magic chunk at or after `k` is `m` where chunks `k` to `m - 1`
/// lack the magic and chunk `m` has it.
proof fn lemma_magic_at(b: Seq<u8>, k: int, m: int)
    requires
        0 <= k <= m,
        16 * m < b.len(),
        chunk_has_magic(b, m),
        forall|j: int| k <= j < m ==> !chunk_has_magic(b, j),
    ensures
        magic_chunk_from(b, k) == Some(m),
    decreases m - k,
{
    if k < m {
        lemma_magic_at(b, k + 1, m);
    }
}

/// The header of a written archive: the magic first, then the version
/// numbers and the file count where a reader looks for them.
proof fn lemma_written_header(p: PckView)
    requires
        round_trippable(p),
    ensures
        pck_bytes(p).len() >= header_len(),
        pck_bytes(p).subrange(0, 4) == magic(),
        u32_at(pck_bytes(p), 4) as u8 == p.version,
        u32_at(pck_bytes(p), 8) as u8 == p.major_version,
        u32_at(pck_bytes(p), 12) as u8 == p.minor_version,
        u32_at(pck_bytes(p), 16) as u8 == p.patch_version,
        u32_at(pck_bytes(p), 84) as nat == p.files.len(),
{
    let sb = pck_bytes(p);
    let fs = p.files;
    lemma_index_bytes_len(fs, data_start(p));
    lemma_data_bytes_len(fs);
    lemma_lens_nonneg(fs);
    lemma_padding_bounds(index_end(p));
    let h = header_bytes(p);
    assert(h.len() == 88);
    assert(sb.subrange(0, 88) =~= h);
    assert(sb.subrange(0, 4) =~= magic());
    assert(sb.subrange(4, 8) =~= le32_bytes(p.version as u32));
    assert(sb.subrange(8, 12) =~= le32_bytes(p.major_version as u32));
    assert(sb.subrange(12, 16) =~= le32_bytes(p.minor_version as u32));
    assert(sb.subrange(16, 20) =~= le32_bytes(p.patch_version as u32));
    assert(sb.subrange(84, 88) =~= le32_bytes(fs.len() as u32));
    lemma_le32_roundtrip(p.version as u32);
    lemma_le32_roundtrip(p.major_version as u32);
    lemma_le32_roundtrip(p.minor_version as u32);
    lemma_le32_roundtrip(p.patch_version as u32);
    lemma_le32_roundtrip(fs.len() as u32);
}

/// Bytes that start with the magic, after a prefix of whole chunks none of
/// which starts with it, are found where the prefix ends.
proof fn lemma_magic_after_prefix(prefix: Seq<u8>, t: Seq<u8>)
    requires
        prefix.len() % 16 == 0,
        forall|k: int| 0 <= k && 16 * k < prefix.len() ==> !#[trigger] chunk_has_magic(prefix, k),
        t.len() >= 4,
        t.subrange(0, 4) == magic(),
    ensures
        magic_chunk(prefix + t) == Some(prefix.len() as int / 16),
        (prefix + t).skip(prefix.len() as int) == t,
{
    let b = prefix + t;
    let m: int = prefix.len() as int / 16;
    assert(b.subrange(16 * m, 16 * m + 4) =~= t.subrange(0, 4));
    assert forall|j: int| 0 <= j < m implies !chunk_has_magic(b, j) by {
        assert(16 * j + 16 <= prefix.len());
        assert(b.subrange(16 * j, 16 * j + 4) =~= prefix.subrange(16 * j, 16 * j + 4));
        assert(!chunk_has_magic(prefix, j));
    }
    lemma_magic_at(b, 0, m);
    assert(b.skip(prefix.len() as int) =~= t);
}

/// An archive that stands after a prefix of whole 16-byte chunks, none of
/// which starts with the magic, is found where the prefix ends, however long
/// the prefix is (an executable with the archive appended). It reads as the
/// archive alone does (`law_write_then_read`) but for the files' bytes: each
/// file's bytes are taken from the whole input, prefix included, at the
/// file's stored offset, as many as the stored size.
pub proof fn law_read_after_prefix(prefix: Seq<u8>, p: PckView)
    requires
        round_trippable(p),
        prefix.len() % 16 == 0,
        forall|k: int| 0 <= k && 16 * k < prefix.len() ==> !#[trigger] chunk_has_magic(prefix, k),
    ensures
        pck_readable(prefix + pck_bytes(p)),
        pck_read(prefix + pck_bytes(p)) == Some(PckView { files: files_read_over(p, prefix + pck_bytes(p)), ..p }),
{
    let sb = pck_bytes(p);
    let b = prefix + sb;
    let fs = p.files;
    lemma_written_header(p);
    lemma_magic_after_prefix(prefix, sb);
    assert(u32_at(sb, 84) as nat == fs.len());
    assert(fs.take(0) =~= Seq::<PckFileView>::empty());
    assert(entry_pos(fs, 0) == header_len());
    lemma_read_entries_over(p, 0, b);
    assert(files_read_over(p, b).skip(0) =~= files_read_over(p, b));
    assert(archive_at(sb, b) =~= PckView { files: files_read_over(p, b), ..p });
}

/// Writing an archive out and reading it back gives the same version numbers
/// and the same files in the same order, each with its path and digest, its
/// bytes padded with zeros to a multiple of 16, and as offset the place where
/// those bytes were written (`written_files`).
pub proof fn law_write_then_read(p: PckView)
    requires
        round_trippable(p),
    ensures
        pck_readable(pck_bytes(p)),
        pck_read(pck_bytes(p)) == Some(PckView { files: written_files(p), ..p }),
{
    let sb = pck_bytes(p);
    let fs = p.files;
    lemma_index_bytes_len(fs, data_start(p));
    lemma_data_bytes_len(fs);
    lemma_lens_nonneg(fs);
    lemma_padding_bounds(index_end(p));
    let h = header_bytes(p);
    assert(h.len() == 88);
    assert(sb.subrange(0, 88) =~= h);
    assert(sb.subrange(0, 4) =~= magic());
    assert(chunk_has_magic(sb, 0));
    assert(magic_chunk(sb) == Some(0int));
    assert(sb.skip(0) =~= sb);
    assert(sb.subrange(4, 8) =~= le32_bytes(p.version as u32));
    assert(sb.subrange(8, 12) =~= le32_bytes(p.major_version as u32));
    assert(sb.subrange(12, 16) =~= le32_bytes(p.minor_version as u32));
    assert(sb.subrange(16, 20) =~= le32_bytes(p.patch_version as u32));
    assert(sb.subrange(84, 88) =~= le32_bytes(fs.len() as u32));
    lemma_le32_roundtrip(p.version as u32);
    lemma_le32_roundtrip(p.major_version as u32);
    lemma_le32_roundtrip(p.minor_version as u32);
    lemma_le32_roundtrip(p.patch_version as u32);
    lemma_le32_roundtrip(fs.len() as u32);
    assert(u32_at(sb, 84) as nat == fs.len());
    assert(fs.take(0) =~= Seq::<PckFileView>::empty());
    assert(entry_pos(fs, 0) == header_len());
    lemma_read_entries(p, 0);
    assert(written_files(p).skip(0) =~= written_files(p));
    assert(archive_at(sb, sb) =~= PckView { files: written_files(p), ..p });
}

/// Two files that a writer lays out the same way: same path, same digest,
/// same bytes once padded to a multiple of 16.
pub open spec fn same_layout(f: PckFileView, g: PckFileView) -> bool {
    &&& f.path == g.path
    &&& f.md5 == g.md5
    &&& padded_len16(f.content.len() as int) == padded_len16(g.content.len() as int)
    &&& f.content + zeros((padded_len16(f.content.len() as int) - f.content.len()) as nat) == g.content
        + zeros((padded_len16(g.content.len() as int) - g.content.len()) as nat)
}

/// Files laid out the same way give the same table and data block.
proof fn lemma_same_layout(fs: Seq<PckFileView>, gs: Seq<PckFileView>, start: int)
    requires
        fs.len() == gs.len(),
        forall|i: int| 0 <= i < fs.len() ==> same_layout(#[trigger] fs[i], gs[i]),
    ensures
        index_len(fs) == index_len(gs),
        data_len(fs) == data_len(gs),
        index_bytes(fs, start) == index_bytes(gs, start),
        data_bytes(fs) == data_bytes(gs),
    decreases fs.len(),
{
    if fs.len() > 0 {
        let fi = fs.drop_last();
        let gi = gs.drop_last();
        assert forall|i: int| 0 <= i < fi.len() implies same_layout(#[trigger] fi[i], gi[i]) by {
            assert(fi[i] == fs[i] && gi[i] == gs[i]);
            assert(same_layout(fs[i], gs[i]));
        }
        lemma_same_layout(fi, gi, start);
        assert(same_layout(fs[fs.len() - 1], gs[gs.len() - 1]));
        assert(entry_bytes(fs.last(), start + data_len(fi)) == entry_bytes(gs.last(), start + data_len(gi)));
        let f = fs.last();
        let g = gs.last();
        assert(data_bytes(fs) =~= data_bytes(fi) + (f.content + zeros(
            (padded_len16(f.content.len() as int) - f.content.len()) as nat)));
        assert(data_bytes(gs) =~= data_bytes(gi) + (g.content + zeros(
            (padded_len16(g.content.len() as int) - g.content.len()) as nat)));
    }
}

/// Saving the archive that reading a saved archive gives produces the same bytes again.
pub proof fn law_resave_reproduces_bytes(p: PckView)
    requires
        round_trippable(p),
    ensures
        pck_bytes(PckView { files: written_files(p), ..p }) == pck_bytes(p),
{
    let q = PckView { files: written_files(p), ..p };
    let fs = p.files;
    let gs = q.files;
    assert forall|i: int| 0 <= i < fs.len() implies same_layout(#[trigger] fs[i], gs[i]) by {
        let n = fs[i].content.len() as int;
        lemma_padding_bounds(n);
        let m = padded_len16(n);
        assert(gs[i].content.len() == m);
        assert(padded_len16(m) == m);
        assert(gs[i].content + zeros(0) =~= gs[i].content);
    }
    lemma_same_layout(fs, gs, data_start(p));
    assert(data_start(q) == data_start(p));
    assert(header_bytes(q) == header_bytes(p));
}

/// The offsets stored in the files play no part in writing: two archives that
/// differ only in them are written the same.
pub proof fn law_offsets_ignored(p: PckView, q: PckView)
    requires
        p.version == q.version,
        p.major_version == q.major_version,
        p.minor_version == q.minor_version,
        p.patch_version == q.patch_version,
        p.files.len() == q.files.len(),
        forall|i: int|
            0 <= i < p.files.len() ==> #[trigger] p.files[i].path == q.files[i].path
                && p.files[i].content == q.files[i].content && p.files[i].md5 == q.files[i].md5,
    ensures
        pck_bytes(p) == pck_bytes(q),
{
    assert forall|i: int| 0 <= i < p.files.len() implies same_layout(#[trigger] p.files[i], q.files[i]) by {
        assert(p.files[i].path == q.files[i].path);
    }
    lemma_same_layout(p.files, q.files, data_start(p));
    assert(data_start(q) == data_start(p));
    assert(header_bytes(q) == header_bytes(p));
}

/// Whether no two files have the same path.
pub open spec fn paths_distinct(files: Seq<PckFileView>) -> bool {
    forall|i: int, j: int| 0 <= i < j < files.len() ==> files[i].path != files[j].path
}

/// Whether some file has the path.
pub open spec fn has_path(files: Seq<PckFileView>, path: Seq<char>) -> bool {
    exists|i: int| 0 <= i < files.len() && #[trigger] files[i].path == path
}

/// Dropping the files at a path from files with distinct paths drops at most one.
proof fn lemma_filter_path_len(files: Seq<PckFileView>, path: Seq<char>)
    requires
        paths_distinct(files),
    ensures
        files.filter(other_path(path)).len() == files.len() - if has_path(files, path) { 1int } else { 0int },
    decreases files.len(),
{
    if files.len() > 0 {
        let init = files.drop_last();
        assert(paths_distinct(init)) by {
            assert forall|i: int, j: int| 0 <= i < j < init.len() implies init[i].path != init[j].path by {
                assert(init[i] == files[i] && init[j] == files[j]);
            }
        }
        lemma_filter_path_len(init, path);
        assert(files =~= init.push(files.last()));
        init.lemma_filter_push(files.last(), other_path(path));
        if files.last().path == path {
            assert(!has_path(init, path)) by {
                if has_path(init, path) {
                    let i = choose|i: int| 0 <= i < init.len() && #[trigger] init[i].path == path;
                    assert(files[i].path == files[files.len() - 1].path);
                }
            }
            assert(has_path(files, path)) by {
                assert(files[files.len() - 1].path == path);
            }
        } else {
            assert(has_path(files, path) == has_path(init, path)) by {
                if has_path(files, path) {
                    let i = choose|i: int| 0 <= i < files.len() && #[trigger] files[i].path == path;
                    assert(i < init.len());
                    assert(init[i] == files[i]);
                }
                if has_path(init, path) {
                    let i = choose|i: int| 0 <= i < init.len() && #[trigger] init[i].path == path;
                    assert(init[i] == files[i]);
                }
            }
        }
    } else {
        assert(files.filter(other_path(path)) =~= files) by {
            reveal(Seq::filter);
        }
    }
}

/// Dropping files keeps paths distinct.
proof fn lemma_filter_distinct(files: Seq<PckFileView>, path: Seq<char>)
    requires
        paths_distinct(files),
    ensures
        paths_distinct(files.filter(other_path(path))),
    decreases files.len(),
{
    reveal(Seq::filter);
    if files.len() > 0 {
        let init = files.drop_last();
        assert(paths_distinct(init)) by {
            assert forall|i: int, j: int| 0 <= i < j < init.len() implies init[i].path != init[j].path by {
                assert(init[i] == files[i] && init[j] == files[j]);
            }
        }
        lemma_filter_distinct(init, path);
        let fi = init.filter(other_path(path));
        if other_path(path)(files.last()) {
            assert forall|i: int| 0 <= i < fi.len() implies fi[i].path != files.last().path by {
                assert(fi.contains(fi[i]));
                init.lemma_filter_contains_rev(other_path(path), fi[i]);
                let k = choose|k: int| 0 <= k < init.len() && init[k] == fi[i];
                assert(init[k] == files[k]);
            }
            assert(files.filter(other_path(path)) == fi.push(files.last()));
        }
    }
}

/// `add_file` keeps the paths distinct, leaves exactly one file (the last) at
/// the added path, and grows the archive by one file unless that path was
/// already taken.
pub proof fn law_add_keeps_paths_distinct(files: Seq<PckFileView>, f: PckFileView)
    requires
        paths_distinct(files),
    ensures
        ({
            let after = files.filter(other_path(f.path)).push(f);
            &&& paths_distinct(after)
            &&& after.len() == files.len() + 1 - if has_path(files, f.path) { 1int } else { 0int }
        }),
{
    let kept = files.filter(other_path(f.path));
    let after = kept.push(f);
    lemma_filter_path_len(files, f.path);
    law_add_then_get(files, f);
    assert forall|i: int, j: int| 0 <= i < j < after.len() implies after[i].path != after[j].path by {
        if j < after.len() - 1 {
            assert(after[i] == kept[i] && after[j] == kept[j]);
            lemma_filter_distinct(files, f.path);
        }
    }
}

/// Adding the same file twice leaves the archive as adding it once.
pub proof fn law_add_idempotent(files: Seq<PckFileView>, f: PckFileView)
    ensures
        ({
            let once = files.filter(other_path(f.path)).push(f);
            once.filter(other_path(f.path)).push(f) == once
        }),
{
    let kept = files.filter(other_path(f.path));
    kept.lemma_filter_push(f, other_path(f.path));
    assert forall|i: int| 0 <= i < kept.len() implies #[trigger] other_path(f.path)(kept[i]) by {
        files.lemma_filter_pred(other_path(f.path), i);
    }
    crate::text::lemma_filter_keeps_all(kept, other_path(f.path));
}

/// After `add_file`, looking up the added file's path finds the added file,
/// and it is the only file with that path.
pub proof fn law_add_then_get(files: Seq<PckFileView>, f: PckFileView)
    ensures
        ({
            let after = files.filter(other_path(f.path)).push(f);
            &&& path_index(after, f.path) == Some(after.len() - 1)
            &&& after[after.len() - 1] == f
            &&& forall|j: int| 0 <= j < after.len() - 1 ==> after[j].path != f.path
        }),
{
    let kept = files.filter(other_path(f.path));
    let after = kept.push(f);
    assert forall|j: int| 0 <= j < after.len() - 1 implies after[j].path != f.path by {
        assert(after[j] == kept[j]);
        files.lemma_filter_pred(other_path(f.path), j);
    }
    lemma_path_index(after, f.path, 0);
    assert(after[after.len() - 1] == f);
}

impl Clone for PckFile {
    /// A copy of the file.
    fn clone(&self) -> (r: PckFile)
        ensures
            r@ == self@,
    {
        let mut content: Vec<u8> = Vec::new();
        push_all(&mut content, self.content.as_slice());
        PckFile { path: self.path.clone(), offset: self.offset, content, md5: self.md5 }
    }
}

impl PckFile {
    /// A file at `path` holding `content`, with its digest; its offset is 0
    /// until the archive is written.
    pub fn new_file(path: String, content: Vec<u8>) -> (r: PckFile)
        ensures
            r@.path == path@,
            r@.offset == 0,
            r@.content == content@,
            r@.md5 == md5_digest(content@),
    {
        let md5 = md5_of(content.as_slice());
        PckFile { path, offset: 0, content, md5 }
    }

    /// Reads the table entry at the reader's position; the file's bytes are
    /// taken from `file_bytes` at the offset and size that the entry gives.
    pub fn from_bytes(pck_reader: &mut BinaryReader, file_bytes: &[u8]) -> (r: PckFile)
        requires
            reader_is_little_endian(*old(pck_reader)),
            reader_data(*old(pck_reader)).len() <= usize::MAX,
            entry_fits(reader_data(*old(pck_reader)), reader_pos(*old(pck_reader))),
        ensures
            reader_data(*final(pck_reader)) == reader_data(*old(pck_reader)),
            reader_is_little_endian(*final(pck_reader)),
            reader_pos(*final(pck_reader)) == entry_next(
                reader_data(*old(pck_reader)),
                reader_pos(*old(pck_reader)),
            ),
            r@ == entry_at(reader_data(*old(pck_reader)), reader_pos(*old(pck_reader)), file_bytes@),
    {
        let ghost t = reader_data(*pck_reader);
        let ghost p = reader_pos(*pck_reader);
        let path_length = read_u32_at(pck_reader).unwrap();
        let path_bytes = read_bytes_at(pck_reader, path_length as usize).unwrap();
        let lossy = decode_lossy(path_bytes.as_slice());
        proof {
            reveal_strlit("\0");
            reveal_strlit("");
            assert("\0"@ =~= seq!['\0']);
            assert(""@ =~= Seq::<char>::empty());
        }
        let path = replace(lossy.as_str(), "\0", "");
        let offset = read_u64_at(pck_reader).unwrap();
        let size = read_u64_at(pck_reader).unwrap();
        let md5_bytes = read_bytes_at(pck_reader, 16).unwrap();
        let content = copy_window(file_bytes, offset as usize, size as usize);
        let mut md5 = [0u8; 16];
        let mut j: usize = 0;
        while j < 16
            invariant
                j <= 16,
                md5_bytes@.len() == 16,
                forall|k: int| 0 <= k < j ==> md5@[k] == md5_bytes@[k],
            decreases 16 - j,
        {
            md5[j] = md5_bytes[j];
            j = j + 1;
        }
        assert(md5@ =~= md5_bytes@);
        let r = PckFile { path, offset, content, md5 };
        assert(r@.path == entry_at(t, p, file_bytes@).path);
        r
    }

    /// The bytes of the file.
    pub fn get_content(&self) -> (r: &[u8])
        ensures
            r@ == self@.content,
    {
        self.content.as_slice()
    }

    /// Replaces the bytes of the file and recomputes their digest; the path
    /// and the offset stay.
    pub fn set_content(&mut self, content: Vec<u8>)
        ensures
            final(self)@.content == content@,
            final(self)@.md5 == md5_digest(content@),
            final(self)@.path == old(self)@.path,
            final(self)@.offset == old(self)@.offset,
    {
        self.md5 = md5_of(content.as_slice());
        self.content = content;
    }
}

/// The `u32` stored little-endian at `p` of `b`.
fn u32_from(b: &[u8], p: usize) -> (r: u32)
    requires
        p + 4 <= b@.len(),
    ensures
        r == le32_value(b@.subrange(p as int, p + 4)),
{
    let r = (b[p] as u32) | ((b[p + 1] as u32) << 8) | ((b[p + 2] as u32) << 16) | ((b[p + 3] as u32) << 24);
    assert(b@.subrange(p as int, p + 4)[0] == b@[p as int]);
    assert(b@.subrange(p as int, p + 4)[1] == b@[p + 1]);
    assert(b@.subrange(p as int, p + 4)[2] == b@[p + 2]);
    assert(b@.subrange(p as int, p + 4)[3] == b@[p + 3]);
    r
}

impl PCK {
    /// Whether `from_bytes` can read `bytes` without running off their end
    /// (where the archive's header or file table is cut short).
    pub fn is_readable(bytes: &[u8]) -> (r: bool)
        ensures
            r == pck_readable(bytes@),
    {
        let k = match find_magic_chunk(bytes) {
            None => {
                return true;
            },
            Some(k) => k,
        };
        let total = bytes.len();
        let start = k * 16;
        let ghost t = bytes@.skip(start as int);
        let t_len = total - start;
        if t_len < 88 {
            return false;
        }
        assert(t.subrange(84, 88) =~= bytes@.subrange(start + 84, start + 88));
        let count = u32_from(bytes, start + 84);
        assert(count == u32_at(t, 84));
        assert(pck_readable(bytes@) == entries_fit(t, header_len(), count as nat));
        let mut pos: usize = 88;
        let mut i: u32 = 0;
        while i < count
            invariant
                t == bytes@.skip(start as int),
                t.len() == t_len,
                start + t_len == bytes@.len(),
                bytes@.len() == total,
                i <= count,
                pos <= t_len,
                pck_readable(bytes@) == entries_fit(t, header_len(), count as nat),
                entries_fit(t, pos as int, (count - i) as nat) == entries_fit(t, header_len(), count as nat),
            decreases count - i,
        {
            assert(entries_fit(t, pos as int, (count - i) as nat) == (entry_fits(t, pos as int)
                && entries_fit(t, entry_next(t, pos as int), (count - i - 1) as nat)));
            if t_len - pos < 4 {
                assert(!entry_fits(t, pos as int));
                return false;
            }
            assert(t.subrange(pos as int, pos + 4) =~= bytes@.subrange(start + pos, start + pos + 4));
            let n = u32_from(bytes, start + pos);
            assert(entry_path_len(t, pos as int) == n);
            if (n as u64) + 36 > (t_len - pos) as u64 {
                assert(!entry_fits(t, pos as int));
                return false;
            }
            assert(entry_next(t, pos as int) == pos + 4 + n + 32);
            pos = pos + 4 + (n as usize) + 32;
            i = i + 1;
        }
        true
    }

    /// The written length is at least the table and data lengths of the first
    /// `i + 1` files.
    proof fn lemma_len_at_least(&self, i: int)
        requires
            0 <= i < self@.files.len(),
        ensures
            pck_len(self@) >= header_len() + index_len(self@.files.take(i + 1)) + data_len(self@.files.take(i + 1)),
            index_len(self@.files.take(i + 1)) >= index_len(self@.files.take(i)) + entry_len(self@.files[i]),
            data_len(self@.files.take(i + 1)) >= data_len(self@.files.take(i)) + padded_len16(self@.files[i].content.len() as int),
    {
        let fs = self@.files;
        lemma_lens_monotone(fs, i + 1, fs.len() as int);
        assert(fs.take(fs.len() as int) =~= fs);
        assert(fs.take(i + 1).drop_last() =~= fs.take(i));
        assert(fs.take(i + 1).last() == fs[i]);
        lemma_padding_bounds(index_end(self@));
    }

    /// The length of the archive written out, where it fits in a `usize`.
    pub fn written_len(&self) -> (r: Option<usize>)
        ensures
            match r {
                Some(n) => n == pck_len(self@),
                None => pck_len(self@) > usize::MAX,
            },
    {
        let ghost fs = self@.files;
        let mut table: usize = 0;
        let mut data: usize = 0;
        let mut i: usize = 0;
        proof {
            assert(fs.take(0) =~= Seq::<PckFileView>::empty());
        }
        while i < self.files.len()
            invariant
                fs == self@.files,
                i <= self.files@.len(),
                table == index_len(fs.take(i as int)),
                data == data_len(fs.take(i as int)),
            decreases self.files@.len() - i,
        {
            let file = &self.files[i];
            let n = file.path.as_str().as_bytes().len();
            let c = file.content.len();
            proof {
                assert(fs.take(i + 1).drop_last() =~= fs.take(i as int));
                assert(fs[i as int] == file@);
                assert(fs.take(i + 1).last() == fs[i as int]);
                assert(file@.path == file.path@);
                assert(n == path_bytes(fs[i as int]).len());
                assert(c == fs[i as int].content.len());
                lemma_padding_bounds(n as int);
                lemma_padding_bounds(c as int);
            }
            if n > usize::MAX - 40 || c > usize::MAX - 16 {
                proof {
                    self.lemma_len_at_least(i as int);
                }
                return None;
            }
            let entry = 36 + n + (4 - n % 4);
            let padded = if c % 16 == 0 { c } else { c + (16 - c % 16) };
            if entry > usize::MAX - table || padded > usize::MAX - data {
                proof {
                    self.lemma_len_at_least(i as int);
                }
                return None;
            }
            table = table + entry;
            data = data + padded;
            assert(entry == entry_len(fs[i as int]));
            assert(table == index_len(fs.take(i + 1)));
            i = i + 1;
        }
        proof {
            assert(fs.take(fs.len() as int) =~= fs);
            lemma_padding_bounds(index_end(self@));
        }
        if table > usize::MAX - 88 {
            return None;
        }
        let end = 88 + table;
        if end % 16 != 0 && 16 - end % 16 > usize::MAX - end {
            return None;
        }
        let start = if end % 16 == 0 { end } else { end + (16 - end % 16) };
        if data > usize::MAX - start {
            return None;
        }
        Some(start + data)
    }

    /// Reads the archive that starts at the first 16-byte chunk of `bytes`
    /// opening with `GDPC`; with no such chunk, the error "Invalid PCK".
    pub fn from_bytes(bytes: &[u8]) -> (r: Result<PCK, &'static str>)
        requires
            pck_readable(bytes@),
        ensures
            match pck_read(bytes@) {
                None => r matches Err(e) && e@ == "Invalid PCK"@,
                Some(v) => r matches Ok(p) && p@ == v,
            },
    {
        let chunked_start = match find_magic_chunk(bytes) {
            None => {
                return Err("Invalid PCK");
            },
            Some(k) => k,
        };
        let total_len = bytes.len();
        assert(16 * chunked_start < total_len);
        let start_offset = chunked_start * 16;
        let pck = copy_from(bytes, start_offset);
        let ghost t = pck@;
        assert(t.len() == pck.len());
        let mut pck_reader = little_endian_reader(&pck);

        let _magic = read_u32_at(&mut pck_reader).unwrap();
        let version = read_u32_at(&mut pck_reader).unwrap();
        let major_version = read_u32_at(&mut pck_reader).unwrap();
        let minor_version = read_u32_at(&mut pck_reader).unwrap();
        let patch_version = read_u32_at(&mut pck_reader).unwrap();

        // Skip unused
        let _ = read_bytes_at(&mut pck_reader, 64);

        let num_files = read_u32_at(&mut pck_reader).unwrap();
        let ghost count = num_files as nat;
        let mut files: Vec<PckFile> = Vec::new();
        let mut i: u32 = 0;
        assert(files_view(files@) + entries_at(t, header_len(), count, bytes@) =~= entries_at(t, header_len(), count, bytes@));
        while i < num_files
            invariant
                i <= num_files,
                count == num_files,
                reader_data(pck_reader) == t,
                t.len() <= usize::MAX,
                reader_is_little_endian(pck_reader),
                entries_fit(t, reader_pos(pck_reader), (count - i) as nat),
                files_view(files@) + entries_at(t, reader_pos(pck_reader), (count - i) as nat, bytes@)
                    == entries_at(t, header_len(), count, bytes@),
            decreases num_files - i,
        {
            let ghost p = reader_pos(pck_reader);
            let ghost before = files_view(files@);
            let file = PckFile::from_bytes(&mut pck_reader, bytes);
            files.push(file);
            assert(files_view(files@) =~= before.push(entry_at(t, p, bytes@)));
            assert(files_view(files@) + entries_at(t, reader_pos(pck_reader), (count - i - 1) as nat, bytes@)
                =~= before + entries_at(t, p, (count - i) as nat, bytes@));
            i = i + 1;
        }
        assert(files_view(files@) =~= entries_at(t, header_len(), count, bytes@));
        Ok(PCK {
            version: version as u8,
            major_version: major_version as u8,
            minor_version: minor_version as u8,
            patch_version: patch_version as u8,
            files,
        })
    }

    /// The first file whose path is `path`, if any.
    pub fn get_file_by_path(&self, path: &str) -> (r: Option<&PckFile>)
        ensures
            match path_index(self@.files, path@) {
                None => r is None,
                Some(i) => r matches Some(f) && f@ == self@.files[i],
            },
    {
        let target = path.to_owned();
        let mut i: usize = 0;
        while i < self.files.len()
            invariant
                target@ == path@,
                i <= self.files@.len(),
                path_index_from(self@.files, path@, i as int) == path_index(self@.files, path@),
            decreases self.files@.len() - i,
        {
            if self.files[i].path == target {
                return Some(&self.files[i]);
            }
            i = i + 1;
        }
        None
    }

    /// The first file whose path is `path`, if any, to change in place.
    pub fn get_file_by_path_mut(&mut self, path: &str) -> (r: Option<&mut PckFile>)
        ensures
            match path_index(old(self)@.files, path@) {
                None => r is None && final(self)@ == old(self)@,
                Some(i) => r matches Some(f) && (*f)@ == old(self)@.files[i]
                    && final(self)@.files =~= old(self)@.files.update(i, (*final(f))@)
                    && final(self)@.version == old(self)@.version
                    && final(self)@.major_version == old(self)@.major_version
                    && final(self)@.minor_version == old(self)@.minor_version
                    && final(self)@.patch_version == old(self)@.patch_version,
            },
    {
        let target = path.to_owned();
        let mut i: usize = 0;
        while i < self.files.len()
            invariant
                target@ == path@,
                i <= self.files@.len(),
                self == old(self),
                path_index_from(self@.files, path@, i as int) == path_index(self@.files, path@),
            decreases self.files@.len() - i,
        {
            if self.files[i].path == target {
                return Some(&mut self.files[i]);
            }
            i = i + 1;
        }
        None
    }

    /// The archive written out as bytes: see `pck_bytes` for the layout.
    #[verifier::rlimit(40)]
    pub fn to_bytes(&self) -> (r: Vec<u8>)
        requires
            pck_len(self@) <= usize::MAX,
        ensures
            r@ == pck_bytes(self@),
    {
        let ghost fs = self@.files;
        proof {
            self.lemma_digests();
        }
        let mut bytes: Vec<u8> = Vec::new();
        bytes.push(0x47u8);
        bytes.push(0x44u8);
        bytes.push(0x50u8);
        bytes.push(0x43u8);
        push_le32(&mut bytes, self.version as u32);
        push_le32(&mut bytes, self.major_version as u32);
        push_le32(&mut bytes, self.minor_version as u32);
        push_le32(&mut bytes, self.patch_version as u32);
        push_zeros(&mut bytes, 64);
        push_le32(&mut bytes, self.files.len() as u32);
        assert(bytes@ =~= header_bytes(self@));
        assert(fs.len() == self.files@.len());

        proof {
            lemma_lens_monotone(fs, 0, fs.len() as int);
            assert(fs.take(fs.len() as int) =~= fs);
            lemma_padding_bounds(index_end(self@));
        }
        // Length of the file table.
        let mut table_len: usize = 0;
        let mut i: usize = 0;
        while i < self.files.len()
            invariant
                fs == self@.files,
                i <= self.files@.len(),
                table_len == index_len(fs.take(i as int)),
                index_end(self@) <= pck_len(self@) <= usize::MAX,
            decreases self.files@.len() - i,
        {
            let n = self.files[i].path.as_str().as_bytes().len();
            proof {
                lemma_lens_monotone(fs, i + 1, fs.len() as int);
                assert(fs.take(fs.len() as int) =~= fs);
                assert(fs.take(i + 1).drop_last() =~= fs.take(i as int));
                assert(fs[i as int].path == self.files@[i as int].path@);
            }
            table_len = table_len + (4 + 8 + 8 + 16) + (n + (4 - n % 4));
            i = i + 1;
        }
        assert(fs.take(fs.len() as int) =~= fs);
        let mut file_offset: usize = bytes.len() + table_len;
        if file_offset % 16 != 0 {
            file_offset = file_offset + (16 - file_offset % 16);
        }
        let file_base_offset = file_offset;
        assert(file_base_offset == data_start(self@));

        let mut content: Vec<u8> = Vec::new();
        let mut i: usize = 0;
        assert(fs.take(0) =~= Seq::<PckFileView>::empty());
        assert(bytes@ =~= header_bytes(self@) + index_bytes(fs.take(0), file_base_offset as int));
        while i < self.files.len()
            invariant
                fs == self@.files,
                digests_well_formed(fs),
                i <= self.files@.len(),
                file_base_offset == data_start(self@),
                pck_len(self@) <= usize::MAX,
                bytes@ == header_bytes(self@) + index_bytes(fs.take(i as int), file_base_offset as int),
                content@ == data_bytes(fs.take(i as int)),
                file_offset == file_base_offset + data_len(fs.take(i as int)),
            decreases self.files@.len() - i,
        {
            let file = &self.files[i];
            proof {
                lemma_lens_monotone(fs, i + 1, fs.len() as int);
                assert(fs.take(fs.len() as int) =~= fs);
                assert(fs.take(i + 1).drop_last() =~= fs.take(i as int));
                assert(fs.take(i + 1).last() == fs[i as int]);
                assert(fs[i as int] == file@);
                lemma_padding_bounds(file@.content.len() as int);
                lemma_padding_bounds(path_bytes(file@).len() as int);
                assert(index_len(fs.take(i + 1)) == index_len(fs.take(i as int)) + entry_len(file@));
                assert(data_len(fs.take(i + 1)) == data_len(fs.take(i as int)) + padded_len16(file@.content.len() as int));
                lemma_lens_nonneg(fs);
                lemma_lens_nonneg(fs.take(i as int));
                lemma_padding_bounds(index_end(self@));
                assert(index_len(fs) + header_len() <= pck_len(self@));
            }
            let padded_content_len = push_padded_content(&mut content, file);
            push_entry(&mut bytes, file, file_offset);
            assert(content@ =~= data_bytes(fs.take(i + 1)));
            assert(bytes@ =~= header_bytes(self@) + index_bytes(fs.take(i + 1), file_base_offset as int));
            file_offset = file_offset + padded_content_len;
            i = i + 1;
        }
        assert(fs.take(fs.len() as int) =~= fs);
        proof {
            lemma_index_bytes_len(fs, file_base_offset as int);
            lemma_padding_bounds(index_end(self@));
        }
        let table_end = bytes.len();
        push_zeros(&mut bytes, file_base_offset - table_end);
        push_all(&mut bytes, content.as_slice());
        bytes
    }

    /// The digests of an archive's files have 16 bytes each.
    pub proof fn lemma_digests(&self)
        ensures
            digests_well_formed(self@.files),
    {
        assert forall|i: int| 0 <= i < self@.files.len() implies #[trigger] self@.files[i].md5.len() == 16 by {
            assert(self@.files[i] == self.files@[i]@);
            vstd::array::array_len_matches_n(&self.files@[i].md5);
        }
    }

    /// Adds `new_file` at the end, dropping the files that had its path.
    pub fn add_file(&mut self, new_file: PckFile)
        ensures
            final(self)@.files == old(self)@.files.filter(other_path(new_file@.path)).push(new_file@),
            final(self)@.version == old(self)@.version,
            final(self)@.major_version == old(self)@.major_version,
            final(self)@.minor_version == old(self)@.minor_version,
            final(self)@.patch_version == old(self)@.patch_version,
    {
        let ghost pred = other_path(new_file@.path);
        let mut old_files: Vec<PckFile> = Vec::new();
        std::mem::swap(&mut old_files, &mut self.files);
        let ghost all = old_files@;
        let mut kept: Vec<PckFile> = Vec::new();
        assert(files_view(all.take(0)) =~= Seq::<PckFileView>::empty());
        assert(files_view(kept@) =~= files_view(all.take(0)).filter(pred)) by {
            reveal(Seq::filter);
        }
        for f in it: old_files.into_iter()
            invariant
                it.seq() == all,
                pred == other_path(new_file@.path),
                files_view(kept@) == files_view(all.take(it.index() as int)).filter(pred),
        {
            let ghost i = it.index();
            let ghost before = files_view(kept@);
            assert(f == all[i]);
            assert(files_view(all.take(i + 1)) =~= files_view(all.take(i)).push(f@));
            proof {
                files_view(all.take(i)).lemma_filter_push(f@, pred);
            }
            if !(f.path == new_file.path) {
                kept.push(f);
                assert(files_view(kept@) =~= before.push(all[i]@));
            } else {
                assert(f@.path == new_file@.path);
            }
        }
        assert(all.take(all.len() as int) =~= all);
        kept.push(new_file);
        assert(files_view(kept@) =~= files_view(all).filter(pred).push(new_file@));
        self.files = kept;
    }
}

} // verus!

//! The byte reader of the `binary_reader` crate, as the PCK parser uses it.

use vstd::prelude::*;
use binary_reader::{BinaryReader, Endian};
use crate::bytes::{le32_value, le64_value};

verus! {

#[verifier::external_type_specification]
#[verifier::external_body]
pub struct ExBinaryReader(BinaryReader);

/// The bytes that a `BinaryReader` reads from (its `data` field).
pub uninterp spec fn reader_data(r: BinaryReader) -> Seq<u8>;

/// The position of the next read of a `BinaryReader` (its `pos` field).
pub uninterp spec fn reader_pos(r: BinaryReader) -> int;

/// Whether a `BinaryReader` decodes numbers little-endian (its `endian` field is `Little`).
pub uninterp spec fn reader_is_little_endian(r: BinaryReader) -> bool;

/// `BinaryReader::from_vec`: the reader holds a copy of the bytes, starts at
/// position 0, and decodes big-endian (the crate's default).
#[verifier::external_body]
pub(crate) fn reader_from_vec(v: &Vec<u8>) -> (r: BinaryReader)
    ensures
        reader_data(r) == v@,
        reader_pos(r) == 0,
        !reader_is_little_endian(r),
{
    BinaryReader::from_vec(v)
}

/// `BinaryReader::set_endian` with `Endian::Little`: later reads decode
/// numbers least significant byte first; the bytes and the position stay.
#[verifier::external_body]
pub(crate) fn set_little_endian(r: &mut BinaryReader)
    ensures
        reader_data(*final(r)) == reader_data(*old(r)),
        reader_pos(*final(r)) == reader_pos(*old(r)),
        reader_is_little_endian(*final(r)),
{
    r.set_endian(Endian::Little)
}

/// `BinaryReader::read_u32`: with four bytes left it returns them decoded
/// (little-endian when the reader is set so) and moves past them; otherwise it
/// returns an error and stays where it was. The error is dropped here.
/// Nothing is said of the value decoded in the other byte orders.
#[verifier::external_body]
pub(crate) fn read_u32_at(r: &mut BinaryReader) -> (res: Option<u32>)
    requires
        0 <= reader_pos(*old(r)),
        reader_pos(*old(r)) + 4 <= usize::MAX,
    ensures
        reader_data(*final(r)) == reader_data(*old(r)),
        reader_is_little_endian(*final(r)) == reader_is_little_endian(*old(r)),
        ({
            let d = reader_data(*old(r));
            let p = reader_pos(*old(r));
            if p + 4 <= d.len() {
                &&& reader_pos(*final(r)) == p + 4
                &&& res is Some
                &&& reader_is_little_endian(*old(r)) ==> res == Some(le32_value(d.subrange(p, p + 4)))
            } else {
                &&& reader_pos(*final(r)) == p
                &&& res is None
            }
        }),
{
    r.read_u32().ok()
}

/// `BinaryReader::read_u64`: as `read_u32_at`, with eight bytes.
#[verifier::external_body]
pub(crate) fn read_u64_at(r: &mut BinaryReader) -> (res: Option<u64>)
    requires
        0 <= reader_pos(*old(r)),
        reader_pos(*old(r)) + 8 <= usize::MAX,
    ensures
        reader_data(*final(r)) == reader_data(*old(r)),
        reader_is_little_endian(*final(r)) == reader_is_little_endian(*old(r)),
        ({
            let d = reader_data(*old(r));
            let p = reader_pos(*old(r));
            if p + 8 <= d.len() {
                &&& reader_pos(*final(r)) == p + 8
                &&& res is Some
                &&& reader_is_little_endian(*old(r)) ==> res == Some(le64_value(d.subrange(p, p + 8)))
            } else {
                &&& reader_pos(*final(r)) == p
                &&& res is None
            }
        }),
{
    r.read_u64().ok()
}

/// `BinaryReader::read`: hands out the next `size` bytes when there are that
/// many, and `None` otherwise; either way the position moves on by `size`.
/// The bytes are copied out of the borrowed slice.
#[verifier::external_body]
pub(crate) fn read_bytes_at(r: &mut BinaryReader, size: usize) -> (res: Option<Vec<u8>>)
    requires
        0 <= reader_pos(*old(r)),
        reader_pos(*old(r)) + size <= usize::MAX,
    ensures
        reader_data(*final(r)) == reader_data(*old(r)),
        reader_is_little_endian(*final(r)) == reader_is_little_endian(*old(r)),
        reader_pos(*final(r)) == reader_pos(*old(r)) + size,
        ({
            let d = reader_data(*old(r));
            let p = reader_pos(*old(r));
            if p + size <= d.len() {
                res matches Some(v) && v@ == d.subrange(p, p + size)
            } else {
                res is None
            }
        }),
{
    match r.read(size) {
        Some(s) => Some(s.to_vec()),
        None => None,
    }
}

/// A reader over a copy of `data`, at position 0, decoding numbers
/// little-endian, as the archive format stores them.
pub fn little_endian_reader(data: &Vec<u8>) -> (r: BinaryReader)
    ensures
        reader_data(r) == data@,
        reader_pos(r) == 0,
        reader_is_little_endian(r),
{
    let mut r = reader_from_vec(data);
    set_little_endian(&mut r);
    r
}

} // verus!

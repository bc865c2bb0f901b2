//! Reading numbers, bit fields and text out of raw bytes.
use byteorder::{LittleEndian, ReadBytesExt};
use std::io::Cursor;
use vstd::arithmetic::power2::pow2;
use vstd::prelude::*;
use vstd::utf8::{decode_utf8, valid_utf8};

verus! {

/// The little endian 16 bit number stored at `i`.
pub open spec fn u16_at(b: Seq<u8>, i: int) -> u16 {
    (b[i] + 0x100 * b[i + 1]) as u16
}

/// The little endian 32 bit number stored at `i`.
pub open spec fn u32_at(b: Seq<u8>, i: int) -> u32 {
    (b[i] + 0x100 * b[i + 1] + 0x1_0000 * b[i + 2] + 0x100_0000 * b[i + 3]) as u32
}

/// The little endian 64 bit number stored at `i`.
pub open spec fn u64_at(b: Seq<u8>, i: int) -> u64 {
    (u32_at(b, i) + 0x1_0000_0000 * u32_at(b, i + 4)) as u64
}

/// The number that `count` bits of a byte spell, after its `skip` most significant bits.
pub open spec fn bits_of(byte: u8, skip: int, count: int) -> int {
    (byte as int / pow2((8 - skip - count) as nat) as int) % (pow2(count as nat) as int)
}

/// Reads a little endian 16 bit number with `byteorder::ReadBytesExt::read_u16`, from a cursor
/// over `raw` that stands at `pos`.
///
/// Trusted: the read succeeds exactly when two bytes are left there, and yields the number they
/// spell, least significant byte first.
#[verifier::external_body]
pub(crate) fn read_u16(raw: &[u8], pos: u64) -> (r: std::result::Result<u16, std::io::Error>)
    ensures
        r is Ok <==> pos + 2 <= raw@.len(),
        r matches Ok(v) ==> v == u16_at(raw@, pos as int),
{
    let mut cur = Cursor::new(raw);
    cur.set_position(pos);
    cur.read_u16::<LittleEndian>()
}

/// Reads a little endian 32 bit number with `byteorder::ReadBytesExt::read_u32`, from a cursor
/// over `raw` that stands at `pos`.
///
/// Trusted: the read succeeds exactly when four bytes are left there, and yields the number they
/// spell, least significant byte first.
#[verifier::external_body]
pub(crate) fn read_u32(raw: &[u8], pos: u64) -> (r: std::result::Result<u32, std::io::Error>)
    ensures
        r is Ok <==> pos + 4 <= raw@.len(),
        r matches Ok(v) ==> v == u32_at(raw@, pos as int),
{
    let mut cur = Cursor::new(raw);
    cur.set_position(pos);
    cur.read_u32::<LittleEndian>()
}

/// Reads a little endian 64 bit number with `byteorder::ReadBytesExt::read_u64`, from a cursor
/// over `raw` that stands at `pos`.
///
/// Trusted: the read succeeds exactly when eight bytes are left there, and yields the number they
/// spell, least significant byte first.
#[verifier::external_body]
pub(crate) fn read_u64(raw: &[u8], pos: u64) -> (r: std::result::Result<u64, std::io::Error>)
    ensures
        r is Ok <==> pos + 8 <= raw@.len(),
        r matches Ok(v) ==> v == u64_at(raw@, pos as int),
{
    let mut cur = Cursor::new(raw);
    cur.set_position(pos);
    cur.read_u64::<LittleEndian>()
}

/// Reads one bit with `bitreader::BitReader::read_bool`, after skipping the `skip` most
/// significant bits of `byte`.
///
/// Trusted: the read succeeds exactly when that bit exists, and tells whether it is set.
#[verifier::external_body]
pub(crate) fn read_bit(byte: u8, skip: u64) -> (r: std::result::Result<
    bool,
    bitreader::BitReaderError,
>)
    ensures
        r is Ok <==> skip < 8,
        r matches Ok(set) ==> set == (bits_of(byte, skip as int, 1) == 1),
{
    let slice = [byte];
    let mut reader = bitreader::BitReader::new(&slice);
    reader.skip(skip)?;
    reader.read_bool()
}

/// Reads `count` bits with `bitreader::BitReader::read_u8`, after skipping the `skip` most
/// significant bits of `byte`.
///
/// Trusted: the read succeeds exactly when `byte` has that many bits left, and yields the number
/// they spell, most significant bit first.
#[verifier::external_body]
pub(crate) fn read_bits(byte: u8, skip: u64, count: u8) -> (r: std::result::Result<
    u8,
    bitreader::BitReaderError,
>)
    ensures
        r is Ok <==> skip + count <= 8,
        r matches Ok(v) ==> v == bits_of(byte, skip as int, count as int),
{
    let slice = [byte];
    let mut reader = bitreader::BitReader::new(&slice);
    reader.skip(skip)?;
    reader.read_u8(count)
}

/// `String::from_utf8` takes exactly the byte sequences that are UTF-8, and yields the text that
/// they encode.
pub assume_specification[ String::from_utf8 ](vec: Vec<u8>) -> (r: std::result::Result<
    String,
    std::string::FromUtf8Error,
>)
    ensures
        r is Ok <==> valid_utf8(vec@),
        r matches Ok(s) ==> s@ == decode_utf8(vec@),
;

/// Numbers are stored with their least significant byte first: a number's lower half lies in front
/// of its upper half.
pub proof fn lower_halves_come_first(b: Seq<u8>, i: int)
    ensures
        u16_at(b, i) == b[i] + 256 * b[i + 1],
        u32_at(b, i) == u16_at(b, i) + 65536 * u16_at(b, i + 2),
        u64_at(b, i) == u32_at(b, i) + 4294967296 * u32_at(b, i + 4),
{
}

} // verus!
